use cache_updater::normalize::{normalize_keys, normalize_piece};

fn keys(raw: &str, max: usize) -> Vec<String> {
    normalize_keys(raw, max)
}

#[test]
fn splits_trims_and_lowercases_keeping_duplicates() {
    assert_eq!(keys("Rust, rust , C++,,  Go", 100), vec!["rust", "rust", "c++", "go"]);
}

#[test]
fn truncates_long_piece() {
    assert_eq!(keys("verylongvalueexceedinglimit", 5), vec!["veryl"]);
    assert_eq!(normalize_piece("verylongvalueexceedinglimit", 5), "veryl");
}

#[test]
fn short_piece_is_not_padded_or_cut() {
    assert_eq!(normalize_piece("  Go  ", 100), "go");
    assert_eq!(normalize_piece("abc", 3), "abc");
}

#[test]
fn empty_and_blank_values_give_no_keys() {
    assert!(keys("", 100).is_empty());
    assert!(keys(",, ,  ,", 100).is_empty());
    assert!(keys("   ", 100).is_empty());
}

#[test]
fn zero_max_length_gives_no_keys() {
    assert!(keys("rust,go", 0).is_empty());
}

#[test]
fn truncation_counts_characters_not_bytes() {
    assert_eq!(keys("ÜBER,Ärger", 2), vec!["üb", "är"]);
}

#[test]
fn truncation_may_end_on_inner_space() {
    assert_eq!(keys("ab cd", 3), vec!["ab "]);
}

#[test]
fn every_key_is_normalized() {
    let max = 4;
    let out = keys("  Hello World ,X,\tTab\t, ,LONGER VALUE,Mixed", max);
    assert_eq!(out, vec!["hell", "x", "tab", "long", "mixe"]);
    for k in &out {
        assert!(!k.is_empty());
        assert!(k.chars().count() <= max);
        assert_eq!(k, &k.to_lowercase());
        assert_eq!(k.trim_start(), k.as_str());
    }
}
