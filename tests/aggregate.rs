use cache_updater::aggregate::{aggregate, Aggregate, SourceRow};
use cache_updater::cache::{load_cache, CacheRow};

fn row(value: Option<&str>, healthy: Option<bool>) -> SourceRow {
    SourceRow { value: value.map(String::from), healthy }
}

fn counts(a: &Aggregate, key: &str) -> Option<(u64, u64)> {
    a.get(&String::from(key))
}

fn sample_rows() -> Vec<SourceRow> {
    vec![
        row(Some("Rust, Go"), Some(true)),
        row(Some("rust"), Some(false)),
        row(None, Some(true)),
        row(Some("go,GO"), None),
        row(Some(" , "), Some(true)),
    ]
}

#[test]
fn counts_every_occurrence() {
    let a = aggregate(&sample_rows(), 100);
    assert_eq!(counts(&a, "rust"), Some((2, 1)));
    assert_eq!(counts(&a, "go"), Some((3, 1)));
    assert_eq!(counts(&a, ""), None);
    assert_eq!(a.entries.len(), 2);
}

#[test]
fn duplicate_key_in_one_row_counts_twice() {
    let a = aggregate(&vec![row(Some("zig,Zig, zig"), Some(true))], 100);
    assert_eq!(counts(&a, "zig"), Some((3, 3)));
}

#[test]
fn no_rows_give_empty_aggregate() {
    let a = aggregate(&Vec::new(), 100);
    assert!(a.entries.is_empty());
}

#[test]
fn positive_never_exceeds_total() {
    let a = aggregate(&sample_rows(), 100);
    for e in &a.entries {
        assert!(e.positive <= e.total);
    }
}

#[test]
fn aggregating_twice_gives_same_table() {
    let rows = sample_rows();
    let a = aggregate(&rows, 100);
    let b = aggregate(&rows, 100);
    assert_eq!(a.entries.len(), b.entries.len());
    for e in &a.entries {
        assert_eq!(b.get(&e.key), Some((e.total, e.positive)));
    }
}

#[test]
fn keys_are_cut_before_counting() {
    let a = aggregate(&vec![row(Some("abcdef"), Some(true)), row(Some("ABCxyz"), Some(false))], 3);
    assert_eq!(counts(&a, "abc"), Some((2, 1)));
}

#[test]
fn set_adds_then_overwrites() {
    let mut a = Aggregate::new();
    a.set(String::from("go"), 5, 3);
    a.set(String::from("go"), 7, 4);
    assert_eq!(counts(&a, "go"), Some((7, 4)));
    assert_eq!(a.entries.len(), 1);
}

#[test]
fn cache_rows_default_and_later_row_wins() {
    let rows = vec![
        CacheRow { key: String::from("Go"), total: Some(5), positive: None },
        CacheRow { key: String::from("rust"), total: None, positive: None },
        CacheRow { key: String::from("Go"), total: Some(9), positive: Some(2) },
    ];
    let c = load_cache(&rows);
    assert_eq!(counts(&c, "Go"), Some((9, 2)));
    assert_eq!(counts(&c, "go"), None);
    assert_eq!(counts(&c, "rust"), Some((0, 0)));
    assert_eq!(c.entries.len(), 2);
}
