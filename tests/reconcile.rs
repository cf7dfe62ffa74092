use std::collections::{HashMap, HashSet};

use cache_updater::aggregate::Aggregate;
use cache_updater::binding::{tracked_fields, MAX_KEY_LEN};
use cache_updater::reconcile::{reconcile, Operation, Reconciliation};

fn table(items: &[(&str, u64, u64)]) -> Aggregate {
    let mut a = Aggregate::new();
    for (k, t, p) in items {
        a.set(String::from(*k), *t, *p);
    }
    a
}

fn as_map(a: &Aggregate) -> HashMap<String, (u64, u64)> {
    a.entries.iter().map(|e| (e.key.clone(), (e.total, e.positive))).collect()
}

fn apply(old: &Aggregate, r: &Reconciliation) -> HashMap<String, (u64, u64)> {
    let mut m = as_map(old);
    for op in r.operations() {
        match op {
            Operation::Insert(e) => {
                m.insert(e.key, (e.total, e.positive));
            }
            Operation::Update(e) => {
                if let Some(v) = m.get_mut(&e.key) {
                    *v = (e.total, e.positive);
                }
            }
            Operation::Delete(k) => {
                m.remove(&k);
            }
        }
    }
    m
}

fn triple(e: &cache_updater::aggregate::KeyCount) -> (String, u64, u64) {
    (e.key.clone(), e.total, e.positive)
}

#[test]
fn new_key_inserted_and_existing_updated() {
    let old = table(&[("go", 5, 3)]);
    let new = table(&[("go", 7, 4), ("zig", 1, 1)]);
    let r = reconcile(&new, &old);
    let ins: Vec<_> = r.inserts.iter().map(triple).collect();
    let upd: Vec<_> = r.updates.iter().map(triple).collect();
    assert_eq!(ins, vec![(String::from("zig"), 1, 1)]);
    assert_eq!(upd, vec![(String::from("go"), 7, 4)]);
    assert!(r.deletes.is_empty());
}

#[test]
fn unchanged_key_still_updated_and_missing_key_deleted() {
    let old = table(&[("go", 5, 3), ("rust", 2, 2)]);
    let new = table(&[("go", 5, 3)]);
    let r = reconcile(&new, &old);
    assert!(r.inserts.is_empty());
    let upd: Vec<_> = r.updates.iter().map(triple).collect();
    assert_eq!(upd, vec![(String::from("go"), 5, 3)]);
    assert_eq!(r.deletes, vec![String::from("rust")]);
}

#[test]
fn equal_tables_insert_and_delete_nothing() {
    let t = table(&[("go", 5, 3), ("rust", 2, 2)]);
    let r = reconcile(&t, &table(&[("go", 5, 3), ("rust", 2, 2)]));
    assert!(r.inserts.is_empty());
    assert!(r.deletes.is_empty());
    assert_eq!(r.updates.len(), 2);
}

#[test]
fn empty_tables_give_no_operations() {
    let r = reconcile(&Aggregate::new(), &Aggregate::new());
    assert!(r.operations().is_empty());
}

#[test]
fn applying_operations_converges() {
    let old = table(&[("go", 5, 3), ("rust", 2, 2), ("c", 1, 0)]);
    let new = table(&[("go", 6, 3), ("zig", 1, 1), ("c", 1, 0), ("odin", 4, 2)]);
    let r = reconcile(&new, &old);
    assert_eq!(apply(&old, &r), as_map(&new));
}

#[test]
fn operation_key_sets_partition_both_tables() {
    let old = table(&[("go", 5, 3), ("rust", 2, 2), ("c", 1, 0)]);
    let new = table(&[("go", 6, 3), ("zig", 1, 1), ("c", 1, 0)]);
    let r = reconcile(&new, &old);
    let ins: HashSet<String> = r.inserts.iter().map(|e| e.key.clone()).collect();
    let upd: HashSet<String> = r.updates.iter().map(|e| e.key.clone()).collect();
    let del: HashSet<String> = r.deletes.iter().cloned().collect();
    assert!(ins.is_disjoint(&upd) && ins.is_disjoint(&del) && upd.is_disjoint(&del));
    let all: HashSet<String> = ins.union(&upd).chain(del.iter()).cloned().collect();
    let keys: HashSet<String> =
        as_map(&old).keys().chain(as_map(&new).keys()).cloned().collect();
    assert_eq!(all, keys);
    assert_eq!(ins, HashSet::from([String::from("zig")]));
    assert_eq!(upd, HashSet::from([String::from("go"), String::from("c")]));
    assert_eq!(del, HashSet::from([String::from("rust")]));
}

#[test]
fn operations_put_inserts_then_updates_then_deletes() {
    let old = table(&[("go", 5, 3), ("rust", 2, 2)]);
    let new = table(&[("go", 7, 4), ("zig", 1, 1)]);
    let ops = reconcile(&new, &old).operations();
    assert_eq!(ops.len(), 3);
    assert!(matches!(&ops[0], Operation::Insert(e) if e.key == "zig" && e.total == 1));
    assert!(matches!(&ops[1], Operation::Update(e) if e.key == "go" && e.positive == 4));
    assert!(matches!(&ops[2], Operation::Delete(k) if k == "rust"));
}

#[test]
fn tracked_fields_are_language_then_tags() {
    let f = tracked_fields();
    assert_eq!(f.len(), 2);
    assert_eq!((f[0].field.as_str(), f[0].table.as_str(), f[0].key_column.as_str()),
        ("Language", "LanguageCache", "LanguageName"));
    assert_eq!((f[1].field.as_str(), f[1].table.as_str(), f[1].key_column.as_str()),
        ("Tags", "TagCache", "TagName"));
    assert_eq!(f[0].max_key_len, MAX_KEY_LEN);
    assert_eq!(MAX_KEY_LEN, 100);
}
