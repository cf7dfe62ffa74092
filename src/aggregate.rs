//! Per-key counters and the table that holds them.
use vstd::prelude::*;
use crate::normalize::{keys_of, lemma_keys_shape, lemma_split_len, normalize_keys};

verus! {

/// The counters of one key: how often it occurred (`total`) and how often it
/// occurred on a row whose flag was set (`positive`).
#[derive(Debug)]
pub struct KeyCount {
    pub key: String,
    pub total: u64,
    pub positive: u64,
}

impl KeyCount {
    /// The counters as mathematical integers.
    pub open spec fn counts(&self) -> (nat, nat) {
        (self.total as nat, self.positive as nat)
    }

    /// A copy of this entry.
    pub fn duplicate(&self) -> (r: KeyCount)
        ensures
            r == *self,
    {
        KeyCount { key: self.key.clone(), total: self.total, positive: self.positive }
    }
}

/// The map that a list of entries describes; a later entry for a key
/// overrides an earlier one.
pub open spec fn entries_map(e: Seq<KeyCount>) -> Map<Seq<char>, (nat, nat)>
    decreases e.len(),
{
    if e.len() == 0 {
        Map::empty()
    } else {
        entries_map(e.drop_last()).insert(e.last().key@, e.last().counts())
    }
}

/// No two entries share a key.
pub open spec fn distinct_keys(e: Seq<KeyCount>) -> bool {
    forall|i: int, j: int|
        0 <= i < e.len() && 0 <= j < e.len() && i != j ==> e[i].key@ != e[j].key@
}

pub proof fn lemma_entries_map_dom(e: Seq<KeyCount>, k: Seq<char>)
    ensures
        entries_map(e).contains_key(k) <==> exists|i: int| 0 <= i < e.len() && e[i].key@ == k,
    decreases e.len(),
{
    if e.len() > 0 {
        lemma_entries_map_dom(e.drop_last(), k);
        if entries_map(e.drop_last()).contains_key(k) {
            let i = choose|i: int| 0 <= i < e.drop_last().len() && e.drop_last()[i].key@ == k;
            assert(e[i].key@ == k);
        }
        if exists|i: int| 0 <= i < e.len() && e[i].key@ == k {
            let i = choose|i: int| 0 <= i < e.len() && e[i].key@ == k;
            if i < e.len() - 1 {
                assert(e.drop_last()[i].key@ == k);
            }
        }
    }
}

pub proof fn lemma_entries_map_index(e: Seq<KeyCount>, i: int)
    requires
        distinct_keys(e),
        0 <= i < e.len(),
    ensures
        entries_map(e).contains_key(e[i].key@),
        entries_map(e)[e[i].key@] == e[i].counts(),
    decreases e.len(),
{
    if i < e.len() - 1 {
        lemma_entries_map_index(e.drop_last(), i);
        assert(e.drop_last()[i] == e[i]);
    }
}

proof fn lemma_entries_map_update(e: Seq<KeyCount>, j: int, x: KeyCount)
    requires
        distinct_keys(e),
        0 <= j < e.len(),
        e[j].key@ == x.key@,
    ensures
        distinct_keys(e.update(j, x)),
        entries_map(e.update(j, x)) == entries_map(e).insert(x.key@, x.counts()),
    decreases e.len(),
{
    let u = e.update(j, x);
    assert forall|a: int, b: int|
        0 <= a < u.len() && 0 <= b < u.len() && a != b implies u[a].key@ != u[b].key@ by {
        assert(u[a].key@ == e[a].key@ && u[b].key@ == e[b].key@);
    }
    if j == e.len() - 1 {
        assert(u.drop_last() =~= e.drop_last());
        assert(entries_map(u) =~= entries_map(e).insert(x.key@, x.counts()));
    } else {
        assert(u.drop_last() =~= e.drop_last().update(j, x));
        lemma_entries_map_update(e.drop_last(), j, x);
        assert(e.last().key@ != x.key@);
        assert(entries_map(u) =~= entries_map(e).insert(x.key@, x.counts()));
    }
}

pub proof fn lemma_entries_map_push(e: Seq<KeyCount>, x: KeyCount)
    requires
        distinct_keys(e),
        !entries_map(e).contains_key(x.key@),
    ensures
        distinct_keys(e.push(x)),
        entries_map(e.push(x)) == entries_map(e).insert(x.key@, x.counts()),
{
    assert(e.push(x).drop_last() =~= e);
    assert forall|i: int| 0 <= i < e.len() implies e[i].key@ != x.key@ by {
        lemma_entries_map_index(e, i);
    }
    let p = e.push(x);
    assert forall|a: int, b: int|
        0 <= a < p.len() && 0 <= b < p.len() && a != b implies p[a].key@ != p[b].key@ by {
        if a < e.len() && b < e.len() {
            assert(p[a] == e[a] && p[b] == e[b]);
        }
    }
}

/// One source row: a raw multi-valued field, which may be missing, and a
/// flag, which may be missing too.
#[derive(Debug)]
pub struct SourceRow {
    pub value: Option<String>,
    pub healthy: Option<bool>,
}

/// The raw value of a row; a missing value reads as empty.
pub open spec fn raw_of(row: SourceRow) -> Seq<char> {
    match row.value {
        Some(s) => s@,
        None => Seq::empty(),
    }
}

/// The flag of a row; a missing flag reads as unset.
pub open spec fn healthy_of(row: SourceRow) -> bool {
    row.healthy == Some(true)
}

/// `m` after one more occurrence of `k`, on a row whose flag is `healthy`.
pub open spec fn count_key(m: Map<Seq<char>, (nat, nat)>, k: Seq<char>, healthy: bool) -> Map<
    Seq<char>,
    (nat, nat),
> {
    let c = if m.contains_key(k) {
        m[k]
    } else {
        (0nat, 0nat)
    };
    m.insert(k, ((c.0 + 1) as nat, if healthy { (c.1 + 1) as nat } else { c.1 }))
}

/// `m` after an occurrence of each of `keys`, in order.
pub open spec fn count_keys(m: Map<Seq<char>, (nat, nat)>, keys: Seq<Seq<char>>, healthy: bool) -> Map<
    Seq<char>,
    (nat, nat),
>
    decreases keys.len(),
{
    if keys.len() == 0 {
        m
    } else {
        count_key(count_keys(m, keys.drop_last(), healthy), keys.last(), healthy)
    }
}

/// The counters of every key that the rows' values hold, keys cut to `max`
/// characters.
pub open spec fn aggregate_of(rows: Seq<SourceRow>, max: nat) -> Map<Seq<char>, (nat, nat)>
    decreases rows.len(),
{
    if rows.len() == 0 {
        Map::empty()
    } else {
        count_keys(
            aggregate_of(rows.drop_last(), max),
            keys_of(raw_of(rows.last()), max),
            healthy_of(rows.last()),
        )
    }
}

/// An upper bound on the number of keys that the rows can give: one more
/// than the length of each value.
pub open spec fn key_budget(rows: Seq<SourceRow>) -> nat
    decreases rows.len(),
{
    if rows.len() == 0 {
        0
    } else {
        key_budget(rows.drop_last()) + raw_of(rows.last()).len() + 1
    }
}

proof fn lemma_key_budget_prefix(rows: Seq<SourceRow>, i: int)
    requires
        0 <= i <= rows.len(),
    ensures
        key_budget(rows.take(i)) <= key_budget(rows),
    decreases rows.len(),
{
    if i < rows.len() {
        assert(rows.drop_last().take(i) =~= rows.take(i));
        lemma_key_budget_prefix(rows.drop_last(), i);
    } else {
        assert(rows.take(i) =~= rows);
    }
}

proof fn lemma_count_keys_bounded(m: Map<Seq<char>, (nat, nat)>, keys: Seq<Seq<char>>, healthy: bool)
    requires
        forall|k: Seq<char>| #[trigger] m.contains_key(k) ==> m[k].1 <= m[k].0,
    ensures
        forall|k: Seq<char>| #[trigger]
            count_keys(m, keys, healthy).contains_key(k) ==> count_keys(m, keys, healthy)[k].1
                <= count_keys(m, keys, healthy)[k].0,
    decreases keys.len(),
{
    if keys.len() > 0 {
        lemma_count_keys_bounded(m, keys.drop_last(), healthy);
        let prev = count_keys(m, keys.drop_last(), healthy);
        let next = count_keys(m, keys, healthy);
        assert forall|k: Seq<char>| #[trigger] next.contains_key(k) implies next[k].1 <= next[k].0 by {
            if k != keys.last() {
                assert(prev.contains_key(k));
            }
        }
    }
}

/// For every key of an aggregate, `positive` never exceeds `total`.
pub proof fn lemma_positive_le_total(rows: Seq<SourceRow>, max: nat)
    ensures
        forall|k: Seq<char>| #[trigger]
            aggregate_of(rows, max).contains_key(k) ==> aggregate_of(rows, max)[k].1
                <= aggregate_of(rows, max)[k].0,
    decreases rows.len(),
{
    if rows.len() > 0 {
        lemma_positive_le_total(rows.drop_last(), max);
        lemma_count_keys_bounded(
            aggregate_of(rows.drop_last(), max),
            keys_of(raw_of(rows.last()), max),
            healthy_of(rows.last()),
        );
    }
}

/// How often `k` occurs in `keys`.
pub open spec fn count_in(keys: Seq<Seq<char>>, k: Seq<char>) -> nat
    decreases keys.len(),
{
    if keys.len() == 0 {
        0
    } else {
        count_in(keys.drop_last(), k) + if keys.last() == k {
            1nat
        } else {
            0nat
        }
    }
}

/// How often `k` occurs among the keys of all rows.
pub open spec fn occurrences(rows: Seq<SourceRow>, max: nat, k: Seq<char>) -> nat
    decreases rows.len(),
{
    if rows.len() == 0 {
        0
    } else {
        occurrences(rows.drop_last(), max, k) + count_in(keys_of(raw_of(rows.last()), max), k)
    }
}

/// How often `k` occurs among the keys of the rows whose flag is set.
pub open spec fn healthy_occurrences(rows: Seq<SourceRow>, max: nat, k: Seq<char>) -> nat
    decreases rows.len(),
{
    if rows.len() == 0 {
        0
    } else {
        healthy_occurrences(rows.drop_last(), max, k) + if healthy_of(rows.last()) {
            count_in(keys_of(raw_of(rows.last()), max), k)
        } else {
            0nat
        }
    }
}

/// The counters of `k` in `m`, zero where `m` lacks it.
pub open spec fn counts_or_zero(m: Map<Seq<char>, (nat, nat)>, k: Seq<char>) -> (nat, nat) {
    if m.contains_key(k) {
        m[k]
    } else {
        (0, 0)
    }
}

proof fn lemma_count_keys_value(
    m: Map<Seq<char>, (nat, nat)>,
    keys: Seq<Seq<char>>,
    healthy: bool,
    k: Seq<char>,
)
    ensures
        count_keys(m, keys, healthy).contains_key(k) <==> m.contains_key(k) || count_in(keys, k)
            > 0,
        counts_or_zero(count_keys(m, keys, healthy), k) == (
            (counts_or_zero(m, k).0 + count_in(keys, k)) as nat,
            (counts_or_zero(m, k).1 + if healthy {
                count_in(keys, k)
            } else {
                0nat
            }) as nat,
        ),
    decreases keys.len(),
{
    if keys.len() > 0 {
        lemma_count_keys_value(m, keys.drop_last(), healthy, k);
    }
}

/// A key is in the aggregate exactly when it occurs in some row, and then its
/// `total` is the number of its occurrences over all rows and its `positive`
/// the number of those on rows whose flag is set.
pub proof fn lemma_aggregate_counts(rows: Seq<SourceRow>, max: nat, k: Seq<char>)
    ensures
        aggregate_of(rows, max).contains_key(k) <==> occurrences(rows, max, k) > 0,
        counts_or_zero(aggregate_of(rows, max), k) == (
            occurrences(rows, max, k),
            healthy_occurrences(rows, max, k),
        ),
    decreases rows.len(),
{
    if rows.len() > 0 {
        lemma_aggregate_counts(rows.drop_last(), max, k);
        lemma_count_keys_value(
            aggregate_of(rows.drop_last(), max),
            keys_of(raw_of(rows.last()), max),
            healthy_of(rows.last()),
            k,
        );
    }
}

/// Two aggregations of the same rows give equal tables.
pub proof fn lemma_aggregate_repeatable(rows: Seq<SourceRow>, max: nat, a: Aggregate, b: Aggregate)
    requires
        a@ == aggregate_of(rows, max),
        b@ == aggregate_of(rows, max),
    ensures
        a@ == b@,
{
}

/// A table of counters keyed by string, one entry per key.
pub struct Aggregate {
    pub entries: Vec<KeyCount>,
}

impl View for Aggregate {
    type V = Map<Seq<char>, (nat, nat)>;

    open spec fn view(&self) -> Map<Seq<char>, (nat, nat)> {
        entries_map(self.entries@)
    }
}

impl Aggregate {
    /// Keys are unique.
    pub open spec fn wf(&self) -> bool {
        distinct_keys(self.entries@)
    }

    /// An empty table.
    pub fn new() -> (r: Aggregate)
        ensures
            r.wf(),
            r@ == Map::<Seq<char>, (nat, nat)>::empty(),
    {
        Aggregate { entries: Vec::new() }
    }

    /// The position of `key`, if the table holds it.
    pub fn find(&self, key: &String) -> (r: Option<usize>)
        requires
            self.wf(),
        ensures
            match r {
                Some(i) => i < self.entries@.len() && self.entries@[i as int].key@ == key@,
                None => !self@.contains_key(key@),
            },
    {
        let mut i: usize = 0;
        while i < self.entries.len()
            invariant
                i <= self.entries@.len(),
                forall|j: int| 0 <= j < i ==> self.entries@[j].key@ != key@,
            decreases self.entries@.len() - i,
        {
            if self.entries[i].key == *key {
                return Some(i);
            }
            i = i + 1;
        }
        proof {
            lemma_entries_map_dom(self.entries@, key@);
        }
        None
    }

    /// The counters of `key`, if the table holds it.
    pub fn get(&self, key: &String) -> (r: Option<(u64, u64)>)
        requires
            self.wf(),
        ensures
            match r {
                Some(c) => self@.contains_key(key@) && self@[key@] == (c.0 as nat, c.1 as nat),
                None => !self@.contains_key(key@),
            },
    {
        match self.find(key) {
            Some(i) => {
                proof {
                    lemma_entries_map_index(self.entries@, i as int);
                }
                Some((self.entries[i].total, self.entries[i].positive))
            },
            None => None,
        }
    }

    /// Sets the counters of `key`, adding the key if it is new.
    pub fn set(&mut self, key: String, total: u64, positive: u64)
        requires
            old(self).wf(),
        ensures
            final(self).wf(),
            final(self)@ == old(self)@.insert(key@, (total as nat, positive as nat)),
    {
        let entry = KeyCount { key, total, positive };
        match self.find(&entry.key) {
            Some(i) => {
                proof {
                    lemma_entries_map_update(self.entries@, i as int, entry);
                }
                self.entries.set(i, entry);
            },
            None => {
                proof {
                    lemma_entries_map_push(self.entries@, entry);
                }
                self.entries.push(entry);
            },
        }
    }

    /// Counts one occurrence of `key`, on a row whose flag is `healthy`.
    pub fn count(&mut self, key: String, healthy: bool)
        requires
            old(self).wf(),
            old(self)@.contains_key(key@) ==> old(self)@[key@].0 < u64::MAX && old(self)@[key@].1
                < u64::MAX,
        ensures
            final(self).wf(),
            final(self)@ == count_key(old(self)@, key@, healthy),
    {
        match self.find(&key) {
            Some(i) => {
                proof {
                    lemma_entries_map_index(self.entries@, i as int);
                }
                let total = self.entries[i].total + 1;
                let positive = if healthy {
                    self.entries[i].positive + 1
                } else {
                    self.entries[i].positive
                };
                self.set(key, total, positive);
            },
            None => {
                let positive: u64 = if healthy {
                    1
                } else {
                    0
                };
                self.set(key, 1, positive);
            },
        }
    }
}

/// Counts the keys of every row: each occurrence of a key adds one to its
/// `total`, and one to its `positive` where the row's flag is set. The bound
/// on the rows' lengths keeps every counter within `u64`.
pub fn aggregate(rows: &Vec<SourceRow>, max: usize) -> (r: Aggregate)
    requires
        key_budget(rows@) <= u64::MAX,
    ensures
        r.wf(),
        r@ == aggregate_of(rows@, max as nat),
        forall|k: Seq<char>| #[trigger]
            r@.contains_key(k) <==> occurrences(rows@, max as nat, k) > 0,
        forall|k: Seq<char>| #[trigger]
            counts_or_zero(r@, k) == (
                occurrences(rows@, max as nat, k),
                healthy_occurrences(rows@, max as nat, k),
            ),
        forall|k: Seq<char>| #[trigger] r@.contains_key(k) ==> r@[k].1 <= r@[k].0,
{
    let mut agg = Aggregate::new();
    let mut i: usize = 0;
    proof {
        assert(rows@.take(0) =~= Seq::<SourceRow>::empty());
    }
    while i < rows.len()
        invariant
            i <= rows@.len(),
            key_budget(rows@) <= u64::MAX,
            agg.wf(),
            agg@ == aggregate_of(rows@.take(i as int), max as nat),
            forall|k: Seq<char>|
                #[trigger] agg@.contains_key(k) ==> agg@[k].1 <= agg@[k].0 <= key_budget(
                    rows@.take(i as int),
                ),
        decreases rows@.len() - i,
    {
        let row = &rows[i];
        let keys = match &row.value {
            Some(s) => normalize_keys(s.as_str(), max),
            None => {
                proof {
                    reveal_strlit("");
                    assert(""@ =~= Seq::<char>::empty());
                }
                normalize_keys("", max)
            },
        };
        let healthy = match row.healthy {
            Some(b) => b,
            None => false,
        };
        let ghost base = agg@;
        let ghost bound = key_budget(rows@.take(i as int));
        proof {
            lemma_keys_shape(raw_of(*row), max as nat);
            lemma_split_len(raw_of(*row));
            assert(rows@.take(i + 1).drop_last() =~= rows@.take(i as int));
            lemma_key_budget_prefix(rows@, i + 1);
            assert(keys.deep_view().take(0) =~= Seq::<Seq<char>>::empty());
        }
        let mut j: usize = 0;
        while j < keys.len()
            invariant
                i < rows@.len(),
                j <= keys@.len(),
                keys.deep_view() == keys_of(raw_of(rows@[i as int]), max as nat),
                bound + keys@.len() <= key_budget(rows@.take(i + 1)) <= u64::MAX,
                agg.wf(),
                agg@ == count_keys(base, keys.deep_view().take(j as int), healthy),
                forall|k: Seq<char>|
                    #[trigger] agg@.contains_key(k) ==> agg@[k].1 <= agg@[k].0 <= bound + j,
            decreases keys@.len() - j,
        {
            let key = keys[j].clone();
            proof {
                assert(keys.deep_view()[j as int] == key@);
                assert(keys.deep_view().take(j + 1).drop_last() =~= keys.deep_view().take(
                    j as int,
                ));
            }
            agg.count(key, healthy);
            j = j + 1;
        }
        proof {
            assert(keys.deep_view().take(keys@.len() as int) =~= keys.deep_view());
        }
        i = i + 1;
    }
    proof {
        assert(rows@.take(rows@.len() as int) =~= rows@);
        assert forall|k: Seq<char>| #[trigger]
            agg@.contains_key(k) <==> occurrences(rows@, max as nat, k) > 0 by {
            lemma_aggregate_counts(rows@, max as nat, k);
        }
        assert forall|k: Seq<char>| #[trigger]
            counts_or_zero(agg@, k) == (
                occurrences(rows@, max as nat, k),
                healthy_occurrences(rows@, max as nat, k),
            ) by {
            lemma_aggregate_counts(rows@, max as nat, k);
        }
    }
    agg
}

} // verus!
