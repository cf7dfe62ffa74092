//! Working out the operations that turn the cached counters into the new ones.
use vstd::prelude::*;
use crate::aggregate::{
    distinct_keys, entries_map, lemma_entries_map_dom, lemma_entries_map_index,
    lemma_entries_map_push, Aggregate,
    KeyCount,
};

verus! {

/// The operations that bring a cache in line with a new table: keys to add,
/// keys whose counters to overwrite, and keys to remove.
#[derive(Debug)]
pub struct Reconciliation {
    pub inserts: Vec<KeyCount>,
    pub updates: Vec<KeyCount>,
    pub deletes: Vec<String>,
}

/// One write to the cache table.
#[derive(Debug)]
pub enum Operation {
    Insert(KeyCount),
    Update(KeyCount),
    Delete(String),
}

impl Reconciliation {
    /// All inserts, then all updates, then all deletes.
    pub open spec fn planned(&self) -> Seq<Operation> {
        self.inserts@.map_values(|x: KeyCount| Operation::Insert(x)) + self.updates@.map_values(
            |x: KeyCount| Operation::Update(x),
        ) + self.deletes@.map_values(|k: String| Operation::Delete(k))
    }

    /// The operations in the order in which they are applied: every insert,
    /// then every update, then every delete.
    pub fn operations(&self) -> (r: Vec<Operation>)
        ensures
            r@ == self.planned(),
    {
        let mut ops: Vec<Operation> = Vec::new();
        let ghost ins = self.inserts@.map_values(|x: KeyCount| Operation::Insert(x));
        let ghost upd = self.updates@.map_values(|x: KeyCount| Operation::Update(x));
        let ghost del = self.deletes@.map_values(|k: String| Operation::Delete(k));
        let mut i: usize = 0;
        while i < self.inserts.len()
            invariant
                i <= self.inserts@.len(),
                ins == self.inserts@.map_values(|x: KeyCount| Operation::Insert(x)),
                ops@ == ins.take(i as int),
            decreases self.inserts@.len() - i,
        {
            ops.push(Operation::Insert(self.inserts[i].duplicate()));
            assert(ops@ =~= ins.take(i + 1));
            i = i + 1;
        }
        assert(ops@ =~= ins);
        i = 0;
        while i < self.updates.len()
            invariant
                i <= self.updates@.len(),
                upd == self.updates@.map_values(|x: KeyCount| Operation::Update(x)),
                ops@ == ins + upd.take(i as int),
            decreases self.updates@.len() - i,
        {
            ops.push(Operation::Update(self.updates[i].duplicate()));
            assert(ops@ =~= ins + upd.take(i + 1));
            i = i + 1;
        }
        assert(ops@ =~= ins + upd);
        i = 0;
        while i < self.deletes.len()
            invariant
                i <= self.deletes@.len(),
                del == self.deletes@.map_values(|k: String| Operation::Delete(k)),
                ops@ == ins + upd + del.take(i as int),
            decreases self.deletes@.len() - i,
        {
            ops.push(Operation::Delete(self.deletes[i].clone()));
            assert(ops@ =~= ins + upd + del.take(i + 1));
            i = i + 1;
        }
        assert(ops@ =~= ins + upd + del);
        ops
    }
}

/// `r` inserts the keys that only `new` has, updates every key that both
/// have, with the counters of `new`, and deletes the keys that only `old` has,
/// each key once.
pub open spec fn reconciles(
    r: Reconciliation,
    new: Map<Seq<char>, (nat, nat)>,
    old: Map<Seq<char>, (nat, nat)>,
) -> bool {
    &&& distinct_keys(r.inserts@)
    &&& entries_map(r.inserts@) == new.remove_keys(old.dom())
    &&& distinct_keys(r.updates@)
    &&& entries_map(r.updates@) == new.restrict(old.dom())
    &&& r.deletes.deep_view().no_duplicates()
    &&& r.deletes.deep_view().to_set() == old.dom().difference(new.dom())
}

proof fn lemma_distinct_prefix(e: Seq<KeyCount>, i: int)
    requires
        distinct_keys(e),
        0 <= i < e.len(),
    ensures
        distinct_keys(e.take(i)),
        distinct_keys(e.take(i + 1)),
        !entries_map(e.take(i)).contains_key(e[i].key@),
        entries_map(e.take(i + 1)) == entries_map(e.take(i)).insert(e[i].key@, e[i].counts()),
{
    assert(e.take(i + 1).drop_last() =~= e.take(i));
    lemma_entries_map_dom(e.take(i), e[i].key@);
    if entries_map(e.take(i)).contains_key(e[i].key@) {
        let j = choose|j: int| 0 <= j < e.take(i).len() && e.take(i)[j].key@ == e[i].key@;
        assert(e[j].key@ == e[i].key@);
    }
}

/// Compares the new counters with the cached ones. Every key that both hold
/// is updated, whether or not its counters changed.
pub fn reconcile(new: &Aggregate, old: &Aggregate) -> (r: Reconciliation)
    requires
        new.wf(),
        old.wf(),
    ensures
        reconciles(r, new@, old@),
{
    let mut inserts: Vec<KeyCount> = Vec::new();
    let mut updates: Vec<KeyCount> = Vec::new();
    let mut i: usize = 0;
    proof {
        assert(new.entries@.take(0) =~= Seq::<KeyCount>::empty());
        assert(entries_map(inserts@) =~= entries_map(new.entries@.take(0)).remove_keys(
            old@.dom(),
        ));
        assert(entries_map(updates@) =~= entries_map(new.entries@.take(0)).restrict(old@.dom()));
    }
    while i < new.entries.len()
        invariant
            new.wf(),
            old.wf(),
            i <= new.entries@.len(),
            distinct_keys(inserts@),
            distinct_keys(updates@),
            entries_map(inserts@) == entries_map(new.entries@.take(i as int)).remove_keys(
                old@.dom(),
            ),
            entries_map(updates@) == entries_map(new.entries@.take(i as int)).restrict(old@.dom()),
        decreases new.entries@.len() - i,
    {
        let entry = new.entries[i].duplicate();
        proof {
            lemma_distinct_prefix(new.entries@, i as int);
        }
        match old.find(&entry.key) {
            Some(k) => {
                proof {
                    lemma_entries_map_index(old.entries@, k as int);
                    lemma_entries_map_push(updates@, entry);
                }
                updates.push(entry);
                proof {
                    assert(entries_map(updates@) =~= entries_map(new.entries@.take(i + 1)).restrict(
                        old@.dom(),
                    ));
                    assert(entries_map(inserts@) =~= entries_map(
                        new.entries@.take(i + 1),
                    ).remove_keys(old@.dom()));
                }
            },
            None => {
                proof {
                    lemma_entries_map_push(inserts@, entry);
                }
                inserts.push(entry);
                proof {
                    assert(entries_map(updates@) =~= entries_map(new.entries@.take(i + 1)).restrict(
                        old@.dom(),
                    ));
                    assert(entries_map(inserts@) =~= entries_map(
                        new.entries@.take(i + 1),
                    ).remove_keys(old@.dom()));
                }
            },
        }
        i = i + 1;
    }
    proof {
        assert(new.entries@.take(new.entries@.len() as int) =~= new.entries@);
    }
    let mut deletes: Vec<String> = Vec::new();
    let mut j: usize = 0;
    proof {
        assert(old.entries@.take(0) =~= Seq::<KeyCount>::empty());
        assert(deletes.deep_view().to_set() =~= entries_map(
            old.entries@.take(0),
        ).dom().difference(new@.dom()));
    }
    while j < old.entries.len()
        invariant
            new.wf(),
            old.wf(),
            j <= old.entries@.len(),
            deletes.deep_view().no_duplicates(),
            deletes.deep_view().to_set() == entries_map(old.entries@.take(j as int)).dom().difference(
                new@.dom(),
            ),
        decreases old.entries@.len() - j,
    {
        let key = old.entries[j].key.clone();
        proof {
            lemma_distinct_prefix(old.entries@, j as int);
        }
        let found = new.find(&key);
        if found.is_none() {
            let ghost before = deletes.deep_view();
            deletes.push(key);
            proof {
                before.lemma_push_to_set_commute(key@);
                assert(deletes.deep_view() =~= before.push(key@));
                assert(!before.contains(key@)) by {
                    if before.contains(key@) {
                        assert(before.to_set().contains(key@));
                    }
                }
                assert(deletes.deep_view().to_set() =~= entries_map(
                    old.entries@.take(j + 1),
                ).dom().difference(new@.dom()));
            }
        } else {
            proof {
                lemma_entries_map_index(new.entries@, found.unwrap() as int);
                assert(deletes.deep_view().to_set() =~= entries_map(
                    old.entries@.take(j + 1),
                ).dom().difference(new@.dom()));
            }
        }
        j = j + 1;
    }
    proof {
        assert(old.entries@.take(old.entries@.len() as int) =~= old.entries@);
    }
    Reconciliation { inserts, updates, deletes }
}

/// The cache `old` after the operations of `r`: deleted keys go, inserted
/// keys come in, and updated keys take their new counters.
pub open spec fn applied(old: Map<Seq<char>, (nat, nat)>, r: Reconciliation) -> Map<
    Seq<char>,
    (nat, nat),
> {
    old.remove_keys(r.deletes.deep_view().to_set()).union_prefer_right(
        entries_map(r.inserts@),
    ).union_prefer_right(entries_map(r.updates@))
}

/// Applying the operations to the old counters gives exactly the new ones.
pub proof fn lemma_converges(
    r: Reconciliation,
    new: Map<Seq<char>, (nat, nat)>,
    old: Map<Seq<char>, (nat, nat)>,
)
    requires
        reconciles(r, new, old),
    ensures
        applied(old, r) == new,
{
    assert(applied(old, r) =~= new);
}

/// The inserted, updated and deleted keys are pairwise disjoint: the inserted
/// ones are those only in `new`, the updated ones those in both, the deleted
/// ones those only in `old`, and together they are all keys of either.
pub proof fn lemma_partition(
    r: Reconciliation,
    new: Map<Seq<char>, (nat, nat)>,
    old: Map<Seq<char>, (nat, nat)>,
)
    requires
        reconciles(r, new, old),
    ensures
        entries_map(r.inserts@).dom() == new.dom().difference(old.dom()),
        entries_map(r.updates@).dom() == new.dom().intersect(old.dom()),
        r.deletes.deep_view().to_set() == old.dom().difference(new.dom()),
        entries_map(r.inserts@).dom().disjoint(entries_map(r.updates@).dom()),
        entries_map(r.inserts@).dom().disjoint(r.deletes.deep_view().to_set()),
        entries_map(r.updates@).dom().disjoint(r.deletes.deep_view().to_set()),
        entries_map(r.inserts@).dom() + entries_map(r.updates@).dom()
            + r.deletes.deep_view().to_set() == new.dom() + old.dom(),
{
    assert(entries_map(r.inserts@).dom() =~= new.dom().difference(old.dom()));
    assert(entries_map(r.updates@).dom() =~= new.dom().intersect(old.dom()));
    assert(entries_map(r.inserts@).dom() + entries_map(r.updates@).dom()
        + r.deletes.deep_view().to_set() =~= new.dom() + old.dom());
}

/// Reconciling a table with an equal cache inserts and deletes nothing; it
/// updates every key, with the counters it already has.
pub proof fn lemma_unchanged(r: Reconciliation, m: Map<Seq<char>, (nat, nat)>)
    requires
        reconciles(r, m, m),
    ensures
        r.inserts@.len() == 0,
        r.deletes@.len() == 0,
        entries_map(r.updates@) == m,
{
    assert(entries_map(r.updates@) =~= m);
    assert(entries_map(r.inserts@) =~= Map::<Seq<char>, (nat, nat)>::empty());
    if r.inserts@.len() > 0 {
        lemma_entries_map_index(r.inserts@, 0);
    }
    if r.deletes@.len() > 0 {
        assert(r.deletes.deep_view().to_set().contains(r.deletes.deep_view()[0]));
    }
}

/// The cache `m` after one operation. An update changes only a key that is
/// there, as an `UPDATE ... WHERE` does.
pub open spec fn apply_op(m: Map<Seq<char>, (nat, nat)>, op: Operation) -> Map<Seq<char>, (nat, nat)> {
    match op {
        Operation::Insert(x) => m.insert(x.key@, x.counts()),
        Operation::Update(x) => if m.contains_key(x.key@) {
            m.insert(x.key@, x.counts())
        } else {
            m
        },
        Operation::Delete(k) => m.remove(k@),
    }
}

/// The cache `m` after the operations `ops`, in order.
pub open spec fn apply_ops(m: Map<Seq<char>, (nat, nat)>, ops: Seq<Operation>) -> Map<
    Seq<char>,
    (nat, nat),
>
    decreases ops.len(),
{
    if ops.len() == 0 {
        m
    } else {
        apply_op(apply_ops(m, ops.drop_last()), ops.last())
    }
}

proof fn lemma_apply_concat(m: Map<Seq<char>, (nat, nat)>, a: Seq<Operation>, b: Seq<Operation>)
    ensures
        apply_ops(m, a + b) == apply_ops(apply_ops(m, a), b),
    decreases b.len(),
{
    if b.len() == 0 {
        assert(a + b =~= a);
    } else {
        assert((a + b).drop_last() =~= a + b.drop_last());
        lemma_apply_concat(m, a, b.drop_last());
    }
}

proof fn lemma_apply_inserts(m: Map<Seq<char>, (nat, nat)>, e: Seq<KeyCount>)
    ensures
        apply_ops(m, e.map_values(|x: KeyCount| Operation::Insert(x))) == m.union_prefer_right(
            entries_map(e),
        ),
    decreases e.len(),
{
    let ops = e.map_values(|x: KeyCount| Operation::Insert(x));
    if e.len() == 0 {
        assert(m.union_prefer_right(entries_map(e)) =~= m);
    } else {
        assert(ops.drop_last() =~= e.drop_last().map_values(|x: KeyCount| Operation::Insert(x)));
        lemma_apply_inserts(m, e.drop_last());
        assert(apply_ops(m, ops) =~= m.union_prefer_right(entries_map(e)));
    }
}

proof fn lemma_apply_updates(m: Map<Seq<char>, (nat, nat)>, e: Seq<KeyCount>)
    ensures
        apply_ops(m, e.map_values(|x: KeyCount| Operation::Update(x))) == m.union_prefer_right(
            entries_map(e).restrict(m.dom()),
        ),
    decreases e.len(),
{
    let ops = e.map_values(|x: KeyCount| Operation::Update(x));
    if e.len() == 0 {
        assert(m.union_prefer_right(entries_map(e).restrict(m.dom())) =~= m);
    } else {
        assert(ops.drop_last() =~= e.drop_last().map_values(|x: KeyCount| Operation::Update(x)));
        lemma_apply_updates(m, e.drop_last());
        assert(apply_ops(m, ops) =~= m.union_prefer_right(entries_map(e).restrict(m.dom())));
    }
}

proof fn lemma_apply_deletes(m: Map<Seq<char>, (nat, nat)>, ks: Seq<String>)
    ensures
        apply_ops(m, ks.map_values(|k: String| Operation::Delete(k))) == m.remove_keys(
            ks.map_values(|k: String| k@).to_set(),
        ),
    decreases ks.len(),
{
    let ops = ks.map_values(|k: String| Operation::Delete(k));
    let views = ks.map_values(|k: String| k@);
    if ks.len() == 0 {
        assert(views.to_set() =~= Set::<Seq<char>>::empty());
        assert(m.remove_keys(views.to_set()) =~= m);
    } else {
        let rest = ks.drop_last();
        assert(ops.drop_last() =~= rest.map_values(|k: String| Operation::Delete(k)));
        assert(views =~= rest.map_values(|k: String| k@).push(ks.last()@));
        rest.map_values(|k: String| k@).lemma_push_to_set_commute(ks.last()@);
        lemma_apply_deletes(m, rest);
        assert(apply_ops(m, ops) =~= m.remove_keys(views.to_set()));
    }
}

/// Applying the operations one by one, in the order that `operations` gives,
/// to the old counters gives exactly the new ones.
pub proof fn lemma_operations_converge(
    r: Reconciliation,
    new: Map<Seq<char>, (nat, nat)>,
    old: Map<Seq<char>, (nat, nat)>,
)
    requires
        reconciles(r, new, old),
    ensures
        apply_ops(old, r.planned()) == new,
{
    let ins = r.inserts@.map_values(|x: KeyCount| Operation::Insert(x));
    let upd = r.updates@.map_values(|x: KeyCount| Operation::Update(x));
    let del = r.deletes@.map_values(|k: String| Operation::Delete(k));
    lemma_apply_concat(old, ins + upd, del);
    lemma_apply_concat(old, ins, upd);
    lemma_apply_inserts(old, r.inserts@);
    let m1 = old.union_prefer_right(entries_map(r.inserts@));
    lemma_apply_updates(m1, r.updates@);
    let m2 = m1.union_prefer_right(entries_map(r.updates@).restrict(m1.dom()));
    lemma_apply_deletes(m2, r.deletes@);
    assert(r.deletes@.map_values(|k: String| k@) =~= r.deletes.deep_view());
    assert(apply_ops(old, r.planned()) =~= new);
}

} // verus!
