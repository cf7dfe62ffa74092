//! Reading the persisted cache table back into counters.
use vstd::prelude::*;
use crate::aggregate::Aggregate;

verus! {

/// One persisted cache row: the key, used as it stands, and two counters that
/// may be missing.
#[derive(Debug)]
pub struct CacheRow {
    pub key: String,
    pub total: Option<u64>,
    pub positive: Option<u64>,
}

/// A missing counter reads as zero.
pub open spec fn or_zero(v: Option<u64>) -> nat {
    match v {
        Some(n) => n as nat,
        None => 0,
    }
}

/// The counters that the rows describe; where a key occurs twice the later
/// row wins.
pub open spec fn cache_of(rows: Seq<CacheRow>) -> Map<Seq<char>, (nat, nat)>
    decreases rows.len(),
{
    if rows.len() == 0 {
        Map::empty()
    } else {
        cache_of(rows.drop_last()).insert(
            rows.last().key@,
            (or_zero(rows.last().total), or_zero(rows.last().positive)),
        )
    }
}

/// Loads the persisted rows into a table of counters.
pub fn load_cache(rows: &Vec<CacheRow>) -> (r: Aggregate)
    ensures
        r.wf(),
        r@ == cache_of(rows@),
{
    let mut agg = Aggregate::new();
    let mut i: usize = 0;
    proof {
        assert(rows@.take(0) =~= Seq::<CacheRow>::empty());
    }
    while i < rows.len()
        invariant
            i <= rows@.len(),
            agg.wf(),
            agg@ == cache_of(rows@.take(i as int)),
        decreases rows@.len() - i,
    {
        let row = &rows[i];
        let total = match row.total {
            Some(n) => n,
            None => 0,
        };
        let positive = match row.positive {
            Some(n) => n,
            None => 0,
        };
        proof {
            assert(rows@.take(i + 1).drop_last() =~= rows@.take(i as int));
        }
        agg.set(row.key.clone(), total, positive);
        i = i + 1;
    }
    proof {
        assert(rows@.take(rows@.len() as int) =~= rows@);
    }
    agg
}

} // verus!
