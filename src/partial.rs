use vstd::prelude::*;

use crate::stats::{
    combine, first_value, observe, stats_wf, value_in_range, StatAccumulator,
    Stats,
};
use crate::table::StatTable;

verus! {

/// The statistics of each key, as a map of mathematical values.
pub type StatsMap = Map<Seq<u8>, Stats>;

/// `m` after one more value `v` for `key`.
pub open spec fn record_value(m: StatsMap, key: Seq<u8>, v: int) -> StatsMap {
    if m.contains_key(key) {
        m.insert(key, observe(m[key], v))
    } else {
        m.insert(key, first_value(v))
    }
}

/// Whether one more value for `key` would take its count past `u64::MAX`.
pub open spec fn record_overflows(m: StatsMap, key: Seq<u8>) -> bool {
    m.contains_key(key) && m[key].count >= u64::MAX
}

/// The statistics of the values behind `g` together with those behind `p`.
pub open spec fn merge_maps(g: StatsMap, p: StatsMap) -> StatsMap {
    Map::new(
        |k: Seq<u8>| g.contains_key(k) || p.contains_key(k),
        |k: Seq<u8>|
            if g.contains_key(k) && p.contains_key(k) {
                combine(g[k], p[k])
            } else if g.contains_key(k) {
                g[k]
            } else {
                p[k]
            },
    )
}

/// Whether some key of both maps has more values in all than a `u64` counts.
pub open spec fn merge_overflows(g: StatsMap, p: StatsMap) -> bool {
    exists|k: Seq<u8>|
        #[trigger] g.contains_key(k) && p.contains_key(k) && g[k].count + p[k].count > u64::MAX
}

/// Merging the statistics of several groups of values, one merge after another:
/// `merge_all(seq![a, b, c]) == merge_maps(merge_maps(merge_maps(empty, a), b), c)`.
pub open spec fn merge_all(ps: Seq<StatsMap>) -> StatsMap
    decreases ps.len(),
{
    if ps.len() == 0 {
        Map::empty()
    } else {
        merge_maps(merge_all(ps.drop_last()), ps.last())
    }
}

/// Merging is associative: the statistics do not depend on how the merges
/// are grouped.
pub proof fn lemma_merge_associative(a: StatsMap, b: StatsMap, c: StatsMap)
    ensures
        merge_maps(merge_maps(a, b), c) == merge_maps(a, merge_maps(b, c)),
{
    assert(merge_maps(merge_maps(a, b), c) =~= merge_maps(a, merge_maps(b, c)));
}

/// Merging is commutative: the statistics do not depend on the order in which
/// partial results arrive.
pub proof fn lemma_merge_commutative(a: StatsMap, b: StatsMap)
    ensures
        merge_maps(a, b) == merge_maps(b, a),
{
    assert(merge_maps(a, b) =~= merge_maps(b, a));
}

/// The empty map changes nothing in a merge.
pub proof fn lemma_merge_empty(a: StatsMap)
    ensures
        merge_maps(Map::empty(), a) == a,
        merge_maps(a, Map::empty()) == a,
{
    assert(merge_maps(Map::empty(), a) =~= a);
    assert(merge_maps(a, Map::empty()) =~= a);
}

/// Splitting a sequence of partial results into two groups, merging each group
/// on its own and then merging the two, gives what merging all of them in one
/// pass gives.
pub proof fn lemma_merge_groups(xs: Seq<StatsMap>, ys: Seq<StatsMap>)
    ensures
        merge_all(xs + ys) == merge_maps(merge_all(xs), merge_all(ys)),
    decreases ys.len(),
{
    if ys.len() == 0 {
        assert(xs + ys =~= xs);
        lemma_merge_empty(merge_all(xs));
    } else {
        assert((xs + ys).drop_last() =~= xs + ys.drop_last());
        assert((xs + ys).last() == ys.last());
        lemma_merge_groups(xs, ys.drop_last());
        lemma_merge_associative(merge_all(xs), merge_all(ys.drop_last()), ys.last());
    }
}

proof fn lemma_merge_one(a: StatsMap)
    ensures
        merge_all(seq![a]) == a,
{
    let s = seq![a];
    assert(s.drop_last() =~= Seq::<StatsMap>::empty());
    assert(s.last() == a);
    assert(merge_all(Seq::<StatsMap>::empty()) == Map::<Seq<u8>, Stats>::empty());
    assert(merge_all(s) == merge_maps(merge_all(s.drop_last()), s.last()));
    lemma_merge_empty(a);
}

/// Swapping two neighbouring partial results leaves the merged statistics
/// unchanged; any reordering is a chain of such swaps.
pub proof fn lemma_merge_swap(xs: Seq<StatsMap>, a: StatsMap, b: StatsMap, ys: Seq<StatsMap>)
    ensures
        merge_all(xs + seq![a, b] + ys) == merge_all(xs + seq![b, a] + ys),
{
    lemma_merge_groups(xs + seq![a, b], ys);
    lemma_merge_groups(xs + seq![b, a], ys);
    lemma_merge_groups(xs, seq![a, b]);
    lemma_merge_groups(xs, seq![b, a]);
    assert(seq![a, b].drop_last() =~= seq![a]);
    assert(seq![b, a].drop_last() =~= seq![b]);
    assert(seq![a].drop_last() =~= Seq::<StatsMap>::empty());
    assert(seq![b].drop_last() =~= Seq::<StatsMap>::empty());
    lemma_merge_empty(a);
    lemma_merge_empty(b);
    lemma_merge_commutative(a, b);
    lemma_merge_one(a);
    lemma_merge_one(b);
    assert(merge_all(seq![a, b]) == merge_all(seq![b, a]));
    assert(merge_all(xs + seq![a, b]) == merge_all(xs + seq![b, a]));
}

/// The statistics that one worker gathered: a map from key to statistics.
pub struct PartialResult {
    pub table: StatTable,
}

impl View for PartialResult {
    type V = StatsMap;

    open spec fn view(&self) -> StatsMap {
        self.table@.map_values(|a: StatAccumulator| a@)
    }
}

impl PartialResult {
    /// Every key's statistics come from some values.
    pub open spec fn wf(&self) -> bool {
        forall|k: Seq<u8>| #[trigger] self@.contains_key(k) ==> stats_wf(self@[k])
    }

    /// A result that holds no key.
    pub fn new() -> (r: PartialResult)
        ensures
            r.wf(),
            r@ == Map::<Seq<u8>, Stats>::empty(),
    {
        let r = PartialResult { table: StatTable::new() };
        assert(r@ =~= Map::<Seq<u8>, Stats>::empty());
        r
    }

    /// The statistics of `key`, if it has any.
    pub fn get(&self, key: &[u8]) -> (r: Option<StatAccumulator>)
        ensures
            match r {
                Some(a) => self@.contains_key(key@) && a@ == self@[key@],
                None => !self@.contains_key(key@),
            },
    {
        self.table.get(key)
    }

    /// Folds the value `v` into the statistics of `key`; fails, changing
    /// nothing, where the key's count would pass `u64::MAX`.
    pub fn record(&mut self, key: &[u8], v: i64) -> (r: Result<(), AggregateError>)
        requires
            old(self).wf(),
            value_in_range(v as int),
        ensures
            final(self).wf(),
            r is Err <==> record_overflows(old(self)@, key@),
            r is Err ==> r == Err::<(), AggregateError>(AggregateError::CountOverflow),
            r is Err ==> final(self)@ == old(self)@,
            r is Ok ==> final(self)@ == record_value(old(self)@, key@, v as int),
    {
        let ghost m0 = self@;
        match self.table.get(key) {
            Some(cur) => {
                assert(m0.contains_key(key@));
                if cur.count == u64::MAX {
                    return Err(AggregateError::CountOverflow);
                }
                let mut next = cur;
                next.add(v);
                self.table.set(key, next);
            },
            None => {
                self.table.set(key, StatAccumulator::new(v));
            },
        }
        assert(self@ =~= record_value(m0, key@, v as int));
        Ok(())
    }

    /// Folds in the statistics that another worker gathered; fails where some
    /// key's count would pass `u64::MAX`.
    pub fn merge(&mut self, other: PartialResult) -> (r: Result<(), AggregateError>)
        requires
            old(self).wf(),
            other.wf(),
        ensures
            r is Err <==> merge_overflows(old(self)@, other@),
            r is Err ==> r == Err::<(), AggregateError>(AggregateError::CountOverflow),
            r is Ok ==> final(self).wf(),
            r is Ok ==> final(self)@ == merge_maps(old(self)@, other@),
    {
        let ghost glob0 = self@;
        let ghost part0 = other@;
        let entries = other.table.into_entries();
        let ghost mut done: Set<Seq<u8>> = Set::empty();
        let mut i: usize = 0;
        while i < entries.len()
            invariant
                0 <= i <= entries@.len(),
                self.wf(),
                glob0 == old(self)@,
                part0 == other@,
                forall|k: Seq<u8>|
                    #[trigger] done.contains(k) <==> exists|j: int|
                        0 <= j < i && entries@[j].0@ == k,
                forall|j: int|
                    0 <= j < entries@.len() ==> #[trigger] part0.contains_key(entries@[j].0@)
                        && part0[entries@[j].0@] == entries@[j].1@,
                forall|k: Seq<u8>|
                    #[trigger] part0.contains_key(k) ==> exists|j: int|
                        0 <= j < entries@.len() && entries@[j].0@ == k,
                forall|a: int, b: int|
                    0 <= a < b < entries@.len() ==> entries@[a].0@ != entries@[b].0@,
                forall|k: Seq<u8>| #[trigger] part0.contains_key(k) ==> stats_wf(part0[k]),
                forall|k: Seq<u8>| #[trigger] glob0.contains_key(k) ==> stats_wf(glob0[k]),
                self@ == merge_maps(glob0, part0.restrict(done)),
                !merge_overflows(glob0, part0.restrict(done)),
            decreases entries@.len() - i,
        {
            let key = &entries[i].0;
            let acc = entries[i].1;
            let ghost k = key@;
            assert(part0.contains_key(entries@[i as int].0@));
            assert(!done.contains(k)) by {
                if done.contains(k) {
                    let j = choose|j: int| 0 <= j < i && entries@[j].0@ == k;
                    assert(entries@[j].0@ != entries@[i as int].0@);
                }
            }
            let ghost before = self@;
            assert(before == merge_maps(glob0, part0.restrict(done)));
            match self.table.get(key.as_slice()) {
                Some(cur) => {
                    assert(self@.contains_key(k));
                    assert(glob0.contains_key(k));
                    assert(self@[k] == glob0[k]);
                    if cur.count > u64::MAX - acc.count {
                        assert(glob0.contains_key(k) && part0.contains_key(k) && glob0[k].count
                            + part0[k].count > u64::MAX);
                        assert(merge_overflows(glob0, part0));
                        return Err(AggregateError::CountOverflow);
                    }
                    let mut next = cur;
                    next.merge(&acc);
                    self.table.set(key.as_slice(), next);
                    assert(self@ =~= before.insert(k, combine(glob0[k], part0[k])));
                },
                None => {
                    assert(!self.table@.contains_key(k));
                    assert(!before.contains_key(k));
                    assert(!glob0.contains_key(k));
                    self.table.set(key.as_slice(), acc);
                    assert(self@ =~= before.insert(k, part0[k]));
                },
            }
            proof {
                let done2 = done.insert(k);
                assert(self@ =~= merge_maps(glob0, part0.restrict(done2)));
                assert forall|kk: Seq<u8>|
                    #[trigger] done2.contains(kk) <==> exists|j: int|
                        0 <= j < i + 1 && entries@[j].0@ == kk by {
                    if done2.contains(kk) && kk != k {
                        assert(done.contains(kk));
                    }
                    if exists|j: int| 0 <= j < i + 1 && entries@[j].0@ == kk {
                        let j = choose|j: int| 0 <= j < i + 1 && entries@[j].0@ == kk;
                        if j < i {
                            assert(done.contains(kk));
                        }
                    }
                }
                assert(!merge_overflows(glob0, part0.restrict(done2))) by {
                    if merge_overflows(glob0, part0.restrict(done2)) {
                        let kk = choose|kk: Seq<u8>|
                            #[trigger] glob0.contains_key(kk) && part0.restrict(done2).contains_key(kk)
                                && glob0[kk].count + part0.restrict(done2)[kk].count > u64::MAX;
                        if kk != k {
                            assert(part0.restrict(done).contains_key(kk));
                        }
                    }
                }
                done = done2;
            }
            i = i + 1;
        }
        proof {
            assert(part0.restrict(done) =~= part0) by {
                assert forall|k: Seq<u8>| part0.contains_key(k) implies done.contains(k) by {
                    let j = choose|j: int| 0 <= j < entries@.len() && entries@[j].0@ == k;
                }
            }
        }
        Ok(())
    }
}

/// A fault found while gathering statistics.
#[derive(Clone, Copy, Debug, PartialEq, Eq, Structural)]
pub enum AggregateError {
    /// A key has more values than a `u64` counts.
    CountOverflow,
    /// A line is not `key;value`, or its value is not a number.
    MalformedLine,
}

} // verus!
