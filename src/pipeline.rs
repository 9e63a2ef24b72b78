use vstd::prelude::*;

use crate::chunk::{bad_text, concat_texts, lines_fit, split_chunks, ChunkError, StrBuffer};
use crate::format::{format_result, render_result};
use crate::parse::MAX_FRACTION_DIGITS;
use crate::partial::{
    lemma_merge_empty, merge_all, merge_maps, merge_overflows, record_overflows, record_value,
    AggregateError, PartialResult, StatsMap,
};
use crate::parse::{line_of, run_len};
use crate::stats::{combine, first_value, observe};
use crate::worker::{fold_lines, lemma_fold_concat, then_fold};

verus! {

/// A fault that stops a run.
#[derive(Clone, Copy, Debug, PartialEq, Eq, Structural)]
pub enum Fault {
    /// A block of input could not become a chunk.
    Chunk(ChunkError),
    /// A line could not be gathered.
    Aggregate(AggregateError),
}

/// Whether the partial results `ps`, merged one after another, never take a
/// count past `u64::MAX`.
pub open spec fn merge_fits(ps: Seq<StatsMap>) -> bool
    decreases ps.len(),
{
    ps.len() == 0 || (merge_fits(ps.drop_last()) && !merge_overflows(
        merge_all(ps.drop_last()),
        ps.last(),
    ))
}

proof fn lemma_fits_prefix(s: Seq<StatsMap>, k: int)
    requires
        0 <= k <= s.len(),
        merge_fits(s),
    ensures
        merge_fits(s.subrange(0, k)),
    decreases s.len(),
{
    if k < s.len() {
        assert(s.drop_last().subrange(0, k) =~= s.subrange(0, k));
        lemma_fits_prefix(s.drop_last(), k);
    } else {
        assert(s.subrange(0, k) =~= s);
    }
}

pub open spec fn views_of(ps: Seq<PartialResult>) -> Seq<StatsMap> {
    ps.map_values(|p: PartialResult| p@)
}

impl PartialResult {
    /// Gathers every line of the chunk into this result; stops at the first
    /// faulty line.
    pub fn process_chunk(&mut self, chunk: &StrBuffer, f: u32) -> (r: Result<(), AggregateError>)
        requires
            old(self).wf(),
            chunk.wf(),
            f <= MAX_FRACTION_DIGITS,
        ensures
            final(self).wf(),
            match fold_lines(old(self)@, chunk.text(), 0, f as nat) {
                Ok(m) => r is Ok && final(self)@ == m,
                Err(e) => r == Err::<(), AggregateError>(e),
            },
    {
        self.process_text(chunk.as_bytes(), f)
    }
}

/// Merges the workers' partial results, in order, into one.
pub fn combine_results(partials: Vec<PartialResult>) -> (r: Result<PartialResult, AggregateError>)
    requires
        forall|i: int| 0 <= i < partials@.len() ==> (#[trigger] partials@[i]).wf(),
    ensures
        r is Ok <==> merge_fits(views_of(partials@)),
        r matches Ok(g) ==> g.wf() && g@ == merge_all(views_of(partials@)),
        r is Err ==> r == Err::<PartialResult, AggregateError>(AggregateError::CountOverflow),
{
    let ghost all = views_of(partials@);
    let mut rest = partials;
    let mut result = PartialResult::new();
    let mut i: usize = 0;
    let n = rest.len();
    while rest.len() > 0
        invariant
            i + rest@.len() == n,
            n == all.len(),
            all == views_of(partials@),
            result.wf(),
            forall|j: int| 0 <= j < rest@.len() ==> (#[trigger] rest@[j]).wf(),
            forall|j: int| 0 <= j < rest@.len() ==> #[trigger] rest@[j]@ == all[i + j],
            merge_fits(all.subrange(0, i as int)),
            result@ == merge_all(all.subrange(0, i as int)),
        decreases rest@.len(),
    {
        let p = rest.remove(0);
        let ghost pre = all.subrange(0, i as int);
        let ghost next = all.subrange(0, i + 1);
        assert(next.drop_last() =~= pre);
        assert(p@ == all[i as int]);
        match result.merge(p) {
            Ok(()) => {},
            Err(e) => {
                proof {
                    assert(next.last() == p@);
                    assert(!merge_fits(next));
                    if merge_fits(all) {
                        lemma_fits_prefix(all, i + 1);
                    }
                }
                return Err(e);
            },
        }
        i = i + 1;
    }
    assert(all.subrange(0, n as int) =~= all);
    Ok(result)
}

/// The statistics of all lines of `data`, gathered from nothing.
pub open spec fn gather(data: Seq<u8>, f: nat) -> Result<StatsMap, AggregateError> {
    fold_lines(Map::empty(), data, 0, f)
}

/// Every count in `m` is at least one.
pub open spec fn counts_positive(m: StatsMap) -> bool {
    forall|k: Seq<u8>| #[trigger] m.contains_key(k) ==> m[k].count >= 1
}

proof fn lemma_record_merge(x: StatsMap, d: StatsMap, k: Seq<u8>, v: int)
    ensures
        record_value(merge_maps(x, d), k, v) == merge_maps(x, record_value(d, k, v)),
{
    let l = record_value(merge_maps(x, d), k, v);
    let r = merge_maps(x, record_value(d, k, v));
    if x.contains_key(k) && !d.contains_key(k) {
        assert(observe(x[k], v) == combine(x[k], first_value(v)));
    }
    if x.contains_key(k) && d.contains_key(k) {
        assert(observe(combine(x[k], d[k]), v) == combine(x[k], observe(d[k], v)));
    }
    assert(l =~= r);
}

proof fn lemma_fold_counts(m: StatsMap, t: Seq<u8>, pos: nat, f: nat)
    requires
        counts_positive(m),
    ensures
        fold_lines(m, t, pos, f) matches Ok(r) ==> counts_positive(r),
    decreases t.len() - pos,
{
    if pos < t.len() {
        let e = pos + run_len(t, pos, 10u8);
        match line_of(t.subrange(pos as int, e as int), f) {
            Some((k, v)) => {
                if !record_overflows(m, k) {
                    let next = if e < t.len() {
                        e + 1
                    } else {
                        t.len()
                    };
                    lemma_fold_counts(record_value(m, k, v), t, next, f);
                }
            },
            None => {},
        }
    }
}

proof fn lemma_fold_merge_from(x: StatsMap, d: StatsMap, t: Seq<u8>, pos: nat, f: nat)
    requires
        counts_positive(x),
    ensures
        fold_lines(merge_maps(x, d), t, pos, f) matches Ok(mm) ==> fold_lines(d, t, pos, f) matches Ok(
            dd,
        ) && mm == merge_maps(x, dd),
    decreases t.len() - pos,
{
    if pos < t.len() {
        let e = pos + run_len(t, pos, 10u8);
        match line_of(t.subrange(pos as int, e as int), f) {
            Some((k, v)) => {
                if !record_overflows(merge_maps(x, d), k) {
                    let next = if e < t.len() {
                        e + 1
                    } else {
                        t.len()
                    };
                    lemma_record_merge(x, d, k, v);
                    lemma_fold_merge_from(x, record_value(d, k, v), t, next, f);
                }
            },
            None => {},
        }
    }
}

/// Splitting text at a line boundary, gathering each part on its own (as two
/// workers do) and merging the two results gives what gathering all of it in
/// one pass gives. With the merge associative and commutative, the summary
/// therefore depends neither on how chunks are dealt out to workers nor on
/// the order in which their results are merged.
pub proof fn lemma_split_gather(a: Seq<u8>, b: Seq<u8>, f: nat)
    requires
        a.len() == 0 || a.last() == 10u8,
        gather(a + b, f) is Ok,
    ensures
        gather(a, f) is Ok,
        gather(b, f) is Ok,
        gather(a + b, f)->Ok_0 == merge_maps(gather(a, f)->Ok_0, gather(b, f)->Ok_0),
{
    let empty = Map::<Seq<u8>, crate::stats::Stats>::empty();
    lemma_fold_concat(empty, a, b, f);
    let ma = gather(a, f)->Ok_0;
    lemma_fold_counts(empty, a, 0, f);
    lemma_merge_empty(ma);
    lemma_fold_merge_from(ma, empty, b, 0, f);
}

proof fn lemma_concat_ends(cs: Seq<StrBuffer>)
    requires
        forall|i: int|
            0 <= i < cs.len() ==> (#[trigger] cs[i]).wf() && cs[i].text().last() == 10u8,
    ensures
        concat_texts(cs).len() == 0 || concat_texts(cs).last() == 10u8,
{
    if cs.len() > 0 {
        let t = cs[cs.len() - 1].text();
        assert(t.len() > 0);
        let x = concat_texts(cs.drop_last());
        assert((x + t)[(x + t).len() - 1] == t[t.len() - 1]);
    }
}

proof fn lemma_concat_split(cs: Seq<StrBuffer>, k: int)
    requires
        0 <= k <= cs.len(),
    ensures
        concat_texts(cs) == concat_texts(cs.subrange(0, k)) + concat_texts(
            cs.subrange(k, cs.len() as int),
        ),
    decreases cs.len(),
{
    if k == cs.len() {
        assert(cs.subrange(0, k) =~= cs);
        assert(cs.subrange(k, cs.len() as int) =~= Seq::<StrBuffer>::empty());
        assert(concat_texts(cs) + Seq::<u8>::empty() =~= concat_texts(cs));
    } else {
        lemma_concat_split(cs.drop_last(), k);
        assert(cs.drop_last().subrange(0, k) =~= cs.subrange(0, k));
        let tail = cs.subrange(k, cs.len() as int);
        assert(tail.drop_last() =~= cs.drop_last().subrange(k, cs.len() - 1));
        assert(tail.last() == cs.last());
        assert(concat_texts(cs) =~= concat_texts(cs.subrange(0, k)) + concat_texts(tail));
    }
}

/// Reads all of `data` in blocks of `block` bytes, gathers every line with
/// one worker and renders the summary. The result is the summary of the
/// statistics of all lines of `data`.
pub fn summarize(data: &[u8], block: usize, f: u32) -> (r: Result<Vec<u8>, Fault>)
    requires
        block > 0,
        f <= MAX_FRACTION_DIGITS,
    ensures
        r matches Ok(out) ==> gather(data@, f as nat) matches Ok(m) && out@ == render_result(
            m,
            f as nat,
        ),
        r matches Err(Fault::Aggregate(e)) ==> gather(data@, f as nat) == Err::<
            StatsMap,
            AggregateError,
        >(e),
        r == Err::<Vec<u8>, Fault>(Fault::Chunk(ChunkError::NoNewline)) ==> !lines_fit(
            data@,
            block as nat,
        ),
        r == Err::<Vec<u8>, Fault>(Fault::Chunk(ChunkError::Encoding)) ==> bad_text(data@),
{
    let chunks = match split_chunks(data, block) {
        Ok(cs) => cs,
        Err(e) => {
            return Err(Fault::Chunk(e));
        },
    };
    let ghost cs = chunks@;
    let ghost empty = Map::<Seq<u8>, crate::stats::Stats>::empty();
    let mut result = PartialResult::new();
    let mut i: usize = 0;
    assert(cs.subrange(0, 0) =~= Seq::<StrBuffer>::empty());
    while i < chunks.len()
        invariant
            cs == chunks@,
            empty == Map::<Seq<u8>, crate::stats::Stats>::empty(),
            concat_texts(cs) == data@,
            forall|j: int|
                0 <= j < cs.len() ==> (#[trigger] cs[j]).wf() && cs[j].text().last() == 10u8,
            i <= cs.len(),
            f <= MAX_FRACTION_DIGITS,
            result.wf(),
            fold_lines(empty, concat_texts(cs.subrange(0, i as int)), 0, f as nat) == Ok::<
                StatsMap,
                AggregateError,
            >(result@),
        decreases cs.len() - i,
    {
        let ghost a = concat_texts(cs.subrange(0, i as int));
        let ghost t = cs[i as int].text();
        let ghost m0 = result@;
        proof {
            assert(cs.subrange(0, i + 1).drop_last() =~= cs.subrange(0, i as int));
            assert(concat_texts(cs.subrange(0, i + 1)) == a + t);
            lemma_concat_ends(cs.subrange(0, i as int));
            lemma_fold_concat(empty, a, t, f as nat);
        }
        match result.process_chunk(&chunks[i], f) {
            Ok(()) => {},
            Err(e) => {
                proof {
                    assert(fold_lines(m0, t, 0, f as nat) == Err::<StatsMap, AggregateError>(e));
                    assert(fold_lines(empty, a + t, 0, f as nat) == Err::<StatsMap, AggregateError>(e));
                    lemma_concat_split(cs, i + 1);
                    lemma_concat_ends(cs.subrange(0, i + 1));
                    lemma_fold_concat(
                        empty,
                        a + t,
                        concat_texts(cs.subrange(i + 1, cs.len() as int)),
                        f as nat,
                    );
                    assert(data@ == (a + t) + concat_texts(cs.subrange(i + 1, cs.len() as int)));
                    assert(fold_lines(empty, data@, 0, f as nat) == Err::<StatsMap, AggregateError>(e));
                    assert(gather(data@, f as nat) == Err::<StatsMap, AggregateError>(e));
                }
                return Err(Fault::Aggregate(e));
            },
        }
        i = i + 1;
    }
    assert(cs.subrange(0, i as int) =~= cs);
    Ok(format_result(&result, f))
}

} // verus!
