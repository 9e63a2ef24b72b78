use vstd::prelude::*;

use crate::parse::{line_of, parse_value, run_len, MAX_FRACTION_DIGITS};
use crate::partial::{record_overflows, record_value, AggregateError, PartialResult, StatsMap};

verus! {

/// Gathering the lines of `t` from byte `pos` on into `m`: each line is
/// `key;value`, ended by a newline (or by the end of `t`). The first line
/// that is not of that form, or whose key's count would pass `u64::MAX`,
/// stops it with an error.
pub open spec fn fold_lines(m: StatsMap, t: Seq<u8>, pos: nat, f: nat) -> Result<
    StatsMap,
    AggregateError,
>
    decreases t.len() - pos,
{
    if pos >= t.len() {
        Ok(m)
    } else {
        let e = pos + run_len(t, pos, 10u8);
        match line_of(t.subrange(pos as int, e as int), f) {
            None => Err(AggregateError::MalformedLine),
            Some((k, v)) => if record_overflows(m, k) {
                Err(AggregateError::CountOverflow)
            } else {
                fold_lines(record_value(m, k, v), t, if e < t.len() { e + 1 } else { t.len() }, f)
            },
        }
    }
}

proof fn lemma_run_len_bound(s: Seq<u8>, i: nat, stop: u8)
    ensures
        i <= s.len() ==> i + run_len(s, i, stop) <= s.len(),
        i + run_len(s, i, stop) < s.len() ==> s[(i + run_len(s, i, stop)) as int] == stop,
    decreases s.len() - i,
{
    if i < s.len() && s[i as int] != stop {
        lemma_run_len_bound(s, i + 1, stop);
    }
}

/// Scans `t[i..b]` for the first `stop`: its index, or `b`.
fn scan_for(t: &[u8], i: usize, b: usize, stop: u8) -> (r: usize)
    requires
        i <= b <= t@.len(),
    ensures
        r - i == run_len(t@.subrange(0, b as int), i as nat, stop),
        i <= r <= b,
{
    let ghost s = t@.subrange(0, b as int);
    let mut j: usize = i;
    while j < b && t[j] != stop
        invariant
            i <= j <= b <= t@.len(),
            s == t@.subrange(0, b as int),
            (j - i) + run_len(s, j as nat, stop) == run_len(s, i as nat, stop),
        decreases b - j,
    {
        assert(s[j as int] == t@[j as int]);
        j = j + 1;
    }
    proof {
        if j < b {
            assert(s[j as int] == t@[j as int]);
        }
    }
    j
}

/// The line `t[a..b]` read as `key;value`: where the key ends, and the value.
pub fn parse_line(t: &[u8], a: usize, b: usize, f: u32) -> (r: Option<(usize, i64)>)
    requires
        a <= b <= t@.len(),
        f <= MAX_FRACTION_DIGITS,
    ensures
        match line_of(t@.subrange(a as int, b as int), f as nat) {
            None => r is None,
            Some((k, v)) => r matches Some((d, w)) && a <= d < b && t@.subrange(a as int, d as int)
                == k && w as int == v,
        },
{
    let ghost line = t@.subrange(a as int, b as int);
    let d = scan_for(t, a, b, 59u8);
    proof {
        lemma_run_len_shift(t@.subrange(0, b as int), a as nat, 59u8);
        assert(t@.subrange(0, b as int).subrange(a as int, b as int) =~= line);
    }
    if d >= b {
        return None;
    }
    assert(line.subrange(d - a + 1, line.len() as int) =~= t@.subrange(d + 1, b as int));
    assert(line.subrange(0, d - a) =~= t@.subrange(a as int, d as int));
    match parse_value(t, d + 1, b, f) {
        Some(v) => Some((d, v)),
        None => None,
    }
}

/// Scanning from `a` in `s` is scanning from the start of `s[a..]`.
proof fn lemma_run_len_shift(s: Seq<u8>, a: nat, stop: u8)
    requires
        a <= s.len(),
    ensures
        run_len(s, a, stop) == run_len(s.subrange(a as int, s.len() as int), 0, stop),
{
    lemma_run_len_shift_from(s, a, 0, stop);
}

proof fn lemma_run_len_shift_from(s: Seq<u8>, a: nat, j: nat, stop: u8)
    requires
        a + j <= s.len(),
    ensures
        run_len(s, a + j, stop) == run_len(s.subrange(a as int, s.len() as int), j, stop),
    decreases s.len() - (a + j),
{
    let sub = s.subrange(a as int, s.len() as int);
    if a + j < s.len() {
        assert(sub[j as int] == s[(a + j) as int]);
        lemma_run_len_shift_from(s, a, j + 1, stop);
    }
}

/// Gathering goes on from `r` through the lines of `b`.
pub open spec fn then_fold(r: Result<StatsMap, AggregateError>, b: Seq<u8>, f: nat) -> Result<
    StatsMap,
    AggregateError,
> {
    match r {
        Ok(m) => fold_lines(m, b, 0, f),
        Err(e) => Err(e),
    }
}

proof fn lemma_run_len_concat_shift(a: Seq<u8>, b: Seq<u8>, p: nat, stop: u8)
    ensures
        run_len(a + b, a.len() + p, stop) == run_len(b, p, stop),
    decreases b.len() - p,
{
    if p < b.len() {
        assert((a + b)[(a.len() + p) as int] == b[p as int]);
        lemma_run_len_concat_shift(a, b, p + 1, stop);
    }
}

proof fn lemma_run_len_concat_prefix(a: Seq<u8>, b: Seq<u8>, pos: nat)
    requires
        pos < a.len(),
        a.last() == 10u8,
    ensures
        run_len(a + b, pos, 10u8) == run_len(a, pos, 10u8),
        pos + run_len(a, pos, 10u8) < a.len(),
    decreases a.len() - pos,
{
    assert((a + b)[pos as int] == a[pos as int]);
    if a[pos as int] != 10u8 {
        lemma_run_len_concat_prefix(a, b, pos + 1);
    }
}

proof fn lemma_fold_shift(m: StatsMap, a: Seq<u8>, b: Seq<u8>, p: nat, f: nat)
    requires
        p <= b.len(),
    ensures
        fold_lines(m, a + b, a.len() + p, f) == fold_lines(m, b, p, f),
    decreases b.len() - p,
{
    if p < b.len() {
        let ab = a + b;
        lemma_run_len_concat_shift(a, b, p, 10u8);
        lemma_run_len_bound(b, p, 10u8);
        let e = p + run_len(b, p, 10u8);
        assert(ab.subrange((a.len() + p) as int, (a.len() + e) as int) =~= b.subrange(p as int, e as int));
        match line_of(b.subrange(p as int, e as int), f) {
            Some((k, v)) => {
                if !record_overflows(m, k) {
                    let next = if e < b.len() {
                        e + 1
                    } else {
                        b.len()
                    };
                    lemma_fold_shift(record_value(m, k, v), a, b, next, f);
                }
            },
            None => {},
        }
    }
}

proof fn lemma_fold_concat_from(m: StatsMap, a: Seq<u8>, b: Seq<u8>, pos: nat, f: nat)
    requires
        pos <= a.len(),
        a.len() == 0 || a.last() == 10u8,
    ensures
        fold_lines(m, a + b, pos, f) == then_fold(fold_lines(m, a, pos, f), b, f),
    decreases a.len() - pos,
{
    if pos == a.len() {
        lemma_fold_shift(m, a, b, 0, f);
    } else {
        let ab = a + b;
        lemma_run_len_concat_prefix(a, b, pos);
        let e = pos + run_len(a, pos, 10u8);
        assert(ab.subrange(pos as int, e as int) =~= a.subrange(pos as int, e as int));
        match line_of(a.subrange(pos as int, e as int), f) {
            Some((k, v)) => {
                if !record_overflows(m, k) {
                    lemma_fold_concat_from(record_value(m, k, v), a, b, e + 1, f);
                }
            },
            None => {},
        }
    }
}

/// Gathering text that ends with a newline and then more text is gathering
/// the first, then going on with the second.
pub proof fn lemma_fold_concat(m: StatsMap, a: Seq<u8>, b: Seq<u8>, f: nat)
    requires
        a.len() == 0 || a.last() == 10u8,
    ensures
        fold_lines(m, a + b, 0, f) == then_fold(fold_lines(m, a, 0, f), b, f),
{
    lemma_fold_concat_from(m, a, b, 0, f);
}

impl PartialResult {
    /// Gathers every line of `text` (`key;value` lines, each ended by a
    /// newline) into this result; stops at the first faulty line.
    pub fn process_text(&mut self, text: &[u8], f: u32) -> (r: Result<(), AggregateError>)
        requires
            old(self).wf(),
            f <= MAX_FRACTION_DIGITS,
        ensures
            final(self).wf(),
            match fold_lines(old(self)@, text@, 0, f as nat) {
                Ok(m) => r is Ok && final(self)@ == m,
                Err(e) => r == Err::<(), AggregateError>(e),
            },
    {
        let ghost goal = fold_lines(self@, text@, 0, f as nat);
        let n = text.len();
        let mut pos: usize = 0;
        assert(text@.subrange(0, n as int) =~= text@);
        while pos < n
            invariant
                n == text@.len(),
                text@.subrange(0, n as int) == text@,
                f <= MAX_FRACTION_DIGITS,
                pos <= n,
                self.wf(),
                goal == fold_lines(self@, text@, pos as nat, f as nat),
                goal == fold_lines(old(self)@, text@, 0, f as nat),
            decreases n - pos,
        {
            let e = scan_for(text, pos, n, 10u8);
            proof {
                lemma_run_len_bound(text@, pos as nat, 10u8);
            }
            match parse_line(text, pos, e, f) {
                None => {
                    assert(text@.subrange(0, n as int) == text@);
                    return Err(AggregateError::MalformedLine);
                },
                Some((d, v)) => {
                    let key = vstd::slice::slice_subrange(text, pos, d);
                    match self.record(key, v) {
                        Err(err) => {
                            return Err(err);
                        },
                        Ok(()) => {},
                    }
                },
            }
            pos = if e < n {
                e + 1
            } else {
                n
            };
        }
        Ok(())
    }
}

} // verus!
