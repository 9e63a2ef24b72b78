use vstd::prelude::*;

use crate::parse::{pow10, MAX_FRACTION_DIGITS};
use crate::partial::{PartialResult, StatsMap};
use crate::stats::{stats_wf, Stats, VALUE_LIMIT};

verus! {

/// Byte-wise lexicographic order: `a` comes strictly before `b`.
pub open spec fn lex_lt(a: Seq<u8>, b: Seq<u8>) -> bool
    decreases a.len(),
{
    if a.len() == 0 {
        b.len() > 0
    } else if b.len() == 0 {
        false
    } else if a[0] != b[0] {
        a[0] < b[0]
    } else {
        lex_lt(a.drop_first(), b.drop_first())
    }
}

/// The keys in strictly ascending order.
pub open spec fn strictly_sorted(ks: Seq<Seq<u8>>) -> bool {
    forall|i: int, j: int| 0 <= i < j < ks.len() ==> lex_lt(#[trigger] ks[i], #[trigger] ks[j])
}

/// The keys of `s` in ascending byte-wise order.
pub open spec fn sorted_keys(s: Set<Seq<u8>>) -> Seq<Seq<u8>> {
    choose|ks: Seq<Seq<u8>>| strictly_sorted(ks) && ks.to_set() == s
}

proof fn lemma_lex_asymmetric(a: Seq<u8>, b: Seq<u8>)
    ensures
        !(lex_lt(a, b) && lex_lt(b, a)),
    decreases a.len(),
{
    if a.len() > 0 && b.len() > 0 && a[0] == b[0] {
        lemma_lex_asymmetric(a.drop_first(), b.drop_first());
    }
}

proof fn lemma_lex_total(a: Seq<u8>, b: Seq<u8>)
    ensures
        a != b ==> lex_lt(a, b) || lex_lt(b, a),
    decreases a.len(),
{
    if a.len() > 0 && b.len() > 0 && a[0] == b[0] {
        lemma_lex_total(a.drop_first(), b.drop_first());
        if a.drop_first() == b.drop_first() {
            assert(a =~= seq![a[0]] + a.drop_first());
            assert(b =~= seq![b[0]] + b.drop_first());
        }
    } else if a.len() == 0 && b.len() == 0 {
        assert(a =~= b);
    }
}

/// Two ascending sequences of the same keys are the same sequence.
pub proof fn lemma_sorted_unique(a: Seq<Seq<u8>>, b: Seq<Seq<u8>>)
    requires
        strictly_sorted(a),
        strictly_sorted(b),
        a.to_set() == b.to_set(),
    ensures
        a == b,
    decreases a.len(),
{
    if a.len() == 0 {
        if b.len() > 0 {
            assert(b.to_set().contains(b[0]));
        }
        assert(a =~= b);
    } else if b.len() == 0 {
        assert(a.to_set().contains(a[0]));
    } else {
        assert(a.to_set().contains(a[0]));
        assert(b.to_set().contains(b[0]));
        if a[0] != b[0] {
            let k = choose|k: int| 0 <= k < a.len() && a[k] == b[0];
            let m = choose|m: int| 0 <= m < b.len() && b[m] == a[0];
            lemma_lex_asymmetric(a[0], b[0]);
            assert(k != 0);
            assert(m != 0);
            assert(lex_lt(a[0], a[k]));
            assert(lex_lt(b[0], b[m]));
        }
        let a1 = a.drop_first();
        let b1 = b.drop_first();
        assert forall|x: Seq<u8>| a1.to_set().contains(x) <==> b1.to_set().contains(x) by {
            if a1.to_set().contains(x) {
                let i = choose|i: int| 0 <= i < a1.len() && a1[i] == x;
                assert(a[i + 1] == x);
                assert(lex_lt(a[0], a[i + 1]));
                lemma_lex_irreflexive(x);
                assert(b.to_set().contains(x));
                let j = choose|j: int| 0 <= j < b.len() && b[j] == x;
                assert(j != 0);
                assert(b1[j - 1] == x);
            }
            if b1.to_set().contains(x) {
                let i = choose|i: int| 0 <= i < b1.len() && b1[i] == x;
                assert(b[i + 1] == x);
                assert(lex_lt(b[0], b[i + 1]));
                lemma_lex_irreflexive(x);
                assert(a.to_set().contains(x));
                let j = choose|j: int| 0 <= j < a.len() && a[j] == x;
                assert(j != 0);
                assert(a1[j - 1] == x);
            }
        }
        assert(a1.to_set() =~= b1.to_set());
        assert(strictly_sorted(a1)) by {
            assert forall|i: int, j: int| 0 <= i < j < a1.len() implies lex_lt(
                #[trigger] a1[i],
                #[trigger] a1[j],
            ) by {
                assert(a1[i] == a[i + 1] && a1[j] == a[j + 1]);
            }
        }
        assert(strictly_sorted(b1)) by {
            assert forall|i: int, j: int| 0 <= i < j < b1.len() implies lex_lt(
                #[trigger] b1[i],
                #[trigger] b1[j],
            ) by {
                assert(b1[i] == b[i + 1] && b1[j] == b[j + 1]);
            }
        }
        lemma_sorted_unique(a1, b1);
        assert(a =~= seq![a[0]] + a1);
        assert(b =~= seq![b[0]] + b1);
    }
}

proof fn lemma_lex_irreflexive(a: Seq<u8>)
    ensures
        !lex_lt(a, a),
{
    lemma_lex_asymmetric(a, a);
}

/// `sorted_keys` is the one ascending sequence of the keys.
pub proof fn lemma_sorted_keys(ks: Seq<Seq<u8>>)
    requires
        strictly_sorted(ks),
    ensures
        sorted_keys(ks.to_set()) == ks,
{
    let s = ks.to_set();
    assert(strictly_sorted(ks) && ks.to_set() == s);
    let c = sorted_keys(s);
    lemma_sorted_unique(c, ks);
}

pub open spec fn digit(d: nat) -> u8 {
    (48 + d) as u8
}

/// The decimal digits of `n`, without leading zeros.
pub open spec fn dec(n: nat) -> Seq<u8>
    decreases n,
{
    if n < 10 {
        seq![digit(n)]
    } else {
        dec(n / 10).push(digit(n % 10))
    }
}

/// The last `w` decimal digits of `n`, with leading zeros.
pub open spec fn padded(n: nat, w: nat) -> Seq<u8>
    decreases w,
{
    if w == 0 {
        Seq::empty()
    } else {
        padded(n / 10, (w - 1) as nat).push(digit(n % 10))
    }
}

pub open spec fn abs(v: int) -> nat {
    if v < 0 {
        (-v) as nat
    } else {
        v as nat
    }
}

/// The fixed-point value `v` (in units of the `f`-th fractional digit) written
/// with exactly `f` fractional digits: 27 with one digit is `2.7`, -5 is `-0.5`.
pub open spec fn render_fixed(v: int, f: nat) -> Seq<u8> {
    let a = abs(v);
    let p = pow10(f);
    (if v < 0 {
        seq![45u8]
    } else {
        Seq::empty()
    }) + dec(a / p) + (if f > 0 {
        seq![46u8] + padded(a % p, f)
    } else {
        Seq::empty()
    })
}

/// `s / c` rounded to the nearest integer, halves away from zero.
pub open spec fn round_div(s: int, c: int) -> int {
    if s >= 0 {
        (2 * s + c) / (2 * c)
    } else {
        -((2 * (-s) + c) / (2 * c))
    }
}

/// `key=min/mean/max`, the mean rounded as `round_div` does.
pub open spec fn render_entry(k: Seq<u8>, st: Stats, f: nat) -> Seq<u8> {
    k + seq![61u8] + render_fixed(st.min, f) + seq![47u8] + render_fixed(
        round_div(st.sum, st.count),
        f,
    ) + seq![47u8] + render_fixed(st.max, f)
}

/// The entries of the keys `ks`, in that order, separated by `, `.
pub open spec fn render_entries(ks: Seq<Seq<u8>>, m: StatsMap, f: nat) -> Seq<u8>
    decreases ks.len(),
{
    if ks.len() == 0 {
        Seq::empty()
    } else if ks.len() == 1 {
        render_entry(ks[0], m[ks[0]], f)
    } else {
        render_entries(ks.drop_last(), m, f) + seq![44u8, 32u8] + render_entry(
            ks.last(),
            m[ks.last()],
            f,
        )
    }
}

/// The summary of `m`: `{k1=min/mean/max, k2=...}`, keys in ascending byte
/// order, every number with `f` fractional digits.
pub open spec fn render_result(m: StatsMap, f: nat) -> Seq<u8> {
    seq![123u8] + render_entries(sorted_keys(m.dom()), m, f) + seq![125u8]
}

pub(crate) fn push_dec(out: &mut Vec<u8>, n: u128)
    ensures
        final(out)@ == old(out)@ + dec(n as nat),
    decreases n,
{
    if n >= 10 {
        push_dec(out, n / 10);
    }
    out.push((48 + n % 10) as u8);
    assert(final(out)@ =~= old(out)@ + dec(n as nat));
}

pub(crate) fn push_padded(out: &mut Vec<u8>, n: u128, w: u32)
    ensures
        final(out)@ == old(out)@ + padded(n as nat, w as nat),
    decreases w,
{
    if w == 0 {
        assert(final(out)@ =~= old(out)@ + padded(n as nat, w as nat));
        return;
    }
    push_padded(out, n / 10, w - 1);
    out.push((48 + n % 10) as u8);
    assert(final(out)@ =~= old(out)@ + padded(n as nat, w as nat));
}

pub(crate) fn push_bytes(out: &mut Vec<u8>, b: &[u8])
    ensures
        final(out)@ == old(out)@ + b@,
{
    let mut i: usize = 0;
    while i < b.len()
        invariant
            i <= b@.len(),
            out@ == old(out)@ + b@.subrange(0, i as int),
        decreases b@.len() - i,
    {
        out.push(b[i]);
        i = i + 1;
        assert(out@ =~= old(out)@ + b@.subrange(0, i as int));
    }
    assert(b@.subrange(0, i as int) =~= b@);
}

/// Appends `v` written with `f` fractional digits.
fn push_fixed(out: &mut Vec<u8>, v: i128, f: u32)
    requires
        -(VALUE_LIMIT as int) <= v <= VALUE_LIMIT as int,
        f <= MAX_FRACTION_DIGITS,
    ensures
        final(out)@ == old(out)@ + render_fixed(v as int, f as nat),
{
    let ghost start = out@;
    let a: u128 = if v < 0 {
        (-v) as u128
    } else {
        v as u128
    };
    if v < 0 {
        out.push(45u8);
    }
    let p = crate::parse::pow10_exec(f);
    push_dec(out, a / p);
    if f > 0 {
        out.push(46u8);
        push_padded(out, a % p, f);
    }
    assert(out@ =~= start + render_fixed(v as int, f as nat));
}

/// `sum / count` rounded to the nearest integer, halves away from zero.
pub fn rounded_mean(sum: i128, count: u64) -> (r: i128)
    requires
        count >= 1,
        -(VALUE_LIMIT as int) * count <= sum <= (VALUE_LIMIT as int) * count,
    ensures
        r == round_div(sum as int, count as int),
        -(VALUE_LIMIT as int) <= r <= VALUE_LIMIT as int,
{
    assert((VALUE_LIMIT as int) * count <= (VALUE_LIMIT as int) * (u64::MAX as int))
        by (nonlinear_arith)
        requires
            count <= u64::MAX,
    ;
    assert(-(VALUE_LIMIT as int) * (u64::MAX as int) <= -(VALUE_LIMIT as int) * count)
        by (nonlinear_arith)
        requires
            count <= u64::MAX,
    ;
    let c = count as i128;
    if sum >= 0 {
        let r = (2 * sum + c) / (2 * c);
        assert(r <= VALUE_LIMIT) by (nonlinear_arith)
            requires
                r == (2 * sum + c) / (2 * c),
                sum <= (VALUE_LIMIT as int) * c,
                c >= 1,
        ;
        r
    } else {
        assert(-(VALUE_LIMIT as int) * c == -((VALUE_LIMIT as int) * c)) by (nonlinear_arith);
        let q = (2 * (-sum) + c) / (2 * c);
        assert(q <= VALUE_LIMIT) by (nonlinear_arith)
            requires
                q == (2 * (-sum) + c) / (2 * c),
                -sum <= (VALUE_LIMIT as int) * c,
                c >= 1,
        ;
        -q
    }
}

/// Appends `key=min/mean/max` for the statistics `a`.
fn push_entry(out: &mut Vec<u8>, key: &[u8], a: &crate::stats::StatAccumulator, f: u32)
    requires
        stats_wf(a@),
        f <= MAX_FRACTION_DIGITS,
    ensures
        final(out)@ == old(out)@ + render_entry(key@, a@, f as nat),
{
    let ghost start = out@;
    proof {
        crate::stats::lemma_sum_fits(a@);
    }
    push_bytes(out, key);
    out.push(61u8);
    push_fixed(out, a.min as i128, f);
    out.push(47u8);
    let mean = rounded_mean(a.sum, a.count);
    push_fixed(out, mean, f);
    out.push(47u8);
    push_fixed(out, a.max as i128, f);
    assert(out@ =~= start + render_entry(key@, a@, f as nat));
}

pub open spec fn key_views(v: Seq<Vec<u8>>) -> Seq<Seq<u8>> {
    v.map_values(|k: Vec<u8>| k@)
}

/// Relies on slice::sort_unstable: afterwards the vector holds the same keys,
/// each as often as before, in ascending order of `Vec<u8>`'s `Ord`, which
/// compares byte-wise lexicographically.
#[verifier::external_body]
fn sort_keys(v: &mut Vec<Vec<u8>>)
    ensures
        key_views(final(v)@).to_multiset() == key_views(old(v)@).to_multiset(),
        forall|i: int, j: int|
            0 <= i < j < final(v)@.len() ==> !lex_lt(
                #[trigger] final(v)@[j]@,
                #[trigger] final(v)@[i]@,
            ),
{
    v.sort_unstable();
}

/// Renders the statistics `res` as `{k1=min/mean/max, k2=...}`, keys in
/// ascending byte order and every number with `f` fractional digits.
pub fn format_result(res: &PartialResult, f: u32) -> (r: Vec<u8>)
    requires
        res.wf(),
        f <= MAX_FRACTION_DIGITS,
    ensures
        r@ == render_result(res@, f as nat),
{
    let ghost m = res@;
    let mut keys = res.table.keys();
    let ghost old_keys = keys@;
    let ghost before = key_views(keys@);
    assert(before.no_duplicates()) by {
        assert forall|i: int, j: int|
            0 <= i < before.len() && 0 <= j < before.len() && i != j implies before[i]
            != before[j] by {
            if i < j {
                assert(keys@[i]@ != keys@[j]@);
            } else {
                assert(keys@[j]@ != keys@[i]@);
            }
        }
    }
    sort_keys(&mut keys);
    let ghost ks = key_views(keys@);
    proof {
        broadcast use vstd::seq_lib::group_to_multiset_ensures;

        before.lemma_multiset_has_no_duplicates();
        ks.lemma_multiset_has_no_duplicates_conv();
        assert(strictly_sorted(ks)) by {
            assert forall|i: int, j: int| 0 <= i < j < ks.len() implies lex_lt(
                #[trigger] ks[i],
                #[trigger] ks[j],
            ) by {
                assert(!lex_lt(keys@[j]@, keys@[i]@));
                lemma_lex_total(ks[i], ks[j]);
            }
        }
        assert(ks.to_set() =~= m.dom()) by {
            assert forall|k: Seq<u8>| ks.to_set().contains(k) implies m.dom().contains(k) by {
                assert(ks.contains(k));
                assert(ks.to_multiset().count(k) > 0);
                assert(before.to_multiset().count(k) > 0);
                assert(before.contains(k));
                let i = choose|i: int| 0 <= i < before.len() && before[i] == k;
                assert(before[i] == old_keys[i]@);
                assert(res.table@.contains_key(old_keys[i]@));
            }
            assert forall|k: Seq<u8>| m.dom().contains(k) implies ks.to_set().contains(k) by {
                assert(res.table@.contains_key(k));
                let i = choose|i: int| 0 <= i < old_keys.len() && old_keys[i]@ == k;
                assert(before[i] == k);
                assert(before.contains(k));
                assert(before.to_multiset().count(k) > 0);
                assert(ks.to_multiset().count(k) > 0);
                assert(ks.contains(k));
            }
        }
        lemma_sorted_keys(ks);
    }
    let mut out: Vec<u8> = Vec::new();
    out.push(123u8);
    let mut i: usize = 0;
    while i < keys.len()
        invariant
            i <= keys@.len(),
            ks == key_views(keys@),
            res.wf(),
            m == res@,
            f <= MAX_FRACTION_DIGITS,
            forall|j: int| 0 <= j < ks.len() ==> m.contains_key(#[trigger] ks[j]),
            out@ == seq![123u8] + render_entries(ks.subrange(0, i as int), m, f as nat),
        decreases keys@.len() - i,
    {
        let ghost pre = out@;
        let key = keys[i].as_slice();
        assert(ks[i as int] == key@);
        let ghost next = ks.subrange(0, i + 1);
        assert(next.drop_last() =~= ks.subrange(0, i as int));
        if i > 0 {
            out.push(44u8);
            out.push(32u8);
        }
        match res.get(key) {
            Some(a) => {
                push_entry(&mut out, key, &a, f);
            },
            None => {
                assert(false);
            },
        }
        proof {
            if i == 0 {
                assert(ks.subrange(0, 0) =~= Seq::<Seq<u8>>::empty());
            }
            assert(out@ =~= seq![123u8] + render_entries(next, m, f as nat));
        }
        i = i + 1;
    }
    out.push(125u8);
    assert(ks.subrange(0, i as int) =~= ks);
    assert(out@ =~= render_result(m, f as nat));
    out
}

} // verus!
