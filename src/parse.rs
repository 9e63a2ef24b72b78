use vstd::prelude::*;

use crate::stats::{value_in_range, VALUE_LIMIT};

verus! {

/// Largest number of fractional digits a value may carry.
pub const MAX_FRACTION_DIGITS: u32 = 18;

pub open spec fn is_digit(b: u8) -> bool {
    48 <= b <= 57
}

pub open spec fn all_digits(s: Seq<u8>) -> bool {
    forall|i: int| 0 <= i < s.len() ==> is_digit(#[trigger] s[i])
}

/// The number that the decimal digits `s` spell.
pub open spec fn digits_value(s: Seq<u8>) -> nat
    decreases s.len(),
{
    if s.len() == 0 {
        0
    } else {
        digits_value(s.drop_last()) * 10 + (s.last() - 48) as nat
    }
}

pub open spec fn pow10(n: nat) -> nat
    decreases n,
{
    if n == 0 {
        1
    } else {
        10 * pow10((n - 1) as nat)
    }
}

/// The number of bytes of `s` from `i` on that come before the first `stop`
/// (or before the end).
pub open spec fn run_len(s: Seq<u8>, i: nat, stop: u8) -> nat
    decreases s.len() - i,
{
    if i >= s.len() {
        0
    } else if s[i as int] == stop {
        0
    } else {
        1 + run_len(s, i + 1, stop)
    }
}

/// The magnitude that `s` spells in units of the `f`-th fractional digit:
/// `s` is `[0-9]+` or `[0-9]+\.[0-9]{f}`.
pub open spec fn magnitude_of(s: Seq<u8>, f: nat) -> Option<nat> {
    let dot = s.len() - f - 1;
    if s.len() >= f + 2 && s[dot] == 46u8 && all_digits(s.subrange(0, dot))
        && all_digits(s.subrange(dot + 1, s.len() as int)) {
        Some(
            digits_value(s.subrange(0, dot)) * pow10(f) + digits_value(
                s.subrange(dot + 1, s.len() as int),
            ),
        )
    } else if s.len() >= 1 && all_digits(s) {
        Some(digits_value(s) * pow10(f))
    } else {
        None
    }
}

/// The value that `s` spells with `f` fractional digits, as an integer count of
/// the last fractional digit: `-?[0-9]+(\.[0-9]{f})?`, of magnitude at most
/// `VALUE_LIMIT`. `3.5` with one fractional digit is 35; `7` is 70.
pub open spec fn value_of(s: Seq<u8>, f: nat) -> Option<int> {
    let neg = s.len() > 0 && s[0] == 45u8;
    let body = if neg {
        s.drop_first()
    } else {
        s
    };
    match magnitude_of(body, f) {
        Some(m) => if m <= VALUE_LIMIT {
            Some(if neg {
                -m
            } else {
                m as int
            })
        } else {
            None
        },
        None => None,
    }
}

/// A line `key;value`: the key and the value, or `None` where the line has
/// no delimiter or its value is not a number.
pub open spec fn line_of(line: Seq<u8>, f: nat) -> Option<(Seq<u8>, int)> {
    let d = run_len(line, 0, 59u8) as int;
    if d >= line.len() {
        None
    } else {
        match value_of(line.subrange(d + 1 as int, line.len() as int), f) {
            Some(v) => Some((line.subrange(0, d as int), v)),
            None => None,
        }
    }
}

pub(crate) proof fn lemma_pow10_grows(n: nat, m: nat)
    requires
        n <= m,
    ensures
        1 <= pow10(n) <= pow10(m),
    decreases m,
{
    if n < m {
        lemma_pow10_grows(n, (m - 1) as nat);
    } else if n > 0 {
        lemma_pow10_grows((n - 1) as nat, (n - 1) as nat);
    }
}

proof fn lemma_pow10_bound(n: nat)
    requires
        n <= 18,
    ensures
        1 <= pow10(n) <= 1_000_000_000_000_000_000,
{
    lemma_pow10_grows(n, 18);
    reveal_with_fuel(pow10, 19);
    assert(pow10(18) == 1_000_000_000_000_000_000);
}

/// More digits never make a smaller number.
proof fn lemma_digits_grow(s: Seq<u8>, k: int)
    requires
        0 <= k <= s.len(),
        all_digits(s),
    ensures
        digits_value(s.subrange(0, k)) <= digits_value(s),
    decreases s.len(),
{
    if k < s.len() {
        assert(s.drop_last() =~= s.subrange(0, s.len() - 1));
        assert(s.subrange(0, k) =~= s.drop_last().subrange(0, k));
        lemma_digits_grow(s.drop_last(), k);
    } else {
        assert(s.subrange(0, k) =~= s);
    }
}

/// The number spelled by the bytes `t[a..b]`, or `None` where one of them is
/// not a digit or the number passes `VALUE_LIMIT`.
fn parse_digits(t: &[u8], a: usize, b: usize) -> (r: Option<u64>)
    requires
        a <= b <= t@.len(),
    ensures
        r == (if all_digits(t@.subrange(a as int, b as int)) && digits_value(
            t@.subrange(a as int, b as int),
        ) <= VALUE_LIMIT {
            Some(digits_value(t@.subrange(a as int, b as int)) as u64)
        } else {
            None::<u64>
        }),
{
    let mut v: u64 = 0;
    let mut j: usize = a;
    assert(t@.subrange(a as int, a as int) =~= Seq::<u8>::empty());
    while j < b
        invariant
            a <= j <= b <= t@.len(),
            all_digits(t@.subrange(a as int, j as int)),
            v as nat == digits_value(t@.subrange(a as int, j as int)),
            v <= VALUE_LIMIT,
        decreases b - j,
    {
        let c = t[j];
        let ghost pre = t@.subrange(a as int, j as int);
        let ghost next = t@.subrange(a as int, j + 1);
        assert(next.drop_last() =~= pre);
        if c < 48 || c > 57 {
            assert(!all_digits(t@.subrange(a as int, b as int))) by {
                assert(t@.subrange(a as int, b as int)[j - a] == c);
            }
            return None;
        }
        v = v * 10 + (c - 48) as u64;
        j = j + 1;
        if v > VALUE_LIMIT as u64 {
            proof {
                let whole = t@.subrange(a as int, b as int);
                if all_digits(whole) {
                    assert(whole.subrange(0, j - a) =~= t@.subrange(a as int, j as int));
                    lemma_digits_grow(whole, j - a);
                }
            }
            return None;
        }
    }
    Some(v)
}

/// `10^f`.
pub(crate) fn pow10_exec(f: u32) -> (r: u128)
    requires
        f <= MAX_FRACTION_DIGITS,
    ensures
        r == pow10(f as nat),
        1 <= r <= 1_000_000_000_000_000_000,
{
    let mut r: u128 = 1;
    let mut k: u32 = 0;
    while k < f
        invariant
            k <= f <= MAX_FRACTION_DIGITS,
            r == pow10(k as nat),
        decreases f - k,
    {
        proof {
            lemma_pow10_bound((k + 1) as nat);
        }
        r = r * 10;
        k = k + 1;
    }
    proof {
        lemma_pow10_bound(f as nat);
    }
    r
}

/// The value that the bytes `t[a..b]` spell with `f` fractional digits, in
/// units of the last fractional digit.
pub fn parse_value(t: &[u8], a: usize, b: usize, f: u32) -> (r: Option<i64>)
    requires
        a <= b <= t@.len(),
        f <= MAX_FRACTION_DIGITS,
    ensures
        r matches Some(v) ==> value_in_range(v as int),
        r == (match value_of(t@.subrange(a as int, b as int), f as nat) {
            Some(v) => Some(v as i64),
            None => None::<i64>,
        }),
{
    let ghost s = t@.subrange(a as int, b as int);
    let neg = a < b && t[a] == 45u8;
    let start: usize = if neg {
        a + 1
    } else {
        a
    };
    let ghost body = t@.subrange(start as int, b as int);
    assert(body =~= (if neg {
        s.drop_first()
    } else {
        s
    }));
    let ghost fp10 = pow10(f as nat);
    let p = pow10_exec(f);
    let fu = f as usize;
    let len = b - start;
    let mag: u128;
    if len >= fu + 2 && t[b - fu - 1] == 46u8 {
        let dot = b - fu - 1;
        let ghost ip = body.subrange(0, dot - start);
        let ghost fp = body.subrange(dot - start + 1, body.len() as int);
        assert(ip =~= t@.subrange(start as int, dot as int));
        assert(fp =~= t@.subrange(dot + 1, b as int));
        assert(body[dot - start] == t[dot as int]);
        assert(!all_digits(body)) by {
            assert(!is_digit(body[dot - start]));
        }
        let ip_v = parse_digits(t, start, dot);
        let fp_v = parse_digits(t, dot + 1, b);
        match (ip_v, fp_v) {
            (Some(iv), Some(fv)) => {
                proof {
                    lemma_fraction_bound(fp);
                }
                assert(iv as u128 * p <= 1_000_000_000_000_000_000u128
                    * 1_000_000_000_000_000_000u128) by (nonlinear_arith)
                    requires
                        iv <= 1_000_000_000_000_000_000u64,
                        p <= 1_000_000_000_000_000_000u128,
                ;
                mag = iv as u128 * p + fv as u128;
            },
            _ => {
                proof {
                    if all_digits(ip) && all_digits(fp) {
                        lemma_fraction_bound(fp);
                        lemma_pow10_bound(f as nat);
                        if digits_value(ip) > VALUE_LIMIT {
                            assert(digits_value(ip) * fp10 >= digits_value(ip))
                                by (nonlinear_arith)
                                requires
                                    fp10 >= 1,
                            ;
                        }
                    }
                }
                return None;
            },
        }
    } else {
        if len == 0 {
            return None;
        }
        match parse_digits(t, start, b) {
            Some(iv) => {
                assert(iv as u128 * p <= 1_000_000_000_000_000_000u128
                    * 1_000_000_000_000_000_000u128) by (nonlinear_arith)
                    requires
                        iv <= 1_000_000_000_000_000_000u64,
                        p <= 1_000_000_000_000_000_000u128,
                ;
                mag = iv as u128 * p;
            },
            None => {
                proof {
                    if all_digits(body) {
                        lemma_pow10_bound(f as nat);
                        assert(digits_value(body) * fp10 >= digits_value(body))
                            by (nonlinear_arith)
                            requires
                                fp10 >= 1,
                        ;
                    }
                }
                return None;
            },
        }
    }
    assert(magnitude_of(body, f as nat) == Some(mag as nat));
    if mag > VALUE_LIMIT as u128 {
        return None;
    }
    if neg {
        Some(-(mag as i64))
    } else {
        Some(mag as i64)
    }
}

proof fn lemma_fraction_bound(s: Seq<u8>)
    requires
        all_digits(s),
    ensures
        digits_value(s) < pow10(s.len()),
    decreases s.len(),
{
    if s.len() > 0 {
        lemma_fraction_bound(s.drop_last());
        assert(s.last() == s[s.len() - 1]);
        assert(is_digit(s[s.len() - 1]));
    }
}

} // verus!
