use vstd::prelude::*;

use crate::format::{abs, dec, digit, padded, push_bytes, push_dec, push_padded};
use crate::parse::{
    all_digits, digits_value, is_digit, line_of, magnitude_of, pow10, run_len, value_of,
    MAX_FRACTION_DIGITS,
};
use crate::partial::{record_overflows, record_value, AggregateError, StatsMap};
use crate::pipeline::gather;
use crate::stats::VALUE_LIMIT;
use crate::worker::{fold_lines, lemma_fold_concat};

verus! {

/// Named settings for generating test input.
#[derive(Clone, Copy, Debug, PartialEq, Eq, Structural)]
pub enum ArgPreset {
    Full,
    Cities400,
    Test,
}

pub open spec fn preset_output(p: ArgPreset) -> &'static str {
    match p {
        ArgPreset::Full => "data/all_cities.txt",
        ArgPreset::Cities400 => "data/citeis_400.txt",
        ArgPreset::Test => "data/test.txt",
    }
}

pub open spec fn preset_result_output(p: ArgPreset) -> &'static str {
    match p {
        ArgPreset::Full => "data/all_cities_res.txt",
        ArgPreset::Cities400 => "data/citeis_400_res.txt",
        ArgPreset::Test => "data/test_res.txt",
    }
}

impl ArgPreset {
    /// Where the generated input goes.
    pub fn output(&self) -> (r: &'static str)
        ensures
            r == preset_output(*self),
    {
        match self {
            ArgPreset::Full => "data/all_cities.txt",
            ArgPreset::Cities400 => "data/citeis_400.txt",
            ArgPreset::Test => "data/test.txt",
        }
    }

    /// Where the expected summary of the generated input goes.
    pub fn result_output(&self) -> (r: &'static str)
        ensures
            r == preset_result_output(*self),
    {
        match self {
            ArgPreset::Full => "data/all_cities_res.txt",
            ArgPreset::Cities400 => "data/citeis_400_res.txt",
            ArgPreset::Test => "data/test_res.txt",
        }
    }

    /// The number of distinct keys to draw from.
    pub fn city_count(&self) -> (r: usize)
        ensures
            r == match *self {
                ArgPreset::Full => 10_000usize,
                ArgPreset::Cities400 => 400usize,
                ArgPreset::Test => 10usize,
            },
    {
        match self {
            ArgPreset::Full => 10_000,
            ArgPreset::Cities400 => 400,
            ArgPreset::Test => 10,
        }
    }

    /// The median key length.
    pub fn city_len(&self) -> (r: usize)
        ensures
            r == 5,
    {
        5
    }

    /// The number of lines to generate.
    pub fn line_count(&self) -> (r: usize)
        ensures
            r == match *self {
                ArgPreset::Full => 1_000_000_000usize,
                ArgPreset::Cities400 => 1_000_000_000usize,
                ArgPreset::Test => 1_000usize,
            },
    {
        match self {
            ArgPreset::Full => 1_000_000_000,
            ArgPreset::Cities400 => 1_000_000_000,
            ArgPreset::Test => 1_000,
        }
    }

    /// The lowest integer part of a generated value.
    pub fn min_value(&self) -> (r: i32)
        ensures
            r == -99,
    {
        -99
    }

    /// The highest integer part of a generated value.
    pub fn max_value(&self) -> (r: i32)
        ensures
            r == 99,
    {
        99
    }

    /// The number of fractional digits of a generated value.
    pub fn fractional_digit(&self) -> (r: u8)
        ensures
            r == 1,
    {
        1
    }
}

/// One generated line: a key (by its index among the keys), an integer part
/// and, where values carry fractional digits, the fractional part.
#[derive(Clone, Copy, Debug, PartialEq, Eq, Structural)]
pub struct Row {
    pub city: usize,
    pub int_value: i32,
    pub fraction: Option<u64>,
}

/// The line of a row for the key `city`: `city;int` or `city;int.fraction`,
/// the fraction written with `digits` digits.
pub open spec fn row_text(city: Seq<u8>, int_value: int, fraction: Option<u64>, digits: nat) -> Seq<
    u8,
> {
    city + seq![59u8] + (if int_value < 0 {
        seq![45u8]
    } else {
        Seq::empty()
    }) + dec(abs(int_value)) + match fraction {
        Some(fr) => seq![46u8] + padded(fr as nat, digits),
        None => Seq::empty(),
    }
}

/// The magnitude of a row's value in units of its last fractional digit.
pub open spec fn row_magnitude(int_value: int, fraction: Option<u64>, digits: nat) -> int {
    abs(int_value) * pow10(digits) + match fraction {
        Some(fr) => fr as int,
        None => 0,
    }
}

impl Row {
    /// The row's line (without its newline), for the key `city`.
    pub fn render(&self, city: &[u8], digits: u32) -> (r: Vec<u8>)
        ensures
            r@ == row_text(city@, self.int_value as int, self.fraction, digits as nat),
    {
        let mut out: Vec<u8> = Vec::new();
        push_bytes(&mut out, city);
        out.push(59u8);
        if self.int_value < 0 {
            out.push(45u8);
        }
        let a: u128 = if self.int_value < 0 {
            (-(self.int_value as i64)) as u128
        } else {
            self.int_value as u128
        };
        push_dec(&mut out, a);
        match self.fraction {
            Some(fr) => {
                out.push(46u8);
                push_padded(&mut out, fr as u128, digits);
            },
            None => {},
        }
        assert(out@ =~= row_text(city@, self.int_value as int, self.fraction, digits as nat));
        out
    }

    /// The row's value in units of its last fractional digit: `-3.5` with
    /// one fractional digit is -35.
    pub fn value(&self, digits: u32) -> (r: i64)
        requires
            digits <= MAX_FRACTION_DIGITS,
            row_magnitude(self.int_value as int, self.fraction, digits as nat) <= VALUE_LIMIT,
        ensures
            r == (if self.int_value < 0 {
                -row_magnitude(self.int_value as int, self.fraction, digits as nat)
            } else {
                row_magnitude(self.int_value as int, self.fraction, digits as nat)
            }),
    {
        let p = crate::parse::pow10_exec(digits);
        let a: u128 = if self.int_value < 0 {
            (-(self.int_value as i64)) as u128
        } else {
            self.int_value as u128
        };
        assert(a * p <= 3_000_000_000u128 * 1_000_000_000_000_000_000u128) by (nonlinear_arith)
            requires
                a <= 3_000_000_000u128,
                p <= 1_000_000_000_000_000_000u128,
        ;
        let fr: u128 = match self.fraction {
            Some(fr) => fr as u128,
            None => 0,
        };
        let m = a * p + fr;
        if self.int_value < 0 {
            -(m as i64)
        } else {
            m as i64
        }
    }
}

/// Draws lines over a fixed list of keys: integer parts in `min..=max`,
/// fractional parts in `0..=fraction_max`.
pub struct Generator {
    pub cities: Vec<String>,
    pub min: i32,
    pub max: i32,
    pub fraction_max: u64,
}

impl Generator {
    /// A generator whose values carry `fraction_digits` fractional digits.
    pub fn new(cities: Vec<String>, min: i32, max: i32, fraction_digits: u8) -> (r: Generator)
        requires
            pow10(fraction_digits as nat) <= u64::MAX,
        ensures
            r.cities@ == cities@,
            r.min == min,
            r.max == max,
            r.fraction_max == pow10(fraction_digits as nat) - 1,
    {
        let mut p: u64 = 1;
        let mut k: u8 = 0;
        while k < fraction_digits
            invariant
                k <= fraction_digits,
                p == pow10(k as nat),
                p >= 1,
                pow10(fraction_digits as nat) <= u64::MAX,
            decreases fraction_digits - k,
        {
            proof {
                crate::parse::lemma_pow10_grows((k + 1) as nat, fraction_digits as nat);
            }
            p = p * 10;
            k = k + 1;
        }
        Generator { cities, min, max, fraction_max: p - 1 }
    }

    /// The line that the draws give: `city` indexes the keys, `int_value` lies
    /// in `min..=max` and `fraction` in `0..=fraction_max`; the fractional
    /// part is left out where values have no fractional digits.
    pub fn row(&self, city: usize, int_value: i32, fraction: u64) -> (r: Row)
        requires
            city < self.cities@.len(),
            self.min <= int_value <= self.max,
            fraction <= self.fraction_max,
        ensures
            r.city == city,
            r.int_value == int_value,
            r.fraction == (if self.fraction_max > 0 {
                Some(fraction)
            } else {
                None::<u64>
            }),
    {
        if self.fraction_max > 0 {
            Row { city, int_value, fraction: Some(fraction) }
        } else {
            Row { city, int_value, fraction: None }
        }
    }
}

proof fn lemma_dec_digits(n: nat)
    ensures
        all_digits(dec(n)),
        digits_value(dec(n)) == n,
        dec(n).len() >= 1,
    decreases n,
{
    if n >= 10 {
        lemma_dec_digits(n / 10);
        let d = dec(n);
        assert(d.drop_last() =~= dec(n / 10));
        assert(d.last() == digit(n % 10));
        assert((d.last() - 48) as nat == n % 10);
        assert((n / 10) * 10 + n % 10 == n);
        assert(digits_value(d) == digits_value(dec(n / 10)) * 10 + (d.last() - 48) as nat);
    } else {
        let d = dec(n);
        assert(d.drop_last() =~= Seq::<u8>::empty());
        assert(digits_value(d) == digits_value(d.drop_last()) * 10 + (d.last() - 48) as nat);
        assert(digits_value(Seq::<u8>::empty()) == 0);
    }
}

proof fn lemma_padded_digits(n: nat, w: nat)
    requires
        n < pow10(w),
    ensures
        all_digits(padded(n, w)),
        digits_value(padded(n, w)) == n,
        padded(n, w).len() == w,
    decreases w,
{
    if w > 0 {
        let p = pow10((w - 1) as nat);
        assert(n / 10 < p) by (nonlinear_arith)
            requires
                n < 10 * p,
        ;
        lemma_padded_digits(n / 10, (w - 1) as nat);
        let d = padded(n, w);
        assert(d.drop_last() =~= padded(n / 10, (w - 1) as nat));
        assert(d.last() == digit(n % 10));
        assert((d.last() - 48) as nat == n % 10);
        assert((n / 10) * 10 + n % 10 == n);
        assert(digits_value(d) == digits_value(padded(n / 10, (w - 1) as nat)) * 10 + (d.last()
            - 48) as nat);
    } else {
        assert(n == 0);
    }
}

proof fn lemma_run_len_key(city: Seq<u8>, rest: Seq<u8>, i: nat)
    requires
        i <= city.len(),
        forall|j: int| 0 <= j < city.len() ==> city[j] != 59u8,
    ensures
        run_len(city + seq![59u8] + rest, i, 59u8) == city.len() - i,
    decreases city.len() - i,
{
    let line = city + seq![59u8] + rest;
    if i < city.len() {
        assert(line[i as int] == city[i as int]);
        lemma_run_len_key(city, rest, i + 1);
    } else {
        assert(line[i as int] == 59u8);
    }
}

/// A generated line reads back as its key and its value: the text that
/// `Row::render` writes, parsed with the same number of fractional digits,
/// gives the key and `Row::value`.
pub proof fn lemma_row_round_trip(city: Seq<u8>, int_value: int, fraction: Option<u64>, digits: nat)
    requires
        forall|j: int| 0 <= j < city.len() ==> city[j] != 59u8,
        fraction matches Some(fr) ==> fr < pow10(digits),
        row_magnitude(int_value, fraction, digits) <= VALUE_LIMIT,
    ensures
        line_of(row_text(city, int_value, fraction, digits), digits) == Some(
            (
                city,
                if int_value < 0 {
                    -row_magnitude(int_value, fraction, digits)
                } else {
                    row_magnitude(int_value, fraction, digits)
                },
            ),
        ),
{
    let a = abs(int_value);
    let sign: Seq<u8> = if int_value < 0 {
        seq![45u8]
    } else {
        Seq::empty()
    };
    let tail: Seq<u8> = match fraction {
        Some(fr) => seq![46u8] + padded(fr as nat, digits),
        None => Seq::empty(),
    };
    let num = sign + dec(a) + tail;
    let line = row_text(city, int_value, fraction, digits);
    assert(line =~= city + seq![59u8] + num);
    lemma_run_len_key(city, num, 0);
    let d = city.len() as int;
    assert(line.subrange(d + 1, line.len() as int) =~= num);
    assert(line.subrange(0, d) =~= city);
    lemma_dec_digits(a);
    let body = dec(a) + tail;
    if int_value < 0 {
        assert(num[0] == 45u8);
        assert(num.drop_first() =~= body);
    } else {
        assert(num =~= body);
        assert(is_digit(dec(a)[0]));
    }
    match fraction {
        Some(fr) => {
            lemma_padded_digits(fr as nat, digits);
            let dot = body.len() - digits - 1;
            assert(dot == dec(a).len());
            assert(body[dot] == 46u8);
            assert(body.subrange(0, dot) =~= dec(a));
            assert(body.subrange(dot + 1, body.len() as int) =~= padded(fr as nat, digits));
            assert(magnitude_of(body, digits) == Some(
                (a * pow10(digits) + fr) as nat,
            ));
        },
        None => {
            assert(body =~= dec(a));
            if body.len() >= digits + 2 {
                let dot = body.len() - digits - 1;
                assert(is_digit(body[dot]));
            }
            assert(magnitude_of(body, digits) == Some((a * pow10(digits)) as nat));
        },
    }
}

/// The text of the lines `ls`, each followed by a newline.
pub open spec fn lines_text(ls: Seq<Seq<u8>>) -> Seq<u8>
    decreases ls.len(),
{
    if ls.len() == 0 {
        Seq::empty()
    } else {
        lines_text(ls.drop_last()) + ls.last() + seq![10u8]
    }
}

/// `m` after recording the values `es`, one key and value after another.
pub open spec fn record_all(m: StatsMap, es: Seq<(Seq<u8>, int)>) -> StatsMap
    decreases es.len(),
{
    if es.len() == 0 {
        m
    } else {
        record_value(record_all(m, es.drop_last()), es.last().0, es.last().1)
    }
}

proof fn lemma_record_all_counts(es: Seq<(Seq<u8>, int)>)
    ensures
        forall|k: Seq<u8>|
            #[trigger] record_all(Map::empty(), es).contains_key(k) ==> record_all(
                Map::empty(),
                es,
            )[k].count <= es.len(),
    decreases es.len(),
{
    if es.len() > 0 {
        let pre = es.drop_last();
        lemma_record_all_counts(pre);
        let m = record_all(Map::empty(), pre);
        let r = record_all(Map::empty(), es);
        assert(r == record_value(m, es.last().0, es.last().1));
        assert forall|k: Seq<u8>| #[trigger] r.contains_key(k) implies r[k].count <= es.len() by {
            if k != es.last().0 {
                assert(m.contains_key(k));
            } else if m.contains_key(k) {
                assert(m[k].count <= pre.len());
            }
        }
    }
}

proof fn lemma_run_len_line(line: Seq<u8>, i: nat)
    requires
        i <= line.len(),
        forall|j: int| 0 <= j < line.len() ==> line[j] != 10u8,
    ensures
        run_len(line + seq![10u8], i, 10u8) == line.len() - i,
    decreases line.len() - i,
{
    let t = line + seq![10u8];
    if i < line.len() {
        assert(t[i as int] == line[i as int]);
        lemma_run_len_line(line, i + 1);
    } else {
        assert(t[i as int] == 10u8);
    }
}

/// Lines that each read as a key and a value gather to the statistics of
/// those values, recorded in order. With `lemma_row_round_trip`, the summary
/// of generated lines is the summary of the values the generator drew.
pub proof fn lemma_gather_lines(ls: Seq<Seq<u8>>, es: Seq<(Seq<u8>, int)>, f: nat)
    requires
        ls.len() == es.len(),
        ls.len() < u64::MAX,
        forall|i: int| 0 <= i < ls.len() ==> line_of(#[trigger] ls[i], f) == Some(es[i]),
        forall|i: int, j: int| 0 <= i < ls.len() && 0 <= j < ls[i].len() ==> ls[i][j] != 10u8,
    ensures
        gather(lines_text(ls), f) == Ok::<StatsMap, AggregateError>(record_all(Map::empty(), es)),
    decreases ls.len(),
{
    if ls.len() > 0 {
        let pre = ls.drop_last();
        let epre = es.drop_last();
        assert forall|i: int| 0 <= i < pre.len() implies line_of(#[trigger] pre[i], f) == Some(
            epre[i],
        ) by {
            assert(pre[i] == ls[i]);
        }
        assert forall|i: int, j: int| 0 <= i < pre.len() && 0 <= j < pre[i].len() implies pre[i][j]
            != 10u8 by {
            assert(pre[i] == ls[i]);
        }
        lemma_gather_lines(pre, epre, f);
        let a = lines_text(pre);
        let last = ls.last();
        let t = last + seq![10u8];
        if a.len() > 0 {
            assert(a.last() == 10u8) by {
                let x = lines_text(pre.drop_last()) + pre.last();
                assert(a == x + seq![10u8]);
                assert(a[a.len() - 1] == 10u8);
            }
        }
        assert(lines_text(ls) == a + t) by {
            assert(lines_text(ls) =~= a + last + seq![10u8]);
            assert(a + last + seq![10u8] =~= a + t);
        }
        lemma_fold_concat(Map::empty(), a, t, f);
        let m = record_all(Map::empty(), epre);
        assert forall|j: int| 0 <= j < last.len() implies last[j] != 10u8 by {
            assert(ls[ls.len() - 1][j] != 10u8);
        }
        lemma_run_len_line(last, 0);
        assert(t.subrange(0, last.len() as int) =~= last);
        assert(line_of(last, f) == Some(es.last())) by {
            assert(ls[ls.len() - 1] == last);
        }
        lemma_record_all_counts(epre);
        let k = es.last().0;
        let v = es.last().1;
        if m.contains_key(k) {
            assert(m[k].count <= epre.len());
        }
        assert(!record_overflows(m, k));
        assert(fold_lines(record_value(m, k, v), t, t.len(), f) == Ok::<StatsMap, AggregateError>(
            record_value(m, k, v),
        ));
        assert(fold_lines(m, t, 0, f) == Ok::<StatsMap, AggregateError>(record_value(m, k, v)));
    }
}

} // verus!
