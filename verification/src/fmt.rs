//! The formatter: renders each entry as `key=min/mean/max`, values with
//! exactly one fractional digit, entries joined by `, ` inside braces. The
//! mean is the sum over the count rounded to the nearest tenth, ties away
//! from zero.

use vstd::prelude::*;
use vstd::arithmetic::div_mod::lemma_fundamental_div_mod;
use crate::aggmap::AggMap;
use crate::measure::AggV;
use crate::parse::{is_digit, is_plain_decimal, dec_tenths, digits_val, fits_tenths};

verus! {

/// Decimal digits of `n`, most significant first.
pub open spec fn dec_digits(n: nat) -> Seq<u8>
    decreases n,
{
    if n < 10 {
        seq![(48 + n) as u8]
    } else {
        dec_digits(n / 10).push((48 + n % 10) as u8)
    }
}

/// The bytes of a tenths count `t` written as a signed decimal with one
/// fractional digit.
pub open spec fn spec_fmt_tenths(t: int) -> Seq<u8> {
    let a = vstd::math::abs(t);
    let body = dec_digits((a / 10) as nat) + seq![46u8] + seq![(48 + a % 10) as u8];
    if t < 0 {
        seq![45u8] + body
    } else {
        body
    }
}

/// `a / d` rounded to the nearest integer, halves rounded up; for
/// nonnegative `a` this is rounding away from zero.
pub open spec fn round_div(a: int, d: int) -> int
    recommends
        a >= 0,
        d >= 1,
{
    if 2 * (a % d) >= d {
        a / d + 1
    } else {
        a / d
    }
}

/// The mean of `sum` tenths over `count` observations, rounded to the
/// nearest tenth with ties away from zero.
pub open spec fn spec_mean(sum: int, count: int) -> int {
    if sum >= 0 {
        round_div(sum, count)
    } else {
        -round_div(-sum, count)
    }
}

/// Appends the decimal digits of `n`.
fn push_dec(n: u64, out: &mut Vec<u8>)
    ensures
        final(out)@ == old(out)@ + dec_digits(n as nat),
    decreases n,
{
    if n < 10 {
        out.push(48 + n as u8);
        proof {
            assert(final(out)@ =~= old(out)@ + dec_digits(n as nat));
        }
    } else {
        push_dec(n / 10, out);
        out.push(48 + (n % 10) as u8);
        proof {
            assert(final(out)@ =~= old(out)@ + dec_digits(n as nat));
        }
    }
}

/// Appends a tenths count as a signed one-fractional-digit decimal.
pub fn push_tenths(t: i64, out: &mut Vec<u8>)
    requires
        -i64::MAX <= t,
    ensures
        final(out)@ == old(out)@ + spec_fmt_tenths(t as int),
{
    let a: u64 = if t < 0 {
        out.push(45);
        (-t) as u64
    } else {
        t as u64
    };
    push_dec(a / 10, out);
    out.push(46);
    out.push(48 + (a % 10) as u8);
    proof {
        assert(final(out)@ =~= old(out)@ + spec_fmt_tenths(t as int));
    }
}

/// The mean in tenths: `sum / count` rounded to the nearest integer, ties
/// away from zero. It lies between the least and greatest value folded in,
/// so it fits the tenths range.
pub fn mean_tenths(sum: i128, count: usize) -> (r: i64)
    requires
        count >= 1,
        count * (-(i64::MAX as int)) <= sum <= count * (i64::MAX as int),
    ensures
        r == spec_mean(sum as int, count as int),
        -i64::MAX <= r,
{
    proof {
        assert(count * (i64::MAX as int) <= (usize::MAX as int) * (i64::MAX as int)
            && (-(usize::MAX as int)) * (i64::MAX as int) <= count * (-(i64::MAX as int)))
            by (nonlinear_arith)
            requires
                1 <= count <= usize::MAX,
        {}
    }
    let neg = sum < 0;
    let a: u128 = if neg {
        (-sum) as u128
    } else {
        sum as u128
    };
    let c = count as u128;
    proof {
        lemma_fundamental_div_mod(a as int, c as int);
        assert(a <= c * (i64::MAX as int)) by (nonlinear_arith)
            requires
                c == count,
                count >= 1,
                count * (-(i64::MAX as int)) <= sum <= count * (i64::MAX as int),
                a == if sum < 0 {
                    -(sum as int)
                } else {
                    sum as int
                },
        {}
        assert((a as int) / (c as int) <= i64::MAX && ((a as int) / (c as int) == i64::MAX
            ==> a as int % c as int == 0)) by (nonlinear_arith)
            requires
                c >= 1,
                a <= c * (i64::MAX as int),
                a as int == (a as int) / (c as int) * c + (a as int) % (c as int),
                0 <= (a as int) % (c as int) < c,
        {}
    }
    let q = a / c;
    let rm = a % c;
    let rq: u128 = if 2 * rm >= c {
        q + 1
    } else {
        q
    };
    if neg {
        -(rq as i64)
    } else {
        rq as i64
    }
}

pub proof fn lemma_dec_digits_are_digits(n: nat)
    ensures
        dec_digits(n).len() >= 1,
        forall|j: int| 0 <= j < dec_digits(n).len() ==> is_digit(#[trigger] dec_digits(n)[j]),
    decreases n,
{
    if n >= 10 {
        lemma_dec_digits_are_digits(n / 10);
        assert forall|j: int| 0 <= j < dec_digits(n).len() implies is_digit(
            #[trigger] dec_digits(n)[j],
        ) by {
            if j < dec_digits(n).len() - 1 {
                assert(dec_digits(n)[j] == dec_digits(n / 10)[j]);
            }
        }
    }
}

pub proof fn lemma_digits_val_dec_digits(n: nat)
    ensures
        digits_val(dec_digits(n)) == n,
    decreases n,
{
    if n < 10 {
        assert(dec_digits(n).drop_last() =~= Seq::<u8>::empty());
        assert(digits_val(Seq::<u8>::empty()) == 0);
        assert(dec_digits(n).last() == (48 + n) as u8);
    } else {
        lemma_digits_val_dec_digits(n / 10);
        assert(dec_digits(n).drop_last() =~= dec_digits(n / 10));
        assert(dec_digits(n).last() == (48 + n % 10) as u8);
        assert(n / 10 * 10 + n % 10 == n) by {
            lemma_fundamental_div_mod(n as int, 10);
        }
    }
}

/// Round trip: formatting a tenths count and parsing the bytes back gives
/// the same count, for every count the library can hold.
pub proof fn lemma_parse_format_round_trip(t: int)
    requires
        -(i64::MAX as int) <= t <= i64::MAX as int,
    ensures
        is_plain_decimal(spec_fmt_tenths(t)),
        fits_tenths(dec_tenths(spec_fmt_tenths(t))),
        dec_tenths(spec_fmt_tenths(t)) == t,
{
    let s = spec_fmt_tenths(t);
    let a = vstd::math::abs(t);
    let digs = dec_digits((a / 10) as nat);
    lemma_dec_digits_are_digits((a / 10) as nat);
    lemma_digits_val_dec_digits((a / 10) as nat);
    let d: int = if t < 0 {
        1
    } else {
        0
    };
    assert(s.len() == d + digs.len() + 2);
    assert(s[0] == 45 <==> t < 0) by {
        if t >= 0 {
            assert(s[0] == digs[0]);
            assert(is_digit(digs[0]));
        }
    }
    assert(s[s.len() - 2] == 46);
    assert(s[s.len() - 1] == (48 + a % 10) as u8);
    assert forall|i: int| d <= i < s.len() - 2 implies is_digit(s[i]) by {
        assert(s[i] == digs[i - d]);
    }
    assert(is_plain_decimal(s));
    assert(s.subrange(d, s.len() - 2) =~= digs);
    assert(a % 10 < 10);
    assert(dec_tenths(s) == if t < 0 {
        -(((a / 10) * 10 + a % 10) as int)
    } else {
        ((a / 10) * 10 + a % 10) as int
    });
    assert(a / 10 * 10 + a % 10 == a) by {
        lemma_fundamental_div_mod(a as int, 10);
    }
}

/// The bytes of one rendered entry: `key=min/mean/max`.
pub open spec fn render_entry(e: (Seq<u8>, AggV)) -> Seq<u8> {
    e.0 + seq![61u8] + spec_fmt_tenths(e.1.min) + seq![47u8] + spec_fmt_tenths(
        spec_mean(e.1.sum, e.1.count as int),
    ) + seq![47u8] + spec_fmt_tenths(e.1.max)
}

/// The rendered entries joined by `, `.
pub open spec fn render_entries(es: Seq<(Seq<u8>, AggV)>) -> Seq<u8>
    decreases es.len(),
{
    if es.len() == 0 {
        Seq::empty()
    } else if es.len() == 1 {
        render_entry(es[0])
    } else {
        render_entries(es.drop_last()) + seq![44u8, 32u8] + render_entry(es.last())
    }
}

/// The full output: the joined entries wrapped in braces.
pub open spec fn spec_render(es: Seq<(Seq<u8>, AggV)>) -> Seq<u8> {
    seq![123u8] + render_entries(es) + seq![125u8]
}

/// Renders a mapping's entries, already in sorted key order, into the
/// output bytes.
#[verifier::rlimit(100)]
pub fn render(m: &AggMap) -> (out: Vec<u8>)
    requires
        m.wf(),
    ensures
        out@ == spec_render(m.entry_view()),
{
    let mut out: Vec<u8> = Vec::new();
    out.push(123);
    let n = m.keys.len();
    let mut i: usize = 0;
    proof {
        assert(out@ =~= seq![123u8] + render_entries(m.entry_view().take(0)));
    }
    while i < n
        invariant
            i <= n,
            n == m.keys@.len(),
            m.wf(),
            out@ == seq![123u8] + render_entries(m.entry_view().take(i as int)),
        decreases n - i,
    {
        if i > 0 {
            out.push(44);
            out.push(32);
        }
        out.extend_from_slice(m.keys[i].as_slice());
        out.push(61);
        let meas = m.meas[i];
        proof {
            assert(m.meas@[i as int].wf());
            assert(meas@.count * meas@.min <= meas@.sum <= meas@.count * meas@.max);
            assert(meas@.count * (-(i64::MAX as int)) <= meas@.count * meas@.min
                && meas@.count * meas@.max <= meas@.count * (i64::MAX as int))
                by (nonlinear_arith)
                requires
                    meas@.count >= 1,
                    -(i64::MAX as int) <= meas@.min <= meas@.max <= i64::MAX as int,
            {}
        }
        push_tenths(meas.min, &mut out);
        out.push(47);
        let mean = mean_tenths(meas.sum, meas.count);
        proof {
            assert(spec_mean(meas@.sum, meas@.count as int) <= i64::MAX);
        }
        push_tenths(mean, &mut out);
        out.push(47);
        push_tenths(meas.max, &mut out);
        proof {
            let ev = m.entry_view();
            assert(ev.take(i as int + 1).drop_last() =~= ev.take(i as int));
            assert(ev.take(i as int + 1).last() == ev[i as int]);
            assert(out@ =~= seq![123u8] + render_entries(ev.take(i as int + 1)));
        }
        i = i + 1;
    }
    out.push(125);
    proof {
        assert(m.entry_view().take(n as int) =~= m.entry_view());
        assert(out@ =~= spec_render(m.entry_view()));
    }
    out
}

} // verus!
