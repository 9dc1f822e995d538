//! Short renderings of large counts.
use crate::binary64;
use crate::decimal;
use vstd::arithmetic::div_mod::*;
use vstd::arithmetic::power::*;
use vstd::arithmetic::power2::*;
use vstd::prelude::*;

verus! {

/// From here on a count is given in thousands.
pub const THOUSAND: u64 = 1_000;

/// From here on a count is given in millions.
pub const MILLION: u64 = 1_000_000;

/// A count as the bill shows it: in full under a thousand, else in thousands or millions with one
/// digit after the point.
pub open spec fn compact(value: nat) -> Seq<char> {
    if value >= MILLION {
        binary64::share_text(value, MILLION as nat).push('M')
    } else if value >= THOUSAND {
        binary64::share_text(value, THOUSAND as nat).push('k')
    } else {
        decimal::decimal(value)
    }
}

/// Renders a count.
pub fn compact_count(value: u64) -> (text: String)
    ensures
        text@ == compact(value as nat),
{
    if value >= MILLION {
        let mut text = binary64::share(value, MILLION);
        text.push('M');
        return text;
    }
    if value >= THOUSAND {
        let mut text = binary64::share(value, THOUSAND);
        text.push('k');
        return text;
    }
    decimal::decimal_text(value as u128)
}

/// A count below a thousand is shown in full. A larger one is shown in thousands, followed by `k`, and
/// from a million on in millions, followed by `M`, with one digit after the point.
pub proof fn law_compact_counts(value: nat)
    ensures
        value < 1_000 ==> decimal::spelled(compact(value)) == value && compact(value)
            == decimal::decimal(value),
        1_000 <= value < 1_000_000 ==> compact(value) == binary64::share_text(value, 1_000) + "k"@,
        1_000_000 <= value ==> compact(value) == binary64::share_text(value, 1_000_000) + "M"@,
{
    decimal::law_numerals_read_back(value);
    reveal_strlit("k");
    reveal_strlit("M");
    assert(binary64::share_text(value, 1_000).push('k') =~= binary64::share_text(value, 1_000)
        + "k"@);
    assert(binary64::share_text(value, 1_000_000).push('M') =~= binary64::share_text(
        value,
        1_000_000,
    ) + "M"@);
}

proof fn lemma_cancel(factor: int, left: int, right: int)
    by (nonlinear_arith)
    requires
        factor > 0,
        factor * left <= factor * right,
    ensures
        left <= right,
{
}

proof fn lemma_share_close(value: nat, unit: nat, tenths: nat)
    requires
        1_000 <= unit <= value,
        value < 0x20_0000_0000_0000,
        tenths == binary64::half_even(
            binary64::nearest(value * pow2(1074), unit) * 10,
            pow2(1074),
        ),
    ensures
        10 * value - unit < tenths * unit < 10 * value + unit,
{
    let p = pow2(1074) as int;
    let x = value * p;
    let n = binary64::nearest(value * pow2(1074), unit) as int;
    let e = 0x10_0000_0000_0000int;
    lemma2_to64();
    lemma2_to64_rest();
    lemma_pow2_pos(1074);
    lemma_pow2_strictly_increases(52, 1074);
    binary64::law_half_even((n * 10) as nat, p as nat);
    binary64::law_nearest(value * pow2(1074), unit);
    let (multiple, bits) = choose|multiple: nat, bits: nat|
        {
            let step = pow2(bits);
            &&& binary64::nearest(value * pow2(1074), unit) == #[trigger] (multiple * pow2(bits))
            &&& value * pow2(1074) / unit < 0x20_0000_0000_0000 * step
            &&& bits > 0 ==> value * pow2(1074) / unit >= 0x10_0000_0000_0000 * step
            &&& 2 * (multiple * (unit * step)) <= 2 * (value * pow2(1074)) + unit * step
            &&& 2 * (value * pow2(1074)) <= 2 * (multiple * (unit * step)) + unit * step
            &&& 2 * (multiple * (unit * step)) == 2 * (value * pow2(1074)) + unit * step || 2 * (
            value * pow2(1074)) == 2 * (multiple * (unit * step)) + unit * step ==> multiple % 2
                == 0
        };
    let s = pow2(bits) as int;
    let us = unit * s;
    assert(multiple * (unit * s) == n * unit) by (nonlinear_arith)
        requires
            n == multiple * s,
    ;
    assert(us * e <= x) by {
        if bits == 0 {
            assert(us == unit) by (nonlinear_arith)
                requires
                    us == unit * s,
                    s == 1,
            ;
            assert(unit * e <= value * p) by (nonlinear_arith)
                requires
                    0 <= unit <= value,
                    0 <= e <= p,
            ;
        } else {
            lemma_fundamental_div_mod(x, unit as int);
            let q = x / unit as int;
            assert(e * s <= q);
            assert(unit * (e * s) <= unit * q) by (nonlinear_arith)
                requires
                    e * s <= q,
                    unit >= 0,
            ;
            assert(unit * (e * s) == us * e) by (nonlinear_arith)
                requires
                    us == unit * s,
            ;
        }
    }
    let t = tenths * unit;
    assert(2 * (tenths * p) * unit <= (20 * n + p) * unit) by (nonlinear_arith)
        requires
            2 * (tenths * p) <= 20 * n + p,
            unit >= 0,
    ;
    assert(20 * n * unit <= (2 * (tenths * p) + p) * unit) by (nonlinear_arith)
        requires
            20 * n <= 2 * (tenths * p) + p,
            unit >= 0,
    ;
    assert((tenths * p) * unit == p * t) by (nonlinear_arith)
        requires
            t == tenths * unit,
    ;
    assert((20 * n + p) * unit == 20 * (n * unit) + p * unit) by (nonlinear_arith);
    assert((2 * (tenths * p) + p) * unit == 2 * (p * t) + p * unit) by (nonlinear_arith)
        requires
            (tenths * p) * unit == p * t,
    ;
    assert(2 * (tenths * p) * unit == 2 * (p * t)) by (nonlinear_arith)
        requires
            (tenths * p) * unit == p * t,
    ;
    assert(20 * n * unit == 20 * (n * unit)) by (nonlinear_arith);
    assert(x == p * value) by (nonlinear_arith)
        requires
            x == value * p,
    ;
    assert(p * (2 * t * e) == (2 * (p * t)) * e) by (nonlinear_arith);
    assert(p * (20 * value * e + 10 * value + unit * e) == (20 * (p * value)) * e + 10 * (p * value)
        + (p * unit) * e) by (nonlinear_arith);
    lemma_cancel(p, 2 * t * e, 20 * value * e + 10 * value + unit * e);
    assert(p * (20 * value * e) == (20 * (p * value)) * e) by (nonlinear_arith);
    assert(p * (2 * t * e + 10 * value + unit * e) == (2 * (p * t)) * e + 10 * (p * value) + (p
        * unit) * e) by (nonlinear_arith);
    lemma_cancel(p, 20 * value * e, 2 * t * e + 10 * value + unit * e);
}

/// A count from a thousand on is shown to less than one tenth of a thousand or of a million: read
/// without its point and its letter, what is shown is a number of tenths that is that close.
pub proof fn law_compact_counts_are_close(value: nat)
    requires
        1_000 <= value < 0x20_0000_0000_0000,
    ensures
        ({
            let unit: int = if value < 1_000_000 {
                1_000
            } else {
                1_000_000
            };
            let shown = compact(value).drop_last();
            let point = shown.len() - 2;
            let tenths = decimal::spelled(shown.take(point) + shown.skip(point + 1));
            &&& point >= 1 && shown[point] == '.'
            &&& 10 * value - unit < tenths * unit < 10 * value + unit
        }),
{
    let unit: nat = if value < 1_000_000 {
        1_000
    } else {
        1_000_000
    };
    let near = binary64::nearest(value * pow2(1074), unit);
    binary64::law_shares(value, unit);
    binary64::law_renderings_read_back(near, 1);
    lemma_pow1(10);
    let shown = binary64::share_text(value, unit);
    assert(compact(value).drop_last() =~= shown);
    lemma_share_close(value, unit, binary64::half_even(near * 10, pow2(1074)));
}

} // verus!
