//! Money and rates as IEEE 754 binary64 numbers, held by their bit patterns.
//!
//! A finite number is a whole multiple of two to the power of minus 1074, so its magnitude is
//! stated as a natural number of such units. Sums, quotients and decimal renderings are computed
//! in integers and proved against the exact values of those units.
use crate::decimal;
use vstd::arithmetic::div_mod::*;
use vstd::arithmetic::mul::*;
use vstd::arithmetic::power::*;
use vstd::arithmetic::power2::*;
use vstd::prelude::*;

verus! {

/// Two to the power of 52: the weight of the exponent field.
pub const FRACTION_SPAN: u64 = 0x10_0000_0000_0000;

/// Two to the power of 53: one more than the largest significand.
pub const SIGNIFICAND_SPAN: u64 = 0x20_0000_0000_0000;

/// The bit pattern of positive infinity.
pub const INFINITY_BITS: u64 = 0x7ff0_0000_0000_0000;

/// The weight of the sign bit.
pub const SIGN_SPAN: u64 = 0x8000_0000_0000_0000;

/// The quotient of `numerator` and `denominator`, rounded to the nearest whole number; a tie goes
/// to the even neighbour.
pub open spec fn half_even(numerator: nat, denominator: nat) -> nat {
    let quotient = numerator / denominator;
    let remainder = numerator % denominator;
    if 2 * remainder > denominator || (2 * remainder == denominator && quotient % 2 == 1) {
        quotient + 1
    } else {
        quotient
    }
}

/// How many halvings bring `whole` under the significand's span.
pub open spec fn excess_bits(whole: nat) -> nat
    decreases whole,
{
    if whole < SIGNIFICAND_SPAN {
        0
    } else {
        1 + excess_bits(whole / 2)
    }
}

/// The number with at most 53 significant bits that is nearest to the quotient of `numerator` and
/// `denominator`.
pub open spec fn nearest(numerator: nat, denominator: nat) -> nat {
    let step = pow2(excess_bits(numerator / denominator));
    half_even(numerator, denominator * step) * step
}

/// The units of the binary64 number nearest to `units`, or nothing where that is infinite.
pub open spec fn rounded(units: nat) -> Option<nat> {
    let near = nearest(units, 1);
    if near < pow2(2098) {
        Some(near)
    } else {
        None
    }
}

/// The binary64 sum of two amounts; nothing stands for infinity.
pub open spec fn amount_sum(left: Option<nat>, right: Option<nat>) -> Option<nat> {
    match (left, right) {
        (Some(a), Some(b)) => rounded(a + b),
        _ => None,
    }
}

/// The last `places` decimal digits of `value`.
pub open spec fn fraction_digits(value: nat, places: nat) -> Seq<char>
    decreases places,
{
    if places == 0 {
        Seq::empty()
    } else {
        fraction_digits(value / 10, (places - 1) as nat).push(decimal::digit(value % 10))
    }
}

/// The decimal rendering of a magnitude, rounded to `places` digits after the point.
pub open spec fn fixed_units(units: nat, places: nat) -> Seq<char> {
    let base = pow(10, places) as nat;
    let scaled = half_even(units * base, pow2(1074));
    decimal::decimal(scaled / base).push('.') + fraction_digits(scaled % base, places)
}

/// The rendering of an amount with `places` digits after the point.
pub open spec fn amount_text(amount: Option<nat>, places: nat) -> Seq<char> {
    match amount {
        Some(units) => fixed_units(units, places),
        None => seq!['i', 'n', 'f'],
    }
}

/// A binary64 number, held by its bit pattern.
#[derive(Clone, Copy, Debug, PartialEq, Eq, Structural)]
pub struct Binary64 {
    /// The bit pattern.
    pub bits: u64,
}

impl Binary64 {
    /// The bit pattern without the sign.
    pub open spec fn magnitude(self) -> nat {
        if self.bits < SIGN_SPAN {
            self.bits as nat
        } else {
            (self.bits - SIGN_SPAN) as nat
        }
    }

    /// Whether the sign bit is set.
    pub open spec fn is_signed(self) -> bool {
        self.bits >= SIGN_SPAN
    }

    /// The power of two that scales the significand, counted from the smallest.
    pub open spec fn exponent(self) -> nat {
        let field = self.magnitude() / FRACTION_SPAN as nat;
        if field == 0 {
            0
        } else {
            (field - 1) as nat
        }
    }

    /// The significand of a finite number.
    pub open spec fn significand(self) -> nat {
        (self.magnitude() - self.exponent() * FRACTION_SPAN) as nat
    }

    /// The magnitude of a finite number in units of two to the power of minus 1074.
    pub open spec fn units(self) -> nat {
        self.significand() * pow2(self.exponent())
    }

    /// Neither infinite nor a NaN.
    pub open spec fn is_finite(self) -> bool {
        self.magnitude() < INFINITY_BITS
    }

    /// Finite and not below zero.
    pub open spec fn is_price(self) -> bool {
        self.is_finite() && (self.is_signed() ==> self.magnitude() == 0)
    }

    /// Not below zero and not a NaN: a price, or positive infinity.
    pub open spec fn is_amount(self) -> bool {
        self.is_price() || self.bits == INFINITY_BITS
    }

    /// The units of an amount; nothing stands for infinity.
    pub open spec fn amount(self) -> Option<nat> {
        if self.is_finite() {
            Some(self.units())
        } else {
            None
        }
    }

    /// The rendering of a number that is not a NaN with `places` digits after the point.
    pub open spec fn fixed(self, places: nat) -> Seq<char> {
        (if self.is_signed() {
            seq!['-']
        } else {
            Seq::<char>::empty()
        }) + amount_text(self.amount(), places)
    }

    /// The number with the given bit pattern.
    pub fn from_bits(bits: u64) -> (number: Binary64)
        ensures
            number.bits == bits,
    {
        Binary64 { bits }
    }

    /// Zero.
    pub fn zero() -> (number: Binary64)
        ensures
            number.bits == 0,
            number.is_price(),
            number.amount() == Some(0nat),
    {
        let number = Binary64 { bits: 0 };
        assert(0 * pow2(0) == 0) by (nonlinear_arith);
        number
    }

    fn split(self) -> (parts: (u64, u32))
        requires
            self.is_finite(),
        ensures
            parts.0 == self.significand(),
            parts.1 == self.exponent(),
            parts.0 < SIGNIFICAND_SPAN,
            parts.1 <= 2045,
            parts.1 > 0 ==> parts.0 >= FRACTION_SPAN,
    {
        let magnitude: u64 = if self.bits < SIGN_SPAN {
            self.bits
        } else {
            self.bits - SIGN_SPAN
        };
        let field: u64 = magnitude / FRACTION_SPAN;
        if field == 0 {
            (magnitude, 0)
        } else {
            (magnitude - (field - 1) * FRACTION_SPAN, (field - 1) as u32)
        }
    }

    /// Whether the number is finite and not below zero.
    pub fn price(self) -> (accepted: bool)
        ensures
            accepted == self.is_price(),
    {
        self.bits < INFINITY_BITS || self.bits == SIGN_SPAN
    }
}

proof fn lemma_half_even_scales(numerator: nat, denominator: nat, factor: nat)
    requires
        denominator > 0,
        factor > 0,
    ensures
        half_even(numerator * factor, denominator * factor) == half_even(numerator, denominator),
{
    let q = numerator / denominator;
    let r = numerator % denominator;
    lemma_fundamental_div_mod(numerator as int, denominator as int);
    assert(denominator * factor > 0) by (nonlinear_arith)
        requires
            denominator > 0,
            factor > 0,
    ;
    assert(numerator * factor == (denominator * factor) * q + r * factor) by (nonlinear_arith)
        requires
            numerator == denominator * q + r,
    ;
    assert(0 <= r * factor < denominator * factor) by (nonlinear_arith)
        requires
            0 <= r < denominator,
            factor > 0,
    ;
    lemma_fundamental_div_mod_converse(
        (numerator * factor) as int,
        (denominator * factor) as int,
        q as int,
        (r * factor) as int,
    );
    assert(2 * (r * factor) > denominator * factor <==> 2 * r > denominator) by (nonlinear_arith)
        requires
            factor > 0,
    ;
    assert(2 * (r * factor) == denominator * factor <==> 2 * r == denominator)
        by (nonlinear_arith)
        requires
            factor > 0,
    ;
}

proof fn lemma_excess_bits_range(whole: nat)
    ensures
        whole < SIGNIFICAND_SPAN * pow2(excess_bits(whole)),
        excess_bits(whole) > 0 ==> whole >= FRACTION_SPAN * pow2(excess_bits(whole)),
    decreases whole,
{
    lemma2_to64();
    if whole >= SIGNIFICAND_SPAN {
        lemma_excess_bits_range(whole / 2);
        let k = excess_bits(whole / 2);
        lemma_pow2_unfold(k + 1);
        assert(SIGNIFICAND_SPAN * (2 * pow2(k)) == 2 * (SIGNIFICAND_SPAN * pow2(k)))
            by (nonlinear_arith);
        assert(FRACTION_SPAN * (2 * pow2(k)) == 2 * (FRACTION_SPAN * pow2(k))) by (nonlinear_arith);
    }
}

proof fn lemma_excess_bits_unique(whole: nat, bits: nat)
    requires
        whole < SIGNIFICAND_SPAN * pow2(bits),
        bits > 0 ==> whole >= FRACTION_SPAN * pow2(bits),
    ensures
        excess_bits(whole) == bits,
    decreases bits,
{
    lemma2_to64();
    if bits > 0 {
        let k = (bits - 1) as nat;
        lemma_pow2_unfold(bits);
        lemma_pow2_pos(k);
        assert(SIGNIFICAND_SPAN * (2 * pow2(k)) == 2 * (SIGNIFICAND_SPAN * pow2(k)))
            by (nonlinear_arith);
        assert(FRACTION_SPAN * (2 * pow2(k)) == 2 * (FRACTION_SPAN * pow2(k))) by (nonlinear_arith);
        assert(2 * (FRACTION_SPAN * pow2(k)) >= SIGNIFICAND_SPAN) by (nonlinear_arith)
            requires
                pow2(k) >= 1,
                2 * FRACTION_SPAN == SIGNIFICAND_SPAN,
        ;
        lemma_excess_bits_unique(whole / 2, k);
    }
}

/// A number that already fits the significand keeps its value.
proof fn lemma_half_even_whole(value: nat, denominator: nat)
    requires
        denominator > 0,
    ensures
        half_even(value * denominator, denominator) == value,
{
    lemma_fundamental_div_mod_converse(
        (value * denominator) as int,
        denominator as int,
        value as int,
        0,
    );
}

/// The number `significand * 2^exponent` in units.
fn pack(significand: u64, exponent: u32) -> (number: Binary64)
    requires
        significand <= SIGNIFICAND_SPAN,
        exponent > 0 ==> significand >= FRACTION_SPAN,
        exponent <= 4000,
    ensures
        number.is_amount(),
        !number.is_signed(),
        number.amount() == (if significand * pow2(exponent as nat) < pow2(2098) {
            Some((significand * pow2(exponent as nat)) as nat)
        } else {
            None
        }),
{
    let bits: u64 = exponent as u64 * FRACTION_SPAN + significand;
    let ghost k = exponent as nat;
    proof {
        lemma2_to64_rest();
        lemma2_to64();
        lemma_pow2_pos(k);
        assert(pow2(52) == FRACTION_SPAN);
        assert(pow2(53) == SIGNIFICAND_SPAN);
        lemma_pow2_adds(52, 2046);
        lemma_pow2_adds(53, 2045);
    }
    if bits >= INFINITY_BITS {
        proof {
            if significand < SIGNIFICAND_SPAN {
                assert(k >= 2046);
                if k > 2046 {
                    lemma_pow2_strictly_increases(2046, k);
                }
                assert(significand * pow2(k) >= pow2(52) * pow2(2046)) by (nonlinear_arith)
                    requires
                        significand >= pow2(52),
                        pow2(k) >= pow2(2046),
                ;
            } else {
                assert(k >= 2045);
                if k > 2045 {
                    lemma_pow2_strictly_increases(2045, k);
                }
                assert(significand * pow2(k) >= pow2(53) * pow2(2045)) by (nonlinear_arith)
                    requires
                        significand >= pow2(53),
                        pow2(k) >= pow2(2045),
                ;
            }
        }
        Binary64 { bits: INFINITY_BITS }
    } else {
        let number = Binary64 { bits };
        proof {
            if significand < SIGNIFICAND_SPAN {
                assert(k <= 2045);
                if k < 2045 {
                    lemma_pow2_strictly_increases(k, 2045);
                }
                assert(significand * pow2(k) < pow2(53) * pow2(2045)) by (nonlinear_arith)
                    requires
                        significand < pow2(53),
                        0 < pow2(k) <= pow2(2045),
                ;
                assert(number.exponent() == k);
                assert(number.significand() == significand);
            } else {
                assert(k <= 2044);
                lemma_pow2_strictly_increases(k, 2045);
                assert(significand * pow2(k) < pow2(53) * pow2(2045)) by (nonlinear_arith)
                    requires
                        significand == pow2(53) > 0,
                        0 < pow2(k) < pow2(2045),
                ;
                assert(number.exponent() == k + 1);
                assert(number.significand() == FRACTION_SPAN);
                lemma_pow2_unfold(k + 1);
                assert(FRACTION_SPAN * (2 * pow2(k)) == SIGNIFICAND_SPAN * pow2(k))
                    by (nonlinear_arith)
                    requires
                        2 * FRACTION_SPAN == SIGNIFICAND_SPAN,
                ;
            }
        }
        number
    }
}

/// Rounds `whole` to 53 significant bits: the significand and the power of two it is scaled by.
fn leading(whole: u128) -> (parts: (u64, u32))
    ensures
        parts.1 == excess_bits(whole as nat),
        parts.0 == half_even(whole as nat, pow2(parts.1 as nat)),
        parts.1 <= 127,
        parts.0 <= SIGNIFICAND_SPAN,
        parts.1 > 0 ==> parts.0 >= FRACTION_SPAN,
        parts.1 == 0 ==> parts.0 == whole,
{
    let mut quotient: u128 = whole;
    let mut step: u128 = 1;
    let mut halvings: u32 = 0;
    proof {
        lemma2_to64();
    }
    while quotient >= SIGNIFICAND_SPAN as u128
        invariant
            halvings <= 127,
            step == pow2(halvings as nat),
            step > 0,
            step <= whole || halvings == 0,
            quotient == whole / step,
            excess_bits(whole as nat) == halvings + excess_bits(quotient as nat),
        decreases quotient,
    {
        proof {
            lemma_pow2_unfold((halvings + 1) as nat);
            lemma_div_denominator(whole as int, step as int, 2);
            lemma_fundamental_div_mod(whole as int, step as int);
            assert(step * quotient >= step * SIGNIFICAND_SPAN) by (nonlinear_arith)
                requires
                    quotient >= SIGNIFICAND_SPAN,
                    step > 0,
            ;
            if halvings >= 127 {
                lemma_pow2_adds(63, 64);
                lemma2_to64_rest();
                assert(pow2(63) * pow2(64) == 0x8000_0000_0000_0000_0000_0000_0000_0000)
                    by (nonlinear_arith)
                    requires
                        pow2(63) == 0x8000_0000_0000_0000,
                        pow2(64) == 0x1_0000_0000_0000_0000,
                ;
            }
        }
        quotient = quotient / 2;
        step = step * 2;
        halvings = halvings + 1;
    }
    let remainder: u128 = whole % step;
    let up: bool = remainder > step - remainder || (remainder == step - remainder && quotient % 2
        == 1);
    proof {
        let j = halvings as nat;
        lemma_excess_bits_range(whole as nat);
        if j > 0 {
            lemma_div_is_ordered((FRACTION_SPAN * pow2(j)) as int, whole as int, pow2(j) as int);
            lemma_div_by_multiple(FRACTION_SPAN as int, pow2(j) as int);
        } else {
            assert(pow2(0) == 1) by {
                lemma2_to64();
            }
        }
    }
    if up {
        ((quotient + 1) as u64, halvings)
    } else {
        (quotient as u64, halvings)
    }
}

/// Rounds `whole * 2^exponent` units to a binary64 number.
fn round_scaled(whole: u128, exponent: u32) -> (number: Binary64)
    requires
        exponent > 0 ==> whole >= FRACTION_SPAN,
        exponent <= 2045,
    ensures
        number.is_amount(),
        !number.is_signed(),
        number.amount() == rounded(whole as nat * pow2(exponent as nat)),
{
    let (significand, halvings) = leading(whole);
    let ghost total = whole as nat * pow2(exponent as nat);
    proof {
        let j = halvings as nat;
        let k = exponent as nat;
        lemma2_to64();
        lemma_pow2_pos(k);
        lemma_pow2_pos(j);
        lemma_excess_bits_range(whole as nat);
        lemma_pow2_adds(j, k);
        assert(total < SIGNIFICAND_SPAN * (pow2(j) * pow2(k))) by (nonlinear_arith)
            requires
                total == whole * pow2(k),
                whole < SIGNIFICAND_SPAN * pow2(j),
                pow2(k) > 0,
        ;
        if j + k > 0 {
            if j == 0 {
                assert(FRACTION_SPAN * pow2(j) == FRACTION_SPAN) by (nonlinear_arith)
                    requires
                        pow2(j) == 1,
                ;
            }
            assert(whole >= FRACTION_SPAN * pow2(j));
            assert(total >= FRACTION_SPAN * (pow2(j) * pow2(k))) by (nonlinear_arith)
                requires
                    total == whole * pow2(k),
                    whole >= FRACTION_SPAN * pow2(j),
                    pow2(k) > 0,
            ;
        }
        lemma_excess_bits_unique(total, j + k);
        assert(total / 1 == total);
        assert(1 * pow2(j + k) == pow2(j) * pow2(k));
        lemma_half_even_scales(whole as nat, pow2(j), pow2(k));
        assert(nearest(total, 1) == significand * pow2(j + k));
    }
    pack(significand, exponent + halvings)
}

/// A magnitude to which less than half its last place is added rounds back to itself.
proof fn lemma_absorbs(significand: nat, exponent: nat, small: nat)
    requires
        FRACTION_SPAN <= significand < SIGNIFICAND_SPAN,
        exponent > 0,
        2 * small < pow2(exponent),
    ensures
        nearest(significand * pow2(exponent) + small, 1) == significand * pow2(exponent),
{
    let step = pow2(exponent);
    let total = significand * step + small;
    lemma_pow2_pos(exponent);
    assert(total < SIGNIFICAND_SPAN * step) by (nonlinear_arith)
        requires
            total == significand * step + small,
            small < step,
            significand + 1 <= SIGNIFICAND_SPAN,
    ;
    assert(total >= FRACTION_SPAN * step) by (nonlinear_arith)
        requires
            total == significand * step + small,
            significand >= FRACTION_SPAN,
    ;
    lemma_excess_bits_unique(total, exponent);
    assert(total / 1 == total);
    lemma_fundamental_div_mod_converse(
        total as int,
        step as int,
        significand as int,
        small as int,
    );
}

impl Binary64 {
    /// The binary64 sum of two amounts.
    pub fn plus(self, other: Binary64) -> (sum: Binary64)
        requires
            self.is_amount(),
            other.is_amount(),
        ensures
            sum.is_amount(),
            !sum.is_signed(),
            sum.amount() == amount_sum(self.amount(), other.amount()),
    {
        if self.bits == INFINITY_BITS || other.bits == INFINITY_BITS {
            return Binary64 { bits: INFINITY_BITS };
        }
        let (left, left_exponent) = self.split();
        let (right, right_exponent) = other.split();
        let ghost total = self.units() + other.units();
        let (high, high_exponent, low, low_exponent) = if left_exponent >= right_exponent {
            (left, left_exponent, right, right_exponent)
        } else {
            (right, right_exponent, left, left_exponent)
        };
        let distance: u32 = high_exponent - low_exponent;
        if distance > 64 {
            proof {
                let k = high_exponent as nat;
                let l = low_exponent as nat;
                let small = low as nat * pow2(l);
                lemma2_to64();
                lemma2_to64_rest();
                lemma_pow2_pos(l);
                lemma_pow2_adds(l, 64);
                lemma_pow2_strictly_increases(l + 64, k);
                assert(2 * small < pow2(l) * pow2(64)) by (nonlinear_arith)
                    requires
                        small == low * pow2(l),
                        low < SIGNIFICAND_SPAN,
                        pow2(l) > 0,
                        pow2(64) == 0x1_0000_0000_0000_0000,
                ;
                lemma_absorbs(high as nat, k, small);
                lemma_pow2_adds(53, 2045);
                if k < 2045 {
                    lemma_pow2_strictly_increases(k, 2045);
                }
                assert(high * pow2(k) < pow2(53) * pow2(2045)) by (nonlinear_arith)
                    requires
                        high < pow2(53),
                        0 <= pow2(k) <= pow2(2045),
                        0 < pow2(2045),
                {
                    lemma_mul_upper_bound(
                        high as int,
                        pow2(53) - 1,
                        pow2(k) as int,
                        pow2(2045) as int,
                    );
                }
            }
            pack(high, high_exponent)
        } else {
            let mut scaled: u128 = high as u128;
            let mut done: u32 = 0;
            proof {
                lemma2_to64();
                assert(high * pow2(0) == high) by (nonlinear_arith)
                    requires
                        pow2(0) == 1,
                ;
            }
            while done < distance
                invariant
                    done <= distance <= 64,
                    high < SIGNIFICAND_SPAN,
                    scaled == high * pow2(done as nat),
                    scaled <= 0x20_0000_0000_0000_0000_0000_0000_0000,
                decreases distance - done,
            {
                proof {
                    lemma_pow2_unfold((done + 1) as nat);
                    lemma2_to64();
                    lemma2_to64_rest();
                    if done + 1 < 64 {
                        lemma_pow2_strictly_increases((done + 1) as nat, 64);
                    }
                    assert(high * (2 * pow2(done as nat)) == 2 * (high * pow2(done as nat)))
                        by (nonlinear_arith);
                    assert(high * pow2((done + 1) as nat)
                        <= 0x20_0000_0000_0000_0000_0000_0000_0000) by (nonlinear_arith)
                        requires
                            high < SIGNIFICAND_SPAN,
                            0 <= pow2((done + 1) as nat) <= 0x1_0000_0000_0000_0000,
                    ;
                }
                scaled = scaled * 2;
                done = done + 1;
            }
            let whole: u128 = scaled + low as u128;
            proof {
                let l = low_exponent as nat;
                let d = distance as nat;
                lemma_pow2_adds(d, l);
                lemma_pow2_pos(d);
                assert(whole * pow2(l) == high * (pow2(d) * pow2(l)) + low * pow2(l))
                    by (nonlinear_arith)
                    requires
                        whole == high * pow2(d) + low,
                ;
                assert(whole as nat * pow2(l) == total);
                if l > 0 {
                    assert(high * pow2(d) >= high) by (nonlinear_arith)
                        requires
                            pow2(d) > 0,
                    ;
                }
            }
            round_scaled(whole, low_exponent)
        }
    }
}

/// The binary64 number nearest to the quotient of two whole numbers.
fn quotient(numerator: u128, denominator: u64) -> (number: Binary64)
    requires
        0 < denominator <= numerator <= 0x1_0000_0000_0000_0000,
        denominator <= 0x10_0000,
        numerator / (denominator as u128) < SIGNIFICAND_SPAN,
    ensures
        number.is_price(),
        !number.is_signed(),
        number.units() == nearest(numerator as nat * pow2(1074), denominator as nat),
{
    let mut scaled: u128 = numerator;
    let mut shift: u32 = 0;
    let divisor: u128 = denominator as u128;
    proof {
        lemma2_to64();
        assert(numerator * pow2(0) == numerator) by (nonlinear_arith)
            requires
                pow2(0) == 1,
        ;
        assert(divisor * pow2(0) == divisor) by (nonlinear_arith)
            requires
                pow2(0) == 1,
        ;
    }
    while (scaled * 2) / divisor < SIGNIFICAND_SPAN as u128
        invariant
            0 < divisor <= 0x10_0000,
            scaled == numerator * pow2(shift as nat),
            divisor * pow2(shift as nat) <= scaled,
            scaled / divisor < SIGNIFICAND_SPAN as u128,
            scaled < 0x200_0000_0000_0000_0000_0000,
            shift <= 53,
        decreases 53 - shift,
    {
        proof {
            let s = shift as nat;
            lemma_pow2_unfold(s + 1);
            assert(numerator * (2 * pow2(s)) == 2 * (numerator * pow2(s))) by (nonlinear_arith);
            assert(divisor * (2 * pow2(s)) == 2 * (divisor * pow2(s))) by (nonlinear_arith);
            lemma_fundamental_div_mod((scaled * 2) as int, divisor as int);
            assert(scaled * 2 < divisor * SIGNIFICAND_SPAN) by (nonlinear_arith)
                requires
                    scaled * 2 == divisor * ((scaled * 2) as int / divisor as int) + (scaled * 2)
                        as int % divisor as int,
                    (scaled * 2) as int % (divisor as int) < divisor,
                    (scaled * 2) as int / (divisor as int) < SIGNIFICAND_SPAN,
                    divisor > 0,
            ;
            assert(divisor * SIGNIFICAND_SPAN <= 0x200_0000_0000_0000_0000) by (nonlinear_arith)
                requires
                    divisor <= 0x10_0000,
            ;
            assert(divisor * pow2(s + 1) < divisor * SIGNIFICAND_SPAN);
            assert(pow2(s + 1) < SIGNIFICAND_SPAN) by (nonlinear_arith)
                requires
                    divisor * pow2(s + 1) < divisor * SIGNIFICAND_SPAN,
                    divisor > 0,
            ;
            if s + 1 > 53 {
                lemma2_to64_rest();
                lemma_pow2_strictly_increases(53, s + 1);
            }
            assert(s + 1 <= 53) by {
                lemma2_to64_rest();
            }
        }
        scaled = scaled * 2;
        shift = shift + 1;
    }
    let floor: u128 = scaled / divisor;
    let remainder: u128 = scaled % divisor;
    let up: bool = remainder > divisor - remainder || (remainder == divisor - remainder && floor
        % 2 == 1);
    let significand: u64 = if up {
        (floor + 1) as u64
    } else {
        floor as u64
    };
    proof {
        let k = (1074 - shift) as nat;
        let s = shift as nat;
        let whole = numerator as nat * pow2(1074);
        let d = denominator as nat;
        lemma_pow2_pos(k);
        lemma_pow2_adds(s, k);
        assert(whole == scaled * pow2(k)) by (nonlinear_arith)
            requires
                whole == numerator * (pow2(s) * pow2(k)),
                scaled == numerator * pow2(s),
        ;
        lemma_fundamental_div_mod((scaled * 2) as int, divisor as int);
        assert(scaled >= d * FRACTION_SPAN) by (nonlinear_arith)
            requires
                scaled * 2 == d * ((scaled * 2) as int / d as int) + (scaled * 2) as int % d as int,
                (scaled * 2) as int % (d as int) >= 0,
                (scaled * 2) as int / (d as int) >= 2 * FRACTION_SPAN,
                d > 0,
        ;
        lemma_fundamental_div_mod(scaled as int, divisor as int);
        assert(scaled < d * SIGNIFICAND_SPAN) by (nonlinear_arith)
            requires
                scaled == d * (scaled as int / d as int) + scaled as int % d as int,
                scaled as int % (d as int) < d,
                scaled as int / (d as int) < SIGNIFICAND_SPAN,
                d > 0,
        ;
        let lower = FRACTION_SPAN * pow2(k);
        let upper = SIGNIFICAND_SPAN * pow2(k);
        assert(whole >= lower * d) by (nonlinear_arith)
            requires
                whole == scaled * pow2(k),
                scaled >= d * FRACTION_SPAN,
                lower == FRACTION_SPAN * pow2(k),
                pow2(k) > 0,
        ;
        assert(whole < upper * d) by (nonlinear_arith)
            requires
                whole == scaled * pow2(k),
                scaled < d * SIGNIFICAND_SPAN,
                upper == SIGNIFICAND_SPAN * pow2(k),
                pow2(k) > 0,
        ;
        lemma_fundamental_div_mod(whole as int, d as int);
        let q = whole / d;
        assert(q >= lower) by (nonlinear_arith)
            requires
                whole == d * q + whole as int % d as int,
                whole as int % (d as int) < d,
                whole >= lower * d,
                d > 0,
        ;
        assert(q < upper) by (nonlinear_arith)
            requires
                whole == d * q + whole as int % d as int,
                0 <= whole as int % d as int,
                whole < upper * d,
                d > 0,
        ;
        lemma_excess_bits_unique(q, k);
        lemma_half_even_scales(scaled as nat, d, pow2(k));
        assert(nearest(whole, d) == significand * pow2(k));
        lemma_div_is_ordered((d * FRACTION_SPAN) as int, scaled as int, d as int);
        lemma_div_by_multiple(FRACTION_SPAN as int, d as int);
        assert(d * FRACTION_SPAN == FRACTION_SPAN * d) by (nonlinear_arith);
        lemma2_to64_rest();
        lemma_pow2_adds(54, k);
        lemma_pow2_strictly_increases(54 + k, 2098);
        assert(significand * pow2(k) < pow2(54) * pow2(k)) by (nonlinear_arith)
            requires
                significand <= SIGNIFICAND_SPAN,
                pow2(54) == 2 * SIGNIFICAND_SPAN,
                pow2(k) > 0,
        ;
    }
    pack(significand, 1074 - shift)
}

/// The rendering, with one digit after the point, of a count divided by a whole unit, where both
/// the count and the quotient are rounded to binary64.
pub open spec fn share_text(count: nat, unit: nat) -> Seq<char> {
    fixed_units(nearest(nearest(count, 1) * pow2(1074), unit), 1)
}

/// The count in multiples of `unit`, with one digit after the point.
pub fn share(count: u64, unit: u64) -> (text: String)
    requires
        0 < unit <= 0x10_0000,
        unit <= count,
        count / unit < 0x10_0000_0000_0000,
    ensures
        text@ == share_text(count as nat, unit as nat),
{
    let (significand, halvings) = leading(count as u128);
    let mut whole: u128 = significand as u128;
    let mut done: u32 = 0;
    proof {
        lemma2_to64();
        lemma2_to64_rest();
        lemma_excess_bits_range(count as nat);
        let h = halvings as nat;
        if h > 11 {
            lemma_pow2_adds(52, 12);
            if h > 12 {
                lemma_pow2_strictly_increases(12, h);
            }
            assert(FRACTION_SPAN * pow2(h) >= FRACTION_SPAN * pow2(12)) by (nonlinear_arith)
                requires
                    pow2(h) >= pow2(12),
            ;
        }
        assert(h <= 11);
        assert(significand * pow2(0) == significand) by (nonlinear_arith)
            requires
                pow2(0) == 1,
        ;
    }
    while done < halvings
        invariant
            done <= halvings <= 11,
            significand <= SIGNIFICAND_SPAN,
            whole == significand * pow2(done as nat),
        decreases halvings - done,
    {
        proof {
            lemma_pow2_unfold((done + 1) as nat);
            lemma2_to64();
            if done > 0 {
                lemma_pow2_strictly_increases(0, done as nat);
            }
            if done < 11 {
                lemma_pow2_strictly_increases(done as nat, 11);
            }
            assert(significand * pow2(done as nat) <= SIGNIFICAND_SPAN * 0x800)
                by (nonlinear_arith)
                requires
                    significand <= SIGNIFICAND_SPAN,
                    0 <= pow2(done as nat) <= 0x800,
            ;
            assert(significand * (2 * pow2(done as nat)) == 2 * (significand * pow2(done as nat)))
                by (nonlinear_arith);
        }
        whole = whole * 2;
        done = done + 1;
    }
    proof {
        let n = count as nat;
        let step = pow2(halvings as nat);
        lemma_pow2_pos(halvings as nat);
        assert(n / 1 == n);
        assert(1 * step == step);
        assert(whole == nearest(n, 1));
        lemma_nearest_bounds(n, unit as nat);
        assert(0x10_0000_0000_0000 * (unit as nat) > n) by {
            lemma_fundamental_div_mod(count as int, unit as int);
            assert(0x10_0000_0000_0000 * unit > count) by (nonlinear_arith)
                requires
                    count == unit * (count as int / unit as int) + count as int % unit as int,
                    count as int % (unit as int) < unit,
                    count as int / (unit as int) < 0x10_0000_0000_0000,
                    unit > 0,
            ;
        }
        lemma_fundamental_div_mod(whole as int, unit as int);
        assert(whole as int / (unit as int) < SIGNIFICAND_SPAN) by (nonlinear_arith)
            requires
                whole == unit * (whole as int / unit as int) + whole as int % unit as int,
                whole as int % (unit as int) >= 0,
                whole <= 2 * count,
                count < 0x10_0000_0000_0000 * unit,
                unit > 0,
        ;
    }
    let number = quotient(whole, unit);
    number.fixed_text(1)
}

/// Rounding to 53 bits neither doubles a number nor takes it below a small whole number that it
/// reaches.
proof fn lemma_nearest_bounds(whole: nat, floor: nat)
    requires
        floor <= whole,
        floor <= FRACTION_SPAN,
        whole <= u64::MAX,
    ensures
        floor <= nearest(whole, 1) <= 2 * whole,
        nearest(whole, 1) <= 0x1_0000_0000_0000_0000,
{
    let k = excess_bits(whole);
    let step = pow2(k);
    lemma2_to64();
    lemma2_to64_rest();
    lemma_pow2_pos(k);
    lemma_excess_bits_range(whole);
    assert(whole / 1 == whole);
    assert(1 * step == step);
    lemma_fundamental_div_mod(whole as int, step as int);
    let q = whole / step;
    let r = whole % step;
    let h = half_even(whole, step);
    if k == 0 {
        assert(whole * 1 == whole);
        lemma_half_even_whole(whole, 1);
        assert(h * 1 == h);
    } else {
        lemma_div_is_ordered((FRACTION_SPAN * step) as int, whole as int, step as int);
        lemma_div_by_multiple(FRACTION_SPAN as int, step as int);
        assert(q >= FRACTION_SPAN);
        assert(h * step >= FRACTION_SPAN) by (nonlinear_arith)
            requires
                h >= FRACTION_SPAN,
                step >= 1,
        ;
        assert((q + 1) * step <= 2 * (step * q)) by (nonlinear_arith)
            requires
                q >= 1,
                step >= 0,
        ;
        assert(h * step <= (q + 1) * step) by (nonlinear_arith)
            requires
                h <= q + 1,
                step >= 0,
        ;
        if k > 11 {
            lemma_pow2_adds(52, 12);
            if k > 12 {
                lemma_pow2_strictly_increases(12, k);
            }
            assert(FRACTION_SPAN * step >= FRACTION_SPAN * pow2(12)) by (nonlinear_arith)
                requires
                    step >= pow2(12),
            ;
        }
        if k < 11 {
            lemma_pow2_strictly_increases(k, 11);
        }
        assert(q < SIGNIFICAND_SPAN) by (nonlinear_arith)
            requires
                whole < SIGNIFICAND_SPAN * step,
                whole == step * q + r,
                r >= 0,
                step > 0,
        ;
        assert(h * step <= SIGNIFICAND_SPAN * 0x800) by (nonlinear_arith)
            requires
                h <= SIGNIFICAND_SPAN,
                0 <= step <= 0x800,
        ;
    }
}

/// Appends the last `places` decimal digits of `value`.
fn push_fraction(text: &mut String, value: u128, places: u32)
    ensures
        final(text)@ == old(text)@ + fraction_digits(value as nat, places as nat),
    decreases places,
{
    if places > 0 {
        push_fraction(text, value / 10, places - 1);
        assert(48 + value % 10 <= 57);
        text.push((48 + (value % 10) as u8) as char);
    }
    assert(text@ =~= old(text)@ + fraction_digits(value as nat, places as nat));
}

impl Binary64 {
    /// Renders a number that is not a NaN with `places` digits after the point, as the nearest
    /// decimal.
    pub fn fixed_text(self, places: u32) -> (text: String)
        requires
            self.magnitude() <= INFINITY_BITS,
            1 <= places <= 6,
        ensures
            text@ == self.fixed(places as nat),
    {
        let mut text = String::new();
        let signed: bool = self.bits >= SIGN_SPAN;
        if signed {
            text.push('-');
        }
        assert(text@ =~= if self.is_signed() {
            seq!['-']
        } else {
            Seq::<char>::empty()
        });
        let ghost prefix = text@;
        if self.bits == INFINITY_BITS || self.bits == SIGN_SPAN + INFINITY_BITS {
            text.push('i');
            text.push('n');
            text.push('f');
            assert(text@ =~= prefix + seq!['i', 'n', 'f']);
            return text;
        }
        let (significand, exponent) = self.split();
        let mut base: u128 = 1;
        let mut place: u32 = 0;
        proof {
            lemma_pow0(10);
        }
        while place < places
            invariant
                place <= places <= 6,
                base == pow(10, place as nat),
                base <= 1_000_000,
                place == 0 ==> base == 1,
                place == 1 ==> base == 10,
                place == 2 ==> base == 100,
                place == 3 ==> base == 1_000,
                place == 4 ==> base == 10_000,
                place == 5 ==> base == 100_000,
                place == 6 ==> base == 1_000_000,
            decreases places - place,
        {
            proof {
                lemma_pow_adds(10, place as nat, 1);
                lemma_pow1(10);
            }
            base = base * 10;
            place = place + 1;
        }
        let ghost units = self.units();
        let ghost k = exponent as nat;
        proof {
            lemma_pow2_pos(k);
            lemma_pow2_pos(1074);
            lemma_pow_positive(10, places as nat);
        }
        if exponent > 1074 {
            let whole = decimal::scaled_decimal_text(significand as u128, exponent - 1074);
            proof {
                let extra = (exponent - 1074) as nat;
                let big = significand as nat * pow2(extra);
                lemma_pow2_adds(extra, 1074);
                assert(units * base == (big * base) * pow2(1074)) by (nonlinear_arith)
                    requires
                        units == significand * (pow2(extra) * pow2(1074)),
                        big == significand * pow2(extra),
                ;
                lemma_half_even_whole((big * base) as nat, pow2(1074));
                lemma_div_by_multiple(big as int, base as int);
                lemma_mod_multiples_basic(big as int, base as int);
            }
            text.append(whole.as_str());
            text.push('.');
            push_fraction(&mut text, 0, places);
            assert(text@ =~= self.fixed(places as nat));
            return text;
        }
        let shift: u32 = 1074 - exponent;
        assert(significand * base <= 0x20_0000_0000_0000 * 1_000_000) by (nonlinear_arith)
            requires
                0 <= significand <= 0x20_0000_0000_0000,
                0 <= base <= 1_000_000,
        ;
        let product: u128 = significand as u128 * base;
        let scaled: u128 = if shift > 120 {
            0
        } else {
            let mut divisor: u128 = 1;
            let mut done: u32 = 0;
            proof {
                lemma2_to64();
            }
            while done < shift
                invariant
                    done <= shift <= 120,
                    divisor == pow2(done as nat),
                decreases shift - done,
            {
                proof {
                    lemma_pow2_unfold((done + 1) as nat);
                    lemma_pow2_limit(done as nat);
                }
                divisor = divisor * 2;
                done = done + 1;
            }
            proof {
                lemma_pow2_pos(shift as nat);
                lemma_pow2_limit(shift as nat);
            }
            let floor: u128 = product / divisor;
            let remainder: u128 = product % divisor;
            if remainder > divisor - remainder || (remainder == divisor - remainder && floor % 2
                == 1) {
                floor + 1
            } else {
                floor
            }
        };
        proof {
            let s = shift as nat;
            lemma_pow2_adds(s, k);
            lemma_pow2_pos(s);
            assert(units * base == product * pow2(k)) by (nonlinear_arith)
                requires
                    units == significand * pow2(k),
                    product == significand * base,
            ;
            lemma_half_even_scales(product as nat, pow2(s), pow2(k));
            if shift > 120 {
                lemma2_to64();
                lemma2_to64_rest();
                lemma_pow2_adds(60, 60);
                lemma_pow2_strictly_increases(120, s);
                assert(pow2(60) * pow2(60) >= 0x1000_0000_0000_0000 * 0x1000_0000_0000_0000)
                    by (nonlinear_arith)
                    requires
                        pow2(60) == 0x1000_0000_0000_0000,
                ;
                lemma_fundamental_div_mod_converse(product as int, pow2(s) as int, 0, product as int);
            }
            assert(scaled == half_even((units * base) as nat, pow2(1074)));
        }
        let whole = decimal::decimal_text(scaled / base);
        text.append(whole.as_str());
        text.push('.');
        push_fraction(&mut text, scaled % base, places);
        assert(text@ =~= self.fixed(places as nat));
        text
    }
}

proof fn lemma_pow2_limit(exponent: nat)
    requires
        exponent <= 120,
    ensures
        pow2(exponent) <= 0x100_0000_0000_0000_0000_0000_0000_0000,
{
    lemma2_to64();
    lemma2_to64_rest();
    lemma_pow2_adds(60, 60);
    if exponent < 120 {
        lemma_pow2_strictly_increases(exponent, 120);
    }
    assert(pow2(60) * pow2(60) == 0x100_0000_0000_0000_0000_0000_0000_0000) by (nonlinear_arith)
        requires
            pow2(60) == 0x1000_0000_0000_0000,
    ;
}

/// A binary64 number added to nothing is itself: no rounding takes place.
pub proof fn law_zero_plus_price(number: Binary64)
    requires
        number.is_price(),
    ensures
        amount_sum(Some(0), number.amount()) == number.amount(),
        amount_sum(number.amount(), Some(0)) == number.amount(),
{
    let k = number.exponent();
    let m = number.significand();
    let units = number.units();
    lemma2_to64();
    lemma2_to64_rest();
    lemma_pow2_pos(k);
    assert(m < SIGNIFICAND_SPAN && (k > 0 ==> m >= FRACTION_SPAN) && k <= 2045);
    assert(units < SIGNIFICAND_SPAN * pow2(k)) by (nonlinear_arith)
        requires
            units == m * pow2(k),
            m < SIGNIFICAND_SPAN,
            pow2(k) > 0,
    ;
    if k > 0 {
        assert(units >= FRACTION_SPAN * pow2(k)) by (nonlinear_arith)
            requires
                units == m * pow2(k),
                m >= FRACTION_SPAN,
        ;
    }
    lemma_excess_bits_unique(units, k);
    assert(units / 1 == units);
    assert(1 * pow2(k) == pow2(k));
    lemma_half_even_whole(m, pow2(k));
    lemma_pow2_adds(53, 2045);
    if k < 2045 {
        lemma_pow2_strictly_increases(k, 2045);
    }
    assert(m * pow2(k) < pow2(53) * pow2(2045)) by (nonlinear_arith)
        requires
            m < pow2(53),
            0 < pow2(k) <= pow2(2045),
    ;
}

/// The order of two summands does not matter.
pub proof fn law_sum_commutes(left: Option<nat>, right: Option<nat>)
    ensures
        amount_sum(left, right) == amount_sum(right, left),
{
}

/// Whether rounding leaves an amount as it is.
pub open spec fn is_exact(amount: Option<nat>) -> bool {
    match amount {
        Some(units) => rounded(units) == Some(units),
        None => true,
    }
}

/// Whether one amount is no more than another; nothing stands for infinity.
pub open spec fn at_most(left: Option<nat>, right: Option<nat>) -> bool {
    match (left, right) {
        (_, None) => true,
        (Some(a), Some(b)) => a <= b,
        (None, Some(_)) => false,
    }
}

/// Nothing needs no rounding.
pub proof fn lemma_zero_exact()
    ensures
        is_exact(Some(0)),
{
    let number = Binary64 { bits: 0 };
    assert(0 * pow2(0) == 0) by (nonlinear_arith);
    law_zero_plus_price(number);
}

proof fn lemma_half_even_monotone(left: nat, right: nat, denominator: nat)
    requires
        left <= right,
        denominator > 0,
    ensures
        half_even(left, denominator) <= half_even(right, denominator),
{
    let d = denominator as int;
    lemma_fundamental_div_mod(left as int, d);
    lemma_fundamental_div_mod(right as int, d);
    let (p, q) = (left as int / d, right as int / d);
    assert(p <= q) by (nonlinear_arith)
        requires
            left <= right,
            d > 0,
            left == d * p + left as int % d,
            right == d * q + right as int % d,
            0 <= left as int % d,
            0 <= right as int % d < d,
    ;
    if p == q {
        assert(left as int % d <= right as int % d);
    }
}

/// Rounding keeps the order of two numbers.
proof fn lemma_nearest_monotone(left: nat, right: nat)
    requires
        left <= right,
    ensures
        nearest(left, 1) <= nearest(right, 1),
{
    let (j, k) = (excess_bits(left), excess_bits(right));
    let (a, b) = (pow2(j), pow2(k));
    lemma_pow2_pos(j);
    lemma_pow2_pos(k);
    lemma_excess_bits_range(left);
    lemma_excess_bits_range(right);
    assert(left / 1 == left && right / 1 == right);
    assert(1 * a == a && 1 * b == b);
    if j == k {
        lemma_half_even_monotone(left, right, a);
        assert(half_even(left, a) * a <= half_even(right, a) * a) by (nonlinear_arith)
            requires
                half_even(left, a) <= half_even(right, a),
                a > 0,
        ;
    } else if j < k {
        lemma_pow2_unfold(j + 1);
        if j + 1 < k {
            lemma_pow2_strictly_increases(j + 1, k);
        }
        lemma_half_even_below(left, a);
        lemma_half_even_above(right, b);
        assert(half_even(left, a) * a <= half_even(right, b) * b) by (nonlinear_arith)
            requires
                half_even(left, a) <= SIGNIFICAND_SPAN,
                half_even(right, b) >= FRACTION_SPAN,
                SIGNIFICAND_SPAN == 2 * FRACTION_SPAN,
                2 * a <= b,
                a > 0,
        ;
    } else {
        lemma_pow2_unfold(k + 1);
        if k + 1 < j {
            lemma_pow2_strictly_increases(k + 1, j);
        }
        assert(FRACTION_SPAN * a >= SIGNIFICAND_SPAN * b) by (nonlinear_arith)
            requires
                a >= 2 * b,
                SIGNIFICAND_SPAN == 2 * FRACTION_SPAN,
        ;
    }
}

proof fn lemma_half_even_below(value: nat, step: nat)
    requires
        step > 0,
        value < SIGNIFICAND_SPAN * step,
    ensures
        half_even(value, step) <= SIGNIFICAND_SPAN,
{
    lemma_fundamental_div_mod(value as int, step as int);
    assert(value as int / step as int <= SIGNIFICAND_SPAN - 1) by (nonlinear_arith)
        requires
            value == step * (value as int / step as int) + value as int % step as int,
            0 <= value as int % step as int,
            value < SIGNIFICAND_SPAN * step,
            step > 0,
    ;
}

proof fn lemma_half_even_above(value: nat, step: nat)
    requires
        step > 0,
        value >= FRACTION_SPAN * step,
    ensures
        half_even(value, step) >= FRACTION_SPAN,
{
    lemma_fundamental_div_mod(value as int, step as int);
    assert(value as int / step as int >= FRACTION_SPAN) by (nonlinear_arith)
        requires
            value == step * (value as int / step as int) + value as int % step as int,
            value as int % step as int <= step - 1,
            value >= FRACTION_SPAN * step,
            step > 0,
    ;
}

/// What has been rounded stays as it is.
proof fn lemma_nearest_again(units: nat)
    ensures
        nearest(nearest(units, 1), 1) == nearest(units, 1),
{
    let k = excess_bits(units);
    let step = pow2(k);
    let m = half_even(units, step);
    let near = nearest(units, 1);
    lemma_pow2_pos(k);
    lemma_excess_bits_range(units);
    assert(units / 1 == units && near / 1 == near);
    assert(1 * step == step);
    lemma_half_even_below(units, step);
    if k > 0 {
        lemma_half_even_above(units, step);
    }
    if m < SIGNIFICAND_SPAN {
        assert(near < SIGNIFICAND_SPAN * step) by (nonlinear_arith)
            requires
                near == m * step,
                m < SIGNIFICAND_SPAN,
                step > 0,
        ;
        if k > 0 {
            assert(near >= FRACTION_SPAN * step) by (nonlinear_arith)
                requires
                    near == m * step,
                    m >= FRACTION_SPAN,
            ;
        }
        lemma_excess_bits_unique(near, k);
        lemma_half_even_whole(m, step);
    } else {
        let double = pow2(k + 1);
        lemma_pow2_unfold(k + 1);
        assert(near == FRACTION_SPAN * double) by (nonlinear_arith)
            requires
                near == m * step,
                m == SIGNIFICAND_SPAN,
                SIGNIFICAND_SPAN == 2 * FRACTION_SPAN,
                double == 2 * step,
        ;
        assert(near < SIGNIFICAND_SPAN * double) by (nonlinear_arith)
            requires
                near == FRACTION_SPAN * double,
                double > 0,
                FRACTION_SPAN < SIGNIFICAND_SPAN,
        ;
        lemma_excess_bits_unique(near, k + 1);
        lemma_half_even_whole(FRACTION_SPAN as nat, double);
        assert(1 * double == double);
    }
}

/// A sum needs no further rounding, and it is no less than either summand.
pub proof fn law_sum_never_shrinks(left: Option<nat>, right: Option<nat>)
    requires
        is_exact(left),
        is_exact(right),
    ensures
        is_exact(amount_sum(left, right)),
        at_most(left, amount_sum(left, right)),
        at_most(right, amount_sum(left, right)),
{
    if let (Some(a), Some(b)) = (left, right) {
        lemma_nearest_again(a + b);
        lemma_nearest_monotone(a, a + b);
        lemma_nearest_monotone(b, a + b);
    }
}

/// The rounded quotient is no further from the exact one than one half, and where it is exactly one
/// half away, it is even.
pub proof fn law_half_even(numerator: nat, denominator: nat)
    requires
        denominator > 0,
    ensures
        ({
            let near = half_even(numerator, denominator);
            &&& 2 * (near * denominator) <= 2 * numerator + denominator
            &&& 2 * numerator <= 2 * (near * denominator) + denominator
            &&& 2 * (near * denominator) == 2 * numerator + denominator || 2 * numerator == 2 * (near
                * denominator) + denominator ==> near % 2 == 0
        }),
{
    let quotient = numerator / denominator;
    let remainder = numerator % denominator;
    let near = half_even(numerator, denominator);
    lemma_fundamental_div_mod(numerator as int, denominator as int);
    assert(quotient * denominator == denominator * quotient) by (nonlinear_arith);
    assert((quotient + 1) * denominator == denominator * quotient + denominator)
        by (nonlinear_arith);
    assert(remainder < denominator);
}

/// A quotient is rounded to at most 53 significant bits: to a whole number where it is below two to
/// the power of 53, and otherwise to a multiple of the power of two that leaves it 53 bits. Of these
/// the nearest is taken, and of two equally near ones the one with the even multiple.
pub proof fn law_nearest(numerator: nat, denominator: nat)
    requires
        denominator > 0,
    ensures
        exists|multiple: nat, bits: nat|
            {
                let step = pow2(bits);
                &&& nearest(numerator, denominator) == #[trigger] (multiple * pow2(bits))
                &&& numerator / denominator < 0x20_0000_0000_0000 * step
                &&& bits > 0 ==> numerator / denominator >= 0x10_0000_0000_0000 * step
                &&& 2 * (multiple * (denominator * step)) <= 2 * numerator + denominator * step
                &&& 2 * numerator <= 2 * (multiple * (denominator * step)) + denominator * step
                &&& 2 * (multiple * (denominator * step)) == 2 * numerator + denominator * step || 2
                    * numerator == 2 * (multiple * (denominator * step)) + denominator * step
                    ==> multiple % 2 == 0
            },
{
    let bits = excess_bits(numerator / denominator);
    let step = pow2(bits);
    let multiple = half_even(numerator, denominator * step);
    lemma_excess_bits_range(numerator / denominator);
    lemma_pow2_pos(bits);
    assert(denominator * step > 0) by (nonlinear_arith)
        requires
            denominator > 0,
            step > 0,
    ;
    law_half_even(numerator, denominator * step);
    assert(nearest(numerator, denominator) == multiple * pow2(bits));
}

/// The sum of two amounts is their exact sum, rounded; from two to the power of 1024 on, that is from
/// two to the power of 2098 units on, it is infinite, and with an infinite summand it always is.
pub proof fn law_amount_sums(left: nat, right: nat, other: Option<nat>)
    ensures
        nearest(left + right, 1) < pow2(2098) ==> amount_sum(Some(left), Some(right)) == Some(
            nearest(left + right, 1),
        ),
        nearest(left + right, 1) >= pow2(2098) ==> amount_sum(Some(left), Some(right)) is None,
        amount_sum(None, other) is None,
        amount_sum(other, None) is None,
{
}

/// A bit pattern stands for its sign, its power of two and its fraction: without a power of two the
/// fraction counts units, and with one it counts steps above the leading bit.
pub proof fn law_number_values(number: Binary64, signed: bool, field: nat, fraction: nat)
    requires
        fraction < 0x10_0000_0000_0000,
        field <= 0x7ff,
        number.bits as int == (if signed {
            0x8000_0000_0000_0000int
        } else {
            0
        }) + field * 0x10_0000_0000_0000 + fraction,
    ensures
        field == 0x7ff ==> number.amount() is None,
        field == 0 ==> number.amount() == Some(fraction),
        0 < field < 0x7ff ==> number.amount() == Some(
            (0x10_0000_0000_0000 + fraction) * pow2((field - 1) as nat),
        ),
        number.is_signed() == signed,
{
    let magnitude = number.magnitude();
    assert(magnitude == field * 0x10_0000_0000_0000 + fraction);
    assert(magnitude / 0x10_0000_0000_0000 == field);
    lemma2_to64();
    if field == 0 {
        assert(number.significand() == fraction);
        assert(fraction * pow2(0) == fraction) by (nonlinear_arith)
            requires
                pow2(0) == 1,
        ;
    } else {
        assert(number.significand() == 0x10_0000_0000_0000 + fraction);
    }
}

/// Prices are the finite numbers that are not below zero; amounts are the prices and infinity.
pub proof fn law_prices(number: Binary64)
    ensures
        number.is_price() <==> number.bits < 0x7ff0_0000_0000_0000 || number.bits
            == 0x8000_0000_0000_0000,
        number.is_amount() <==> number.bits <= 0x7ff0_0000_0000_0000 || number.bits
            == 0x8000_0000_0000_0000,
{
}

proof fn lemma_fraction_read(front: Seq<char>, value: nat, places: nat)
    requires
        value < pow(10, places),
        forall|i: int| 0 <= i < front.len() ==> '0' <= #[trigger] front[i] && front[i] <= '9',
    ensures
        fraction_digits(value, places).len() == places,
        decimal::spelled(front + fraction_digits(value, places)) == decimal::spelled(front) * pow(
            10,
            places,
        ) + value,
        forall|i: int|
            0 <= i < places ==> '0' <= #[trigger] fraction_digits(value, places)[i]
                && fraction_digits(value, places)[i] <= '9',
    decreases places,
{
    let digits = fraction_digits(value, places);
    lemma_pow0(10);
    if places == 0 {
        assert(front + digits =~= front);
        assert(decimal::spelled(front) * 1 == decimal::spelled(front));
    } else {
        let fewer = (places - 1) as nat;
        let before = fraction_digits(value / 10, fewer);
        lemma_pow_adds(10, 1, fewer);
        lemma_pow1(10);
        lemma_fraction_read(front, value / 10, fewer);
        assert((front + digits).drop_last() =~= front + before);
        assert((front + digits).last() == decimal::digit(value % 10));
        let (x, p) = (decimal::spelled(front) as int, pow(10, fewer));
        assert(10 * (x * p + value / 10) + value % 10 == x * (10 * p) + value) by (nonlinear_arith)
            requires
                value == 10 * (value / 10) + value % 10,
        ;
        assert forall|i: int| 0 <= i < places implies '0' <= #[trigger] digits[i] && digits[i]
            <= '9' by {
            if i < fewer {
                assert(digits[i] == before[i]);
            }
        }
    }
}

/// A rendering reads back as the magnitude, rounded half to even to that many digits after the point:
/// it has digits and one point, with exactly so many digits behind it, at least one before it, and no
/// needless zero at its start.
pub proof fn law_renderings_read_back(units: nat, places: nat)
    ensures
        ({
            let shown = amount_text(Some(units), places);
            let point = shown.len() - places - 1;
            &&& point >= 1
            &&& shown[point] == '.'
            &&& forall|i: int|
                0 <= i < shown.len() && i != point ==> '0' <= #[trigger] shown[i] && shown[i] <= '9'
            &&& decimal::spelled(shown.take(point) + shown.skip(point + 1)) == half_even(
                units * (pow(10, places) as nat),
                pow2(1074),
            )
            &&& shown[0] == '0' ==> point == 1
        }),
        amount_text(None, places) == "inf"@,
{
    let base = pow(10, places) as nat;
    let scaled = half_even(units * base, pow2(1074));
    let shown = fixed_units(units, places);
    let front = decimal::decimal(scaled / base);
    let back = fraction_digits(scaled % base, places);
    reveal_strlit("inf");
    assert(amount_text(None, places) =~= "inf"@);
    lemma_pow_positive(10, places);
    decimal::law_numerals_read_back(scaled / base);
    lemma_fundamental_div_mod(scaled as int, base as int);
    lemma_fraction_read(front, scaled % base, places);
    let point = shown.len() - places - 1;
    assert(point == front.len());
    assert(shown.take(point) =~= front);
    assert(shown.skip(point + 1) =~= back);
    assert((scaled / base) * base == base * (scaled / base)) by (nonlinear_arith);
    assert forall|i: int| 0 <= i < shown.len() && i != point implies '0' <= #[trigger] shown[i]
        && shown[i] <= '9' by {
        if i < point {
            assert(shown[i] == front[i]);
        } else {
            assert(shown[i] == back[i - point - 1]);
        }
    }
    assert(shown[0] == front[0]);
}

/// A number is rendered as its amount, with a minus before it where its sign is set.
pub proof fn law_signed_renderings(number: Binary64, places: nat)
    ensures
        number.bits < 0x8000_0000_0000_0000 ==> number.fixed(places) == amount_text(
            number.amount(),
            places,
        ),
        number.bits >= 0x8000_0000_0000_0000 ==> number.fixed(places) == seq!['-'] + amount_text(
            number.amount(),
            places,
        ),
{
    assert(Seq::<char>::empty() + amount_text(number.amount(), places) =~= amount_text(
        number.amount(),
        places,
    ));
}

proof fn lemma_half_even_by_one(value: nat)
    ensures
        half_even(value, 1) == value,
{
    lemma_half_even_whole(value, 1);
    assert(value * 1 == value);
}

/// A count in multiples of a unit is rendered as the quotient, rounded to binary64 and from there to
/// one digit after the point. A count below two to the power of 53 is taken as it is.
pub proof fn law_shares(count: nat, unit: nat)
    requires
        unit > 0,
        count < 0x20_0000_0000_0000,
    ensures
        share_text(count, unit) == amount_text(Some(nearest(count * pow2(1074), unit)), 1),
{
    lemma2_to64();
    assert(excess_bits(count) == 0);
    lemma_half_even_by_one(count);
    assert(count / 1 == count);
    assert(1 * pow2(0) == 1);
    assert(count * 1 == count);
}

} // verus!
