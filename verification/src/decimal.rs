//! Decimal numerals of natural numbers of any size.
use vstd::arithmetic::power::*;
use vstd::arithmetic::power2::*;
use vstd::prelude::*;

verus! {

/// The character of one decimal digit.
pub open spec fn digit(value: nat) -> char {
    (48 + value) as char
}

/// The decimal numeral of `value`, without leading zeros.
pub open spec fn decimal(value: nat) -> Seq<char>
    decreases value,
{
    if value < 10 {
        seq![digit(value)]
    } else {
        decimal(value / 10).push(digit(value % 10))
    }
}

/// The number whose digits are given with the least significant first.
pub open spec fn digits_value(digits: Seq<u8>) -> nat
    decreases digits.len(),
{
    if digits.len() == 0 {
        0
    } else {
        digits[0] as nat + 10 * digits_value(digits.drop_first())
    }
}

/// Digits that stand for a number without leading zeros.
pub open spec fn canonical(digits: Seq<u8>) -> bool {
    &&& digits.len() > 0
    &&& forall|i: int| 0 <= i < digits.len() ==> #[trigger] digits[i] < 10
    &&& digits.len() == 1 || digits.last() != 0
}

spec fn reversed_text(digits: Seq<u8>) -> Seq<char> {
    Seq::new(digits.len(), |i: int| digit(digits[digits.len() - 1 - i] as nat))
}

proof fn lemma_digits_value_push(digits: Seq<u8>, next: u8)
    ensures
        digits_value(digits.push(next)) == digits_value(digits) + pow(10, digits.len()) * next,
    decreases digits.len(),
{
    if digits.len() == 0 {
        lemma_pow0(10);
        assert(digits.push(next).drop_first() =~= Seq::<u8>::empty());
        assert(digits_value(digits.push(next)) == next as nat + 10 * digits_value(
            Seq::<u8>::empty(),
        ));
        assert(pow(10, digits.len()) * next == next) by (nonlinear_arith)
            requires
                pow(10, digits.len()) == 1,
        ;
    } else {
        let rest = digits.drop_first();
        lemma_digits_value_push(rest, next);
        assert(digits.push(next).drop_first() =~= rest.push(next));
        assert(pow(10, digits.len()) == 10 * pow(10, rest.len())) by {
            lemma_pow_adds(10, 1, rest.len());
            lemma_pow1(10);
        }
        assert(10 * (pow(10, rest.len()) * next) == (10 * pow(10, rest.len())) * next)
            by (nonlinear_arith);
    }
}

proof fn lemma_canonical_positive(digits: Seq<u8>)
    requires
        canonical(digits),
        digits.last() != 0,
    ensures
        digits_value(digits) > 0,
    decreases digits.len(),
{
    if digits.len() > 1 {
        let rest = digits.drop_first();
        assert(rest.last() == digits.last());
        assert(forall|i: int| 0 <= i < rest.len() ==> rest[i] == digits[i + 1]);
        lemma_canonical_positive(rest);
    }
}

proof fn lemma_reversed_text(digits: Seq<u8>)
    requires
        canonical(digits),
    ensures
        reversed_text(digits) == decimal(digits_value(digits)),
    decreases digits.len(),
{
    if digits.len() == 1 {
        assert(digits.drop_first() =~= Seq::<u8>::empty());
        assert(digits_value(digits.drop_first()) == 0);
        assert(reversed_text(digits) =~= decimal(digits_value(digits)));
    } else {
        let rest = digits.drop_first();
        assert(rest.last() == digits.last());
        assert(forall|i: int| 0 <= i < rest.len() ==> rest[i] == digits[i + 1]);
        lemma_reversed_text(rest);
        lemma_canonical_positive(rest);
        let value = digits_value(digits);
        assert(value / 10 == digits_value(rest));
        assert(value % 10 == digits[0] as nat);
        assert(reversed_text(digits) =~= reversed_text(rest).push(digit(digits[0] as nat)));
    }
}

/// The digits of `value`, least significant first.
pub fn digits_of(value: u128) -> (digits: Vec<u8>)
    ensures
        canonical(digits@),
        digits_value(digits@) == value,
{
    let mut digits: Vec<u8> = Vec::new();
    let mut rest: u128 = value;
    proof {
        lemma_pow0(10);
    }
    while rest >= 10
        invariant
            forall|i: int| 0 <= i < digits.len() ==> #[trigger] digits@[i] < 10,
            digits_value(digits@) + pow(10, digits@.len()) * rest == value,
            digits@.len() == 0 ==> rest == value,
            digits@.len() > 0 ==> rest > 0,
        decreases rest,
    {
        let next = (rest % 10) as u8;
        proof {
            lemma_digits_value_push(digits@, next);
            lemma_pow_adds(10, digits@.len(), 1);
            lemma_pow1(10);
            let power = pow(10, digits@.len());
            assert(power * rest == power * next + (power * 10) * (rest / 10)) by (nonlinear_arith)
                requires
                    rest == next + 10 * (rest / 10),
            ;
        }
        digits.push(next);
        rest = rest / 10;
    }
    proof {
        lemma_digits_value_push(digits@, rest as u8);
    }
    digits.push(rest as u8);
    digits
}

proof fn lemma_digits_value_take(digits: Seq<u8>, count: int)
    requires
        0 <= count < digits.len(),
    ensures
        digits_value(digits.take(count + 1)) == digits_value(digits.take(count)) + pow(
            10,
            count as nat,
        ) * digits[count],
{
    lemma_digits_value_push(digits.take(count), digits[count]);
    assert(digits.take(count + 1) =~= digits.take(count).push(digits[count]));
}

/// The digits of twice the number.
fn doubled(digits: &Vec<u8>) -> (twice: Vec<u8>)
    requires
        canonical(digits@),
    ensures
        canonical(twice@),
        digits_value(twice@) == 2 * digits_value(digits@),
{
    let mut twice: Vec<u8> = Vec::new();
    let mut carry: u8 = 0;
    let mut index: usize = 0;
    while index < digits.len()
        invariant
            canonical(digits@),
            index <= digits.len(),
            twice.len() == index,
            carry <= 1,
            forall|i: int| 0 <= i < twice.len() ==> #[trigger] twice@[i] < 10,
            2 * digits_value(digits@.take(index as int)) == digits_value(twice@) + pow(
                10,
                index as nat,
            ) * carry,
            0 < index == digits.len() && digits@.len() > 1 ==> carry == 1 || twice@.last() != 0,
            0 < index == digits.len() && digits@.len() == 1 ==> carry == 1 || index == 1,
        decreases digits.len() - index,
    {
        let sum: u8 = 2 * digits[index] + carry;
        let next: u8 = sum % 10;
        proof {
            lemma_digits_value_push(twice@, next);
            lemma_digits_value_take(digits@, index as int);
            lemma_pow_adds(10, index as nat, 1);
            lemma_pow1(10);
            let power = pow(10, index as nat);
            let d = digits@[index as int];
            assert(2 * (power * d) + power * carry == power * next + (power * 10) * (sum / 10))
                by (nonlinear_arith)
                requires
                    2 * d + carry == next + 10 * (sum / 10),
            ;
        }
        twice.push(next);
        carry = sum / 10;
        index = index + 1;
    }
    assert(digits@.take(index as int) =~= digits@);
    if carry == 1 {
        proof {
            lemma_digits_value_push(twice@, 1);
        }
        twice.push(1);
    }
    twice
}

/// The numeral that the digits spell.
pub fn digits_text(digits: &Vec<u8>) -> (text: String)
    requires
        canonical(digits@),
    ensures
        text@ == decimal(digits_value(digits@)),
{
    let mut text = String::new();
    let mut left: usize = digits.len();
    while left > 0
        invariant
            canonical(digits@),
            left <= digits.len(),
            text@ == reversed_text(digits@).take(digits.len() - left),
        decreases left,
    {
        left = left - 1;
        assert(reversed_text(digits@)[digits.len() - 1 - left] == digit(
            digits@[left as int] as nat,
        ));
        text.push((48 + digits[left]) as char);
        assert(reversed_text(digits@).take(digits.len() - left) =~= reversed_text(digits@).take(
            digits.len() - left - 1,
        ).push(digit(digits@[left as int] as nat)));
    }
    proof {
        assert(reversed_text(digits@).take(digits@.len() as int) =~= reversed_text(digits@));
        lemma_reversed_text(digits@);
    }
    text
}

/// The decimal numeral of `value`.
pub fn decimal_text(value: u128) -> (text: String)
    ensures
        text@ == decimal(value as nat),
{
    let digits = digits_of(value);
    digits_text(&digits)
}

/// The decimal numeral of `value` times a power of two.
pub fn scaled_decimal_text(value: u128, doublings: u32) -> (text: String)
    ensures
        text@ == decimal(value as nat * pow2(doublings as nat)),
{
    let mut digits = digits_of(value);
    let mut done: u32 = 0;
    proof {
        lemma2_to64();
        assert(value as nat * pow2(0) == value as nat) by (nonlinear_arith)
            requires
                pow2(0) == 1,
        ;
    }
    while done < doublings
        invariant
            done <= doublings,
            canonical(digits@),
            digits_value(digits@) == value as nat * pow2(done as nat),
        decreases doublings - done,
    {
        digits = doubled(&digits);
        proof {
            lemma_pow2_unfold((done + 1) as nat);
            assert(2 * (value as nat * pow2(done as nat)) == value as nat * (2 * pow2(done as nat)))
                by (nonlinear_arith);
        }
        done = done + 1;
    }
    digits_text(&digits)
}

/// The number that a text of decimal digits spells.
pub open spec fn spelled(text: Seq<char>) -> nat
    decreases text.len(),
{
    if text.len() == 0 {
        0
    } else {
        (10 * spelled(text.drop_last()) + (text.last() as int - 48)) as nat
    }
}

/// A numeral reads back as its number: it holds decimal digits only, and it does not start with a
/// zero unless it is that zero.
pub proof fn law_numerals_read_back(value: nat)
    ensures
        spelled(decimal(value)) == value,
        decimal(value).len() > 0,
        forall|i: int|
            0 <= i < decimal(value).len() ==> '0' <= #[trigger] decimal(value)[i] && decimal(
                value,
            )[i] <= '9',
        decimal(value)[0] == '0' ==> value == 0 && decimal(value).len() == 1,
    decreases value,
{
    let text = decimal(value);
    if value < 10 {
        assert(text.drop_last() =~= Seq::<char>::empty());
        assert(spelled(text.drop_last()) == 0);
    } else {
        law_numerals_read_back(value / 10);
        assert(text.drop_last() =~= decimal(value / 10));
        assert forall|i: int| 0 <= i < text.len() implies '0' <= #[trigger] text[i] && text[i]
            <= '9' by {
            if i < text.len() - 1 {
                assert(text[i] == decimal(value / 10)[i]);
            }
        }
        assert(text[0] == decimal(value / 10)[0]);
    }
}

} // verus!
