//! The weights that make up a score.
use vstd::prelude::*;
use vstd::arithmetic::power2::*;
use vstd::arithmetic::mul::*;
use crate::binary64;
use crate::binary64::Binary64;

verus! {

/// The code of One.
pub const ONE: u64 = 0x3FF0_0000_0000_0000;

/// The code of 0.9.
pub const NINE_TENTHS: u64 = 0x3FEC_CCCC_CCCC_CCCD;

/// The code of 1.2.
pub const SIX_FIFTHS: u64 = 0x3FF3_3333_3333_3333;

/// The code of 0.8.
pub const FOUR_FIFTHS: u64 = 0x3FE9_9999_9999_999A;

/// The code of 0.7.
pub const SEVEN_TENTHS: u64 = 0x3FE6_6666_6666_6666;

/// The code of 0.6.
pub const THREE_FIFTHS: u64 = 0x3FE3_3333_3333_3333;

/// The code of 0.2.
pub const ONE_FIFTH: u64 = 0x3FC9_9999_9999_999A;

/// The code of 0.05.
pub const ONE_TWENTIETH: u64 = 0x3FA9_9999_9999_999A;

/// The code of 0.001.
pub const ONE_THOUSANDTH: u64 = 0x3F50_624D_D2F1_A9FC;

/// The code of 0.5.
pub const ONE_HALF: u64 = 0x3FE0_0000_0000_0000;

/// The code of 1.5.
pub const THREE_HALVES: u64 = 0x3FF8_0000_0000_0000;

/// The code of 1e-18.
pub const NEXT_TO_NOTHING: u64 = 0x3C32_725D_D1D2_43AC;

/// What the codes stand for.
pub proof fn lemma_weight_codes()
    ensures
        binary64::fraction(1, 1) == ONE,
        binary64::fraction(9, 10) == NINE_TENTHS,
        binary64::fraction(12, 10) == SIX_FIFTHS,
        binary64::fraction(8, 10) == FOUR_FIFTHS,
        binary64::fraction(7, 10) == SEVEN_TENTHS,
        binary64::fraction(6, 10) == THREE_FIFTHS,
        binary64::fraction(2, 10) == ONE_FIFTH,
        binary64::fraction(5, 100) == ONE_TWENTIETH,
        binary64::fraction(1, 1000) == ONE_THOUSANDTH,
        binary64::fraction(5, 10) == ONE_HALF,
        binary64::fraction(15, 10) == THREE_HALVES,
        binary64::fraction(1, 1_000_000_000_000_000_000) == NEXT_TO_NOTHING,
{
    lemma2_to64();
    lemma2_to64_rest();
    lemma_pow2_adds(64, 48);
    binary64::lemma_fraction(1, 1, 1022, 0x10000000000000, 0x10000000000000);
    binary64::lemma_fraction(9, 10, 1021, 0x1CCCCCCCCCCCCD, 0x20000000000000);
    binary64::lemma_fraction(12, 10, 1022, 0x13333333333333, 0x10000000000000);
    binary64::lemma_fraction(8, 10, 1021, 0x1999999999999A, 0x20000000000000);
    binary64::lemma_fraction(7, 10, 1021, 0x16666666666666, 0x20000000000000);
    binary64::lemma_fraction(6, 10, 1021, 0x13333333333333, 0x20000000000000);
    binary64::lemma_fraction(2, 10, 1019, 0x1999999999999A, 0x80000000000000);
    binary64::lemma_fraction(5, 100, 1017, 0x1999999999999A, 0x200000000000000);
    binary64::lemma_fraction(1, 1000, 1012, 0x10624DD2F1A9FC, 0x4000000000000000);
    binary64::lemma_fraction(5, 10, 1021, 0x10000000000000, 0x20000000000000);
    binary64::lemma_fraction(15, 10, 1022, 0x18000000000000, 0x10000000000000);
    binary64::lemma_fraction(
        1,
        1_000_000_000_000_000_000,
        962,
        0x12725DD1D243AC,
        0x1_0000_0000_0000_0000_0000_0000_0000,
    );
}

/// The code of 2^64.
pub const TWO_TO_64: u64 = 0x43F0_0000_0000_0000;

/// The code of 2^-13.
pub const TWO_TO_MINUS_13: u64 = 0x3F20_0000_0000_0000;

/// The code of 2^-77.
pub const TWO_TO_MINUS_77: u64 = 0x3B20_0000_0000_0000;

/// The value of a power of two.
proof fn lemma_power_units(exponent: nat)
    ensures
        binary64::units(((exponent + 1) * 0x10_0000_0000_0000) as nat) == pow2(exponent + 52),
{
    lemma2_to64_rest();
    binary64::lemma_units_of_parts(exponent, 0x10_0000_0000_0000);
    lemma_pow2_adds(52, exponent);
}

/// The code of 2 to the power of minus `k`.
pub open spec fn power_code(k: nat) -> nat {
    ((1023 - k) * 0x10_0000_0000_0000) as nat
}

/// The product of two numbers that have not fallen below powers of two.
pub proof fn lemma_power_product(a: nat, b: nat, k: nat, l: nat)
    requires
        k + l <= 1022,
        power_code(k) <= a,
        power_code(l) <= b < binary64::INFINITY_CODE,
    ensures
        power_code(k + l) <= binary64::product(a, b),
{
    if a != binary64::INFINITY_CODE {
        let u = binary64::units(a);
        let v = binary64::units(b);
        lemma_power_units((1022 - k) as nat);
        lemma_power_units((1022 - l) as nat);
        lemma_power_units((1022 - k - l) as nat);
        binary64::lemma_units_ordered(power_code(k), a);
        binary64::lemma_units_ordered(power_code(l), b);
        let x = pow2((1074 - k) as nat);
        let y = pow2((1074 - l) as nat);
        lemma_pow2_adds((1074 - k) as nat, (1074 - l) as nat);
        lemma_pow2_adds((1074 - k - l) as nat, 1074);
        assert(x * y <= u * v) by (nonlinear_arith)
            requires
                x <= u,
                y <= v,
        ;
        lemma_pow2_pos(1074);
        binary64::lemma_rounded_at_least(u * v, pow2(1074), power_code(k + l));
    }
}

/// An integer's number is an ordinary one, and lies between one and 2^64.
pub proof fn lemma_integer_code(value: nat)
    requires
        value <= u64::MAX,
    ensures
        binary64::fraction(value, 1) <= TWO_TO_64,
        value > 0 ==> ONE <= binary64::fraction(value, 1),
        value == 0 ==> binary64::fraction(value, 1) == 0,
{
    let one = pow2(1074);
    lemma2_to64();
    lemma2_to64_rest();
    lemma_pow2_adds(64, 1074);
    lemma_pow2_adds(52, 1086);
    lemma_pow2_adds(52, 1022);
    binary64::lemma_units_of_parts(1086, 0x10_0000_0000_0000);
    binary64::lemma_units_of_parts(1022, 0x10_0000_0000_0000);
    assert(value * one <= pow2(64) * one) by (nonlinear_arith)
        requires
            value <= pow2(64),
    ;
    binary64::lemma_rounded_at_most(value * one, 1, TWO_TO_64 as nat);
    if value > 0 {
        assert(one <= value * one) by (nonlinear_arith)
            requires
                value > 0,
        ;
        binary64::lemma_rounded_at_least(value * one, 1, ONE as nat);
    } else {
        binary64::lemma_rounded_zero(1);
    }
}

/// The weight of a character that stands `gap` characters after the one before it: 0.6, less
/// 0.05 for each of them, but no less than 0.2.
pub open spec fn distance_weight(gap: nat) -> nat {
    let reduction = binary64::product(binary64::fraction(gap, 1), binary64::fraction(5, 100));
    let reduced = if reduction < binary64::fraction(6, 10) {
        binary64::difference(binary64::fraction(6, 10), reduction)
    } else {
        0
    };
    if binary64::fraction(2, 10) > reduced {
        binary64::fraction(2, 10)
    } else {
        reduced
    }
}

/// The weight of a character that does not stand right after the one before it, by the character
/// that it does stand after, by whether a word begins with it, and at last by its distance.
pub open spec fn apart_weight(
    previous: char,
    separator: char,
    at_word: bool,
    boost: bool,
    first: bool,
    gap: nat,
) -> nat {
    if previous == separator {
        binary64::fraction(9, 10)
    } else if at_word && boost {
        binary64::fraction(12, 10)
    } else if at_word {
        binary64::fraction(8, 10)
    } else if previous == '.' {
        binary64::fraction(7, 10)
    } else if first {
        binary64::fraction(6, 10)
    } else {
        distance_weight(gap)
    }
}

/// The value of one.
pub proof fn lemma_one_units()
    ensures
        binary64::units(ONE as nat) == binary64::one_units(),
{
    lemma_power_units(1022);
}

/// A share of a whole lies between nothing and one.
pub proof fn lemma_share_range(count: nat, whole: nat)
    requires
        count <= whole <= u64::MAX,
        0 < whole,
    ensures
        binary64::quotient(binary64::fraction(count, 1), binary64::fraction(whole, 1)) <= ONE,
{
    let one = pow2(1074);
    lemma_pow2_pos(1074);
    let c = binary64::fraction(count, 1);
    let w = binary64::fraction(whole, 1);
    lemma_integer_code(whole);
    lemma_integer_code(count);
    lemma_one_units();
    lemma_mul_inequality(count as int, whole as int, one as int);
    binary64::lemma_rounded_monotone(count * one, 1, whole * one, 1);
    binary64::lemma_units_ordered(c, w);
    binary64::lemma_units_increase(0, w);
    lemma_mul_inequality(binary64::units(c) as int, binary64::units(w) as int, one as int);
    lemma_mul_is_commutative(binary64::units(w) as int, one as int);
    binary64::lemma_rounded_at_most(binary64::units(c) * one, binary64::units(w), ONE as nat);
}

/// One and a share of 0.5 or of 1.5: neither below one nor infinite.
pub proof fn lemma_boost_range(share: nat, most: nat)
    requires
        share <= ONE,
        most <= THREE_HALVES,
    ensures
        binary64::product(share, most) <= most,
        ONE <= binary64::sum(ONE as nat, binary64::product(share, most)) < binary64::INFINITY_CODE,
{
    let part = binary64::product(share, most);
    lemma_one_units();
    binary64::lemma_units_ordered(share, ONE as nat);
    binary64::lemma_product_shrinks(most, share);
    lemma_mul_is_commutative(binary64::units(share) as int, binary64::units(most) as int);
    binary64::lemma_rounded_at_least(
        binary64::units(ONE as nat) + binary64::units(part),
        1,
        ONE as nat,
    );
    // Two such numbers are less than four.
    lemma_power_units(1022);
    lemma_power_units(1023);
    lemma_power_units(1024);
    lemma_pow2_unfold(1075);
    lemma_pow2_unfold(1076);
    binary64::lemma_units_ordered(part, 0x4000_0000_0000_0000);
    binary64::lemma_rounded_at_most(
        binary64::units(ONE as nat) + binary64::units(part),
        1,
        0x4010_0000_0000_0000,
    );
}

/// The range of the weight of a distance.
pub proof fn lemma_distance_weight_range(gap: nat)
    ensures
        ONE_FIFTH <= distance_weight(gap) <= THREE_FIFTHS,
{
    lemma_weight_codes();
    let reduction = binary64::product(binary64::fraction(gap, 1), binary64::fraction(5, 100));
    if reduction < binary64::fraction(6, 10) {
        let full = binary64::units(THREE_FIFTHS as nat);
        binary64::lemma_units_ordered(reduction, THREE_FIFTHS as nat);
        binary64::lemma_rounded_at_most(
            (full - binary64::units(reduction)) as nat,
            1,
            THREE_FIFTHS as nat,
        );
    }
}

/// The range of a weight with the penalty for a difference: below every weight without it.
pub proof fn lemma_penalty_range(weight: nat)
    requires
        ONE_FIFTH <= weight <= SIX_FIFTHS,
    ensures
        TWO_TO_MINUS_13 <= binary64::product(weight, binary64::fraction(1, 1000)) < ONE_FIFTH,
{
    lemma_weight_codes();
    let one = pow2(1074);
    let u = binary64::units(weight);
    let v = binary64::units(ONE_THOUSANDTH as nat);
    lemma2_to64();
    lemma2_to64_rest();
    binary64::lemma_units_ordered(ONE_FIFTH as nat, weight);
    binary64::lemma_units_ordered(weight, SIX_FIFTHS as nat);
    // From below: 0.2 and 0.001 are multiples of 2^1019 and 2^1012 units.
    binary64::lemma_units_of_parts(1019, 0x1999999999999A);
    binary64::lemma_units_of_parts(1012, 0x10624DD2F1A9FC);
    binary64::lemma_units_of_parts(1022, 0x13333333333333);
    lemma_power_units(1009);
    let a = pow2(1019);
    let b = pow2(1012);
    let c = pow2(1061);
    lemma_pow2_adds(1019, 1012);
    lemma_pow2_adds(1061, 1074);
    lemma_pow2_adds(2031, 64);
    lemma_pow2_adds(2095, 40);
    let d = pow2(2031);
    lemma_pow2_pos(2031);
    assert(c * one == (pow2(40) * pow2(64)) * d) by {
        assert((d * pow2(64)) * pow2(40) == (pow2(40) * pow2(64)) * d) by (nonlinear_arith);
    }
    assert(u * v >= (0x1999999999999A * a) * v) by (nonlinear_arith)
        requires
            u >= 0x1999999999999A * a,
    ;
    assert((0x1999999999999A * a) * (0x10624DD2F1A9FC * b) == (0x1999999999999A * 0x10624DD2F1A9FC)
        * (a * b)) by (nonlinear_arith);
    assert((pow2(40) * pow2(64)) * d <= (0x1999999999999A * 0x10624DD2F1A9FC) * d)
        by (nonlinear_arith)
        requires
            pow2(40) * pow2(64) == 0x10000000000 * 0x1_0000_0000_0000_0000,
    ;
    binary64::lemma_rounded_at_least(u * v, one, TWO_TO_MINUS_13 as nat);
    // From above: 1.2 times 0.001 stays below one eighth.
    lemma_power_units(1019);
    lemma_pow2_pos(1074);
    let e = pow2(1022);
    let f = pow2(1071);
    lemma_pow2_adds(1022, 52);
    lemma_pow2_adds(1012, 59);
    assert(u * v <= f * one) by (nonlinear_arith)
        requires
            u <= 0x13333333333333 * e,
            v == 0x10624DD2F1A9FC * b,
            one == e * 0x10000000000000,
            f == b * 0x800000000000000,
    {
        assert(u * v <= (0x13333333333333 * e) * v);
        assert((0x13333333333333 * e) * (0x10624DD2F1A9FC * b) == (0x13333333333333
            * 0x10624DD2F1A9FC) * (e * b));
        assert(f * one == (0x10000000000000 * 0x800000000000000) * (e * b));
        assert((0x13333333333333 * 0x10624DD2F1A9FC) * (e * b) <= (0x10000000000000
            * 0x800000000000000) * (e * b));
    }
    binary64::lemma_rounded_at_most(u * v, one, 0x3FC0_0000_0000_0000);
}

/// The range of a weight divided by a length.
pub proof fn lemma_length_penalty_range(weight: nat, length: nat)
    requires
        TWO_TO_MINUS_13 <= weight <= SIX_FIFTHS,
        ONE <= length <= TWO_TO_64,
    ensures
        TWO_TO_MINUS_77 <= binary64::quotient(weight, length) <= weight,
{
    let one = pow2(1074);
    let u = binary64::units(weight);
    let v = binary64::units(length);
    lemma_power_units(1022);
    lemma_power_units(1086);
    lemma_power_units(1009);
    lemma_power_units(945);
    binary64::lemma_units_ordered(ONE as nat, length);
    binary64::lemma_units_ordered(length, TWO_TO_64 as nat);
    binary64::lemma_units_ordered(TWO_TO_MINUS_13 as nat, weight);
    lemma_pow2_pos(1074);
    lemma_mul_inequality(one as int, v as int, u as int);
    lemma_mul_is_commutative(u as int, one as int);
    lemma_mul_is_commutative(u as int, v as int);
    binary64::lemma_rounded_at_most(u * one, v, weight);
    let w = pow2(997);
    lemma_pow2_adds(997, 1138);
    lemma_pow2_adds(1061, 1074);
    lemma_mul_inequality(pow2(1061) as int, u as int, one as int);
    lemma_mul_inequality(v as int, pow2(1138) as int, w as int);
    lemma_mul_is_commutative(v as int, w as int);
    lemma_mul_is_commutative(pow2(1138) as int, w as int);
    binary64::lemma_rounded_at_least(u * one, v, TWO_TO_MINUS_77 as nat);
}

/// A wider gap does not weigh more.
pub proof fn lemma_distance_weight_falls(gap: nat, wider: nat)
    requires
        gap <= wider <= u64::MAX,
    ensures
        distance_weight(wider) <= distance_weight(gap),
{
    lemma_weight_codes();
    lemma_integer_code(wider);
    let a = binary64::product(binary64::fraction(gap, 1), binary64::fraction(5, 100));
    let b = binary64::product(binary64::fraction(wider, 1), binary64::fraction(5, 100));
    binary64::lemma_fraction_ordered(gap, wider);
    binary64::lemma_product_monotone(
        binary64::fraction(gap, 1),
        binary64::fraction(wider, 1),
        binary64::fraction(5, 100),
    );
    if b < binary64::fraction(6, 10) {
        binary64::lemma_difference_ordered(binary64::fraction(6, 10), a, b);
    }
}

/// The boost grows with the share.
pub proof fn lemma_boost_grows(share: nat, larger: nat, most: nat)
    requires
        share <= larger <= ONE,
        most <= THREE_HALVES,
    ensures
        binary64::sum(ONE as nat, binary64::product(share, most)) <= binary64::sum(
            ONE as nat,
            binary64::product(larger, most),
        ),
{
    binary64::lemma_product_monotone(share, larger, most);
    binary64::lemma_sum_ordered(
        ONE as nat,
        binary64::product(share, most),
        binary64::product(larger, most),
    );
}

/// The weight of a character that stands `gap` characters after the one before it.
pub fn weigh_distance(gap: usize) -> (weight: Binary64)
    ensures
        weight@ == distance_weight(gap as nat),
{
    proof {
        lemma_weight_codes();
        lemma_integer_code(gap as nat);
    }
    let reduction: Binary64 = Binary64::of_integer(gap as u64).times(
        &Binary64::from_code(ONE_TWENTIETH),
    );
    let full: Binary64 = Binary64::from_code(THREE_FIFTHS);
    let least: Binary64 = Binary64::from_code(ONE_FIFTH);
    if full.exceeds(&reduction) {
        least.at_least(&full.minus(&reduction))
    } else {
        least
    }
}

/// The weight of a character that does not stand right after the one before it.
pub fn weigh_apart(
    previous: char,
    separator: char,
    at_word: bool,
    boost: bool,
    first: bool,
    gap: usize,
) -> (weight: Binary64)
    ensures
        weight@ == apart_weight(previous, separator, at_word, boost, first, gap as nat),
{
    proof {
        lemma_weight_codes();
    }
    if previous == separator {
        Binary64::from_code(NINE_TENTHS)
    } else if at_word && boost {
        Binary64::from_code(SIX_FIFTHS)
    } else if at_word {
        Binary64::from_code(FOUR_FIFTHS)
    } else if previous == '.' {
        Binary64::from_code(SEVEN_TENTHS)
    } else if first {
        Binary64::from_code(THREE_FIFTHS)
    } else {
        weigh_distance(gap)
    }
}

} // verus!
