//! Non-negative binary floating-point numbers of the IEEE 754 binary64 format, computed in
//! integer arithmetic.
//!
//! A number is held as its 64-bit interchange encoding with the sign bit clear. Read as an
//! integer that encoding is called the number's *code*: codes run from 0 (zero) to
//! `INFINITY_CODE` (positive infinity), and a larger code is a larger number. Every finite
//! number is a whole multiple of 2^-1074, so its exact value is a natural number of such
//! *units*. The operations round the exact result to the nearest number, ties to the even
//! code, as the format's default rounding direction prescribes.
use vstd::prelude::*;
use vstd::arithmetic::power2::*;
use vstd::arithmetic::mul::*;

verus! {

/// The code of positive infinity.
pub const INFINITY_CODE: u64 = 0x7FF0_0000_0000_0000;

/// 2^52: the number of codes that share an exponent.
pub const BINADE: u64 = 0x10_0000_0000_0000;

/// The number that a code stands for, as a multiple of 2^-1074. The code of infinity is given
/// the value that would follow the largest finite number, which is what decides when a result
/// rounds to infinity.
pub open spec fn units(code: nat) -> nat {
    let exponent = code / 0x10_0000_0000_0000;
    let fraction = code % 0x10_0000_0000_0000;
    if exponent == 0 {
        fraction
    } else {
        (0x10_0000_0000_0000 + fraction) * pow2((exponent - 1) as nat)
    }
}

/// The number of units in one.
pub open spec fn one_units() -> nat {
    pow2(1074)
}

/// The quotient `num / den`, taken in units, lies no lower than half way between the number of
/// this code and the number before it; exactly half way only if the code is even.
pub open spec fn above_lower_midpoint(num: nat, den: nat, code: nat) -> bool {
    code > 0 ==> {
        let midpoints = (units((code - 1) as nat) + units(code)) * den;
        midpoints < 2 * num || (midpoints == 2 * num && code % 2 == 0)
    }
}

/// The quotient `num / den`, taken in units, lies no higher than half way between the number of
/// this code and the number after it; exactly half way only if the code is even.
pub open spec fn below_upper_midpoint(num: nat, den: nat, code: nat) -> bool {
    let midpoints = (units(code) + units(code + 1)) * den;
    2 * num < midpoints || (2 * num == midpoints && code % 2 == 0)
}

/// The number of this code is the one nearest to `num / den` units, ties going to the even
/// code; whatever lies at or beyond the last midpoint goes to infinity.
pub open spec fn rounds_to(num: nat, den: nat, code: nat) -> bool {
    &&& code <= INFINITY_CODE
    &&& above_lower_midpoint(num, den, code)
    &&& code < INFINITY_CODE ==> below_upper_midpoint(num, den, code)
}

/// The code of the number nearest to `num / den` units.
pub open spec fn rounded(num: nat, den: nat) -> nat {
    choose|code: nat| rounds_to(num, den, code)
}

/// The code of the number nearest to the fraction `num / den`.
pub open spec fn fraction(num: nat, den: nat) -> nat {
    rounded(num * one_units(), den)
}

/// The rounded product of two numbers, given and returned by their codes.
pub open spec fn product(a: nat, b: nat) -> nat {
    if a == INFINITY_CODE || b == INFINITY_CODE {
        INFINITY_CODE as nat
    } else {
        rounded(units(a) * units(b), one_units())
    }
}

/// The rounded quotient of two finite numbers, given and returned by their codes.
pub open spec fn quotient(a: nat, b: nat) -> nat {
    rounded(units(a) * one_units(), units(b))
}

/// The rounded sum of two finite numbers, given and returned by their codes.
pub open spec fn sum(a: nat, b: nat) -> nat {
    rounded(units(a) + units(b), 1)
}

/// The rounded difference of two finite numbers of which the first is not the smaller, given
/// and returned by their codes.
pub open spec fn difference(a: nat, b: nat) -> nat {
    rounded((units(a) - units(b)) as nat, 1)
}

/// The code `exponent * 2^52 + significand` stands for `significand * 2^exponent` units, also
/// where the significand has just grown to 2^53.
pub proof fn lemma_units_of_parts(exponent: nat, significand: nat)
    requires
        significand <= 0x20_0000_0000_0000,
        exponent == 0 || 0x10_0000_0000_0000 <= significand,
    ensures
        units(exponent * 0x10_0000_0000_0000 + significand) == significand * pow2(exponent),
{
    let code = exponent * 0x10_0000_0000_0000 + significand;
    lemma2_to64();
    if significand < 0x10_0000_0000_0000 {
        assert(code / 0x10_0000_0000_0000 == 0);
    } else if significand < 0x20_0000_0000_0000 {
        assert(code / 0x10_0000_0000_0000 == exponent + 1);
        assert(code % 0x10_0000_0000_0000 == significand - 0x10_0000_0000_0000);
    } else {
        assert(code / 0x10_0000_0000_0000 == exponent + 2);
        assert(code % 0x10_0000_0000_0000 == 0);
        lemma_pow2_unfold(exponent + 1);
        assert(0x10_0000_0000_0000 * (2 * pow2(exponent)) == 0x20_0000_0000_0000 * pow2(exponent));
    }
}

/// Splits a code into the exponent and the significand that it stands for.
proof fn lemma_parts_of_code(code: nat) -> (parts: (nat, nat))
    ensures
        code == parts.0 * 0x10_0000_0000_0000 + parts.1,
        parts.1 < 0x20_0000_0000_0000,
        parts.0 == 0 || 0x10_0000_0000_0000 <= parts.1,
        units(code) == parts.1 * pow2(parts.0),
{
    let e = code / 0x10_0000_0000_0000;
    let parts: (nat, nat) = if e == 0 {
        (0, code)
    } else {
        ((e - 1) as nat, (0x10_0000_0000_0000 + code % 0x10_0000_0000_0000) as nat)
    };
    lemma_units_of_parts(parts.0, parts.1);
    parts
}

/// The next code stands for a larger number.
proof fn lemma_units_step(code: nat)
    ensures
        units(code) < units(code + 1),
{
    let parts = lemma_parts_of_code(code);
    lemma_units_of_parts(parts.0, parts.1 + 1);
    lemma_pow2_pos(parts.0);
    assert((parts.1 + 1) * pow2(parts.0) == parts.1 * pow2(parts.0) + pow2(parts.0))
        by (nonlinear_arith);
}

/// A larger code stands for a larger number.
pub proof fn lemma_units_increase(a: nat, b: nat)
    requires
        a < b,
    ensures
        units(a) < units(b),
    decreases b - a,
{
    lemma_units_step((b - 1) as nat);
    if a < b - 1 {
        lemma_units_increase(a, (b - 1) as nat);
    }
}

/// The order of the codes is the order of the numbers, in its weak form.
pub proof fn lemma_units_ordered(a: nat, b: nat)
    requires
        a <= b,
    ensures
        units(a) <= units(b),
{
    if a < b {
        lemma_units_increase(a, b);
    }
}

/// At most one code is the rounding of a quotient.
pub proof fn lemma_rounding_is_unique(num: nat, den: nat, a: nat, b: nat)
    requires
        den > 0,
        rounds_to(num, den, a),
        rounds_to(num, den, b),
    ensures
        a == b,
{
    lemma_rounding_not_below(num, den, a, b);
    lemma_rounding_not_below(num, den, b, a);
}

proof fn lemma_rounding_not_below(num: nat, den: nat, a: nat, b: nat)
    requires
        den > 0,
        rounds_to(num, den, a),
        rounds_to(num, den, b),
    ensures
        b <= a,
{
    if a < b {
        lemma_units_ordered(a, (b - 1) as nat);
        lemma_units_ordered(a + 1, b);
        let low = units(a) + units(a + 1);
        let high = units((b - 1) as nat) + units(b);
        lemma_mul_inequality(low as int, high as int, den as int);
        if a + 1 < b {
            lemma_units_increase(a + 1, b);
            lemma_mul_strict_inequality(low as int, high as int, den as int);
        }
    }
}

/// Some code is the rounding of a quotient, at or above any code that the quotient is known to
/// reach.
proof fn lemma_rounding_exists_from(num: nat, den: nat, code: nat)
    requires
        code <= INFINITY_CODE,
        above_lower_midpoint(num, den, code),
    ensures
        exists|c: nat| rounds_to(num, den, c),
    decreases INFINITY_CODE - code,
{
    if code == INFINITY_CODE || below_upper_midpoint(num, den, code) {
        assert(rounds_to(num, den, code));
    } else {
        assert((code + 1 - 1) as nat == code);
        lemma_rounding_exists_from(num, den, code + 1);
    }
}

/// `rounded` is a rounding of its quotient.
pub proof fn lemma_rounded(num: nat, den: nat)
    ensures
        rounds_to(num, den, rounded(num, den)),
{
    lemma_rounding_exists_from(num, den, 0);
}

/// A code that is a rounding of the quotient is the one that `rounded` gives.
pub proof fn lemma_rounded_is(num: nat, den: nat, code: nat)
    requires
        den > 0,
        rounds_to(num, den, code),
    ensures
        rounded(num, den) == code,
{
    lemma_rounding_is_unique(num, den, rounded(num, den), code);
}

/// A quotient that reaches a number does not round to less.
pub proof fn lemma_rounded_at_least(num: nat, den: nat, code: nat)
    requires
        den > 0,
        code <= INFINITY_CODE,
        units(code) * den <= num,
    ensures
        code <= rounded(num, den),
{
    lemma_rounded(num, den);
    let r = rounded(num, den);
    if r < code {
        lemma_units_step(r);
        lemma_units_ordered(r + 1, code);
        let low = units(r) + units(r + 1);
        lemma_mul_strict_inequality(low as int, 2 * units(code) as int, den as int);
        assert(2 * units(code) * den == 2 * (units(code) * den)) by (nonlinear_arith);
    }
}

/// A quotient that does not exceed a number does not round to more.
pub proof fn lemma_rounded_at_most(num: nat, den: nat, code: nat)
    requires
        den > 0,
        code <= INFINITY_CODE,
        num <= units(code) * den,
    ensures
        rounded(num, den) <= code,
{
    lemma_rounded(num, den);
    let r = rounded(num, den);
    if code < r {
        lemma_units_step((r - 1) as nat);
        lemma_units_ordered(code, (r - 1) as nat);
        let high = units((r - 1) as nat) + units(r);
        lemma_mul_strict_inequality(2 * units(code) as int, high as int, den as int);
        assert(2 * units(code) * den == 2 * (units(code) * den)) by (nonlinear_arith);
    }
}

/// A number is its own rounding.
pub proof fn lemma_rounded_exact(code: nat)
    requires
        code <= INFINITY_CODE,
    ensures
        rounded(units(code), 1) == code,
{
    lemma_rounded_at_least(units(code), 1, code);
    lemma_rounded_at_most(units(code), 1, code);
}

/// A larger quotient does not round to less.
pub proof fn lemma_rounded_monotone(num1: nat, den1: nat, num2: nat, den2: nat)
    requires
        den1 > 0,
        den2 > 0,
        num1 * den2 <= num2 * den1,
    ensures
        rounded(num1, den1) <= rounded(num2, den2),
{
    let a = rounded(num1, den1);
    let b = rounded(num2, den2);
    lemma_rounded(num1, den1);
    lemma_rounded(num2, den2);
    if b < a {
        lemma_units_ordered(b, (a - 1) as nat);
        lemma_units_ordered(b + 1, a);
        let low = units(b) + units(b + 1);
        let high = units((a - 1) as nat) + units(a);
        // high * den1 <= 2 * num1 and 2 * num2 <= low * den2
        assert(high * den1 * den2 <= 2 * num1 * den2) by (nonlinear_arith)
            requires
                high * den1 <= 2 * num1,
        ;
        assert(2 * num2 * den1 <= low * den2 * den1) by (nonlinear_arith)
            requires
                2 * num2 <= low * den2,
        ;
        assert(2 * num1 * den2 <= 2 * num2 * den1) by (nonlinear_arith)
            requires
                num1 * den2 <= num2 * den1,
        ;
        if b + 1 < a {
            lemma_units_increase(b, (a - 1) as nat);
            assert(low * den2 * den1 < high * den1 * den2) by (nonlinear_arith)
                requires
                    low < high,
                    den1 > 0,
                    den2 > 0,
            ;
        } else {
            // Neighbours: both conditions can only hold with equality, and one code is odd.
            assert(low == high);
            assert(low * den2 * den1 == high * den1 * den2) by (nonlinear_arith)
                requires
                    low == high,
            ;
            assert(high * den1 == 2 * num1) by (nonlinear_arith)
                requires
                    high * den1 <= 2 * num1,
                    2 * num1 * den2 <= high * den1 * den2,
                    den2 > 0,
            ;
            assert(2 * num2 == low * den2) by (nonlinear_arith)
                requires
                    2 * num2 <= low * den2,
                    low * den2 * den1 <= 2 * num2 * den1,
                    den1 > 0,
            ;
        }
    }
}

/// A product is a number of the format.
pub proof fn lemma_product_in_range(a: nat, b: nat)
    ensures
        product(a, b) <= INFINITY_CODE,
{
    lemma_rounded(units(a) * units(b), one_units());
}

/// The order of integers is that of their numbers.
pub proof fn lemma_fraction_ordered(a: nat, b: nat)
    requires
        a <= b,
    ensures
        fraction(a, 1) <= fraction(b, 1),
{
    lemma_mul_inequality(a as int, b as int, one_units() as int);
    lemma_rounded_monotone(a * one_units(), 1, b * one_units(), 1);
}

/// A larger dividend or a smaller divisor does not make a quotient smaller.
pub proof fn lemma_quotient_ordered(a: nat, b: nat, c: nat, d: nat)
    requires
        a <= b,
        0 < d <= c,
    ensures
        quotient(a, c) <= quotient(b, d),
{
    let one = one_units();
    lemma_units_ordered(a, b);
    lemma_units_ordered(d, c);
    lemma_units_increase(0, d);
    let u = units(a);
    let v = units(b);
    let x = units(c);
    let y = units(d);
    assert((u * one) * y <= (v * one) * x) by (nonlinear_arith)
        requires
            u <= v,
            y <= x,
    {
        assert(u * y <= v * x);
        assert((u * one) * y == (u * y) * one);
        assert((v * one) * x == (v * x) * one);
        assert((u * y) * one <= (v * x) * one);
    }
    lemma_rounded_monotone(u * one, x, v * one, y);
}

/// A larger summand does not make a sum smaller.
pub proof fn lemma_sum_ordered(a: nat, b: nat, c: nat)
    requires
        b <= c,
    ensures
        sum(a, b) <= sum(a, c),
{
    lemma_units_ordered(b, c);
    lemma_rounded_monotone(units(a) + units(b), 1, units(a) + units(c), 1);
}

/// Taking more away does not make a difference larger.
pub proof fn lemma_difference_ordered(a: nat, b: nat, c: nat)
    requires
        b <= c <= a,
    ensures
        difference(a, c) <= difference(a, b),
{
    lemma_units_ordered(b, c);
    lemma_units_ordered(c, a);
    lemma_rounded_monotone((units(a) - units(c)) as nat, 1, (units(a) - units(b)) as nat, 1);
}

/// A factor of one or more does not make a number smaller.
pub proof fn lemma_product_grows(a: nat, b: nat)
    requires
        a <= INFINITY_CODE,
        one_units() <= units(b),
    ensures
        a <= product(a, b) <= INFINITY_CODE,
{
    lemma_pow2_pos(1074);
    if a != INFINITY_CODE && b != INFINITY_CODE {
        lemma_mul_inequality(one_units() as int, units(b) as int, units(a) as int);
        lemma_mul_is_commutative(units(a) as int, one_units() as int);
        lemma_mul_is_commutative(units(a) as int, units(b) as int);
        lemma_rounded_at_least(units(a) * units(b), one_units(), a);
        lemma_rounded(units(a) * units(b), one_units());
    }
}

/// A factor of one or less does not make a number larger.
pub proof fn lemma_product_shrinks(a: nat, b: nat)
    requires
        a <= INFINITY_CODE,
        b < INFINITY_CODE,
        units(b) <= one_units(),
    ensures
        product(a, b) <= a,
{
    lemma_pow2_pos(1074);
    if a != INFINITY_CODE {
        lemma_mul_inequality(units(b) as int, one_units() as int, units(a) as int);
        lemma_mul_is_commutative(units(a) as int, one_units() as int);
        lemma_mul_is_commutative(units(a) as int, units(b) as int);
        lemma_rounded_at_most(units(a) * units(b), one_units(), a);
    }
}

/// Products keep the order of the first factor.
pub proof fn lemma_product_monotone(a: nat, b: nat, c: nat)
    requires
        a <= b <= INFINITY_CODE,
        c < INFINITY_CODE,
    ensures
        product(a, c) <= product(b, c) <= INFINITY_CODE,
{
    lemma_pow2_pos(1074);
    if a != INFINITY_CODE {
        lemma_rounded(units(a) * units(c), one_units());
    }
    if b != INFINITY_CODE {
        lemma_rounded(units(b) * units(c), one_units());
        lemma_units_ordered(a, b);
        lemma_mul_inequality(units(a) as int, units(b) as int, units(c) as int);
        lemma_mul_inequality(
            (units(a) * units(c)) as int,
            (units(b) * units(c)) as int,
            one_units() as int,
        );
        lemma_rounded_monotone(
            units(a) * units(c),
            one_units(),
            units(b) * units(c),
            one_units(),
        );
    }
}

/// Products keep the order of both factors.
pub proof fn lemma_product_ordered(a: nat, b: nat, c: nat, d: nat)
    requires
        a <= b <= INFINITY_CODE,
        c <= d < INFINITY_CODE,
    ensures
        product(a, c) <= product(b, d) <= INFINITY_CODE,
{
    lemma_product_monotone(a, b, c);
    lemma_product_in_range(b, d);
    if b != INFINITY_CODE {
        lemma_product_monotone(c, d, b);
        lemma_mul_is_commutative(units(b) as int, units(c) as int);
        lemma_mul_is_commutative(units(b) as int, units(d) as int);
    }
}

/// `num / den` is `significand` times 2^`exponent`, or, where `inexact` is set, lies strictly
/// between that and the next multiple of 2^`exponent`.
spec fn brackets(num: nat, den: nat, significand: nat, exponent: int, inexact: bool) -> bool {
    let n = num * pow2(if exponent < 0 { -exponent as nat } else { 0 });
    let d = den * pow2(if exponent < 0 { 0 } else { exponent as nat });
    if inexact {
        significand * d < n < (significand + 1) * d
    } else {
        n == significand * d
    }
}

/// Where a quotient lies within half a step of `significand` steps of size 2^`exponent`, the
/// code made of the two is its rounding (infinity left aside).
proof fn lemma_nearest_of_parts(num: nat, den: nat, exponent: nat, significand: nat)
    requires
        den > 0,
        significand <= 0x20_0000_0000_0000,
        exponent == 0 || 0x10_0000_0000_0000 <= significand,
        exponent > 0 && significand == 0x10_0000_0000_0000 ==> significand * (den * pow2(exponent))
            <= num,
        (2 * significand - 1) * (den * pow2(exponent)) <= 2 * num,
        2 * num <= (2 * significand + 1) * (den * pow2(exponent)),
        (2 * significand - 1) * (den * pow2(exponent)) == 2 * num ==> significand % 2 == 0,
        2 * num == (2 * significand + 1) * (den * pow2(exponent)) ==> significand % 2 == 0,
    ensures
        above_lower_midpoint(num, den, exponent * 0x10_0000_0000_0000 + significand),
        below_upper_midpoint(num, den, exponent * 0x10_0000_0000_0000 + significand),
{
    let code = exponent * 0x10_0000_0000_0000 + significand;
    let step = pow2(exponent);
    lemma_pow2_pos(exponent);
    lemma_units_of_parts(exponent, significand);
    assert(den * step > 0) by (nonlinear_arith)
        requires
            den > 0,
            step > 0,
    ;
    // The number after.
    if significand < 0x20_0000_0000_0000 {
        lemma_units_of_parts(exponent, significand + 1);
        assert((significand * step + (significand + 1) * step) * den == (2 * significand + 1) * (den
            * step)) by (nonlinear_arith);
    } else {
        lemma_pow2_unfold(exponent + 1);
        lemma_units_of_parts(exponent + 1, 0x10_0000_0000_0001);
        assert((exponent + 1) * 0x10_0000_0000_0000 + 0x10_0000_0000_0001 == code + 1);
        assert((significand * step + 0x10_0000_0000_0001 * (2 * step)) * den == (2 * significand
            + 2) * (den * step)) by (nonlinear_arith)
            requires
                significand == 0x20_0000_0000_0000,
        ;
        assert((2 * significand + 1) * (den * step) < (2 * significand + 2) * (den * step))
            by (nonlinear_arith)
            requires
                den * step > 0,
        ;
    }
    // The number before.
    if code > 0 {
        if exponent == 0 || 0x10_0000_0000_0000 < significand {
            lemma_units_of_parts(exponent, (significand - 1) as nat);
            assert(((significand - 1) * step + significand * step) * den == (2 * significand - 1)
                * (den * step)) by (nonlinear_arith);
        } else {
            lemma_pow2_unfold(exponent);
            let half = pow2((exponent - 1) as nat);
            lemma_pow2_pos((exponent - 1) as nat);
            lemma_units_of_parts((exponent - 1) as nat, 0x1F_FFFF_FFFF_FFFF);
            assert((exponent - 1) * 0x10_0000_0000_0000 + 0x1F_FFFF_FFFF_FFFF == code - 1);
            assert((0x1F_FFFF_FFFF_FFFF * half + significand * step) * den < 2 * (significand * (den
                * step))) by (nonlinear_arith)
                requires
                    significand == 0x10_0000_0000_0000,
                    step == 2 * half,
                    half > 0,
                    den > 0,
            ;
        }
    }
}

proof fn lemma_one_shifted(shift: u32)
    requires
        shift < 128,
    ensures
        (1u128 << shift) == pow2(shift as nat),
    decreases shift,
{
    lemma2_to64();
    if shift == 0 {
        assert(1u128 << 0u32 == 1u128) by (bit_vector);
    } else {
        let less = (shift - 1) as u32;
        lemma_one_shifted(less);
        lemma_pow2_unfold(shift as nat);
        assert((1u128 << shift) == 2 * (1u128 << less)) by (bit_vector)
            requires
                0 < shift < 128,
                less == shift - 1,
        ;
    }
}

/// 2^`shift`.
fn power_of_two(shift: u32) -> (power: u128)
    requires
        shift < 128,
    ensures
        power == pow2(shift as nat),
{
    proof {
        lemma_one_shifted(shift);
    }
    1u128 << shift
}

proof fn lemma_leading_zeros(value: u64)
    requires
        value > 0,
    ensures
        0 <= vstd::std_specs::bits::u64_leading_zeros(value) <= 63,
        pow2((63 - vstd::std_specs::bits::u64_leading_zeros(value)) as nat) <= value,
        value < pow2((64 - vstd::std_specs::bits::u64_leading_zeros(value)) as nat),
    decreases value,
{
    lemma2_to64();
    reveal_with_fuel(vstd::std_specs::bits::u64_leading_zeros, 2);
    vstd::std_specs::bits::axiom_u64_leading_zeros(value);
    if value > 1 {
        lemma_leading_zeros(value / 2);
        let zeros = vstd::std_specs::bits::u64_leading_zeros(value);
        lemma_pow2_unfold((63 - zeros) as nat);
        lemma_pow2_unfold((64 - zeros) as nat);
    }
}

/// The number of binary digits of a positive integer.
fn bit_length(value: u128) -> (length: u32)
    requires
        value > 0,
    ensures
        1 <= length <= 128,
        pow2((length - 1) as nat) <= value < pow2(length as nat),
{
    let high: u128 = value / 0x1_0000_0000_0000_0000;
    proof {
        lemma2_to64();
    }
    if high == 0 {
        let zeros: u32 = (value as u64).leading_zeros();
        proof {
            lemma_leading_zeros(value as u64);
        }
        64 - zeros
    } else {
        let zeros: u32 = (high as u64).leading_zeros();
        proof {
            lemma_leading_zeros(high as u64);
            let low_power = pow2((63 - zeros) as nat);
            let high_power = pow2((64 - zeros) as nat);
            lemma_pow2_adds((63 - zeros) as nat, 64);
            lemma_pow2_adds((64 - zeros) as nat, 64);
        }
        128 - zeros
    }
}

/// `brackets` with its two powers of two spelled out, and how they relate to the step of size
/// 2^(`exponent` + `dropped`).
proof fn lemma_scales(exponent: int, dropped: int) -> (scales: (nat, nat))
    requires
        0 <= exponent + dropped,
    ensures
        scales.0 == pow2(if exponent < 0 { -exponent as nat } else { 0 }),
        scales.1 == pow2(if exponent < 0 { 0 } else { exponent as nat }),
        scales.0 > 0,
        scales.1 > 0,
        dropped >= 0 ==> pow2((exponent + dropped) as nat) * scales.0 == pow2(dropped as nat)
            * scales.1,
        dropped <= 0 ==> scales.0 == 1 && scales.1 == pow2((exponent + dropped) as nat) * pow2(
            -dropped as nat,
        ),
{
    let a = pow2(if exponent < 0 { -exponent as nat } else { 0 });
    let b = pow2(if exponent < 0 { 0 } else { exponent as nat });
    lemma2_to64();
    lemma_pow2_pos(if exponent < 0 { -exponent as nat } else { 0 });
    lemma_pow2_pos(if exponent < 0 { 0 } else { exponent as nat });
    if exponent < 0 {
        lemma_pow2_adds((exponent + dropped) as nat, -exponent as nat);
    } else if dropped >= 0 {
        lemma_pow2_adds(dropped as nat, exponent as nat);
    } else {
        lemma_pow2_adds((exponent + dropped) as nat, -dropped as nat);
    }
    (a, b)
}

/// What is smaller than half the smallest number rounds to zero.
proof fn lemma_pack_vanishes(
    num: nat,
    den: nat,
    significand: nat,
    exponent: int,
    inexact: bool,
    length: nat,
)
    requires
        den > 0,
        significand < pow2(length),
        -exponent > length,
        brackets(num, den, significand, exponent, inexact),
    ensures
        rounded(num, den) == 0,
{
    lemma2_to64();
    let scale = pow2(-exponent as nat);
    let bound = pow2(length);
    lemma_pow2_unfold(length + 1);
    if length + 1 < -exponent {
        lemma_pow2_strictly_increases(length + 1, -exponent as nat);
    }
    assert(den * pow2(0) == den);
    assert(2 * num < den) by (nonlinear_arith)
        requires
            num * scale < (significand + 1) * den || num * scale == significand * den,
            significand < bound,
            2 * bound <= scale,
            den > 0,
    {
        assert((significand + 1) * den <= bound * den);
        assert(significand * den < bound * den);
        assert(num * scale < bound * den);
        if 2 * num >= den {
            assert(2 * num * scale >= den * scale);
            assert(den * scale >= den * (2 * bound));
        }
    }
    lemma_units_of_parts(0, 0);
    lemma_units_of_parts(0, 1);
    assert(rounds_to(num, den, 0));
    lemma_rounded_is(num, den, 0);
}

/// A bound on the scaled quotient is a bound on the quotient.
proof fn lemma_unscale(num: nat, den: nat, twice: int, step: nat, unit: nat, scale: nat, d: nat)
    requires
        scale > 0,
        step * scale * den == unit * d,
    ensures
        twice * (unit * d) <= 2 * (num * scale) ==> twice * (den * step) <= 2 * num,
        twice * (unit * d) < 2 * (num * scale) ==> twice * (den * step) < 2 * num,
        2 * (num * scale) <= twice * (unit * d) ==> 2 * num <= twice * (den * step),
        2 * (num * scale) < twice * (unit * d) ==> 2 * num < twice * (den * step),
{
    let t = twice * (den * step);
    assert(twice * (unit * d) == t * scale) by (nonlinear_arith)
        requires
            step * scale * den == unit * d,
            t == twice * (den * step),
    ;
    assert(2 * (num * scale) == (2 * num) * scale) by (nonlinear_arith);
    let n = 2 * num as int;
    assert(t * scale <= n * scale ==> t <= n) by (nonlinear_arith)
        requires
            scale > 0,
    ;
    assert(t * scale < n * scale ==> t < n) by (nonlinear_arith)
        requires
            scale > 0,
    ;
    assert(n * scale <= t * scale ==> n <= t) by (nonlinear_arith)
        requires
            scale > 0,
    ;
    assert(n * scale < t * scale ==> n < t) by (nonlinear_arith)
        requires
            scale > 0,
    ;
}

/// Rounding away the low digits: the significand that is kept lies within half a step of the
/// quotient.
proof fn lemma_pack_drops(
    num: nat,
    den: nat,
    significand: nat,
    exponent: int,
    inexact: bool,
    dropped: nat,
    kept: nat,
)
    requires
        den > 0,
        dropped > 0,
        0 <= exponent + dropped,
        brackets(num, den, significand, exponent, inexact),
        ({
            let unit = pow2(dropped);
            let floor = significand / unit;
            let rest = significand % unit;
            let half = unit / 2;
            kept == if rest > half || (rest == half && (inexact || floor % 2 == 1)) {
                floor + 1
            } else {
                floor
            }
        }),
    ensures
        ({
            let step = den * pow2((exponent + dropped) as nat);
            &&& (2 * kept - 1) * step <= 2 * num
            &&& 2 * num <= (2 * kept + 1) * step
            &&& (2 * kept - 1) * step == 2 * num ==> kept % 2 == 0
            &&& 2 * num == (2 * kept + 1) * step ==> kept % 2 == 0
            &&& kept == significand / pow2(dropped) ==> kept * step <= num
        }),
{
    let scales = lemma_scales(exponent, dropped as int);
    let unit = pow2(dropped);
    let step = pow2((exponent + dropped) as nat);
    let d = den * scales.1;
    let n = num * scales.0;
    let floor = significand / unit;
    let rest = significand % unit;
    let half = unit / 2;
    lemma_pow2_pos(dropped);
    lemma_pow2_unfold(dropped);
    assert(unit == 2 * half);
    assert(significand == floor * unit + rest) by {
        vstd::arithmetic::div_mod::lemma_fundamental_div_mod(significand as int, unit as int);
        lemma_mul_is_commutative(floor as int, unit as int);
    }
    assert(0 <= rest < unit);
    assert(d > 0) by (nonlinear_arith)
        requires
            den > 0,
            scales.1 > 0,
            d == den * scales.1,
    ;
    assert(step * scales.0 * den == unit * d) by (nonlinear_arith)
        requires
            step * scales.0 == unit * scales.1,
            d == den * scales.1,
    ;
    let low = (2 * floor) as int;
    assert(low * (unit * d) <= 2 * (significand * d)) by (nonlinear_arith)
        requires
            low == 2 * floor,
            significand == floor * unit + rest,
            rest >= 0,
            d > 0,
    ;
    assert(significand * d <= n);
    lemma_unscale(num, den, low, step, unit, scales.0, d);
    assert(low * (den * step) <= 2 * num);
    assert(low * (den * step) == 2 * (floor * (den * step))) by (nonlinear_arith)
        requires
            low == 2 * floor,
    ;
    assert(n <= (significand + 1) * d) by (nonlinear_arith)
        requires
            n == significand * d || n < (significand + 1) * d,
            d > 0,
    ;
    assert(den * step > 0) by (nonlinear_arith)
        requires
            step * scales.0 * den == unit * d,
            unit > 0,
            d > 0,
    ;
    let mid = (2 * floor + 1) as int;
    let high = (2 * floor + 2) as int;
    assert((low - 1) * (den * step) < low * (den * step)) by (nonlinear_arith)
        requires
            den * step > 0,
    ;
    assert(high * (den * step) < (high + 1) * (den * step)) by (nonlinear_arith)
        requires
            den * step > 0,
    ;
    lemma_unscale(num, den, mid, step, unit, scales.0, d);
    lemma_unscale(num, den, high, step, unit, scales.0, d);
    let whole = (floor * unit) as int;
    assert(mid * unit == 2 * whole + unit) by (nonlinear_arith)
        requires
            mid == 2 * floor + 1,
            whole == floor * unit,
    ;
    assert(high * unit == 2 * whole + 2 * unit) by (nonlinear_arith)
        requires
            high == 2 * floor + 2,
            whole == floor * unit,
    ;
    lemma_mul_is_associative(mid, unit as int, d as int);
    lemma_mul_is_associative(high, unit as int, d as int);
    let next = (significand + 1) as int;
    assert(2 * (next * d) == (2 * next) * d) by (nonlinear_arith);
    assert(2 * (significand * d) == (2 * significand) * d) by (nonlinear_arith);
    if kept == floor {
        if rest < half {
            lemma_mul_inequality(2 * next, mid * unit, d as int);
            lemma_mul_strict_inequality(2 * significand as int, mid * unit, d as int);
        }
    } else {
        lemma_mul_inequality(2 * next, high * unit, d as int);
        lemma_mul_inequality(mid * unit, 2 * significand as int, d as int);
        if rest > half {
            lemma_mul_strict_inequality(mid * unit, 2 * significand as int, d as int);
        }
    }
}

/// What is left of a number of `length` digits when the last ones are dropped.
proof fn lemma_floor_digits(significand: nat, length: nat, dropped: nat)
    requires
        0 < dropped <= length,
        pow2((length - 1) as nat) <= significand < pow2(length),
    ensures
        significand / pow2(dropped) < pow2((length - dropped) as nat),
        dropped < length ==> pow2((length - dropped - 1) as nat) <= significand / pow2(dropped),
{
    let unit = pow2(dropped);
    lemma_pow2_pos(dropped);
    lemma_pow2_adds((length - dropped) as nat, dropped);
    let q = significand / unit;
    vstd::arithmetic::div_mod::lemma_fundamental_div_mod(significand as int, unit as int);
    let bound = pow2((length - dropped) as nat);
    assert(q < bound) by (nonlinear_arith)
        requires
            unit * q <= significand,
            significand < bound * unit,
    ;
    if dropped < length {
        let low = pow2((length - dropped - 1) as nat);
        lemma_pow2_adds((length - dropped - 1) as nat, dropped);
        assert(low <= q) by (nonlinear_arith)
            requires
                significand < unit * q + unit,
                low * unit <= significand,
        ;
    }
}

/// Where no digit is dropped the significand is exact.
proof fn lemma_pack_exact(num: nat, den: nat, significand: nat, exponent: int, added: nat, kept: nat)
    requires
        den > 0,
        0 <= exponent - added,
        brackets(num, den, significand, exponent, false),
        kept == significand * pow2(added),
    ensures
        ({
            let step = den * pow2((exponent - added) as nat);
            &&& (2 * kept - 1) * step < 2 * num
            &&& 2 * num < (2 * kept + 1) * step
            &&& kept * step == num
        }),
{
    let scales = lemma_scales(exponent, -added);
    let step = pow2((exponent - added) as nat);
    lemma_pow2_pos((exponent - added) as nat);
    assert(kept * (den * step) == num) by (nonlinear_arith)
        requires
            num * 1 == significand * (den * scales.1),
            scales.1 == step * pow2(added),
            kept == significand * pow2(added),
    ;
    assert(den * step > 0) by (nonlinear_arith)
        requires
            den > 0,
            step > 0,
    ;
    let s = den * step;
    assert((2 * kept - 1) * s == 2 * (kept * s) - s) by (nonlinear_arith);
    assert((2 * kept + 1) * s == 2 * (kept * s) + s) by (nonlinear_arith);
}

/// Beyond the last finite number everything rounds to infinity.
proof fn lemma_rounded_capped(num: nat, den: nat, code: nat)
    requires
        den > 0,
        above_lower_midpoint(num, den, code),
        below_upper_midpoint(num, den, code),
    ensures
        rounded(num, den) == if code >= INFINITY_CODE { INFINITY_CODE as nat } else { code },
{
    if code > INFINITY_CODE {
        let last = (INFINITY_CODE - 1) as nat;
        lemma_units_increase(last, INFINITY_CODE as nat);
        lemma_units_ordered(INFINITY_CODE as nat, (code - 1) as nat);
        lemma_units_ordered(INFINITY_CODE as nat, code);
        let low = units(last) + units(INFINITY_CODE as nat);
        let high = units((code - 1) as nat) + units(code);
        lemma_mul_strict_inequality(low as int, high as int, den as int);
        assert(rounds_to(num, den, INFINITY_CODE as nat));
        lemma_rounded_is(num, den, INFINITY_CODE as nat);
    } else {
        assert(rounds_to(num, den, code));
        lemma_rounded_is(num, den, code);
    }
}

/// The code of the number nearest to a fraction, from its exponent and its significand:
/// `scale` is the power of two that brings the fraction to the size of the significand.
pub proof fn lemma_fraction(num: nat, den: nat, exponent: nat, significand: nat, scale: nat)
    requires
        den > 0,
        exponent <= 1074,
        scale == pow2((1074 - exponent) as nat),
        0x10_0000_0000_0000 <= significand < 0x20_0000_0000_0000,
        (2 * significand - 1) * den < 2 * (num * scale) < (2 * significand + 1) * den,
        significand == 0x10_0000_0000_0000 ==> significand * den <= num * scale,
    ensures
        fraction(num, den) == exponent * 0x10_0000_0000_0000 + significand,
{
    let step = pow2(exponent);
    let n = num * one_units();
    lemma_pow2_adds((1074 - exponent) as nat, exponent);
    lemma_pow2_pos(exponent);
    let scaled = num * scale;
    assert(n == scaled * step) by (nonlinear_arith)
        requires
            n == num * (scale * step),
            scaled == num * scale,
    ;
    let low = (2 * significand - 1) * den;
    let high = (2 * significand + 1) * den;
    assert((2 * significand - 1) * (den * step) == low * step) by (nonlinear_arith)
        requires
            low == (2 * significand - 1) * den,
    ;
    assert((2 * significand + 1) * (den * step) == high * step) by (nonlinear_arith)
        requires
            high == (2 * significand + 1) * den,
    ;
    assert(2 * n == (2 * scaled) * step) by (nonlinear_arith)
        requires
            n == scaled * step,
    ;
    lemma_mul_strict_inequality(low, 2 * scaled as int, step as int);
    lemma_mul_strict_inequality(2 * scaled as int, high as int, step as int);
    if significand == 0x10_0000_0000_0000 {
        let whole = significand * den;
        assert(significand * (den * step) == whole * step) by (nonlinear_arith)
            requires
                whole == significand * den,
        ;
        lemma_mul_inequality(whole as int, scaled as int, step as int);
    }
    lemma_nearest_of_parts(n, den, exponent, significand);
    lemma_rounded_capped(n, den, exponent * 0x10_0000_0000_0000 + significand);
}

/// Nothing rounds to nothing.
pub proof fn lemma_rounded_zero(den: nat)
    requires
        den > 0,
    ensures
        rounded(0, den) == 0,
{
    assert(units(0) == 0);
    assert(units(0) * den == 0);
    lemma_rounded_at_most(0, den, 0);
}

/// The product of two numbers, taken apart.
proof fn lemma_times_brackets(a: nat, m: nat, e: nat, b: nat, n: nat, f: nat)
    requires
        a == m * pow2(e),
        b == n * pow2(f),
    ensures
        brackets(a * b, one_units(), m * n, e + f - 1074, false),
{
    let p = pow2(e);
    let q = pow2(f);
    let shift = e + f - 1074;
    lemma2_to64();
    lemma_pow2_adds(e, f);
    assert(a * b == (m * n) * (p * q)) by (nonlinear_arith)
        requires
            a == m * p,
            b == n * q,
    ;
    let whole = p * q;
    if shift < 0 {
        let s = pow2(-shift as nat);
        lemma_pow2_adds(e + f, -shift as nat);
        assert(((m * n) * whole) * s == (m * n) * (whole * s)) by (nonlinear_arith);
        assert(one_units() * 1 == one_units());
    } else {
        lemma_pow2_adds(1074, shift as nat);
        assert((a * b) * 1 == a * b);
    }
}

/// The quotient of two numbers, taken apart.
proof fn lemma_over_brackets(a: nat, m: nat, e: nat, b: nat, n: nat, f: nat, q: nat, r: nat)
    requires
        a == m * pow2(e),
        b == n * pow2(f),
        m * pow2(64) == q * n + r,
        0 <= r < n,
    ensures
        brackets(a * one_units(), b, q, e - f + 1010, r != 0),
{
    lemma2_to64();
    let shift = e - f + 1010;
    let p = pow2(e);
    let g = pow2(f);
    let w = pow2(64);
    let one = one_units();
    // In multiples of `k` both sides of the quotient are small: m * 2^64 and n.
    let left = pow2(if shift < 0 { -shift as nat } else { 0 });
    let right = pow2(if shift < 0 { 0 } else { shift as nat });
    let k = g * right;
    lemma_pow2_pos(f);
    lemma_pow2_pos(if shift < 0 { 0 } else { shift as nat });
    assert(p * one * left == w * k) by {
        lemma_pow2_adds(e, 1074);
        if shift < 0 {
            lemma_pow2_adds(e + 1074, -shift as nat);
            lemma_pow2_adds(64, f);
            assert(g * 1 == g);
        } else {
            lemma_pow2_adds(f, shift as nat);
            lemma_pow2_adds(64, (f + shift) as nat);
            assert((p * one) * 1 == p * one);
        }
    }
    let num = a * one * left;
    let d = b * right;
    let t = m * w;
    assert(num == t * k) by (nonlinear_arith)
        requires
            num == a * one * left,
            a == m * p,
            p * one * left == w * k,
            t == m * w,
    ;
    assert(d == n * k) by (nonlinear_arith)
        requires
            d == b * right,
            b == n * g,
            k == g * right,
    ;
    assert(k > 0) by (nonlinear_arith)
        requires
            k == g * right,
            g > 0,
            right > 0,
    ;
    let u = q * n;
    assert(q * d == u * k) by (nonlinear_arith)
        requires
            d == n * k,
            u == q * n,
    ;
    assert((q + 1) * d == (u + n) * k) by (nonlinear_arith)
        requires
            d == n * k,
            u == q * n,
    ;
    if r != 0 {
        lemma_mul_strict_inequality(u as int, t as int, k as int);
        lemma_mul_strict_inequality(t as int, (u + n) as int, k as int);
    }
}

/// The sum of two numbers whose exponents lie close together, taken apart; `sign` is 1 for the
/// sum and -1 for the difference.
proof fn lemma_aligned_brackets(m: nat, e: nat, n: nat, f: nat, shifted: nat, sign: int)
    requires
        f <= e,
        shifted == m * pow2((e - f) as nat),
        sign == 1 || sign == -1,
        shifted + sign * n >= 0,
        m * pow2(e) + sign * (n * pow2(f)) >= 0,
    ensures
        brackets(
            (m * pow2(e) + sign * (n * pow2(f))) as nat,
            1,
            (shifted + sign * n) as nat,
            f as int,
            false,
        ),
{
    lemma2_to64();
    lemma_pow2_adds((e - f) as nat, f);
    let g = pow2(f);
    let h = pow2((e - f) as nat);
    assert(m * (h * g) + sign * (n * g) == (shifted + sign * n) * g) by (nonlinear_arith)
        requires
            shifted == m * h,
            sign == 1 || sign == -1,
    ;
    assert(1 * g == g);
    let total = (m * pow2(e) + sign * (n * g)) as nat;
    assert(total * 1 == total);
}

/// The sum of two numbers whose exponents lie far apart: the smaller one only shows that the sum
/// is not exact.
proof fn lemma_distant_brackets(m: nat, e: nat, n: nat, f: nat, sign: int)
    requires
        e - f > 70,
        n < 0x20_0000_0000_0000,
        n > 0,
        m > 0,
        sign == 1 || sign == -1,
    ensures
        m * pow2(e) + sign * (n * pow2(f)) >= 0,
        brackets(
            (m * pow2(e) + sign * (n * pow2(f))) as nat,
            1,
            (if sign == 1 { 16 * m as int } else { 16 * m - 1 }) as nat,
            e - 4,
            true,
        ),
{
    lemma2_to64();
    lemma2_to64_rest();
    let g = pow2((e - 4) as nat);
    let small = n * pow2(f);
    lemma_pow2_adds((e - 4) as nat, 4);
    assert(m * pow2(e) == (16 * m) * g) by (nonlinear_arith)
        requires
            pow2(e) == g * 16,
    ;
    lemma_pow2_pos(f);
    lemma_pow2_adds(53, f);
    lemma_pow2_strictly_increases(53 + f, (e - 4) as nat);
    assert(0 < small < g) by (nonlinear_arith)
        requires
            small == n * pow2(f),
            0 < n < 0x20_0000_0000_0000,
            pow2(53) == 0x20_0000_0000_0000,
            pow2(53) * pow2(f) < g,
            pow2(f) > 0,
    ;
    assert(sign * small == small || sign * small == -small) by (nonlinear_arith)
        requires
            sign == 1 || sign == -1,
    ;
    if sign == 1 {
        assert(sign * small == small) by (nonlinear_arith)
            requires
                sign == 1,
        ;
    } else {
        assert(sign * small == -small) by (nonlinear_arith)
            requires
                sign == -1,
        ;
    }
    let kept = (if sign == 1 { 16 * m as int } else { 16 * m - 1 }) as nat;
    let total = (m * pow2(e) + sign * small) as nat;
    assert((16 * m - 1) * g == (16 * m) * g - g) by (nonlinear_arith);
    assert((16 * m + 1) * g == (16 * m) * g + g) by (nonlinear_arith);
    assert((16 * m) * g >= g) by (nonlinear_arith)
        requires
            m > 0,
    ;
    assert(total * 1 == total);
    assert(1 * g == g);
}

/// A non-negative number of the binary64 format.
#[derive(Clone, Copy, PartialEq, Eq, Structural, Debug, PartialOrd, Ord, Hash)]
pub struct Binary64 {
    code: u64,
}

impl View for Binary64 {
    type V = nat;

    /// The number's code.
    closed spec fn view(&self) -> nat {
        self.code as nat
    }
}

impl Binary64 {
    #[verifier::type_invariant]
    spec fn in_range(self) -> bool {
        self.code <= INFINITY_CODE
    }

    /// The significand and the exponent that a finite number's code stands for.
    fn parts(&self) -> (parts: (u64, u64))
        requires
            self@ < INFINITY_CODE,
        ensures
            units(self@) == parts.0 * pow2(parts.1 as nat),
            parts.0 < 0x20_0000_0000_0000,
            parts.1 <= 2045,
            parts.1 == 0 || 0x10_0000_0000_0000 <= parts.0,
            self@ >= BINADE ==> 0x10_0000_0000_0000 <= parts.0,
            self@ > 0 ==> parts.0 > 0,
            self@ == parts.1 * 0x10_0000_0000_0000 + parts.0,
    {
        let exponent: u64 = self.code / BINADE;
        let fraction: u64 = self.code % BINADE;
        proof {
            lemma2_to64();
            let parts = lemma_parts_of_code(self@);
            if exponent == 0 {
                assert(fraction * pow2(0) == fraction);
            }
        }
        if exponent == 0 {
            (fraction, 0)
        } else {
            (BINADE + fraction, exponent - 1)
        }
    }

    /// The number nearest to `significand * 2^exponent` units, or to what lies strictly between
    /// that and the next multiple of 2^`exponent`.
    fn pack(
        significand: u128,
        exponent: i64,
        inexact: bool,
        Ghost(num): Ghost<nat>,
        Ghost(den): Ghost<nat>,
    ) -> (result: Self)
        requires
            den > 0,
            0 < significand < 0x4000_0000_0000_0000_0000_0000_0000_0000,
            inexact ==> 0x40_0000_0000_0000 <= significand,
            -3000 <= exponent <= 3500,
            brackets(num, den, significand as nat, exponent as int, inexact),
        ensures
            result@ == rounded(num, den),
    {
        let length: u32 = bit_length(significand);
        proof {
            lemma2_to64();
            lemma2_to64_rest();
            lemma_pow2_adds(64, 62);
            if length > 126 {
                if length > 127 {
                    lemma_pow2_strictly_increases(126, (length - 1) as nat);
                }
            }
            if inexact && length < 55 {
                if length < 54 {
                    lemma_pow2_strictly_increases(length as nat, 54);
                }
            }
        }
        // The number of low digits that the format has no room for.
        let excess: i64 = length as i64 - 53;
        let dropped: i64 = if excess >= -exponent { excess } else { -exponent };
        if dropped > length as i64 {
            proof {
                lemma_pack_vanishes(num, den, significand as nat, exponent as int, inexact, length as nat);
            }
            return Binary64 { code: 0 };
        }
        let step: i64 = exponent + dropped;
        let kept: u64;
        if dropped <= 0 {
            let factor: u128 = power_of_two((-dropped) as u32);
            proof {
                lemma_pow2_adds(length as nat, (-dropped) as nat);
                lemma_pow2_adds((length - 1) as nat, (-dropped) as nat);
                lemma_pow2_pos((-dropped) as nat);
                assert(pow2((length - 1) as nat) * factor <= significand * factor < pow2(
                    length as nat,
                ) * factor) by (nonlinear_arith)
                    requires
                        pow2((length - 1) as nat) <= significand < pow2(length as nat),
                        factor > 0,
                ;
                if length - dropped < 53 {
                    lemma_pow2_strictly_increases((length - dropped) as nat, 53);
                }
                lemma_pack_exact(
                    num,
                    den,
                    significand as nat,
                    exponent as int,
                    (-dropped) as nat,
                    (significand * factor) as nat,
                );
            }
            kept = (significand * factor) as u64;
        } else {
            let unit: u128 = power_of_two(dropped as u32);
            proof {
                lemma_pow2_pos(dropped as nat);
            }
            let floor: u128 = significand / unit;
            let rest: u128 = significand % unit;
            let half: u128 = unit / 2;
            proof {
                lemma_floor_digits(significand as nat, length as nat, dropped as nat);
            }
            let up: bool = rest > half || (rest == half && (inexact || floor % 2 == 1));
            kept = if up { floor as u64 + 1 } else { floor as u64 };
            proof {
                lemma_pack_drops(
                    num,
                    den,
                    significand as nat,
                    exponent as int,
                    inexact,
                    dropped as nat,
                    kept as nat,
                );
            }
        }
        proof {
            lemma_nearest_of_parts(num, den, step as nat, kept as nat);
            lemma_rounded_capped(num, den, (step * 0x10_0000_0000_0000 + kept) as nat);
        }
        let code: u64 = step as u64 * BINADE + kept;
        if code >= INFINITY_CODE {
            Binary64 { code: INFINITY_CODE }
        } else {
            Binary64 { code }
        }
    }

    /// The number of a code.
    pub fn from_code(code: u64) -> (result: Self)
        requires
            code <= INFINITY_CODE,
        ensures
            result@ == code,
    {
        Binary64 { code }
    }

    /// The number's code: its interchange encoding.
    pub fn code(&self) -> (code: u64)
        ensures
            code == self@,
            code <= INFINITY_CODE,
    {
        proof {
            use_type_invariant(self);
        }
        self.code
    }

    /// The number nearest to an integer.
    pub fn of_integer(value: u64) -> (result: Self)
        ensures
            result@ == fraction(value as nat, 1),
    {
        proof {
            lemma2_to64();
            assert(0 * one_units() == 0);
            assert(1 * pow2(1074) == pow2(1074));
            assert((value * one_units()) * 1 == value * one_units());
            lemma_rounded_zero(1);
        }
        if value == 0 {
            Binary64 { code: 0 }
        } else {
            Binary64::pack(
                value as u128,
                1074,
                false,
                Ghost((value * one_units()) as nat),
                Ghost(1),
            )
        }
    }

    /// The product, rounded.
    pub fn times(&self, other: &Self) -> (result: Self)
        requires
            !(self@ == 0 && other@ == INFINITY_CODE),
            !(self@ == INFINITY_CODE && other@ == 0),
        ensures
            result@ == product(self@, other@),
    {
        proof {
            use_type_invariant(self);
            use_type_invariant(other);
            lemma_pow2_pos(1074);
            lemma_rounded_zero(one_units());
        }
        if self.code == INFINITY_CODE || other.code == INFINITY_CODE {
            return Binary64 { code: INFINITY_CODE };
        }
        if self.code == 0 || other.code == 0 {
            proof {
                assert(units(0) == 0);
                assert(units(self@) * units(other@) == 0) by (nonlinear_arith)
                    requires
                        units(self@) == 0 || units(other@) == 0,
                ;
            }
            return Binary64 { code: 0 };
        }
        let a: (u64, u64) = self.parts();
        let b: (u64, u64) = other.parts();
        assert(0 < a.0 * b.0 < 0x20_0000_0000_0000 * 0x20_0000_0000_0000) by (nonlinear_arith)
            requires
                0 < a.0 < 0x20_0000_0000_0000,
                0 < b.0 < 0x20_0000_0000_0000,
        ;
        proof {
            lemma_times_brackets(
                units(self@),
                a.0 as nat,
                a.1 as nat,
                units(other@),
                b.0 as nat,
                b.1 as nat,
            );
        }
        Binary64::pack(
            a.0 as u128 * b.0 as u128,
            a.1 as i64 + b.1 as i64 - 1074,
            false,
            Ghost(units(self@) * units(other@)),
            Ghost(one_units()),
        )
    }

    /// The quotient of two finite numbers, rounded. Neither operand is subnormal, and the
    /// divisor is not zero.
    pub fn over(&self, other: &Self) -> (result: Self)
        requires
            self@ == 0 || BINADE <= self@ < INFINITY_CODE,
            BINADE <= other@ < INFINITY_CODE,
        ensures
            result@ == quotient(self@, other@),
    {
        proof {
            lemma2_to64();
            lemma_units_increase(0, other@);
        }
        if self.code == 0 {
            proof {
                assert(units(0) == 0);
                assert(0 * one_units() == 0);
                lemma_rounded_zero(units(other@));
            }
            return Binary64 { code: 0 };
        }
        let a: (u64, u64) = self.parts();
        let b: (u64, u64) = other.parts();
        let dividend: u128 = a.0 as u128 * 0x1_0000_0000_0000_0000;
        let divisor: u128 = b.0 as u128;
        let q: u128 = dividend / divisor;
        let r: u128 = dividend % divisor;
        proof {
            vstd::arithmetic::div_mod::lemma_fundamental_div_mod(dividend as int, divisor as int);
            lemma_mul_is_commutative(divisor as int, q as int);
            lemma_over_brackets(
                units(self@),
                a.0 as nat,
                a.1 as nat,
                units(other@),
                b.0 as nat,
                b.1 as nat,
                q as nat,
                r as nat,
            );
            assert(0x40_0000_0000_0000 <= q < 0x4000_0000_0000_0000_0000_0000_0000_0000)
                by (nonlinear_arith)
                requires
                    dividend == q * divisor + r,
                    0 <= r < divisor,
                    0x10_0000_0000_0000 <= divisor < 0x20_0000_0000_0000,
                    0x10_0000_0000_0000 * 0x1_0000_0000_0000_0000 <= dividend,
                    dividend < 0x20_0000_0000_0000 * 0x1_0000_0000_0000_0000,
            ;
        }
        Binary64::pack(
            q,
            a.1 as i64 - b.1 as i64 + 1010,
            r != 0,
            Ghost(units(self@) * one_units()),
            Ghost(units(other@)),
        )
    }

    /// The sum of two finite numbers, rounded.
    pub fn plus(&self, other: &Self) -> (result: Self)
        requires
            self@ < INFINITY_CODE,
            other@ < INFINITY_CODE,
        ensures
            result@ == sum(self@, other@),
    {
        if other.code > self.code {
            Binary64::sum_ordered(other, self)
        } else {
            Binary64::sum_ordered(self, other)
        }
    }

    /// The sum of two finite numbers of which the first is not the smaller, rounded.
    fn sum_ordered(large: &Self, small: &Self) -> (result: Self)
        requires
            small@ <= large@ < INFINITY_CODE,
        ensures
            result@ == sum(large@, small@),
    {
        if small.code == 0 {
            proof {
                assert(units(0) == 0);
                lemma_rounded_exact(large@);
            }
            return *large;
        }
        let a: (u64, u64) = large.parts();
        let b: (u64, u64) = small.parts();
        let distance: u64 = a.1 - b.1;
        let ghost total = units(large@) + units(small@);
        proof {
            assert(1 * units(small@) == units(small@));
        }
        if distance <= 70 {
            let shifted: u128 = Binary64::aligned(a.0, distance);
            proof {
                assert(1 * b.0 == b.0);
                lemma_aligned_brackets(
                    a.0 as nat,
                    a.1 as nat,
                    b.0 as nat,
                    b.1 as nat,
                    shifted as nat,
                    1,
                );
            }
            Binary64::pack(shifted + b.0 as u128, b.1 as i64, false, Ghost(total), Ghost(1))
        } else {
            proof {
                lemma_distant_brackets(a.0 as nat, a.1 as nat, b.0 as nat, b.1 as nat, 1);
            }
            Binary64::pack(16 * a.0 as u128, a.1 as i64 - 4, true, Ghost(total), Ghost(1))
        }
    }

    /// The difference of two finite numbers, rounded; the first is not the smaller.
    pub fn minus(&self, other: &Self) -> (result: Self)
        requires
            other@ <= self@ < INFINITY_CODE,
        ensures
            result@ == difference(self@, other@),
    {
        proof {
            lemma_rounded_zero(1);
            lemma_units_ordered(other@, self@);
        }
        if other.code == self.code {
            return Binary64 { code: 0 };
        }
        if other.code == 0 {
            proof {
                assert(units(0) == 0);
                lemma_rounded_exact(self@);
            }
            return *self;
        }
        let a: (u64, u64) = self.parts();
        let b: (u64, u64) = other.parts();
        let distance: u64 = a.1 - b.1;
        let ghost rest = (units(self@) - units(other@)) as nat;
        proof {
            assert(-1 * units(other@) == -units(other@));
        }
        if distance <= 70 {
            let shifted: u128 = Binary64::aligned(a.0, distance);
            proof {
                assert(-1 * b.0 == -b.0);
                lemma_units_increase(other@, self@);
                lemma_pow2_adds(distance as nat, b.1 as nat);
                assert(shifted > b.0) by (nonlinear_arith)
                    requires
                        shifted == a.0 * pow2(distance as nat),
                        b.0 * pow2(b.1 as nat) < a.0 * (pow2(distance as nat) * pow2(b.1 as nat)),
                ;
                lemma_aligned_brackets(
                    a.0 as nat,
                    a.1 as nat,
                    b.0 as nat,
                    b.1 as nat,
                    shifted as nat,
                    -1,
                );
            }
            Binary64::pack(shifted - b.0 as u128, b.1 as i64, false, Ghost(rest), Ghost(1))
        } else {
            proof {
                lemma_distant_brackets(a.0 as nat, a.1 as nat, b.0 as nat, b.1 as nat, -1);
            }
            Binary64::pack(16 * a.0 as u128 - 1, a.1 as i64 - 4, true, Ghost(rest), Ghost(1))
        }
    }

    /// A significand brought to an exponent that is smaller by `distance`.
    fn aligned(significand: u64, distance: u64) -> (shifted: u128)
        requires
            significand < 0x20_0000_0000_0000,
            distance <= 70,
        ensures
            shifted == significand * pow2(distance as nat),
            shifted <= 0x0800_0000_0000_0000_0000_0000_0000_0000,
    {
        let factor: u128 = power_of_two(distance as u32);
        proof {
            lemma2_to64();
            lemma_pow2_adds(64, 6);
            if distance < 70 {
                lemma_pow2_strictly_increases(distance as nat, 70);
            }
            assert(significand * factor <= 0x20_0000_0000_0000 * 0x40_0000_0000_0000_0000)
                by (nonlinear_arith)
                requires
                    significand < 0x20_0000_0000_0000,
                    factor <= 0x40_0000_0000_0000_0000,
            ;
        }
        significand as u128 * factor
    }

    /// Whether this number is the larger.
    pub fn exceeds(&self, other: &Self) -> (larger: bool)
        ensures
            larger == (self@ > other@),
    {
        self.code > other.code
    }

    /// The larger of two numbers.
    pub fn at_least(&self, other: &Self) -> (result: Self)
        ensures
            result@ == if self@ > other@ { self@ } else { other@ },
    {
        if self.code > other.code {
            *self
        } else {
            *other
        }
    }
}

} // verus!
