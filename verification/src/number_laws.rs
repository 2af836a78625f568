//! What the operations on double-precision numbers compute, in terms of the
//! numbers that these stand for.
use vstd::arithmetic::div_mod::lemma_fundamental_div_mod;
use vstd::arithmetic::power2::{lemma2_to64_rest, lemma_pow2_pos, pow2};
use vstd::prelude::*;

use crate::cpu_laws::lemma_split;
use crate::float::{equal_ratios_round_alike, pow2_or_one, rounded, Float};

verus! {

/// The bits of a number hold its sign, exponent and mantissa as the interchange
/// format has them: the sign in the highest bit, and in the others the exponent,
/// counted from the smallest and shifted by 52 bits, plus the mantissa.
pub proof fn bits_hold_sign_exponent_and_mantissa(bits: u64)
    ensures
        ({
            let minus = bits >= 0x8000_0000_0000_0000;
            let rest: int = if minus {
                bits - 0x8000_0000_0000_0000
            } else {
                bits as int
            };
            match Float::of_bits(bits) {
                Float::Nan => rest > 0x7ff0_0000_0000_0000,
                Float::Infinite { negative } => negative == minus && rest == 0x7ff0_0000_0000_0000,
                Float::Finite { negative, mantissa, exponent } => {
                    &&& negative == minus
                    &&& rest < 0x7ff0_0000_0000_0000
                    &&& rest == (exponent + 1074) * 0x10_0000_0000_0000 + mantissa
                    &&& mantissa < 0x20_0000_0000_0000
                    &&& -1074 <= exponent <= 971
                    &&& exponent == -1074 || mantissa >= 0x10_0000_0000_0000
                },
            }
        }),
{
}

/// The finite numbers of the format: mantissas of up to 53 bits, exponents between
/// -1074 and 971, and mantissas below 2^52 with the smallest exponent only.
pub proof fn finite_numbers_of_the_format(negative: bool, mantissa: u64, exponent: i32)
    ensures
        (Float::Finite { negative, mantissa, exponent }).well_formed() <==> {
            &&& mantissa < 0x20_0000_0000_0000
            &&& -1074 <= exponent <= 971
            &&& mantissa >= 0x10_0000_0000_0000 || exponent == -1074
        },
        Float::Nan.well_formed(),
        (Float::Infinite { negative }).well_formed(),
{
    lemma2_to64_rest();
}

/// The numbers above zero are those whose bits lie between those of zero and,
/// that one included, those of infinity.
pub proof fn positive_numbers_by_their_bits(bits: u64)
    ensures
        Float::of_bits(bits).positive() <==> 0 < bits <= 0x7ff0_0000_0000_0000,
{
}

/// A number is above zero where it is an infinity or a mantissa other than zero,
/// and without a minus sign.
pub proof fn positive_numbers(value: Float)
    ensures
        value is Nan ==> !value.positive(),
        value matches Float::Infinite { negative } ==> value.positive() == !negative,
        value matches Float::Finite { negative, mantissa, exponent } ==> value.positive() == (
        !negative && mantissa != 0),
{
}

/// Dropping the fraction gives the largest whole number that is not above the
/// value, as far as 64 bits hold it. `value` is taken in units of the smallest
/// representable number.
pub proof fn truncation_goes_down_to_a_whole_number(value: Float)
    requires
        value.well_formed(),
        value is Finite,
        !value->Finite_negative,
    ensures
        ({
            let one = pow2(1074);
            let exact = value->mantissa * pow2((value->exponent + 1074) as nat);
            let whole = value.truncated();
            &&& whole * one <= exact
            &&& exact < (whole + 1) * one || whole == u64::MAX
        }),
{
    let e = value->exponent as int;
    let m = value->mantissa as nat;
    let one = pow2(1074);
    let high = pow2((e + 1074) as nat);
    let up = pow2_or_one(e);
    let den = pow2_or_one(-e);
    let num = m * up;
    let exact = m * high;
    lemma_split(e);
    lemma_pow2_pos(1074);
    assert(num * one == den * exact) by (nonlinear_arith)
        requires
            up * one == den * high,
            num == m * up,
            exact == m * high,
    ;
    let floor = num / den;
    lemma_fundamental_div_mod(num as int, den as int);
    assert(floor * one <= exact) by (nonlinear_arith)
        requires
            num * one == den * exact,
            num == den * floor + num % den,
            num % den >= 0,
            den > 0,
            one > 0,
    ;
    assert(exact < (floor + 1) * one) by (nonlinear_arith)
        requires
            num * one == den * exact,
            num == den * floor + num % den,
            num % den < den,
            den > 0,
            one > 0,
    ;
    let whole = value.truncated();
    assert(whole * one <= floor * one) by (nonlinear_arith)
        requires
            whole <= floor,
            one > 0,
    ;
}

/// Rounding to a whole number gives the one that is at most a half away, the
/// upper one of two, as far as 64 bits hold it.
pub proof fn rounding_goes_to_the_nearest_whole_number(value: Float)
    requires
        value.well_formed(),
        value is Finite,
        !value->Finite_negative,
    ensures
        ({
            let one = pow2(1074);
            let exact = value->mantissa * pow2((value->exponent + 1074) as nat);
            let whole = value.nearest();
            &&& 2 * (whole * one) <= 2 * exact + one
            &&& 2 * exact + one < 2 * ((whole + 1) * one) || whole == u64::MAX
        }),
{
    let e = value->exponent as int;
    let m = value->mantissa as nat;
    let one = pow2(1074);
    let high = pow2((e + 1074) as nat);
    let up = pow2_or_one(e);
    let den = pow2_or_one(-e);
    let num = m * up;
    let exact = m * high;
    lemma_split(e);
    lemma_pow2_pos(1074);
    assert(num * one == den * exact) by (nonlinear_arith)
        requires
            up * one == den * high,
            num == m * up,
            exact == m * high,
    ;
    let top = 2 * num + den;
    let bottom = 2 * den;
    let floor = top / bottom;
    lemma_fundamental_div_mod(top as int, bottom as int);
    let over = top % bottom;
    assert(2 * (floor * one) <= 2 * exact + one) by (nonlinear_arith)
        requires
            num * one == den * exact,
            2 * num + den == 2 * den * floor + over,
            over >= 0,
            den > 0,
            one > 0,
    ;
    assert(2 * exact + one < 2 * ((floor + 1) * one)) by (nonlinear_arith)
        requires
            num * one == den * exact,
            2 * num + den == 2 * den * floor + over,
            over < 2 * den,
            den > 0,
            one > 0,
    ;
    let whole = value.nearest();
    assert(whole * one <= floor * one) by (nonlinear_arith)
        requires
            whole <= floor,
            one > 0,
    ;
}

/// What is infinite, negative or no number becomes the nearest 64-bit number, or
/// zero.
pub proof fn out_of_range_numbers_stop_at_the_ends(value: Float)
    ensures
        value is Nan ==> value.truncated() == 0 && value.nearest() == 0,
        value == (Float::Infinite { negative: false }) ==> value.truncated() == u64::MAX
            && value.nearest() == u64::MAX,
        value == (Float::Infinite { negative: true }) ==> value.truncated() == 0 && value.nearest()
            == 0,
        value is Finite && value->Finite_negative ==> value.truncated() == 0 && value.nearest()
            == 0,
{
}

/// A product is the representable value nearest to the exact product: whatever
/// ratio that is written as, the product is what the ratio rounds to.
pub proof fn products_are_rounded_once(value: Float, factor: nat, num: nat, den: nat)
    requires
        value.well_formed(),
        value is Finite,
        den > 0,
        num * pow2(1074) == den * (value->mantissa * pow2((value->exponent + 1074) as nat)
            * factor),
    ensures
        value.product(factor) == rounded(value->Finite_negative, num, den),
{
    let e = value->exponent as int;
    let m = value->mantissa as nat;
    let one = pow2(1074);
    let high = pow2((e + 1074) as nat);
    let up = pow2_or_one(e);
    let low = pow2_or_one(-e);
    let top = m * factor * up;
    let exact = m * high * factor;
    lemma_split(e);
    lemma_pow2_pos(1074);
    assert(top * one == low * exact) by (nonlinear_arith)
        requires
            up * one == low * high,
            top == m * factor * up,
            exact == m * high * factor,
    ;
    assert(num * low == top * den) by (nonlinear_arith)
        requires
            top * one == low * exact,
            num * one == den * exact,
            one > 0,
    ;
    equal_ratios_round_alike(value->Finite_negative, num, den, low);
    equal_ratios_round_alike(value->Finite_negative, top, low, den);
    assert(den * low == low * den) by (nonlinear_arith);
}

/// An infinity stays what it is when multiplied, and so does what is no number.
pub proof fn products_of_infinities(value: Float, factor: nat)
    requires
        value !is Finite,
    ensures
        value.product(factor) == value,
{
}

} // verus!
