//! What holds of CPU limits in general.
use vstd::arithmetic::div_mod::lemma_fundamental_div_mod_converse;
use vstd::arithmetic::power2::{lemma2_to64, lemma2_to64_rest, lemma_pow2_adds, lemma_pow2_pos, pow2};
use vstd::prelude::*;

use crate::cgroups::{cpu_quota, CPU_PERIOD_US};
use crate::float::{
    distance, equal_ratios_round_alike, pow2_or_one, rounded, rounding_error_is_small, Float,
};

verus! {

/// Two to the power `exponent`, as a ratio and in units of the smallest
/// representable number.
pub proof fn lemma_split(exponent: int)
    requires
        -1074 <= exponent,
    ensures
        pow2_or_one(exponent) * pow2(1074) == pow2_or_one(-exponent) * pow2(
            (exponent + 1074) as nat,
        ),
        pow2_or_one(-exponent) > 0,
{
    lemma2_to64();
    if exponent >= 0 {
        lemma_pow2_adds(exponent as nat, 1074);
    } else {
        lemma_pow2_pos(-exponent as nat);
        lemma_pow2_adds(-exponent as nat, (exponent + 1074) as nat);
    }
}

/// How far a product in double precision is from the exact one.
proof fn lemma_product_error(value: Float, factor: nat) -> (found: nat)
    requires
        value is Finite,
        value.well_formed(),
        !value->Finite_negative,
        ({
            let exact = value->mantissa as nat * pow2((value->exponent + 1074) as nat) * factor;
            pow2(1074) <= 2 * exact && exact < pow2(53) * pow2(1074)
        }),
    ensures
        ({
            let exact = value->mantissa as nat * pow2((value->exponent + 1074) as nat) * factor;
            let result = value.product(factor);
            &&& result is Finite
            &&& result.well_formed()
            &&& !result->Finite_negative
            &&& found == result->mantissa as nat * pow2((result->exponent + 1074) as nat)
            &&& pow2(53) * distance(exact, found) <= exact
        }),
{
    let m = value->mantissa as nat;
    let e = value->exponent as int;
    let high = pow2((e + 1074) as nat);
    let exact = m * high * factor;
    let up = pow2_or_one(e);
    let den = pow2_or_one(-e);
    let num = m * factor * up;
    let small = pow2(1074);
    lemma_split(e);
    lemma_pow2_pos(1074);
    assert(num * small == den * exact) by (nonlinear_arith)
        requires
            up * small == den * high,
            num == m * factor * up,
            exact == m * high * factor,
    ;
    lemma_pow2_adds(53, 1021);
    lemma2_to64();
    lemma2_to64_rest();
    assert(den * pow2(52) <= num * small) by (nonlinear_arith)
        requires
            num * small == den * exact,
            den > 0,
            pow2(52) <= exact,
    ;
    assert(num < den * pow2(53)) by (nonlinear_arith)
        requires
            num * small == den * exact,
            exact < pow2(53) * small,
            den > 0,
            small > 0,
    ;
    rounding_error_is_small(false, num, den);
    let result = value.product(factor);
    let m2 = result->mantissa as nat;
    let high2 = pow2((result->exponent + 1074) as nat);
    let found = m2 * high2;
    let off = distance(exact, found);
    assert(distance(num * small, m2 * (den * high2)) == den * off) by {
        assert(m2 * (den * high2) == den * found) by (nonlinear_arith)
            requires
                found == m2 * high2,
        ;
        assert(den * exact - den * found == den * (exact - found)) by (nonlinear_arith);
        assert(den * found - den * exact == den * (found - exact)) by (nonlinear_arith);
        assert(exact <= found ==> den * exact <= den * found) by (nonlinear_arith);
        assert(exact >= found ==> den * exact >= den * found) by (nonlinear_arith);
    }
    assert(pow2(53) * off <= exact) by (nonlinear_arith)
        requires
            pow2(53) * (den * off) <= den * exact,
            den > 0,
    ;
    found
}

/// What a value within less than a half of a whole number rounds to.
proof fn lemma_nearest_whole(value: Float, whole: nat)
    requires
        value is Finite,
        value.well_formed(),
        !value->Finite_negative,
        whole <= u64::MAX,
        2 * distance(
            whole * pow2(1074),
            value->mantissa as nat * pow2((value->exponent + 1074) as nat),
        ) < pow2(1074),
    ensures
        value.nearest() == whole,
{
    let m = value->mantissa as nat;
    let e = value->exponent as int;
    let high = pow2((e + 1074) as nat);
    let up = pow2_or_one(e);
    let den = pow2_or_one(-e);
    let num = m * up;
    let small = pow2(1074);
    let found = m * high;
    lemma_split(e);
    lemma_pow2_pos(1074);
    assert(num * small == den * found) by (nonlinear_arith)
        requires
            up * small == den * high,
            num == m * up,
            found == m * high,
    ;
    assert(2 * den * whole <= 2 * num + den) by (nonlinear_arith)
        requires
            num * small == den * found,
            2 * (whole * small) < 2 * found + small,
            den > 0,
            small > 0,
    ;
    assert(2 * num + den < 2 * den * whole + 2 * den) by (nonlinear_arith)
        requires
            num * small == den * found,
            2 * found < 2 * (whole * small) + small,
            den > 0,
            small > 0,
    ;
    let over = 2 * num + den - 2 * den * whole;
    assert(2 * num + den == whole * (2 * den) + over) by (nonlinear_arith)
        requires
            over == 2 * num + den - 2 * den * whole,
    ;
    lemma_fundamental_div_mod_converse(
        (2 * num + den) as int,
        (2 * den) as int,
        whole as int,
        over,
    );
}

/// A fraction of a core that comes to a whole number of microseconds out of the
/// accounting period is granted exactly, although neither the fraction nor its
/// product with the period need be exact in double precision.
pub proof fn whole_quotas_are_exact(num: nat, den: nat, quota: nat)
    requires
        den > 0,
        0 < quota < pow2(50),
        num * CPU_PERIOD_US == quota * den,
    ensures
        rounded(false, num, den).positive(),
        cpu_quota(rounded(false, num, den)) == quota,
{
    let period = CPU_PERIOD_US as nat;
    let value = rounded(false, quota, period);
    equal_ratios_round_alike(false, num, den, period);
    equal_ratios_round_alike(false, quota, period, den);
    assert(den * period == period * den) by (nonlinear_arith);
    assert(rounded(false, num, den) == value);
    let small = pow2(1074);
    lemma2_to64();
    lemma2_to64_rest();
    lemma_pow2_pos(1074);
    lemma_pow2_pos(1005);
    lemma_pow2_adds(52, 1022);
    lemma_pow2_adds(17, 1005);
    let exact = quota * small;
    assert(pow2(1022) >= pow2(17)) by (nonlinear_arith)
        requires
            pow2(1022) == pow2(17) * pow2(1005),
            pow2(1005) > 0,
    ;
    assert(period * pow2(52) <= exact) by (nonlinear_arith)
        requires
            exact == quota * small,
            quota > 0,
            small == pow2(52) * pow2(1022),
            period <= pow2(1022),
    ;
    rounding_error_is_small(false, quota, period);
    let m = value->mantissa as nat;
    let high = pow2((value->exponent + 1074) as nat);
    let first = m * high * period;
    assert(m * (period * high) == first) by (nonlinear_arith)
        requires
            first == m * high * period,
    ;
    assert(pow2(53) * distance(exact, first) <= exact);
    assert(exact < pow2(50) * small && small <= exact) by (nonlinear_arith)
        requires
            exact == quota * small,
            0 < quota < pow2(50),
            small > 0,
    ;
    if m == 0 {
        assert(first == 0) by (nonlinear_arith)
            requires
                m == 0,
                first == m * high * period,
        ;
    }
    let second = lemma_product_error(value, period);
    lemma_nearest_whole(value.product(period), quota);
}

} // verus!
