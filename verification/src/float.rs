//! Double-precision numbers, handled exactly and in integers alone.
//!
//! A [`Float`] is one of the values of IEEE 754 binary64. Every operation here
//! gives the value that the format prescribes: the exact result, rounded to
//! the nearest representable value, ties going to the even mantissa.
use vstd::arithmetic::power::pow;
use vstd::arithmetic::power2::{
    lemma_pow2, lemma_pow2_adds, lemma_pow2_pos, lemma_pow2_strictly_increases, lemma_pow2_unfold,
    lemma2_to64, lemma2_to64_rest, pow2,
};
use vstd::prelude::*;

use crate::bignat::BigNat;

verus! {

/// The smallest exponent that a finite value can have.
pub const MIN_EXPONENT: i32 = -1074;

/// The largest exponent that a finite value can have.
pub const MAX_EXPONENT: i32 = 971;

/// A binary64 value.
#[derive(Clone, Copy, Debug, PartialEq, Eq, Structural)]
pub enum Float {
    /// Not a number.
    Nan,
    /// An infinity.
    Infinite { negative: bool },
    /// `mantissa` times two to the power `exponent`, with a sign.
    Finite { negative: bool, mantissa: u64, exponent: i32 },
}

/// `num / den`, rounded to a whole number, ties going to the even one.
pub open spec fn half_even(num: nat, den: nat) -> nat
    recommends
        den > 0,
{
    let quotient = num / den;
    let twice = 2 * (num % den);
    if twice > den || (twice == den && quotient % 2 == 1) {
        quotient + 1
    } else {
        quotient
    }
}

/// Whether `num / den` is below 2^53 units of 2^`exponent`.
pub open spec fn below(num: nat, den: nat, exponent: int) -> bool {
    num * pow2(1074) < den * pow2((exponent + 1074 + 53) as nat)
}

/// Whether 2^`exponent` is the finest unit in which `num / den` takes no more
/// than 53 bits.
pub open spec fn is_quantum(num: nat, den: nat, exponent: int) -> bool {
    &&& exponent >= MIN_EXPONENT
    &&& below(num, den, exponent)
    &&& exponent == MIN_EXPONENT || !below(num, den, exponent - 1)
}

/// The exponent of the unit to which `num / den` is rounded.
pub open spec fn quantum(num: nat, den: nat) -> int {
    choose|exponent: int| is_quantum(num, den, exponent)
}

/// `mantissa` times two to the power `exponent`, infinite where that is out of
/// range.
pub open spec fn packed(negative: bool, mantissa: nat, exponent: int) -> Float {
    if exponent > MAX_EXPONENT {
        Float::Infinite { negative }
    } else {
        Float::Finite { negative, mantissa: mantissa as u64, exponent: exponent as i32 }
    }
}

/// The representable value nearest to `num / den`, ties going to the even
/// mantissa.
pub open spec fn rounded(negative: bool, num: nat, den: nat) -> Float {
    let exponent = quantum(num, den);
    let mantissa = half_even(num * pow2(1074), den * pow2((exponent + 1074) as nat));
    if mantissa == pow2(53) {
        packed(negative, pow2(52), exponent + 1)
    } else {
        packed(negative, mantissa, exponent)
    }
}

/// The 64-bit number nearest to `n`: `n` itself where it fits.
pub open spec fn saturated(n: nat) -> u64 {
    if n <= u64::MAX {
        n as u64
    } else {
        u64::MAX
    }
}

/// Two to the power `exponent`, one where `exponent` is negative.
pub open spec fn pow2_or_one(exponent: int) -> nat {
    if exponent >= 0 {
        pow2(exponent as nat)
    } else {
        1
    }
}

impl Float {
    /// Whether the value is written as the format holds it: with as large a
    /// mantissa as its 53 bits and the smallest exponent allow.
    pub open spec fn well_formed(self) -> bool {
        match self {
            Float::Nan | Float::Infinite { .. } => true,
            Float::Finite { mantissa, exponent, .. } => {
                &&& mantissa < pow2(53)
                &&& MIN_EXPONENT <= exponent <= MAX_EXPONENT
                &&& exponent == MIN_EXPONENT || mantissa >= pow2(52)
            },
        }
    }

    /// The value that the 64 bits of the interchange format stand for: a sign
    /// bit, 11 bits of exponent, 52 bits of fraction.
    pub open spec fn of_bits(bits: u64) -> Float {
        let negative = bits / 0x8000_0000_0000_0000 == 1;
        let biased = (bits / 0x10_0000_0000_0000) % 0x800;
        let fraction = bits % 0x10_0000_0000_0000;
        if biased == 0x7ff {
            if fraction == 0 {
                Float::Infinite { negative }
            } else {
                Float::Nan
            }
        } else if biased == 0 {
            Float::Finite { negative, mantissa: fraction, exponent: MIN_EXPONENT }
        } else {
            Float::Finite {
                negative,
                mantissa: (fraction + 0x10_0000_0000_0000) as u64,
                exponent: (biased - 1075) as i32,
            }
        }
    }

    /// Whether the value is above zero.
    pub open spec fn positive(self) -> bool {
        match self {
            Float::Nan => false,
            Float::Infinite { negative } => !negative,
            Float::Finite { negative, mantissa, .. } => !negative && mantissa > 0,
        }
    }

    /// The product of the value and a positive whole number.
    pub open spec fn product(self, factor: nat) -> Float {
        match self {
            Float::Nan | Float::Infinite { .. } => self,
            Float::Finite { negative, mantissa, exponent } => rounded(
                negative,
                mantissa as nat * factor * pow2_or_one(exponent as int),
                pow2_or_one(-exponent),
            ),
        }
    }

    /// The value without its fraction, as the nearest 64-bit number; zero for
    /// what is not a number.
    pub open spec fn truncated(self) -> u64 {
        match self {
            Float::Nan => 0,
            Float::Infinite { negative } => if negative {
                0
            } else {
                u64::MAX
            },
            Float::Finite { negative, mantissa, exponent } => if negative {
                0
            } else {
                saturated(
                    mantissa as nat * pow2_or_one(exponent as int) / pow2_or_one(-exponent),
                )
            },
        }
    }

    /// The value rounded to a whole number, halves going away from zero, as
    /// the nearest 64-bit number; zero for what is not a number.
    pub open spec fn nearest(self) -> u64 {
        match self {
            Float::Nan => 0,
            Float::Infinite { negative } => if negative {
                0
            } else {
                u64::MAX
            },
            Float::Finite { negative, mantissa, exponent } => if negative {
                0
            } else {
                let num = mantissa as nat * pow2_or_one(exponent as int);
                let den = pow2_or_one(-exponent);
                saturated((2 * num + den) / (2 * den))
            },
        }
    }

    /// Reads the 64 bits of the interchange format.
    pub fn from_bits(bits: u64) -> (result: Float)
        ensures
            result == Float::of_bits(bits),
            result.well_formed(),
    {
        proof {
            lemma2_to64_rest();
        }
        let negative: bool = bits / 0x8000_0000_0000_0000 == 1;
        let biased: u64 = (bits / 0x10_0000_0000_0000) % 0x800;
        let fraction: u64 = bits % 0x10_0000_0000_0000;
        if biased == 0x7ff {
            if fraction == 0 {
                Float::Infinite { negative }
            } else {
                Float::Nan
            }
        } else if biased == 0 {
            Float::Finite { negative, mantissa: fraction, exponent: MIN_EXPONENT }
        } else {
            Float::Finite {
                negative,
                mantissa: fraction + 0x10_0000_0000_0000,
                exponent: biased as i32 - 1075,
            }
        }
    }

    /// Whether the value is above zero.
    pub fn is_positive(&self) -> (result: bool)
        ensures
            result == self.positive(),
    {
        match *self {
            Float::Nan => false,
            Float::Infinite { negative } => !negative,
            Float::Finite { negative, mantissa, .. } => !negative && mantissa > 0,
        }
    }

    /// Multiplies the value by a whole number.
    pub fn times(&self, factor: u32) -> (result: Float)
        requires
            self.well_formed(),
            factor > 0,
        ensures
            result == self.product(factor as nat),
            result.well_formed(),
    {
        match *self {
            Float::Nan => Float::Nan,
            Float::Infinite { negative } => Float::Infinite { negative },
            Float::Finite { negative, mantissa, exponent } => {
                let mut num = BigNat::from_u64(mantissa);
                num.mul_add(factor, 0);
                let mut den = BigNat::from_u64(1);
                proof {
                    reveal(pow);
                    reveal(pow2);
                }
                if exponent >= 0 {
                    num.mul_pow(2, exponent as u128);
                    proof {
                        lemma_pow2(exponent as nat);
                    }
                } else {
                    let k: u128 = (0 - exponent) as u128;
                    den.mul_pow(2, k);
                    proof {
                        lemma_pow2(k as nat);
                        lemma_pow2_pos(k as nat);
                    }
                }
                round(negative, num, den)
            },
        }
    }

    /// Drops the fraction, stopping at the ends of the 64-bit range.
    pub fn truncate(&self) -> (result: u64)
        requires
            self.well_formed(),
        ensures
            result == self.truncated(),
    {
        match *self {
            Float::Nan => 0,
            Float::Infinite { negative } => if negative {
                0
            } else {
                u64::MAX
            },
            Float::Finite { negative, mantissa, exponent } => {
                if negative {
                    0
                } else if exponent >= 0 {
                    proof {
                        lemma_whole(mantissa as nat, exponent as int);
                    }
                    shifted_up(mantissa, exponent as u32)
                } else {
                    let k: u32 = (0 - exponent) as u32;
                    proof {
                        lemma2_to64_rest();
                        assert(mantissa as nat * 1 == mantissa) by (nonlinear_arith);
                    }
                    if k >= 64 {
                        proof {
                            lemma_pow2_at_least(64, k as nat);
                            vstd::arithmetic::div_mod::lemma_basic_div(
                                mantissa as int,
                                pow2(k as nat) as int,
                            );
                        }
                        0
                    } else {
                        let unit: u64 = power_of_two(k);
                        mantissa / unit
                    }
                }
            },
        }
    }

    /// Rounds to the nearest whole number, halves going away from zero, and
    /// stops at the ends of the 64-bit range.
    pub fn round_to_u64(&self) -> (result: u64)
        requires
            self.well_formed(),
        ensures
            result == self.nearest(),
    {
        match *self {
            Float::Nan => 0,
            Float::Infinite { negative } => if negative {
                0
            } else {
                u64::MAX
            },
            Float::Finite { negative, mantissa, exponent } => {
                if negative {
                    0
                } else if exponent >= 0 {
                    proof {
                        lemma_whole(mantissa as nat, exponent as int);
                        let num = mantissa as nat * pow2_or_one(exponent as int);
                        let den = pow2_or_one(-exponent);
                        assert((2 * num + den) / (2 * den) == num) by (nonlinear_arith)
                            requires
                                den == 1,
                        ;
                    }
                    shifted_up(mantissa, exponent as u32)
                } else {
                    let k: u32 = (0 - exponent) as u32;
                    let ghost num = mantissa as nat;
                    let ghost den = pow2(k as nat);
                    proof {
                        lemma2_to64_rest();
                        lemma_pow2_pos(k as nat);
                        assert(mantissa as nat * 1 == mantissa) by (nonlinear_arith);
                    }
                    if k >= 64 {
                        proof {
                            lemma_pow2_at_least(64, k as nat);
                            vstd::arithmetic::div_mod::lemma_basic_div(
                                (2 * num + den) as int,
                                2 * den as int,
                            );
                        }
                        0
                    } else {
                        let unit: u64 = power_of_two(k);
                        let double: u128 = 2 * mantissa as u128 + unit as u128;
                        let result: u128 = double / (2 * unit as u128);
                        proof {
                            lemma_pow2_at_least(k as nat, 63);
                            assert(result <= double) by (nonlinear_arith)
                                requires
                                    result == double / ((2 * unit) as u128),
                                    unit > 0,
                            ;
                        }
                        result as u64
                    }
                }
            },
        }
    }
}

proof fn lemma_pow2_at_least(low: nat, high: nat)
    requires
        low <= high,
    ensures
        pow2(low) <= pow2(high),
{
    if low < high {
        lemma_pow2_strictly_increases(low, high);
    }
}

/// A value whose exponent is not negative is whole.
proof fn lemma_whole(mantissa: nat, exponent: int)
    requires
        exponent >= 0,
    ensures
        pow2_or_one(-exponent) == 1,
        mantissa * pow2_or_one(exponent) == mantissa * pow2(exponent as nat),
        mantissa * pow2_or_one(exponent) / 1 == mantissa * pow2(exponent as nat),
{
    lemma2_to64();
}

/// Two to the power `k`.
fn power_of_two(k: u32) -> (result: u64)
    requires
        k < 64,
    ensures
        result == pow2(k as nat),
        result > 0,
{
    let mut result: u64 = 1;
    let mut i: u32 = 0;
    proof {
        lemma2_to64();
    }
    while i < k
        invariant
            i <= k < 64,
            result == pow2(i as nat),
            result > 0,
        decreases k - i,
    {
        proof {
            lemma_pow2_unfold((i + 1) as nat);
            lemma_pow2_at_least((i + 1) as nat, 63);
            lemma2_to64_rest();
        }
        result = result * 2;
        i = i + 1;
    }
    result
}

/// `mantissa` times two to the power `k`, or the largest 64-bit number.
fn shifted_up(mantissa: u64, k: u32) -> (result: u64)
    requires
        mantissa < pow2(53),
    ensures
        result == saturated(mantissa as nat * pow2(k as nat)),
{
    proof {
        lemma2_to64_rest();
    }
    if mantissa == 0 {
        return 0;
    }
    if k >= 64 {
        proof {
            lemma_pow2_at_least(64, k as nat);
            assert(mantissa * pow2(k as nat) >= pow2(k as nat)) by (nonlinear_arith)
                requires
                    mantissa >= 1,
            ;
        }
        return u64::MAX;
    }
    let unit: u64 = power_of_two(k);
    assert(mantissa * unit <= 0x20_0000_0000_0000 * 0xffff_ffff_ffff_ffff) by (nonlinear_arith)
        requires
            mantissa <= 0x20_0000_0000_0000,
            unit <= 0xffff_ffff_ffff_ffff,
    ;
    let exact: u128 = mantissa as u128 * unit as u128;
    if exact <= u64::MAX as u128 {
        exact as u64
    } else {
        u64::MAX
    }
}

proof fn lemma_below_increases(num: nat, den: nat, low: int, high: int)
    requires
        MIN_EXPONENT <= low <= high,
        below(num, den, low),
    ensures
        below(num, den, high),
{
    let a = (low + 1074 + 53) as nat;
    let b = (high + 1074 + 53) as nat;
    if low < high {
        lemma_pow2_strictly_increases(a, b);
        assert(den * pow2(a) <= den * pow2(b)) by (nonlinear_arith)
            requires
                pow2(a) <= pow2(b),
        ;
    }
}

/// There is one finest unit at most.
proof fn lemma_quantum_unique(num: nat, den: nat, exponent: int)
    requires
        is_quantum(num, den, exponent),
    ensures
        quantum(num, den) == exponent,
{
    let chosen = quantum(num, den);
    assert(is_quantum(num, den, chosen));
    if chosen < exponent {
        lemma_below_increases(num, den, chosen, exponent - 1);
    }
    if exponent < chosen {
        lemma_below_increases(num, den, exponent, chosen - 1);
    }
}

proof fn lemma_quantum_reached(num: nat, den: nat, exponent: int)
    requires
        exponent >= MIN_EXPONENT,
        below(num, den, exponent),
    ensures
        is_quantum(num, den, quantum(num, den)),
        quantum(num, den) <= exponent,
    decreases exponent + 1074,
{
    if is_quantum(num, den, exponent) {
        lemma_quantum_unique(num, den, exponent);
    } else {
        lemma_quantum_reached(num, den, exponent - 1);
    }
}

proof fn lemma_pow2_exceeds(k: nat)
    ensures
        k < pow2(k),
    decreases k,
{
    lemma2_to64();
    if k > 0 {
        lemma_pow2_exceeds((k - 1) as nat);
        lemma_pow2_unfold(k);
    }
}

/// Every ratio has a finest unit.
proof fn lemma_quantum_exists(num: nat, den: nat)
    requires
        den > 0,
    ensures
        is_quantum(num, den, quantum(num, den)),
{
    let k = (num + 53) as nat;
    lemma_pow2_exceeds(k);
    lemma_pow2_adds(1074, k);
    lemma_pow2_pos(1074);
    assert(num * pow2(1074) < den * (pow2(1074) * pow2(k))) by (nonlinear_arith)
        requires
            num < pow2(k),
            pow2(1074) > 0,
            den > 0,
    ;
    assert(below(num, den, num as int));
    lemma_quantum_reached(num, den, num as int);
}

/// The rounded mantissa lies in the range that the format prescribes.
proof fn lemma_mantissa_range(num: nat, den: nat, exponent: int)
    requires
        den > 0,
        is_quantum(num, den, exponent),
    ensures
        ({
            let mantissa = half_even(num * pow2(1074), den * pow2((exponent + 1074) as nat));
            &&& mantissa <= pow2(53)
            &&& exponent == MIN_EXPONENT || mantissa >= pow2(52)
        }),
{
    let k = (exponent + 1074) as nat;
    let n = num * pow2(1074);
    let d = den * pow2(k);
    lemma_pow2_pos(k);
    lemma_pow2_adds(k, 53);
    lemma_pow2_adds(k, 52);
    lemma_pow2_pos(52);
    lemma_pow2_pos(53);
    assert(d > 0) by (nonlinear_arith)
        requires
            d == den * pow2(k),
            den > 0,
            pow2(k) > 0,
    ;
    assert(den * (pow2(k) * pow2(53)) == d * pow2(53)) by (nonlinear_arith)
        requires
            d == den * pow2(k),
    ;
    assert(den * (pow2(k) * pow2(52)) == d * pow2(52)) by (nonlinear_arith)
        requires
            d == den * pow2(k),
    ;
    vstd::arithmetic::div_mod::lemma_fundamental_div_mod(n as int, d as int);
    let q = (n / d) as int;
    let p53 = pow2(53) as int;
    let p52 = pow2(52) as int;
    assert(q < p53) by (nonlinear_arith)
        requires
            n < d * p53,
            n == d * q + n % d,
            n % d >= 0,
            d > 0,
    ;
    if exponent > MIN_EXPONENT {
        assert(q >= p52) by (nonlinear_arith)
            requires
                n >= d * p52,
                n == d * q + n % d,
                n % d < d,
                d > 0,
        ;
    }
}

/// Zero, and what is closer to zero than to the smallest representable value,
/// rounds to zero.
pub proof fn lemma_rounded_tiny(negative: bool, num: nat, den: nat)
    requires
        num * pow2(1075) < den,
    ensures
        rounded(negative, num, den) == (Float::Finite {
            negative,
            mantissa: 0,
            exponent: MIN_EXPONENT,
        }),
{
    let n = num * pow2(1074);
    lemma_pow2_unfold(1075);
    lemma2_to64();
    lemma2_to64_rest();
    assert(num * (2 * pow2(1074)) == 2 * n) by (nonlinear_arith)
        requires
            n == num * pow2(1074),
    ;
    assert(den * pow2(53) >= den && den * 1 == den) by (nonlinear_arith)
        requires
            pow2(53) >= 1,
    ;
    assert(is_quantum(num, den, MIN_EXPONENT as int));
    lemma_quantum_unique(num, den, MIN_EXPONENT as int);
    vstd::arithmetic::div_mod::lemma_basic_div(n as int, den as int);
    vstd::arithmetic::div_mod::lemma_small_mod(n, den);
}

/// What exceeds every representable value by far rounds to an infinity.
pub proof fn lemma_rounded_huge(negative: bool, num: nat, den: nat)
    requires
        den > 0,
        num >= den * pow2(1025),
    ensures
        rounded(negative, num, den) == (Float::Infinite { negative }),
{
    let exponent = quantum(num, den);
    lemma_quantum_exists(num, den);
    if exponent <= MAX_EXPONENT {
        lemma_below_increases(num, den, exponent, MAX_EXPONENT as int);
        lemma_pow2_adds(1025, 1074);
        lemma_pow2_strictly_increases(2098, 2099);
        lemma_pow2_pos(1074);
        assert(num * pow2(1074) >= den * pow2(2098)) by (nonlinear_arith)
            requires
                num >= den * pow2(1025),
                pow2(1025) * pow2(1074) >= pow2(2098),
                pow2(1074) > 0,
        ;
    }
}

/// Rounds `num / den` to the nearest representable value.
pub fn round(negative: bool, num: BigNat, den: BigNat) -> (result: Float)
    requires
        den@ > 0,
    ensures
        result == rounded(negative, num@, den@),
        result.well_formed(),
{
    let ghost n0 = num@;
    let ghost d0 = den@;
    let mut n = num;
    n.mul_pow(2, 1074);
    let mut t = den;
    t.mul_pow(2, 53);
    proof {
        lemma_pow2(1074);
        lemma_pow2(53);
        lemma_quantum_exists(n0, d0);
    }
    let ghost scaled = n@;
    let mut exponent: i32 = MIN_EXPONENT;
    while n.at_least(&t)
        invariant
            MIN_EXPONENT <= exponent <= MAX_EXPONENT,
            n@ == n0 * pow2(1074),
            t@ == d0 * pow2((exponent + 1074 + 53) as nat),
            exponent == MIN_EXPONENT || !below(n0, d0, exponent - 1),
            is_quantum(n0, d0, quantum(n0, d0)),
            n0 == num@,
            d0 == den@,
        decreases MAX_EXPONENT - exponent,
    {
        if exponent == MAX_EXPONENT {
            proof {
                if quantum(n0, d0) <= MAX_EXPONENT {
                    lemma_below_increases(n0, d0, quantum(n0, d0), MAX_EXPONENT as int);
                }
            }
            return Float::Infinite { negative };
        }
        t.mul_add(2, 0);
        proof {
            let k = (exponent + 1074 + 53) as nat;
            lemma_pow2_unfold(k + 1);
            assert(d0 * pow2(k) * 2 == d0 * (2 * pow2(k))) by (nonlinear_arith);
        }
        exponent = exponent + 1;
    }
    let ghost d = d0 * pow2((exponent + 1074) as nat);
    proof {
        lemma_quantum_unique(n0, d0, exponent as int);
        lemma_mantissa_range(n0, d0, exponent as int);
        let k = (exponent + 1074) as nat;
        lemma_pow2_adds(k, 53);
        lemma_pow2_pos(k);
        assert(t@ == d * pow2(53)) by (nonlinear_arith)
            requires
                t@ == d0 * (pow2(k) * pow2(53)),
                d == d0 * pow2(k),
        ;
        assert(d > 0) by (nonlinear_arith)
            requires
                d == d0 * pow2(k),
                d0 > 0,
                pow2(k) > 0,
        ;
    }
    let mut mantissa: u64 = 0;
    let mut i: u32 = 0;
    proof {
        lemma2_to64();
        lemma2_to64_rest();
    }
    while i < 53
        invariant
            i <= 53,
            n@ < t@,
            mantissa < pow2(i as nat),
            scaled * pow2(i as nat) == mantissa * t@ + n@,
        decreases 53 - i,
    {
        let ghost before = n@;
        proof {
            lemma_pow2_unfold((i + 1) as nat);
            lemma_pow2_strictly_increases(i as nat, 53);
            lemma2_to64_rest();
            let m = mantissa as nat;
            let p = pow2(i as nat);
            assert(scaled * (2 * p) == 2 * m * t@ + 2 * before) by (nonlinear_arith)
                requires
                    scaled * p == m * t@ + before,
            ;
            assert((2 * m + 1) * t@ == 2 * m * t@ + t@) by (nonlinear_arith);
        }
        n.mul_add(2, 0);
        mantissa = mantissa * 2;
        if n.at_least(&t) {
            n.subtract(&t);
            mantissa = mantissa + 1;
        }
        i = i + 1;
    }
    let ghost remainder = scaled - mantissa * d;
    proof {
        let m = mantissa as nat;
        let p = pow2(53);
        lemma_pow2_pos(53);
        assert(remainder * p == n@) by (nonlinear_arith)
            requires
                scaled * p == m * (d * p) + n@,
                remainder == scaled - m * d,
        ;
        assert(0 <= remainder < d) by (nonlinear_arith)
            requires
                remainder * p == n@,
                0 <= n@ < d * p,
                p > 0,
        ;
        vstd::arithmetic::div_mod::lemma_fundamental_div_mod_converse(
            scaled as int,
            d as int,
            m as int,
            remainder,
        );
        assert((2 * n@ > d * p <==> 2 * remainder > d) && (2 * n@ == d * p <==> 2 * remainder
            == d)) by (nonlinear_arith)
            requires
                remainder * p == n@,
                p > 0,
        ;
    }
    n.mul_add(2, 0);
    if n.at_least(&t) {
        if mantissa % 2 == 1 || !t.at_least(&n) {
            mantissa = mantissa + 1;
        }
    }
    assert(mantissa == half_even(scaled, d));
    if mantissa == 0x20_0000_0000_0000 {
        if exponent == MAX_EXPONENT {
            return Float::Infinite { negative };
        }
        return Float::Finite { negative, mantissa: 0x10_0000_0000_0000, exponent: exponent + 1 };
    }
    Float::Finite { negative, mantissa, exponent }
}

/// How far apart two numbers are.
pub open spec fn distance(a: nat, b: nat) -> nat {
    if a <= b {
        (b - a) as nat
    } else {
        (a - b) as nat
    }
}

/// `mantissa` times two to the power `exponent`, in units of one `den`-th of
/// the smallest representable value.
pub open spec fn in_small_units(mantissa: nat, exponent: int, den: nat) -> nat {
    mantissa * (den * pow2((exponent + 1074) as nat))
}

/// No whole number of `den`s is nearer to `num` than the rounded one, and where
/// another is as near the rounded one is even.
proof fn lemma_half_even_nearest(num: nat, den: nat, other: nat)
    requires
        den > 0,
    ensures
        ({
            let whole = half_even(num, den);
            &&& distance(num, whole * den) <= distance(num, other * den)
            &&& distance(num, whole * den) == distance(num, other * den) ==> whole == other || whole
                % 2 == 0
        }),
{
    let q = num / den;
    let r = num % den;
    vstd::arithmetic::div_mod::lemma_fundamental_div_mod(num as int, den as int);
    assert(num == q * den + r) by (nonlinear_arith)
        requires
            num == den * q + r,
    ;
    assert((q + 1) * den == q * den + den) by (nonlinear_arith);
    if other < q {
        assert(other * den + den <= q * den) by (nonlinear_arith)
            requires
                other + 1 <= q,
        ;
    } else if other > q + 1 {
        assert(other * den >= q * den + 2 * den) by (nonlinear_arith)
            requires
                other >= q + 2,
        ;
    }
}

/// A rounded value is the representable value nearest to what was rounded; of
/// two that are equally near, it is the one with the even mantissa.
pub proof fn rounding_is_nearest(
    num: nat,
    den: nat,
    negative: bool,
    mantissa: u64,
    exponent: i32,
    other: Float,
)
    requires
        den > 0,
        rounded(negative, num, den) == (Float::Finite { negative, mantissa, exponent }),
        other.well_formed(),
        other is Finite,
    ensures
        ({
            let exact = num * pow2(1074);
            let found = in_small_units(mantissa as nat, exponent as int, den);
            let rival = in_small_units(other->mantissa as nat, other->exponent as int, den);
            &&& distance(exact, found) <= distance(exact, rival)
            &&& distance(exact, found) == distance(exact, rival) ==> found == rival || mantissa % 2
                == 0
        }),
{
    let exact = num * pow2(1074);
    let unit = quantum(num, den);
    lemma_quantum_exists(num, den);
    lemma_mantissa_range(num, den, unit);
    lemma2_to64_rest();
    let k = (unit + 1074) as nat;
    let d = den * pow2(k);
    lemma_pow2_pos(k);
    assert(d > 0) by (nonlinear_arith)
        requires
            d == den * pow2(k),
            den > 0,
            pow2(k) > 0,
    ;
    let whole = half_even(exact, d);
    let found = in_small_units(mantissa as nat, exponent as int, den);
    if whole == pow2(53) {
        lemma_pow2_unfold(k + 1);
        let h = pow2(52);
        let p = pow2(k);
        assert(h * (den * (2 * p)) == 2 * h * (den * p)) by (nonlinear_arith);
    }
    assert(found == whole * d);
    let m = other->mantissa as nat;
    let e = other->exponent as int;
    let rival = in_small_units(m, e, den);
    if e >= unit {
        let up = (e - unit) as nat;
        lemma_pow2_adds(k, up);
        let p = pow2(k);
        let u = pow2(up);
        assert(m * (den * (p * u)) == m * u * (den * p)) by (nonlinear_arith);
        lemma_half_even_nearest(exact, d, m * u);
    } else {
        let lower = (e + 1074) as nat;
        let h = pow2(52);
        lemma_pow2_adds((k - 1) as nat, 53);
        lemma_pow2_adds(k, 52);
        let p = pow2(k);
        assert(den * (p * h) == h * d) by (nonlinear_arith)
            requires
                d == den * p,
        ;
        assert(exact >= h * d);
        lemma_half_even_nearest(exact, d, h);
        lemma_pow2_at_least(lower, (k - 1) as nat);
        let small = pow2(lower);
        let half = pow2((k - 1) as nat);
        lemma_pow2_pos(lower);
        assert(m * (den * small) < h * d) by (nonlinear_arith)
            requires
                m < pow2(53),
                0 < small <= half,
                den > 0,
                half * pow2(53) == p * h,
                d == den * p,
        ;
    }
}

/// Rounding leaves a representable value as it is.
pub proof fn representable_is_kept(num: nat, den: nat, value: Float)
    requires
        den > 0,
        value.well_formed(),
        value is Finite,
        num * pow2(1074) == in_small_units(value->mantissa as nat, value->exponent as int, den),
    ensures
        rounded(value->Finite_negative, num, den) == value,
{
    let m = value->mantissa as nat;
    let e = value->exponent as int;
    let k = (e + 1074) as nat;
    let d = den * pow2(k);
    lemma_pow2_pos(k);
    lemma_pow2_adds(k, 53);
    lemma2_to64_rest();
    assert(d > 0) by (nonlinear_arith)
        requires
            d == den * pow2(k),
            den > 0,
            pow2(k) > 0,
    ;
    let p = pow2(k);
    let b = pow2(53);
    assert(m * d < den * (p * b)) by (nonlinear_arith)
        requires
            m < b,
            d == den * p,
            d > 0,
    ;
    if e > MIN_EXPONENT {
        let j = (k - 1) as nat;
        lemma_pow2_adds(j, 53);
        lemma_pow2_unfold(k);
        let half = pow2(j);
        let h = pow2(52);
        assert(m * d >= den * (half * b)) by (nonlinear_arith)
            requires
                m >= h,
                d == den * (2 * half),
                b == 2 * h,
        ;
    }
    assert(is_quantum(num, den, e));
    lemma_quantum_unique(num, den, e);
    vstd::arithmetic::div_mod::lemma_fundamental_div_mod_converse(
        (m * d) as int,
        d as int,
        m as int,
        0,
    );
}

/// By how much a number of up to 53 bits is to be shifted to take exactly 53.
proof fn lemma_normalised(n: nat, least: nat) -> (shift: nat)
    requires
        0 < n,
        n * pow2(least) < pow2(53),
    ensures
        pow2(52) <= n * pow2(shift) < pow2(53),
        shift <= 52,
    decreases pow2(53) - n * pow2(least),
{
    lemma2_to64_rest();
    if n * pow2(least) >= pow2(52) {
        if least > 52 {
            lemma_pow2_at_least(53, least);
            assert(n * pow2(least) >= pow2(least)) by (nonlinear_arith)
                requires
                    n >= 1,
            ;
        }
        least
    } else {
        lemma_pow2_unfold(least + 1);
        lemma_pow2_pos(least);
        assert(n * pow2(least + 1) == 2 * (n * pow2(least))) by (nonlinear_arith)
            requires
                pow2(least + 1) == 2 * pow2(least),
        ;
        assert(n * pow2(least) > 0) by (nonlinear_arith)
            requires
                n > 0,
                pow2(least) > 0,
        ;
        lemma_normalised(n, least + 1)
    }
}

/// A whole number of up to 53 bits is representable, and stays exact when it is
/// multiplied by a power of two and read back.
pub proof fn whole_numbers_are_exact(n: nat, shift: nat)
    requires
        0 < n < pow2(53),
        shift <= 64,
    ensures
        rounded(false, n, 1).positive(),
        rounded(false, n, 1).product(pow2(shift)).truncated() == saturated(n * pow2(shift)),
{
    lemma2_to64();
    lemma2_to64_rest();
    assert(n * 1 == n) by (nonlinear_arith);
    let j = lemma_normalised(n, 0);
    let m = n * pow2(j);
    let value = Float::Finite { negative: false, mantissa: m as u64, exponent: -j as i32 };
    lemma_pow2_adds(j, (1074 - j) as nat);
    assert(n * pow2(1074) == m * (1 * pow2((1074 - j) as nat))) by (nonlinear_arith)
        requires
            m == n * pow2(j),
            pow2(1074) == pow2(j) * pow2((1074 - j) as nat),
    ;
    representable_is_kept(n, 1, value);
    let shifted = Float::Finite {
        negative: false,
        mantissa: m as u64,
        exponent: (shift - j) as i32,
    };
    let num = m * pow2(shift) * pow2_or_one(-j);
    let den = pow2_or_one(j as int);
    lemma_pow2_pos(j);
    lemma_pow2_adds(shift, 1074);
    lemma_pow2_adds(j, (shift - j + 1074) as nat);
    assert(num * pow2(1074) == m * (den * pow2((shift - j + 1074) as nat))) by (nonlinear_arith)
        requires
            num == m * pow2(shift) * 1,
            pow2(shift) * pow2(1074) == den * pow2((shift - j + 1074) as nat),
    ;
    representable_is_kept(num, den, shifted);
    let whole = n * pow2(shift);
    if shift >= j {
        let up = (shift - j) as nat;
        lemma_whole(m, shift - j);
        lemma_pow2_adds(j, up);
        assert(m * pow2(up) == whole) by (nonlinear_arith)
            requires
                m == n * pow2(j),
                whole == n * pow2(shift),
                pow2(shift) == pow2(j) * pow2(up),
        ;
    } else {
        let down = (j - shift) as nat;
        lemma_pow2_adds(shift, down);
        lemma_pow2_pos(down);
        assert(m == whole * pow2(down)) by (nonlinear_arith)
            requires
                m == n * pow2(j),
                whole == n * pow2(shift),
                pow2(j) == pow2(shift) * pow2(down),
        ;
        assert(m * 1 == m) by (nonlinear_arith);
        vstd::arithmetic::div_mod::lemma_div_by_multiple(whole as int, pow2(down) as int);
    }
}

/// Equal ratios round alike.
pub proof fn equal_ratios_round_alike(negative: bool, num: nat, den: nat, factor: nat)
    requires
        den > 0,
        factor > 0,
    ensures
        rounded(negative, num * factor, den * factor) == rounded(negative, num, den),
{
    let exponent = quantum(num, den);
    lemma_quantum_exists(num, den);
    lemma_below_scaled(num, den, factor, exponent);
    if exponent > MIN_EXPONENT {
        lemma_below_scaled(num, den, factor, exponent - 1);
    }
    assert(den * factor > 0) by (nonlinear_arith)
        requires
            den > 0,
            factor > 0,
    ;
    assert(is_quantum(num * factor, den * factor, exponent));
    lemma_quantum_unique(num * factor, den * factor, exponent);
    let p = pow2((exponent + 1074) as nat);
    lemma_pow2_pos((exponent + 1074) as nat);
    let n = num * pow2(1074);
    let d = den * p;
    assert(d > 0) by (nonlinear_arith)
        requires
            d == den * p,
            den > 0,
            p > 0,
    ;
    assert(num * factor * pow2(1074) == n * factor) by (nonlinear_arith)
        requires
            n == num * pow2(1074),
    ;
    assert(den * factor * p == d * factor) by (nonlinear_arith)
        requires
            d == den * p,
    ;
    let q = n / d;
    let r = n % d;
    vstd::arithmetic::div_mod::lemma_fundamental_div_mod(n as int, d as int);
    assert(n * factor == q * (d * factor) + r * factor) by (nonlinear_arith)
        requires
            n == d * q + r,
    ;
    assert(0 <= r * factor < d * factor) by (nonlinear_arith)
        requires
            0 <= r < d,
            factor > 0,
    ;
    vstd::arithmetic::div_mod::lemma_fundamental_div_mod_converse(
        (n * factor) as int,
        (d * factor) as int,
        q as int,
        (r * factor) as int,
    );
    assert((2 * (r * factor) > d * factor <==> 2 * r > d) && (2 * (r * factor) == d * factor <==> 2
        * r == d)) by (nonlinear_arith)
        requires
            factor > 0,
    ;
}

proof fn lemma_below_scaled(num: nat, den: nat, factor: nat, exponent: int)
    requires
        factor > 0,
        exponent >= MIN_EXPONENT,
    ensures
        below(num * factor, den * factor, exponent) <==> below(num, den, exponent),
{
    let p = pow2((exponent + 1074 + 53) as nat);
    let a = num * pow2(1074);
    let b = den * p;
    assert(num * factor * pow2(1074) == a * factor) by (nonlinear_arith)
        requires
            a == num * pow2(1074),
    ;
    assert(den * factor * p == b * factor) by (nonlinear_arith)
        requires
            b == den * p,
    ;
    assert(a * factor < b * factor <==> a < b) by (nonlinear_arith)
        requires
            factor > 0,
    ;
}

/// What is neither close to zero nor beyond 2^53 rounds to a finite value, which
/// is off by no more than one part in 2^53.
pub proof fn rounding_error_is_small(negative: bool, num: nat, den: nat)
    requires
        den > 0,
        den * pow2(52) <= num * pow2(1074),
        num < den * pow2(53),
    ensures
        ({
            let value = rounded(negative, num, den);
            let exact = num * pow2(1074);
            let found = in_small_units(value->mantissa as nat, value->exponent as int, den);
            &&& value is Finite
            &&& value.well_formed()
            &&& value->Finite_negative == negative
            &&& pow2(53) * distance(exact, found) <= exact
        }),
{
    let value = rounded(negative, num, den);
    let exact = num * pow2(1074);
    let unit = quantum(num, den);
    lemma2_to64_rest();
    lemma_pow2_pos(1074);
    lemma_pow2_adds(1074, 53);
    assert(below(num, den, 0)) by {
        assert(exact < den * (pow2(1074) * pow2(53))) by (nonlinear_arith)
            requires
                exact == num * pow2(1074),
                num < den * pow2(53),
                pow2(1074) > 0,
        ;
    }
    lemma_quantum_reached(num, den, 0);
    lemma_mantissa_range(num, den, unit);
    let k = (unit + 1074) as nat;
    let d = den * pow2(k);
    lemma_pow2_pos(k);
    assert(d > 0) by (nonlinear_arith)
        requires
            d == den * pow2(k),
            den > 0,
            pow2(k) > 0,
    ;
    let h = pow2(52);
    if unit > MIN_EXPONENT {
        lemma_pow2_adds(k, 52);
        let p = pow2(k);
        assert(den * (p * h) == h * d) by (nonlinear_arith)
            requires
                d == den * p,
        ;
    } else {
        lemma2_to64();
        assert(h * d == den * h) by (nonlinear_arith)
            requires
                d == den * 1,
        ;
    }
    assert(exact >= h * d);
    let whole = half_even(exact, d);
    let found = in_small_units(value->mantissa as nat, value->exponent as int, den);
    if whole == pow2(53) {
        lemma_pow2_unfold(k + 1);
        let p = pow2(k);
        assert(h * (den * (2 * p)) == 2 * h * (den * p)) by (nonlinear_arith);
    }
    assert(found == whole * d);
    let q = exact / d;
    let r = exact % d;
    vstd::arithmetic::div_mod::lemma_fundamental_div_mod(exact as int, d as int);
    assert(exact == q * d + r) by (nonlinear_arith)
        requires
            exact == d * q + r,
    ;
    assert((q + 1) * d == q * d + d) by (nonlinear_arith);
    let off = distance(exact, found);
    assert(2 * off <= d);
    assert(2 * h * off <= h * d) by (nonlinear_arith)
        requires
            2 * off <= d,
    ;
}

/// A whole number of up to 53 bits, divided by a power of two, is representable,
/// and multiplied by that power it comes back.
pub proof fn binary_fractions_are_exact(n: nat, shift: nat)
    requires
        0 < n < pow2(53),
        shift <= 64,
    ensures
        rounded(false, n, pow2(shift)).positive(),
        rounded(false, n, pow2(shift)).product(pow2(shift)).truncated() == n,
{
    lemma2_to64();
    lemma2_to64_rest();
    assert(n * 1 == n) by (nonlinear_arith);
    let j = lemma_normalised(n, 0);
    let m = n * pow2(j);
    let s = pow2(shift);
    lemma_pow2_pos(shift);
    lemma_pow2_pos(j);
    let e = -(j + shift);
    let value = Float::Finite { negative: false, mantissa: m as u64, exponent: e as i32 };
    let low = pow2((e + 1074) as nat);
    lemma_pow2_adds(j + shift, (e + 1074) as nat);
    lemma_pow2_adds(j, shift);
    assert(n * pow2(1074) == m * (s * low)) by (nonlinear_arith)
        requires
            m == n * pow2(j),
            pow2(1074) == pow2(j) * s * low,
    ;
    representable_is_kept(n, s, value);
    let back = Float::Finite { negative: false, mantissa: m as u64, exponent: -j as i32 };
    let num = m * s * pow2_or_one(e);
    let den = pow2_or_one(-e);
    let high = pow2((1074 - j) as nat);
    lemma_pow2_pos(j + shift);
    lemma_pow2_adds(j, (1074 - j) as nat);
    assert(num * pow2(1074) == m * (den * high)) by (nonlinear_arith)
        requires
            num == m * s * 1,
            den == pow2(j) * s,
            pow2(1074) == pow2(j) * high,
    ;
    representable_is_kept(num, den, back);
    assert(m * 1 == m) by (nonlinear_arith);
    vstd::arithmetic::div_mod::lemma_div_by_multiple(n as int, pow2(j) as int);
}

/// Rounding gives an infinity from the point on that is as near to the next power
/// of two as to the largest representable number, and below it a finite number;
/// the sign is kept either way.
pub proof fn rounding_overflows_past_the_largest_number(negative: bool, num: nat, den: nat)
    requires
        den > 0,
    ensures
        ({
            let value = rounded(negative, num, den);
            if num >= den * (0x3f_ffff_ffff_ffff * pow2(970)) {
                value == (Float::Infinite { negative })
            } else {
                &&& value is Finite
                &&& value.well_formed()
                &&& value->Finite_negative == negative
            }
        }),
{
    let unit = quantum(num, den);
    let exact = num * pow2(1074);
    lemma_quantum_exists(num, den);
    lemma_mantissa_range(num, den, unit);
    lemma2_to64_rest();
    lemma_pow2_pos(1074);
    lemma_pow2_pos(970);
    let k = (unit + 1074) as nat;
    let limit = 0x3f_ffff_ffff_ffff * pow2(970);
    let s = pow2(1074);
    let p = pow2(970);
    lemma_pow2_adds(54, 970);
    lemma_pow2_adds(970, 1074);
    lemma_pow2_adds(54, 2044);
    if unit > MAX_EXPONENT {
        lemma_pow2_at_least(2098, (unit - 1 + 1074 + 53) as nat);
        let big = pow2((unit - 1 + 1074 + 53) as nat);
        let t = pow2(2044);
        lemma_pow2_pos(2044);
        assert(num >= den * limit) by (nonlinear_arith)
            requires
                num * s >= den * big,
                big >= 0x40_0000_0000_0000 * t,
                t == p * s,
                limit == 0x3f_ffff_ffff_ffff * p,
                s > 0,
                den > 0,
                p > 0,
        ;
    } else if unit == MAX_EXPONENT {
        let t = pow2(2044);
        lemma_pow2_unfold(2045);
        let d = den * pow2(2045);
        assert(d == 2 * (den * t)) by (nonlinear_arith)
            requires
                d == den * (2 * t),
        ;
        lemma_pow2_pos(2044);
        assert(den * t > 0) by (nonlinear_arith)
            requires
                den > 0,
                t > 0,
        ;
        let q = exact / d;
        let r = exact % d;
        vstd::arithmetic::div_mod::lemma_fundamental_div_mod(exact as int, d as int);
        let whole = half_even(exact, d);
        let dt = den * t;
        assert(num >= den * limit <==> exact >= 0x3f_ffff_ffff_ffff * dt) by (nonlinear_arith)
            requires
                exact == num * s,
                dt == den * t,
                t == p * s,
                limit == 0x3f_ffff_ffff_ffff * p,
                s > 0,
        ;
        assert(exact == 2 * (dt * q) + r) by (nonlinear_arith)
            requires
                exact == d * q + r,
                d == 2 * dt,
        ;
        if q >= 0x1f_ffff_ffff_ffff {
            assert(dt * q >= 0x1f_ffff_ffff_ffff * dt) by (nonlinear_arith)
                requires
                    q >= 0x1f_ffff_ffff_ffff,
            ;
            if q == 0x1f_ffff_ffff_ffff {
                assert(dt * q == 0x1f_ffff_ffff_ffff * dt) by (nonlinear_arith)
                    requires
                        q == 0x1f_ffff_ffff_ffff,
                ;
                assert(r < d);
                assert(whole == 0x20_0000_0000_0000 <==> r >= dt);
            } else {
                assert(dt * q >= 0x20_0000_0000_0000 * dt) by (nonlinear_arith)
                    requires
                        q >= 0x20_0000_0000_0000,
                ;
                assert(whole == 0x20_0000_0000_0000);
            }
        } else {
            assert(dt * q <= 0x1f_ffff_ffff_fffe * dt) by (nonlinear_arith)
                requires
                    q <= 0x1f_ffff_ffff_fffe,
            ;
        }
        assert(whole == 0x20_0000_0000_0000 <==> exact >= 0x3f_ffff_ffff_ffff * dt);
    } else {
        lemma_pow2_at_least((unit + 1074 + 53) as nat, 2097);
        lemma_pow2_adds(53, 2044);
        let top = pow2((unit + 1074 + 53) as nat);
        let t = pow2(2044);
        assert(num < den * limit) by (nonlinear_arith)
            requires
                num * s < den * top,
                top <= 0x20_0000_0000_0000 * t,
                t == p * s,
                limit == 0x3f_ffff_ffff_ffff * p,
                s > 0,
                den > 0,
                p > 0,
        ;
    }
}

} // verus!
