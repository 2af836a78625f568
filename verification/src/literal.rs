//! Decimal floating-point literals: `50`, `1.5`, `.5`, `2e10`, `inf`, `nan`.
use vstd::arithmetic::power::{
    lemma_pow0, lemma_pow_adds, lemma_pow_increases, lemma_pow_positive, pow,
};
use vstd::arithmetic::power2::{
    lemma2_to64, lemma2_to64_rest, lemma_pow2_adds, lemma_pow2_pos, pow2,
};
use vstd::prelude::*;

use crate::bignat::BigNat;
use crate::float::{
    lemma_rounded_huge, lemma_rounded_tiny, round, rounded, Float, MIN_EXPONENT,
};
use crate::text::{
    capital, chars_of, digit, digit_value, is_digit, same_letter, to_capital, value_of_digit,
};

verus! {

/// How many digits `s` begins with.
pub open spec fn digit_run(s: Seq<char>) -> nat
    decreases s.len(),
{
    if s.len() > 0 && digit(s[0]) {
        1 + digit_run(s.drop_first())
    } else {
        0
    }
}

/// The number that a sequence of digits writes in decimal.
pub open spec fn decimal_value(s: Seq<char>) -> nat
    decreases s.len(),
{
    if s.len() == 0 {
        0
    } else {
        decimal_value(s.drop_last()) * 10 + digit_value(s.last())
    }
}

/// A number in scientific notation: a significand and a power of ten.
pub struct Decimal {
    pub significand: nat,
    pub exponent: int,
}

/// Whether `s` begins with a minus sign, and what follows an optional sign.
pub open spec fn signed(s: Seq<char>) -> (bool, Seq<char>) {
    if s.len() > 0 && s[0] == '-' {
        (true, s.skip(1))
    } else if s.len() > 0 && s[0] == '+' {
        (false, s.skip(1))
    } else {
        (false, s)
    }
}

/// What the exponent part of a literal says: nothing, or `e` (in either case),
/// an optional sign and at least one digit.
pub open spec fn exponent_part(s: Seq<char>) -> Option<int> {
    if s.len() == 0 {
        Some(0)
    } else if same_letter(s[0], 'e') {
        let (negative, digits) = signed(s.skip(1));
        if digits.len() > 0 && digit_run(digits) == digits.len() {
            Some(
                if negative {
                    -decimal_value(digits)
                } else {
                    decimal_value(digits) as int
                },
            )
        } else {
            None
        }
    } else {
        None
    }
}

/// What an unsigned decimal literal says: digits with an optional point among
/// them, at least one digit in all, and an optional exponent part.
pub open spec fn unsigned_decimal(s: Seq<char>) -> Option<Decimal> {
    let whole = digit_run(s) as int;
    let after = s.skip(whole);
    let pointed = after.len() > 0 && after[0] == '.';
    let fraction = if pointed {
        after.skip(1).take(digit_run(after.skip(1)) as int)
    } else {
        Seq::empty()
    };
    let rest = if pointed {
        after.skip(1).skip(digit_run(after.skip(1)) as int)
    } else {
        after
    };
    let digits = s.take(whole) + fraction;
    if digits.len() == 0 {
        None
    } else {
        match exponent_part(rest) {
            None => None,
            Some(exponent) => Some(
                Decimal {
                    significand: decimal_value(digits),
                    exponent: exponent - fraction.len(),
                },
            ),
        }
    }
}

/// Ten to the power `exponent`, one where `exponent` is negative.
pub open spec fn pow10_or_one(exponent: int) -> nat {
    if exponent >= 0 {
        pow(10, exponent as nat) as nat
    } else {
        1
    }
}

/// `significand` times ten to the power `exponent`, rounded to the nearest
/// representable value.
pub open spec fn scientific(negative: bool, significand: nat, exponent: int) -> Float {
    rounded(negative, significand * pow10_or_one(exponent), pow10_or_one(-exponent))
}

/// Whether `s` is the lower-case `word`, in any mixture of cases.
pub open spec fn spells(s: Seq<char>, word: Seq<char>) -> bool {
    &&& s.len() == word.len()
    &&& forall|i: int| 0 <= i < s.len() ==> same_letter(#[trigger] s[i], word[i])
}

/// The value of a literal: an optional sign, then `inf`, `infinity`, `nan` (in
/// any mixture of cases) or an unsigned decimal literal. Nothing else is a
/// literal.
pub open spec fn float_literal(s: Seq<char>) -> Option<Float> {
    let (negative, magnitude) = signed(s);
    if spells(magnitude, "inf"@) || spells(magnitude, "infinity"@) {
        Some(Float::Infinite { negative })
    } else if spells(magnitude, "nan"@) {
        Some(Float::Nan)
    } else {
        match unsigned_decimal(magnitude) {
            None => None,
            Some(decimal) => Some(scientific(negative, decimal.significand, decimal.exponent)),
        }
    }
}

/// Ten to the power `k` has more than three times `k` bits.
proof fn lemma_pow10_exceeds(k: nat)
    ensures
        pow(10, k) >= pow2(3 * k),
    decreases k,
{
    reveal(pow);
    lemma2_to64();
    if k > 0 {
        let j = (k - 1) as nat;
        lemma_pow10_exceeds(j);
        lemma_pow2_adds(3 * j, 3);
        lemma_pow_positive(10, j);
    }
}

/// A significand other than zero with so large an exponent is out of range.
proof fn lemma_scientific_huge(negative: bool, significand: nat, exponent: int)
    requires
        significand > 0,
        exponent >= 400,
    ensures
        scientific(negative, significand, exponent) == (Float::Infinite { negative }),
{
    lemma_pow10_exceeds(400);
    lemma_pow_increases(10, 400, exponent as nat);
    lemma_pow2_adds(1025, 175);
    lemma_pow2_pos(175);
    lemma_pow2_pos(1025);
    let p = pow10_or_one(exponent);
    assert(pow2(1200) >= pow2(1025)) by (nonlinear_arith)
        requires
            pow2(1200) == pow2(1025) * pow2(175),
            pow2(175) >= 1,
            pow2(1025) >= 1,
    ;
    assert(significand * p >= p) by (nonlinear_arith)
        requires
            significand >= 1,
    ;
    lemma_rounded_huge(negative, significand * p, 1);
}

/// A significand of `digits` digits with so small an exponent rounds to zero.
proof fn lemma_scientific_tiny(negative: bool, significand: nat, digits: nat, exponent: int)
    requires
        significand < pow(10, digits),
        exponent <= -(digits + 400),
    ensures
        scientific(negative, significand, exponent) == (Float::Finite {
            negative,
            mantissa: 0,
            exponent: MIN_EXPONENT,
        }),
{
    let k = (-exponent) as nat;
    lemma_pow10_exceeds(400);
    lemma_pow_adds(10, digits, 400);
    lemma_pow_increases(10, digits + 400, k);
    lemma_pow2_adds(1075, 125);
    lemma_pow2_pos(125);
    lemma_pow2_pos(1075);
    lemma_pow_positive(10, digits);
    let a = pow(10, digits);
    let b = pow(10, 400);
    assert(b >= pow2(1075)) by (nonlinear_arith)
        requires
            b >= pow2(1075) * pow2(125),
            pow2(125) >= 1,
            pow2(1075) >= 1,
    ;
    assert(significand * pow2(1075) < a * b) by (nonlinear_arith)
        requires
            significand < a,
            0 < pow2(1075) <= b,
    ;
    assert(significand * 1 == significand) by (nonlinear_arith);
    lemma_rounded_tiny(negative, significand, pow(10, k) as nat);
}

/// Rounds `significand` times ten to the power `exponent`.
fn from_scientific(negative: bool, significand: BigNat, digits: usize, exponent: i128) -> (result:
    Float)
    requires
        0 < significand@ < pow(10, digits as nat),
    ensures
        result == scientific(negative, significand@, exponent as int),
        result.well_formed(),
{
    if exponent >= 400 {
        proof {
            lemma_scientific_huge(negative, significand@, exponent as int);
        }
        return Float::Infinite { negative };
    }
    if exponent <= -(digits as i128) - 400 {
        proof {
            lemma2_to64();
            lemma2_to64_rest();
            lemma_scientific_tiny(negative, significand@, digits as nat, exponent as int);
        }
        return Float::Finite { negative, mantissa: 0, exponent: MIN_EXPONENT };
    }
    let mut num = significand;
    let mut den = BigNat::from_u64(1);
    let ghost one = den@;
    proof {
        lemma_pow0(10);
    }
    if exponent >= 0 {
        num.mul_pow(10, exponent as u128);
        proof {
            lemma_pow_positive(10, exponent as nat);
        }
    } else {
        let k: u128 = (-exponent) as u128;
        den.mul_pow(10, k);
        proof {
            lemma_pow_positive(10, k as nat);
            let p = pow(10, k as nat);
            assert(significand@ * 1 == significand@) by (nonlinear_arith);
            assert(one * p == p) by (nonlinear_arith)
                requires
                    one == 1,
            ;
        }
    }
    round(negative, num, den)
}

/// Where the digits that start at `from` end.
fn run_end(s: &Vec<char>, from: usize) -> (end: usize)
    requires
        from <= s.len(),
    ensures
        from <= end <= s.len(),
        end == from + digit_run(s@.skip(from as int)),
        forall|i: int| from <= i < end ==> digit(#[trigger] s@[i]),
{
    let mut end: usize = from;
    while end < s.len() && is_digit(s[end])
        invariant
            from <= end <= s.len(),
            digit_run(s@.skip(from as int)) == end - from + digit_run(s@.skip(end as int)),
            forall|i: int| from <= i < end ==> digit(#[trigger] s@[i]),
        decreases s.len() - end,
    {
        assert(s@.skip(end as int).drop_first() =~= s@.skip(end + 1));
        end = end + 1;
    }
    end
}

/// Appends the digits from `from` to `to` to the numeral `written` that `n`
/// stands for.
fn push_digits(n: &mut BigNat, s: &Vec<char>, from: usize, to: usize, Ghost(written): Ghost<
    Seq<char>,
>)
    requires
        from <= to <= s.len(),
        old(n)@ == decimal_value(written),
        forall|i: int| from <= i < to ==> digit(#[trigger] s@[i]),
    ensures
        final(n)@ == decimal_value(written + s@.subrange(from as int, to as int)),
{
    let mut i: usize = from;
    assert(written + s@.subrange(from as int, from as int) =~= written);
    while i < to
        invariant
            from <= i <= to <= s.len(),
            n@ == decimal_value(written + s@.subrange(from as int, i as int)),
            forall|j: int| from <= j < to ==> digit(#[trigger] s@[j]),
        decreases to - i,
    {
        let d: u32 = value_of_digit(s[i]);
        n.mul_add(10, d);
        proof {
            let next = written + s@.subrange(from as int, i + 1);
            assert(next.drop_last() =~= written + s@.subrange(from as int, i as int));
            assert(next.last() == s@[i as int]);
        }
        i = i + 1;
    }
}

/// A numeral of `n` digits stands for less than ten to the power `n`.
proof fn lemma_decimal_value_bound(s: Seq<char>)
    requires
        forall|i: int| 0 <= i < s.len() ==> digit(#[trigger] s[i]),
    ensures
        decimal_value(s) < pow(10, s.len()),
    decreases s.len(),
{
    reveal(pow);
    if s.len() > 0 {
        let shorter = s.drop_last();
        assert forall|i: int| 0 <= i < shorter.len() implies digit(#[trigger] shorter[i]) by {
            assert(shorter[i] == s[i]);
        }
        lemma_decimal_value_bound(shorter);
        assert(digit(s[s.len() - 1]));
    }
}

/// How far exponents are told apart.
const FAR: i128 = 1_000_000_000_000_000_000_000_000_000_000;

/// Whether `found` is `exact`, or both are far out on the same side.
spec fn same_or_far(found: int, exact: int) -> bool {
    ||| found == exact
    ||| found > FAR && exact > FAR
    ||| found < -FAR && exact < -FAR
}

/// Reads the exponent part from `from` to the end.
fn read_exponent(s: &Vec<char>, from: usize) -> (result: Option<i128>)
    requires
        from <= s.len(),
    ensures
        result is Some <==> exponent_part(s@.skip(from as int)) is Some,
        result matches Some(found) ==> {
            &&& same_or_far(found as int, exponent_part(s@.skip(from as int))->0)
            &&& -100 * FAR < found < 100 * FAR
        },
{
    let ghost part = s@.skip(from as int);
    if from == s.len() {
        return Some(0);
    }
    if s[from] != 'e' && s[from] != 'E' {
        assert(capital('e') == 'E');
        return None;
    }
    assert(capital('e') == 'E');
    let mut start: usize = from + 1;
    let mut negative: bool = false;
    assert(part.skip(1) =~= s@.skip(start as int));
    if start < s.len() && (s[start] == '-' || s[start] == '+') {
        negative = s[start] == '-';
        assert(s@.skip(start as int).skip(1) =~= s@.skip(start + 1));
        start = start + 1;
    }
    let ghost digits = s@.skip(start as int);
    assert(signed(part.skip(1)) == (negative, digits));
    let end: usize = run_end(s, start);
    if end == start || end < s.len() {
        return None;
    }
    let mut found: i128 = 0;
    let mut i: usize = start;
    let ghost mut exact: nat = 0;
    assert(s@.subrange(start as int, start as int) =~= Seq::<char>::empty());
    while i < end
        invariant
            start <= i <= end == s.len(),
            exact == decimal_value(s@.subrange(start as int, i as int)),
            found == exact || (found > FAR && exact > FAR),
            0 <= found < 11 * FAR,
            forall|j: int| start <= j < end ==> digit(#[trigger] s@[j]),
        decreases end - i,
    {
        let d: u32 = value_of_digit(s[i]);
        if found <= FAR {
            found = found * 10 + d as i128;
        }
        proof {
            let next = s@.subrange(start as int, i + 1);
            assert(next.drop_last() =~= s@.subrange(start as int, i as int));
            assert(next.last() == s@[i as int]);
            exact = exact * 10 + d as nat;
        }
        i = i + 1;
    }
    assert(s@.subrange(start as int, end as int) =~= digits);
    if negative {
        Some(-found)
    } else {
        Some(found)
    }
}

/// Whether what starts at `from` is `word`, in any mixture of cases.
fn spells_from(s: &Vec<char>, from: usize, word: &str) -> (result: bool)
    requires
        from <= s.len(),
    ensures
        result == spells(s@.skip(from as int), word@),
{
    let letters = chars_of(word);
    if s.len() - from != letters.len() {
        return false;
    }
    let ghost rest = s@.skip(from as int);
    let mut i: usize = 0;
    while i < letters.len()
        invariant
            i <= letters.len(),
            letters@ == word@,
            s.len() == from + letters.len(),
            rest == s@.skip(from as int),
            forall|j: int| 0 <= j < i ==> same_letter(#[trigger] rest[j], word@[j]),
        decreases letters.len() - i,
    {
        let c: char = s[from + i];
        let letter: char = letters[i];
        assert(rest[i as int] == c);
        assert(word@[i as int] == letter);
        if c != letter && c != to_capital(letter) {
            return false;
        }
        i = i + 1;
    }
    true
}

/// The parts of the unsigned decimal literal from `start` to the end.
proof fn lemma_parts(s: Seq<char>, start: int, whole_end: int, fraction_start: int, fraction_end: int)
    requires
        0 <= start <= whole_end <= fraction_start <= fraction_end <= s.len(),
        whole_end == start + digit_run(s.skip(start)),
        if whole_end < s.len() && s[whole_end] == '.' {
            &&& fraction_start == whole_end + 1
            &&& fraction_end == fraction_start + digit_run(s.skip(fraction_start))
        } else {
            fraction_start == whole_end && fraction_end == whole_end
        },
    ensures
        ({
            let digits = s.subrange(start, whole_end) + s.subrange(fraction_start, fraction_end);
            unsigned_decimal(s.skip(start)) == if digits.len() == 0 {
                None
            } else {
                match exponent_part(s.skip(fraction_end)) {
                    None => None,
                    Some(exponent) => Some(
                        Decimal {
                            significand: decimal_value(digits),
                            exponent: exponent - (fraction_end - fraction_start),
                        },
                    ),
                }
            }
        }),
{
    let magnitude = s.skip(start);
    let after = magnitude.skip(whole_end - start);
    assert(after =~= s.skip(whole_end));
    assert(magnitude.take(whole_end - start) =~= s.subrange(start, whole_end));
    if whole_end < s.len() && s[whole_end] == '.' {
        assert(after.skip(1) =~= s.skip(fraction_start));
        assert(s.skip(fraction_start).take(fraction_end - fraction_start) =~= s.subrange(
            fraction_start,
            fraction_end,
        ));
        assert(s.skip(fraction_start).skip(fraction_end - fraction_start) =~= s.skip(fraction_end));
    } else {
        assert(s.subrange(fraction_start, fraction_end) =~= Seq::empty());
    }
}

/// Both stretches of digits together are digits.
proof fn lemma_digits_joined(s: Seq<char>, a: int, b: int, c: int, d: int)
    requires
        0 <= a <= b <= c <= d <= s.len(),
        forall|i: int| a <= i < b ==> digit(#[trigger] s[i]),
        forall|i: int| c <= i < d ==> digit(#[trigger] s[i]),
    ensures
        decimal_value(s.subrange(a, b) + s.subrange(c, d)) < pow(10, (b - a + (d - c)) as nat),
{
    let digits = s.subrange(a, b) + s.subrange(c, d);
    assert forall|i: int| 0 <= i < digits.len() implies digit(#[trigger] digits[i]) by {
        if i < b - a {
            assert(digits[i] == s[a + i]);
        } else {
            assert(digits[i] == s[c + (i - (b - a))]);
        }
    }
    lemma_decimal_value_bound(digits);
}

/// Reads the unsigned decimal literal from `start` to the end.
fn parse_decimal(chars: &Vec<char>, start: usize, negative: bool) -> (result: Option<Float>)
    requires
        start <= chars.len(),
    ensures
        result == (match unsigned_decimal(chars@.skip(start as int)) {
            None => None,
            Some(decimal) => Some(scientific(negative, decimal.significand, decimal.exponent)),
        }),
        result matches Some(value) ==> value.well_formed(),
{
    let whole_end: usize = run_end(chars, start);
    let pointed: bool = whole_end < chars.len() && chars[whole_end] == '.';
    let fraction_start: usize = if pointed {
        whole_end + 1
    } else {
        whole_end
    };
    let fraction_end: usize = if pointed {
        run_end(chars, fraction_start)
    } else {
        whole_end
    };
    proof {
        lemma_parts(
            chars@,
            start as int,
            whole_end as int,
            fraction_start as int,
            fraction_end as int,
        );
    }
    let count: usize = (whole_end - start) + (fraction_end - fraction_start);
    if count == 0 {
        return None;
    }
    match read_exponent(chars, fraction_end) {
        None => None,
        Some(written) => {
            let ghost whole = chars@.subrange(start as int, whole_end as int);
            let mut significand = BigNat::from_u64(0);
            push_digits(&mut significand, chars, start, whole_end, Ghost(Seq::empty()));
            assert(Seq::<char>::empty() + whole =~= whole);
            push_digits(&mut significand, chars, fraction_start, fraction_end, Ghost(whole));
            proof {
                lemma_digits_joined(
                    chars@,
                    start as int,
                    whole_end as int,
                    fraction_start as int,
                    fraction_end as int,
                );
            }
            let places: i128 = (fraction_end - fraction_start) as i128;
            let ghost exact = exponent_part(chars@.skip(fraction_end as int))->0 - places;
            Some(from_written(negative, significand, count, written - places, Ghost(exact)))
        },
    }
}

/// Rounds `significand` times ten to the power `exact`, of which `exponent` may
/// be a stand-in where it is far out.
fn from_written(
    negative: bool,
    significand: BigNat,
    digits: usize,
    exponent: i128,
    Ghost(exact): Ghost<int>,
) -> (result: Float)
    requires
        significand@ < pow(10, digits as nat),
        exponent == exact || (exponent > FAR - usize::MAX && exact > FAR - usize::MAX) || (exponent
            < -FAR && exact < -FAR),
    ensures
        result == scientific(negative, significand@, exact),
        result.well_formed(),
{
    let ghost value = significand@;
    if BigNat::from_u64(0).at_least(&significand) {
        proof {
            let num = value * pow10_or_one(exact);
            assert(num == 0) by (nonlinear_arith)
                requires
                    num == value * pow10_or_one(exact),
                    value == 0,
            ;
            lemma_pow_positive(10, (-exact) as nat);
            assert(0 * pow2(1075) == 0) by (nonlinear_arith);
            lemma_rounded_tiny(negative, num, pow10_or_one(-exact));
            lemma2_to64();
            lemma2_to64_rest();
        }
        return Float::Finite { negative, mantissa: 0, exponent: MIN_EXPONENT };
    }
    proof {
        if exponent != exact {
            if exponent > 0 {
                lemma_scientific_huge(negative, value, exact);
                lemma_scientific_huge(negative, value, exponent as int);
            } else {
                lemma_scientific_tiny(negative, value, digits as nat, exact);
                lemma_scientific_tiny(negative, value, digits as nat, exponent as int);
            }
        }
    }
    from_scientific(negative, significand, digits, exponent)
}

/// Reads a floating-point literal.
pub fn parse_float(s: &str) -> (result: Option<Float>)
    ensures
        result == float_literal(s@),
        result matches Some(value) ==> value.well_formed(),
{
    let chars = chars_of(s);
    let n: usize = chars.len();
    let mut negative: bool = false;
    let mut start: usize = 0;
    assert(chars@.skip(0) =~= chars@);
    if n > 0 && (chars[0] == '-' || chars[0] == '+') {
        negative = chars[0] == '-';
        start = 1;
    }
    assert(signed(s@) == (negative, chars@.skip(start as int)));
    if spells_from(&chars, start, "inf") || spells_from(&chars, start, "infinity") {
        return Some(Float::Infinite { negative });
    }
    if spells_from(&chars, start, "nan") {
        return Some(Float::Nan);
    }
    parse_decimal(&chars, start, negative)
}

} // verus!
