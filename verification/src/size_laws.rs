//! What holds of sizes in general.
use vstd::arithmetic::power::{lemma_pow0, lemma_pow_positive, pow};
use vstd::arithmetic::power2::{lemma2_to64, lemma2_to64_rest, pow2};
use vstd::prelude::*;

use crate::cgroups::{size_in_bytes, unit, SizeFault};
use crate::float::{
    binary_fractions_are_exact, equal_ratios_round_alike, rounded, saturated,
    whole_numbers_are_exact,
};
use crate::literal::{
    decimal_value, digit_run, float_literal, scientific, signed, spells, unsigned_decimal, Decimal,
};
use crate::text::{
    capital, digit, digit_value, lemma_trimmed_push, lemma_trimmed_surrounded, numeral, same_letter,
    trimmed, trimmed_start, white_space,
};
use crate::text_laws::{
    numerals_are_read_by_place, place_value, trimming_leaves_what_is_between,
};

verus! {

/// White space around a size makes no difference.
pub proof fn surrounding_space_is_ignored(before: Seq<char>, s: Seq<char>, after: Seq<char>)
    requires
        forall|i: int| 0 <= i < before.len() ==> white_space(#[trigger] before[i]),
        forall|i: int| 0 <= i < after.len() ==> white_space(#[trigger] after[i]),
    ensures
        size_in_bytes(before + s + after) == size_in_bytes(s),
{
    lemma_trimmed_surrounded(before, s, after);
}

/// A suffix means the same in lower case as in upper case.
pub proof fn suffix_case_is_ignored(s: Seq<char>, suffix: char)
    requires
        unit(suffix) is Some,
    ensures
        size_in_bytes(s.push(suffix)) == size_in_bytes(s.push(capital(suffix))),
{
    if capital(suffix) != suffix {
        lemma_trimmed_push(s, suffix);
        lemma_trimmed_push(s, capital(suffix));
        assert(trimmed_start(s).push(suffix).drop_last() =~= trimmed_start(s));
        assert(trimmed_start(s).push(capital(suffix)).drop_last() =~= trimmed_start(s));
    }
}

/// The suffix `B` after a digit says what its absence says.
pub proof fn byte_suffix_is_optional(s: Seq<char>)
    requires
        s.len() > 0,
        digit(s.last()),
    ensures
        size_in_bytes(s.push('B')) == size_in_bytes(s),
{
    let front = s.drop_last();
    assert(s =~= front.push(s.last()));
    lemma_trimmed_push(front, s.last());
    lemma_trimmed_push(s, 'B');
    assert(trimmed_start(s).push('B').drop_last() =~= trimmed_start(s));
}

proof fn lemma_all_digits_run(s: Seq<char>)
    requires
        forall|i: int| 0 <= i < s.len() ==> digit(#[trigger] s[i]),
    ensures
        digit_run(s) == s.len(),
    decreases s.len(),
{
    if s.len() > 0 {
        let rest = s.drop_first();
        assert forall|i: int| 0 <= i < rest.len() implies digit(#[trigger] rest[i]) by {
            assert(rest[i] == s[i + 1]);
        }
        assert(digit(s[0]));
        lemma_all_digits_run(rest);
    }
}

/// The literal value of a plain numeral.
proof fn lemma_numeral_literal(digits: Seq<char>)
    requires
        digits.len() > 0,
        forall|i: int| 0 <= i < digits.len() ==> digit(#[trigger] digits[i]),
    ensures
        float_literal(digits) == Some(rounded(false, decimal_value(digits), 1)),
{
    let n = decimal_value(digits);
    assert(digit(digits[0]));
    reveal_strlit("inf");
    reveal_strlit("infinity");
    reveal_strlit("nan");
    assert(!same_letter(digits[0], 'i') && !same_letter(digits[0], 'n'));
    assert("inf"@[0] == 'i' && "infinity"@[0] == 'i' && "nan"@[0] == 'n');
    assert(!spells(digits, "inf"@));
    assert(!spells(digits, "infinity"@));
    assert(!spells(digits, "nan"@));
    lemma_all_digits_run(digits);
    let whole = digits.len() as int;
    assert(digits.skip(whole) =~= Seq::empty());
    assert(digits.take(whole) + Seq::<char>::empty() =~= digits);
    assert(unsigned_decimal(digits) == Some(Decimal { significand: n, exponent: 0 }));
    lemma_pow0(10);
    assert(n * 1 == n) by (nonlinear_arith);
}

/// A whole number of units comes out exactly: a numeral below 2^53 is that many
/// bytes, and with a suffix that many units, up to the largest 64-bit number.
pub proof fn whole_sizes_are_exact(digits: Seq<char>, suffix: char)
    requires
        digits.len() > 0,
        forall|i: int| 0 <= i < digits.len() ==> digit(#[trigger] digits[i]),
        0 < decimal_value(digits) < pow2(53),
        unit(suffix) is Some,
        !digit(suffix),
    ensures
        size_in_bytes(digits) == Ok::<u64, SizeFault>(decimal_value(digits) as u64),
        size_in_bytes(digits.push(suffix)) == Ok::<u64, SizeFault>(
            saturated(decimal_value(digits) * unit(suffix)->0),
        ),
{
    let n = decimal_value(digits);
    lemma2_to64();
    lemma2_to64_rest();
    lemma_numeral_literal(digits);
    let front = digits.drop_last();
    assert(digits =~= front.push(digits.last()));
    assert(digit(digits[digits.len() - 1]) && digit(digits[0]));
    assert(trimmed(digits) == digits);
    assert(trimmed_start(digits) == digits);
    lemma_trimmed_push(digits, suffix);
    assert(digits.push(suffix).drop_last() =~= digits);
    whole_numbers_are_exact(n, 0);
    whole_numbers_are_exact(n, 10);
    whole_numbers_are_exact(n, 20);
    whole_numbers_are_exact(n, 30);
    assert(n * 1 == n) by (nonlinear_arith);
}

proof fn lemma_run_then(s: Seq<char>, rest: Seq<char>)
    requires
        forall|i: int| 0 <= i < s.len() ==> digit(#[trigger] s[i]),
        rest.len() > 0 ==> !digit(rest[0]),
    ensures
        digit_run(s + rest) == s.len(),
    decreases s.len(),
{
    if s.len() == 0 {
        assert(s + rest =~= rest);
    } else {
        let tail = s.drop_first();
        assert forall|i: int| 0 <= i < tail.len() implies digit(#[trigger] tail[i]) by {
            assert(tail[i] == s[i + 1]);
        }
        assert(digit(s[0]));
        assert((s + rest).drop_first() =~= tail + rest);
        lemma_run_then(tail, rest);
    }
}

/// The literal value of a numeral with a decimal point.
proof fn lemma_pointed_literal(whole: Seq<char>, fraction: Seq<char>)
    requires
        whole.len() + fraction.len() > 0,
        forall|i: int| 0 <= i < whole.len() ==> digit(#[trigger] whole[i]),
        forall|i: int| 0 <= i < fraction.len() ==> digit(#[trigger] fraction[i]),
    ensures
        float_literal(whole.push('.') + fraction) == Some(
            scientific(false, decimal_value(whole + fraction), -fraction.len()),
        ),
{
    let s = whole.push('.') + fraction;
    let tail = seq!['.'] + fraction;
    assert(s =~= whole + tail);
    if whole.len() > 0 {
        assert(digit(whole[0]));
        assert(s[0] == whole[0]);
    } else {
        assert(s[0] == '.');
    }
    reveal_strlit("inf");
    reveal_strlit("infinity");
    reveal_strlit("nan");
    assert(!same_letter(s[0], 'i') && !same_letter(s[0], 'n'));
    assert("inf"@[0] == 'i' && "infinity"@[0] == 'i' && "nan"@[0] == 'n');
    assert(!spells(s, "inf"@) && !spells(s, "infinity"@) && !spells(s, "nan"@));
    assert(signed(s) == (false, s));
    lemma_run_then(whole, tail);
    let w = whole.len() as int;
    let after = s.skip(w);
    assert(after =~= tail);
    assert(after[0] == '.');
    assert(after.skip(1) =~= fraction);
    lemma_all_digits_run(fraction);
    assert(fraction.take(fraction.len() as int) =~= fraction);
    assert(fraction.skip(fraction.len() as int) =~= Seq::empty());
    assert(s.take(w) =~= whole);
    assert(unsigned_decimal(s) == Some(
        Decimal { significand: decimal_value(whole + fraction), exponent: -fraction.len() },
    ));
}

/// A size with a decimal point that comes to a whole number of bytes below 2^53
/// is exactly that many bytes.
pub proof fn pointed_sizes_are_exact(
    whole: Seq<char>,
    fraction: Seq<char>,
    suffix: char,
    total: nat,
)
    requires
        forall|i: int| 0 <= i < whole.len() ==> digit(#[trigger] whole[i]),
        forall|i: int| 0 <= i < fraction.len() ==> digit(#[trigger] fraction[i]),
        unit(suffix) is Some,
        !digit(suffix),
        0 < total < pow2(53),
        decimal_value(whole + fraction) * unit(suffix)->0 == total * pow(10, fraction.len()),
    ensures
        size_in_bytes((whole.push('.') + fraction).push(suffix)) == Ok::<u64, SizeFault>(
            total as u64,
        ),
{
    let n = decimal_value(whole + fraction);
    let u = unit(suffix)->0;
    let t = pow(10, fraction.len()) as nat;
    lemma_pow_positive(10, fraction.len());
    if whole.len() + fraction.len() == 0 {
        assert(whole + fraction =~= Seq::empty());
        assert(0 * u == 0) by (nonlinear_arith);
        assert(total * t > 0) by (nonlinear_arith)
            requires
                total > 0,
                t > 0,
        ;
    }
    lemma2_to64();
    lemma2_to64_rest();
    lemma_pow0(10);
    lemma_pointed_literal(whole, fraction);
    let number = whole.push('.') + fraction;
    if whole.len() > 0 {
        assert(digit(whole[0]));
        assert(number[0] == whole[0]);
    }
    assert(trimmed_start(number) == number);
    lemma_trimmed_push(number, suffix);
    assert(number.push(suffix).drop_last() =~= number);
    assert(n * 1 == n) by (nonlinear_arith);
    equal_ratios_round_alike(false, n, t, u);
    equal_ratios_round_alike(false, total, u, t);
    assert(t * u == u * t) by (nonlinear_arith);
    assert(scientific(false, n, -fraction.len()) == rounded(false, n, t));
    assert(rounded(false, n, t) == rounded(false, total, u));
    binary_fractions_are_exact(total, 0);
    binary_fractions_are_exact(total, 10);
    binary_fractions_are_exact(total, 20);
    binary_fractions_are_exact(total, 30);
}

/// The numeral of a number is made of digits and stands for it.
proof fn lemma_numeral(n: nat)
    ensures
        numeral(n).len() > 0,
        forall|i: int| 0 <= i < numeral(n).len() ==> digit(#[trigger] numeral(n)[i]),
        decimal_value(numeral(n)) == n,
    decreases n,
{
    let last = ('0' as u32 + n % 10) as char;
    assert(digit(last) && digit_value(last) == n % 10);
    if n < 10 {
        assert(numeral(n) =~= seq![last]);
        assert(numeral(n).drop_last() =~= Seq::empty());
        reveal_with_fuel(decimal_value, 2);
    } else {
        lemma_numeral(n / 10);
        let front = numeral(n / 10);
        assert(numeral(n) =~= front.push(last));
        assert(numeral(n).drop_last() =~= front);
    }
}

/// A byte count that was written reads back as itself: a size below 2^53 comes
/// out of the numeral that a memory limit is written as.
pub proof fn written_sizes_read_back(bytes: u64)
    requires
        0 < bytes < pow2(53),
    ensures
        size_in_bytes(numeral(bytes as nat)) == Ok::<u64, SizeFault>(bytes),
{
    lemma_numeral(bytes as nat);
    whole_sizes_are_exact(numeral(bytes as nat), 'B');
}

/// A size with a suffix is the number before it in units of a power of 1024: G, M,
/// K and B, in either case, stand for 1073741824, 1048576, 1024 bytes and one
/// byte. It is refused where what stands before the suffix is no number, with that
/// text, or where the number is not above zero. White space around it does not
/// count.
pub proof fn suffixed_sizes_are_numbers_of_units(
    before: Seq<char>,
    number: Seq<char>,
    suffix: char,
    after: Seq<char>,
)
    requires
        forall|i: int| 0 <= i < before.len() ==> white_space(#[trigger] before[i]),
        forall|i: int| 0 <= i < after.len() ==> white_space(#[trigger] after[i]),
        number.len() > 0 ==> !white_space(number[0]),
        suffix == 'G' || suffix == 'g' || suffix == 'M' || suffix == 'm' || suffix == 'K' || suffix
            == 'k' || suffix == 'B' || suffix == 'b',
    ensures
        ({
            let size: nat = if suffix == 'G' || suffix == 'g' {
                1073741824
            } else if suffix == 'M' || suffix == 'm' {
                1048576
            } else if suffix == 'K' || suffix == 'k' {
                1024
            } else {
                1
            };
            size_in_bytes(before + number.push(suffix) + after) == match float_literal(number) {
                None => Err::<u64, SizeFault>(SizeFault::InvalidNumber { number }),
                Some(value) => if value.positive() {
                    Ok(value.product(size).truncated())
                } else {
                    Err(SizeFault::NotPositive)
                },
            }
        }),
{
    let text = number.push(suffix);
    assert(text.last() == suffix);
    assert(text.drop_last() =~= number);
    trimming_leaves_what_is_between(before, text, after);
    assert(capital('g') == 'G' && capital('m') == 'M' && capital('k') == 'K' && capital('b')
        == 'B');
}

/// A size that ends in a digit is a number of bytes.
pub proof fn plain_sizes_are_numbers_of_bytes(
    before: Seq<char>,
    number: Seq<char>,
    after: Seq<char>,
)
    requires
        forall|i: int| 0 <= i < before.len() ==> white_space(#[trigger] before[i]),
        forall|i: int| 0 <= i < after.len() ==> white_space(#[trigger] after[i]),
        number.len() > 0,
        !white_space(number[0]),
        '0' <= number.last() <= '9',
    ensures
        size_in_bytes(before + number + after) == match float_literal(number) {
            None => Err::<u64, SizeFault>(SizeFault::InvalidNumber { number }),
            Some(value) => if value.positive() {
                Ok(value.product(1).truncated())
            } else {
                Err(SizeFault::NotPositive)
            },
        },
{
    trimming_leaves_what_is_between(before, number, after);
}

/// A size that ends in anything but a digit or a known suffix is refused, and the
/// refusal names the last character, as a capital if it is an ASCII letter, and
/// the size without the white space around it.
pub proof fn other_suffixes_are_refused(before: Seq<char>, size: Seq<char>, after: Seq<char>)
    requires
        forall|i: int| 0 <= i < before.len() ==> white_space(#[trigger] before[i]),
        forall|i: int| 0 <= i < after.len() ==> white_space(#[trigger] after[i]),
        size.len() > 0,
        !white_space(size[0]) && !white_space(size.last()),
        !('0' <= size.last() <= '9'),
        ({
            let last = size.last();
            &&& last != 'G' && last != 'M' && last != 'K' && last != 'B'
            &&& last != 'g' && last != 'm' && last != 'k' && last != 'b'
        }),
    ensures
        ({
            let last = size.last();
            let shown = if 'a' <= last <= 'z' {
                (last as u32 - 32) as char
            } else {
                last
            };
            size_in_bytes(before + size + after) == Err::<u64, SizeFault>(
                SizeFault::UnrecognizedSuffix { suffix: shown, size },
            )
        }),
{
    trimming_leaves_what_is_between(before, size, after);
    assert(capital('g') == 'G' && capital('m') == 'M' && capital('k') == 'K' && capital('b')
        == 'B');
}

/// Nothing but white space is no size.
pub proof fn blank_sizes_are_refused(blank: Seq<char>)
    requires
        forall|i: int| 0 <= i < blank.len() ==> white_space(#[trigger] blank[i]),
    ensures
        size_in_bytes(blank) == Err::<u64, SizeFault>(SizeFault::Empty),
{
    let nothing = Seq::<char>::empty();
    trimming_leaves_what_is_between(blank, nothing, nothing);
    assert(blank + nothing + nothing =~= blank);
}

/// A numeral below 2^53 is that many bytes, kibibytes, mebibytes or gibibytes, as
/// far as 64 bits hold them.
pub proof fn whole_sizes_in_bytes(digits: Seq<char>)
    requires
        digits.len() > 0,
        forall|i: int| 0 <= i < digits.len() ==> '0' <= #[trigger] digits[i] <= '9',
        0 < place_value(digits) < pow2(53),
    ensures
        ({
            let n = place_value(digits);
            &&& size_in_bytes(digits) == Ok::<u64, SizeFault>(n as u64)
            &&& size_in_bytes(digits.push('B')) == Ok::<u64, SizeFault>(n as u64)
            &&& n * 1024 <= u64::MAX ==> size_in_bytes(digits.push('K')) == Ok::<u64, SizeFault>(
                (n * 1024) as u64,
            )
            &&& n * 1048576 <= u64::MAX ==> size_in_bytes(digits.push('M')) == Ok::<u64, SizeFault>(
                (n * 1048576) as u64,
            )
            &&& n * 1073741824 <= u64::MAX ==> size_in_bytes(digits.push('G')) == Ok::<
                u64,
                SizeFault,
            >((n * 1073741824) as u64)
            &&& n * 1073741824 > u64::MAX ==> size_in_bytes(digits.push('G')) == Ok::<
                u64,
                SizeFault,
            >(u64::MAX)
        }),
{
    numerals_are_read_by_place(digits);
    lemma2_to64_rest();
    whole_sizes_are_exact(digits, 'B');
    whole_sizes_are_exact(digits, 'K');
    whole_sizes_are_exact(digits, 'M');
    whole_sizes_are_exact(digits, 'G');
}

} // verus!
