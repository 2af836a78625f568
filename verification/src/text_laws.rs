//! What holds of numerals and text in general.
use vstd::arithmetic::power::{lemma_pow0, lemma_pow_adds, lemma_pow1, pow};
use vstd::prelude::*;
use vstd::utf8::{encode_scalar, encode_utf8};

use crate::action::joined;
use crate::literal::decimal_value;
use crate::text::{
    digit, digit_value, lemma_trimmed_surrounded, numeral, signed_numeral, trimmed, white_space,
};

verus! {

/// What the digits of a numeral add up to, each times the power of ten of its
/// place, the first digit having the highest.
pub open spec fn place_value(s: Seq<char>) -> int
    decreases s.len(),
{
    if s.len() == 0 {
        0
    } else {
        (s[0] as int - 48) * pow(10, (s.len() - 1) as nat) + place_value(s.drop_first())
    }
}

proof fn lemma_place_value_push(s: Seq<char>, c: char)
    ensures
        place_value(s.push(c)) == place_value(s) * 10 + (c as int - 48),
    decreases s.len(),
{
    let all = s.push(c);
    lemma_pow0(10);
    if s.len() == 0 {
        assert(all.drop_first() =~= Seq::empty());
        assert(place_value(all.drop_first()) == 0);
        assert((c as int - 48) * 1 == c as int - 48) by (nonlinear_arith);
    } else {
        let rest = s.drop_first();
        assert(all.drop_first() =~= rest.push(c));
        lemma_place_value_push(rest, c);
        lemma_pow1(10);
        lemma_pow_adds(10, (s.len() - 1) as nat, 1);
        let first = s[0] as int - 48;
        let p = pow(10, (s.len() - 1) as nat);
        assert(first * (p * 10) == first * p * 10) by (nonlinear_arith);
    }
}

/// A digit is one of the ten ASCII digits, and nothing else is.
pub proof fn digits_are_the_ten_ascii_ones(c: char)
    ensures
        digit(c) <==> 48 <= c as int <= 57,
        digit(c) ==> digit_value(c) == c as int - 48,
{
}

/// A numeral is read as the sum of its digits' place values.
pub proof fn numerals_are_read_by_place(s: Seq<char>)
    requires
        forall|i: int| 0 <= i < s.len() ==> 48 <= #[trigger] s[i] as int <= 57,
    ensures
        decimal_value(s) == place_value(s),
    decreases s.len(),
{
    if s.len() > 0 {
        let front = s.drop_last();
        assert forall|i: int| 0 <= i < front.len() implies 48 <= #[trigger] front[i] as int
            <= 57 by {
            assert(front[i] == s[i]);
        }
        numerals_are_read_by_place(front);
        assert(s =~= front.push(s.last()));
        assert(48 <= s[s.len() - 1] as int <= 57);
        lemma_place_value_push(front, s.last());
    }
}

/// A number is written in ASCII digits whose place values add up to it, without
/// a leading zero.
pub proof fn numbers_are_written_in_decimal(n: nat)
    ensures
        numeral(n).len() > 0,
        forall|i: int| 0 <= i < numeral(n).len() ==> 48 <= #[trigger] numeral(n)[i] as int <= 57,
        numeral(n).len() > 1 ==> numeral(n)[0] != '0',
        place_value(numeral(n)) == n,
    decreases n,
{
    let last = ('0' as u32 + n % 10) as char;
    assert(last as int == 48 + n % 10);
    if n < 10 {
        assert(numeral(n) =~= Seq::empty().push(last));
        lemma_place_value_push(Seq::empty(), last);
    } else {
        let front = numeral(n / 10);
        numbers_are_written_in_decimal(n / 10);
        assert(numeral(n) =~= front.push(last));
        lemma_place_value_push(front, last);
        if front.len() == 1 && front[0] == '0' {
            assert(front =~= Seq::empty().push('0'));
            lemma_place_value_push(Seq::empty(), '0');
        }
    }
}

/// A negative number is written as a minus sign and its magnitude, any other
/// without a sign.
pub proof fn only_negative_numbers_have_a_sign(n: int)
    ensures
        n < 0 ==> signed_numeral(n) == seq!['-'] + numeral((-n) as nat),
        n >= 0 ==> signed_numeral(n) == numeral(n as nat),
{
}

/// Trimming takes away the white space at both ends, and nothing else.
pub proof fn trimming_leaves_what_is_between(before: Seq<char>, s: Seq<char>, after: Seq<char>)
    requires
        forall|i: int| 0 <= i < before.len() ==> white_space(#[trigger] before[i]),
        forall|i: int| 0 <= i < after.len() ==> white_space(#[trigger] after[i]),
        s.len() > 0 ==> !white_space(s[0]) && !white_space(s.last()),
    ensures
        trimmed(before + s + after) == s,
{
    lemma_trimmed_surrounded(before, s, after);
}

/// The bytes of a text are the bytes of its parts.
pub proof fn lemma_encoding_joins(a: Seq<char>, b: Seq<char>)
    ensures
        encode_utf8(a + b) == encode_utf8(a) + encode_utf8(b),
    decreases a.len(),
{
    if a.len() == 0 {
        assert(a + b =~= b);
        assert(encode_utf8(a) =~= Seq::empty());
        assert(Seq::empty() + encode_utf8(b) =~= encode_utf8(b));
    } else {
        let rest = a.drop_first();
        assert((a + b).drop_first() =~= rest + b);
        lemma_encoding_joins(rest, b);
        let first = encode_scalar(a[0] as u32);
        assert(first + (encode_utf8(rest) + encode_utf8(b)) =~= (first + encode_utf8(rest))
            + encode_utf8(b));
    }
}

/// A path in a directory is the directory, a slash unless there is one at its
/// end or there is no directory, and the name.
pub proof fn paths_are_joined_by_one_slash(dir: Seq<u8>, name: Seq<u8>)
    ensures
        dir.len() == 0 ==> joined(dir, name) == name,
        dir.len() > 0 && dir.last() == 47 ==> joined(dir, name) == dir + name,
        dir.len() > 0 && dir.last() != 47 ==> joined(dir, name) == dir + seq![47u8] + name,
{
    if dir.len() == 0 {
        assert(dir + name =~= name);
    } else {
        assert(dir.push(47u8) =~= dir + seq![47u8]);
    }
}

} // verus!
