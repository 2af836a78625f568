//! What every floating-point literal is worth, and that there are no others.
use vstd::arithmetic::power::{lemma_pow0, lemma_pow_positive, pow};
use vstd::prelude::*;

use crate::float::{rounded, Float};
use crate::literal::{
    decimal_value, digit_run, exponent_part, float_literal, signed, spells, unsigned_decimal,
    Decimal,
};
use crate::text::{capital, digit, same_letter};

verus! {

/// The parts of a decimal literal.
pub struct DecimalText {
    /// A plus or minus sign, or nothing.
    pub sign: Seq<char>,
    /// The digits before the point.
    pub whole: Seq<char>,
    /// Whether there is a point.
    pub pointed: bool,
    /// The digits after the point.
    pub fraction: Seq<char>,
    /// The letter that announces an exponent, if there is one.
    pub letter: Option<char>,
    /// The sign of the exponent, or nothing.
    pub exponent_sign: Seq<char>,
    /// The digits of the exponent.
    pub exponent: Seq<char>,
}

/// Whether a text is made of digits alone.
pub open spec fn only_digits(s: Seq<char>) -> bool {
    forall|i: int| 0 <= i < s.len() ==> '0' <= #[trigger] s[i] <= '9'
}

/// Whether a text is a sign or nothing.
pub open spec fn optional_sign(s: Seq<char>) -> bool {
    s.len() == 0 || (s.len() == 1 && (s[0] == '+' || s[0] == '-'))
}

impl DecimalText {
    /// Whether the parts are what they should be: there is a digit in all, a
    /// fraction only after a point, and an exponent only after its letter, where
    /// it has a digit.
    pub open spec fn well_formed(self) -> bool {
        &&& optional_sign(self.sign)
        &&& only_digits(self.whole)
        &&& only_digits(self.fraction)
        &&& self.whole.len() + self.fraction.len() > 0
        &&& !self.pointed ==> self.fraction.len() == 0
        &&& optional_sign(self.exponent_sign)
        &&& only_digits(self.exponent)
        &&& match self.letter {
            Some(letter) => (letter == 'e' || letter == 'E') && self.exponent.len() > 0,
            None => self.exponent_sign.len() == 0 && self.exponent.len() == 0,
        }
    }

    /// What follows the digits and the point.
    pub open spec fn tail(self) -> Seq<char> {
        match self.letter {
            Some(letter) => seq![letter] + self.exponent_sign + self.exponent,
            None => Seq::empty(),
        }
    }

    /// What follows the digits before the point.
    pub open spec fn after_whole(self) -> Seq<char> {
        if self.pointed {
            seq!['.'] + self.fraction + self.tail()
        } else {
            self.tail()
        }
    }

    /// The literal as it is written.
    pub open spec fn text(self) -> Seq<char> {
        self.sign + (self.whole + self.after_whole())
    }

    /// The power of ten that the digits are to be multiplied by.
    pub open spec fn power(self) -> int {
        let written = decimal_value(self.exponent) as int;
        (if self.exponent_sign == seq!['-'] {
            -written
        } else {
            written
        }) - self.fraction.len()
    }
}

proof fn lemma_run(s: Seq<char>, rest: Seq<char>)
    requires
        only_digits(s),
        rest.len() > 0 ==> !digit(rest[0]),
    ensures
        digit_run(s + rest) == s.len(),
    decreases s.len(),
{
    if s.len() == 0 {
        assert(s + rest =~= rest);
    } else {
        let tail = s.drop_first();
        assert forall|i: int| 0 <= i < tail.len() implies '0' <= #[trigger] tail[i] <= '9' by {
            assert(tail[i] == s[i + 1]);
        }
        assert('0' <= s[0] <= '9');
        assert((s + rest).drop_first() =~= tail + rest);
        lemma_run(tail, rest);
    }
}

proof fn lemma_signed(sign: Seq<char>, rest: Seq<char>)
    requires
        optional_sign(sign),
        rest.len() > 0 ==> rest[0] != '-' && rest[0] != '+',
    ensures
        signed(sign + rest) == (sign == seq!['-'], rest),
{
    let s = sign + rest;
    if sign.len() == 0 {
        assert(s =~= rest);
        assert(seq!['-'].len() == 1);
    } else {
        assert(s.skip(1) =~= rest);
        assert(s[0] == sign[0]);
        if sign[0] == '-' {
            assert(sign =~= seq!['-']);
        } else {
            assert(seq!['-'][0] == '-');
        }
    }
}

proof fn lemma_tail(d: DecimalText)
    requires
        d.well_formed(),
    ensures
        d.tail().len() > 0 ==> d.tail()[0] == 'e' || d.tail()[0] == 'E',
        exponent_part(d.tail()) == Some(d.power() + d.fraction.len()),
{
    match d.letter {
        None => {
            assert(seq!['-'].len() == 1);
            assert(d.exponent_sign != seq!['-']);
            assert(decimal_value(d.exponent) == 0);
        },
        Some(letter) => {
            let s = d.tail();
            assert(s[0] == letter);
            assert(capital('e') == 'E');
            assert(s.skip(1) =~= d.exponent_sign + d.exponent);
            assert('0' <= d.exponent[0] <= '9');
            lemma_signed(d.exponent_sign, d.exponent);
            lemma_run(d.exponent, Seq::empty());
            assert(d.exponent + Seq::<char>::empty() =~= d.exponent);
        },
    }
}

/// A decimal literal is worth its digits, without the point, times the power of
/// ten that the exponent and the place of the point give, rounded to the nearest
/// representable number; the sign is the one that is written.
pub proof fn decimal_literals_are_rounded_once(d: DecimalText)
    requires
        d.well_formed(),
    ensures
        ({
            let minus = d.sign == seq!['-'];
            let digits = decimal_value(d.whole + d.fraction);
            float_literal(d.text()) == Some(
                if d.power() >= 0 {
                    rounded(minus, digits * pow(10, d.power() as nat) as nat, 1)
                } else {
                    rounded(minus, digits, pow(10, (-d.power()) as nat) as nat)
                },
            )
        }),
{
    let magnitude = d.whole + d.after_whole();
    let after = d.after_whole();
    lemma_tail(d);
    if d.pointed {
        assert(after[0] == '.');
    }
    if d.whole.len() > 0 {
        assert('0' <= d.whole[0] <= '9');
        assert(magnitude[0] == d.whole[0]);
    } else {
        assert(d.pointed);
        assert(magnitude[0] == '.');
    }
    lemma_signed(d.sign, magnitude);
    reveal_strlit("inf");
    reveal_strlit("infinity");
    reveal_strlit("nan");
    assert(!same_letter(magnitude[0], 'i') && !same_letter(magnitude[0], 'n'));
    assert("inf"@[0] == 'i' && "infinity"@[0] == 'i' && "nan"@[0] == 'n');
    assert(!spells(magnitude, "inf"@) && !spells(magnitude, "infinity"@) && !spells(
        magnitude,
        "nan"@,
    ));
    lemma_run(d.whole, after);
    let w = d.whole.len() as int;
    assert(magnitude.skip(w) =~= after);
    assert(magnitude.take(w) =~= d.whole);
    if d.pointed {
        assert(after.skip(1) =~= d.fraction + d.tail());
        lemma_run(d.fraction, d.tail());
        let f = d.fraction.len() as int;
        assert((d.fraction + d.tail()).take(f) =~= d.fraction);
        assert((d.fraction + d.tail()).skip(f) =~= d.tail());
    } else {
        assert(after == d.tail());
        assert(d.fraction =~= Seq::empty());
    }
    let digits = decimal_value(d.whole + d.fraction);
    assert(unsigned_decimal(magnitude) == Some(
        Decimal { significand: digits, exponent: d.power() },
    ));
    lemma_pow0(10);
    assert(digits * 1 == digits) by (nonlinear_arith);
    if d.power() >= 0 {
        lemma_pow_positive(10, d.power() as nat);
    }
}

/// Whether a text is a word for an infinity, in any mixture of cases.
pub open spec fn infinity_word(s: Seq<char>) -> bool {
    &&& s.len() == 3 || s.len() == 8
    &&& s[0] == 'i' || s[0] == 'I'
    &&& s[1] == 'n' || s[1] == 'N'
    &&& s[2] == 'f' || s[2] == 'F'
    &&& s.len() == 8 ==> {
        &&& s[3] == 'i' || s[3] == 'I'
        &&& s[4] == 'n' || s[4] == 'N'
        &&& s[5] == 'i' || s[5] == 'I'
        &&& s[6] == 't' || s[6] == 'T'
        &&& s[7] == 'y' || s[7] == 'Y'
    }
}

/// Whether a text is the word for what is no number, in any mixture of cases.
pub open spec fn nan_word(s: Seq<char>) -> bool {
    &&& s.len() == 3
    &&& s[0] == 'n' || s[0] == 'N'
    &&& s[1] == 'a' || s[1] == 'A'
    &&& s[2] == 'n' || s[2] == 'N'
}

proof fn lemma_words(s: Seq<char>)
    ensures
        spells(s, "inf"@) || spells(s, "infinity"@) <==> infinity_word(s),
        spells(s, "nan"@) <==> nan_word(s),
{
    reveal_strlit("inf");
    reveal_strlit("infinity");
    reveal_strlit("nan");
    assert(capital('i') == 'I' && capital('n') == 'N' && capital('f') == 'F' && capital('t') == 'T'
        && capital('y') == 'Y' && capital('a') == 'A');
    if spells(s, "inf"@) {
        assert(same_letter(s[0], "inf"@[0]) && same_letter(s[1], "inf"@[1]) && same_letter(
            s[2],
            "inf"@[2],
        ));
    }
    if spells(s, "nan"@) {
        assert(same_letter(s[0], "nan"@[0]) && same_letter(s[1], "nan"@[1]) && same_letter(
            s[2],
            "nan"@[2],
        ));
    }
    if spells(s, "infinity"@) {
        let w = "infinity"@;
        assert(same_letter(s[0], w[0]) && same_letter(s[1], w[1]) && same_letter(s[2], w[2])
            && same_letter(s[3], w[3]) && same_letter(s[4], w[4]) && same_letter(s[5], w[5])
            && same_letter(s[6], w[6]) && same_letter(s[7], w[7]));
    }
}

/// The words for an infinity and for what is no number are literals, with or
/// without a sign.
pub proof fn words_are_literals(sign: Seq<char>, word: Seq<char>)
    requires
        optional_sign(sign),
    ensures
        infinity_word(word) ==> float_literal(sign + word) == Some(
            Float::Infinite { negative: sign == seq!['-'] },
        ),
        nan_word(word) ==> float_literal(sign + word) == Some(Float::Nan),
{
    if infinity_word(word) || nan_word(word) {
        lemma_signed(sign, word);
        lemma_words(word);
    }
}

proof fn lemma_run_is_digits(s: Seq<char>)
    ensures
        digit_run(s) <= s.len(),
        only_digits(s.take(digit_run(s) as int)),
    decreases s.len(),
{
    if s.len() > 0 && digit(s[0]) {
        let rest = s.drop_first();
        lemma_run_is_digits(rest);
        let n = digit_run(s) as int;
        let run = s.take(n);
        assert forall|i: int| 0 <= i < run.len() implies '0' <= #[trigger] run[i] <= '9' by {
            if i > 0 {
                assert(run[i] == rest.take(n - 1)[i - 1]);
            }
        }
    }
}

/// What stands before what `signed` leaves.
proof fn lemma_sign_of(s: Seq<char>) -> (sign: Seq<char>)
    ensures
        optional_sign(sign),
        s == sign + signed(s).1,
        signed(s).0 <==> sign == seq!['-'],
{
    if s.len() > 0 && (s[0] == '-' || s[0] == '+') {
        let sign = seq![s[0]];
        assert(s =~= sign + s.skip(1));
        if s[0] == '+' {
            assert(sign[0] != seq!['-'][0]);
        }
        sign
    } else {
        let sign = Seq::<char>::empty();
        assert(s =~= sign + s);
        assert(sign.len() != seq!['-'].len());
        sign
    }
}

/// The parts of an exponent part.
proof fn lemma_tail_parts(tail: Seq<char>) -> (parts: (Option<char>, Seq<char>, Seq<char>))
    requires
        exponent_part(tail) is Some,
    ensures
        optional_sign(parts.1),
        only_digits(parts.2),
        match parts.0 {
            Some(letter) => {
                &&& letter == 'e' || letter == 'E'
                &&& parts.2.len() > 0
                &&& tail == seq![letter] + parts.1 + parts.2
            },
            None => {
                &&& parts.1.len() == 0
                &&& parts.2.len() == 0
                &&& tail == Seq::<char>::empty()
            },
        },
{
    if tail.len() == 0 {
        assert(tail =~= Seq::empty());
        (None, Seq::empty(), Seq::empty())
    } else {
        assert(capital('e') == 'E');
        let sign = lemma_sign_of(tail.skip(1));
        let digits = signed(tail.skip(1)).1;
        lemma_run_is_digits(digits);
        assert(digits.take(digits.len() as int) =~= digits);
        assert(tail =~= seq![tail[0]] + (sign + digits));
        assert(seq![tail[0]] + (sign + digits) =~= seq![tail[0]] + sign + digits);
        (Some(tail[0]), sign, digits)
    }
}

/// The parts of an unsigned decimal literal, with a sign before it.
proof fn lemma_decimal_parts(sign: Seq<char>, magnitude: Seq<char>) -> (d: DecimalText)
    requires
        optional_sign(sign),
        unsigned_decimal(magnitude) is Some,
    ensures
        d.well_formed(),
        d.text() == sign + magnitude,
{
    let w = digit_run(magnitude) as int;
    lemma_run_is_digits(magnitude);
    let whole = magnitude.take(w);
    let after = magnitude.skip(w);
    assert(magnitude =~= whole + after);
    if after.len() > 0 && after[0] == '.' {
        let rest = after.skip(1);
        let f = digit_run(rest) as int;
        lemma_run_is_digits(rest);
        let fraction = rest.take(f);
        let tail = rest.skip(f);
        let parts = lemma_tail_parts(tail);
        let d = DecimalText {
            sign,
            whole,
            pointed: true,
            fraction,
            letter: parts.0,
            exponent_sign: parts.1,
            exponent: parts.2,
        };
        assert(d.tail() == tail);
        assert(after =~= seq!['.'] + fraction + tail);
        d
    } else {
        let parts = lemma_tail_parts(after);
        let d = DecimalText {
            sign,
            whole,
            pointed: false,
            fraction: Seq::empty(),
            letter: parts.0,
            exponent_sign: parts.1,
            exponent: parts.2,
        };
        assert(d.tail() == after);
        d
    }
}

/// Nothing else is a literal: one is a sign or none, followed by one of the words
/// or by a decimal.
pub proof fn every_literal_is_a_word_or_a_decimal(s: Seq<char>)
    requires
        float_literal(s) is Some,
    ensures
        ({
            ||| exists|sign: Seq<char>, word: Seq<char>|
                optional_sign(sign) && (infinity_word(word) || nan_word(word)) && s
                    == #[trigger] (sign + word)
            ||| exists|d: DecimalText| d.well_formed() && s == #[trigger] d.text()
        }),
{
    let sign = lemma_sign_of(s);
    let magnitude = signed(s).1;
    lemma_words(magnitude);
    if infinity_word(magnitude) || nan_word(magnitude) {
        assert(s == sign + magnitude);
    } else {
        let d = lemma_decimal_parts(sign, magnitude);
        assert(d.well_formed() && s == d.text());
    }
}

} // verus!
