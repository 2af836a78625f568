//! Characters and text: white space, ASCII case, decimal numerals.
use vstd::prelude::*;

verus! {

/// Whether `c` is white space as Unicode has it (the property `White_Space`).
pub open spec fn white_space(c: char) -> bool {
    let n = c as u32;
    ||| 0x9 <= n <= 0xd
    ||| n == 0x20
    ||| n == 0x85
    ||| n == 0xa0
    ||| n == 0x1680
    ||| 0x2000 <= n <= 0x200a
    ||| n == 0x2028
    ||| n == 0x2029
    ||| n == 0x202f
    ||| n == 0x205f
    ||| n == 0x3000
}

/// `s` without the white space at both ends.
pub open spec fn trimmed(s: Seq<char>) -> Seq<char>
    decreases s.len(),
{
    if s.len() == 0 {
        s
    } else if white_space(s[0]) {
        trimmed(s.drop_first())
    } else if white_space(s.last()) {
        trimmed(s.drop_last())
    } else {
        s
    }
}

/// The ASCII capital of `c`, or `c` itself.
pub open spec fn capital(c: char) -> char {
    if 'a' <= c <= 'z' {
        (c as u32 - 32) as char
    } else {
        c
    }
}

/// Whether `c` is the lower-case ASCII letter `letter`, in either case.
pub open spec fn same_letter(c: char, letter: char) -> bool {
    c == letter || c == capital(letter)
}

/// Whether `c` is an ASCII digit.
pub open spec fn digit(c: char) -> bool {
    '0' <= c <= '9'
}

/// What the digit `c` stands for.
pub open spec fn digit_value(c: char) -> nat {
    (c as u32 - '0' as u32) as nat
}

/// The characters of `s`.
pub fn chars_of(s: &str) -> (result: Vec<char>)
    ensures
        result@ == s@,
{
    let mut result: Vec<char> = Vec::new();
    for c in iter: s.chars()
        invariant
            result@ == s@.take(iter.index() as int),
            iter.seq() == s@,
    {
        result.push(c);
    }
    result
}

/// Whether `c` is white space.
pub fn is_white_space(c: char) -> (result: bool)
    ensures
        result == white_space(c),
{
    let n: u32 = c as u32;
    (0x9 <= n && n <= 0xd) || n == 0x20 || n == 0x85 || n == 0xa0 || n == 0x1680 || (0x2000 <= n
        && n <= 0x200a) || n == 0x2028 || n == 0x2029 || n == 0x202f || n == 0x205f || n == 0x3000
}

/// Makes an ASCII letter a capital.
pub fn to_capital(c: char) -> (result: char)
    ensures
        result == capital(c),
{
    if 'a' <= c && c <= 'z' {
        (c as u8 - 32) as char
    } else {
        c
    }
}

/// Whether `c` is an ASCII digit.
pub fn is_digit(c: char) -> (result: bool)
    ensures
        result == digit(c),
{
    '0' <= c && c <= '9'
}

/// What the digit `c` stands for.
pub fn value_of_digit(c: char) -> (result: u32)
    requires
        digit(c),
    ensures
        result == digit_value(c),
        result <= 9,
{
    c as u32 - '0' as u32
}

proof fn lemma_trim_start(s: Seq<char>, start: int)
    requires
        0 <= start <= s.len(),
        forall|i: int| 0 <= i < start ==> white_space(#[trigger] s[i]),
    ensures
        trimmed(s) == trimmed(s.skip(start)),
    decreases start,
{
    if start > 0 {
        assert(white_space(s[0]));
        assert(s.drop_first().skip(start - 1) =~= s.skip(start));
        assert forall|i: int| 0 <= i < start - 1 implies white_space(
            #[trigger] s.drop_first()[i],
        ) by {
            assert(s.drop_first()[i] == s[i + 1]);
        }
        lemma_trim_start(s.drop_first(), start - 1);
    } else {
        assert(s.skip(0) =~= s);
    }
}

proof fn lemma_trim_end(s: Seq<char>, end: int)
    requires
        0 < end <= s.len(),
        !white_space(s[0]),
        forall|i: int| end <= i < s.len() ==> white_space(#[trigger] s[i]),
        !white_space(s[end - 1]),
    ensures
        trimmed(s) == s.take(end),
    decreases s.len(),
{
    if end < s.len() {
        assert(white_space(s[s.len() - 1]));
        assert(s.drop_last().take(end) =~= s.take(end));
        lemma_trim_end(s.drop_last(), end);
    } else {
        assert(s.take(end) =~= s);
    }
}

/// Removes the white space at both ends.
pub fn trim(s: &str) -> (result: &str)
    ensures
        result@ == trimmed(s@),
{
    let chars = chars_of(s);
    let n: usize = chars.len();
    let mut start: usize = 0;
    while start < n && is_white_space(chars[start])
        invariant
            start <= n == chars.len(),
            forall|i: int| 0 <= i < start ==> white_space(#[trigger] chars@[i]),
        decreases n - start,
    {
        start = start + 1;
    }
    let mut end: usize = n;
    while end > start && is_white_space(chars[end - 1])
        invariant
            start <= end <= n == chars.len(),
            forall|i: int| end <= i < n ==> white_space(#[trigger] chars@[i]),
        decreases end,
    {
        end = end - 1;
    }
    proof {
        lemma_trim_start(s@, start as int);
        if start < n {
            assert(!white_space(s@[start as int]));
            let rest = s@.skip(start as int);
            assert forall|i: int| end - start <= i < rest.len() implies white_space(
                #[trigger] rest[i],
            ) by {
                assert(rest[i] == chars@[i + start]);
            }
            lemma_trim_end(rest, end - start);
            assert(rest.take(end - start) =~= s@.subrange(start as int, end as int));
        } else {
            assert(s@.skip(start as int) =~= s@.subrange(start as int, end as int));
        }
    }
    s.substring_char(start, end)
}

/// The decimal numeral of `n`.
pub open spec fn numeral(n: nat) -> Seq<char>
    decreases n,
{
    let last = seq![('0' as u32 + n % 10) as char];
    if n < 10 {
        last
    } else {
        numeral(n / 10) + last
    }
}

/// The decimal numeral of `n`, with a minus sign where it is negative.
pub open spec fn signed_numeral(n: int) -> Seq<char> {
    if n < 0 {
        seq!['-'] + numeral((-n) as nat)
    } else {
        numeral(n as nat)
    }
}

/// The numeral of a single digit.
fn digit_text(d: u64) -> (result: &'static str)
    requires
        d < 10,
    ensures
        result@ == seq![('0' as u32 + d) as char],
{
    proof {
        reveal_strlit("0");
        reveal_strlit("1");
        reveal_strlit("2");
        reveal_strlit("3");
        reveal_strlit("4");
        reveal_strlit("5");
        reveal_strlit("6");
        reveal_strlit("7");
        reveal_strlit("8");
        reveal_strlit("9");
    }
    let result = match d {
        0 => "0",
        1 => "1",
        2 => "2",
        3 => "3",
        4 => "4",
        5 => "5",
        6 => "6",
        7 => "7",
        8 => "8",
        _ => "9",
    };
    assert(result@ =~= seq![('0' as u32 + d) as char]);
    result
}

/// Writes `n` in decimal.
pub fn to_decimal(n: u64) -> (result: String)
    ensures
        result@ == numeral(n as nat),
    decreases n,
{
    let last: u64 = n % 10;
    if n < 10 {
        digit_text(last).to_owned()
    } else {
        let mut result = to_decimal(n / 10);
        result.append(digit_text(last));
        result
    }
}

/// Writes `n` in decimal, with a minus sign where it is negative.
pub fn to_signed_decimal(n: i32) -> (result: String)
    ensures
        result@ == signed_numeral(n as int),
{
    if n < 0 {
        let mut result = "-".to_owned();
        proof {
            reveal_strlit("-");
            assert(result@ =~= seq!['-']);
        }
        let magnitude: u64 = (0 - n as i64) as u64;
        let digits = to_decimal(magnitude);
        result.append(digits.as_str());
        result
    } else {
        to_decimal(n as u64)
    }
}

/// `s` without the white space at its start.
pub open spec fn trimmed_start(s: Seq<char>) -> Seq<char>
    decreases s.len(),
{
    if s.len() > 0 && white_space(s[0]) {
        trimmed_start(s.drop_first())
    } else {
        s
    }
}

/// Where the last character is no white space, only the start is trimmed.
pub proof fn lemma_trimmed_push(s: Seq<char>, c: char)
    requires
        !white_space(c),
    ensures
        trimmed(s.push(c)) == trimmed_start(s).push(c),
        trimmed_start(s.push(c)) == trimmed_start(s).push(c),
    decreases s.len(),
{
    if s.len() > 0 && white_space(s[0]) {
        assert(s.push(c).drop_first() =~= s.drop_first().push(c));
        lemma_trimmed_push(s.drop_first(), c);
    } else {
        assert(s.push(c).last() == c);
    }
}

proof fn lemma_trimmed_push_space(s: Seq<char>, c: char)
    requires
        white_space(c),
    ensures
        trimmed(s.push(c)) == trimmed(s),
    decreases s.len(),
{
    if s.len() == 0 {
        assert(s.push(c).drop_first() =~= s);
    } else if white_space(s[0]) {
        assert(s.push(c).drop_first() =~= s.drop_first().push(c));
        lemma_trimmed_push_space(s.drop_first(), c);
    } else {
        assert(s.push(c).drop_last() =~= s);
    }
}

/// White space around `s` is trimmed away.
pub proof fn lemma_trimmed_surrounded(before: Seq<char>, s: Seq<char>, after: Seq<char>)
    requires
        forall|i: int| 0 <= i < before.len() ==> white_space(#[trigger] before[i]),
        forall|i: int| 0 <= i < after.len() ==> white_space(#[trigger] after[i]),
    ensures
        trimmed(before + s + after) == trimmed(s),
    decreases after.len(),
{
    let all = before + s + after;
    if after.len() == 0 {
        assert forall|i: int| 0 <= i < before.len() implies white_space(#[trigger] all[i]) by {
            assert(all[i] == before[i]);
        }
        lemma_trim_start(all, before.len() as int);
        assert(all.skip(before.len() as int) =~= s);
    } else {
        let fewer = after.drop_last();
        assert forall|i: int| 0 <= i < fewer.len() implies white_space(#[trigger] fewer[i]) by {
            assert(fewer[i] == after[i]);
        }
        lemma_trimmed_surrounded(before, s, fewer);
        assert(all =~= (before + s + fewer).push(after.last()));
        lemma_trimmed_push_space(before + s + fewer, after.last());
    }
}

} // verus!
