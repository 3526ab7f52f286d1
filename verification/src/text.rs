//! Character classes and integer literals, shared by the tokenizer and by
//! the reading of console input.

use vstd::prelude::*;

verus! {

/// The characters with the Unicode property `White_Space`.
pub open spec fn is_whitespace(c: char) -> bool {
    let n = c as u32;
    ||| 0x09 <= n <= 0x0D
    ||| n == 0x20
    ||| n == 0x85
    ||| n == 0xA0
    ||| n == 0x1680
    ||| 0x2000 <= n <= 0x200A
    ||| n == 0x2028
    ||| n == 0x2029
    ||| n == 0x202F
    ||| n == 0x205F
    ||| n == 0x3000
}

/// The ASCII decimal digits.
pub open spec fn is_digit(c: char) -> bool {
    '0' <= c <= '9'
}

/// The characters that may begin a word: ASCII letters and the underscore.
pub open spec fn is_word_start(c: char) -> bool {
    ('a' <= c <= 'z') || ('A' <= c <= 'Z') || c == '_'
}

/// The characters that may continue a word.
pub open spec fn is_word_part(c: char) -> bool {
    is_word_start(c) || is_digit(c)
}

/// The number a decimal digit stands for.
pub open spec fn digit_value(c: char) -> nat {
    (c as u32 - '0' as u32) as nat
}

/// The number written by a run of decimal digits, most significant first.
pub open spec fn digits_value(digits: Seq<char>) -> nat
    decreases digits.len(),
{
    if digits.len() == 0 {
        0
    } else {
        digits_value(digits.drop_last()) * 10 + digit_value(digits.last())
    }
}

/// Whether every character of `s` is a decimal digit.
pub open spec fn all_digits(s: Seq<char>) -> bool {
    forall|i: int| 0 <= i < s.len() ==> is_digit(#[trigger] s[i])
}

/// Whether `s` begins with a sign character.
pub open spec fn has_sign(s: Seq<char>) -> bool {
    s.len() > 0 && (s[0] == '+' || s[0] == '-')
}

/// The digits of a literal: what follows its sign, if it has one.
pub open spec fn literal_digits(s: Seq<char>) -> Seq<char> {
    if has_sign(s) {
        s.skip(1)
    } else {
        s
    }
}

/// Whether `s` has the shape of an integer literal: an optional sign and
/// then one or more decimal digits, with nothing before, between or after.
pub open spec fn is_literal(s: Seq<char>) -> bool {
    literal_digits(s).len() > 0 && all_digits(literal_digits(s))
}

/// The mathematical value of an integer literal.
pub open spec fn literal_value(s: Seq<char>) -> int {
    if s.len() > 0 && s[0] == '-' {
        -(digits_value(literal_digits(s)) as int)
    } else {
        digits_value(literal_digits(s)) as int
    }
}

/// The 32-bit signed integer that `s` writes: `None` where `s` is no
/// literal, and where its value does not fit.
pub open spec fn integer_of(s: Seq<char>) -> Option<i32> {
    if is_literal(s) && i32::MIN <= literal_value(s) <= i32::MAX {
        Some(literal_value(s) as i32)
    } else {
        None
    }
}

/// `s` without its leading whitespace.
pub open spec fn trim_start(s: Seq<char>) -> Seq<char>
    decreases s.len(),
{
    if s.len() > 0 && is_whitespace(s.first()) {
        trim_start(s.drop_first())
    } else {
        s
    }
}

/// `s` without its trailing whitespace.
pub open spec fn trim_end(s: Seq<char>) -> Seq<char>
    decreases s.len(),
{
    if s.len() > 0 && is_whitespace(s.last()) {
        trim_end(s.drop_last())
    } else {
        s
    }
}

/// `s` without its leading and trailing whitespace.
pub open spec fn trim(s: Seq<char>) -> Seq<char> {
    trim_end(trim_start(s))
}

/// The integer that a line of input holds once the whitespace around it is
/// removed.
pub open spec fn line_value(line: Seq<char>) -> Option<i32> {
    integer_of(trim(line))
}

/// A run of digits with one more digit behind it writes ten times its
/// number and the digit's.
pub proof fn lemma_digits_value_push(digits: Seq<char>, c: char)
    ensures
        digits_value(digits.push(c)) == digits_value(digits) * 10 + digit_value(c),
{
    assert(digits.push(c).drop_last() =~= digits);
}

/// Whether `c` is whitespace.
pub fn whitespace(c: char) -> (r: bool)
    ensures
        r == is_whitespace(c),
{
    let n: u32 = c as u32;
    (0x09 <= n && n <= 0x0D) || n == 0x20 || n == 0x85 || n == 0xA0 || n == 0x1680 || (0x2000 <= n
        && n <= 0x200A) || n == 0x2028 || n == 0x2029 || n == 0x202F || n == 0x205F || n == 0x3000
}

/// Whether `c` is a decimal digit.
pub fn digit(c: char) -> (r: bool)
    ensures
        r == is_digit(c),
{
    '0' <= c && c <= '9'
}

/// Whether `c` may begin a word.
pub fn word_start(c: char) -> (r: bool)
    ensures
        r == is_word_start(c),
{
    ('a' <= c && c <= 'z') || ('A' <= c && c <= 'Z') || c == '_'
}

/// Whether `c` may continue a word.
pub fn word_part(c: char) -> (r: bool)
    ensures
        r == is_word_part(c),
{
    word_start(c) || digit(c)
}

/// The characters of `text`, in order.
pub fn chars_of(text: &str) -> (chars: Vec<char>)
    ensures
        chars@ == text@,
{
    let mut chars: Vec<char> = Vec::new();
    let all = text.chars();
    for c in it: all
        invariant
            chars@ == it.seq().take(it.index() as int),
            it.seq() == text@,
    {
        chars.push(c);
    }
    chars
}

/// The characters of `text` from `from` up to `to`, as a string. `ascii`
/// says that `text` is known to hold ASCII characters only; the part is
/// then cut out at once, and otherwise found by counting characters.
pub(crate) fn part_of(text: &str, ascii: bool, from: usize, to: usize) -> (s: String)
    requires
        from <= to <= text@.len(),
        ascii ==> text.is_ascii(),
    ensures
        s@ == text@.subrange(from as int, to as int),
{
    if ascii {
        text.substring_ascii(from, to).to_owned()
    } else {
        text.substring_char(from, to).to_owned()
    }
}

/// Whether the characters of `chars` from `from` up to `to` spell `word`.
pub(crate) fn spells(chars: &[char], from: usize, to: usize, word: &str) -> (r: bool)
    requires
        from <= to <= chars.len(),
    ensures
        r == (chars@.subrange(from as int, to as int) == word@),
{
    let n = word.unicode_len();
    if to - from != n {
        return false;
    }
    let mut k: usize = 0;
    while k < n
        invariant
            from <= to <= chars.len(),
            to - from == n,
            n == word@.len(),
            k <= n,
            forall|j: int| 0 <= j < k ==> chars@[from + j] == word@[j],
        decreases n - k,
    {
        if chars[from + k] != word.get_char(k) {
            assert(chars@.subrange(from as int, to as int)[k as int] != word@[k as int]);
            return false;
        }
        k += 1;
    }
    assert(chars@.subrange(from as int, to as int) =~= word@);
    true
}

/// Reads the integer literal that the characters from `from` up to `to`
/// write.
pub(crate) fn parse_integer(chars: &[char], from: usize, to: usize) -> (r: Option<i32>)
    requires
        from <= to <= chars.len(),
    ensures
        r == integer_of(chars@.subrange(from as int, to as int)),
{
    let ghost s = chars@.subrange(from as int, to as int);
    let signed = from < to && (chars[from] == '+' || chars[from] == '-');
    let negative = from < to && chars[from] == '-';
    let start: usize = if signed {
        from + 1
    } else {
        from
    };
    let ghost digits = literal_digits(s);
    assert(signed == has_sign(s));
    assert(negative == (s.len() > 0 && s[0] == '-'));
    assert(digits =~= chars@.subrange(start as int, to as int));
    if start == to {
        return None;
    }
    // `magnitude` is the value of the digits read so far, unless `over`
    // says that it has left the range in which a literal can fit.
    let mut magnitude: u64 = 0;
    let mut over = false;
    let mut i: usize = start;
    while i < to
        invariant
            start <= i <= to <= chars.len(),
            s == chars@.subrange(from as int, to as int),
            digits == literal_digits(s),
            digits == chars@.subrange(start as int, to as int),
            negative == (s.len() > 0 && s[0] == '-'),
            all_digits(digits.take(i - start)),
            !over ==> magnitude == digits_value(digits.take(i - start)),
            !over ==> magnitude <= 0x8000_0000,
            over ==> digits_value(digits.take(i - start)) > 0x8000_0000,
        decreases to - i,
    {
        let c = chars[i];
        if !digit(c) {
            assert(!is_digit(digits[i - start]));
            return None;
        }
        let d: u64 = (c as u32 - '0' as u32) as u64;
        proof {
            assert(digits.take(i - start + 1) =~= digits.take(i - start).push(c));
            lemma_digits_value_push(digits.take(i - start), c);
        }
        if !over {
            magnitude = magnitude * 10 + d;
            if magnitude > 0x8000_0000 {
                over = true;
            }
        }
        i += 1;
    }
    assert(digits.take(to - start) =~= digits);
    if over {
        None
    } else if negative {
        if magnitude == 0x8000_0000 {
            Some(i32::MIN)
        } else {
            Some(-(magnitude as i32))
        }
    } else if magnitude == 0x8000_0000 {
        None
    } else {
        Some(magnitude as i32)
    }
}

/// Reads the integer that a line of input holds.
pub fn parse_line(line: &str) -> (r: Option<i32>)
    ensures
        r == line_value(line@),
{
    let chars = chars_of(line);
    let n = chars.len();
    let mut from: usize = 0;
    assert(chars@.skip(0) =~= chars@);
    while from < n && whitespace(chars[from])
        invariant
            from <= n,
            n == chars.len(),
            trim_start(chars@) == trim_start(chars@.skip(from as int)),
        decreases n - from,
    {
        assert(chars@.skip(from as int).drop_first() =~= chars@.skip(from + 1));
        from += 1;
    }
    let ghost rest = chars@.skip(from as int);
    assert(trim_start(chars@) == rest);
    let mut to: usize = n;
    while to > from && whitespace(chars[to - 1])
        invariant
            from <= to <= n,
            n == chars.len(),
            rest == chars@.skip(from as int),
            trim_end(rest) == trim_end(chars@.subrange(from as int, to as int)),
        decreases to,
    {
        assert(chars@.subrange(from as int, to as int).drop_last() =~= chars@.subrange(
            from as int,
            to - 1,
        ));
        to -= 1;
    }
    assert(chars@.skip(from as int) =~= chars@.subrange(from as int, n as int));
    parse_integer(chars.as_slice(), from, to)
}

} // verus!
