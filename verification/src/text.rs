//! Characters of decimal strings: digit characters, their digit values, and
//! trimming of surrounding ASCII whitespace.

use vstd::prelude::*;

verus! {

/// An ASCII decimal digit character.
pub open spec fn is_dec_char(c: char) -> bool {
    c == '0' || c == '1' || c == '2' || c == '3' || c == '4' || c == '5' || c == '6' || c == '7'
        || c == '8' || c == '9'
}

/// The digit value of a decimal digit character; other characters map to 0.
pub open spec fn char_digit(c: char) -> u8 {
    if c == '1' {
        1
    } else if c == '2' {
        2
    } else if c == '3' {
        3
    } else if c == '4' {
        4
    } else if c == '5' {
        5
    } else if c == '6' {
        6
    } else if c == '7' {
        7
    } else if c == '8' {
        8
    } else if c == '9' {
        9
    } else {
        0
    }
}

/// The character of a digit value; values above 9 map to '0'.
pub open spec fn digit_char(d: u8) -> char {
    if d == 1 {
        '1'
    } else if d == 2 {
        '2'
    } else if d == 3 {
        '3'
    } else if d == 4 {
        '4'
    } else if d == 5 {
        '5'
    } else if d == 6 {
        '6'
    } else if d == 7 {
        '7'
    } else if d == 8 {
        '8'
    } else if d == 9 {
        '9'
    } else {
        '0'
    }
}

/// The character of a binary digit.
pub open spec fn bit_char(b: u8) -> char {
    if b == 0 {
        '0'
    } else {
        '1'
    }
}

/// The digit values of a sequence of decimal digit characters.
pub open spec fn digits_of_chars(s: Seq<char>) -> Seq<u8> {
    s.map_values(|c: char| char_digit(c))
}

/// The characters of a sequence of decimal digit values.
pub open spec fn chars_of_digits(s: Seq<u8>) -> Seq<char> {
    s.map_values(|d: u8| digit_char(d))
}

/// An ASCII whitespace character.
pub open spec fn is_ws_char(c: char) -> bool {
    c == ' ' || c == '\t' || c == '\n' || c == '\r' || c == '\u{000b}' || c == '\u{000c}'
}

/// The sequence with surrounding whitespace characters removed.
pub open spec fn trim_chars(s: Seq<char>) -> Seq<char>
    decreases s.len(),
{
    if s.len() > 0 && is_ws_char(s[0]) {
        trim_chars(s.drop_first())
    } else if s.len() > 0 && is_ws_char(s.last()) {
        trim_chars(s.drop_last())
    } else {
        s
    }
}

/// Trimming a sequence of whitespace alone leaves nothing.
pub proof fn lemma_trim_all_ws(s: Seq<char>)
    requires
        forall|i: int| 0 <= i < s.len() ==> is_ws_char(s[i]),
    ensures
        trim_chars(s) == Seq::<char>::empty(),
    decreases s.len(),
{
    if s.len() == 0 {
        assert(trim_chars(s) =~= Seq::<char>::empty());
    } else {
        assert(forall|i: int|
            0 <= i < s.drop_first().len() ==> is_ws_char(#[trigger] s.drop_first()[i]));
        lemma_trim_all_ws(s.drop_first());
    }
}

/// Trimming removes exactly the whitespace prefix and suffix: if everything
/// before `start` and from `end` on is whitespace and the characters at the
/// two boundaries are not, the trimmed sequence is the part in between.
pub proof fn lemma_trim_subrange(s: Seq<char>, start: int, end: int)
    requires
        0 <= start < end <= s.len(),
        forall|j: int| 0 <= j < start ==> is_ws_char(s[j]),
        forall|j: int| end <= j < s.len() ==> is_ws_char(s[j]),
        !is_ws_char(s[start]),
        !is_ws_char(s[end - 1]),
    ensures
        trim_chars(s) == s.subrange(start, end),
    decreases s.len(),
{
    if start > 0 {
        assert(is_ws_char(s[0]));
        let t = s.drop_first();
        assert(forall|j: int| 0 <= j < t.len() ==> #[trigger] t[j] == s[j + 1]);
        lemma_trim_subrange(t, start - 1, end - 1);
        assert(t.subrange(start - 1, end - 1) =~= s.subrange(start, end));
    } else if end < s.len() {
        assert(!is_ws_char(s[0]));
        assert(is_ws_char(s.last()));
        let t = s.drop_last();
        assert(forall|j: int| 0 <= j < t.len() ==> #[trigger] t[j] == s[j]);
        lemma_trim_subrange(t, start, end);
        assert(t.subrange(start, end) =~= s.subrange(start, end));
    } else {
        assert(!is_ws_char(s[0]));
        assert(!is_ws_char(s.last()));
        assert(trim_chars(s) == s);
        assert(s.subrange(0, s.len() as int) =~= s);
    }
}

/// The character of a digit value is a digit character and maps back to the
/// value.
pub proof fn lemma_digit_char_inverse(d: u8)
    requires
        d <= 9,
    ensures
        is_dec_char(digit_char(d)),
        char_digit(digit_char(d)) == d,
{
}

/// A digit character is not whitespace, and its digit value maps back to it.
pub proof fn lemma_dec_char_props(c: char)
    requires
        is_dec_char(c),
    ensures
        !is_ws_char(c),
        char_digit(c) <= 9,
        digit_char(char_digit(c)) == c,
{
}

} // verus!
