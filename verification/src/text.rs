//! Text: letters, blanks and lists of characters.

use vstd::prelude::*;

verus! {

/// Puts a character at the end of a string.
///
/// Stands for `String::push` of the standard library, which its documentation says appends the
/// given character to the end of the string.
pub assume_specification[ String::push ](s: &mut String, c: char)
    ensures
        final(s)@ == old(s)@.push(c),
;

/// The capital of an ASCII letter; any other character as it is.
pub open spec fn upper(c: char) -> char {
    if 'a' <= c <= 'z' {
        (c as int - 32) as char
    } else {
        c
    }
}

/// The small letter of an ASCII capital; any other character as it is.
pub open spec fn lower(c: char) -> char {
    if 'A' <= c <= 'Z' {
        (c as int + 32) as char
    } else {
        c
    }
}

pub(crate) fn to_upper(c: char) -> (r: char)
    ensures
        r == upper(c),
{
    if 'a' <= c && c <= 'z' {
        (c as u8 - 32) as char
    } else {
        c
    }
}

pub(crate) fn to_lower(c: char) -> (r: char)
    ensures
        r == lower(c),
{
    if 'A' <= c && c <= 'Z' {
        (c as u8 + 32) as char
    } else {
        c
    }
}

/// The characters of a string.
pub(crate) fn chars_of(s: &str) -> (r: Vec<char>)
    ensures
        r@ == s@,
{
    let mut out: Vec<char> = Vec::new();
    for c in iter: s.chars()
        invariant
            out@ == iter.seq().take(iter.index()),
            iter.seq() == s@,
    {
        out.push(c);
    }
    assert(s@.take(s@.len() as int) =~= s@);
    out
}

/// Whether a character is blank: the characters with the Unicode property `White_Space`.
pub open spec fn blank(c: char) -> bool {
    let k = c as int;
    ||| 0x09 <= k <= 0x0D
    ||| k == 0x20
    ||| k == 0x85
    ||| k == 0xA0
    ||| k == 0x1680
    ||| 0x2000 <= k <= 0x200A
    ||| k == 0x2028
    ||| k == 0x2029
    ||| k == 0x202F
    ||| k == 0x205F
    ||| k == 0x3000
}

/// Whether a character is blank.
pub fn is_blank(c: char) -> (r: bool)
    ensures
        r == blank(c),
{
    let k: u32 = c as u32;
    (0x09 <= k && k <= 0x0D) || k == 0x20 || k == 0x85 || k == 0xA0 || k == 0x1680 || (0x2000 <= k && k
        <= 0x200A) || k == 0x2028 || k == 0x2029 || k == 0x202F || k == 0x205F || k == 0x3000
}

/// How many bytes a character takes in UTF-8.
pub open spec fn utf8_width(c: char) -> int {
    if (c as int) < 0x80 {
        1
    } else if (c as int) < 0x800 {
        2
    } else if (c as int) < 0x1_0000 {
        3
    } else {
        4
    }
}

/// How many bytes text takes in UTF-8.
pub open spec fn utf8_len(s: Seq<char>) -> int
    decreases s.len(),
{
    if s.len() == 0 {
        0
    } else {
        utf8_len(s.drop_last()) + utf8_width(s.last())
    }
}

/// Whether the width of a character in UTF-8 is odd.
pub(crate) fn odd_width(c: char) -> (r: bool)
    ensures
        r == (utf8_width(c) % 2 == 1),
{
    let k: u32 = c as u32;
    k < 0x80 || (0x800 <= k && k < 0x1_0000)
}

/// Text without its blanks.
pub open spec fn without_blanks(s: Seq<char>) -> Seq<char>
    decreases s.len(),
{
    if s.len() == 0 {
        Seq::empty()
    } else if blank(s.last()) {
        without_blanks(s.drop_last())
    } else {
        without_blanks(s.drop_last()).push(s.last())
    }
}

/// Takes the blanks out.
pub(crate) fn strip_blanks(s: &Vec<char>) -> (r: Vec<char>)
    ensures
        r@ == without_blanks(s@),
{
    let mut out: Vec<char> = Vec::new();
    for i in 0..s.len()
        invariant
            out@ == without_blanks(s@.take(i as int)),
    {
        assert(s@.take(i + 1).drop_last() =~= s@.take(i as int));
        if !is_blank(s[i]) {
            out.push(s[i]);
        }
    }
    assert(s@.take(s@.len() as int) =~= s@);
    out
}

/// Puts characters at the end of a string.
pub(crate) fn append(out: &mut String, more: &Vec<char>)
    ensures
        final(out)@ == old(out)@ + more@,
{
    for i in 0..more.len()
        invariant
            out@ == old(out)@ + more@.take(i as int),
    {
        out.push(more[i]);
        assert(out@ =~= old(out)@ + more@.take(i + 1));
    }
    assert(more@.take(more@.len() as int) =~= more@);
}

/// Puts text at the end of a string.
pub(crate) fn append_str(out: &mut String, more: &str)
    ensures
        final(out)@ == old(out)@ + more@,
{
    append(out, &chars_of(more));
}

/// The letters of a list of strings.
pub open spec fn letters(list: Seq<String>) -> Seq<Seq<char>> {
    Seq::new(list.len(), |i: int| list[i]@)
}

} // verus!
