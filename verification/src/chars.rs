use vstd::prelude::*;

verus! {

/// CSS whitespace: tab, line feed, form feed, carriage return and space.
pub open spec fn css_whitespace(c: char) -> bool {
    c == '\u{0009}' || c == '\u{000A}' || c == '\u{000C}' || c == '\u{000D}' || c == '\u{0020}'
}

/// The code points that CSS treats as line breaks.
pub open spec fn css_newline(c: char) -> bool {
    c == '\n' || c == '\r' || c == '\u{000C}'
}

/// Everything but the C0 and C1 control code points other than tab, line feed, form feed and
/// carriage return.
pub open spec fn css_printable(c: char) -> bool {
    !(('\u{0000}' <= c && c <= '\u{0008}') || c == '\u{000B}' || ('\u{000E}' <= c && c
        <= '\u{001F}') || ('\u{007F}' <= c && c <= '\u{009F}'))
}

pub open spec fn ascii_digit(c: char) -> bool {
    '0' <= c && c <= '9'
}

pub open spec fn ascii_alpha(c: char) -> bool {
    ('a' <= c && c <= 'z') || ('A' <= c && c <= 'Z')
}

pub open spec fn ascii_hex_digit(c: char) -> bool {
    ascii_digit(c) || ('a' <= c && c <= 'f') || ('A' <= c && c <= 'F')
}

/// A code point that may start an identifier: `_`, an ASCII letter, or any non-ASCII code point.
pub open spec fn ident_start_char(c: char) -> bool {
    c == '_' || ascii_alpha(c) || c > '\u{007F}'
}

/// A code point that may continue an identifier.
pub open spec fn ident_char(c: char) -> bool {
    ident_start_char(c) || ascii_digit(c) || c == '-'
}

/// Unicode `White_Space` code points.
pub open spec fn unicode_white_space(c: char) -> bool {
    ('\u{0009}' <= c && c <= '\u{000D}') || c == '\u{0020}' || c == '\u{0085}' || c == '\u{00A0}'
        || c == '\u{1680}' || ('\u{2000}' <= c && c <= '\u{200A}') || c == '\u{2028}' || c
        == '\u{2029}' || c == '\u{202F}' || c == '\u{205F}' || c == '\u{3000}'
}

/// Number of bytes of the UTF-8 encoding of a code point.
pub open spec fn utf8_width(c: char) -> nat {
    if c <= '\u{007F}' {
        1
    } else if c <= '\u{07FF}' {
        2
    } else if c <= '\u{FFFF}' {
        3
    } else {
        4
    }
}

/// Byte offset of the code point at index `i` of `s`.
pub open spec fn byte_offset(s: Seq<char>, i: int) -> nat
    decreases i,
{
    if i <= 0 {
        0
    } else {
        byte_offset(s, i - 1) + utf8_width(s[i - 1])
    }
}

/// Number of bytes of the UTF-8 encoding of `s`.
pub open spec fn byte_len(s: Seq<char>) -> nat {
    byte_offset(s, s.len() as int)
}

pub fn is_css_whitespace(c: char) -> (r: bool)
    ensures
        r == css_whitespace(c),
{
    c == '\u{0009}' || c == '\u{000A}' || c == '\u{000C}' || c == '\u{000D}' || c == '\u{0020}'
}

pub fn is_css_printable(c: char) -> (r: bool)
    ensures
        r == css_printable(c),
{
    !(('\u{0000}' <= c && c <= '\u{0008}') || c == '\u{000B}' || ('\u{000E}' <= c && c
        <= '\u{001F}') || ('\u{007F}' <= c && c <= '\u{009F}'))
}

pub fn is_ident_start(c: char) -> (r: bool)
    ensures
        r == ident_start_char(c),
{
    c == '_' || ('a' <= c && c <= 'z') || ('A' <= c && c <= 'Z') || c > '\u{007F}'
}

pub fn is_ident(c: char) -> (r: bool)
    ensures
        r == ident_char(c),
{
    is_ident_start(c) || ('0' <= c && c <= '9') || c == '-'
}

pub fn is_newline_char(c: char) -> (r: bool)
    ensures
        r == css_newline(c),
{
    c == '\n' || c == '\r' || c == '\u{000C}'
}

pub fn is_ascii_digit(c: char) -> (r: bool)
    ensures
        r == ascii_digit(c),
{
    '0' <= c && c <= '9'
}

pub fn is_ascii_hex_digit(c: char) -> (r: bool)
    ensures
        r == ascii_hex_digit(c),
{
    ('0' <= c && c <= '9') || ('a' <= c && c <= 'f') || ('A' <= c && c <= 'F')
}

pub fn is_unicode_white_space(c: char) -> (r: bool)
    ensures
        r == unicode_white_space(c),
{
    ('\u{0009}' <= c && c <= '\u{000D}') || c == '\u{0020}' || c == '\u{0085}' || c == '\u{00A0}'
        || c == '\u{1680}' || ('\u{2000}' <= c && c <= '\u{200A}') || c == '\u{2028}' || c
        == '\u{2029}' || c == '\u{202F}' || c == '\u{205F}' || c == '\u{3000}'
}

/// `char::len_utf8`.
pub fn len_utf8(c: char) -> (n: usize)
    ensures
        n == utf8_width(c),
{
    if c <= '\u{007F}' {
        1
    } else if c <= '\u{07FF}' {
        2
    } else if c <= '\u{FFFF}' {
        3
    } else {
        4
    }
}

pub proof fn lemma_byte_offset_mono(s: Seq<char>, i: int, j: int)
    requires
        i <= j,
    ensures
        byte_offset(s, i) <= byte_offset(s, j),
        i >= 0 ==> byte_offset(s, j) >= byte_offset(s, i) + (j - i),
    decreases j - i,
{
    if i < j {
        lemma_byte_offset_mono(s, i, j - 1);
    }
}

proof fn lemma_byte_offset_drop_first(s: Seq<char>, i: int)
    requires
        1 <= i <= s.len(),
    ensures
        byte_offset(s, i) == utf8_width(s[0]) + byte_offset(s.drop_first(), i - 1),
    decreases i,
{
    if i > 1 {
        lemma_byte_offset_drop_first(s, i - 1);
        assert(s.drop_first()[i - 2] == s[i - 1]);
    } else {
        assert(byte_offset(s, 0) == 0);
        assert(byte_offset(s.drop_first(), 0) == 0);
    }
}

proof fn lemma_scalar_width(c: char)
    ensures
        vstd::utf8::encode_scalar(c as u32).len() == utf8_width(c),
{
    vstd::utf8::char_is_scalar(c);
}

/// The UTF-8 encoding of `s` has `byte_len(s)` bytes.
pub proof fn lemma_byte_len_encoding(s: Seq<char>)
    ensures
        vstd::utf8::encode_utf8(s).len() == byte_len(s),
    decreases s.len(),
{
    if s.len() > 0 {
        lemma_byte_len_encoding(s.drop_first());
        lemma_byte_offset_drop_first(s, s.len() as int);
        lemma_scalar_width(s[0]);
    }
}

/// The byte offset of every code point index, and of the end, is a character boundary of the
/// UTF-8 encoding.
pub proof fn lemma_offset_is_char_boundary(s: Seq<char>, k: int)
    requires
        0 <= k <= s.len(),
    ensures
        vstd::utf8::is_char_boundary(vstd::utf8::encode_utf8(s), byte_offset(s, k) as int),
    decreases k,
{
    let bytes = vstd::utf8::encode_utf8(s);
    vstd::utf8::encode_utf8_valid_utf8(s);
    if k > 0 {
        vstd::utf8::encode_utf8_first_scalar(s);
        assert(vstd::utf8::pop_first_scalar(bytes) =~= vstd::utf8::encode_utf8(s.drop_first()));
        lemma_offset_is_char_boundary(s.drop_first(), k - 1);
        lemma_byte_offset_drop_first(s, k);
        lemma_scalar_width(s[0]);
        lemma_byte_len_encoding(s);
        lemma_byte_offset_mono(s, k, s.len() as int);
    }
}

} // verus!
