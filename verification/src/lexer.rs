use vstd::prelude::*;
use vstd::string::StringSliceAdditionalSpecFns;
use crate::chars::{
    ascii_digit, ascii_hex_digit, byte_len, byte_offset, css_newline, css_printable, css_whitespace,
    ident_char, ident_start_char, is_ascii_digit, is_ascii_hex_digit, is_css_printable,
    is_css_whitespace, is_ident, is_ident_start, is_newline_char, is_unicode_white_space,
    lemma_byte_len_encoding, lemma_byte_offset_mono, len_utf8, unicode_white_space, utf8_width,
};
use crate::errors::{LexerError, LexerErrorReason};
use vstd::std_specs::iter::IteratorSpec;
use crate::token::{Token, TokenKind};
use crate::types::LexerSpan;

verus! {

/// A cursor-based CSS tokenizer.
///
/// Each consumer leaves the cursor on the last code point of the lexeme it recognized; `scan`
/// then steps over it. `current` is a byte offset into `input`, and `last_size_memo` holds the
/// UTF-8 width of every code point advanced over, so its length is the cursor's index in code
/// points.
pub struct Lexer<'a> {
    pub input: &'a str,
    pub chars: Vec<char>,
    pub start: usize,
    pub current: usize,
    pub line: usize,
    pub tokens: Vec<Token>,
    pub last_size_memo: Vec<usize>,
}

/// The code point at index `i`, if any.
pub open spec fn char_at(s: Seq<char>, i: int) -> Option<char> {
    if 0 <= i < s.len() {
        Some(s[i])
    } else {
        None
    }
}

/// Whether an identifier starts at index `p`: CSS's "would start an identifier" check.
pub open spec fn starts_ident(s: Seq<char>, p: int) -> bool {
    match char_at(s, p) {
        Some(c) => if ident_start_char(c) {
            true
        } else if c == '-' {
            match char_at(s, p + 1) {
                Some(d) => d == '-' || ident_start_char(d) || (d == '\\' && match char_at(
                    s,
                    p + 2,
                ) {
                    Some(e) => !css_newline(e),
                    None => false,
                }),
                None => false,
            }
        } else if c == '\\' {
            match char_at(s, p + 1) {
                Some(d) => !css_newline(d),
                None => false,
            }
        } else {
            false
        },
        None => false,
    }
}

/// A backslash at `p` followed by a code point that is not a line break.
pub open spec fn valid_escape_at(s: Seq<char>, p: int) -> bool {
    char_at(s, p) == Some('\\') && match char_at(s, p + 1) {
        Some(d) => !css_newline(d),
        None => false,
    }
}

/// The index just past the run of CSS whitespace that starts at `p`.
pub open spec fn whitespace_end(s: Seq<char>, p: int) -> int
    decreases s.len() - p,
{
    if 0 <= p < s.len() && css_whitespace(s[p]) {
        whitespace_end(s, p + 1)
    } else {
        p
    }
}

/// The index just past the run of ASCII digits that starts at `p`.
pub open spec fn digits_end(s: Seq<char>, p: int) -> int
    decreases s.len() - p,
{
    if 0 <= p < s.len() && ascii_digit(s[p]) {
        digits_end(s, p + 1)
    } else {
        p
    }
}

/// Line breaks in `s[i..j]`, where a CR LF pair counts once.
pub open spec fn line_breaks(s: Seq<char>, i: int, j: int) -> nat
    decreases j - i,
{
    if j <= i {
        0
    } else {
        line_breaks(s, i, j - 1) + if css_newline(s[j - 1]) && !(s[j - 1] == '\n' && j - 1 > i
            && s[j - 2] == '\r') {
            1nat
        } else {
            0nat
        }
    }
}

/// `line + n`, held at `usize::MAX`.
pub open spec fn add_lines(line: usize, n: nat) -> usize {
    if line + n <= usize::MAX {
        (line + n) as usize
    } else {
        usize::MAX
    }
}

pub proof fn lemma_whitespace_end(s: Seq<char>, p: int)
    requires
        0 <= p <= s.len(),
    ensures
        p <= whitespace_end(s, p) <= s.len(),
        forall|k: int| p <= k < whitespace_end(s, p) ==> css_whitespace(#[trigger] s[k]),
        whitespace_end(s, p) < s.len() ==> !css_whitespace(s[whitespace_end(s, p)]),
    decreases s.len() - p,
{
    if p < s.len() && css_whitespace(s[p]) {
        lemma_whitespace_end(s, p + 1);
    }
}

pub proof fn lemma_digits_end(s: Seq<char>, p: int)
    requires
        0 <= p <= s.len(),
    ensures
        p <= digits_end(s, p) <= s.len(),
        forall|k: int| p <= k < digits_end(s, p) ==> ascii_digit(#[trigger] s[k]),
        digits_end(s, p) < s.len() ==> !ascii_digit(s[digits_end(s, p)]),
    decreases s.len() - p,
{
    if p < s.len() && ascii_digit(s[p]) {
        lemma_digits_end(s, p + 1);
    }
}

/// The index just past at most `budget` ASCII hex digits starting at `p`.
pub open spec fn hex_digits_end(s: Seq<char>, p: int, budget: int) -> int
    decreases budget,
{
    if budget > 0 && 0 <= p < s.len() && ascii_hex_digit(s[p]) {
        hex_digits_end(s, p + 1, budget - 1)
    } else {
        p
    }
}

/// The index just past a hex escape body at `p`: up to six hex digits and one optional
/// Unicode whitespace code point.
pub open spec fn hex_body_end(s: Seq<char>, p: int) -> int {
    let h = hex_digits_end(s, p, 6);
    if char_at(s, h) matches Some(c) && unicode_white_space(c) {
        h + 1
    } else {
        h
    }
}

/// Line-break code points in `s[i..j]`, each counted on its own.
pub open spec fn newline_count(s: Seq<char>, i: int, j: int) -> nat
    decreases j - i,
{
    if j <= i {
        0
    } else {
        newline_count(s, i, j - 1) + if css_newline(s[j - 1]) {
            1nat
        } else {
            0nat
        }
    }
}

/// The index of the first `*/` at or after `p`.
pub open spec fn comment_close(s: Seq<char>, p: int) -> Option<int>
    decreases s.len() - p,
{
    if p < 0 || p + 1 >= s.len() {
        None
    } else if s[p] == '*' && s[p + 1] == '/' {
        Some(p)
    } else {
        comment_close(s, p + 1)
    }
}

pub proof fn lemma_hex_digits_end(s: Seq<char>, p: int, budget: int)
    requires
        0 <= p <= s.len(),
        budget >= 0,
    ensures
        p <= hex_digits_end(s, p, budget) <= s.len(),
        hex_digits_end(s, p, budget) <= p + budget,
        forall|k: int| p <= k < hex_digits_end(s, p, budget) ==> ascii_hex_digit(#[trigger] s[k]),
    decreases budget,
{
    if budget > 0 && p < s.len() && ascii_hex_digit(s[p]) {
        lemma_hex_digits_end(s, p + 1, budget - 1);
    }
}

pub proof fn lemma_comment_close(s: Seq<char>, p: int)
    requires
        0 <= p,
    ensures
        comment_close(s, p) matches Some(k) ==> p <= k && k + 1 < s.len() && s[k] == '*' && s[k
            + 1] == '/',
        comment_close(s, p) is None ==> forall|k: int|
            p <= k && k + 1 < s.len() ==> !(#[trigger] s[k] == '*' && s[k + 1] == '/'),
    decreases s.len() - p,
{
    if p + 1 < s.len() && !(s[p] == '*' && s[p + 1] == '/') {
        lemma_comment_close(s, p + 1);
    }
}

pub open spec fn sign_at(s: Seq<char>, i: int) -> bool {
    char_at(s, i) == Some('+') || char_at(s, i) == Some('-')
}

pub open spec fn digit_at(s: Seq<char>, i: int) -> bool {
    char_at(s, i) matches Some(c) && ascii_digit(c)
}

/// Index of the first code point after an optional sign at `p`.
pub open spec fn mantissa_start(s: Seq<char>, p: int) -> int {
    if sign_at(s, p) {
        p + 1
    } else {
        p
    }
}

/// Whether a number starts at `p`: an optional sign, then a digit or a `.` and a digit.
pub open spec fn starts_number(s: Seq<char>, p: int) -> bool {
    let q = mantissa_start(s, p);
    (char_at(s, q) == Some('.') && digit_at(s, q + 1)) || digit_at(s, q)
}

/// The index just past the integer and fraction digits of a number starting at `p`.
pub open spec fn mantissa_end(s: Seq<char>, p: int) -> int {
    let q = mantissa_start(s, p);
    if char_at(s, q) == Some('.') && digit_at(s, q + 1) {
        digits_end(s, q + 1)
    } else {
        let d = digits_end(s, q);
        if char_at(s, d) == Some('.') && digit_at(s, d + 1) {
            digits_end(s, d + 1)
        } else {
            d
        }
    }
}

/// Whether an exponent (`e` or `E`, an optional sign, and a digit) starts at `m`.
pub open spec fn starts_exponent(s: Seq<char>, m: int) -> bool {
    (char_at(s, m) == Some('e') || char_at(s, m) == Some('E')) && (digit_at(s, m + 1) || (
    sign_at(s, m + 1) && digit_at(s, m + 2)))
}

/// The index just past a number (mantissa and optional exponent) starting at `p`.
pub open spec fn number_end(s: Seq<char>, p: int) -> int {
    let m = mantissa_end(s, p);
    if starts_exponent(s, m) {
        digits_end(
            s,
            if sign_at(s, m + 1) {
                m + 2
            } else {
                m + 1
            },
        )
    } else {
        m
    }
}

/// The index of the last code point of the escape at `p`: the hex body after the backslash
/// where a digit follows it, else the one code point after it.
pub open spec fn escape_last(s: Seq<char>, p: int) -> int {
    if char_at(s, p + 1) matches Some(d) && ascii_digit(d) {
        hex_body_end(s, p + 1) - 1
    } else {
        p + 1
    }
}

pub proof fn lemma_escape_last(s: Seq<char>, p: int)
    requires
        0 <= p,
        valid_escape_at(s, p),
    ensures
        p + 1 <= escape_last(s, p) < s.len(),
{
    if char_at(s, p + 1) matches Some(d) && ascii_digit(d) {
        lemma_hex_digits_end(s, p + 2, 5);
        assert(hex_digits_end(s, p + 1, 6) == hex_digits_end(s, p + 2, 5));
    }
}

/// Where the run of name code points and escapes that starts at `q` stops, and whether it
/// stopped on a backslash that starts no valid escape.
pub open spec fn name_run(s: Seq<char>, q: int) -> (int, bool)
    decreases s.len() - q,
{
    if 0 <= q < s.len() && ident_char(s[q]) {
        name_run(s, q + 1)
    } else if 0 <= q < s.len() && s[q] == '\\' {
        if valid_escape_at(s, q) {
            proof {
                lemma_escape_last(s, q);
            }
            name_run(s, escape_last(s, q) + 1)
        } else {
            (q, true)
        }
    } else {
        (q, false)
    }
}

/// Where the name run of an identifier that starts at `p` begins: past a leading `-` and the
/// code point or escape after it, past a first name-start code point, or past a first escape.
/// After `-` and an escape the run begins on the escape's last code point.
pub open spec fn ident_body_start(s: Seq<char>, p: int) -> int {
    if char_at(s, p) == Some('-') {
        match char_at(s, p + 1) {
            Some(c) => if c == '-' || ident_start_char(c) {
                p + 2
            } else {
                escape_last(s, p + 1)
            },
            None => p + 1,
        }
    } else if char_at(s, p) matches Some(c) && ident_start_char(c) {
        p + 1
    } else {
        escape_last(s, p) + 1
    }
}

pub proof fn lemma_name_run(s: Seq<char>, q: int)
    requires
        0 <= q <= s.len(),
    ensures
        q <= name_run(s, q).0 <= s.len(),
        name_run(s, q).1 ==> name_run(s, q).0 < s.len() && s[name_run(s, q).0] == '\\'
            && !valid_escape_at(s, name_run(s, q).0),
        !name_run(s, q).1 && name_run(s, q).0 < s.len() ==> !ident_char(s[name_run(s, q).0])
            && s[name_run(s, q).0] != '\\',
    decreases s.len() - q,
{
    if 0 <= q < s.len() && ident_char(s[q]) {
        lemma_name_run(s, q + 1);
    } else if 0 <= q < s.len() && s[q] == '\\' {
        if valid_escape_at(s, q) {
            lemma_escape_last(s, q);
            lemma_name_run(s, escape_last(s, q) + 1);
        }
    }
}

/// Where the name of a hash that continues at `q` stops: past name code points and valid
/// escapes.
pub open spec fn hash_run(s: Seq<char>, q: int) -> int
    decreases s.len() - q,
{
    if 0 <= q < s.len() && ident_char(s[q]) {
        hash_run(s, q + 1)
    } else if 0 <= q && valid_escape_at(s, q) {
        proof {
            lemma_escape_last(s, q);
        }
        hash_run(s, escape_last(s, q) + 1)
    } else {
        q
    }
}

/// Where the name of a hash at `p` continues after its first code point or escape; after an
/// escape it continues on the escape's last code point.
pub open spec fn hash_body_start(s: Seq<char>, p: int) -> int {
    if char_at(s, p + 1) matches Some(c) && ident_char(c) {
        p + 2
    } else {
        escape_last(s, p + 1)
    }
}

pub proof fn lemma_hash_run(s: Seq<char>, q: int)
    requires
        0 <= q <= s.len(),
    ensures
        q <= hash_run(s, q) <= s.len(),
        hash_run(s, q) < s.len() ==> !ident_char(s[hash_run(s, q)]) && !valid_escape_at(
            s,
            hash_run(s, q),
        ),
    decreases s.len() - q,
{
    if 0 <= q < s.len() && ident_char(s[q]) {
        lemma_hash_run(s, q + 1);
    } else if 0 <= q && valid_escape_at(s, q) {
        lemma_escape_last(s, q);
        lemma_hash_run(s, escape_last(s, q) + 1);
    }
}

/// The index just past the run of backslashes that starts at `q`.
pub open spec fn backslashes_end(s: Seq<char>, q: int) -> int
    decreases s.len() - q,
{
    if 0 <= q < s.len() && s[q] == '\\' {
        backslashes_end(s, q + 1)
    } else {
        q
    }
}

pub proof fn lemma_backslashes_end(s: Seq<char>, q: int)
    requires
        0 <= q <= s.len(),
    ensures
        q <= backslashes_end(s, q) <= s.len(),
        forall|k: int| q <= k < backslashes_end(s, q) ==> #[trigger] s[k] == '\\',
        backslashes_end(s, q) < s.len() ==> s[backslashes_end(s, q)] != '\\',
    decreases s.len() - q,
{
    if 0 <= q < s.len() && s[q] == '\\' {
        lemma_backslashes_end(s, q + 1);
    }
}

/// Where a string whose content continues at `q` ends, with quote `t`, and whether it is
/// closed: on the closing quote, or, for a bad string, on the last code point before an
/// unescaped line break or the end of the input. An odd run of backslashes escapes the code
/// point after it (a CR LF pair counting as one).
pub open spec fn string_end(s: Seq<char>, q: int, t: char) -> (int, bool)
    decreases s.len() - q,
{
    if q < 0 || q >= s.len() {
        (q - 1, false)
    } else if s[q] == '\\' {
        let b = backslashes_end(s, q);
        proof {
            lemma_backslashes_end(s, q + 1);
        }
        if (b - q) % 2 == 1 {
            if b >= s.len() {
                (b - 1, false)
            } else if s[b] == '\r' && char_at(s, b + 1) == Some('\n') {
                string_end(s, b + 2, t)
            } else {
                string_end(s, b + 1, t)
            }
        } else {
            string_end(s, b, t)
        }
    } else if s[q] == t {
        (q, true)
    } else if css_newline(s[q]) {
        (q - 1, false)
    } else {
        string_end(s, q + 1, t)
    }
}

/// The index of the first `)` at or after `q`, or the length of `s`.
pub open spec fn paren_close(s: Seq<char>, q: int) -> int
    decreases s.len() - q,
{
    if 0 <= q < s.len() && s[q] != ')' {
        paren_close(s, q + 1)
    } else {
        q
    }
}

pub proof fn lemma_paren_close(s: Seq<char>, q: int)
    requires
        0 <= q <= s.len(),
    ensures
        q <= paren_close(s, q) <= s.len(),
        paren_close(s, q) < s.len() ==> s[paren_close(s, q)] == ')',
    decreases s.len() - q,
{
    if 0 <= q < s.len() && s[q] != ')' {
        lemma_paren_close(s, q + 1);
    }
}

/// Where the remnants of a bad URL from `q` end: on the next `)`, or on the last code point.
pub open spec fn bad_url_end(s: Seq<char>, q: int) -> int {
    if paren_close(s, q) < s.len() {
        paren_close(s, q)
    } else {
        s.len() - 1
    }
}

/// Where the content of an unquoted URL that continues at `q` ends, and whether it is a good
/// URL: on its `)` (or the last code point at the end of the input), or, for a bad URL, where
/// its remnants end. Whitespace may only trail the content; quotes, `(`, invalid escapes and
/// non-printable code points make it bad.
pub open spec fn url_body(s: Seq<char>, q: int) -> (int, bool)
    decreases s.len() - q,
{
    if q < 0 || q >= s.len() {
        (q - 1, true)
    } else if s[q] == ')' {
        (q, true)
    } else if css_whitespace(s[q]) {
        let w = whitespace_end(s, q);
        if w >= s.len() {
            (w - 1, true)
        } else if s[w] == ')' {
            (w, true)
        } else {
            (bad_url_end(s, w), false)
        }
    } else if s[q] == '"' || s[q] == '\'' || s[q] == '(' {
        (bad_url_end(s, q), false)
    } else if s[q] == '\\' {
        if valid_escape_at(s, q) {
            proof {
                lemma_escape_last(s, q);
            }
            url_body(s, escape_last(s, q) + 1)
        } else {
            (bad_url_end(s, q), false)
        }
    } else if !css_printable(s[q]) {
        (bad_url_end(s, q), false)
    } else {
        url_body(s, q + 1)
    }
}

/// Where a URL whose `(` is at `p` ends, and whether it is a good URL.
pub open spec fn url_end(s: Seq<char>, p: int) -> (int, bool) {
    let w = whitespace_end(s, p + 1);
    if char_at(s, w) == Some('"') || char_at(s, w) == Some('\'') {
        (bad_url_end(s, w), false)
    } else {
        url_body(s, w)
    }
}

/// The line breaks that the remnants of a bad URL from `q` hold, each CR and each LF
/// counted.
pub open spec fn bad_url_lines(s: Seq<char>, q: int) -> nat {
    newline_count(s, q, paren_close(s, q))
}

/// The line breaks that the content of an unquoted URL from `q` holds, as the lexer counts
/// them: in its whitespace and its remnants, not inside escapes.
pub open spec fn url_body_lines(s: Seq<char>, q: int) -> nat
    decreases s.len() - q,
{
    if q < 0 || q >= s.len() || s[q] == ')' {
        0
    } else if css_whitespace(s[q]) {
        let w = whitespace_end(s, q);
        newline_count(s, q, w) + if w >= s.len() || s[w] == ')' {
            0
        } else {
            bad_url_lines(s, w)
        }
    } else if s[q] == '"' || s[q] == '\'' || s[q] == '(' {
        bad_url_lines(s, q)
    } else if s[q] == '\\' {
        if valid_escape_at(s, q) {
            proof {
                lemma_escape_last(s, q);
            }
            url_body_lines(s, escape_last(s, q) + 1)
        } else {
            bad_url_lines(s, q)
        }
    } else if !css_printable(s[q]) {
        bad_url_lines(s, q)
    } else {
        url_body_lines(s, q + 1)
    }
}

/// The line breaks that the lexer counts in a URL whose `(` is at `p`.
pub open spec fn url_lines(s: Seq<char>, p: int) -> nat {
    let w = whitespace_end(s, p + 1);
    newline_count(s, p + 1, w) + if char_at(s, w) == Some('"') || char_at(s, w) == Some('\'') {
        bad_url_lines(s, w)
    } else {
        url_body_lines(s, w)
    }
}

/// Counting `a` lines and then `b` more is counting `a + b`, held at `usize::MAX` either way.
pub proof fn lemma_add_lines(line: usize, a: nat, b: nat)
    ensures
        add_lines(add_lines(line, a), b) == add_lines(line, a + b),
{
}

/// The token kind of a code point that is a lexeme on its own.
pub open spec fn punctuation_kind(c: char) -> Option<TokenKind> {
    if c == '{' {
        Some(TokenKind::CURLY_OPEN)
    } else if c == '}' {
        Some(TokenKind::CURLY_CLOSE)
    } else if c == '[' {
        Some(TokenKind::BRACKET_OPEN)
    } else if c == ']' {
        Some(TokenKind::BRACKET_CLOSE)
    } else if c == '(' {
        Some(TokenKind::PAREN_OPEN)
    } else if c == ')' {
        Some(TokenKind::PAREN_CLOSE)
    } else if c == ';' {
        Some(TokenKind::SEMICOLON)
    } else if c == ':' {
        Some(TokenKind::COLON)
    } else if c == ',' {
        Some(TokenKind::COMMA)
    } else {
        None
    }
}

/// What a lexeme gives: a token of some kind, nothing (a comment), or an error.
pub enum Lexeme {
    Token(TokenKind),
    Comment,
    Error,
}

/// A number at `p`: a percentage, a dimension (a number and a name), or a plain number; and
/// the index of the code point on which the cursor stops.
pub open spec fn number_lexeme(s: Seq<char>, p: int) -> (Lexeme, int) {
    let n = number_end(s, p);
    if char_at(s, n) == Some('%') {
        (Lexeme::Token(TokenKind::PERCENTAGE), n)
    } else if starts_ident(s, n) {
        let run = name_run(s, ident_body_start(s, n));
        (if run.1 { Lexeme::Error } else { Lexeme::Token(TokenKind::DIMENSION) }, run.0 - 1)
    } else {
        (Lexeme::Token(TokenKind::NUMBER), n - 1)
    }
}

/// Whether `s` continues with `lit` at `p`.
pub open spec fn continues_with(s: Seq<char>, p: int, lit: Seq<char>) -> bool {
    0 <= p && p + lit.len() <= s.len() && s.subrange(p, p + lit.len()) == lit
}

/// Whether `url(` starts at `p`, in any ASCII case.
pub open spec fn starts_url(s: Seq<char>, p: int) -> bool {
    &&& (char_at(s, p) == Some('u') || char_at(s, p) == Some('U'))
    &&& (char_at(s, p + 1) == Some('r') || char_at(s, p + 1) == Some('R'))
    &&& (char_at(s, p + 2) == Some('l') || char_at(s, p + 2) == Some('L'))
    &&& char_at(s, p + 3) == Some('(')
}

/// The lexemes that no single code point `c` at `p` decides, tried in this order: CDO, CDC,
/// a URL, a function or an identifier, a signed number, `!important`, a hash, a delimiter.
pub open spec fn other_lexeme(s: Seq<char>, p: int, c: char) -> (Lexeme, int) {
    if continues_with(s, p, seq!['<', '!', '-', '-']) {
        (Lexeme::Token(TokenKind::CDO), p + 3)
    } else if continues_with(s, p, seq!['-', '-', '>']) {
        (Lexeme::Token(TokenKind::CDC), p + 2)
    } else if starts_url(s, p) {
        let end = url_end(s, p + 3);
        (Lexeme::Token(if end.1 { TokenKind::URL } else { TokenKind::BAD_URL }), end.0)
    } else if starts_ident(s, p) {
        let run = name_run(s, ident_body_start(s, p));
        if run.1 {
            (Lexeme::Error, run.0 - 1)
        } else if char_at(s, run.0) == Some('(') {
            (Lexeme::Token(TokenKind::FUNCTION), run.0)
        } else {
            (Lexeme::Token(TokenKind::IDENT), run.0 - 1)
        }
    } else if c == '-' && starts_number(s, p) {
        number_lexeme(s, p)
    } else if continues_with(
        s,
        p,
        seq!['!', 'i', 'm', 'p', 'o', 'r', 't', 'a', 'n', 't'],
    ) {
        (Lexeme::Token(TokenKind::IMPORTANT_TOKEN), p + 9)
    } else if c == '#' && ((char_at(s, p + 1) matches Some(d) && ident_char(d)) || valid_escape_at(
        s,
        p + 1,
    )) {
        (
            Lexeme::Token(
                if starts_ident(s, p + 1) {
                    TokenKind::ID_HASH
                } else {
                    TokenKind::GENERIC_HASH
                },
            ),
            hash_run(s, hash_body_start(s, p)) - 1,
        )
    } else {
        (Lexeme::Token(TokenKind::DELIM(c)), p)
    }
}

/// Where the cursor stops in a comment from `p` that is never closed: on a `*` that ends the
/// input, else past the end.
pub open spec fn open_comment_end(s: Seq<char>, p: int) -> int {
    if p < s.len() && s.last() == '*' {
        s.len() - 1
    } else {
        s.len() as int
    }
}

/// What the lexeme that starts at `p` (a code point of `s`) gives, and the index of the code
/// point on which the cursor stops (past the end only for a comment that is never closed).
pub open spec fn lexeme(s: Seq<char>, p: int) -> (Lexeme, int) {
    let c = s[p];
    if css_whitespace(c) {
        (Lexeme::Token(TokenKind::WHITESPACE), whitespace_end(s, p) - 1)
    } else if c == '"' || c == '\'' {
        let end = string_end(s, p + 1, c);
        (Lexeme::Token(if end.1 { TokenKind::STRING } else { TokenKind::BAD_STRING }), end.0)
    } else if punctuation_kind(c) is Some {
        (Lexeme::Token(punctuation_kind(c)->0), p)
    } else if c == '/' {
        if char_at(s, p + 1) == Some('*') {
            match comment_close(s, p) {
                Some(k) => (Lexeme::Comment, k + 1),
                None => (Lexeme::Error, open_comment_end(s, p)),
            }
        } else {
            (Lexeme::Token(TokenKind::SLASH), p)
        }
    } else if c == '+' || c == '.' {
        if starts_number(s, p) {
            number_lexeme(s, p)
        } else {
            (Lexeme::Token(TokenKind::DELIM(c)), p)
        }
    } else if ascii_digit(c) {
        number_lexeme(s, p)
    } else if c == '\\' {
        if valid_escape_at(s, p) {
            (Lexeme::Token(TokenKind::ESCAPE), escape_last(s, p))
        } else {
            (Lexeme::Error, p)
        }
    } else if c == '@' {
        if starts_ident(s, p + 1) {
            let run = name_run(s, ident_body_start(s, p + 1));
            (if run.1 { Lexeme::Error } else { Lexeme::Token(TokenKind::AT_KEYWORD) }, run.0 - 1)
        } else {
            (Lexeme::Token(TokenKind::DELIM('@')), p)
        }
    } else {
        other_lexeme(s, p, c)
    }
}

/// How many lines the lexeme that starts at `p` adds to the line counter.
pub open spec fn lexeme_lines(s: Seq<char>, p: int) -> nat {
    let c = s[p];
    if css_whitespace(c) {
        line_breaks(s, p, whitespace_end(s, p))
    } else if c == '/' && char_at(s, p + 1) == Some('*') {
        match comment_close(s, p) {
            Some(k) => newline_count(s, p, k),
            None => newline_count(s, p, open_comment_end(s, p)),
        }
    } else if starts_url(s, p) {
        url_lines(s, p + 3)
    } else {
        0
    }
}

pub proof fn lemma_string_end(s: Seq<char>, q: int, t: char)
    requires
        0 <= q,
    ensures
        q - 1 <= string_end(s, q, t).0,
    decreases s.len() - q,
{
    if q < s.len() {
        if s[q] == '\\' {
            let b = backslashes_end(s, q);
            lemma_backslashes_end(s, q);
            if (b - q) % 2 == 1 {
                if b < s.len() {
                    if s[b] == '\r' && char_at(s, b + 1) == Some('\n') {
                        lemma_string_end(s, b + 2, t);
                    } else {
                        lemma_string_end(s, b + 1, t);
                    }
                }
            } else {
                lemma_string_end(s, b, t);
            }
        } else if s[q] != t && !css_newline(s[q]) {
            lemma_string_end(s, q + 1, t);
        }
    }
}

pub proof fn lemma_url_body(s: Seq<char>, q: int)
    requires
        0 <= q,
    ensures
        q - 1 <= url_body(s, q).0,
    decreases s.len() - q,
{
    if q < s.len() {
        lemma_paren_close(s, q);
        if css_whitespace(s[q]) {
            lemma_whitespace_end(s, q);
            lemma_paren_close(s, whitespace_end(s, q));
        } else if s[q] == '\\' && valid_escape_at(s, q) {
            lemma_escape_last(s, q);
            lemma_url_body(s, escape_last(s, q) + 1);
        } else if !(s[q] == ')' || s[q] == '"' || s[q] == '\'' || s[q] == '(' || s[q] == '\\'
            || !css_printable(s[q])) {
            lemma_url_body(s, q + 1);
        }
    }
}

/// Where the name of an identifier that starts at `p` begins, it begins after `p` and
/// within `s`.
pub proof fn lemma_ident_body_start(s: Seq<char>, p: int)
    requires
        0 <= p,
        starts_ident(s, p),
    ensures
        p + 1 <= ident_body_start(s, p) <= s.len(),
{
    if char_at(s, p) == Some('-') {
        if !(s[p + 1] == '-' || ident_start_char(s[p + 1])) {
            lemma_escape_last(s, p + 1);
        }
    } else if !(char_at(s, p) matches Some(c) && ident_start_char(c)) {
        lemma_escape_last(s, p);
    }
}

/// A number that starts at `p` ends after it.
pub proof fn lemma_number_end(s: Seq<char>, p: int)
    requires
        0 <= p,
        starts_number(s, p),
    ensures
        p < number_end(s, p) <= s.len(),
{
    let q = mantissa_start(s, p);
    if char_at(s, q) == Some('.') && digit_at(s, q + 1) {
        lemma_digits_end(s, q + 1);
        lemma_digits_end(s, q + 2);
    } else {
        lemma_digits_end(s, q);
        lemma_digits_end(s, q + 1);
        let d = digits_end(s, q);
        if char_at(s, d) == Some('.') && digit_at(s, d + 1) {
            lemma_digits_end(s, d + 1);
        }
    }
    let m = mantissa_end(s, p);
    if starts_exponent(s, m) {
        lemma_digits_end(s, m + 1);
        if sign_at(s, m + 1) {
            lemma_digits_end(s, m + 2);
        }
    }
}

/// The lexer never moves back: a lexeme stops at or after where it starts.
pub proof fn lemma_lexeme_progress(s: Seq<char>, p: int)
    requires
        0 <= p < s.len(),
    ensures
        p <= lexeme(s, p).1,
{
    let c = s[p];
    if css_whitespace(c) {
        lemma_whitespace_end(s, p + 1);
    } else if c == '"' || c == '\'' {
        lemma_string_end(s, p + 1, c);
    } else if punctuation_kind(c) is Some {
    } else if c == '/' {
        lemma_comment_close(s, p);
    } else if c == '+' || c == '.' || ascii_digit(c) || (c != '\\' && c != '@'
        && !continues_with(s, p, seq!['<', '!', '-', '-']) && !continues_with(
        s,
        p,
        seq!['-', '-', '>'],
    ) && !starts_url(s, p) && !starts_ident(s, p) && c == '-' && starts_number(s, p)) {
        if starts_number(s, p) {
            let n = number_end(s, p);
            lemma_number_end(s, p);
            if char_at(s, n) != Some('%') && starts_ident(s, n) {
                lemma_ident_body_start(s, n);
                lemma_name_run(s, ident_body_start(s, n));
            }
        }
    } else if c == '\\' {
        if valid_escape_at(s, p) {
            lemma_escape_last(s, p);
        }
    } else if c == '@' {
        if starts_ident(s, p + 1) {
            lemma_ident_body_start(s, p + 1);
            lemma_name_run(s, ident_body_start(s, p + 1));
        }
    } else if continues_with(s, p, seq!['<', '!', '-', '-']) || continues_with(
        s,
        p,
        seq!['-', '-', '>'],
    ) {
    } else if starts_url(s, p) {
        let w = whitespace_end(s, p + 4);
        lemma_whitespace_end(s, p + 4);
        lemma_paren_close(s, w);
        lemma_url_body(s, w);
    } else if starts_ident(s, p) {
        lemma_ident_body_start(s, p);
        lemma_name_run(s, ident_body_start(s, p));
    } else if c == '#' && ((char_at(s, p + 1) matches Some(d) && ident_char(d)) || valid_escape_at(
        s,
        p + 1,
    )) {
        if !(char_at(s, p + 1) matches Some(d) && ident_char(d)) {
            lemma_escape_last(s, p + 1);
        }
        lemma_hash_run(s, hash_body_start(s, p));
    }
}

/// A token as its kind, its byte span and its line.
pub open spec fn token_views(tokens: Seq<Token>) -> Seq<(TokenKind, LexerSpan, usize)> {
    tokens.map_values(|t: Token| (t.kind, t.span, t.line))
}

/// The tokens that lexing `s` from index `p` on gives, with the line counter at `line` before
/// it, and the line counter after. Each lexeme in turn adds its token (a comment or an error
/// adds none), spanning the byte offsets of its first and last code point, on the line that
/// the counter shows after it; the next lexeme starts after the code point it stopped on.
pub open spec fn lex_from(s: Seq<char>, p: int, line: usize) -> (
    Seq<(TokenKind, LexerSpan, usize)>,
    usize,
)
    decreases s.len() - p,
{
    if p < 0 || p >= s.len() {
        (seq![], line)
    } else {
        proof {
            lemma_lexeme_progress(s, p);
        }
        let last = lexeme(s, p).1;
        let after = add_lines(line, lexeme_lines(s, p));
        let rest = lex_from(
            s,
            if last < s.len() {
                last + 1
            } else {
                s.len() as int
            },
            after,
        );
        match lexeme(s, p).0 {
            Lexeme::Token(kind) => (
                seq![(kind, LexerSpan(byte_offset(s, p) as usize, byte_offset(s, last) as usize), after)]
                    + rest.0,
                rest.1,
            ),
            _ => rest,
        }
    }
}

/// One lexeme of `lex_from`: lexing from `q` with `line` is the lexeme's token, if any, then
/// lexing from where the cursor goes next with the line counter after the lexeme.
pub proof fn lemma_lex_step(
    s: Seq<char>,
    q: int,
    line: usize,
    before: Seq<Token>,
    after: Seq<Token>,
    next: int,
    next_line: usize,
)
    requires
        0 <= q < s.len(),
        lexeme(s, q).1 <= s.len(),
        next == if lexeme(s, q).1 < s.len() {
            lexeme(s, q).1 + 1
        } else {
            s.len() as int
        },
        next_line == add_lines(line, lexeme_lines(s, q)),
        match lexeme(s, q).0 {
            Lexeme::Token(kind) => {
                &&& after.len() == before.len() + 1
                &&& after.drop_last() == before
                &&& after.last().kind == kind
                &&& after.last().span == LexerSpan(
                    byte_offset(s, q) as usize,
                    byte_offset(s, lexeme(s, q).1) as usize,
                )
                &&& after.last().line == next_line
            },
            _ => after == before,
        },
    ensures
        token_views(after) + lex_from(s, next, next_line).0 == token_views(before) + lex_from(
            s,
            q,
            line,
        ).0,
        lex_from(s, next, next_line).1 == lex_from(s, q, line).1,
{
    lemma_lexeme_progress(s, q);
    let last = lexeme(s, q).1;
    let rest = lex_from(s, next, next_line);
    if let Lexeme::Token(kind) = lexeme(s, q).0 {
        let v = (kind, LexerSpan(byte_offset(s, q) as usize, byte_offset(s, last) as usize), next_line);
        assert(after == before.push(after.last()));
        assert(token_views(after) =~= token_views(before).push(v));
        assert(token_views(before).push(v) + rest.0 =~= token_views(before) + (seq![v] + rest.0));
    }
}

/// Whether byte offset `b` is where a code point of `s` starts.
pub open spec fn code_point_offset(s: Seq<char>, b: int) -> bool {
    exists|k: int| 0 <= k < s.len() && byte_offset(s, k) == b
}

/// The tokens that `scan` produces from `s`: every token but the last covers code points of
/// `s` (its span holds the offsets of its first and last code point), the tokens appear in
/// input order without overlapping, their line numbers never decrease, and the last token is
/// the only `EOF`, spanning the empty end of the input.
pub open spec fn well_spanned(s: Seq<char>, tokens: Seq<Token>) -> bool {
    &&& tokens.len() >= 1
    &&& tokens.last().kind == TokenKind::EOF
    &&& tokens.last().span == LexerSpan(byte_len(s) as usize, byte_len(s) as usize)
    &&& forall|i: int| 0 <= i < tokens.len() - 1 ==> #[trigger] tokens[i].kind != TokenKind::EOF
    &&& forall|i: int|
        0 <= i < tokens.len() - 1 ==> {
            &&& tokens[i].span.0 <= tokens[i].span.1 < byte_len(s)
            &&& code_point_offset(s, tokens[i].span.0 as int)
            &&& code_point_offset(s, #[trigger] tokens[i].span.1 as int)
        }
    &&& forall|i: int, j: int|
        0 <= i < j < tokens.len() - 1 ==> #[trigger] tokens[i].span.1 < #[trigger] tokens[j].span.0
    &&& forall|i: int, j: int|
        0 <= i < j < tokens.len() ==> #[trigger] tokens[i].line <= #[trigger] tokens[j].line
}

impl<'a> Lexer<'a> {
    /// The input as code points.
    pub open spec fn src(&self) -> Seq<char> {
        self.input@
    }

    /// The cursor as an index in code points.
    pub open spec fn pos(&self) -> int {
        self.last_size_memo@.len() as int
    }

    /// The code point `n` places after the cursor.
    pub open spec fn at(&self, n: int) -> Option<char> {
        char_at(self.src(), self.pos() + n)
    }

    pub closed spec fn wf(&self) -> bool {
        &&& self.chars@ == self.input@
        &&& byte_len(self.input@) <= usize::MAX
        &&& self.last_size_memo@.len() <= self.chars@.len()
        &&& forall|k: int|
            0 <= k < self.last_size_memo@.len() ==> #[trigger] self.last_size_memo@[k]
                == utf8_width(self.chars@[k])
        &&& self.current == byte_offset(self.chars@, self.pos())
        &&& self.line >= 1
    }

    /// Everything but the cursor and the line counter stays as it was.
    pub open spec fn same_frame(&self, old: &Self) -> bool {
        &&& self.input == old.input
        &&& self.start == old.start
        &&& self.line >= old.line
    }

    /// The last token is `kind`, spanning from the lexeme start to the cursor.
    pub open spec fn pushed(&self, old: &Self, kind: TokenKind) -> bool {
        &&& self.tokens@.len() == old.tokens@.len() + 1
        &&& self.tokens@.drop_last() == old.tokens@
        &&& self.tokens@.last().kind == kind
        &&& self.tokens@.last().literal is None
        &&& self.tokens@.last().span == LexerSpan(self.start, self.current)
        &&& self.tokens@.last().line == self.line
    }

    /// `pushed` when `collect` holds, and no new token otherwise.
    pub open spec fn emitted(&self, old: &Self, collect: bool, kind: TokenKind) -> bool {
        if collect {
            self.pushed(old, kind)
        } else {
            self.tokens@ == old.tokens@
        }
    }

    pub proof fn lemma_wf_facts(&self)
        requires
            self.wf(),
        ensures
            self.pos() <= self.src().len(),
            self.current == byte_offset(self.src(), self.pos()),
            byte_len(self.src()) <= usize::MAX,
    {
    }

    /// `last_size_memo` holds the UTF-8 width of each code point before the cursor, in order.
    pub proof fn lemma_memo_widths(&self)
        requires
            self.wf(),
        ensures
            forall|k: int|
                0 <= k < self.pos() ==> #[trigger] self.last_size_memo@[k] == utf8_width(
                    self.src()[k],
                ),
    {
    }

    pub fn new(input: &'a str) -> (lexer: Self)
        ensures
            lexer.wf(),
            lexer.input == input,
            lexer.pos() == 0,
            lexer.current == 0,
            lexer.start == 0,
            lexer.line == 1,
            lexer.tokens@.len() == 0,
    {
        let byte_count = input.as_bytes().len();
        let mut chars: Vec<char> = Vec::new();
        proof {
            broadcast use vstd::string::group_string_axioms;
        }
        for c in iter: input.chars()
            invariant
                chars@ == iter.seq().take(iter.index() as int),
        {
            chars.push(c);
        }
        proof {
            broadcast use vstd::string::group_string_axioms;
            assert(chars@ =~= input@);
        }
        proof {
            lemma_byte_len_encoding(input@);
            assert(byte_count == vstd::utf8::encode_utf8(input@).len());
        }
        Self {
            input,
            chars,
            start: 0,
            line: 1,
            current: 0,
            tokens: Vec::new(),
            last_size_memo: Vec::new(),
        }
    }

    pub fn is_newline(&self, cmp: char) -> (r: bool)
        ensures
            r == css_newline(cmp),
    {
        is_newline_char(cmp)
    }

    pub fn at_end(&self) -> (r: bool)
        requires
            self.wf(),
        ensures
            r == (self.pos() >= self.src().len()),
    {
        self.last_size_memo.len() >= self.chars.len()
    }

    /// Moves the cursor over one code point, unless it is at the end of the input.
    pub fn advance(&mut self)
        requires
            old(self).wf(),
        ensures
            final(self).wf(),
            final(self).same_frame(old(self)),
            final(self).line == old(self).line,
            final(self).tokens == old(self).tokens,
            final(self).pos() == if old(self).pos() < old(self).src().len() {
                old(self).pos() + 1
            } else {
                old(self).pos()
            },
            final(self).last_size_memo@ == if old(self).pos() < old(self).src().len() {
                old(self).last_size_memo@.push(utf8_width(old(self).src()[old(self).pos()]) as usize)
            } else {
                old(self).last_size_memo@
            },
            final(self).current == byte_offset(final(self).src(), final(self).pos()),
    {
        let pos = self.last_size_memo.len();
        if pos < self.chars.len() {
            let pop = self.chars[pos];
            let len = len_utf8(pop);
            proof {
                lemma_byte_offset_mono(self.chars@, pos + 1, self.chars@.len() as int);
            }
            self.current = self.current + len;
            self.last_size_memo.push(len);
            proof {
                assert(self.last_size_memo@.drop_last() == old(self).last_size_memo@);
            }
        }
    }

    /// Moves the cursor back over the last code point it advanced over.
    pub fn step_back(&mut self)
        requires
            old(self).wf(),
        ensures
            final(self).wf(),
            final(self).same_frame(old(self)),
            final(self).line == old(self).line,
            final(self).tokens == old(self).tokens,
            final(self).pos() == if old(self).pos() > 0 {
                old(self).pos() - 1
            } else {
                0
            },
            final(self).last_size_memo@ == if old(self).pos() > 0 {
                old(self).last_size_memo@.drop_last()
            } else {
                old(self).last_size_memo@
            },
            final(self).current == byte_offset(final(self).src(), final(self).pos()),
    {
        if let Some(pop) = self.last_size_memo.pop() {
            proof {
                assert(self.last_size_memo@ == old(self).last_size_memo@.drop_last());
                assert(pop == old(self).last_size_memo@[old(self).pos() - 1]);
            }
            self.current = self.current - pop;
        }
    }

    pub fn peek(&self) -> (r: Option<char>)
        requires
            self.wf(),
        ensures
            r == self.at(0),
    {
        let pos = self.last_size_memo.len();
        if pos < self.chars.len() {
            Some(self.chars[pos])
        } else {
            None
        }
    }

    /// The code point after the one under the cursor, which must be `pop`.
    pub fn peek_next(&self, pop: char) -> (r: Option<char>)
        requires
            self.wf(),
            self.at(0) == Some(pop),
        ensures
            r == self.at(1),
    {
        self.peek_n(1)
    }

    /// The code point two places after the cursor, whose code point must be `pop`.
    pub fn peek_next_next(&self, pop: char) -> (r: Option<char>)
        requires
            self.wf(),
            self.at(0) == Some(pop),
        ensures
            r == self.at(2),
    {
        if let Some(next) = self.peek_n(1) {
            if let Some(next_next) = self.peek_n(2) {
                return Some(next_next);
            }
            return None;
        }
        None
    }

    pub fn peek_n(&self, n: usize) -> (r: Option<char>)
        requires
            self.wf(),
        ensures
            r == self.at(n as int),
    {
        let pos = self.last_size_memo.len();
        if n < self.chars.len() - pos {
            Some(self.chars[pos + n])
        } else {
            None
        }
    }

    /// The code point before the cursor, forgetting its width. The byte offset stays where it
    /// is, so the lexer is no longer well formed afterwards: only a caller that restores the
    /// width may use it.
    #[allow(dead_code)]
    fn lookback(&mut self) -> (r: Option<char>)
        requires
            old(self).wf(),
        ensures
            final(self).input == old(self).input,
            final(self).chars == old(self).chars,
            final(self).current == old(self).current,
            final(self).tokens == old(self).tokens,
            old(self).pos() > 0 ==> final(self).last_size_memo@ == old(self).last_size_memo@.drop_last()
                && r == Some(old(self).src()[old(self).pos() - 1]),
            old(self).pos() == 0 ==> final(self).last_size_memo@ == old(self).last_size_memo@ && r is None,
    {
        let pos = self.last_size_memo.len();
        if let Some(_) = self.last_size_memo.pop() {
            proof {
                assert(self.last_size_memo@ =~= old(self).last_size_memo@.drop_last());
            }
            return Some(self.chars[pos - 1]);
        }
        None
    }

    /// Advances over `cmp` if it is the code point under the cursor.
    pub fn catch_match(&mut self, cmp: char) -> (r: bool)
        requires
            old(self).wf(),
        ensures
            final(self).wf(),
            final(self).same_frame(old(self)),
            final(self).line == old(self).line,
            final(self).tokens == old(self).tokens,
            r == (old(self).at(0) == Some(cmp)),
            final(self).pos() == old(self).pos() + if r { 1int } else { 0 },
    {
        if self.at_end() {
            return false;
        }
        let pop = self.chars[self.last_size_memo.len()];
        if pop != cmp {
            return false;
        }
        self.advance();
        true
    }

    /// Returns to a cursor position recorded earlier.
    pub fn backtrack(&mut self, branch_point: usize, memo_point: usize)
        requires
            old(self).wf(),
            memo_point <= old(self).pos(),
            branch_point == byte_offset(old(self).src(), memo_point as int),
        ensures
            final(self).wf(),
            final(self).same_frame(old(self)),
            final(self).line == old(self).line,
            final(self).tokens == old(self).tokens,
            final(self).pos() == memo_point,
    {
        self.current = branch_point;
        self.last_size_memo.truncate(memo_point);
    }

    pub fn add_token(&mut self, token: Token)
        requires
            old(self).wf(),
        ensures
            final(self).wf(),
            final(self).same_frame(old(self)),
            final(self).line == old(self).line,
            final(self).pos() == old(self).pos(),
            final(self).current == old(self).current,
            final(self).tokens@ == old(self).tokens@.push(token),
    {
        self.tokens.push(token);
    }

    /// Adds a token of `kind` spanning from the lexeme start to the cursor.
    fn emit(&mut self, kind: TokenKind)
        requires
            old(self).wf(),
        ensures
            final(self).wf(),
            final(self).same_frame(old(self)),
            final(self).line == old(self).line,
            final(self).pos() == old(self).pos(),
            final(self).current == old(self).current,
            final(self).pushed(old(self), kind),
    {
        let token = Token::new(kind, self.line, LexerSpan(self.start, self.current));
        self.add_token(token);
        proof {
            assert(self.tokens@.drop_last() == old(self).tokens@);
        }
    }

    /// Counts one more line.
    fn new_line(&mut self)
        requires
            old(self).wf(),
        ensures
            final(self).wf(),
            final(self).input == old(self).input,
            final(self).start == old(self).start,
            final(self).pos() == old(self).pos(),
            final(self).current == old(self).current,
            final(self).tokens == old(self).tokens,
            old(self).line < usize::MAX ==> final(self).line == old(self).line + 1,
            old(self).line == usize::MAX ==> final(self).line == old(self).line,
    {
        if self.line < usize::MAX {
            self.line = self.line + 1;
        }
    }

    /// Consumes a run of CSS whitespace, counting line breaks (CR LF once), and stops on its
    /// last code point.
    pub fn whitespace(&mut self, collect: bool) -> (r: Result<(), LexerError>)
        requires
            old(self).wf(),
        ensures
            final(self).wf(),
            final(self).same_frame(old(self)),
            r is Ok <==> (old(self).at(0) matches Some(c) && css_whitespace(c)),
            r is Ok ==> {
                &&& final(self).pos() == whitespace_end(old(self).src(), old(self).pos()) - 1
                &&& final(self).line == add_lines(
                    old(self).line,
                    line_breaks(
                        old(self).src(),
                        old(self).pos(),
                        whitespace_end(old(self).src(), old(self).pos()),
                    ),
                )
                &&& final(self).emitted(old(self), collect, TokenKind::WHITESPACE)
            },
            r matches Err(e) ==> {
                &&& e.reason == LexerErrorReason::NO_MATCH
                &&& final(self).pos() == old(self).pos()
                &&& final(self).line == old(self).line
                &&& final(self).tokens == old(self).tokens
            },
    {
        let ghost s = self.src();
        let ghost p = self.pos();
        let mut should_align = false;
        loop
            invariant_except_break
                self.wf(),
                self.same_frame(old(self)),
                self.tokens == old(self).tokens,
                s == self.src(),
                p == old(self).pos(),
                p <= self.pos() <= s.len(),
                should_align == (self.pos() > p),
                whitespace_end(s, self.pos()) == whitespace_end(s, p),
                self.line == add_lines(old(self).line, line_breaks(s, p, self.pos())),
                !(self.pos() > p && s[self.pos() - 1] == '\r' && self.at(0) == Some('\n')),
            ensures
                self.wf(),
                self.same_frame(old(self)),
                self.tokens == old(self).tokens,
                p <= self.pos() <= s.len(),
                should_align == (self.pos() > p),
                self.pos() == whitespace_end(s, p),
                self.line == add_lines(old(self).line, line_breaks(s, p, self.pos())),
            decreases s.len() - self.pos(),
        {
            let x = match self.peek() {
                Some(x) => x,
                None => break,
            };
            if !is_css_whitespace(x) {
                break;
            }
            should_align = true;
            let ghost q = self.pos();
            if x == '\r' && self.peek_next('\r') == Some('\n') {
                self.advance();
                self.advance();
                self.new_line();
                assert(whitespace_end(s, q) == whitespace_end(s, q + 1));
                assert(whitespace_end(s, q + 1) == whitespace_end(s, q + 2));
                assert(line_breaks(s, p, q + 1) == line_breaks(s, p, q) + 1);
                assert(line_breaks(s, p, q + 2) == line_breaks(s, p, q + 1));
            } else {
                if self.is_newline(x) {
                    self.new_line();
                }
                self.advance();
                assert(line_breaks(s, p, q + 1) == line_breaks(s, p, q) + if css_newline(x) {
                    1nat
                } else {
                    0nat
                });
            }
        }
        proof {
            lemma_whitespace_end(s, p);
        }
        if should_align {
            self.step_back();
            if collect {
                self.emit(TokenKind::WHITESPACE);
            }
            return Ok(());
        }
        Err(LexerError::new(
            LexerErrorReason::NO_MATCH,
            self.line,
            LexerSpan(self.start, self.current),
        ))
    }

    /// Consumes a run of ASCII digits and stops on the last one.
    pub fn digit(&mut self, collect: bool) -> (r: Result<(), LexerError>)
        requires
            old(self).wf(),
        ensures
            final(self).wf(),
            final(self).same_frame(old(self)),
            final(self).line == old(self).line,
            r is Ok,
            digits_end(old(self).src(), old(self).pos()) > old(self).pos() ==> {
                &&& final(self).pos() == digits_end(old(self).src(), old(self).pos()) - 1
                &&& final(self).emitted(old(self), collect, TokenKind::DIGIT_TOKEN)
            },
            digits_end(old(self).src(), old(self).pos()) == old(self).pos() ==> {
                &&& final(self).pos() == old(self).pos()
                &&& final(self).tokens == old(self).tokens
            },
    {
        let ghost s = self.src();
        let ghost p = self.pos();
        proof {
            lemma_digits_end(s, p);
        }
        let mut should_align = false;
        loop
            invariant_except_break
                self.wf(),
                self.same_frame(old(self)),
                self.line == old(self).line,
                self.tokens == old(self).tokens,
                s == self.src(),
                p == old(self).pos(),
                p <= self.pos() <= s.len(),
                should_align == (self.pos() > p),
                digits_end(s, self.pos()) == digits_end(s, p),
            ensures
                self.wf(),
                self.same_frame(old(self)),
                self.line == old(self).line,
                self.tokens == old(self).tokens,
                should_align == (self.pos() > p),
                self.pos() == digits_end(s, p),
            decreases s.len() - self.pos(),
        {
            let di = match self.peek() {
                Some(di) => di,
                None => break,
            };
            if !is_ascii_digit(di) {
                break;
            }
            should_align = true;
            self.advance();
        }
        if should_align {
            self.step_back();
            if collect {
                self.emit(TokenKind::DIGIT_TOKEN);
            }
            return Ok(());
        }
        Ok(())
    }

    /// Consumes up to six hex digits and one following whitespace code point, stopping on the
    /// last code point consumed.
    pub fn hex_token(&mut self, collect: bool) -> (r: Result<(), LexerError>)
        requires
            old(self).wf(),
        ensures
            final(self).wf(),
            final(self).same_frame(old(self)),
            final(self).line == old(self).line,
            r is Ok,
            final(self).pos() == if hex_body_end(old(self).src(), old(self).pos()) > old(
                self,
            ).pos() {
                hex_body_end(old(self).src(), old(self).pos()) - 1
            } else {
                old(self).pos()
            },
            final(self).emitted(old(self), collect, TokenKind::HEX_TOKEN),
    {
        let ghost s = self.src();
        let ghost p = self.pos();
        proof {
            lemma_hex_digits_end(s, p, 6);
        }
        let mut count: usize = 0;
        let mut should_align = false;
        while count < 6
            invariant_except_break
                self.wf(),
                self.same_frame(old(self)),
                self.line == old(self).line,
                self.tokens == old(self).tokens,
                s == self.src(),
                p == old(self).pos(),
                count <= 6,
                self.pos() == p + count,
                should_align == (count > 0),
                hex_digits_end(s, self.pos(), 6 - count) == hex_digits_end(s, p, 6),
            ensures
                self.wf(),
                self.same_frame(old(self)),
                self.line == old(self).line,
                self.tokens == old(self).tokens,
                self.pos() == p + count,
                should_align == (count > 0),
                self.pos() == hex_digits_end(s, p, 6),
            decreases 6 - count,
        {
            match self.peek() {
                Some(c) if is_ascii_hex_digit(c) => {
                    self.advance();
                    count += 1;
                    should_align = true;
                },
                _ => break,
            }
        }
        if let Some(c) = self.peek() {
            if is_unicode_white_space(c) {
                self.advance();
                should_align = true;
            }
        }
        if should_align {
            self.step_back();
        }
        if collect {
            self.emit(TokenKind::HEX_TOKEN);
        }
        Ok(())
    }

    /// Consumes an escape: a backslash and the code point after it, or a hex escape body when
    /// a digit follows. Stops on the last code point of the escape.
    pub fn escape(&mut self, collect: bool) -> (r: Result<(), LexerError>)
        requires
            old(self).wf(),
        ensures
            final(self).wf(),
            final(self).same_frame(old(self)),
            final(self).line == old(self).line,
            r is Ok <==> valid_escape_at(old(self).src(), old(self).pos()),
            r is Ok ==> old(self).pos() < final(self).pos() < old(self).src().len(),
            r is Ok ==> {
                &&& final(self).pos() == if old(self).at(1) matches Some(d) && ascii_digit(d) {
                    hex_body_end(old(self).src(), old(self).pos() + 1) - 1
                } else {
                    old(self).pos() + 1
                }
                &&& final(self).emitted(old(self), collect, TokenKind::ESCAPE)
            },
            r matches Err(e) ==> {
                &&& e.reason == if old(self).at(0) == Some('\\') {
                    LexerErrorReason::INVALID_TOKEN
                } else {
                    LexerErrorReason::NO_MATCH
                }
                &&& final(self).pos() == old(self).pos()
                &&& final(self).tokens == old(self).tokens
            },
    {
        let ghost s = self.src();
        let ghost p = self.pos();
        if self.peek() != Some('\\') {
            return Err(LexerError::new(
                LexerErrorReason::NO_MATCH,
                self.line,
                LexerSpan(self.start, self.current),
            ));
        }
        self.advance();
        match self.peek() {
            Some(x) if is_ascii_digit(x) => {
                proof {
                    lemma_hex_digits_end(s, p + 2, 5);
                    assert(hex_digits_end(s, p + 1, 6) == hex_digits_end(s, p + 2, 5));
                    lemma_hex_digits_end(s, p + 1, 6);
                }
                let _ = self.hex_token(false);
                if collect {
                    self.emit(TokenKind::ESCAPE);
                }
                Ok(())
            },
            Some(n) if self.is_newline(n) => {
                self.step_back();
                Err(LexerError::new(
                    LexerErrorReason::INVALID_TOKEN,
                    self.line,
                    LexerSpan(self.start, self.current),
                ))
            },
            Some(_) => {
                if collect {
                    self.emit(TokenKind::ESCAPE);
                }
                Ok(())
            },
            None => {
                self.step_back();
                Err(LexerError::new(
                    LexerErrorReason::INVALID_TOKEN,
                    self.line,
                    LexerSpan(self.start, self.current),
                ))
            },
        }
    }

    /// Consumes a comment, starting on its `/`, up to the `/` of the first `*/` after the
    /// cursor, counting line breaks.
    pub fn comment(&mut self) -> (r: Result<(), LexerError>)
        requires
            old(self).wf(),
        ensures
            final(self).wf(),
            final(self).same_frame(old(self)),
            final(self).tokens == old(self).tokens,
            final(self).pos() >= old(self).pos(),
            match comment_close(old(self).src(), old(self).pos()) {
                Some(k) => {
                    &&& r is Ok
                    &&& final(self).pos() == k + 1
                    &&& final(self).line == add_lines(
                        old(self).line,
                        newline_count(old(self).src(), old(self).pos(), k),
                    )
                },
                None => {
                    &&& r matches Err(e) && e.reason == LexerErrorReason::UNTERMINATED_TOKEN
                    &&& final(self).pos() == open_comment_end(old(self).src(), old(self).pos())
                    &&& final(self).line == add_lines(
                        old(self).line,
                        newline_count(old(self).src(), old(self).pos(), final(self).pos()),
                    )
                },
            },
    {
        let ghost s = self.src();
        let ghost p = self.pos();
        proof {
            lemma_comment_close(s, p);
        }
        loop
            invariant
                self.wf(),
                self.same_frame(old(self)),
                self.tokens == old(self).tokens,
                s == self.src(),
                p == old(self).pos(),
                p <= self.pos() <= s.len(),
                comment_close(s, self.pos()) == comment_close(s, p),
                self.line == add_lines(old(self).line, newline_count(s, p, self.pos())),
                (self.pos() == s.len() && p < s.len()) ==> s.last() != '*',
            decreases s.len() - self.pos(),
        {
            if self.at_end() {
                return Err(LexerError::new(
                    LexerErrorReason::UNTERMINATED_TOKEN,
                    self.line,
                    LexerSpan(self.start, self.current),
                ));
            }
            let x = self.peek().unwrap();
            let ghost q = self.pos();
            if x == '*' {
                if let Some(y) = self.peek_next(x) {
                    if y == '/' {
                        self.advance();
                        return Ok(());
                    }
                    self.advance();
                    assert(newline_count(s, p, q + 1) == newline_count(s, p, q));
                    continue;
                }
                return Err(LexerError::new(
                    LexerErrorReason::UNTERMINATED_TOKEN,
                    self.line,
                    LexerSpan(self.start, self.current),
                ));
            } else if self.is_newline(x) {
                self.new_line();
            }
            self.advance();
            assert(newline_count(s, p, q + 1) == newline_count(s, p, q) + if css_newline(x) {
                1nat
            } else {
                0nat
            });
        }
    }

    pub fn at_valid_escape(&self) -> (r: bool)
        requires
            self.wf(),
        ensures
            r == valid_escape_at(self.src(), self.pos()),
    {
        if self.peek() != Some('\\') {
            return false;
        }
        match self.peek_next('\\') {
            Some(c) => !self.is_newline(c),
            None => false,
        }
    }

    pub fn at_ident_start(&self) -> (r: bool)
        requires
            self.wf(),
        ensures
            r == starts_ident(self.src(), self.pos()),
    {
        let a = self.peek();
        let b = self.peek_n(1);
        match a {
            Some(c) if is_ident_start(c) => true,
            Some('-') => {
                match b {
                    Some('-') => true,
                    Some(c) if is_ident_start(c) => true,
                    Some('\\') => {
                        let c = self.peek_n(2);
                        match c {
                            Some(x) => !self.is_newline(x),
                            None => false,
                        }
                    },
                    _ => false,
                }
            },
            Some('\\') => {
                match b {
                    Some(x) => !self.is_newline(x),
                    None => false,
                }
            },
            _ => false,
        }
    }

    /// Whether the cursor is on `url(`, in any ASCII case.
    pub fn starts_url_function(&self) -> (r: bool)
        requires
            self.wf(),
        ensures
            r == ((self.at(0) == Some('u') || self.at(0) == Some('U')) && (self.at(1) == Some('r')
                || self.at(1) == Some('R')) && (self.at(2) == Some('l') || self.at(2) == Some(
                'L',
            )) && self.at(3) == Some('(')),
    {
        let a = self.peek_n(0);
        let b = self.peek_n(1);
        let c = self.peek_n(2);
        let d = self.peek_n(3);
        (a == Some('u') || a == Some('U')) && (b == Some('r') || b == Some('R')) && (c == Some('l')
            || c == Some('L')) && d == Some('(')
    }

    /// Consumes an identifier and stops on its last code point.
    pub fn ident(&mut self, collect: bool) -> (r: Result<(), LexerError>)
        requires
            old(self).wf(),
        ensures
            final(self).wf(),
            final(self).same_frame(old(self)),
            final(self).line == old(self).line,
            final(self).pos() >= old(self).pos(),
            (r matches Err(e) && e.reason == LexerErrorReason::NO_MATCH) <==> !starts_ident(
                old(self).src(),
                old(self).pos(),
            ),
            starts_ident(old(self).src(), old(self).pos()) ==> ({
                let run = name_run(old(self).src(), ident_body_start(old(self).src(), old(self).pos()));
                &&& final(self).pos() == run.0 - 1
                &&& (r is Ok <==> !run.1)
            }),
            r is Ok ==> {
                &&& final(self).pos() < old(self).src().len()
                &&& final(self).emitted(old(self), collect, TokenKind::IDENT)
            },
            r matches Err(e) ==> {
                &&& e.reason == LexerErrorReason::NO_MATCH || e.reason
                    == LexerErrorReason::UNTERMINATED_TOKEN
                &&& final(self).tokens@ == old(self).tokens@
                &&& e.reason == LexerErrorReason::NO_MATCH ==> final(self).pos() == old(self).pos()
            },
    {
        let ghost s = self.src();
        let ghost p = self.pos();
        let mut should_align = false;
        if !self.at_ident_start() {
            return Err(LexerError::new(
                LexerErrorReason::NO_MATCH,
                self.line,
                LexerSpan(self.start, self.current),
            ));
        }
        match self.peek() {
            Some(x) if x == '-' => {
                self.advance();
                should_align = true;
                if let Some(curr) = self.peek() {
                    if curr == '-' {
                        self.advance();
                    } else if is_ident_start(curr) {
                        self.advance();
                    } else if curr == '\\' {
                        if !self.at_valid_escape() {
                            self.step_back();
                            return Err(LexerError::new(
                                LexerErrorReason::UNTERMINATED_TOKEN,
                                self.line,
                                LexerSpan(self.start, self.current),
                            ));
                        }
                        match self.escape(false) {
                            Ok(_) => {},
                            Err(e) if e.reason == LexerErrorReason::NO_MATCH => {},
                            _ => {},
                        }
                    } else {
                        self.step_back();
                        return Err(LexerError::new(
                            LexerErrorReason::UNTERMINATED_TOKEN,
                            self.line,
                            LexerSpan(self.start, self.current),
                        ));
                    }
                } else {
                    self.step_back();
                    return Err(LexerError::new(
                        LexerErrorReason::UNTERMINATED_TOKEN,
                        self.line,
                        LexerSpan(self.start, self.current),
                    ));
                }
            },
            Some(u) if is_ident_start(u) => {
                self.advance();
                should_align = true;
            },
            Some(v) if v == '\\' => {
                if !self.at_valid_escape() {
                    if should_align {
                        self.step_back();
                    }
                    return Err(LexerError::new(
                        LexerErrorReason::UNTERMINATED_TOKEN,
                        self.line,
                        LexerSpan(self.start, self.current),
                    ));
                }
                match self.escape(false) {
                    Ok(_) => {
                        self.advance();
                        should_align = true;
                    },
                    Err(e) if e.reason == LexerErrorReason::NO_MATCH => {},
                    _ => {},
                }
            },
            _ => {
                if should_align {
                    self.step_back();
                }
                return Err(LexerError::new(
                    LexerErrorReason::UNTERMINATED_TOKEN,
                    self.line,
                    LexerSpan(self.start, self.current),
                ));
            },
        }
        loop
            invariant_except_break
                self.wf(),
                self.same_frame(old(self)),
                self.line == old(self).line,
                self.tokens@ == old(self).tokens@,
                s == self.src(),
                p == old(self).pos(),
                should_align,
                p < self.pos() <= s.len(),
                starts_ident(s, p),
                name_run(s, self.pos()) == name_run(s, ident_body_start(s, p)),
            ensures
                self.wf(),
                self.same_frame(old(self)),
                self.line == old(self).line,
                self.tokens@ == old(self).tokens@,
                p <= self.pos() < s.len(),
                self.pos() == name_run(s, ident_body_start(s, p)).0 - 1,
                !name_run(s, ident_body_start(s, p)).1,
            decreases s.len() - self.pos(),
        {
            proof {
                lemma_name_run(s, self.pos());
            }
            match self.peek() {
                Some(x) if is_ident(x) => {
                    self.advance();
                    should_align = true;
                },
                Some(v) if v == '\\' => {
                    if !self.at_valid_escape() {
                        if should_align {
                            self.step_back();
                        }
                        return Err(LexerError::new(
                            LexerErrorReason::UNTERMINATED_TOKEN,
                            self.line,
                            LexerSpan(self.start, self.current),
                        ));
                    }
                    match self.escape(false) {
                        Ok(_) => {
                            self.advance();
                            should_align = true;
                        },
                        Err(e) if e.reason == LexerErrorReason::NO_MATCH => {},
                        _ => {},
                    }
                },
                _ => {
                    if should_align {
                        self.step_back();
                    }
                    break ;
                },
            }
        }
        if collect {
            self.emit(TokenKind::IDENT);
        }
        Ok(())
    }

    /// Consumes a quoted string and stops on its closing quote, or on the last code point
    /// before an unescaped line break or the end of the input for a bad string.
    pub fn string(&mut self, collect: bool) -> (r: Result<(), LexerError>)
        requires
            old(self).wf(),
        ensures
            final(self).wf(),
            final(self).same_frame(old(self)),
            final(self).line == old(self).line,
            r is Ok <==> (old(self).at(0) == Some('"') || old(self).at(0) == Some('\'')),
            r is Ok ==> ({
                let end = string_end(old(self).src(), old(self).pos() + 1, old(self).src()[old(self).pos()]);
                &&& final(self).pos() == end.0
                &&& final(self).emitted(
                    old(self),
                    collect,
                    if end.1 {
                        TokenKind::STRING
                    } else {
                        TokenKind::BAD_STRING
                    },
                )
            }),
            r is Ok ==> {
                &&& old(self).pos() <= final(self).pos() < old(self).src().len()
                &&& final(self).emitted(old(self), collect, TokenKind::STRING)
                    || final(self).emitted(old(self), collect, TokenKind::BAD_STRING)
                &&& (collect && final(self).tokens@.last().kind == TokenKind::STRING) ==> (
                final(self).pos() > old(self).pos() && final(self).at(0) == old(self).at(0))
            },
            r matches Err(e) ==> {
                &&& e.reason == LexerErrorReason::NO_MATCH
                &&& final(self).pos() == old(self).pos()
                &&& final(self).tokens@ == old(self).tokens@
            },
    {
        let ghost s = self.src();
        let ghost p = self.pos();
        if self.at_end() {
            return Err(LexerError::new(
                LexerErrorReason::NO_MATCH,
                self.line,
                LexerSpan(self.start, self.current),
            ));
        }
        let terminal = self.peek().unwrap();
        if terminal != '"' && terminal != '\'' {
            return Err(LexerError::new(
                LexerErrorReason::NO_MATCH,
                self.line,
                LexerSpan(self.start, self.current),
            ));
        }
        self.advance();
        loop
            invariant
                self.wf(),
                self.same_frame(old(self)),
                self.line == old(self).line,
                self.tokens@ == old(self).tokens@,
                s == self.src(),
                p == old(self).pos(),
                p < self.pos() <= s.len(),
                s[p] == terminal,
                terminal == '"' || terminal == '\'',
                string_end(s, self.pos(), terminal) == string_end(s, p + 1, terminal),
            decreases s.len() - self.pos(),
        {
            if self.at_end() {
                self.step_back();
                if collect {
                    self.emit(TokenKind::BAD_STRING);
                }
                return Ok(());
            }
            match self.peek() {
                Some('\\') => {
                    // an odd run of backslashes escapes the code point after it; an even run
                    // leaves it to be read on the next iteration
                    let mut odd = false;
                    let ghost q = self.pos();
                    proof {
                        lemma_backslashes_end(s, q);
                    }
                    loop
                        invariant_except_break
                            self.wf(),
                            self.same_frame(old(self)),
                            self.line == old(self).line,
                            self.tokens@ == old(self).tokens@,
                            s == self.src(),
                            p < self.pos() <= s.len(),
                            q <= self.pos(),
                            self.pos() == q ==> self.at(0) == Some('\\'),
                            backslashes_end(s, self.pos()) == backslashes_end(s, q),
                            odd == ((self.pos() - q) % 2 == 1),
                        ensures
                            self.wf(),
                            self.same_frame(old(self)),
                            self.line == old(self).line,
                            self.tokens@ == old(self).tokens@,
                            s == self.src(),
                            p < self.pos() <= s.len(),
                            q < self.pos(),
                            self.pos() == backslashes_end(s, q),
                            odd == ((self.pos() - q) % 2 == 1),
                        decreases s.len() - self.pos(),
                    {
                        if self.peek() != Some('\\') {
                            break;
                        }
                        self.advance();
                        odd = !odd;
                    }
                    if odd {
                        if self.at_end() {
                            self.step_back();
                            if collect {
                                self.emit(TokenKind::BAD_STRING);
                            }
                            return Ok(());
                        }
                        if self.peek() == Some('\r') && self.peek_next('\r') == Some('\n') {
                            self.advance();
                        }
                        self.advance();
                    }
                },
                Some(x) if x == terminal => {
                    if collect {
                        self.emit(TokenKind::STRING);
                    }
                    return Ok(());
                },
                Some(x) if self.is_newline(x) => {
                    self.step_back();
                    if collect {
                        self.emit(TokenKind::BAD_STRING);
                    }
                    return Ok(());
                },
                Some(_) => self.advance(),
                None => {
                    return Ok(());
                },
            }
        }
    }

    /// Consumes a function token, an identifier directly followed by `(`, and stops on the
    /// parenthesis.
    pub fn function(&mut self, collect: bool) -> (r: Result<(), LexerError>)
        requires
            old(self).wf(),
        ensures
            final(self).wf(),
            final(self).same_frame(old(self)),
            final(self).line == old(self).line,
            final(self).pos() >= old(self).pos(),
            (r matches Err(e) && e.reason == LexerErrorReason::NO_MATCH) <==> !starts_ident(
                old(self).src(),
                old(self).pos(),
            ),
            starts_ident(old(self).src(), old(self).pos()) ==> ({
                let run = name_run(old(self).src(), ident_body_start(old(self).src(), old(self).pos()));
                &&& (r is Ok <==> (!run.1 && char_at(old(self).src(), run.0) == Some('(')))
                &&& r is Ok ==> final(self).pos() == run.0
                &&& run.1 ==> (r matches Err(e) && e.reason == LexerErrorReason::UNTERMINATED_TOKEN
                    && final(self).pos() == run.0 - 1)
                &&& (!run.1 && char_at(old(self).src(), run.0) != Some('(')) ==> (r matches Err(e)
                    && e.reason == LexerErrorReason::MATCHED_PREFIX)
            }),
            r is Ok ==> {
                &&& old(self).pos() < final(self).pos() < old(self).src().len()
                &&& final(self).at(0) == Some('(')
                &&& final(self).emitted(old(self), collect, TokenKind::FUNCTION)
            },
            r matches Err(e) ==> {
                &&& final(self).tokens@ == old(self).tokens@
                &&& (e.reason == LexerErrorReason::NO_MATCH || e.reason
                    == LexerErrorReason::MATCHED_PREFIX) ==> final(self).pos() == old(self).pos()
            },
    {
        let branch_point = self.current;
        let memo_point = self.last_size_memo.len();
        if !self.at_ident_start() {
            return Err(LexerError::new(
                LexerErrorReason::NO_MATCH,
                self.line,
                LexerSpan(self.start, self.current),
            ));
        }
        self.ident(false)?;
        self.advance();
        match self.peek() {
            Some('(') => {
                self.advance();
            },
            _ => {
                self.backtrack(branch_point, memo_point);
                return Err(LexerError::new(
                    LexerErrorReason::MATCHED_PREFIX,
                    self.line,
                    LexerSpan(self.start, self.current),
                ));
            },
        };
        self.step_back();
        if collect {
            self.emit(TokenKind::FUNCTION);
        }
        Ok(())
    }

    /// Consumes `@` and an identifier, stopping on the identifier's last code point.
    pub fn at_keyword(&mut self, collect: bool) -> (r: Result<(), LexerError>)
        requires
            old(self).wf(),
        ensures
            final(self).wf(),
            final(self).same_frame(old(self)),
            final(self).line == old(self).line,
            final(self).pos() >= old(self).pos(),
            (r matches Err(e) && e.reason == LexerErrorReason::NO_MATCH) <==> old(self).at(0)
                != Some('@'),
            (r matches Err(e) && e.reason == LexerErrorReason::MATCHED_PREFIX) <==> (
                old(self).at(0) == Some('@') && !starts_ident(old(self).src(), old(self).pos() + 1)),
            (old(self).at(0) == Some('@') && starts_ident(old(self).src(), old(self).pos() + 1)) ==> ({
                let run = name_run(old(self).src(), ident_body_start(old(self).src(), old(self).pos() + 1));
                &&& (r is Ok <==> !run.1)
                &&& final(self).pos() == run.0 - 1
            }),
            r is Ok ==> {
                &&& old(self).pos() < final(self).pos() < old(self).src().len()
                &&& final(self).emitted(old(self), collect, TokenKind::AT_KEYWORD)
            },
            r matches Err(e) ==> {
                &&& final(self).tokens@ == old(self).tokens@
                &&& (e.reason == LexerErrorReason::NO_MATCH || e.reason
                    == LexerErrorReason::MATCHED_PREFIX) ==> final(self).pos() == old(self).pos()
            },
    {
        if !self.catch_match('@') {
            return Err(LexerError::new(
                LexerErrorReason::NO_MATCH,
                self.line,
                LexerSpan(self.start, self.current),
            ));
        }
        if !self.at_ident_start() {
            self.step_back();
            return Err(LexerError::new(
                LexerErrorReason::MATCHED_PREFIX,
                self.line,
                LexerSpan(self.start, self.current),
            ));
        }
        self.ident(false)?;
        if collect {
            self.emit(TokenKind::AT_KEYWORD);
        }
        Ok(())
    }

    /// Consumes `#` and a name, stopping on the name's last code point. The hash is an
    /// `ID_HASH` when the name would start an identifier.
    pub fn hash(&mut self, collect: bool) -> (r: Result<(), LexerError>)
        requires
            old(self).wf(),
        ensures
            final(self).wf(),
            final(self).same_frame(old(self)),
            final(self).line == old(self).line,
            final(self).pos() >= old(self).pos(),
            (r matches Err(e) && e.reason == LexerErrorReason::NO_MATCH) <==> old(self).at(0)
                != Some('#'),
            r is Ok ==> {
                &&& old(self).pos() < final(self).pos() < old(self).src().len()
                &&& final(self).emitted(
                    old(self),
                    collect,
                    if starts_ident(old(self).src(), old(self).pos() + 1) {
                        TokenKind::ID_HASH
                    } else {
                        TokenKind::GENERIC_HASH
                    },
                )
            },
            old(self).at(0) == Some('#') ==> ({
                let s = old(self).src();
                let p = old(self).pos();
                &&& (r is Ok <==> ((char_at(s, p + 1) matches Some(c) && ident_char(c))
                    || valid_escape_at(s, p + 1)))
                &&& r is Ok ==> final(self).pos() == hash_run(s, hash_body_start(s, p)) - 1
            }),
            r is Err ==> {
                &&& final(self).tokens@ == old(self).tokens@
                &&& final(self).pos() == old(self).pos()
            },
    {
        let ghost s = self.src();
        let ghost p = self.pos();
        let mut should_align = false;
        let mut id_hash = false;
        if !self.catch_match('#') {
            return Err(LexerError::new(
                LexerErrorReason::NO_MATCH,
                self.line,
                LexerSpan(self.start, self.current),
            ));
        }
        should_align = true;
        if self.at_ident_start() {
            id_hash = true;
        }
        match self.peek() {
            Some(x) if is_ident(x) => {
                self.advance();
            },
            Some(y) if y == '\\' => {
                match self.escape(false) {
                    Ok(()) => {},
                    _ => {
                        self.step_back();
                        return Err(LexerError::new(
                            LexerErrorReason::UNTERMINATED_TOKEN,
                            self.line,
                            LexerSpan(self.start, self.current),
                        ));
                    },
                }
            },
            Some(n) => {
                self.step_back();
                return Err(LexerError::new(
                    LexerErrorReason::UNTERMINATED_TOKEN,
                    self.line,
                    LexerSpan(self.start, self.current),
                ));
            },
            None => {
                self.step_back();
                return Err(LexerError::new(
                    LexerErrorReason::UNTERMINATED_TOKEN,
                    self.line,
                    LexerSpan(self.start, self.current),
                ));
            },
        }
        loop
            invariant_except_break
                self.wf(),
                self.same_frame(old(self)),
                self.line == old(self).line,
                self.tokens@ == old(self).tokens@,
                s == self.src(),
                p == old(self).pos(),
                should_align,
                p + 1 < self.pos() <= s.len(),
                id_hash == starts_ident(s, p + 1),
                hash_run(s, self.pos()) == hash_run(s, hash_body_start(s, p)),
                (char_at(s, p + 1) matches Some(c) && ident_char(c)) || valid_escape_at(s, p + 1),
            ensures
                self.wf(),
                self.same_frame(old(self)),
                self.line == old(self).line,
                self.tokens@ == old(self).tokens@,
                should_align,
                p + 1 < self.pos() <= s.len(),
                id_hash == starts_ident(s, p + 1),
                self.pos() == hash_run(s, hash_body_start(s, p)),
                (char_at(s, p + 1) matches Some(c) && ident_char(c)) || valid_escape_at(s, p + 1),
            decreases s.len() - self.pos(),
        {
            proof {
                lemma_hash_run(s, self.pos() as int);
            }
            match self.peek() {
                Some(curr) => {
                    if is_ident(curr) {
                        self.advance();
                        should_align = true;
                    } else if self.at_valid_escape() {
                        match self.escape(false) {
                            Ok(()) => {
                                self.advance();
                                should_align = true;
                                continue ;
                            },
                            _ => {
                                if should_align {
                                    self.step_back();
                                    return Err(LexerError::new(
                                        LexerErrorReason::UNTERMINATED_TOKEN,
                                        self.line,
                                        LexerSpan(self.start, self.current),
                                    ));
                                }
                            },
                        }
                    } else {
                        break ;
                    }
                },
                None => break ,
            }
        }
        if should_align {
            self.step_back();
        }
        if id_hash && collect {
            self.emit(TokenKind::ID_HASH);
        } else if !id_hash && collect {
            self.emit(TokenKind::GENERIC_HASH);
        }
        Ok(())
    }

    fn digit_ahead(&self, n: usize) -> (r: bool)
        requires
            self.wf(),
        ensures
            r == digit_at(self.src(), self.pos() + n),
    {
        match self.peek_n(n) {
            Some(c) => is_ascii_digit(c),
            None => false,
        }
    }

    fn sign_ahead(&self, n: usize) -> (r: bool)
        requires
            self.wf(),
        ensures
            r == sign_at(self.src(), self.pos() + n),
    {
        let c = self.peek_n(n);
        c == Some('+') || c == Some('-')
    }

    /// Advances over a run of ASCII digits.
    fn skip_digits(&mut self)
        requires
            old(self).wf(),
        ensures
            final(self).wf(),
            final(self).same_frame(old(self)),
            final(self).line == old(self).line,
            final(self).tokens == old(self).tokens,
            final(self).pos() == digits_end(old(self).src(), old(self).pos()),
    {
        let ghost s = self.src();
        proof {
            lemma_digits_end(s, self.pos());
        }
        while self.digit_ahead(0)
            invariant
                self.wf(),
                self.same_frame(old(self)),
                self.line == old(self).line,
                self.tokens == old(self).tokens,
                s == self.src(),
                old(self).pos() <= self.pos() <= s.len(),
                digits_end(s, self.pos()) == digits_end(s, old(self).pos()),
            decreases s.len() - self.pos(),
        {
            self.advance();
        }
    }

    /// Consumes a number and its `%` or unit, stopping on the last code point: a
    /// `PERCENTAGE` ends on its `%`, a `DIMENSION` on the last code point of its unit.
#[verifier::rlimit(40)]
        pub fn number(&mut self, collect: bool) -> (r: Result<(), LexerError>)
        requires
            old(self).wf(),
        ensures
            final(self).wf(),
            final(self).same_frame(old(self)),
            final(self).line == old(self).line,
            final(self).pos() >= old(self).pos(),
            (r matches Err(e) && e.reason == LexerErrorReason::MATCHED_PREFIX) <==> !starts_number(
                old(self).src(),
                old(self).pos(),
            ),
            r is Ok ==> ({
                let s = old(self).src();
                let n = number_end(s, old(self).pos());
                &&& old(self).pos() < n
                &&& final(self).pos() < s.len()
                &&& if char_at(s, n) == Some('%') {
                    &&& final(self).pos() == n
                    &&& final(self).emitted(old(self), collect, TokenKind::PERCENTAGE)
                } else if starts_ident(s, n) {
                    &&& final(self).pos() == name_run(s, ident_body_start(s, n)).0 - 1
                    &&& final(self).emitted(old(self), collect, TokenKind::DIMENSION)
                } else {
                    &&& final(self).pos() == n - 1
                    &&& final(self).emitted(old(self), collect, TokenKind::NUMBER)
                }
            }),
            starts_number(old(self).src(), old(self).pos()) ==> ({
                let s = old(self).src();
                let n = number_end(s, old(self).pos());
                r is Ok <==> !(char_at(s, n) != Some('%') && starts_ident(s, n) && name_run(
                    s,
                    ident_body_start(s, n),
                ).1)
            }),
            r matches Err(e) ==> {
                &&& final(self).tokens@ == old(self).tokens@
                &&& e.reason == LexerErrorReason::MATCHED_PREFIX ==> final(self).pos()
                    == old(self).pos()
            },
            (r is Err && starts_number(old(self).src(), old(self).pos())) ==> final(self).pos()
                == name_run(
                old(self).src(),
                ident_body_start(old(self).src(), number_end(old(self).src(), old(self).pos())),
            ).0 - 1,
    {
        let ghost s = self.src();
        let ghost p = self.pos();
        let branch_point = self.current;
        let memo_point = self.last_size_memo.len();
        if self.sign_ahead(0) {
            self.advance();
        }
        let ghost q = self.pos();
        assert(q == mantissa_start(s, p));
        let starts_fraction = self.peek() == Some('.') && self.digit_ahead(1);
        if starts_fraction {
            self.advance();
            self.skip_digits();
            proof {
                lemma_digits_end(s, q + 1);
                assert(digits_end(s, q + 1) == digits_end(s, q + 2));
                lemma_digits_end(s, q + 2);
            }
        } else if self.digit_ahead(0) {
            self.skip_digits();
            proof {
                lemma_digits_end(s, q);
                assert(digits_end(s, q) == digits_end(s, q + 1));
                lemma_digits_end(s, q + 1);
            }
            if self.peek() == Some('.') && self.digit_ahead(1) {
                let ghost d = self.pos();
                self.advance();
                self.skip_digits();
                proof {
                    lemma_digits_end(s, d + 1);
                }
            }
        } else {
            self.backtrack(branch_point, memo_point);
            return Err(LexerError::new(
                LexerErrorReason::MATCHED_PREFIX,
                self.line,
                LexerSpan(self.start, self.current),
            ));
        }
        let ghost m = self.pos();
        assert(m == mantissa_end(s, p));
        let exponent = (self.peek() == Some('e') || self.peek() == Some('E')) && (self.digit_ahead(
            1,
        ) || (self.sign_ahead(1) && self.digit_ahead(2)));
        if exponent {
            self.advance();
            if self.sign_ahead(0) {
                self.advance();
            }
            self.skip_digits();
            proof {
                let e = if sign_at(s, m + 1) {
                    m + 2
                } else {
                    m + 1
                };
                lemma_digits_end(s, e);
            }
        }
        let ghost n = self.pos();
        assert(n == number_end(s, p));
        let kind = if self.peek() == Some('%') {
            TokenKind::PERCENTAGE
        } else if self.at_ident_start() {
            self.ident(false)?;
            TokenKind::DIMENSION
        } else {
            self.step_back();
            TokenKind::NUMBER
        };
        if collect {
            self.emit(kind);
        }
        Ok(())
    }

    /// Advances over CSS whitespace, counting every line-break code point.
    pub fn consume_url_whitespace(&mut self)
        requires
            old(self).wf(),
        ensures
            final(self).wf(),
            final(self).same_frame(old(self)),
            final(self).tokens == old(self).tokens,
            final(self).pos() == whitespace_end(old(self).src(), old(self).pos()),
            old(self).pos() <= final(self).pos() <= old(self).src().len(),
            final(self).line == add_lines(
                old(self).line,
                newline_count(old(self).src(), old(self).pos(), final(self).pos()),
            ),
    {
        let ghost s = self.src();
        let ghost p = self.pos();
        proof {
            lemma_whitespace_end(s, p);
        }
        loop
            invariant_except_break
                self.wf(),
                self.same_frame(old(self)),
                self.tokens == old(self).tokens,
                s == self.src(),
                p <= self.pos() <= s.len(),
                whitespace_end(s, self.pos()) == whitespace_end(s, p),
                self.line == add_lines(old(self).line, newline_count(s, p, self.pos())),
            ensures
                self.wf(),
                self.same_frame(old(self)),
                self.tokens == old(self).tokens,
                self.pos() == whitespace_end(s, p),
                self.line == add_lines(old(self).line, newline_count(s, p, self.pos())),
            decreases s.len() - self.pos(),
        {
            let c = match self.peek() {
                Some(c) => c,
                None => break ,
            };
            if !is_css_whitespace(c) {
                break ;
            }
            let ghost q = self.pos();
            if self.is_newline(c) {
                self.new_line();
            }
            self.advance();
            assert(newline_count(s, p, q + 1) == newline_count(s, p, q) + if css_newline(c) {
                1nat
            } else {
                0nat
            });
        }
    }

    /// Consumes the rest of a bad URL through its closing parenthesis, or up to the end of
    /// the input, counting line breaks.
    pub fn consume_bad_url(&mut self, collect: bool) -> (r: Result<(), LexerError>)
        requires
            old(self).wf(),
            old(self).at(0) is Some,
        ensures
            final(self).wf(),
            final(self).same_frame(old(self)),
            r is Ok,
            old(self).pos() <= final(self).pos() < old(self).src().len(),
            final(self).pos() == bad_url_end(old(self).src(), old(self).pos()),
            final(self).emitted(old(self), collect, TokenKind::BAD_URL),
            final(self).line == add_lines(old(self).line, bad_url_lines(old(self).src(), old(self).pos())),
    {
        let ghost s = self.src();
        let ghost p = self.pos();
        loop
            invariant_except_break
                self.wf(),
                self.same_frame(old(self)),
                self.tokens == old(self).tokens,
                s == self.src(),
                p <= self.pos() <= s.len(),
                p < s.len(),
                p == old(self).pos(),
                paren_close(s, self.pos()) == paren_close(s, p),
                self.line == add_lines(old(self).line, newline_count(s, p, self.pos())),
            ensures
                self.wf(),
                self.same_frame(old(self)),
                self.tokens == old(self).tokens,
                p <= self.pos() <= s.len(),
                p < s.len(),
                p == old(self).pos(),
                self.pos() == s.len(),
                paren_close(s, p) == s.len(),
                self.line == add_lines(old(self).line, newline_count(s, p, self.pos())),
            decreases s.len() - self.pos(),
        {
            let c = match self.peek() {
                Some(c) => c,
                None => break ,
            };
            if c == ')' {
                if collect {
                    self.emit(TokenKind::BAD_URL);
                }
                return Ok(());
            }
            let ghost q = self.pos();
            proof {
                lemma_add_lines(old(self).line, newline_count(s, p, q), 1);
            }
            if self.is_newline(c) {
                self.new_line();
            }
            self.advance();
            assert(newline_count(s, p, q + 1) == newline_count(s, p, q) + if css_newline(c) {
                1nat
            } else {
                0nat
            });
        }
        self.step_back();
        if collect {
            self.emit(TokenKind::BAD_URL);
        }
        Ok(())
    }

    /// Consumes a URL token after `url`, starting on its `(`, and stops on its closing
    /// parenthesis (or the last code point of the input). Quotes, parentheses, invalid escapes,
    /// non-printable code points and whitespace inside the URL make it a bad URL.
    pub fn url(&mut self, collect: bool) -> (r: Result<(), LexerError>)
        requires
            old(self).wf(),
        ensures
            final(self).wf(),
            final(self).same_frame(old(self)),
            r is Ok <==> old(self).at(0) == Some('('),
            r is Ok ==> ({
                let end = url_end(old(self).src(), old(self).pos());
                &&& final(self).pos() == end.0
                &&& final(self).emitted(
                    old(self),
                    collect,
                    if end.1 {
                        TokenKind::URL
                    } else {
                        TokenKind::BAD_URL
                    },
                )
            }),
            r is Ok ==> {
                &&& old(self).pos() <= final(self).pos() < old(self).src().len()
                &&& final(self).emitted(old(self), collect, TokenKind::URL)
                    || final(self).emitted(old(self), collect, TokenKind::BAD_URL)
                &&& final(self).line == add_lines(
                    old(self).line,
                    url_lines(old(self).src(), old(self).pos()),
                )
            },
            r matches Err(e) ==> {
                &&& e.reason == LexerErrorReason::NO_MATCH
                &&& final(self).pos() == old(self).pos()
                &&& final(self).tokens@ == old(self).tokens@
                &&& final(self).line == old(self).line
            },
    {
        let ghost s = self.src();
        let ghost p = self.pos();
        if self.peek() != Some('(') {
            return Err(LexerError::new(
                LexerErrorReason::NO_MATCH,
                self.line,
                LexerSpan(self.start, self.current),
            ));
        }
        self.advance();
        self.consume_url_whitespace();
        let ghost w = self.pos();
        let ghost mut counted: nat = newline_count(s, p + 1, w);
        proof {
            lemma_add_lines(old(self).line, counted, bad_url_lines(s, w));
        }
        if self.peek() == Some('"') || self.peek() == Some('\'') {
            return self.consume_bad_url(collect);
        }
        loop
            invariant
                self.wf(),
                self.same_frame(old(self)),
                self.tokens@ == old(self).tokens@,
                s == self.src(),
                p == old(self).pos(),
                old(self).at(0) == Some('('),
                p < self.pos() <= s.len(),
                url_body(s, self.pos()) == url_end(s, p),
                self.line == add_lines(old(self).line, counted),
                counted + url_body_lines(s, self.pos()) == url_lines(s, p),
            decreases s.len() - self.pos(),
        {
            proof {
                lemma_whitespace_end(s, self.pos());
                let q = self.pos();
                if q < s.len() && css_whitespace(s[q]) {
                    let e = whitespace_end(s, q);
                    lemma_add_lines(old(self).line, counted, newline_count(s, q, e));
                    lemma_add_lines(
                        old(self).line,
                        counted + newline_count(s, q, e),
                        bad_url_lines(s, e),
                    );
                } else {
                    lemma_add_lines(old(self).line, counted, bad_url_lines(s, q));
                }
            }
            match self.peek() {
                None => {
                    self.step_back();
                    if collect {
                        self.emit(TokenKind::URL);
                    }
                    return Ok(());
                },
                Some(')') => {
                    if collect {
                        self.emit(TokenKind::URL);
                    }
                    return Ok(());
                },
                Some(c) if is_css_whitespace(c) => {
                    self.consume_url_whitespace();
                    if self.peek() == Some(')') || self.at_end() {
                        if self.at_end() {
                            self.step_back();
                        }
                        if collect {
                            self.emit(TokenKind::URL);
                        }
                        return Ok(());
                    }
                    return self.consume_bad_url(collect);
                },
                Some(c) if c == '"' || c == '\'' || c == '(' => {
                    return self.consume_bad_url(collect);
                },
                Some('\\') => {
                    if !self.at_valid_escape() {
                        return self.consume_bad_url(collect);
                    }
                    self.escape(false)?;
                    self.advance();
                },
                Some(c) if !is_css_printable(c) => {
                    return self.consume_bad_url(collect);
                },
                Some(_) => self.advance(),
            }
        }
    }

    /// Whether the input continues with `lit` at the cursor.
    fn starts_with_at(&self, lit: &str) -> (r: bool)
        requires
            self.wf(),
        ensures
            r == (self.pos() + lit@.len() <= self.src().len() && self.src().subrange(
                self.pos(),
                self.pos() + lit@.len(),
            ) == lit@),
    {
        let n = lit.unicode_len();
        let pos = self.last_size_memo.len();
        if n > self.chars.len() - pos {
            return false;
        }
        let mut i: usize = 0;
        while i < n
            invariant
                self.wf(),
                n == lit@.len(),
                pos == self.pos(),
                pos + n <= self.src().len(),
                pos + n <= self.chars.len(),
                i <= n,
                forall|k: int| 0 <= k < i ==> self.src()[pos + k] == lit@[k],
            decreases n - i,
        {
            if self.chars[pos + i] != lit.get_char(i) {
                proof {
                    assert(self.src().subrange(pos as int, pos + n)[i as int] != lit@[i as int]);
                }
                return false;
            }
            i = i + 1;
        }
        proof {
            assert(self.src().subrange(pos as int, pos + n) =~= lit@);
        }
        true
    }

    /// The last token was added by this lexeme: it spans from `start` to the cursor, which is
    /// on a code point of the input.
    pub open spec fn added_token(&self, old: &Self) -> bool {
        &&& self.tokens@.len() == old.tokens@.len() + 1
        &&& self.tokens@.drop_last() == old.tokens@
        &&& self.tokens@.last().span == LexerSpan(self.start, self.current)
        &&& self.tokens@.last().kind != TokenKind::EOF
        &&& self.tokens@.last().line == self.line
        &&& self.pos() < self.src().len()
    }

    /// Recognizes one lexeme starting at the cursor and adds its token; a comment adds none.
    /// The cursor stops on the lexeme's last code point.
    pub fn run(&mut self) -> (r: Result<(), LexerError>)
        requires
            old(self).wf(),
        ensures
            final(self).wf(),
            final(self).input == old(self).input,
            final(self).start == old(self).current,
            final(self).line >= old(self).line,
            final(self).pos() >= old(self).pos(),
            final(self).tokens@ == old(self).tokens@ || final(self).added_token(old(self)),
            r is Err ==> final(self).tokens@ == old(self).tokens@,
            r is Ok ==> final(self).pos() < final(self).src().len(),
            (r is Ok && final(self).tokens@ == old(self).tokens@) ==> (old(self).at(0) == Some('/')
                && old(self).at(1) == Some('*')),
            old(self).at(0) is None ==> (r matches Err(e) && e.reason
                == LexerErrorReason::INVARIANT_VIOLATION && final(self).pos() == old(self).pos()
                && final(self).line == old(self).line),
            old(self).at(0) is Some ==> ({
                let (l, last) = lexeme(old(self).src(), old(self).pos());
                &&& final(self).pos() == last
                &&& match l {
                    Lexeme::Token(kind) => r is Ok && final(self).pushed(old(self), kind),
                    Lexeme::Comment => r is Ok && final(self).tokens@ == old(self).tokens@,
                    Lexeme::Error => r is Err,
                }
            }),
            old(self).at(0) is Some ==> final(self).line == add_lines(
                old(self).line,
                lexeme_lines(old(self).src(), old(self).pos()),
            ),
    {
        let ghost s = self.src();
        let ghost p = self.pos();
        self.start = self.current;
        proof {
            lemma_whitespace_end(s, p);
        }
        match self.peek() {
            None => {
                return Err(LexerError::new(
                    LexerErrorReason::INVARIANT_VIOLATION,
                    self.line,
                    LexerSpan(self.start, self.current),
                ));
            },
            Some(cmp) => {
                if is_css_whitespace(cmp) {
                    self.whitespace(true)?;
                } else if cmp == '"' || cmp == '\'' {
                    self.string(true)?;
                } else if cmp == '{' {
                    self.emit(TokenKind::CURLY_OPEN);
                } else if cmp == '}' {
                    self.emit(TokenKind::CURLY_CLOSE);
                } else if cmp == '[' {
                    self.emit(TokenKind::BRACKET_OPEN);
                } else if cmp == ']' {
                    self.emit(TokenKind::BRACKET_CLOSE);
                } else if cmp == '(' {
                    self.emit(TokenKind::PAREN_OPEN);
                } else if cmp == ')' {
                    self.emit(TokenKind::PAREN_CLOSE);
                } else if cmp == ';' {
                    self.emit(TokenKind::SEMICOLON);
                } else if cmp == ':' {
                    self.emit(TokenKind::COLON);
                } else if cmp == ',' {
                    self.emit(TokenKind::COMMA);
                } else if cmp == '/' {
                    if self.peek_next('/') == Some('*') {
                        self.comment()?;
                        proof {
                            lemma_comment_close(s, p);
                        }
                        return Ok(());
                    }
                    self.emit(TokenKind::SLASH);
                } else if cmp == '+' || cmp == '.' {
                    let delimiter = cmp;
                    match self.number(true) {
                        Ok(()) => return Ok(()),
                        Err(e) if e.reason == LexerErrorReason::MATCHED_PREFIX => {
                            self.emit(TokenKind::DELIM(delimiter));
                            return Ok(());
                        },
                        Err(e) => return Err(e),
                    }
                } else if is_ascii_digit(cmp) {
                    self.number(true)?;
                } else if cmp == '\\' {
                    self.escape(true)?;
                } else if cmp == '@' {
                    match self.at_keyword(true) {
                        Ok(()) => return Ok(()),
                        Err(e) if e.reason == LexerErrorReason::MATCHED_PREFIX => {
                            self.emit(TokenKind::DELIM('@'));
                            return Ok(());
                        },
                        Err(e) => return Err(e),
                    }
                } else {
                    return self.run_other(cmp);
                }
            },
        }
        Ok(())
    }

    /// The lexemes that no single code point decides: CDO and CDC, URLs, functions and
    /// identifiers, signed numbers, `!important`, hashes, and delimiters.
    fn run_other(&mut self, identifier: char) -> (r: Result<(), LexerError>)
        requires
            old(self).wf(),
            old(self).start == old(self).current,
            old(self).at(0) == Some(identifier),
        ensures
            final(self).wf(),
            final(self).input == old(self).input,
            final(self).start == old(self).start,
            final(self).line >= old(self).line,
            final(self).pos() >= old(self).pos(),
            final(self).tokens@ == old(self).tokens@ || final(self).added_token(old(self)),
            r is Err ==> final(self).tokens@ == old(self).tokens@,
            r is Ok ==> final(self).added_token(old(self)),
            ({
                let (l, last) = other_lexeme(old(self).src(), old(self).pos(), identifier);
                &&& final(self).pos() == last
                &&& match l {
                    Lexeme::Token(kind) => r is Ok && final(self).pushed(old(self), kind),
                    _ => r is Err,
                }
            }),
            final(self).line == if starts_url(old(self).src(), old(self).pos()) {
                add_lines(old(self).line, url_lines(old(self).src(), old(self).pos() + 3))
            } else {
                old(self).line
            },
    {
        let ghost s = self.src();
        let ghost p = self.pos();
        proof {
            reveal_strlit("<!--");
            reveal_strlit("-->");
            reveal_strlit("!important");
            assert("<!--"@ =~= seq!['<', '!', '-', '-']);
            assert("-->"@ =~= seq!['-', '-', '>']);
            assert("!important"@ =~= seq!['!', 'i', 'm', 'p', 'o', 'r', 't', 'a', 'n', 't']);
        }
        if self.starts_with_at("<!--") {
            proof {
                reveal_strlit("<!--");
                assert(s.subrange(p, p + 4)[3] == s[p + 3]);
            }
            self.advance();
            self.advance();
            self.advance();
            self.emit(TokenKind::CDO);
            return Ok(());
        }
        if self.starts_with_at("-->") {
            proof {
                reveal_strlit("-->");
                assert(s.subrange(p, p + 3)[2] == s[p + 2]);
            }
            self.advance();
            self.advance();
            self.emit(TokenKind::CDC);
            return Ok(());
        }
        if self.starts_url_function() {
            self.advance();
            self.advance();
            self.advance();
            return self.url(true);
        }
        if self.at_ident_start() {
            match self.function(true) {
                Ok(()) => return Ok(()),
                Err(e) if e.reason == LexerErrorReason::NO_MATCH || e.reason
                    == LexerErrorReason::MATCHED_PREFIX => {
                    self.ident(true)?;
                    return Ok(());
                },
                Err(e) => return Err(e),
            }
        }
        if identifier == '-' {
            match self.number(true) {
                Ok(()) => return Ok(()),
                Err(e) if e.reason == LexerErrorReason::MATCHED_PREFIX => {
                    self.emit(TokenKind::DELIM('-'));
                    return Ok(());
                },
                Err(e) => return Err(e),
            }
        }
        if self.starts_with_at("!important") {
            proof {
                reveal_strlit("!important");
            }
            let mut k: usize = 0;
            while k < 9
                invariant
                    self.wf(),
                    self.input == old(self).input,
                    self.start == old(self).start,
                    self.line == old(self).line,
                    self.tokens == old(self).tokens,
                    s == self.src(),
                    k <= 9,
                    self.pos() == p + k,
                    p + 10 <= s.len(),
                decreases 9 - k,
            {
                self.advance();
                k = k + 1;
            }
            self.emit(TokenKind::IMPORTANT_TOKEN);
            return Ok(());
        }
        if identifier == '#' {
            match self.hash(true) {
                Ok(()) => {
                    return Ok(());
                },
                Err(_) => {
                    self.emit(TokenKind::DELIM('#'));
                    return Ok(());
                },
            };
        }
        self.emit(TokenKind::DELIM(identifier));
        Ok(())
    }

    /// Tokenizes the whole input; the last token is `EOF`.
    #[verifier::spinoff_prover]
    #[verifier::rlimit(30)]
    pub fn scan(&mut self) -> (tokens: &[Token])
        requires
            old(self).wf(),
        ensures
            final(self).wf(),
            final(self).input == old(self).input,
            tokens@ == final(self).tokens@,
            final(self).tokens@.len() > old(self).tokens@.len(),
            final(self).tokens@.take(old(self).tokens@.len() as int) == old(self).tokens@,
            final(self).tokens@.last().kind == TokenKind::EOF,
            (old(self).tokens@.len() == 0 && old(self).pos() == 0) ==> well_spanned(
                final(self).src(),
                final(self).tokens@,
            ),
            final(self).tokens@.len() <= old(self).tokens@.len() + (old(self).src().len()
                - old(self).pos()) + 1,
            ({
                let lexed = lex_from(old(self).src(), old(self).pos(), old(self).line);
                let end = byte_len(old(self).src()) as usize;
                token_views(final(self).tokens@) == token_views(old(self).tokens@) + lexed.0
                    + seq![(TokenKind::EOF, LexerSpan(end, end), lexed.1)]
            }),
            forall|i: int|
                old(self).tokens@.len() <= i < final(self).tokens@.len()
                    ==> #[trigger] final(self).tokens@[i].literal is None,
    {
        let ghost s = self.src();
        let ghost n0 = self.tokens@.len();
        let ghost fresh = n0 == 0 && self.pos() == 0;
        proof {
            self.lemma_wf_facts();
            law_token_count_bound(s, self.pos(), self.line);
        }
        if self.chars.len() == 0 {
            let eof = Token::new(TokenKind::EOF, self.line, LexerSpan(self.current, self.current));
            self.add_token(eof);
            proof {
                assert(self.tokens@.take(n0 as int) =~= old(self).tokens@);
            }
            return self.tokens.as_slice();
        }
        loop
            invariant_except_break
                self.wf(),
                self.input == old(self).input,
                s == self.src(),
                s.len() > 0,
                self.pos() <= s.len(),
                fresh ==> self.pos() < s.len(),
                self.tokens@.len() >= n0,
                self.tokens@.take(n0 as int) == old(self).tokens@,
                fresh ==> n0 == 0,
                fresh ==> forall|i: int|
                    0 <= i < self.tokens@.len() ==> {
                        &&& #[trigger] self.tokens@[i].kind != TokenKind::EOF
                        &&& self.tokens@[i].span.0 <= self.tokens@[i].span.1 < self.current
                        &&& code_point_offset(s, self.tokens@[i].span.0 as int)
                        &&& code_point_offset(s, self.tokens@[i].span.1 as int)
                        &&& self.tokens@[i].line <= self.line
                    },
                fresh ==> forall|i: int, j: int|
                    0 <= i < j < self.tokens@.len() ==> #[trigger] self.tokens@[i].span.1
                        < #[trigger] self.tokens@[j].span.0,
                fresh ==> forall|i: int, j: int|
                    0 <= i < j < self.tokens@.len() ==> #[trigger] self.tokens@[i].line
                        <= #[trigger] self.tokens@[j].line,
                token_views(self.tokens@) + lex_from(s, self.pos(), self.line).0 == token_views(
                    old(self).tokens@,
                ) + lex_from(s, old(self).pos(), old(self).line).0,
                forall|i: int|
                    n0 <= i < self.tokens@.len() ==> #[trigger] self.tokens@[i].literal is None,
                lex_from(s, self.pos(), self.line).1 == lex_from(
                    s,
                    old(self).pos(),
                    old(self).line,
                ).1,
            ensures
                self.wf(),
                self.input == old(self).input,
                s == self.src(),
                s.len() > 0,
                self.pos() <= s.len(),
                self.pos() == s.len(),
                self.tokens@.len() >= n0,
                self.tokens@.take(n0 as int) == old(self).tokens@,
                fresh ==> n0 == 0,
                fresh ==> forall|i: int|
                    0 <= i < self.tokens@.len() ==> {
                        &&& #[trigger] self.tokens@[i].kind != TokenKind::EOF
                        &&& self.tokens@[i].span.0 <= self.tokens@[i].span.1 < self.current
                        &&& code_point_offset(s, self.tokens@[i].span.0 as int)
                        &&& code_point_offset(s, self.tokens@[i].span.1 as int)
                        &&& self.tokens@[i].line <= self.line
                    },
                fresh ==> forall|i: int, j: int|
                    0 <= i < j < self.tokens@.len() ==> #[trigger] self.tokens@[i].span.1
                        < #[trigger] self.tokens@[j].span.0,
                fresh ==> forall|i: int, j: int|
                    0 <= i < j < self.tokens@.len() ==> #[trigger] self.tokens@[i].line
                        <= #[trigger] self.tokens@[j].line,
                token_views(self.tokens@) + lex_from(s, self.pos(), self.line).0 == token_views(
                    old(self).tokens@,
                ) + lex_from(s, old(self).pos(), old(self).line).0,
                forall|i: int|
                    n0 <= i < self.tokens@.len() ==> #[trigger] self.tokens@[i].literal is None,
                lex_from(s, self.pos(), self.line).1 == lex_from(
                    s,
                    old(self).pos(),
                    old(self).line,
                ).1,
            decreases s.len() - self.pos(),
        {
            let ghost before = *self;
            let _ = self.run();
            let ghost after_run = *self;
            proof {
                lemma_byte_offset_mono(s, before.pos(), after_run.pos());
                if self.tokens@ != before.tokens@ {
                    let n = self.tokens@.len() - 1;
                    assert(self.tokens@.last() == self.tokens@[n]);
                    assert forall|i: int| 0 <= i < n implies #[trigger] self.tokens@[i]
                        == before.tokens@[i] by {
                        assert(self.tokens@.drop_last()[i] == self.tokens@[i]);
                    }
                    if fresh {
                        assert(code_point_offset(s, before.current as int)) by {
                            assert(byte_offset(s, before.pos()) == before.current);
                        }
                        assert(code_point_offset(s, self.current as int)) by {
                            assert(byte_offset(s, self.pos()) == self.current);
                        }
                        assert forall|i: int, j: int|
                            0 <= i < j < self.tokens@.len() implies #[trigger] self.tokens@[i].span.1
                            < #[trigger] self.tokens@[j].span.0 by {
                            if j < n {
                                assert(before.tokens@[i].span.1 < before.tokens@[j].span.0);
                            } else {
                                assert(before.tokens@[i].kind != TokenKind::EOF);
                                assert(before.tokens@[i].span.1 < before.current);
                            }
                        }
                        assert forall|i: int, j: int|
                            0 <= i < j < self.tokens@.len() implies #[trigger] self.tokens@[i].line
                            <= #[trigger] self.tokens@[j].line by {
                            if j < n {
                                assert(before.tokens@[i].line <= before.tokens@[j].line);
                            } else {
                                assert(before.tokens@[i].kind != TokenKind::EOF);
                                assert(before.tokens@[i].line <= before.line);
                            }
                        }
                    }
                }
                assert(self.tokens@.take(n0 as int) =~= before.tokens@.take(n0 as int)) by {
                    if self.tokens@ != before.tokens@ {
                        assert forall|i: int| 0 <= i < n0 implies self.tokens@.take(n0 as int)[i]
                            == before.tokens@.take(n0 as int)[i] by {
                            assert(self.tokens@.drop_last()[i] == self.tokens@[i]);
                        }
                    }
                }
            }
            self.advance();
            proof {
                if after_run.pos() < s.len() {
                    lemma_byte_offset_mono(s, after_run.pos(), after_run.pos() + 1);
                }
                before.lemma_wf_facts();
                after_run.lemma_wf_facts();
                if before.pos() < s.len() {
                    lemma_lex_step(
                        s,
                        before.pos(),
                        before.line,
                        before.tokens@,
                        after_run.tokens@,
                        self.pos(),
                        self.line,
                    );
                }
            }
            if self.at_end() {
                break ;
            }
        }
        proof {
            assert(self.pos() == s.len());
        }
        let eof = Token::new(TokenKind::EOF, self.line, LexerSpan(self.current, self.current));
        let ghost before_eof = self.tokens@;
        self.add_token(eof);
        proof {
            self.lemma_wf_facts();
            assert(token_views(self.tokens@) =~= token_views(before_eof).push(
                (TokenKind::EOF, LexerSpan(self.current, self.current), self.line),
            ));
            assert(self.tokens@.take(n0 as int) =~= old(self).tokens@) by {
                assert forall|i: int| 0 <= i < n0 implies self.tokens@.take(n0 as int)[i]
                    == old(self).tokens@[i] by {
                    assert(before_eof.take(n0 as int)[i] == old(self).tokens@[i]);
                }
            }
            if fresh {
                let t = self.tokens@;
                let n = t.len() - 1;
                assert forall|i: int| 0 <= i < n implies #[trigger] t[i] == before_eof[i] by {}
                assert(t[n] == eof);
                assert(self.current == byte_len(s));
                assert forall|i: int| 0 <= i < n implies #[trigger] t[i].kind != TokenKind::EOF by {
                    assert(t[i] == before_eof[i]);
                }
                assert forall|i: int| 0 <= i < n implies {
                    &&& t[i].span.0 <= t[i].span.1 < byte_len(s)
                    &&& code_point_offset(s, t[i].span.0 as int)
                    &&& code_point_offset(s, #[trigger] t[i].span.1 as int)
                } by {
                    assert(t[i] == before_eof[i]);
                    assert(before_eof[i].kind != TokenKind::EOF);
                }
                assert forall|i: int, j: int| 0 <= i < j < n implies #[trigger] t[i].span.1
                    < #[trigger] t[j].span.0 by {
                    assert(t[i] == before_eof[i]);
                    assert(t[j] == before_eof[j]);
                    assert(before_eof[i].span.1 < before_eof[j].span.0);
                }
                assert forall|i: int, j: int| 0 <= i < j < t.len() implies #[trigger] t[i].line
                    <= #[trigger] t[j].line by {
                    assert(t[i] == before_eof[i]);
                    assert(before_eof[i].kind != TokenKind::EOF);
                    if j < n {
                        assert(t[j] == before_eof[j]);
                        assert(before_eof[i].line <= before_eof[j].line);
                    }
                }
            }
        }
        self.tokens.as_slice()
    }
}


/// The byte cursor always lies on a character boundary of the input: it is the offset of the
/// code point at the cursor's index (or the end), never inside a code point's encoding.
pub proof fn law_cursor_on_char_boundary(l: &Lexer)
    requires
        l.wf(),
    ensures
        l.current == byte_offset(l.src(), l.pos()),
        l.current <= l.input.spec_bytes().len(),
        vstd::utf8::is_char_boundary(l.input.spec_bytes(), l.current as int),
{
    crate::chars::lemma_offset_is_char_boundary(l.src(), l.pos());
    crate::chars::lemma_byte_len_encoding(l.src());
    lemma_byte_offset_mono(l.src(), l.pos(), l.src().len() as int);
}

/// A lexer's state is its position: two well-formed lexers over one input whose cursors stand on
/// the same code point agree on the cursor's byte offset and on the widths they remember.
pub proof fn law_position_determines_cursor(a: &Lexer, b: &Lexer)
    requires
        a.wf(),
        b.wf(),
        a.input == b.input,
        a.pos() == b.pos(),
    ensures
        a.current == b.current,
        a.last_size_memo@ == b.last_size_memo@,
{
    assert(a.last_size_memo@ =~= b.last_size_memo@);
}

/// Stepping back undoes advancing: after `advance` over a code point and then `step_back`, the
/// lexer is where it was, with the same cursor, widths, line and tokens.
pub proof fn law_step_back_undoes_advance(before: &Lexer, advanced: &Lexer, restored: &Lexer)
    requires
        before.wf(),
        before.pos() < before.src().len(),
        advanced.wf(),
        advanced.same_frame(before),
        advanced.line == before.line,
        advanced.tokens == before.tokens,
        advanced.pos() == before.pos() + 1,
        restored.wf(),
        restored.same_frame(advanced),
        restored.line == advanced.line,
        restored.tokens == advanced.tokens,
        restored.pos() == advanced.pos() - 1,
    ensures
        restored.current == before.current,
        restored.last_size_memo@ == before.last_size_memo@,
        restored.line == before.line,
        restored.tokens == before.tokens,
        restored.input == before.input,
{
    law_position_determines_cursor(restored, before);
}

} // verus!

verus! {

/// Where lexing resumes after a lexeme that stopped on index `last`.
pub open spec fn resume_at(s: Seq<char>, last: int) -> int {
    if last < s.len() {
        last + 1
    } else {
        s.len() as int
    }
}

/// The first and last code point index of every lexeme from index `p` on, tokens, comments
/// and errors alike.
pub open spec fn lexeme_spans(s: Seq<char>, p: int) -> Seq<(int, int)>
    decreases s.len() - p,
{
    if p < 0 || p >= s.len() {
        seq![]
    } else {
        proof {
            lemma_lexeme_progress(s, p);
        }
        seq![(p, lexeme(s, p).1)] + lexeme_spans(s, resume_at(s, lexeme(s, p).1))
    }
}

/// From index `p` on, every lexeme is a token that ends on a code point of `s`: no comment, no
/// lexing error, no lexeme cut off by the end of the input.
pub open spec fn clean_from(s: Seq<char>, p: int) -> bool
    decreases s.len() - p,
{
    if p < 0 || p >= s.len() {
        true
    } else {
        proof {
            lemma_lexeme_progress(s, p);
        }
        &&& lexeme(s, p).0 is Token
        &&& lexeme(s, p).1 < s.len()
        &&& clean_from(s, lexeme(s, p).1 + 1)
    }
}

/// The tokens of a clean input rebuild it: lexing from `p` gives one token per lexeme, each
/// spanning the byte offsets of the first and last code point of its lexeme, and these
/// lexemes follow one another without gap or overlap from `p` to the last code point.
pub proof fn law_clean_tokens_tile_the_input(s: Seq<char>, p: int, line: usize)
    requires
        0 <= p <= s.len(),
        clean_from(s, p),
    ensures
        ({
            let ts = lex_from(s, p, line).0;
            let spans = lexeme_spans(s, p);
            &&& ts.len() == spans.len()
            &&& (ts.len() == 0 <==> p == s.len())
            &&& forall|i: int|
                0 <= i < ts.len() ==> #[trigger] ts[i].1 == LexerSpan(
                    byte_offset(s, spans[i].0) as usize,
                    byte_offset(s, spans[i].1) as usize,
                )
            &&& forall|i: int| 0 <= i < spans.len() ==> p <= #[trigger] spans[i].0 <= spans[i].1 < s.len()
            &&& spans.len() > 0 ==> spans[0].0 == p && spans.last().1 == s.len() - 1
            &&& forall|i: int|
                0 <= i < spans.len() - 1 ==> #[trigger] spans[i + 1].0 == spans[i].1 + 1
        }),
    decreases s.len() - p,
{
    if p < s.len() {
        lemma_lexeme_progress(s, p);
        let last = lexeme(s, p).1;
        law_clean_tokens_tile_the_input(s, last + 1, add_lines(line, lexeme_lines(s, p)));
        let ts = lex_from(s, p, line).0;
        let rest = lex_from(s, last + 1, add_lines(line, lexeme_lines(s, p))).0;
        let spans = lexeme_spans(s, p);
        let rspans = lexeme_spans(s, last + 1);
        assert(ts =~= seq![ts[0]] + rest);
        assert(spans =~= seq![(p, last)] + rspans);
        assert forall|i: int| 0 <= i < ts.len() implies #[trigger] ts[i].1 == LexerSpan(
            byte_offset(s, spans[i].0) as usize,
            byte_offset(s, spans[i].1) as usize,
        ) by {
            if i > 0 {
                assert(ts[i] == rest[i - 1]);
                assert(spans[i] == rspans[i - 1]);
            }
        }
        assert forall|i: int| 0 <= i < spans.len() - 1 implies #[trigger] spans[i + 1].0 == spans[i].1 + 1 by {
            if i > 0 {
                assert(spans[i] == rspans[i - 1]);
                assert(spans[i + 1] == rspans[i]);
                let j = i - 1;
                assert(rspans[j + 1].0 == rspans[j].1 + 1);
                assert(j + 1 == i);
            } else {
                assert(rspans.len() > 0);
                assert(rspans[0].0 == last + 1);
                assert(spans[0] == (p, last));
                assert(spans[1] == rspans[0]);
            }
        }
        assert forall|i: int| 0 <= i < spans.len() implies p <= #[trigger] spans[i].0 <= spans[i].1 < s.len() by {
            if i > 0 {
                assert(spans[i] == rspans[i - 1]);
            }
        }
        if rspans.len() > 0 {
            assert(spans.last() == rspans.last());
        }
    }
}

/// Lexing never yields more tokens than there are code points left: each lexeme covers at
/// least one code point and adds at most one token. So `scan` on a fresh lexer returns at most
/// one token per code point, plus the end-of-file token.
pub proof fn law_token_count_bound(s: Seq<char>, p: int, line: usize)
    requires
        0 <= p <= s.len(),
    ensures
        lex_from(s, p, line).0.len() <= s.len() - p,
    decreases s.len() - p,
{
    if p < s.len() {
        lemma_lexeme_progress(s, p);
        let last = lexeme(s, p).1;
        let next = resume_at(s, last);
        law_token_count_bound(s, next, add_lines(line, lexeme_lines(s, p)));
    }
}

/// The single-code-point kinds that `punctuation_kind` gives.
pub open spec fn is_punctuation(k: TokenKind) -> bool {
    k == TokenKind::CURLY_OPEN || k == TokenKind::CURLY_CLOSE || k == TokenKind::BRACKET_OPEN
        || k == TokenKind::BRACKET_CLOSE || k == TokenKind::PAREN_OPEN || k
        == TokenKind::PAREN_CLOSE || k == TokenKind::SEMICOLON || k == TokenKind::COLON || k
        == TokenKind::COMMA
}

/// A closed string ends on its quote.
proof fn lemma_string_closed(s: Seq<char>, q: int, t: char)
    requires
        0 <= q,
        string_end(s, q, t).1,
    ensures
        q <= string_end(s, q, t).0 < s.len(),
        s[string_end(s, q, t).0] == t,
    decreases s.len() - q,
{
    if q < s.len() {
        if s[q] == '\\' {
            let b = backslashes_end(s, q);
            lemma_backslashes_end(s, q);
            if (b - q) % 2 == 1 {
                if b < s.len() {
                    if s[b] == '\r' && char_at(s, b + 1) == Some('\n') {
                        lemma_string_closed(s, b + 2, t);
                    } else {
                        lemma_string_closed(s, b + 1, t);
                    }
                }
            } else {
                lemma_string_closed(s, b, t);
            }
        } else if s[q] != t && !css_newline(s[q]) {
            lemma_string_closed(s, q + 1, t);
        }
    }
}

/// What a lexeme's kind says of its text: no lexeme is an end-of-file token; a delimiter, a
/// slash or a punctuation token is its one code point; an at-keyword starts with `@`; a
/// function token ends on `(`, a percentage on `%`, a closed string on the quote it opened
/// with; whitespace is whitespace throughout. The text taken alone is stated further by
/// `law_lexeme_text_matches_kind`, `law_string_text`, `law_url_text` and `law_hash_text`.
pub proof fn law_lexeme_kinds_match_text(s: Seq<char>, p: int)
    requires
        0 <= p < s.len(),
    ensures
        ({
            let (l, last) = lexeme(s, p);
            &&& l != Lexeme::Token(TokenKind::EOF)
            &&& (l matches Lexeme::Token(TokenKind::DELIM(c)) ==> s[p] == c && last == p)
            &&& (l matches Lexeme::Token(k) ==> (is_punctuation(k) ==> punctuation_kind(s[p])
                == Some(k) && last == p))
            &&& (l == Lexeme::Token(TokenKind::SLASH) ==> s[p] == '/' && last == p)
            &&& (l == Lexeme::Token(TokenKind::AT_KEYWORD) ==> s[p] == '@')
            &&& (l == Lexeme::Token(TokenKind::FUNCTION) ==> last < s.len() && s[last] == '(')
            &&& (l == Lexeme::Token(TokenKind::PERCENTAGE) ==> last < s.len() && s[last] == '%')
            &&& (l == Lexeme::Token(TokenKind::STRING) ==> (s[p] == '"' || s[p] == '\'') && p
                < last < s.len() && s[last] == s[p])
            &&& (l == Lexeme::Token(TokenKind::WHITESPACE) ==> forall|k: int|
                p <= k <= last ==> css_whitespace(#[trigger] s[k]))
        }),
{
    let c = s[p];
    if css_whitespace(c) {
        lemma_whitespace_end(s, p);
    } else if c == '"' || c == '\'' {
        if string_end(s, p + 1, c).1 {
            lemma_string_closed(s, p + 1, c);
        }
    }
}

} // verus!

verus! {

// ---------------------------------------------------------------------------------------------
// A lexeme's text taken alone.
// ---------------------------------------------------------------------------------------------

/// The digits of a run that ends inside `s[p..e]` are the same run in the text `s[p..e]`.
proof fn lemma_digits_window(s: Seq<char>, p: int, e: int, q: int)
    requires
        0 <= p <= q <= e <= s.len(),
        digits_end(s, q) <= e,
    ensures
        digits_end(s.subrange(p, e), q - p) == digits_end(s, q) - p,
    decreases e - q,
{
    lemma_digits_end(s, q);
    if q < e && ascii_digit(s[q]) {
        lemma_digits_window(s, p, e, q + 1);
    }
}

/// A number that ends inside `s[p..e]` reads the same in the text `s[p..e]`.
proof fn lemma_number_window(s: Seq<char>, p: int, e: int)
    requires
        0 <= p <= e <= s.len(),
        starts_number(s, p),
        number_end(s, p) <= e,
    ensures
        starts_number(s.subrange(p, e), 0),
        number_end(s.subrange(p, e), 0) == number_end(s, p) - p,
{
    let t = s.subrange(p, e);
    lemma_number_end(s, p);
    let m0 = mantissa_end(s, p);
    if starts_exponent(s, m0) {
        lemma_digits_end(s, m0 + 1);
        lemma_digits_end(s, m0 + 2);
    }
    assert(m0 <= number_end(s, p));
    let q = mantissa_start(s, p);
    if char_at(s, q) == Some('.') && digit_at(s, q + 1) {
        lemma_digits_end(s, q + 1);
        lemma_digits_window(s, p, e, q + 1);
    } else {
        lemma_digits_end(s, q);
        let d = digits_end(s, q);
        if char_at(s, d) == Some('.') && digit_at(s, d + 1) {
            lemma_digits_end(s, d + 1);
        }
        lemma_digits_window(s, p, e, q);
        if char_at(s, d) == Some('.') && digit_at(s, d + 1) {
            lemma_digits_end(s, d + 1);
            lemma_digits_window(s, p, e, d + 1);
        }
    }
    let m = mantissa_end(s, p);
    assert(mantissa_end(t, 0) == m - p);
    if starts_exponent(s, m) {
        lemma_digits_end(s, m + 1);
        if sign_at(s, m + 1) {
            lemma_digits_end(s, m + 2);
            lemma_digits_window(s, p, e, m + 2);
        } else {
            lemma_digits_window(s, p, e, m + 1);
        }
    }
}

proof fn lemma_hex_digits_window(s: Seq<char>, p: int, e: int, q: int, budget: int)
    requires
        0 <= p <= q <= e <= s.len(),
        budget >= 0,
        hex_digits_end(s, q, budget) <= e,
    ensures
        hex_digits_end(s.subrange(p, e), q - p, budget) == hex_digits_end(s, q, budget) - p,
    decreases budget,
{
    lemma_hex_digits_end(s, q, budget);
    if budget > 0 && q < e && ascii_hex_digit(s[q]) {
        lemma_hex_digits_window(s, p, e, q + 1, budget - 1);
    }
}

/// An escape whose last code point lies inside `s[p..e]` reads the same in that text.
proof fn lemma_escape_window(s: Seq<char>, p: int, e: int, q: int)
    requires
        0 <= p <= q,
        e <= s.len(),
        valid_escape_at(s, q),
        escape_last(s, q) < e,
    ensures
        valid_escape_at(s.subrange(p, e), q - p),
        escape_last(s.subrange(p, e), q - p) == escape_last(s, q) - p,
{
    lemma_escape_last(s, q);
    if char_at(s, q + 1) matches Some(d) && ascii_digit(d) {
        let h = hex_digits_end(s, q + 1, 6);
        lemma_hex_digits_end(s, q + 1, 6);
        assert(h <= hex_body_end(s, q + 1));
        lemma_hex_digits_window(s, p, e, q + 1, 6);
    }
}

/// A name run that stops, cleanly, exactly at `e` reads the same in the text `s[p..e]`.
proof fn lemma_name_run_window(s: Seq<char>, p: int, e: int, q: int)
    requires
        0 <= p <= q <= e <= s.len(),
        name_run(s, q) == (e, false),
    ensures
        name_run(s.subrange(p, e), q - p) == (e - p, false),
    decreases e - q,
{
    lemma_name_run(s, q);
    if q < e && ident_char(s[q]) {
        lemma_name_run_window(s, p, e, q + 1);
    } else if q < e && s[q] == '\\' {
        lemma_escape_last(s, q);
        lemma_name_run(s, escape_last(s, q) + 1);
        lemma_escape_window(s, p, e, q);
        lemma_name_run_window(s, p, e, escape_last(s, q) + 1);
    }
}

/// The text `u` is exactly one identifier.
pub open spec fn is_ident_text(u: Seq<char>) -> bool {
    &&& starts_ident(u, 0)
    &&& name_run(u, ident_body_start(u, 0)) == (u.len() as int, false)
}

/// An identifier at `q` that begins with `-` and an escape, where the lexer's name run stops on
/// the escape's last code point and so leaves that code point out of the lexeme.
pub open spec fn drops_escaped_code_point(s: Seq<char>, q: int) -> bool {
    &&& char_at(s, q) == Some('-')
    &&& char_at(s, q + 1) == Some('\\')
    &&& name_run(s, escape_last(s, q + 1)).0 == escape_last(s, q + 1)
}

/// An identifier at `q` whose name run stops cleanly at `e` is, as the text `s[q..e]`, exactly
/// one identifier, unless it leaves out an escaped code point.
proof fn lemma_ident_window(s: Seq<char>, q: int, e: int)
    requires
        0 <= q <= e <= s.len(),
        starts_ident(s, q),
        name_run(s, ident_body_start(s, q)) == (e, false),
        !drops_escaped_code_point(s, q),
    ensures
        is_ident_text(s.subrange(q, e)),
{
    let t = s.subrange(q, e);
    lemma_ident_body_start(s, q);
    let b = ident_body_start(s, q);
    lemma_name_run(s, b);
    if char_at(s, q) == Some('-') {
        if !(s[q + 1] == '-' || ident_start_char(s[q + 1])) {
            lemma_escape_last(s, q + 1);
            assert(b < e);
            lemma_escape_window(s, q, e, q + 1);
        }
    } else if !(char_at(s, q) matches Some(c) && ident_start_char(c)) {
        lemma_escape_last(s, q);
        lemma_escape_window(s, q, e, q);
    }
    assert(ident_body_start(t, 0) == b - q);
    lemma_name_run_window(s, q, e, b);
}

/// The text `u` is exactly one CSS number.
pub open spec fn is_number_text(u: Seq<char>) -> bool {
    starts_number(u, 0) && number_end(u, 0) == u.len()
}

/// A number lexeme at `p`, taken alone, reads as its kind says.
proof fn lemma_number_lexeme_text(s: Seq<char>, p: int)
    requires
        0 <= p < s.len(),
        starts_number(s, p),
    ensures
        ({
            let (l, last) = number_lexeme(s, p);
            let t = s.subrange(p, last + 1);
            let n = number_end(s, p);
            &&& (l == Lexeme::Token(TokenKind::NUMBER) ==> last < s.len() && is_number_text(t))
            &&& (l == Lexeme::Token(TokenKind::PERCENTAGE) ==> last < s.len() && t.last() == '%'
                && is_number_text(t.drop_last()))
            &&& (l == Lexeme::Token(TokenKind::DIMENSION) ==> last < s.len() && starts_number(t, 0)
                && number_end(t, 0) == n - p && (!drops_escaped_code_point(s, n) ==> is_ident_text(
                t.skip(n - p),
            )))
        }),
{
    lemma_number_end(s, p);
    let n = number_end(s, p);
    if char_at(s, n) == Some('%') {
        lemma_number_window(s, p, n);
        assert(s.subrange(p, n + 1).drop_last() =~= s.subrange(p, n));
    } else if starts_ident(s, n) {
        lemma_ident_body_start(s, n);
        let run = name_run(s, ident_body_start(s, n));
        lemma_name_run(s, ident_body_start(s, n));
        if !run.1 {
            let e = run.0;
            lemma_number_window(s, p, e);
            if !drops_escaped_code_point(s, n) {
                lemma_ident_window(s, n, e);
                assert(s.subrange(p, e).skip(n - p) =~= s.subrange(n, e));
            }
        }
    } else {
        lemma_number_window(s, p, n);
    }
}

/// What a lexeme's text, taken alone, is, by its kind: a number token is exactly one CSS
/// number; a percentage a number and `%`; a dimension a number and an identifier; an
/// identifier exactly one identifier, a function token one and `(`, an at-keyword `@` and one;
/// an escape token exactly one escape; `CDO`, `CDC` and `!important` their fixed text.
/// Identifiers are exact except where the lexer leaves an escaped code point out (see
/// `drops_escaped_code_point`; for instance `-\` followed by a space).
pub proof fn law_lexeme_text_matches_kind(s: Seq<char>, p: int)
    requires
        0 <= p < s.len(),
    ensures
        ({
            let (l, last) = lexeme(s, p);
            let t = s.subrange(p, last + 1);
            &&& (l == Lexeme::Token(TokenKind::NUMBER) ==> last < s.len() && is_number_text(t))
            &&& (l == Lexeme::Token(TokenKind::PERCENTAGE) ==> last < s.len() && t.last() == '%'
                && is_number_text(t.drop_last()))
            &&& (l == Lexeme::Token(TokenKind::DIMENSION) ==> last < s.len() && starts_number(t, 0)
                && (!drops_escaped_code_point(s, p + number_end(t, 0)) ==> is_ident_text(
                t.skip(number_end(t, 0)),
            )))
            &&& (l == Lexeme::Token(TokenKind::IDENT) ==> last < s.len() && (
            !drops_escaped_code_point(s, p) ==> is_ident_text(t)))
            &&& (l == Lexeme::Token(TokenKind::FUNCTION) ==> last < s.len() && t.last() == '('
                && (!drops_escaped_code_point(s, p) ==> is_ident_text(t.drop_last())))
            &&& (l == Lexeme::Token(TokenKind::AT_KEYWORD) ==> last < s.len() && t[0] == '@' && (
            !drops_escaped_code_point(s, p + 1) ==> is_ident_text(t.skip(1))))
            &&& (l == Lexeme::Token(TokenKind::ESCAPE) ==> last < s.len() && valid_escape_at(t, 0)
                && escape_last(t, 0) == t.len() - 1)
            &&& (l == Lexeme::Token(TokenKind::CDO) ==> t == seq!['<', '!', '-', '-'])
            &&& (l == Lexeme::Token(TokenKind::CDC) ==> t == seq!['-', '-', '>'])
            &&& (l == Lexeme::Token(TokenKind::IMPORTANT_TOKEN) ==> t == seq![
                '!',
                'i',
                'm',
                'p',
                'o',
                'r',
                't',
                'a',
                'n',
                't',
            ])
        }),
{
    let c = s[p];
    if css_whitespace(c) || c == '"' || c == '\'' || punctuation_kind(c) is Some || c == '/' {
    } else if c == '+' || c == '.' {
        if starts_number(s, p) {
            lemma_number_lexeme_text(s, p);
        }
    } else if ascii_digit(c) {
        assert(starts_number(s, p));
        lemma_number_lexeme_text(s, p);
    } else if c == '\\' {
        if valid_escape_at(s, p) {
            lemma_escape_last(s, p);
            lemma_escape_window(s, p, escape_last(s, p) + 1, p);
        }
    } else if c == '@' {
        if starts_ident(s, p + 1) {
            lemma_ident_body_start(s, p + 1);
            let run = name_run(s, ident_body_start(s, p + 1));
            lemma_name_run(s, ident_body_start(s, p + 1));
            if !run.1 && !drops_escaped_code_point(s, p + 1) {
                lemma_ident_window(s, p + 1, run.0);
                assert(s.subrange(p, run.0).skip(1) =~= s.subrange(p + 1, run.0));
            }
        }
    } else if continues_with(s, p, seq!['<', '!', '-', '-']) {
        assert(s.subrange(p, p + 4) =~= seq!['<', '!', '-', '-']);
    } else if continues_with(s, p, seq!['-', '-', '>']) {
        assert(s.subrange(p, p + 3) =~= seq!['-', '-', '>']);
    } else if starts_url(s, p) {
    } else if starts_ident(s, p) {
        lemma_ident_body_start(s, p);
        let run = name_run(s, ident_body_start(s, p));
        lemma_name_run(s, ident_body_start(s, p));
        if !run.1 && !drops_escaped_code_point(s, p) {
            lemma_ident_window(s, p, run.0);
            if char_at(s, run.0) == Some('(') {
                assert(s.subrange(p, run.0 + 1).drop_last() =~= s.subrange(p, run.0));
            }
        }
    } else if c == '-' && starts_number(s, p) {
        lemma_number_lexeme_text(s, p);
    } else if continues_with(s, p, seq!['!', 'i', 'm', 'p', 'o', 'r', 't', 'a', 'n', 't']) {
        assert(s.subrange(p, p + 10) =~= seq!['!', 'i', 'm', 'p', 'o', 'r', 't', 'a', 'n', 't']);
    }
}

proof fn lemma_backslashes_window(s: Seq<char>, p: int, e: int, q: int)
    requires
        0 <= p <= q <= e <= s.len(),
        backslashes_end(s, q) <= e,
    ensures
        backslashes_end(s.subrange(p, e), q - p) == backslashes_end(s, q) - p,
    decreases e - q,
{
    lemma_backslashes_end(s, q);
    if q < e && s[q] == '\\' {
        lemma_backslashes_window(s, p, e, q + 1);
    }
}

/// A string whose closing quote is the last code point of `s[p..e]` reads the same there.
proof fn lemma_string_window(s: Seq<char>, p: int, e: int, q: int, t: char)
    requires
        0 <= p <= q,
        e <= s.len(),
        string_end(s, q, t) == (e - 1, true),
    ensures
        string_end(s.subrange(p, e), q - p, t) == (e - 1 - p, true),
    decreases s.len() - q,
{
    lemma_string_closed(s, q, t);
    if s[q] == '\\' {
        let b = backslashes_end(s, q);
        lemma_backslashes_end(s, q);
        if (b - q) % 2 == 1 {
            if s[b] == '\r' && char_at(s, b + 1) == Some('\n') {
                lemma_string_end(s, b + 2, t);
                lemma_backslashes_window(s, p, e, q);
                lemma_string_window(s, p, e, b + 2, t);
            } else {
                lemma_string_end(s, b + 1, t);
                lemma_backslashes_window(s, p, e, q);
                lemma_string_window(s, p, e, b + 1, t);
            }
        } else {
            lemma_string_closed(s, b, t);
            lemma_backslashes_window(s, p, e, q);
            lemma_string_window(s, p, e, b, t);
        }
    } else if s[q] != t {
        lemma_string_closed(s, q + 1, t);
        lemma_string_window(s, p, e, q + 1, t);
    }
}

/// The text `u` is exactly one closed string.
pub open spec fn is_string_text(u: Seq<char>) -> bool {
    &&& u.len() >= 2
    &&& (u[0] == '"' || u[0] == '\'')
    &&& string_end(u, 1, u[0]) == (u.len() - 1, true)
}

/// A closed string lexeme, taken alone, is exactly one closed string.
pub proof fn law_string_text(s: Seq<char>, p: int)
    requires
        0 <= p < s.len(),
        lexeme(s, p).0 == Lexeme::Token(TokenKind::STRING),
    ensures
        lexeme(s, p).1 < s.len(),
        is_string_text(s.subrange(p, lexeme(s, p).1 + 1)),
{
    let c = s[p];
    lemma_string_closed(s, p + 1, c);
    let e = string_end(s, p + 1, c).0 + 1;
    lemma_string_window(s, p, e, p + 1, c);
}

proof fn lemma_whitespace_window(s: Seq<char>, p: int, e: int, q: int)
    requires
        0 <= p <= q <= e <= s.len(),
        whitespace_end(s, q) <= e,
    ensures
        whitespace_end(s.subrange(p, e), q - p) == whitespace_end(s, q) - p,
    decreases e - q,
{
    lemma_whitespace_end(s, q);
    if q < e && css_whitespace(s[q]) {
        lemma_whitespace_window(s, p, e, q + 1);
    }
}

/// The content of a good URL that ends on the last code point of `s[p..e]` reads the same
/// there.
proof fn lemma_url_body_window(s: Seq<char>, p: int, e: int, q: int)
    requires
        0 <= p <= q <= e <= s.len(),
        url_body(s, q) == (e - 1, true),
    ensures
        url_body(s.subrange(p, e), q - p) == (e - 1 - p, true),
    decreases s.len() - q,
{
    if q < s.len() {
        lemma_url_body(s, q + 1);
        lemma_whitespace_end(s, q);
        if css_whitespace(s[q]) {
            lemma_whitespace_window(s, p, e, q);
        } else if s[q] == '\\' && valid_escape_at(s, q) {
            lemma_escape_last(s, q);
            lemma_url_body(s, escape_last(s, q) + 1);
            lemma_escape_window(s, p, e, q);
            lemma_url_body_window(s, p, e, escape_last(s, q) + 1);
        } else if s[q] != ')' && s[q] != '"' && s[q] != '\'' && s[q] != '(' && s[q] != '\\'
            && css_printable(s[q]) {
            lemma_url_body_window(s, p, e, q + 1);
        }
    }
}

/// The text `u` is exactly one good URL token: `url(` in any ASCII case, then its content.
pub open spec fn is_url_text(u: Seq<char>) -> bool {
    &&& starts_url(u, 0)
    &&& url_end(u, 3) == (u.len() - 1, true)
}

/// A good URL lexeme, taken alone, is exactly one good URL; it ends on `)` unless the input
/// ended first.
pub proof fn law_url_text(s: Seq<char>, p: int)
    requires
        0 <= p < s.len(),
        lexeme(s, p).0 == Lexeme::Token(TokenKind::URL),
    ensures
        lexeme(s, p).1 < s.len(),
        is_url_text(s.subrange(p, lexeme(s, p).1 + 1)),
        lexeme(s, p).1 < s.len() - 1 ==> s[lexeme(s, p).1] == ')',
{
    lemma_whitespace_end(s, p + 4);
    let w = whitespace_end(s, p + 4);
    lemma_url_body(s, w);
    lemma_url_body_closes(s, w);
    let e = url_body(s, w).0 + 1;
    assert(w <= e <= s.len());
    lemma_url_body_window(s, p, e, w);
    lemma_whitespace_window(s, p, e, p + 4);
}

/// A good URL's content ends on `)`, or on the last code point of the input.
proof fn lemma_url_body_closes(s: Seq<char>, q: int)
    requires
        0 <= q <= s.len(),
        url_body(s, q).1,
    ensures
        url_body(s, q).0 < s.len(),
        url_body(s, q).0 < s.len() - 1 ==> s[url_body(s, q).0] == ')',
    decreases s.len() - q,
{
    if q < s.len() {
        lemma_whitespace_end(s, q);
        if s[q] == '\\' && valid_escape_at(s, q) {
            lemma_escape_last(s, q);
            lemma_url_body_closes(s, escape_last(s, q) + 1);
        } else if s[q] != ')' && !css_whitespace(s[q]) {
            lemma_url_body_closes(s, q + 1);
        }
    }
}

proof fn lemma_hash_run_window(s: Seq<char>, p: int, e: int, q: int)
    requires
        0 <= p <= q <= e <= s.len(),
        hash_run(s, q) == e,
    ensures
        hash_run(s.subrange(p, e), q - p) == e - p,
    decreases e - q,
{
    lemma_hash_run(s, q);
    if q < e && ident_char(s[q]) {
        lemma_hash_run_window(s, p, e, q + 1);
    } else if q < e && valid_escape_at(s, q) {
        lemma_escape_last(s, q);
        lemma_hash_run(s, escape_last(s, q) + 1);
        lemma_escape_window(s, p, e, q);
        lemma_hash_run_window(s, p, e, escape_last(s, q) + 1);
    }
}

/// A hash at `p` that begins with an escape whose last code point ends the hash's name run,
/// so that the lexer leaves that code point out of the lexeme.
pub open spec fn drops_escaped_hash_code_point(s: Seq<char>, p: int) -> bool {
    &&& char_at(s, p + 1) == Some('\\')
    &&& hash_run(s, escape_last(s, p + 1)) == escape_last(s, p + 1)
}

/// The text `u` is exactly one hash: `#` and a name of name code points and escapes.
pub open spec fn is_hash_text(u: Seq<char>) -> bool {
    &&& u.len() >= 2
    &&& u[0] == '#'
    &&& hash_run(u, hash_body_start(u, 0)) == u.len()
}

/// A hash lexeme, taken alone, is exactly one hash, whose name starts an identifier when it is
/// an id hash; unless the lexer leaves an escaped code point out of it.
pub proof fn law_hash_text(s: Seq<char>, p: int)
    requires
        0 <= p < s.len(),
        lexeme(s, p).0 == Lexeme::Token(TokenKind::ID_HASH) || lexeme(s, p).0 == Lexeme::Token(
            TokenKind::GENERIC_HASH,
        ),
        !drops_escaped_hash_code_point(s, p),
    ensures
        lexeme(s, p).1 < s.len(),
        is_hash_text(s.subrange(p, lexeme(s, p).1 + 1)),
        lexeme(s, p).0 == Lexeme::Token(TokenKind::ID_HASH) ==> starts_ident(
            s.subrange(p, lexeme(s, p).1 + 1),
            1,
        ),
{
    let b = hash_body_start(s, p);
    if char_at(s, p + 1) matches Some(c) && ident_char(c) {
    } else {
        lemma_escape_last(s, p + 1);
    }
    lemma_hash_run(s, b);
    let e = hash_run(s, b);
    if !(char_at(s, p + 1) matches Some(c) && ident_char(c)) {
        assert(e > escape_last(s, p + 1));
        lemma_escape_window(s, p, e, p + 1);
    }
    lemma_hash_run_window(s, p, e, b);
    if lexeme(s, p).0 == Lexeme::Token(TokenKind::ID_HASH) {
        lemma_ident_body_start(s, p + 1);
    }
}

} // verus!
