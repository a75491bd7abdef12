//! Token taxonomy and the scanning algorithm.
//!
//! The classifier determines, for each position of the source, the longest
//! prefix starting there that matches some token pattern and which kind it
//! is; the scanner drives the classifier across the whole input.

use vstd::prelude::*;

pub use crate::diag::LexerError;

use crate::diag::error_message;

verus! {

/// A half-open `[start, end)` offset range into the source string,
/// measured in characters.
#[derive(Clone, Copy, Debug, PartialEq, Eq, Structural)]
pub struct Span {
    pub start: usize,
    pub end: usize,
}

/// The classified category of one lexical unit.
///
/// Every maximal match belongs to exactly one kind. `Error` is the catch-all
/// for unmatched input; `Whitespace` is matched and discarded, never emitted
/// downstream. The numeric value of a `Number` is not carried here: the text
/// is recoverable from the span, as it is for `Id` and `String`.
#[derive(Clone, Copy, Debug, PartialEq, Eq, Structural)]
pub enum Token {
    // Meta
    Error,
    Whitespace,
    // Literals
    Id,
    Number,
    String,
    // Keywords
    And,
    Class,
    Else,
    False,
    Fun,
    For,
    If,
    Nil,
    Or,
    Print,
    Return,
    Super,
    This,
    True,
    Var,
    While,
    // Symbols
    LeftParen,
    RightParen,
    LeftBrace,
    RightBrace,
    Comma,
    Dot,
    Minus,
    Plus,
    Semicolon,
    Slash,
    Star,
    // Comparison symbols
    Bang,
    BangEqual,
    Equal,
    EqualEqual,
    Greater,
    GreaterEqual,
    Less,
    LessEqual,
}

// ---------------------------------------------------------------------------
// Character classes
// ---------------------------------------------------------------------------

/// Whitespace: space, carriage return, tab, newline, form feed.
pub open spec fn is_space_char(c: char) -> bool {
    c == ' ' || c == '\r' || c == '\t' || c == '\n' || c == '\u{000c}'
}

/// An ASCII decimal digit.
pub open spec fn is_digit_char(c: char) -> bool {
    48 <= c as u32 && c as u32 <= 57
}

/// A character that may begin an identifier: an ASCII letter or `_`.
pub open spec fn is_alpha_char(c: char) -> bool {
    (97 <= c as u32 && c as u32 <= 122) || (65 <= c as u32 && c as u32 <= 90) || c == '_'
}

/// A character that may continue an identifier.
pub open spec fn is_ident_char(c: char) -> bool {
    is_alpha_char(c) || is_digit_char(c)
}

/// A line break, which ends the region a string literal may occupy.
pub open spec fn is_line_break(c: char) -> bool {
    c == '\n' || c == '\r'
}

// ---------------------------------------------------------------------------
// Maximal runs of one character class
// ---------------------------------------------------------------------------

/// Length of the maximal run of whitespace characters starting at `i`.
pub open spec fn space_run(s: Seq<char>, i: int) -> int
    decreases s.len() - i when 0 <= i <= s.len()
{
    if i < s.len() && is_space_char(s[i]) {
        1 + space_run(s, i + 1)
    } else {
        0
    }
}

/// Length of the maximal run of digits starting at `i`.
pub open spec fn digit_run(s: Seq<char>, i: int) -> int
    decreases s.len() - i when 0 <= i <= s.len()
{
    if i < s.len() && is_digit_char(s[i]) {
        1 + digit_run(s, i + 1)
    } else {
        0
    }
}

/// Length of the maximal run of identifier characters starting at `i`.
pub open spec fn ident_run(s: Seq<char>, i: int) -> int
    decreases s.len() - i when 0 <= i <= s.len()
{
    if i < s.len() && is_ident_char(s[i]) {
        1 + ident_run(s, i + 1)
    } else {
        0
    }
}

/// Length of the maximal run of non-line-break characters starting at `i`.
pub open spec fn nonbreak_run(s: Seq<char>, i: int) -> int
    decreases s.len() - i when 0 <= i <= s.len()
{
    if i < s.len() && !is_line_break(s[i]) {
        1 + nonbreak_run(s, i + 1)
    } else {
        0
    }
}

pub proof fn lemma_space_run_bounds(s: Seq<char>, i: int)
    requires
        0 <= i <= s.len(),
    ensures
        0 <= space_run(s, i),
        i + space_run(s, i) <= s.len(),
        i < s.len() && is_space_char(s[i]) ==> space_run(s, i) >= 1,
    decreases s.len() - i,
{
    if i < s.len() && is_space_char(s[i]) {
        lemma_space_run_bounds(s, i + 1);
    }
}

pub proof fn lemma_digit_run_bounds(s: Seq<char>, i: int)
    requires
        0 <= i <= s.len(),
    ensures
        0 <= digit_run(s, i),
        i + digit_run(s, i) <= s.len(),
        i < s.len() && is_digit_char(s[i]) ==> digit_run(s, i) >= 1,
    decreases s.len() - i,
{
    if i < s.len() && is_digit_char(s[i]) {
        lemma_digit_run_bounds(s, i + 1);
    }
}

pub proof fn lemma_ident_run_bounds(s: Seq<char>, i: int)
    requires
        0 <= i <= s.len(),
    ensures
        0 <= ident_run(s, i),
        i + ident_run(s, i) <= s.len(),
        i < s.len() && is_ident_char(s[i]) ==> ident_run(s, i) >= 1,
    decreases s.len() - i,
{
    if i < s.len() && is_ident_char(s[i]) {
        lemma_ident_run_bounds(s, i + 1);
    }
}

pub proof fn lemma_nonbreak_run_bounds(s: Seq<char>, i: int)
    requires
        0 <= i <= s.len(),
    ensures
        0 <= nonbreak_run(s, i),
        i + nonbreak_run(s, i) <= s.len(),
    decreases s.len() - i,
{
    if i < s.len() && !is_line_break(s[i]) {
        lemma_nonbreak_run_bounds(s, i + 1);
    }
}

/// A whitespace run's length is pinned by its characters.
pub proof fn lemma_space_run_is(s: Seq<char>, i: int, n: int)
    requires
        0 <= i,
        0 <= n,
        i + n <= s.len(),
        forall|k: int| i <= k < i + n ==> is_space_char(s[k]),
        i + n == s.len() || !is_space_char(s[i + n]),
    ensures
        space_run(s, i) == n,
    decreases n,
{
    if n > 0 {
        lemma_space_run_is(s, i + 1, n - 1);
    }
}

/// A digit run's length is pinned by its characters.
pub proof fn lemma_digit_run_is(s: Seq<char>, i: int, n: int)
    requires
        0 <= i,
        0 <= n,
        i + n <= s.len(),
        forall|k: int| i <= k < i + n ==> is_digit_char(s[k]),
        i + n == s.len() || !is_digit_char(s[i + n]),
    ensures
        digit_run(s, i) == n,
    decreases n,
{
    if n > 0 {
        lemma_digit_run_is(s, i + 1, n - 1);
    }
}

/// An identifier run's length is pinned by its characters.
pub proof fn lemma_ident_run_is(s: Seq<char>, i: int, n: int)
    requires
        0 <= i,
        0 <= n,
        i + n <= s.len(),
        forall|k: int| i <= k < i + n ==> is_ident_char(s[k]),
        i + n == s.len() || !is_ident_char(s[i + n]),
    ensures
        ident_run(s, i) == n,
    decreases n,
{
    if n > 0 {
        lemma_ident_run_is(s, i + 1, n - 1);
    }
}

/// A non-line-break run's length is pinned by its characters.
pub proof fn lemma_nonbreak_run_is(s: Seq<char>, i: int, n: int)
    requires
        0 <= i,
        0 <= n,
        i + n <= s.len(),
        forall|k: int| i <= k < i + n ==> !is_line_break(s[k]),
        i + n == s.len() || is_line_break(s[i + n]),
    ensures
        nonbreak_run(s, i) == n,
    decreases n,
{
    if n > 0 {
        lemma_nonbreak_run_is(s, i + 1, n - 1);
    }
}

// ---------------------------------------------------------------------------
// String literals
// ---------------------------------------------------------------------------

/// Index of the last `"` strictly after `pos` and strictly before `stop`,
/// or `-1` if there is none.
pub open spec fn last_quote(s: Seq<char>, pos: int, stop: int) -> int
    decreases stop - pos,
{
    if stop <= pos + 1 {
        -1
    } else if s[stop - 1] == '"' {
        stop - 1
    } else {
        last_quote(s, pos, stop - 1)
    }
}

pub proof fn lemma_last_quote_bounds(s: Seq<char>, pos: int, stop: int)
    requires
        0 <= pos,
        pos + 1 <= stop <= s.len(),
    ensures
        last_quote(s, pos, stop) < stop,
        last_quote(s, pos, stop) >= 0 ==> pos + 1 <= last_quote(s, pos, stop) && s[last_quote(
            s,
            pos,
            stop,
        )] == '"',
    decreases stop - pos,
{
    if stop <= pos + 1 {
    } else if s[stop - 1] == '"' {
    } else {
        lemma_last_quote_bounds(s, pos, stop - 1);
    }
}

/// When no quote stands strictly between `pos` and `stop`, there is no match.
pub proof fn lemma_last_quote_none(s: Seq<char>, pos: int, stop: int)
    requires
        forall|k: int| pos < k < stop ==> s[k] != '"',
    ensures
        last_quote(s, pos, stop) == -1,
    decreases stop - pos,
{
    if stop > pos + 1 {
        lemma_last_quote_none(s, pos, stop - 1);
    }
}

/// A quote with no later quote before `stop` is the last one.
pub proof fn lemma_last_quote_some(s: Seq<char>, pos: int, stop: int, q: int)
    requires
        pos < q < stop,
        s[q] == '"',
        forall|k: int| q < k < stop ==> s[k] != '"',
    ensures
        last_quote(s, pos, stop) == q,
    decreases stop - pos,
{
    if stop - 1 > q {
        lemma_last_quote_some(s, pos, stop - 1, q);
    }
}

/// Length of the string-literal match starting at `pos`, or `0` if none.
///
/// The pattern is a `"`, zero or more non-line-break characters, and a
/// closing `"`. The longest match wins, so the literal closes at the last
/// quote on the line. An unterminated string (no closing quote before a line
/// break or the end of input) does not match and falls through to the error
/// path.
pub open spec fn string_run(s: Seq<char>, pos: int) -> int {
    if 0 <= pos < s.len() && s[pos] == '"' {
        let stop = pos + 1 + nonbreak_run(s, pos + 1);
        let q = last_quote(s, pos, stop);
        if q >= 0 {
            q + 1 - pos
        } else {
            0
        }
    } else {
        0
    }
}

pub proof fn lemma_string_run_bounds(s: Seq<char>, pos: int)
    requires
        0 <= pos < s.len(),
    ensures
        string_run(s, pos) == 0 || 2 <= string_run(s, pos),
        pos + string_run(s, pos) <= s.len(),
{
    if s[pos] == '"' {
        lemma_nonbreak_run_bounds(s, pos + 1);
        let stop = pos + 1 + nonbreak_run(s, pos + 1);
        lemma_last_quote_bounds(s, pos, stop);
    }
}

// ---------------------------------------------------------------------------
// Numeric literals
// ---------------------------------------------------------------------------

/// Length of the numeric-literal match starting at `pos`, or `0` if none.
///
/// The pattern is an optional leading `-`, one or more digits, and an
/// optional `.` followed by one or more digits.
pub open spec fn number_run(s: Seq<char>, pos: int) -> int {
    if 0 <= pos < s.len() {
        let p = if s[pos] == '-' {
            pos + 1
        } else {
            pos
        };
        let d = digit_run(s, p);
        if d == 0 {
            0
        } else {
            let q = p + d;
            let f = if q < s.len() && s[q] == '.' {
                digit_run(s, q + 1)
            } else {
                0
            };
            if f > 0 {
                q + 1 + f - pos
            } else {
                q - pos
            }
        }
    } else {
        0
    }
}

pub proof fn lemma_number_run_bounds(s: Seq<char>, pos: int)
    requires
        0 <= pos < s.len(),
    ensures
        number_run(s, pos) == 0 || 1 <= number_run(s, pos),
        pos + number_run(s, pos) <= s.len(),
        is_digit_char(s[pos]) ==> number_run(s, pos) >= 1,
{
    let p = if s[pos] == '-' {
        pos + 1
    } else {
        pos
    };
    lemma_digit_run_bounds(s, p);
    let d = digit_run(s, p);
    if d > 0 {
        let q = p + d;
        if q < s.len() && s[q] == '.' {
            lemma_digit_run_bounds(s, q + 1);
        }
    }
}

// ---------------------------------------------------------------------------
// Keywords and identifiers
// ---------------------------------------------------------------------------

/// `w` spells the given word exactly, character for character.
pub open spec fn spells2(w: Seq<char>, c0: char, c1: char) -> bool {
    w.len() == 2 && w[0] == c0 && w[1] == c1
}

pub open spec fn spells3(w: Seq<char>, c0: char, c1: char, c2: char) -> bool {
    w.len() == 3 && w[0] == c0 && w[1] == c1 && w[2] == c2
}

pub open spec fn spells4(w: Seq<char>, c0: char, c1: char, c2: char, c3: char) -> bool {
    w.len() == 4 && w[0] == c0 && w[1] == c1 && w[2] == c2 && w[3] == c3
}

pub open spec fn spells5(w: Seq<char>, c0: char, c1: char, c2: char, c3: char, c4: char) -> bool {
    w.len() == 5 && w[0] == c0 && w[1] == c1 && w[2] == c2 && w[3] == c3 && w[4] == c4
}

pub open spec fn spells6(
    w: Seq<char>,
    c0: char,
    c1: char,
    c2: char,
    c3: char,
    c4: char,
    c5: char,
) -> bool {
    w.len() == 6 && w[0] == c0 && w[1] == c1 && w[2] == c2 && w[3] == c3 && w[4] == c4 && w[5]
        == c5
}

/// The reserved word that `w` spells, if any. Exact, case-sensitive match.
pub open spec fn keyword_of(w: Seq<char>) -> Option<Token> {
    if spells3(w, 'a', 'n', 'd') {
        Some(Token::And)
    } else if spells5(w, 'c', 'l', 'a', 's', 's') {
        Some(Token::Class)
    } else if spells4(w, 'e', 'l', 's', 'e') {
        Some(Token::Else)
    } else if spells5(w, 'f', 'a', 'l', 's', 'e') {
        Some(Token::False)
    } else if spells3(w, 'f', 'u', 'n') {
        Some(Token::Fun)
    } else if spells3(w, 'f', 'o', 'r') {
        Some(Token::For)
    } else if spells2(w, 'i', 'f') {
        Some(Token::If)
    } else if spells3(w, 'n', 'i', 'l') {
        Some(Token::Nil)
    } else if spells2(w, 'o', 'r') {
        Some(Token::Or)
    } else if spells5(w, 'p', 'r', 'i', 'n', 't') {
        Some(Token::Print)
    } else if spells6(w, 'r', 'e', 't', 'u', 'r', 'n') {
        Some(Token::Return)
    } else if spells5(w, 's', 'u', 'p', 'e', 'r') {
        Some(Token::Super)
    } else if spells4(w, 't', 'h', 'i', 's') {
        Some(Token::This)
    } else if spells4(w, 't', 'r', 'u', 'e') {
        Some(Token::True)
    } else if spells3(w, 'v', 'a', 'r') {
        Some(Token::Var)
    } else if spells5(w, 'w', 'h', 'i', 'l', 'e') {
        Some(Token::While)
    } else {
        None
    }
}

/// The kind of a maximal identifier-shaped word: the keyword it spells
/// exactly, or a plain identifier.
pub open spec fn word_token(w: Seq<char>) -> Token {
    match keyword_of(w) {
        Some(t) => t,
        None => Token::Id,
    }
}

// ---------------------------------------------------------------------------
// Symbols
// ---------------------------------------------------------------------------

/// A character that may open a two-character comparison symbol.
pub open spec fn is_comparison_start(c: char) -> bool {
    c == '!' || c == '=' || c == '>' || c == '<'
}

/// A two-character symbol (`!=`, `==`, `>=`, `<=`) starts at `pos`.
pub open spec fn two_char_symbol_at(s: Seq<char>, pos: int) -> bool {
    pos + 1 < s.len() && is_comparison_start(s[pos]) && s[pos + 1] == '='
}

/// The two-character symbol opened by `c`.
pub open spec fn double_symbol_of(c: char) -> Token {
    if c == '!' {
        Token::BangEqual
    } else if c == '=' {
        Token::EqualEqual
    } else if c == '>' {
        Token::GreaterEqual
    } else {
        Token::LessEqual
    }
}

/// The single-character symbol that `c` is, if any.
pub open spec fn single_symbol_of(c: char) -> Option<Token> {
    if c == '(' {
        Some(Token::LeftParen)
    } else if c == ')' {
        Some(Token::RightParen)
    } else if c == '[' {
        Some(Token::LeftBrace)
    } else if c == ']' {
        Some(Token::RightBrace)
    } else if c == ',' {
        Some(Token::Comma)
    } else if c == '.' {
        Some(Token::Dot)
    } else if c == '-' {
        Some(Token::Minus)
    } else if c == '+' {
        Some(Token::Plus)
    } else if c == ';' {
        Some(Token::Semicolon)
    } else if c == '/' {
        Some(Token::Slash)
    } else if c == '*' {
        Some(Token::Star)
    } else if c == '!' {
        Some(Token::Bang)
    } else if c == '=' {
        Some(Token::Equal)
    } else if c == '>' {
        Some(Token::Greater)
    } else if c == '<' {
        Some(Token::Less)
    } else {
        None
    }
}

// ---------------------------------------------------------------------------
// The classifier
// ---------------------------------------------------------------------------

/// Some non-empty token pattern matches at `pos`.
pub open spec fn can_start(s: Seq<char>, pos: int) -> bool {
    ||| is_space_char(s[pos])
    ||| string_run(s, pos) > 0
    ||| number_run(s, pos) > 0
    ||| is_alpha_char(s[pos])
    ||| single_symbol_of(s[pos]) is Some
}

/// Length of the maximal run of positions from `pos` at which no token
/// pattern matches. Such a run becomes one `Error` token, so that the
/// diagnostic covers the whole unrecognizable stretch.
pub open spec fn error_run(s: Seq<char>, pos: int) -> int
    decreases s.len() - pos when 0 <= pos <= s.len()
{
    if pos < s.len() && !can_start(s, pos) {
        1 + error_run(s, pos + 1)
    } else {
        0
    }
}

pub proof fn lemma_error_run_bounds(s: Seq<char>, pos: int)
    requires
        0 <= pos <= s.len(),
    ensures
        0 <= error_run(s, pos),
        pos + error_run(s, pos) <= s.len(),
        pos < s.len() && !can_start(s, pos) ==> error_run(s, pos) >= 1,
    decreases s.len() - pos,
{
    if pos < s.len() && !can_start(s, pos) {
        lemma_error_run_bounds(s, pos + 1);
    }
}

/// An error run's length is pinned by its positions.
pub proof fn lemma_error_run_is(s: Seq<char>, pos: int, n: int)
    requires
        0 <= pos,
        0 <= n,
        pos + n <= s.len(),
        forall|k: int| pos <= k < pos + n ==> !can_start(s, k),
        pos + n == s.len() || can_start(s, pos + n),
    ensures
        error_run(s, pos) == n,
    decreases n,
{
    if n > 0 {
        lemma_error_run_is(s, pos + 1, n - 1);
    }
}

/// The kind of the token that starts at `pos`: the longest matching pattern,
/// with keywords preferred over identifiers of the same extent, two-character
/// symbols over their one-character prefixes, and unmatched input classified
/// as `Error`.
pub open spec fn token_at(s: Seq<char>, pos: int) -> Token {
    if is_space_char(s[pos]) {
        Token::Whitespace
    } else if string_run(s, pos) > 0 {
        Token::String
    } else if number_run(s, pos) > 0 {
        Token::Number
    } else if is_alpha_char(s[pos]) {
        word_token(s.subrange(pos, pos + ident_run(s, pos)))
    } else if two_char_symbol_at(s, pos) {
        double_symbol_of(s[pos])
    } else if single_symbol_of(s[pos]) is Some {
        single_symbol_of(s[pos]).unwrap()
    } else {
        Token::Error
    }
}

/// The length of the token that starts at `pos`, by the same priority order
/// as [`token_at`]. Always at least one, so the scanner makes progress.
pub open spec fn token_len(s: Seq<char>, pos: int) -> int {
    if is_space_char(s[pos]) {
        space_run(s, pos)
    } else if string_run(s, pos) > 0 {
        string_run(s, pos)
    } else if number_run(s, pos) > 0 {
        number_run(s, pos)
    } else if is_alpha_char(s[pos]) {
        ident_run(s, pos)
    } else if two_char_symbol_at(s, pos) {
        2
    } else if single_symbol_of(s[pos]) is Some {
        1
    } else {
        error_run(s, pos)
    }
}

/// Progress guarantee: every token consumes at least one character and stays
/// inside the source.
pub proof fn lemma_token_len_bounds(s: Seq<char>, pos: int)
    requires
        0 <= pos < s.len(),
    ensures
        1 <= token_len(s, pos),
        pos + token_len(s, pos) <= s.len(),
{
    if is_space_char(s[pos]) {
        lemma_space_run_bounds(s, pos);
    } else if string_run(s, pos) > 0 {
        lemma_string_run_bounds(s, pos);
    } else if number_run(s, pos) > 0 {
        lemma_number_run_bounds(s, pos);
    } else if is_alpha_char(s[pos]) {
        lemma_ident_run_bounds(s, pos);
    } else if two_char_symbol_at(s, pos) {
    } else if single_symbol_of(s[pos]) is Some {
    } else {
        lemma_error_run_bounds(s, pos);
    }
}

// ---------------------------------------------------------------------------
// Executable character classes
// ---------------------------------------------------------------------------

fn space_char(c: char) -> (r: bool)
    ensures
        r == is_space_char(c),
{
    c == ' ' || c == '\r' || c == '\t' || c == '\n' || c == '\u{000c}'
}

fn digit_char(c: char) -> (r: bool)
    ensures
        r == is_digit_char(c),
{
    let u = c as u32;
    48 <= u && u <= 57
}

fn alpha_char(c: char) -> (r: bool)
    ensures
        r == is_alpha_char(c),
{
    let u = c as u32;
    (97 <= u && u <= 122) || (65 <= u && u <= 90) || c == '_'
}

fn ident_char(c: char) -> (r: bool)
    ensures
        r == is_ident_char(c),
{
    alpha_char(c) || digit_char(c)
}

fn line_break_char(c: char) -> (r: bool)
    ensures
        r == is_line_break(c),
{
    c == '\n' || c == '\r'
}

fn single_symbol_token(c: char) -> (r: Option<Token>)
    ensures
        r == single_symbol_of(c),
{
    if c == '(' {
        Some(Token::LeftParen)
    } else if c == ')' {
        Some(Token::RightParen)
    } else if c == '[' {
        Some(Token::LeftBrace)
    } else if c == ']' {
        Some(Token::RightBrace)
    } else if c == ',' {
        Some(Token::Comma)
    } else if c == '.' {
        Some(Token::Dot)
    } else if c == '-' {
        Some(Token::Minus)
    } else if c == '+' {
        Some(Token::Plus)
    } else if c == ';' {
        Some(Token::Semicolon)
    } else if c == '/' {
        Some(Token::Slash)
    } else if c == '*' {
        Some(Token::Star)
    } else if c == '!' {
        Some(Token::Bang)
    } else if c == '=' {
        Some(Token::Equal)
    } else if c == '>' {
        Some(Token::Greater)
    } else if c == '<' {
        Some(Token::Less)
    } else {
        None
    }
}

// ---------------------------------------------------------------------------
// Executable run scanners
// ---------------------------------------------------------------------------

/// First position at or after `pos` that does not continue the whitespace run.
fn scan_space_end(src: &str, pos: usize, n: usize) -> (e: usize)
    requires
        n == src@.len(),
        pos <= n,
    ensures
        pos <= e <= n,
        e - pos == space_run(src@, pos as int),
{
    let mut i = pos;
    loop
        invariant_except_break
            n == src@.len(),
            pos <= i <= n,
            forall|k: int| pos <= k < i ==> is_space_char(src@[k]),
        ensures
            pos <= i <= n,
            n == src@.len(),
            forall|k: int| pos <= k < i ==> is_space_char(src@[k]),
            i == n || !is_space_char(src@[i as int]),
        decreases n - i,
    {
        if i >= n {
            break ;
        }
        let c = src.get_char(i);
        if !space_char(c) {
            break ;
        }
        i = i + 1;
    }
    proof {
        lemma_space_run_is(src@, pos as int, i - pos);
    }
    i
}

/// First position at or after `pos` that does not continue the digit run.
fn scan_digit_end(src: &str, pos: usize, n: usize) -> (e: usize)
    requires
        n == src@.len(),
        pos <= n,
    ensures
        pos <= e <= n,
        e - pos == digit_run(src@, pos as int),
{
    let mut i = pos;
    loop
        invariant_except_break
            n == src@.len(),
            pos <= i <= n,
            forall|k: int| pos <= k < i ==> is_digit_char(src@[k]),
        ensures
            pos <= i <= n,
            n == src@.len(),
            forall|k: int| pos <= k < i ==> is_digit_char(src@[k]),
            i == n || !is_digit_char(src@[i as int]),
        decreases n - i,
    {
        if i >= n {
            break ;
        }
        let c = src.get_char(i);
        if !digit_char(c) {
            break ;
        }
        i = i + 1;
    }
    proof {
        lemma_digit_run_is(src@, pos as int, i - pos);
    }
    i
}

/// First position at or after `pos` that does not continue the identifier run.
fn scan_ident_end(src: &str, pos: usize, n: usize) -> (e: usize)
    requires
        n == src@.len(),
        pos <= n,
    ensures
        pos <= e <= n,
        e - pos == ident_run(src@, pos as int),
{
    let mut i = pos;
    loop
        invariant_except_break
            n == src@.len(),
            pos <= i <= n,
            forall|k: int| pos <= k < i ==> is_ident_char(src@[k]),
        ensures
            pos <= i <= n,
            n == src@.len(),
            forall|k: int| pos <= k < i ==> is_ident_char(src@[k]),
            i == n || !is_ident_char(src@[i as int]),
        decreases n - i,
    {
        if i >= n {
            break ;
        }
        let c = src.get_char(i);
        if !ident_char(c) {
            break ;
        }
        i = i + 1;
    }
    proof {
        lemma_ident_run_is(src@, pos as int, i - pos);
    }
    i
}

/// Length of the string-literal match at `pos`, or `0` when the string is
/// unterminated.
fn scan_string(src: &str, pos: usize, n: usize) -> (l: usize)
    requires
        n == src@.len(),
        pos < n,
        src@[pos as int] == '"',
    ensures
        l == string_run(src@, pos as int),
        pos + l <= n,
{
    let mut i = pos + 1;
    let mut lastq: usize = 0;
    let mut found = false;
    loop
        invariant_except_break
            n == src@.len(),
            pos < n,
            pos + 1 <= i <= n,
            forall|k: int| pos + 1 <= k < i ==> !is_line_break(src@[k]),
            found ==> pos + 1 <= lastq < i && src@[lastq as int] == '"',
            found ==> forall|k: int| lastq < k < i ==> src@[k] != '"',
            !found ==> forall|k: int| pos < k < i ==> src@[k] != '"',
        ensures
            n == src@.len(),
            pos + 1 <= i <= n,
            forall|k: int| pos + 1 <= k < i ==> !is_line_break(src@[k]),
            i == n || is_line_break(src@[i as int]),
            found ==> pos + 1 <= lastq < i && src@[lastq as int] == '"',
            found ==> forall|k: int| lastq < k < i ==> src@[k] != '"',
            !found ==> forall|k: int| pos < k < i ==> src@[k] != '"',
        decreases n - i,
    {
        if i >= n {
            break ;
        }
        let c = src.get_char(i);
        if line_break_char(c) {
            break ;
        }
        if c == '"' {
            lastq = i;
            found = true;
        }
        i = i + 1;
    }
    proof {
        lemma_nonbreak_run_is(src@, pos as int + 1, i - (pos + 1));
        if found {
            lemma_last_quote_some(src@, pos as int, i as int, lastq as int);
        } else {
            lemma_last_quote_none(src@, pos as int, i as int);
        }
    }
    if found {
        lastq + 1 - pos
    } else {
        0
    }
}

/// Length of the numeric-literal match at `pos`.
fn scan_number(src: &str, pos: usize, n: usize) -> (l: usize)
    requires
        n == src@.len(),
        pos < n,
        is_digit_char(src@[pos as int]) || (src@[pos as int] == '-' && pos + 1 < n
            && is_digit_char(src@[pos as int + 1])),
    ensures
        l == number_run(src@, pos as int),
        1 <= l,
        pos + l <= n,
{
    let c = src.get_char(pos);
    let p = if c == '-' {
        pos + 1
    } else {
        pos
    };
    let q = scan_digit_end(src, p, n);
    proof {
        lemma_digit_run_bounds(src@, p as int);
    }
    if q < n && src.get_char(q) == '.' && q + 1 < n && digit_char(src.get_char(q + 1)) {
        let e = scan_digit_end(src, q + 1, n);
        proof {
            lemma_digit_run_bounds(src@, q as int + 1);
        }
        e - pos
    } else {
        q - pos
    }
}

/// Whether some token pattern matches at position `k`.
fn can_start_at(src: &str, k: usize, n: usize) -> (r: bool)
    requires
        n == src@.len(),
        k < n,
    ensures
        r == can_start(src@, k as int),
{
    let c = src.get_char(k);
    if space_char(c) || alpha_char(c) {
        true
    } else if digit_char(c) {
        proof {
            lemma_number_run_bounds(src@, k as int);
        }
        true
    } else if single_symbol_token(c).is_some() {
        true
    } else if c == '"' {
        scan_string(src, k, n) > 0
    } else {
        false
    }
}

/// First position at or after `pos` at which some token pattern matches.
fn scan_error_end(src: &str, pos: usize, n: usize) -> (e: usize)
    requires
        n == src@.len(),
        pos < n,
        !can_start(src@, pos as int),
    ensures
        pos < e <= n,
        e - pos == error_run(src@, pos as int),
{
    let mut i = pos;
    loop
        invariant_except_break
            n == src@.len(),
            pos <= i <= n,
            forall|k: int| pos <= k < i ==> !can_start(src@, k),
        ensures
            pos <= i <= n,
            n == src@.len(),
            forall|k: int| pos <= k < i ==> !can_start(src@, k),
            i == n || can_start(src@, i as int),
        decreases n - i,
    {
        if i >= n {
            break ;
        }
        if can_start_at(src, i, n) {
            break ;
        }
        i = i + 1;
    }
    proof {
        lemma_error_run_is(src@, pos as int, i - pos);
    }
    i
}

/// The keyword that the word `src[pos .. pos + len)` spells exactly, or `Id`.
fn keyword_or_id(src: &str, pos: usize, len: usize) -> (t: Token)
    requires
        pos + len <= src@.len(),
        pos + len <= usize::MAX,
        1 <= len,
    ensures
        t == word_token(src@.subrange(pos as int, pos as int + len as int)),
{
    let ghost w = src@.subrange(pos as int, pos as int + len as int);
    if len == 2 {
        let c0 = src.get_char(pos);
        let c1 = src.get_char(pos + 1);
        proof {
            assert(w.len() == len);
            assert(w[0] == c0);
            assert(w[1] == c1);
        }
        if c0 == 'i' && c1 == 'f' {
            Token::If
        } else if c0 == 'o' && c1 == 'r' {
            Token::Or
        } else {
            Token::Id
        }
    } else if len == 3 {
        let c0 = src.get_char(pos);
        let c1 = src.get_char(pos + 1);
        let c2 = src.get_char(pos + 2);
        proof {
            assert(w.len() == len);
            assert(w[0] == c0);
            assert(w[1] == c1);
            assert(w[2] == c2);
        }
        if c0 == 'a' && c1 == 'n' && c2 == 'd' {
            Token::And
        } else if c0 == 'f' && c1 == 'u' && c2 == 'n' {
            Token::Fun
        } else if c0 == 'f' && c1 == 'o' && c2 == 'r' {
            Token::For
        } else if c0 == 'n' && c1 == 'i' && c2 == 'l' {
            Token::Nil
        } else if c0 == 'v' && c1 == 'a' && c2 == 'r' {
            Token::Var
        } else {
            Token::Id
        }
    } else if len == 4 {
        let c0 = src.get_char(pos);
        let c1 = src.get_char(pos + 1);
        let c2 = src.get_char(pos + 2);
        let c3 = src.get_char(pos + 3);
        proof {
            assert(w.len() == len);
            assert(w[0] == c0);
            assert(w[1] == c1);
            assert(w[2] == c2);
            assert(w[3] == c3);
        }
        if c0 == 'e' && c1 == 'l' && c2 == 's' && c3 == 'e' {
            Token::Else
        } else if c0 == 't' && c1 == 'h' && c2 == 'i' && c3 == 's' {
            Token::This
        } else if c0 == 't' && c1 == 'r' && c2 == 'u' && c3 == 'e' {
            Token::True
        } else {
            Token::Id
        }
    } else if len == 5 {
        let c0 = src.get_char(pos);
        let c1 = src.get_char(pos + 1);
        let c2 = src.get_char(pos + 2);
        let c3 = src.get_char(pos + 3);
        let c4 = src.get_char(pos + 4);
        proof {
            assert(w.len() == len);
            assert(w[0] == c0);
            assert(w[1] == c1);
            assert(w[2] == c2);
            assert(w[3] == c3);
            assert(w[4] == c4);
        }
        if c0 == 'c' && c1 == 'l' && c2 == 'a' && c3 == 's' && c4 == 's' {
            Token::Class
        } else if c0 == 'f' && c1 == 'a' && c2 == 'l' && c3 == 's' && c4 == 'e' {
            Token::False
        } else if c0 == 'p' && c1 == 'r' && c2 == 'i' && c3 == 'n' && c4 == 't' {
            Token::Print
        } else if c0 == 's' && c1 == 'u' && c2 == 'p' && c3 == 'e' && c4 == 'r' {
            Token::Super
        } else if c0 == 'w' && c1 == 'h' && c2 == 'i' && c3 == 'l' && c4 == 'e' {
            Token::While
        } else {
            Token::Id
        }
    } else if len == 6 {
        let c0 = src.get_char(pos);
        let c1 = src.get_char(pos + 1);
        let c2 = src.get_char(pos + 2);
        let c3 = src.get_char(pos + 3);
        let c4 = src.get_char(pos + 4);
        let c5 = src.get_char(pos + 5);
        proof {
            assert(w.len() == len);
            assert(w[0] == c0);
            assert(w[1] == c1);
            assert(w[2] == c2);
            assert(w[3] == c3);
            assert(w[4] == c4);
            assert(w[5] == c5);
        }
        if c0 == 'r' && c1 == 'e' && c2 == 't' && c3 == 'u' && c4 == 'r' && c5 == 'n' {
            Token::Return
        } else {
            Token::Id
        }
    } else {
        Token::Id
    }
}

// ---------------------------------------------------------------------------
// The classifier, executable
// ---------------------------------------------------------------------------

/// Classify the token that starts at `pos`: its kind and its length.
///
/// The longest matching pattern wins; keywords win over identifiers of the
/// same extent; two-character symbols win over their one-character prefixes;
/// a stretch of input matching no pattern is one `Error` token of at least
/// one character, so the scanner always makes progress.
pub fn classify_at(src: &str, pos: usize) -> (r: (Token, usize))
    requires
        pos < src@.len(),
    ensures
        r.0 == token_at(src@, pos as int),
        r.1 == token_len(src@, pos as int),
        1 <= r.1,
        pos + r.1 <= src@.len(),
{
    let n = src.unicode_len();
    let c = src.get_char(pos);
    if space_char(c) {
        proof {
            lemma_space_run_bounds(src@, pos as int);
        }
        let e = scan_space_end(src, pos, n);
        (Token::Whitespace, e - pos)
    } else if c == '"' {
        let l = scan_string(src, pos, n);
        if l > 0 {
            (Token::String, l)
        } else {
            let e = scan_error_end(src, pos, n);
            (Token::Error, e - pos)
        }
    } else if digit_char(c) {
        let l = scan_number(src, pos, n);
        (Token::Number, l)
    } else if c == '-' {
        if pos + 1 < n && digit_char(src.get_char(pos + 1)) {
            let l = scan_number(src, pos, n);
            (Token::Number, l)
        } else {
            (Token::Minus, 1)
        }
    } else if alpha_char(c) {
        proof {
            lemma_ident_run_bounds(src@, pos as int);
        }
        let e = scan_ident_end(src, pos, n);
        let t = keyword_or_id(src, pos, e - pos);
        (t, e - pos)
    } else if c == '!' || c == '=' || c == '>' || c == '<' {
        if pos + 1 < n && src.get_char(pos + 1) == '=' {
            let t = if c == '!' {
                Token::BangEqual
            } else if c == '=' {
                Token::EqualEqual
            } else if c == '>' {
                Token::GreaterEqual
            } else {
                Token::LessEqual
            };
            (t, 2)
        } else {
            let t = if c == '!' {
                Token::Bang
            } else if c == '=' {
                Token::Equal
            } else if c == '>' {
                Token::Greater
            } else {
                Token::Less
            };
            (t, 1)
        }
    } else {
        match single_symbol_token(c) {
            Some(t) => (t, 1),
            None => {
                let e = scan_error_end(src, pos, n);
                (Token::Error, e - pos)
            },
        }
    }
}

// ---------------------------------------------------------------------------
// The scanner
// ---------------------------------------------------------------------------

/// The raw token stream from `pos` to the end of the source: the classifier
/// applied repeatedly, each token beginning where the previous one ended.
/// Whitespace and `Error` entries are still present; they are dealt with
/// after the scan.
pub open spec fn scan_from(s: Seq<char>, pos: int) -> Seq<(Token, Span)>
    decreases s.len() - pos when 0 <= pos
{
    if pos >= s.len() {
        Seq::empty()
    } else {
        let l = token_len(s, pos);
        let l2 = if l < 1 {
            1int
        } else if pos + l > s.len() {
            s.len() - pos
        } else {
            l
        };
        seq![(token_at(s, pos), Span { start: pos as usize, end: (pos + l2) as usize })]
            + scan_from(s, pos + l2)
    }
}

/// One unfolding of the scan: the token at `pos`, then the scan of the rest.
pub proof fn lemma_scan_from_step(s: Seq<char>, pos: int)
    requires
        0 <= pos < s.len(),
        s.len() <= usize::MAX,
    ensures
        scan_from(s, pos) == seq![
            (
                token_at(s, pos),
                Span { start: pos as usize, end: (pos + token_len(s, pos)) as usize },
            ),
        ] + scan_from(s, pos + token_len(s, pos)),
{
    lemma_token_len_bounds(s, pos);
}

/// The spans of the raw stream tile the scanned suffix: each is non-empty and
/// lies inside the source, the first starts at `pos`, each later one starts
/// where its predecessor ended, and the last ends at the end of the source.
pub proof fn lemma_scan_spans(s: Seq<char>, pos: int)
    requires
        0 <= pos <= s.len(),
        s.len() <= usize::MAX,
    ensures
        ({
            let toks = scan_from(s, pos);
            &&& forall|i: int|
                0 <= i < toks.len() ==> (#[trigger] toks[i]).1.start < toks[i].1.end <= s.len()
            &&& toks.len() > 0 ==> toks[0].1.start == pos
            &&& toks.len() > 0 ==> toks[toks.len() - 1].1.end == s.len()
            &&& forall|i: int|
                0 <= i < toks.len() - 1 ==> (#[trigger] toks[i]).1.end == toks[i + 1].1.start
            &&& (toks.len() == 0 <==> pos == s.len())
        }),
    decreases s.len() - pos,
{
    if pos < s.len() {
        lemma_token_len_bounds(s, pos);
        lemma_scan_from_step(s, pos);
        lemma_scan_spans(s, pos + token_len(s, pos));
    }
}

/// The texts under a stream of spans, concatenated in order.
pub open spec fn spans_text(s: Seq<char>, toks: Seq<(Token, Span)>) -> Seq<char>
    decreases toks.len(),
{
    if toks.len() == 0 {
        Seq::empty()
    } else {
        s.subrange(toks[0].1.start as int, toks[0].1.end as int) + spans_text(s, toks.drop_first())
    }
}

pub proof fn lemma_scan_from_covers(s: Seq<char>, pos: int)
    requires
        0 <= pos <= s.len(),
        s.len() <= usize::MAX,
    ensures
        spans_text(s, scan_from(s, pos)) == s.subrange(pos, s.len() as int),
    decreases s.len() - pos,
{
    if pos >= s.len() {
        assert(spans_text(s, scan_from(s, pos)) =~= s.subrange(pos, s.len() as int));
    } else {
        lemma_token_len_bounds(s, pos);
        lemma_scan_from_step(s, pos);
        let l = token_len(s, pos);
        lemma_scan_from_covers(s, pos + l);
        assert(scan_from(s, pos).drop_first() =~= scan_from(s, pos + l));
        assert(s.subrange(pos, pos + l) + s.subrange(pos + l, s.len() as int) =~= s.subrange(
            pos,
            s.len() as int,
        ));
    }
}

/// Coverage: concatenating the text under every span of the raw token stream,
/// whitespace included, reconstructs the source exactly.
pub proof fn lemma_scan_covers(s: Seq<char>)
    requires
        s.len() <= usize::MAX,
    ensures
        spans_text(s, scan_from(s, 0)) == s,
{
    lemma_scan_from_covers(s, 0);
    assert(s.subrange(0, s.len() as int) =~= s);
}

/// Scan the whole source into its raw token stream, whitespace and `Error`
/// entries included.
pub fn collect_tokens(src: &str) -> (toks: Vec<(Token, Span)>)
    ensures
        toks@ == scan_from(src@, 0),
{
    let n = src.unicode_len();
    let mut toks: Vec<(Token, Span)> = Vec::new();
    let mut pos: usize = 0;
    while pos < n
        invariant
            n == src@.len(),
            pos <= n,
            toks@ + scan_from(src@, pos as int) == scan_from(src@, 0),
        decreases n - pos,
    {
        let (t, l) = classify_at(src, pos);
        let ghost old_toks = toks@;
        toks.push((t, Span { start: pos, end: pos + l }));
        proof {
            lemma_scan_from_step(src@, pos as int);
            assert(toks@ =~= old_toks + seq![
                (t, Span { start: pos, end: (pos + l) as usize }),
            ]);
            assert(toks@ + scan_from(src@, pos as int + l as int) =~= (old_toks + scan_from(
                src@,
                pos as int,
            )));
        }
        pos = pos + l;
    }
    proof {
        assert(toks@ =~= toks@ + scan_from(src@, pos as int));
    }
    toks
}

// ---------------------------------------------------------------------------
// Validation: first error, whitespace elision
// ---------------------------------------------------------------------------

/// Index of the first `Error` entry at or after `i`, or `-1` if none follows.
pub open spec fn first_error_from(toks: Seq<(Token, Span)>, i: int) -> int
    decreases toks.len() - i when 0 <= i <= toks.len()
{
    if i >= toks.len() {
        -1
    } else if toks[i].0 == Token::Error {
        i
    } else {
        first_error_from(toks, i + 1)
    }
}

/// Index of the first `Error` entry of the stream, or `-1` if there is none.
pub open spec fn first_error_at(toks: Seq<(Token, Span)>) -> int {
    first_error_from(toks, 0)
}

/// A found first error is pinned by its witnesses: an `Error` at `j` with
/// none before it.
pub proof fn lemma_first_error_is(toks: Seq<(Token, Span)>, i: int, j: int)
    requires
        0 <= i <= j < toks.len(),
        toks[j].0 == Token::Error,
        forall|k: int| i <= k < j ==> (#[trigger] toks[k]).0 != Token::Error,
    ensures
        first_error_from(toks, i) == j,
    decreases j - i,
{
    if i < j {
        lemma_first_error_is(toks, i + 1, j);
    }
}

/// A stream with no `Error` entry at or after `i` has no first error there.
pub proof fn lemma_first_error_none(toks: Seq<(Token, Span)>, i: int)
    requires
        0 <= i <= toks.len(),
        forall|k: int| i <= k < toks.len() ==> (#[trigger] toks[k]).0 != Token::Error,
    ensures
        first_error_from(toks, i) == -1,
    decreases toks.len() - i,
{
    if i < toks.len() {
        lemma_first_error_none(toks, i + 1);
    }
}

/// The stream with its `Whitespace` entries elided.
pub open spec fn ws_filter(toks: Seq<(Token, Span)>) -> Seq<(Token, Span)> {
    toks.filter(|t: (Token, Span)| t.0 != Token::Whitespace)
}

/// Whitespace elision: the filtered stream holds no `Whitespace` entry, and
/// every non-whitespace entry of the raw stream is kept.
pub proof fn lemma_ws_filter_elides(toks: Seq<(Token, Span)>)
    ensures
        forall|i: int|
            0 <= i < ws_filter(toks).len() ==> (#[trigger] ws_filter(toks)[i]).0
                != Token::Whitespace,
        forall|i: int|
            0 <= i < toks.len() && (#[trigger] toks[i]).0 != Token::Whitespace ==> ws_filter(
                toks,
            ).contains(toks[i]),
{
    broadcast use vstd::seq_lib::group_filter_ensures;

}

/// Scan the source and validate the result. The scan always completes; if any
/// part of the input matched no token pattern, the result is the diagnostic
/// for the first such stretch; otherwise it is the full token stream with all
/// `Whitespace` entries filtered out.
pub fn into_tokens(src: &str) -> (r: Result<Vec<(Token, Span)>, LexerError>)
    ensures
        ({
            let toks = scan_from(src@, 0);
            &&& r is Ok <==> first_error_at(toks) == -1
            &&& r is Ok <==> (forall|k: int|
                0 <= k < toks.len() ==> (#[trigger] toks[k]).0 != Token::Error)
            &&& (r matches Ok(v) ==> v@ == ws_filter(toks))
            &&& (r matches Err(e) ==> {
                let fe = first_error_at(toks);
                &&& 0 <= fe < toks.len()
                &&& toks[fe].0 == Token::Error
                &&& e matches LexerError::UnknownToken(m) && m@ == error_message(
                    src@,
                    toks[fe].1,
                )
            })
        }),
{
    let n = src.unicode_len();
    let toks = collect_tokens(src);
    let m = toks.len();
    let mut j: usize = 0;
    while j < m
        invariant
            n == src@.len(),
            m == toks@.len(),
            toks@ == scan_from(src@, 0),
            j <= m,
            forall|k: int| 0 <= k < j ==> (#[trigger] toks@[k]).0 != Token::Error,
        decreases m - j,
    {
        let (t, sp) = toks[j];
        if t == Token::Error {
            proof {
                lemma_first_error_is(toks@, 0, j as int);
                lemma_scan_spans(src@, 0);
            }
            return Err(LexerError::err(src, sp));
        }
        j = j + 1;
    }
    proof {
        lemma_first_error_none(toks@, 0);
    }
    let mut out: Vec<(Token, Span)> = Vec::new();
    let mut i: usize = 0;
    while i < m
        invariant
            m == toks@.len(),
            i <= m,
            out@ == ws_filter(toks@.take(i as int)),
        decreases m - i,
    {
        let (t, sp) = toks[i];
        let ghost old_out = out@;
        if t != Token::Whitespace {
            out.push((t, sp));
        }
        proof {
            reveal(Seq::filter);
            assert(toks@.take(i + 1).drop_last() =~= toks@.take(i as int));
            assert(toks@.take(i + 1).last() == toks@[i as int]);
            if t != Token::Whitespace {
                assert(out@ =~= old_out + seq![(t, sp)]);
            }
        }
        i = i + 1;
    }
    proof {
        assert(toks@.take(m as int) =~= toks@);
    }
    Ok(out)
}

} // verus!
