//! Token recognition over bytes: where the token that starts at a given
//! offset ends, and what kind it is.
//!
//! The source is UTF-8, spans are byte offsets, and every class but
//! whitespace is ASCII, so recognition reads bytes. The five whitespace
//! characters beyond ASCII are matched by their encodings.

use vstd::prelude::*;

use crate::lexeme::{DigitBase, Lexeme};

verus! {

pub const TAB: u8 = 0x09;

pub const NEWLINE: u8 = 0x0A;

pub const SPACE: u8 = 0x20;

pub const QUOTE: u8 = 0x22;

pub const COMMA: u8 = 0x2C;

pub const COLON: u8 = 0x3A;

pub const SEMICOLON: u8 = 0x3B;

pub const OPEN_BRACKET: u8 = 0x5B;

pub const BACKSLASH: u8 = 0x5C;

pub const CLOSE_BRACKET: u8 = 0x5D;

pub const UNDERSCORE: u8 = 0x5F;

/// A class of single bytes of which a token takes a maximal run.
#[derive(Debug, Clone, Copy, PartialEq, Eq, Structural)]
pub enum ByteClass {
    /// `[A-Za-z0-9_]`
    IdContinue,
    /// `[01_]`
    Binary,
    /// `[0-7_]`
    Octal,
    /// `[0-9_]`
    Decimal,
    /// `[0-9A-Fa-f_]`
    Hex,
    /// Every byte but the newline.
    NotNewline,
}

pub open spec fn is_digit_byte(b: u8) -> bool {
    0x30 <= b <= 0x39
}

pub open spec fn is_id_start_byte(b: u8) -> bool {
    (0x61 <= b <= 0x7A) || (0x41 <= b <= 0x5A) || b == UNDERSCORE
}

pub open spec fn is_hex_digit_byte(b: u8) -> bool {
    is_digit_byte(b) || (0x61 <= b <= 0x66) || (0x41 <= b <= 0x46)
}

pub open spec fn in_class(class: ByteClass, b: u8) -> bool {
    match class {
        ByteClass::IdContinue => is_id_start_byte(b) || is_digit_byte(b),
        ByteClass::Binary => b == 0x30 || b == 0x31 || b == UNDERSCORE,
        ByteClass::Octal => (0x30 <= b <= 0x37) || b == UNDERSCORE,
        ByteClass::Decimal => is_digit_byte(b) || b == UNDERSCORE,
        ByteClass::Hex => is_hex_digit_byte(b) || b == UNDERSCORE,
        ByteClass::NotNewline => b != NEWLINE,
    }
}

/// The first offset at or after `i` whose byte is not in `class`.
pub open spec fn run_end(s: Seq<u8>, i: int, class: ByteClass) -> int
    decreases s.len() - i,
{
    if 0 <= i < s.len() && in_class(class, s[i]) {
        run_end(s, i + 1, class)
    } else {
        i
    }
}

/// The length in bytes of the whitespace character that starts at `i`, and 0
/// where none does.
pub open spec fn ws_len(s: Seq<u8>, i: int) -> int {
    if i < 0 || i >= s.len() {
        0
    } else if s[i] == TAB || s[i] == 0x0B || s[i] == 0x0C || s[i] == 0x0D || s[i] == SPACE {
        1
    } else if s[i] == 0xC2 && i + 1 < s.len() && s[i + 1] == 0x85 {
        2
    } else if s[i] == 0xE2 && i + 2 < s.len() && s[i + 1] == 0x80 && (s[i + 2] == 0x8E || s[i
        + 2] == 0x8F || s[i + 2] == 0xA8 || s[i + 2] == 0xA9) {
        3
    } else {
        0
    }
}

/// The end of the run of whitespace characters that starts at `i`.
pub open spec fn ws_end(s: Seq<u8>, i: int) -> int
    decreases s.len() - i,
{
    if ws_len(s, i) > 0 {
        ws_end(s, i + ws_len(s, i))
    } else {
        i
    }
}

/// A byte that starts a token of a class other than `Other`.
pub open spec fn is_claimed_byte(b: u8) -> bool {
    ||| is_id_start_byte(b)
    ||| is_digit_byte(b)
    ||| b == NEWLINE
    ||| b == COMMA
    ||| b == OPEN_BRACKET
    ||| b == CLOSE_BRACKET
    ||| b == COLON
    ||| b == QUOTE
    ||| b == SEMICOLON
}

/// The byte at `i` belongs to an `Other` run.
pub open spec fn is_other_at(s: Seq<u8>, i: int) -> bool {
    0 <= i < s.len() && !is_claimed_byte(s[i]) && ws_len(s, i) == 0
}

/// The end of the run of unclaimed bytes that starts at `i`.
pub open spec fn other_end(s: Seq<u8>, i: int) -> int
    decreases s.len() - i,
{
    if is_other_at(s, i) {
        other_end(s, i + 1)
    } else {
        i
    }
}

/// A backslash at `i` that escapes the backslash or quote after it.
pub open spec fn is_escape_at(s: Seq<u8>, i: int) -> bool {
    0 <= i && i + 1 < s.len() && s[i] == BACKSLASH && (s[i + 1] == BACKSLASH || s[i + 1]
        == QUOTE)
}

/// The end of the string literal whose body starts at `i`: just past the
/// closing quote, or the end of input where none closes it.
pub open spec fn str_end(s: Seq<u8>, i: int) -> int
    decreases s.len() - i,
{
    if i < 0 || i >= s.len() {
        i
    } else if s[i] == QUOTE {
        i + 1
    } else if is_escape_at(s, i) {
        str_end(s, i + 2)
    } else {
        str_end(s, i + 1)
    }
}

/// The string literal whose body starts at `i` has its closing quote.
pub open spec fn str_closed(s: Seq<u8>, i: int) -> bool
    decreases s.len() - i,
{
    if i < 0 || i >= s.len() {
        false
    } else if s[i] == QUOTE {
        true
    } else if is_escape_at(s, i) {
        str_closed(s, i + 2)
    } else {
        str_closed(s, i + 1)
    }
}

/// The end of the comment whose body starts at `i`: just past the next
/// newline, or the end of input.
pub open spec fn comment_end(s: Seq<u8>, i: int) -> int {
    let e = run_end(s, i, ByteClass::NotNewline);
    if e < s.len() {
        e + 1
    } else {
        e
    }
}

/// The base of the number that starts with the digit at `i`.
pub open spec fn number_base(s: Seq<u8>, i: int) -> DigitBase {
    if s[i] == 0x30 && i + 1 < s.len() && s[i + 1] == 0x62 {
        DigitBase::Binary
    } else if s[i] == 0x30 && i + 1 < s.len() && s[i + 1] == 0x6F {
        DigitBase::Octal
    } else if s[i] == 0x30 && i + 1 < s.len() && s[i + 1] == 0x78 {
        DigitBase::Hex
    } else {
        DigitBase::Decimal
    }
}

pub open spec fn digit_class(base: DigitBase) -> ByteClass {
    match base {
        DigitBase::Binary => ByteClass::Binary,
        DigitBase::Octal => ByteClass::Octal,
        DigitBase::Decimal => ByteClass::Decimal,
        DigitBase::Hex => ByteClass::Hex,
    }
}

/// The length of the prefix that marks the base: 2 for `0b`, `0o`, `0x`.
pub open spec fn prefix_len(base: DigitBase) -> int {
    if base == DigitBase::Decimal {
        0
    } else {
        2
    }
}

/// The end of the number that starts with the digit at `i`.
pub open spec fn number_end(s: Seq<u8>, i: int) -> int {
    let base = number_base(s, i);
    if base == DigitBase::Decimal {
        run_end(s, i + 1, ByteClass::Decimal)
    } else {
        run_end(s, i + 2, digit_class(base))
    }
}

/// The kind of the token that starts at `i`, for `0 <= i < s.len()`.
pub open spec fn scan_kind(s: Seq<u8>, i: int) -> Lexeme {
    let b = s[i];
    if b == SEMICOLON {
        Lexeme::Eol(true)
    } else if ws_len(s, i) > 0 {
        Lexeme::Whitespace
    } else if is_id_start_byte(b) {
        Lexeme::Ident
    } else if is_digit_byte(b) {
        Lexeme::Digit(number_base(s, i))
    } else if b == NEWLINE {
        Lexeme::Eol(false)
    } else if b == COMMA {
        Lexeme::Comma
    } else if b == OPEN_BRACKET {
        Lexeme::OpenBracket
    } else if b == CLOSE_BRACKET {
        Lexeme::CloseBracket
    } else if b == COLON {
        Lexeme::Colon
    } else if b == QUOTE {
        Lexeme::Str
    } else {
        Lexeme::Other
    }
}

/// The end of the token that starts at `i`, for `0 <= i < s.len()`.
pub open spec fn scan_end(s: Seq<u8>, i: int) -> int {
    match scan_kind(s, i) {
        Lexeme::Eol(true) => comment_end(s, i + 1),
        Lexeme::Whitespace => ws_end(s, i),
        Lexeme::Ident => run_end(s, i + 1, ByteClass::IdContinue),
        Lexeme::Digit(_) => number_end(s, i),
        Lexeme::Str => str_end(s, i + 1),
        Lexeme::Other => other_end(s, i + 1),
        _ => i + 1,
    }
}

pub proof fn lemma_run_end_bounds(s: Seq<u8>, i: int, class: ByteClass)
    requires
        0 <= i <= s.len(),
    ensures
        i <= run_end(s, i, class) <= s.len(),
        forall|j: int| i <= j < run_end(s, i, class) ==> in_class(class, #[trigger] s[j]),
        run_end(s, i, class) < s.len() ==> !in_class(class, s[run_end(s, i, class)]),
    decreases s.len() - i,
{
    if i < s.len() && in_class(class, s[i]) {
        lemma_run_end_bounds(s, i + 1, class);
    }
}

pub proof fn lemma_ws_end_bounds(s: Seq<u8>, i: int)
    requires
        0 <= i <= s.len(),
    ensures
        i <= ws_end(s, i) <= s.len(),
        ws_len(s, i) > 0 ==> i < ws_end(s, i),
        ws_len(s, ws_end(s, i)) == 0,
    decreases s.len() - i,
{
    if ws_len(s, i) > 0 {
        lemma_ws_end_bounds(s, i + ws_len(s, i));
    }
}

pub proof fn lemma_other_end_bounds(s: Seq<u8>, i: int)
    requires
        0 <= i <= s.len(),
    ensures
        i <= other_end(s, i) <= s.len(),
        !is_other_at(s, other_end(s, i)),
    decreases s.len() - i,
{
    if is_other_at(s, i) {
        lemma_other_end_bounds(s, i + 1);
    }
}

pub proof fn lemma_str_end_bounds(s: Seq<u8>, i: int)
    requires
        0 <= i <= s.len(),
    ensures
        i <= str_end(s, i) <= s.len(),
        str_closed(s, i) ==> i < str_end(s, i) && s[str_end(s, i) - 1] == QUOTE,
        !str_closed(s, i) ==> str_end(s, i) == s.len(),
    decreases s.len() - i,
{
    if i >= s.len() {
    } else if s[i] == QUOTE {
    } else if is_escape_at(s, i) {
        lemma_str_end_bounds(s, i + 2);
    } else {
        lemma_str_end_bounds(s, i + 1);
    }
}

/// Every token is at least one byte long and ends inside the source.
pub proof fn lemma_scan_bounds(s: Seq<u8>, i: int)
    requires
        0 <= i < s.len(),
    ensures
        i < scan_end(s, i) <= s.len(),
{
    lemma_run_end_bounds(s, i + 1, ByteClass::NotNewline);
    lemma_run_end_bounds(s, i + 1, ByteClass::IdContinue);
    lemma_run_end_bounds(s, i + 1, ByteClass::Decimal);
    lemma_ws_end_bounds(s, i);
    lemma_str_end_bounds(s, i + 1);
    lemma_other_end_bounds(s, i + 1);
    if is_digit_byte(s[i]) {
        let base = number_base(s, i);
        if base != DigitBase::Decimal {
            lemma_run_end_bounds(s, i + 2, digit_class(base));
        }
    }
}

/// The length of the whitespace character at `i`.
pub fn ws_len_at(bytes: &[u8], i: usize) -> (n: usize)
    ensures
        n == ws_len(bytes@, i as int),
{
    let len = bytes.len();
    if i >= len {
        return 0;
    }
    let b = bytes[i];
    if b == TAB || b == 0x0B || b == 0x0C || b == 0x0D || b == SPACE {
        1
    } else if b == 0xC2 && len - i > 1 && bytes[i + 1] == 0x85 {
        2
    } else if b == 0xE2 && len - i > 2 && bytes[i + 1] == 0x80 && (bytes[i + 2] == 0x8E
        || bytes[i + 2] == 0x8F || bytes[i + 2] == 0xA8 || bytes[i + 2] == 0xA9) {
        3
    } else {
        0
    }
}

pub fn byte_in_class(class: ByteClass, b: u8) -> (r: bool)
    ensures
        r == in_class(class, b),
{
    let digit = 0x30 <= b && b <= 0x39;
    let alpha = (0x61 <= b && b <= 0x7A) || (0x41 <= b && b <= 0x5A);
    match class {
        ByteClass::IdContinue => alpha || b == UNDERSCORE || digit,
        ByteClass::Binary => b == 0x30 || b == 0x31 || b == UNDERSCORE,
        ByteClass::Octal => (0x30 <= b && b <= 0x37) || b == UNDERSCORE,
        ByteClass::Decimal => digit || b == UNDERSCORE,
        ByteClass::Hex => digit || (0x61 <= b && b <= 0x66) || (0x41 <= b && b <= 0x46) || b
            == UNDERSCORE,
        ByteClass::NotNewline => b != NEWLINE,
    }
}

pub fn byte_is_claimed(b: u8) -> (r: bool)
    ensures
        r == is_claimed_byte(b),
{
    (0x61 <= b && b <= 0x7A) || (0x41 <= b && b <= 0x5A) || b == UNDERSCORE || (0x30 <= b && b
        <= 0x39) || b == NEWLINE || b == COMMA || b == OPEN_BRACKET || b == CLOSE_BRACKET || b
        == COLON || b == QUOTE || b == SEMICOLON
}

/// Skips the maximal run of bytes of `class` from `start`.
pub fn eat_class(bytes: &[u8], start: usize, class: ByteClass) -> (end: usize)
    requires
        start <= bytes.len(),
    ensures
        end == run_end(bytes@, start as int, class),
        start <= end <= bytes.len(),
{
    let mut i = start;
    while i < bytes.len() && byte_in_class(class, bytes[i])
        invariant
            start <= i <= bytes.len(),
            run_end(bytes@, start as int, class) == run_end(bytes@, i as int, class),
        decreases bytes.len() - i,
    {
        i += 1;
    }
    i
}

/// Skips the run of whitespace characters from `start`.
pub fn eat_ws(bytes: &[u8], start: usize) -> (end: usize)
    requires
        start <= bytes.len(),
    ensures
        end == ws_end(bytes@, start as int),
        start <= end <= bytes.len(),
{
    let mut i = start;
    loop
        invariant
            start <= i <= bytes.len(),
            ws_end(bytes@, start as int) == ws_end(bytes@, i as int),
        ensures
            ws_len(bytes@, i as int) == 0,
        decreases bytes.len() - i,
    {
        let n = ws_len_at(bytes, i);
        if n == 0 {
            break;
        }
        i += n;
    }
    i
}

/// Skips the run of unclaimed bytes from `start`.
pub fn eat_other(bytes: &[u8], start: usize) -> (end: usize)
    requires
        start <= bytes.len(),
    ensures
        end == other_end(bytes@, start as int),
        start <= end <= bytes.len(),
{
    let mut i = start;
    while i < bytes.len() && !byte_is_claimed(bytes[i]) && ws_len_at(bytes, i) == 0
        invariant
            start <= i <= bytes.len(),
            other_end(bytes@, start as int) == other_end(bytes@, i as int),
        decreases bytes.len() - i,
    {
        i += 1;
    }
    i
}

/// Skips the body of a string literal from `start`, and tells whether its
/// closing quote was found.
pub fn eat_string(bytes: &[u8], start: usize) -> (r: (usize, bool))
    requires
        start <= bytes.len(),
    ensures
        r.0 == str_end(bytes@, start as int),
        r.1 == str_closed(bytes@, start as int),
        start <= r.0 <= bytes.len(),
{
    let len = bytes.len();
    let mut i = start;
    let mut closed = false;
    while i < len
        invariant_except_break
            !closed,
            str_end(bytes@, start as int) == str_end(bytes@, i as int),
            str_closed(bytes@, start as int) == str_closed(bytes@, i as int),
        invariant
            len == bytes.len(),
            start <= i <= len,
        ensures
            i == str_end(bytes@, start as int),
            closed == str_closed(bytes@, start as int),
        decreases len - i,
    {
        let b = bytes[i];
        if b == QUOTE {
            i += 1;
            closed = true;
            break;
        } else if b == BACKSLASH && len - i > 1 && (bytes[i + 1] == BACKSLASH || bytes[i + 1]
            == QUOTE) {
            i += 2;
        } else {
            i += 1;
        }
    }
    (i, closed)
}

/// Recognizes the token that starts at `i`.
pub fn scan(bytes: &[u8], i: usize) -> (r: (Lexeme, usize))
    requires
        i < bytes.len(),
    ensures
        r.0 == scan_kind(bytes@, i as int),
        r.1 == scan_end(bytes@, i as int),
        i < r.1 <= bytes.len(),
{
    proof {
        lemma_scan_bounds(bytes@, i as int);
    }
    let len = bytes.len();
    let b = bytes[i];
    if b == SEMICOLON {
        let e = eat_class(bytes, i + 1, ByteClass::NotNewline);
        if e < len {
            (Lexeme::Eol(true), e + 1)
        } else {
            (Lexeme::Eol(true), e)
        }
    } else if ws_len_at(bytes, i) > 0 {
        (Lexeme::Whitespace, eat_ws(bytes, i))
    } else if (0x61 <= b && b <= 0x7A) || (0x41 <= b && b <= 0x5A) || b == UNDERSCORE {
        (Lexeme::Ident, eat_class(bytes, i + 1, ByteClass::IdContinue))
    } else if 0x30 <= b && b <= 0x39 {
        let next: u8 = if b == 0x30 && len - i > 1 {
            bytes[i + 1]
        } else {
            0
        };
        if next == 0x62 {
            (Lexeme::Digit(DigitBase::Binary), eat_class(bytes, i + 2, ByteClass::Binary))
        } else if next == 0x6F {
            (Lexeme::Digit(DigitBase::Octal), eat_class(bytes, i + 2, ByteClass::Octal))
        } else if next == 0x78 {
            (Lexeme::Digit(DigitBase::Hex), eat_class(bytes, i + 2, ByteClass::Hex))
        } else {
            (Lexeme::Digit(DigitBase::Decimal), eat_class(bytes, i + 1, ByteClass::Decimal))
        }
    } else if b == NEWLINE {
        (Lexeme::Eol(false), i + 1)
    } else if b == COMMA {
        (Lexeme::Comma, i + 1)
    } else if b == OPEN_BRACKET {
        (Lexeme::OpenBracket, i + 1)
    } else if b == CLOSE_BRACKET {
        (Lexeme::CloseBracket, i + 1)
    } else if b == COLON {
        (Lexeme::Colon, i + 1)
    } else if b == QUOTE {
        let (e, _) = eat_string(bytes, i + 1);
        (Lexeme::Str, e)
    } else {
        (Lexeme::Other, eat_other(bytes, i + 1))
    }
}

} // verus!
