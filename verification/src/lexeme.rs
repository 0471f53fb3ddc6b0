//! The lexeme vocabulary, the record that the lexer emits for each token, and
//! the character classes of the dialect.

use vstd::prelude::*;

use crate::span::Span;

verus! {

/// The base of an integer literal.
#[derive(Debug, Clone, Copy, PartialEq, Eq, Structural)]
pub enum DigitBase {
    Binary,
    Octal,
    Decimal,
    Hex,
}

impl DigitBase {
    pub open spec fn spec_radix(self) -> nat {
        match self {
            DigitBase::Binary => 2,
            DigitBase::Octal => 8,
            DigitBase::Decimal => 10,
            DigitBase::Hex => 16,
        }
    }

    /// The number of distinct digits of the base.
    pub fn radix(self) -> (r: u32)
        ensures
            r == self.spec_radix(),
    {
        match self {
            DigitBase::Binary => 2,
            DigitBase::Octal => 8,
            DigitBase::Decimal => 10,
            DigitBase::Hex => 16,
        }
    }
}

/// The kind of a token.
///
/// `Eol(true)` is a line end that swallowed a `;` comment; `Whitespace`
/// never holds a newline; `Other` is a run of bytes that no class claimed.
#[derive(Debug, Clone, Copy, PartialEq, Eq, Structural)]
pub enum Lexeme {
    Whitespace,
    Ident,
    Str,
    Comma,
    Colon,
    OpenBracket,
    CloseBracket,
    Digit(DigitBase),
    Eol(bool),
    Eof,
    Other,
}

impl Lexeme {
    /// A line terminator or the end of input.
    pub open spec fn ends_line(self) -> bool {
        self is Eol || self is Eof
    }

    pub fn is_line_end(self) -> (b: bool)
        ensures
            b == self.ends_line(),
    {
        match self {
            Lexeme::Eol(_) => true,
            Lexeme::Eof => true,
            _ => false,
        }
    }
}

/// One token as the lexer hands it out: its kind, the 0-based line on which
/// it starts, the byte offset at which that line starts, and its span.
#[derive(Debug, Clone, Copy, PartialEq, Eq, Structural)]
pub struct Advance {
    pub lex: Lexeme,
    pub line: u32,
    pub offset: u32,
    pub span: Span,
}

impl Advance {
    /// The column at which the token starts in its line.
    pub fn col_from(&self) -> (c: u32)
        requires
            self.offset <= self.span.from,
        ensures
            c == self.span.from - self.offset,
    {
        self.span.from - self.offset
    }

    /// The column at which the token ends in its line.
    pub fn col_to(&self) -> (c: u32)
        requires
            self.offset <= self.span.to,
        ensures
            c == self.span.to - self.offset,
    {
        self.span.to - self.offset
    }
}

/// Whitespace other than the newline: tab, vertical tab, form feed, carriage
/// return, space, NEL, the two bidi marks, line and paragraph separator.
pub open spec fn is_ws_not_nl(c: char) -> bool {
    ||| c == '\u{0009}'
    ||| c == '\u{000B}'
    ||| c == '\u{000C}'
    ||| c == '\u{000D}'
    ||| c == '\u{0020}'
    ||| c == '\u{0085}'
    ||| c == '\u{200E}'
    ||| c == '\u{200F}'
    ||| c == '\u{2028}'
    ||| c == '\u{2029}'
}

/// True on every whitespace character but the newline.
#[must_use]
pub fn ws_not_nl(c: char) -> (b: bool)
    ensures
        b == is_ws_not_nl(c),
{
    c == '\u{0009}' || c == '\u{000B}' || c == '\u{000C}' || c == '\u{000D}' || c == '\u{0020}'
        || c == '\u{0085}' || c == '\u{200E}' || c == '\u{200F}' || c == '\u{2028}' || c
        == '\u{2029}'
}

pub open spec fn spec_is_id_start(c: char) -> bool {
    ('a' <= c <= 'z') || ('A' <= c <= 'Z') || c == '_'
}

pub open spec fn spec_is_id_continue(c: char) -> bool {
    spec_is_id_start(c) || ('0' <= c <= '9')
}

/// The characters that no token class claims.
pub open spec fn spec_is_other(c: char) -> bool {
    !(is_ws_not_nl(c) || spec_is_id_start(c) || ('0' <= c <= '9') || c == '\n' || c == ','
        || c == '[' || c == ']' || c == ':' || c == '"' || c == ';')
}

/// A character that may start an identifier.
pub fn is_id_start(c: char) -> (b: bool)
    ensures
        b == spec_is_id_start(c),
{
    ('a' <= c && c <= 'z') || ('A' <= c && c <= 'Z') || c == '_'
}

/// A character that may continue an identifier.
pub fn is_id_continue(c: char) -> (b: bool)
    ensures
        b == spec_is_id_continue(c),
{
    is_id_start(c) || ('0' <= c && c <= '9')
}

/// A character that belongs to no token class and so to an `Other` run.
pub fn is_other(c: char) -> (b: bool)
    ensures
        b == spec_is_other(c),
{
    !(ws_not_nl(c) || is_id_start(c) || ('0' <= c && c <= '9') || c == '\n' || c == ',' || c
        == '[' || c == ']' || c == ':' || c == '"' || c == ';')
}

} // verus!
