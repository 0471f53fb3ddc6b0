//! The line grammar, as a mathematical function from the records of a
//! source text to the program and the diagnostics that the parser gives.
//!
//! ```text
//! line  ::= ε | Ident ':' | Ident (value (',' value)*)?
//!         | Ident Ident value (',' value)*
//!         | 'section' Ident | 'global' Ident
//! value ::= Ident | Str | Digit | '[' Ident ']'
//! ```
//!
//! Whitespace between tokens is skipped. A line with an error becomes
//! `NoOp`, carries the one diagnostic, and ends at the next line end. A
//! label defined before becomes `NoOp` too, with a `DuplicateLabel`.

use vstd::prelude::*;

use crate::digits::{literal_value, IntErrorKind};
use crate::ir::{LineText, ValueText};
use crate::lexeme::{Advance, Lexeme};
use crate::scan::str_closed;
use crate::tokens::tokens;

verus! {

/// What the parser wanted where it found something else.
#[derive(Debug, Clone, Copy, PartialEq, Eq, Structural)]
pub enum Expect {
    /// At the start of a line: `Ident | Eol | Eof`.
    LineStart,
    Ident,
    Comma,
    /// After a complete line: nothing but the line end.
    LineEnd,
    CloseBracket,
    /// Where a value must start.
    Value,
}

/// The description of what was expected, as diagnostics word it.
pub open spec fn expect_text(e: Expect) -> Seq<char> {
    match e {
        Expect::LineStart => "Ident | Eol | Eof"@,
        Expect::Ident => "Ident"@,
        Expect::Comma => "Comma"@,
        Expect::LineEnd => "Whitespace"@,
        Expect::CloseBracket => "CloseBracket"@,
        Expect::Value => "Ident | Str | Colon | OpenBracket | Digit"@,
    }
}

/// The kind of a diagnostic, with strings as plain sequences.
pub enum KindText {
    Expected(Seq<char>),
    ParseIntError(IntErrorKind),
    InputEnd,
    /// The name, and the address of its first definition.
    DuplicateLabel(Seq<u8>, u16),
}

/// A diagnostic: the offending record and what is wrong with it.
pub struct ErrorText {
    pub ad: Advance,
    pub kind: KindText,
}

/// The result of parsing a part of a line: what was parsed and the index of
/// the record after it, or the diagnostic.
pub enum Parsed<T> {
    Done(T, int),
    Fail(ErrorText),
}

/// A program and its diagnostics.
pub struct ProgramText {
    pub lines: Seq<LineText>,
    pub errors: Seq<ErrorText>,
}

/// `section`
pub open spec fn section_word() -> Seq<u8> {
    seq![0x73, 0x65, 0x63, 0x74, 0x69, 0x6F, 0x6E]
}

/// `global`
pub open spec fn global_word() -> Seq<u8> {
    seq![0x67, 0x6C, 0x6F, 0x62, 0x61, 0x6C]
}

/// The records end with the one `Eof`.
pub open spec fn closed(t: Seq<Advance>) -> bool {
    &&& t.len() >= 1
    &&& forall|i: int| 0 <= i < t.len() ==> ((#[trigger] t[i]).lex is Eof <==> i == t.len() - 1)
}

/// The index after `j`; the last index is its own successor.
pub open spec fn after(t: Seq<Advance>, j: int) -> int {
    if j + 1 < t.len() {
        j + 1
    } else {
        j
    }
}

/// The index of the first record at or after `i` that is not whitespace.
pub open spec fn skip_ws(t: Seq<Advance>, i: int) -> int
    decreases t.len() - i,
{
    if 0 <= i && i + 1 < t.len() && t[i].lex is Whitespace {
        skip_ws(t, i + 1)
    } else {
        i
    }
}

/// The index of the first line end (`Eol` or `Eof`) at or after `i`.
pub open spec fn line_stop(t: Seq<Advance>, i: int) -> int
    decreases t.len() - i,
{
    if 0 <= i && i + 1 < t.len() && !t[i].lex.ends_line() {
        line_stop(t, i + 1)
    } else {
        i
    }
}

pub open spec fn fail<T>(ad: Advance, kind: KindText) -> Parsed<T> {
    Parsed::Fail(ErrorText { ad, kind })
}

pub open spec fn expected<T>(ad: Advance, e: Expect) -> Parsed<T> {
    fail(ad, KindText::Expected(expect_text(e)))
}

/// What must close a line: nothing is left on it from `i` on.
pub open spec fn end_at(t: Seq<Advance>, i: int) -> Option<ErrorText> {
    let k = skip_ws(t, i);
    if t[k].lex.ends_line() {
        None
    } else {
        Some(ErrorText { ad: t[k], kind: KindText::Expected(expect_text(Expect::LineEnd)) })
    }
}

/// The rest of a bracketed identifier, from the record after `[`.
pub open spec fn deref_at(s: Seq<u8>, t: Seq<Advance>, i: int) -> Parsed<Option<ValueText>> {
    let k = skip_ws(t, i);
    let m = skip_ws(t, k + 1);
    if t[k].lex is Ident {
        if t[m].lex is CloseBracket {
            Parsed::Done(Some(ValueText::Deref(t[k].span.of(s))), m + 1)
        } else if t[m].lex.ends_line() {
            fail(t[m], KindText::InputEnd)
        } else {
            expected(t[m], Expect::CloseBracket)
        }
    } else if t[k].lex.ends_line() {
        fail(t[k], KindText::InputEnd)
    } else {
        expected(t[k], Expect::Ident)
    }
}

/// A value from index `i`, or `None` where the line ends first.
pub open spec fn value_at(s: Seq<u8>, t: Seq<Advance>, i: int) -> Parsed<Option<ValueText>> {
    let j = skip_ws(t, i);
    let ad = t[j];
    match ad.lex {
        Lexeme::Eol(_) => Parsed::Done(None, after(t, j)),
        Lexeme::Eof => Parsed::Done(None, after(t, j)),
        Lexeme::Ident => Parsed::Done(Some(ValueText::Ident(ad.span.of(s))), j + 1),
        Lexeme::Str => if str_closed(s, ad.span.from + 1) {
            Parsed::Done(
                Some(ValueText::String(s.subrange(ad.span.from + 1, ad.span.to - 1))),
                j + 1,
            )
        } else {
            fail(ad, KindText::InputEnd)
        },
        Lexeme::Digit(base) => match literal_value(ad.span.of(s), base) {
            Ok(n) => Parsed::Done(Some(ValueText::Digit(base, n)), j + 1),
            Err(e) => fail(ad, KindText::ParseIntError(e)),
        },
        Lexeme::OpenBracket => deref_at(s, t, j + 1),
        _ => expected(ad, Expect::Value),
    }
}

/// The values that follow `acc`, each after a comma, up to the line end.
pub open spec fn values_at(s: Seq<u8>, t: Seq<Advance>, i: int, acc: Seq<ValueText>) -> Parsed<
    Seq<ValueText>,
>
    decreases t.len() - i,
{
    let j = skip_ws(t, i);
    if t[j].lex is Comma {
        match value_at(s, t, j + 1) {
            Parsed::Done(Some(v), k) => if i < k <= t.len() {
                values_at(s, t, k, acc.push(v))
            } else {
                Parsed::Done(acc, k)
            },
            Parsed::Done(None, k) => Parsed::Done(acc, k),
            Parsed::Fail(e) => Parsed::Fail(e),
        }
    } else if t[j].lex.ends_line() {
        Parsed::Done(acc, after(t, j))
    } else {
        expected(t[j], Expect::Comma)
    }
}

/// The name that follows the keyword of a `section` or `global` line.
pub open spec fn named_at(s: Seq<u8>, t: Seq<Advance>, i: int) -> Result<Seq<u8>, ErrorText> {
    let j = skip_ws(t, i);
    if t[j].lex is Ident {
        match end_at(t, j + 1) {
            None => Ok(t[j].span.of(s)),
            Some(e) => Err(e),
        }
    } else if t[j].lex.ends_line() {
        Err(ErrorText { ad: t[j], kind: KindText::InputEnd })
    } else {
        Err(ErrorText { ad: t[j], kind: KindText::Expected(expect_text(Expect::Ident)) })
    }
}

pub open spec fn instruction(ins: Seq<u8>, r: Parsed<Seq<ValueText>>) -> Result<
    LineText,
    ErrorText,
> {
    match r {
        Parsed::Done(values, _) => Ok(LineText::Instruction { ins, values }),
        Parsed::Fail(e) => Err(e),
    }
}

pub open spec fn variable(name: Seq<u8>, ty: Seq<u8>, r: Parsed<Seq<ValueText>>) -> Result<
    LineText,
    ErrorText,
> {
    match r {
        Parsed::Done(values, _) => Ok(LineText::Variable { name, ty, values }),
        Parsed::Fail(e) => Err(e),
    }
}

/// After two identifiers, the record at `p` decides: a comma or a line end
/// makes the second the first argument of an instruction; anything else
/// makes it the directive of a variable.
pub open spec fn is_directive(v: ValueText, next: Lexeme) -> bool {
    v is Ident && !(next is Comma) && !next.ends_line()
}

/// The line whose first identifier is `first`, from the record after the
/// colon that makes it a label.
pub open spec fn label_at(t: Seq<Advance>, first: Seq<u8>, i: int) -> Result<LineText, ErrorText> {
    match end_at(t, i) {
        None => Ok(LineText::Label { name: first }),
        Some(e) => Err(e),
    }
}

/// The line whose first identifier is `first` and whose first value is `v`,
/// from index `k` on, where `v` ends: an instruction, or a variable of
/// which `v` is the directive.
pub open spec fn rest_at(s: Seq<u8>, t: Seq<Advance>, first: Seq<u8>, v: ValueText, k: int) -> Result<
    LineText,
    ErrorText,
> {
    if is_directive(v, t[skip_ws(t, k)].lex) {
        match value_at(s, t, k) {
            Parsed::Fail(e) => Err(e),
            Parsed::Done(None, _) => Ok(LineText::Instruction { ins: first, values: seq![v] }),
            Parsed::Done(Some(w), m) => variable(first, v->Ident_0, values_at(s, t, m, seq![w])),
        }
    } else {
        instruction(first, values_at(s, t, k, seq![v]))
    }
}

/// A label, an instruction or a variable, whose first identifier is the
/// record at `i`.
pub open spec fn statement_at(s: Seq<u8>, t: Seq<Advance>, i: int) -> Result<
    LineText,
    ErrorText,
> {
    let first = t[i].span.of(s);
    if t[skip_ws(t, i + 1)].lex is Colon {
        label_at(t, first, skip_ws(t, i + 1) + 1)
    } else {
        match value_at(s, t, i + 1) {
            Parsed::Fail(e) => Err(e),
            Parsed::Done(None, _) => Ok(
                LineText::Instruction { ins: first, values: Seq::empty() },
            ),
            Parsed::Done(Some(v), k) => rest_at(s, t, first, v, k),
        }
    }
}

/// The line whose first record that is not whitespace is the one at `i`.
pub open spec fn line_at(s: Seq<u8>, t: Seq<Advance>, i: int) -> Result<LineText, ErrorText> {
    match t[i].lex {
        Lexeme::Eol(_) => Ok(LineText::NoOp),
        Lexeme::Ident => if t[i].span.of(s) == section_word() {
            match named_at(s, t, i + 1) {
                Ok(name) => Ok(LineText::Section { name }),
                Err(e) => Err(e),
            }
        } else if t[i].span.of(s) == global_word() {
            match named_at(s, t, i + 1) {
                Ok(name) => Ok(LineText::Global { name }),
                Err(e) => Err(e),
            }
        } else {
            statement_at(s, t, i)
        },
        _ => Err(
            ErrorText { ad: t[i], kind: KindText::Expected(expect_text(Expect::LineStart)) },
        ),
    }
}

/// The address of the first line of `lines` that defines the label `name`.
pub open spec fn first_label(lines: Seq<LineText>, name: Seq<u8>) -> Option<int>
    decreases lines.len(),
{
    if lines.len() == 0 {
        None
    } else {
        match first_label(lines.drop_last(), name) {
            Some(a) => Some(a),
            None => if lines.last() == (LineText::Label { name }) {
                Some(lines.len() - 1)
            } else {
                None
            },
        }
    }
}

/// An address as a diagnostic carries it: in 16 bits, the largest where it
/// does not fit.
pub open spec fn address_of(a: int) -> u16 {
    if a > u16::MAX {
        u16::MAX
    } else {
        a as u16
    }
}

/// What a parsed line adds to the program `before` it: itself, or `NoOp`
/// and a diagnostic where it failed or defines a label again.
pub open spec fn settle(before: Seq<LineText>, first: Advance, r: Result<LineText, ErrorText>) -> (
    LineText,
    Option<ErrorText>,
) {
    match r {
        Err(e) => (LineText::NoOp, Some(e)),
        Ok(LineText::Label { name }) => match first_label(before, name) {
            Some(a) => (
                LineText::NoOp,
                Some(ErrorText { ad: first, kind: KindText::DuplicateLabel(name, address_of(a)) }),
            ),
            None => (LineText::Label { name }, None),
        },
        Ok(line) => (line, None),
    }
}

pub open spec fn add_line(acc: ProgramText, r: (LineText, Option<ErrorText>)) -> ProgramText {
    ProgramText {
        lines: acc.lines.push(r.0),
        errors: match r.1 {
            Some(e) => acc.errors.push(e),
            None => acc.errors,
        },
    }
}

/// The program that the lines from index `i` on add to `acc`.
pub open spec fn parse_from(s: Seq<u8>, t: Seq<Advance>, i: int, acc: ProgramText) -> ProgramText
    decreases t.len() - i,
{
    let j = skip_ws(t, i);
    if j < 0 || j >= t.len() || t[j].lex is Eof {
        acc
    } else {
        let next = after(t, line_stop(t, j));
        let acc2 = add_line(acc, settle(acc.lines, t[j], line_at(s, t, j)));
        if i < next <= t.len() {
            parse_from(s, t, next, acc2)
        } else {
            acc2
        }
    }
}

/// The program and the diagnostics of the source `s`.
pub open spec fn parse_text(s: Seq<u8>) -> ProgramText {
    parse_from(s, tokens(s), 0, ProgramText { lines: Seq::empty(), errors: Seq::empty() })
}

pub proof fn lemma_line_stop(t: Seq<Advance>, i: int)
    requires
        closed(t),
        0 <= i < t.len(),
    ensures
        i <= line_stop(t, i) < t.len(),
        t[line_stop(t, i)].lex.ends_line(),
        forall|k: int| i <= k < line_stop(t, i) ==> !(#[trigger] t[k]).lex.ends_line(),
        forall|k: int| i <= k <= line_stop(t, i) ==> #[trigger] line_stop(t, k) == line_stop(t, i),
    decreases t.len() - i,
{
    if i + 1 < t.len() && !t[i].lex.ends_line() {
        lemma_line_stop(t, i + 1);
    }
}

pub proof fn lemma_skip_ws(t: Seq<Advance>, i: int)
    requires
        closed(t),
        0 <= i < t.len(),
    ensures
        i <= skip_ws(t, i) <= line_stop(t, i),
        skip_ws(t, i) < t.len(),
        !(t[skip_ws(t, i)].lex is Whitespace),
        forall|k: int| i <= k < skip_ws(t, i) ==> (#[trigger] t[k]).lex is Whitespace,
        line_stop(t, skip_ws(t, i)) == line_stop(t, i),
    decreases t.len() - i,
{
    lemma_line_stop(t, i);
    if i + 1 < t.len() && t[i].lex is Whitespace {
        lemma_skip_ws(t, i + 1);
        lemma_line_stop(t, i + 1);
    }
}

} // verus!
