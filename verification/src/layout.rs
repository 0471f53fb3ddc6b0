//! The canonical layout, as the edits that bring a source text to it.
//!
//! Lines are the groups of records that end with an `Eol`; what follows the
//! last `Eol` is left alone, and so is every line with a diagnostic. An edit
//! is emitted only where the text differs from the canon:
//!
//! - a line other than an instruction starts at column 0, an instruction
//!   after exactly `tab` spaces;
//! - whitespace is deleted before `,`, `:`, `]` and after `[`, and is one
//!   space anywhere else between two tokens; a comma is followed by a space;
//! - whitespace at the end of a line is deleted; before a comment that
//!   follows code there is one space;
//! - a comment body starts with one space and ends without whitespace.

use vstd::prelude::*;

use crate::grammar::{line_stop, parse_text};
use crate::ir::LineText;
use crate::lexeme::{Advance, Lexeme};
use crate::scan::{ws_end, ws_len, NEWLINE, SPACE};
use crate::span::Span;
use crate::tokens::tokens;

verus! {

/// The shape of a line, which decides its layout.
#[derive(Debug, Clone, Copy, PartialEq, Eq, Structural)]
pub enum LineKind {
    NoOp,
    Section,
    Global,
    Label,
    Instruction,
    Variable,
}

pub open spec fn kind_of(line: LineText) -> LineKind {
    match line {
        LineText::NoOp => LineKind::NoOp,
        LineText::Section { .. } => LineKind::Section,
        LineText::Global { .. } => LineKind::Global,
        LineText::Label { .. } => LineKind::Label,
        LineText::Instruction { .. } => LineKind::Instruction,
        LineText::Variable { .. } => LineKind::Variable,
    }
}

/// One replacement: the bytes of `span`, which lies on line `line` that
/// starts at `offset`, become `text`.
pub struct EditText {
    pub line: u32,
    pub offset: u32,
    pub span: Span,
    pub text: Seq<char>,
}

/// `n` spaces.
pub open spec fn spaces(n: nat) -> Seq<char> {
    Seq::new(n, |i: int| ' ')
}

/// The edit that sets the bytes from `from` to `to`, on the line of `ad`, to
/// `n` spaces.
pub open spec fn edit(ad: Advance, from: int, to: int, n: nat) -> EditText {
    EditText {
        line: ad.line,
        offset: ad.offset,
        span: Span { from: from as u32, to: to as u32 },
        text: spaces(n),
    }
}

/// The edit that sets the record `ad` to `n` spaces.
pub open spec fn replace(ad: Advance, n: nat) -> EditText {
    edit(ad, ad.span.from as int, ad.span.to as int, n)
}

/// The edit that puts `n` spaces right after the record `ad`.
pub open spec fn insert_after(ad: Advance, n: nat) -> EditText {
    edit(ad, ad.span.to as int, ad.span.to as int, n)
}

/// The edit that puts `n` spaces right before the record `ad`.
pub open spec fn insert_before(ad: Advance, n: nat) -> EditText {
    edit(ad, ad.span.from as int, ad.span.from as int, n)
}

/// The bytes from `from` to `to` are exactly one space.
pub open spec fn is_one_space(s: Seq<u8>, from: int, to: int) -> bool {
    to == from + 1 && 0 <= from < s.len() && s[from] == SPACE
}

/// The edit at the start of the line whose first record is `first` and
/// whose `Eol` comes `gap` records later. An instruction is indented by
/// `tab` spaces; where `tab` is 0 there is nothing to put before it.
pub open spec fn lead_edits(first: Advance, gap: int, kind: LineKind, tab: u32) -> Seq<EditText> {
    if kind == LineKind::Instruction {
        if !(first.lex is Whitespace) {
            if tab > 0 {
                seq![insert_before(first, tab as nat)]
            } else {
                Seq::empty()
            }
        } else if gap > 1 && first.span.to - first.span.from != tab {
            seq![replace(first, tab as nat)]
        } else {
            Seq::empty()
        }
    } else {
        if first.lex is Whitespace && gap > 1 {
            seq![replace(first, 0)]
        } else {
            Seq::empty()
        }
    }
}

/// The edit at the record at `i`, which stands between two records of its
/// line.
pub open spec fn inner_edits(s: Seq<u8>, t: Seq<Advance>, i: int) -> Seq<EditText> {
    let ad = t[i];
    let next = t[i + 1].lex;
    let prev = t[i - 1].lex;
    if ad.lex is Whitespace {
        if next is Comma || next is Colon || next is CloseBracket || prev is OpenBracket {
            seq![replace(ad, 0)]
        } else if !is_one_space(s, ad.span.from as int, ad.span.to as int) {
            seq![replace(ad, 1)]
        } else {
            Seq::empty()
        }
    } else if ad.lex is Comma && !(next is Whitespace) && !(next is Eol) {
        seq![insert_after(ad, 1)]
    } else {
        Seq::empty()
    }
}

/// The edits at the records from `i` up to, not including, `last`.
pub open spec fn range_edits(s: Seq<u8>, t: Seq<Advance>, i: int, last: int) -> Seq<EditText>
    decreases last - i,
{
    if i >= last {
        Seq::empty()
    } else {
        inner_edits(s, t, i) + range_edits(s, t, i + 1, last)
    }
}

/// The edit at `last`, the record before the line end `eol`.
pub open spec fn tail_edits(s: Seq<u8>, last: Advance, eol: Advance, kind: LineKind) -> Seq<
    EditText,
> {
    let comment = eol.lex == Lexeme::Eol(true);
    if last.lex is Whitespace {
        if !comment || kind == LineKind::NoOp {
            seq![replace(last, 0)]
        } else if !is_one_space(s, last.span.from as int, last.span.to as int) {
            seq![replace(last, 1)]
        } else {
            Seq::empty()
        }
    } else if comment && kind != LineKind::NoOp {
        seq![insert_after(last, 1)]
    } else {
        Seq::empty()
    }
}

/// Where the body of the comment `eol` ends: before its newline, if it has
/// one.
pub open spec fn body_end(s: Seq<u8>, eol: Advance) -> int {
    if eol.span.to - eol.span.from >= 2 && s[eol.span.to - 1] == NEWLINE {
        eol.span.to - 1
    } else {
        eol.span.to as int
    }
}

/// Where the whitespace starts that runs up to `end`, looked for from `i`
/// on; `end` where there is none.
pub open spec fn trail_start(s: Seq<u8>, i: int, end: int) -> int
    decreases end - i,
{
    if i >= end {
        end
    } else if ws_len(s, i) > 0 {
        if ws_end(s, i) >= end {
            i
        } else if ws_end(s, i) > i {
            trail_start(s, ws_end(s, i), end)
        } else {
            end
        }
    } else {
        trail_start(s, i + 1, end)
    }
}

/// The edits inside the comment of the line end `eol`.
pub open spec fn comment_edits(s: Seq<u8>, eol: Advance) -> Seq<EditText> {
    let start = eol.span.from + 1;
    let end = body_end(s, eol);
    let text = ws_end(s, start);
    if eol.lex != Lexeme::Eol(true) {
        Seq::empty()
    } else if text >= end {
        if start < end {
            seq![edit(eol, start, end, 0)]
        } else {
            Seq::empty()
        }
    } else {
        (if is_one_space(s, start, text) {
            Seq::empty()
        } else {
            seq![edit(eol, start, text, 1)]
        }) + (if trail_start(s, text, end) < end {
            seq![edit(eol, trail_start(s, text, end), end, 0)]
        } else {
            Seq::empty()
        })
    }
}

/// The edits of the line whose first record is at `a` and whose `Eol` is at
/// `e`.
pub open spec fn line_edits(
    s: Seq<u8>,
    t: Seq<Advance>,
    a: int,
    e: int,
    kinds: Seq<LineKind>,
    skip: Set<u32>,
    tab: u32,
) -> Seq<EditText> {
    let line = t[a].line as int;
    if skip.contains(t[a].line) {
        Seq::empty()
    } else if e == a {
        comment_edits(s, t[e])
    } else if line >= kinds.len() {
        Seq::empty()
    } else {
        lead_edits(t[a], e - a, kinds[line], tab) + (if kinds[line] != LineKind::NoOp {
            range_edits(s, t, a + 1, e - 1)
        } else {
            Seq::empty()
        }) + tail_edits(s, t[e - 1], t[e], kinds[line]) + comment_edits(s, t[e])
    }
}

/// The edits of the lines from the record at `i` on.
pub open spec fn edits_from(
    s: Seq<u8>,
    t: Seq<Advance>,
    i: int,
    kinds: Seq<LineKind>,
    skip: Set<u32>,
    tab: u32,
) -> Seq<EditText>
    decreases t.len() - i,
{
    let e = line_stop(t, i);
    if i < 0 || i >= t.len() || e < i || e >= t.len() || !(t[e].lex is Eol) {
        Seq::empty()
    } else {
        line_edits(s, t, i, e, kinds, skip, tab) + edits_from(s, t, e + 1, kinds, skip, tab)
    }
}

/// The edits that bring `s` to canonical form, given its records `t`, the
/// kinds of its lines, by address, and the lines to leave alone.
pub open spec fn edits_of(
    s: Seq<u8>,
    t: Seq<Advance>,
    kinds: Seq<LineKind>,
    skip: Set<u32>,
    tab: u32,
) -> Seq<EditText> {
    edits_from(s, t, 0, kinds, skip, tab)
}

/// The text that `edits`, from the `k`-th on, make of `s` from offset `p`
/// on: what lies between the edits is kept, what they span is replaced.
pub open spec fn splice_from(s: Seq<u8>, edits: Seq<EditText>, k: int, p: int) -> Seq<u8>
    decreases edits.len() - k,
{
    if k < 0 || k >= edits.len() {
        s.subrange(p, s.len() as int)
    } else {
        s.subrange(p, edits[k].span.from as int) + vstd::utf8::encode_utf8(edits[k].text)
            + splice_from(s, edits, k + 1, edits[k].span.to as int)
    }
}

/// The text that `edits` make of `s`.
pub open spec fn splice(s: Seq<u8>, edits: Seq<EditText>) -> Seq<u8> {
    splice_from(s, edits, 0, 0)
}

/// The kinds of the lines of the program of `s`, by address.
pub open spec fn parsed_kinds(s: Seq<u8>) -> Seq<LineKind> {
    Seq::new(parse_text(s).lines.len(), |i: int| kind_of(parse_text(s).lines[i]))
}

/// The lines of `s` on which a diagnostic lies.
pub open spec fn parsed_error_lines(s: Seq<u8>) -> Set<u32> {
    Set::new(
        |line: u32|
            exists|i: int|
                0 <= i < parse_text(s).errors.len() && parse_text(s).errors[i].ad.line == line,
    )
}

/// The edits that bring `s` to canonical layout, with instructions indented
/// by `tab`.
pub open spec fn format_edits(s: Seq<u8>, tab: u32) -> Seq<EditText> {
    edits_of(s, tokens(s), parsed_kinds(s), parsed_error_lines(s), tab)
}

/// The canonical layout of `s`, with instructions indented by `tab`.
pub open spec fn formatted(s: Seq<u8>, tab: u32) -> Seq<u8> {
    splice(s, format_edits(s, tab))
}

/// The edits lie in `s` from offset `p` on, in order, without overlap.
pub open spec fn in_order(edits: Seq<EditText>, p: int, len: int) -> bool {
    &&& forall|k: int|
        0 <= k < edits.len() ==> p <= (#[trigger] edits[k]).span.from <= edits[k].span.to <= len
    &&& forall|k: int, l: int|
        0 <= k < l < edits.len() ==> (#[trigger] edits[k]).span.to <= (#[trigger] edits[l]).span.from
}

} // verus!
