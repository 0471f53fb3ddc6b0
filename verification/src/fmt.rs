//! The formatter: from a parsed program, its records and its source to the
//! edits that bring the source to canonical layout, and to the formatted
//! text.

use ahash::AHashSet;
use vstd::prelude::*;
use vstd::string::{StringExecFns, StringSliceAdditionalSpecFns};
use vstd::utf8::{encode_utf8, is_char_boundary, valid_utf8};

use crate::grammar::{closed, lemma_line_stop, line_stop};
use crate::ir::{Basm, Line};
use crate::grammar::parse_text;
use crate::layout::{
    comment_edits, edit, edits_from, edits_of, format_edits, formatted, in_order, inner_edits,
    insert_after, insert_before, is_one_space, lead_edits, line_edits, parsed_error_lines,
    parsed_kinds, range_edits, replace, spaces, splice, splice_from, tail_edits, trail_start,
    EditText, LineKind,
};
use crate::order::{lemma_edits_in_order, on_boundaries};
use crate::parse::Parser;
use crate::lexeme::{Advance, Lexeme};
use crate::maps::{held, set_contains, set_insert, set_new};
use crate::parse::ParseError;
use crate::scan::{eat_ws, lemma_ws_end_bounds, ws_len_at, NEWLINE, SPACE};
use crate::span::Span;
use crate::tokens::{follows, is_token_of, lemma_tokens_from, tokens};
use crate::unicode::lemma_encode_concat;

verus! {

/// One replacement in the source: the bytes of `span`, which lies on line
/// `line` that starts at byte `offset`, become `text`. An empty text
/// deletes; an empty span inserts.
#[derive(Debug, Default, Clone, PartialEq, Eq)]
pub struct Edit {
    pub line: u32,
    pub offset: u32,
    /// Absolute in the source; subtract `offset` for columns.
    pub span: Span,
    pub text: String,
}

/// A string of `n` spaces.
pub fn space_string(n: u32) -> (text: String)
    ensures
        text@ == spaces(n as nat),
{
    let mut text = String::new();
    let mut i: u32 = 0;
    proof {
        reveal_strlit(" ");
        assert(text@ =~= spaces(0));
    }
    while i < n
        invariant
            i <= n,
            text@ == spaces(i as nat),
            " "@ == seq![' '],
        decreases n - i,
    {
        text.append(" ");
        i += 1;
        proof {
            assert(text@ =~= spaces(i as nat));
        }
    }
    text
}

impl Edit {
    pub open spec fn model(&self) -> EditText {
        EditText { line: self.line, offset: self.offset, span: self.span, text: self.text@ }
    }

    fn new(line: u32, offset: u32, span: Span, text: String) -> (e: Edit)
        ensures
            e.model() == (EditText { line, offset, span, text: text@ }),
    {
        Edit { line, offset, span, text }
    }

    /// The edit that sets the record `ad` to `text`.
    fn ad(ad: Advance, text: String) -> (e: Edit)
        ensures
            e.model() == (EditText {
                line: ad.line,
                offset: ad.offset,
                span: ad.span,
                text: text@,
            }),
    {
        Edit::new(ad.line, ad.offset, ad.span, text)
    }

    /// The edit that deletes the record `ad`.
    fn delete(ad: Advance) -> (e: Edit)
        ensures
            e.model() == replace(ad, 0),
    {
        let e = Edit::ad(ad, String::new());
        proof {
            assert(e.text@ =~= spaces(0));
        }
        e
    }

    /// The edit that sets the record `ad` to `n` spaces.
    fn space(ad: Advance, n: u32) -> (e: Edit)
        ensures
            e.model() == replace(ad, n as nat),
    {
        Edit::ad(ad, space_string(n))
    }

    /// The edit that sets the bytes of `span`, on the line of `ad`, to `n`
    /// spaces.
    fn at(ad: Advance, span: Span, n: u32) -> (e: Edit)
        ensures
            e.model() == edit(ad, span.from as int, span.to as int, n as nat),
    {
        Edit::new(ad.line, ad.offset, span, space_string(n))
    }
}

/// The edits, with strings as plain sequences.
pub open spec fn edits_model(edits: Seq<Edit>) -> Seq<EditText> {
    Seq::new(edits.len(), |i: int| edits[i].model())
}

/// The options of the formatter.
#[derive(Debug, Clone, Copy, PartialEq, Eq, Structural)]
pub struct FmtContext {
    /// The indent of an instruction, in spaces; 4 by default.
    pub tab_size: u32,
}

impl Default for FmtContext {
    fn default() -> (ctx: FmtContext)
        ensures
            ctx.tab_size == 4,
    {
        FmtContext { tab_size: 4 }
    }
}

pub open spec fn line_kind(line: Line) -> LineKind {
    match line {
        Line::NoOp => LineKind::NoOp,
        Line::Section { .. } => LineKind::Section,
        Line::Global { .. } => LineKind::Global,
        Line::Label { .. } => LineKind::Label,
        Line::Instruction { .. } => LineKind::Instruction,
        Line::Variable { .. } => LineKind::Variable,
    }
}

/// The kinds of the lines of a program, by address.
pub open spec fn line_kinds(lines: Seq<Line>) -> Seq<LineKind> {
    Seq::new(lines.len(), |i: int| line_kind(lines[i]))
}

/// The lines on which a diagnostic lies.
pub open spec fn error_lines(errors: Seq<ParseError>) -> Set<u32> {
    Set::new(|line: u32| exists|i: int| 0 <= i < errors.len() && errors[i].text().ad.line == line)
}

fn kind_of_line(line: &Line) -> (kind: LineKind)
    ensures
        kind == line_kind(*line),
{
    match line {
        Line::NoOp => LineKind::NoOp,
        Line::Section { .. } => LineKind::Section,
        Line::Global { .. } => LineKind::Global,
        Line::Label { .. } => LineKind::Label,
        Line::Instruction { .. } => LineKind::Instruction,
        Line::Variable { .. } => LineKind::Variable,
    }
}

/// The bytes from `from` to `to` are not exactly one space.
fn check_space(bytes: &[u8], from: u32, to: u32) -> (b: bool)
    requires
        from <= to <= bytes.len(),
    ensures
        b == !is_one_space(bytes@, from as int, to as int),
{
    !(to - from == 1 && bytes[from as usize] == SPACE)
}

struct Formatter<'a> {
    basm: &'a Basm,
    lex: &'a [Advance],
    fmt: &'a FmtContext,
    src: &'a str,
    err: AHashSet<u32>,
    out: Vec<Edit>,
}

impl<'a> Formatter<'a> {
    spec fn s(&self) -> Seq<u8> {
        self.src.spec_bytes()
    }

    spec fn inv(&self) -> bool {
        &&& self.src.spec_bytes().len() <= u32::MAX
        &&& self.lex@ == tokens(self.src.spec_bytes())
    }

    /// The edits so far.
    spec fn done(&self) -> Seq<EditText> {
        edits_model(self.out@)
    }

    /// Between `a` and `b` only edits were added.
    spec fn kept(a: Self, b: Self) -> bool {
        &&& b.basm == a.basm
        &&& b.lex == a.lex
        &&& b.fmt == a.fmt
        &&& b.src == a.src
        &&& b.err == a.err
    }

    proof fn lemma_facts(&self)
        requires
            self.inv(),
        ensures
            closed(self.lex@),
            forall|k: int| 0 <= k < self.lex@.len() ==> is_token_of(self.s(), #[trigger] self.lex@[k]),
            forall|i: int, j: int|
                0 <= i && j == i + 1 && j < self.lex@.len() ==> follows(
                    #[trigger] self.lex@[i],
                    #[trigger] self.lex@[j],
                ),
    {
        lemma_tokens_from(self.s(), 0, 0, 0);
    }

    fn push(&mut self, e: Edit)
        ensures
            Self::kept(*old(self), *final(self)),
            final(self).done() == old(self).done().push(e.model()),
    {
        self.out.push(e);
        proof {
            assert(edits_model(self.out@) =~= edits_model(old(self).out@).push(e.model()));
        }
    }

    /// The edits inside the comment of the line end `eol`.
    fn in_comment(&mut self, eol: Advance)
        requires
            old(self).inv(),
            is_token_of(old(self).s(), eol),
        ensures
            Self::kept(*old(self), *final(self)),
            final(self).done() == old(self).done() + comment_edits(old(self).s(), eol),
    {
        let ghost s = self.s();
        let ghost before = self.done();
        let bytes = self.src.as_bytes();
        match eol.lex {
            Lexeme::Eol(true) => {},
            _ => {
                proof {
                    assert(before + Seq::<EditText>::empty() =~= before);
                }
                return ;
            },
        }
        let from = eol.span.from;
        let to = eol.span.to;
        let start = from + 1;
        let end = if to - from >= 2 && bytes[to as usize - 1] == NEWLINE {
            to - 1
        } else {
            to
        };
        let text = eat_ws(bytes, start as usize);
        proof {
            lemma_ws_end_bounds(s, start as int);
        }
        if text >= end as usize {
            if start < end {
                self.push(Edit::at(eol, Span::new(start, end), 0));
                proof {
                    assert(before + seq![edit(eol, start as int, end as int, 0)] =~= before.push(
                        edit(eol, start as int, end as int, 0),
                    ));
                }
            } else {
                proof {
                    assert(before + Seq::<EditText>::empty() =~= before);
                }
            }
            return ;
        }
        let text = text as u32;
        let ghost lead = if is_one_space(s, start as int, text as int) {
            Seq::<EditText>::empty()
        } else {
            seq![edit(eol, start as int, text as int, 1)]
        };
        if check_space(bytes, start, text) {
            self.push(Edit::at(eol, Span::new(start, text), 1));
        }
        proof {
            assert(self.done() =~= before + lead);
        }
        let trail = trail_of(bytes, text as usize, end as usize) as u32;
        if trail < end {
            self.push(Edit::at(eol, Span::new(trail, end), 0));
        }
        proof {
            let tail = if trail_start(s, text as int, end as int) < end {
                seq![edit(eol, trail_start(s, text as int, end as int), end as int, 0)]
            } else {
                Seq::<EditText>::empty()
            };
            assert(self.done() =~= before + (lead + tail));
        }
    }

    /// The edit at the start of a line that is no instruction: its leading
    /// whitespace goes.
    fn fmt_unpadded(&mut self, first: Advance, gap: usize, kind: LineKind)
        requires
            kind != LineKind::Instruction,
        ensures
            Self::kept(*old(self), *final(self)),
            final(self).done() == old(self).done() + lead_edits(
                first,
                gap as int,
                kind,
                old(self).fmt.tab_size,
            ),
    {
        let ghost before = self.done();
        let is_ws = match first.lex {
            Lexeme::Whitespace => true,
            _ => false,
        };
        if is_ws && gap > 1 {
            self.push(Edit::delete(first));
            proof {
                assert(before + seq![replace(first, 0)] =~= before.push(replace(first, 0)));
            }
        } else {
            proof {
                assert(before + Seq::<EditText>::empty() =~= before);
            }
        }
    }

    /// The edit at the start of an instruction: it is indented by the tab
    /// size.
    fn fmt_instruction(&mut self, first: Advance, gap: usize)
        requires
            first.span.from <= first.span.to,
        ensures
            Self::kept(*old(self), *final(self)),
            final(self).done() == old(self).done() + lead_edits(
                first,
                gap as int,
                LineKind::Instruction,
                old(self).fmt.tab_size,
            ),
    {
        let ghost before = self.done();
        let tab = self.fmt.tab_size;
        let is_ws = match first.lex {
            Lexeme::Whitespace => true,
            _ => false,
        };
        if !is_ws {
            if tab > 0 {
                let at = Span::new(first.span.from, first.span.from);
                self.push(Edit::at(first, at, tab));
                proof {
                    assert(before + seq![insert_before(first, tab as nat)] =~= before.push(
                        insert_before(first, tab as nat),
                    ));
                }
            } else {
                proof {
                    assert(before + Seq::<EditText>::empty() =~= before);
                }
            }
        } else if gap > 1 && first.span.len() != tab {
            self.push(Edit::space(first, tab));
            proof {
                assert(before + seq![replace(first, tab as nat)] =~= before.push(
                    replace(first, tab as nat),
                ));
            }
        } else {
            proof {
                assert(before + Seq::<EditText>::empty() =~= before);
            }
        }
    }

    /// The edit at the record at `i`, between two records of its line.
    fn check_ws(&mut self, i: usize)
        requires
            old(self).inv(),
            1 <= i,
            i + 1 < old(self).lex@.len(),
        ensures
            Self::kept(*old(self), *final(self)),
            final(self).done() == old(self).done() + inner_edits(
                old(self).s(),
                old(self).lex@,
                i as int,
            ),
    {
        let ghost before = self.done();
        proof {
            self.lemma_facts();
            assert(is_token_of(self.s(), self.lex@[i as int]));
        }
        let bytes = self.src.as_bytes();
        let ad = self.lex[i];
        let next = self.lex[i + 1].lex;
        let prev = self.lex[i - 1].lex;
        match ad.lex {
            Lexeme::Whitespace => {
                let tight = match next {
                    Lexeme::Comma => true,
                    Lexeme::Colon => true,
                    Lexeme::CloseBracket => true,
                    _ => match prev {
                        Lexeme::OpenBracket => true,
                        _ => false,
                    },
                };
                if tight {
                    self.push(Edit::delete(ad));
                    proof {
                        assert(before + seq![replace(ad, 0)] =~= before.push(replace(ad, 0)));
                    }
                } else if check_space(bytes, ad.span.from, ad.span.to) {
                    self.push(Edit::space(ad, 1));
                    proof {
                        assert(before + seq![replace(ad, 1)] =~= before.push(replace(ad, 1)));
                    }
                } else {
                    proof {
                        assert(before + Seq::<EditText>::empty() =~= before);
                    }
                }
            },
            Lexeme::Comma => {
                let spaced = match next {
                    Lexeme::Whitespace => true,
                    Lexeme::Eol(_) => true,
                    _ => false,
                };
                if !spaced {
                    let at = Span::new(ad.span.to, ad.span.to);
                    self.push(Edit::at(ad, at, 1));
                    proof {
                        assert(before + seq![insert_after(ad, 1)] =~= before.push(
                            insert_after(ad, 1),
                        ));
                    }
                } else {
                    proof {
                        assert(before + Seq::<EditText>::empty() =~= before);
                    }
                }
            },
            _ => {
                proof {
                    assert(before + Seq::<EditText>::empty() =~= before);
                }
            },
        }
    }

    /// The edits at the records from `from` up to, not including, `last`.
    fn check_ws_range(&mut self, from: usize, last: usize)
        requires
            old(self).inv(),
            1 <= from,
            last + 1 < old(self).lex@.len(),
        ensures
            Self::kept(*old(self), *final(self)),
            final(self).done() == old(self).done() + range_edits(
                old(self).s(),
                old(self).lex@,
                from as int,
                last as int,
            ),
    {
        let ghost s = self.s();
        let ghost t = self.lex@;
        let ghost before = self.done();
        let mut i = from;
        proof {
            assert(before + range_edits(s, t, from as int, last as int) =~= before + range_edits(
                s,
                t,
                i as int,
                last as int,
            ));
        }
        while i < last
            invariant
                self.inv(),
                Self::kept(*old(self), *self),
                s == self.s(),
                t == self.lex@,
                1 <= from <= i,
                last + 1 < t.len(),
                self.done() + range_edits(s, t, i as int, last as int) == before + range_edits(
                    s,
                    t,
                    from as int,
                    last as int,
                ),
            decreases last - i,
        {
            let ghost so_far = self.done();
            self.check_ws(i);
            proof {
                assert(so_far + (inner_edits(s, t, i as int) + range_edits(
                    s,
                    t,
                    i + 1,
                    last as int,
                )) =~= (so_far + inner_edits(s, t, i as int)) + range_edits(
                    s,
                    t,
                    i + 1,
                    last as int,
                ));
            }
            i += 1;
        }
        proof {
            assert(self.done() + Seq::<EditText>::empty() =~= self.done());
        }
    }

    /// The edit at `last`, the record before the line end `eol`.
    fn fmt_tail(&mut self, last: Advance, eol: Advance, kind: LineKind)
        requires
            old(self).inv(),
            is_token_of(old(self).s(), last),
        ensures
            Self::kept(*old(self), *final(self)),
            final(self).done() == old(self).done() + tail_edits(old(self).s(), last, eol, kind),
    {
        let ghost before = self.done();
        let bytes = self.src.as_bytes();
        let comment = match eol.lex {
            Lexeme::Eol(true) => true,
            _ => false,
        };
        let noop = match kind {
            LineKind::NoOp => true,
            _ => false,
        };
        let is_ws = match last.lex {
            Lexeme::Whitespace => true,
            _ => false,
        };
        if is_ws {
            if !comment || noop {
                self.push(Edit::delete(last));
                proof {
                    assert(before + seq![replace(last, 0)] =~= before.push(replace(last, 0)));
                }
            } else if check_space(bytes, last.span.from, last.span.to) {
                self.push(Edit::space(last, 1));
                proof {
                    assert(before + seq![replace(last, 1)] =~= before.push(replace(last, 1)));
                }
            } else {
                proof {
                    assert(before + Seq::<EditText>::empty() =~= before);
                }
            }
        } else if comment && !noop {
            let at = Span::new(last.span.to, last.span.to);
            self.push(Edit::at(last, at, 1));
            proof {
                assert(before + seq![insert_after(last, 1)] =~= before.push(
                    insert_after(last, 1),
                ));
            }
        } else {
            proof {
                assert(before + Seq::<EditText>::empty() =~= before);
            }
        }
    }

    /// The edits of the line whose first record is at `a` and whose `Eol`
    /// is at `e`.
    fn fmt_line(&mut self, a: usize, e: usize)
        requires
            old(self).inv(),
            a <= e < old(self).lex@.len(),
            old(self).lex@[e as int].lex is Eol,
        ensures
            Self::kept(*old(self), *final(self)),
            final(self).done() == old(self).done() + line_edits(
                old(self).s(),
                old(self).lex@,
                a as int,
                e as int,
                line_kinds(old(self).basm.lines@),
                held(old(self).err),
                old(self).fmt.tab_size,
            ),
    {
        let ghost s = self.s();
        let ghost t = self.lex@;
        let ghost before = self.done();
        proof {
            self.lemma_facts();
            assert(is_token_of(s, t[a as int]));
            assert(is_token_of(s, t[e as int]));
            assert(before + Seq::<EditText>::empty() =~= before);
        }
        let first = self.lex[a];
        let eol = self.lex[e];
        if set_contains(&self.err, first.line) {
            return ;
        }
        if e == a {
            self.in_comment(eol);
            return ;
        }
        let line = first.line as usize;
        if line >= self.basm.lines.len() {
            return ;
        }
        let kind = kind_of_line(&self.basm.lines[line]);
        proof {
            assert(line_kinds(self.basm.lines@)[line as int] == kind);
        }
        self.fmt_body(a, e, kind);
    }

    /// The edits of a line of more than one record, of kind `kind`: at its
    /// start, between its records, at its end and in its comment.
    fn fmt_body(&mut self, a: usize, e: usize, kind: LineKind)
        requires
            old(self).inv(),
            a < e < old(self).lex@.len(),
        ensures
            Self::kept(*old(self), *final(self)),
            final(self).done() == old(self).done() + (lead_edits(
                old(self).lex@[a as int],
                e - a,
                kind,
                old(self).fmt.tab_size,
            ) + (if kind != LineKind::NoOp {
                range_edits(old(self).s(), old(self).lex@, a + 1, e - 1)
            } else {
                Seq::empty()
            }) + tail_edits(old(self).s(), old(self).lex@[e - 1], old(self).lex@[e as int], kind)
                + comment_edits(old(self).s(), old(self).lex@[e as int])),
    {
        let ghost s = self.s();
        let ghost t = self.lex@;
        let ghost before = self.done();
        proof {
            self.lemma_facts();
            assert(is_token_of(s, t[a as int]));
            assert(is_token_of(s, t[e as int]));
            assert(is_token_of(s, t[e - 1]));
        }
        let first = self.lex[a];
        let eol = self.lex[e];
        let last = self.lex[e - 1];
        let ghost lead = lead_edits(first, e - a, kind, self.fmt.tab_size);
        let ghost range = if kind != LineKind::NoOp {
            range_edits(s, t, a + 1, e - 1)
        } else {
            Seq::<EditText>::empty()
        };
        let ghost tail = tail_edits(s, last, eol, kind);
        let ghost comment = comment_edits(s, eol);
        match kind {
            LineKind::Instruction => {
                self.fmt_instruction(first, e - a);
            },
            _ => {
                self.fmt_unpadded(first, e - a, kind);
            },
        }
        assert(self.done() == before + lead);
        match kind {
            LineKind::NoOp => {
                proof {
                    assert(self.done() + Seq::<EditText>::empty() =~= self.done());
                }
            },
            _ => {
                self.check_ws_range(a + 1, e - 1);
            },
        }
        assert(self.done() == before + lead + range);
        self.fmt_tail(last, eol, kind);
        assert(self.done() == before + lead + range + tail);
        self.in_comment(eol);
        assert(self.done() == before + lead + range + tail + comment);
        proof {
            lemma_concat4(before, lead, range, tail, comment);
        }
    }
}

proof fn lemma_concat4(
    a: Seq<EditText>,
    b: Seq<EditText>,
    c: Seq<EditText>,
    d: Seq<EditText>,
    e: Seq<EditText>,
)
    ensures
        a + b + c + d + e == a + (b + c + d + e),
{
    assert(a + b + c + d + e =~= a + (b + c + d + e));
}

/// Where the whitespace starts that runs up to `end`, looked for from
/// `from` on.
fn trail_of(bytes: &[u8], from: usize, end: usize) -> (r: usize)
    requires
        from <= end <= bytes.len(),
    ensures
        r == trail_start(bytes@, from as int, end as int),
        from <= r <= end,
{
    let mut i = from;
    let mut r = end;
    while i < end
        invariant_except_break
            r == end,
            trail_start(bytes@, i as int, end as int) == trail_start(
                bytes@,
                from as int,
                end as int,
            ),
        invariant
            from <= i <= bytes.len(),
            end <= bytes.len(),
            from <= r <= end,
        ensures
            r == trail_start(bytes@, from as int, end as int),
        decreases bytes.len() - i,
    {
        if ws_len_at(bytes, i) > 0 {
            proof {
                lemma_ws_end_bounds(bytes@, i as int);
            }
            let stop = eat_ws(bytes, i);
            if stop >= end {
                r = i;
                break;
            }
            i = stop;
        } else {
            i += 1;
        }
    }
    r
}

/// The edits that bring `src` to canonical layout, in the order of the
/// source: those of `edits_of`, on the records `lex` of `src`, the kinds of
/// the lines of `basm`, and the lines of `errors` left alone.
pub fn fmt(basm: &Basm, lex: &[Advance], src: &str, errors: &[ParseError], ctx: &FmtContext) -> (out:
    Vec<Edit>)
    requires
        src.spec_bytes().len() <= u32::MAX,
        lex@ == tokens(src.spec_bytes()),
    ensures
        edits_model(out@) == edits_of(
            src.spec_bytes(),
            lex@,
            line_kinds(basm.lines@),
            error_lines(errors@),
            ctx.tab_size,
        ),
{
    let ghost s = src.spec_bytes();
    let ghost t = lex@;
    let ghost kinds = line_kinds(basm.lines@);
    let ghost skip = error_lines(errors@);
    let tab = ctx.tab_size;
    let mut err = set_new();
    let mut k: usize = 0;
    while k < errors.len()
        invariant
            0 <= k <= errors@.len(),
            held(err) == error_lines(errors@.take(k as int)),
        decreases errors@.len() - k,
    {
        let line = errors[k].advance().line;
        set_insert(&mut err, line);
        proof {
            let head = errors@.take(k as int);
            let next = errors@.take(k as int + 1);
            assert forall|l: u32| error_lines(next).contains(l) <==> error_lines(head).insert(
                line,
            ).contains(l) by {
                if error_lines(next).contains(l) {
                    let i = choose|i: int| 0 <= i < next.len() && next[i].text().ad.line == l;
                    if i < k {
                        assert(head[i] == next[i]);
                    }
                }
                if error_lines(head).contains(l) {
                    let i = choose|i: int| 0 <= i < head.len() && head[i].text().ad.line == l;
                    assert(next[i] == head[i]);
                }
                if l == line {
                    assert(next[k as int].text().ad.line == l);
                }
            }
            assert(error_lines(next) =~= error_lines(head).insert(line));
        }
        k += 1;
    }
    proof {
        assert(errors@.take(errors@.len() as int) =~= errors@);
        assert(error_lines(errors@.take(0)) =~= Set::<u32>::empty());
    }
    let mut f = Formatter { basm, lex, fmt: ctx, src, err, out: Vec::new() };
    let n = lex.len();
    let mut i: usize = 0;
    proof {
        f.lemma_facts();
        assert(f.done() =~= Seq::<EditText>::empty());
        assert(f.done() + edits_from(s, t, 0, kinds, skip, tab) =~= edits_of(
            s,
            t,
            kinds,
            skip,
            tab,
        ));
    }
    while i < n
        invariant_except_break
            f.done() + edits_from(s, t, i as int, kinds, skip, tab) == edits_of(
                s,
                t,
                kinds,
                skip,
                tab,
            ),
        invariant
            f.inv(),
            f.basm == basm,
            f.lex == lex,
            f.fmt == ctx,
            f.src == src,
            held(f.err) == skip,
            s == src.spec_bytes(),
            t == lex@,
            kinds == line_kinds(basm.lines@),
            tab == ctx.tab_size,
            n == t.len(),
            closed(t),
            0 <= i <= n,
        ensures
            f.done() == edits_of(s, t, kinds, skip, tab),
        decreases n - i,
    {
        let mut e = i;
        proof {
            lemma_line_stop(t, i as int);
        }
        while !lex[e].lex.is_line_end()
            invariant
                t == lex@,
                closed(t),
                i <= e <= line_stop(t, i as int),
                line_stop(t, i as int) < t.len(),
                forall|k: int| i <= k < line_stop(t, i as int) ==> !(#[trigger] t[k]).lex.ends_line(),
                t[line_stop(t, i as int)].lex.ends_line(),
            decreases t.len() - e,
        {
            e += 1;
        }
        match lex[e].lex {
            Lexeme::Eol(_) => {
                let ghost so_far = f.done();
                f.fmt_line(i, e);
                proof {
                    assert(so_far + (line_edits(s, t, i as int, e as int, kinds, skip, tab)
                        + edits_from(s, t, e + 1, kinds, skip, tab)) =~= (so_far + line_edits(
                        s,
                        t,
                        i as int,
                        e as int,
                        kinds,
                        skip,
                        tab,
                    )) + edits_from(s, t, e + 1, kinds, skip, tab));
                }
                i = e + 1;
            },
            _ => {
                proof {
                    assert(f.done() + Seq::<EditText>::empty() =~= f.done());
                }
                break;
            },
        }
    }
    proof {
        assert(f.done() + Seq::<EditText>::empty() =~= f.done());
    }
    f.out
}

/// The text that `edits` make of `src`: what lies between the edits is
/// kept, what they span is replaced.
pub fn apply(src: &str, edits: &[Edit]) -> (out: String)
    requires
        src.spec_bytes().len() <= u32::MAX,
        in_order(edits_model(edits@), 0, src.spec_bytes().len() as int),
        on_boundaries(edits_model(edits@), src.spec_bytes()),
    ensures
        encode_utf8(out@) == splice(src.spec_bytes(), edits_model(edits@)),
{
    let ghost s = src.spec_bytes();
    let ghost m = edits_model(edits@);
    let len = src.as_bytes().len() as u32;
    let mut out = String::new();
    let mut p: u32 = 0;
    let mut k: usize = 0;
    proof {
        vstd::utf8::encode_utf8_valid_utf8(src@);
        vstd::utf8::is_char_boundary_start_end_of_seq(s);
        assert(encode_utf8(out@) + splice_from(s, m, 0, 0) =~= splice(s, m));
    }
    while k < edits.len()
        invariant
            s == src.spec_bytes(),
            m == edits_model(edits@),
            len == s.len(),
            valid_utf8(s),
            in_order(m, 0, s.len() as int),
            on_boundaries(m, s),
            0 <= k <= edits@.len(),
            p <= len,
            is_char_boundary(s, p as int),
            k > 0 ==> p == m[k - 1].span.to,
            k == 0 ==> p == 0,
            encode_utf8(out@) + splice_from(s, m, k as int, p as int) == splice(s, m),
        decreases edits@.len() - k,
    {
        let e = &edits[k];
        let ghost before = out@;
        proof {
            assert(m[k as int] == e.model());
            assert(m[k as int].span.fits(s));
            if k > 0 {
                assert(m[k - 1].span.to <= m[k as int].span.from);
            }
        }
        let gap = Span::new(p, e.span.from).slice(src);
        out.append(gap);
        out.append(e.text.as_str());
        proof {
            lemma_encode_concat(before, gap@);
            lemma_encode_concat(before + gap@, e.text@);
            assert(encode_utf8(out@) + splice_from(s, m, k + 1, e.span.to as int) =~= encode_utf8(
                before,
            ) + splice_from(s, m, k as int, p as int));
        }
        p = e.span.to;
        k += 1;
    }
    let ghost before = out@;
    let rest = Span::new(p, len).slice(src);
    out.append(rest);
    proof {
        lemma_encode_concat(before, rest@);
    }
    out
}

/// The edits that bring `src` to canonical layout with the default
/// options, from a parse of `src`.
pub fn create_fmt(src: &str) -> (edits: Vec<Edit>)
    requires
        src.spec_bytes().len() <= u32::MAX,
    ensures
        edits_model(edits@) == format_edits(src.spec_bytes(), 4),
        in_order(edits_model(edits@), 0, src.spec_bytes().len() as int),
        on_boundaries(edits_model(edits@), src.spec_bytes()),
{
    let ghost s = src.spec_bytes();
    let (basm, errors, lex) = Parser::recorded(src).parse();
    let ctx = FmtContext::default();
    let edits = fmt(&basm, lex.as_slice(), src, errors.as_slice(), &ctx);
    proof {
        vstd::utf8::encode_utf8_valid_utf8(src@);
        lemma_edits_in_order(s, line_kinds(basm.lines@), error_lines(errors@), 4);
        assert(line_kinds(basm.lines@) =~= parsed_kinds(s));
        let errs = parse_text(s).errors;
        assert forall|l: u32| error_lines(errors@).contains(l) <==> parsed_error_lines(
            s,
        ).contains(l) by {
            if error_lines(errors@).contains(l) {
                let i = choose|i: int| 0 <= i < errors@.len() && errors@[i].text().ad.line == l;
                assert(errs[i] == errors@[i].text());
            }
            if parsed_error_lines(s).contains(l) {
                let i = choose|i: int| 0 <= i < errs.len() && errs[i].ad.line == l;
                assert(errs[i] == errors@[i].text());
            }
        }
        assert(error_lines(errors@) =~= parsed_error_lines(s));
    }
    edits
}

/// The canonical layout of `src`, with the default options.
pub fn apply_fmt(src: &str) -> (out: String)
    requires
        src.spec_bytes().len() <= u32::MAX,
    ensures
        encode_utf8(out@) == formatted(src.spec_bytes(), 4),
{
    let edits = create_fmt(src);
    apply(src, edits.as_slice())
}

} // verus!
