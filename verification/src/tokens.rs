//! The token sequence of a source text, as a mathematical object.
//!
//! `tokens(s)` is what a lexer hands out on `s`, one record per call, up to
//! and including the first `Eof`. The lexers are specified against it.

use vstd::prelude::*;

use crate::lexeme::{Advance, Lexeme};
use crate::scan::{lemma_scan_bounds, scan_end, scan_kind};
use crate::span::Span;

verus! {

/// The record of the end of input of `s`, met on line `line` that starts at
/// `offset`.
pub open spec fn eof_token(s: Seq<u8>, line: int, offset: int) -> Advance {
    Advance {
        lex: Lexeme::Eof,
        line: line as u32,
        offset: offset as u32,
        span: Span { from: s.len() as u32, to: s.len() as u32 },
    }
}

/// The record of the token that starts at `pos`, on line `line` that starts
/// at `offset`.
pub open spec fn token_at(s: Seq<u8>, pos: int, line: int, offset: int) -> Advance {
    if 0 <= pos < s.len() {
        Advance {
            lex: scan_kind(s, pos),
            line: line as u32,
            offset: offset as u32,
            span: Span { from: pos as u32, to: scan_end(s, pos) as u32 },
        }
    } else {
        eof_token(s, line, offset)
    }
}

/// The records from offset `pos` on, where `pos` lies on line `line` that
/// starts at `offset`. A line end closes its line: the next record is on
/// line `line + 1`, which starts where the line end stops.
pub open spec fn tokens_from(s: Seq<u8>, pos: int, line: int, offset: int) -> Seq<Advance>
    decreases s.len() - pos,
{
    if 0 <= pos < s.len() {
        let end = scan_end(s, pos);
        let tok = token_at(s, pos, line, offset);
        if end <= pos || end > s.len() {
            seq![tok]
        } else if scan_kind(s, pos) is Eol {
            seq![tok] + tokens_from(s, end, line + 1, end)
        } else {
            seq![tok] + tokens_from(s, end, line, offset)
        }
    } else {
        seq![eof_token(s, line, offset)]
    }
}

/// The records of the whole of `s`.
pub open spec fn tokens(s: Seq<u8>) -> Seq<Advance> {
    tokens_from(s, 0, 0, 0)
}

/// The index after `i` in the records of `s`; the last index, that of `Eof`,
/// is its own successor.
pub open spec fn next_index(s: Seq<u8>, i: nat) -> nat {
    if i + 1 < tokens(s).len() {
        i + 1
    } else {
        i
    }
}

/// The record `b` comes right after the record `a`: it starts where `a`
/// ends, and is on the next line, which starts there, exactly when `a` is a
/// line end.
pub open spec fn follows(a: Advance, b: Advance) -> bool {
    &&& b.span.from == a.span.to
    &&& b.line == a.line + (if a.lex is Eol {
        1int
    } else {
        0int
    })
    &&& b.offset == (if a.lex is Eol {
        a.span.to
    } else {
        a.offset
    })
}

/// What holds of the record `t` of a token of `s`: it is the record of the
/// token that starts at its own start, and its line starts no later.
pub open spec fn is_token_of(s: Seq<u8>, t: Advance) -> bool {
    &&& t.offset <= t.span.from <= t.span.to <= s.len()
    &&& t.line <= t.offset
    &&& t == token_at(s, t.span.from as int, t.line as int, t.offset as int)
    &&& t.lex is Eof <==> t.span.from == s.len()
    &&& !(t.lex is Eof) ==> t.span.from < t.span.to
}

/// The shape of `tokens_from`: records that tile `[pos, len)`, each on the
/// line that the line ends before it fix, closed by the one `Eof`.
pub proof fn lemma_tokens_from(s: Seq<u8>, pos: int, line: int, offset: int)
    requires
        s.len() <= u32::MAX,
        0 <= line <= offset <= pos <= s.len(),
    ensures
        ({
            let t = tokens_from(s, pos, line, offset);
            &&& 1 <= t.len() <= s.len() - pos + 1
            &&& t[0] == token_at(s, pos, line, offset)
            &&& t[0].span.from == pos
            &&& t.last() == eof_token(s, t.last().line as int, t.last().offset as int)
            &&& forall|i: int| 0 <= i < t.len() ==> is_token_of(s, #[trigger] t[i])
            &&& forall|i: int| 0 <= i < t.len() ==> pos <= (#[trigger] t[i]).span.from
            &&& forall|i: int| 0 <= i < t.len() ==> line <= (#[trigger] t[i]).line
            &&& forall|i: int| 0 <= i < t.len() ==> ((#[trigger] t[i]).lex is Eof <==> i == t.len() - 1)
            &&& forall|i: int, j: int|
                0 <= i && j == i + 1 && j < t.len() ==> follows(#[trigger] t[i], #[trigger] t[j])
        }),
    decreases s.len() - pos,
{
    let t = tokens_from(s, pos, line, offset);
    if pos < s.len() {
        lemma_scan_bounds(s, pos);
        let end = scan_end(s, pos);
        let tok = token_at(s, pos, line, offset);
        if scan_kind(s, pos) is Eol {
            let rest = tokens_from(s, end, line + 1, end);
            lemma_tokens_from(s, end, line + 1, end);
            assert(t == seq![tok] + rest);
            assert forall|i: int| 1 <= i < t.len() implies t[i] == rest[i - 1] by {}
            assert(t.last() == rest.last());
            assert forall|i: int, j: int| 0 <= i && j == i + 1 && j < t.len() implies follows(
                #[trigger] t[i],
                #[trigger] t[j],
            ) by {
                if i > 0 {
                    assert(follows(rest[i - 1], rest[j - 1]));
                }
            }
        } else {
            let rest = tokens_from(s, end, line, offset);
            lemma_tokens_from(s, end, line, offset);
            assert(t == seq![tok] + rest);
            assert forall|i: int| 1 <= i < t.len() implies t[i] == rest[i - 1] by {}
            assert(t.last() == rest.last());
            assert forall|i: int, j: int| 0 <= i && j == i + 1 && j < t.len() implies follows(
                #[trigger] t[i],
                #[trigger] t[j],
            ) by {
                if i > 0 {
                    assert(follows(rest[i - 1], rest[j - 1]));
                }
            }
        }
    }
}

/// Unfolding the records at an index: the records from the `k`-th on are
/// those from its start, on its line.
pub proof fn lemma_tokens_skip(s: Seq<u8>, pos: int, line: int, offset: int, k: int)
    requires
        s.len() <= u32::MAX,
        0 <= line <= offset <= pos <= s.len(),
        0 <= k < tokens_from(s, pos, line, offset).len(),
    ensures
        ({
            let t = tokens_from(s, pos, line, offset);
            t.skip(k) == tokens_from(
                s,
                t[k].span.from as int,
                t[k].line as int,
                t[k].offset as int,
            )
        }),
    decreases k,
{
    let t = tokens_from(s, pos, line, offset);
    lemma_tokens_from(s, pos, line, offset);
    if k == 0 {
        assert(t.skip(0) == t);
    } else {
        lemma_scan_bounds(s, pos);
        let end = scan_end(s, pos);
        let tok = token_at(s, pos, line, offset);
        if scan_kind(s, pos) is Eol {
            let rest = tokens_from(s, end, line + 1, end);
            assert(t == seq![tok] + rest);
            lemma_tokens_skip(s, end, line + 1, end, k - 1);
            assert(t.skip(k) == rest.skip(k - 1));
            assert(t[k] == rest[k - 1]);
        } else {
            let rest = tokens_from(s, end, line, offset);
            assert(t == seq![tok] + rest);
            lemma_tokens_skip(s, end, line, offset, k - 1);
            assert(t.skip(k) == rest.skip(k - 1));
            assert(t[k] == rest[k - 1]);
        }
    }
}

/// Records come in the order of the text, and never go back a line.
pub proof fn lemma_token_order(s: Seq<u8>, a: int, b: int)
    requires
        s.len() <= u32::MAX,
        0 <= a <= b < tokens(s).len(),
    ensures
        tokens(s)[a].span.from <= tokens(s)[b].span.from,
        tokens(s)[a].line <= tokens(s)[b].line,
        a < b ==> tokens(s)[a].span.to <= tokens(s)[b].span.from,
    decreases b - a,
{
    let t = tokens(s);
    lemma_tokens_from(s, 0, 0, 0);
    assert(is_token_of(s, t[a]));
    assert(is_token_of(s, t[b]));
    if a < b {
        lemma_token_order(s, a, b - 1);
        assert(follows(t[b - 1], t[b]));
        assert(is_token_of(s, t[b - 1]));
    }
}

/// Lex totality: the spans of the records of `s` tile `[0, len)` without gap
/// or overlap, no record but the last is empty, and the last record, and
/// only the last, is `Eof`.
pub proof fn lemma_lex_totality(s: Seq<u8>)
    requires
        s.len() <= u32::MAX,
    ensures
        ({
            let t = tokens(s);
            &&& t.len() >= 1
            &&& t[0].span.from == 0
            &&& t.last().lex is Eof
            &&& t.last().span == (Span { from: s.len() as u32, to: s.len() as u32 })
            &&& forall|i: int, j: int|
                0 <= i && j == i + 1 && j < t.len() ==> (#[trigger] t[i]).span.to == (
                #[trigger] t[j]).span.from
            &&& forall|i: int|
                0 <= i < t.len() - 1 ==> (#[trigger] t[i]).span.from < t[i].span.to && !(t[i].lex is Eof)
        }),
{
    lemma_tokens_from(s, 0, 0, 0);
    let t = tokens(s);
    assert forall|i: int| 0 <= i < t.len() - 1 implies (#[trigger] t[i]).span.from < t[i].span.to
        && !(t[i].lex is Eof) by {
        assert(is_token_of(s, t[i]));
    }
    assert forall|i: int, j: int| 0 <= i && j == i + 1 && j < t.len() implies (#[trigger] t[i]).span.to
        == (#[trigger] t[j]).span.from by {
        assert(follows(t[i], t[j]));
    }
}

/// Line bookkeeping: a record is on the line after that of the record before
/// it exactly when that record is a line end, and that line starts where the
/// line end stops.
pub proof fn lemma_line_bookkeeping(s: Seq<u8>)
    requires
        s.len() <= u32::MAX,
    ensures
        ({
            let t = tokens(s);
            &&& t[0].line == 0
            &&& t[0].offset == 0
            &&& forall|i: int, j: int|
                0 <= i && j == i + 1 && j < t.len() ==> follows(#[trigger] t[i], #[trigger] t[j])
        }),
{
    lemma_tokens_from(s, 0, 0, 0);
}

} // verus!
