//! Lines and addresses: the program has one line for each line of the
//! source, in order, so that the line number that the lexer gives a record
//! is the address of the line that the record belongs to.

use vstd::prelude::*;

use crate::grammar::{
    add_line, after, lemma_line_stop, lemma_skip_ws, line_at, line_stop, parse_from, parse_text,
    settle, skip_ws, ErrorText, ProgramText,
};
use crate::ir::LineText;

use crate::lexeme::Advance;
use crate::order::{lemma_records_ok, records_ok};
use crate::tokens::{follows, tokens};

verus! {

/// Records between which no line ends are on the same line.
pub proof fn lemma_same_line(s: Seq<u8>, t: Seq<Advance>, a: int, b: int)
    requires
        records_ok(s, t),
        0 <= a <= b < t.len(),
        forall|k: int| a <= k < b ==> !(#[trigger] t[k]).lex.ends_line(),
    ensures
        t[b].line == t[a].line,
    decreases b - a,
{
    if a < b {
        lemma_same_line(s, t, a, b - 1);
        assert(follows(t[b - 1], t[b]));
        assert(!t[b - 1].lex.ends_line());
    }
}

/// Line numbers do not go back.
pub proof fn lemma_lines_grow(s: Seq<u8>, t: Seq<Advance>, a: int, b: int)
    requires
        records_ok(s, t),
        0 <= a <= b < t.len(),
    ensures
        t[a].line <= t[b].line,
    decreases b - a,
{
    if a < b {
        lemma_lines_grow(s, t, a, b - 1);
        assert(follows(t[b - 1], t[b]));
    }
}

/// The record at `i` is the first of its line.
pub open spec fn starts_line(t: Seq<Advance>, i: int) -> bool {
    i == 0 || (0 < i < t.len() && t[i - 1].lex is Eol)
}

proof fn lemma_parse_from(s: Seq<u8>, t: Seq<Advance>, i: int, acc: ProgramText)
    requires
        records_ok(s, t),
        0 <= i < t.len(),
        starts_line(t, i),
        acc.lines.len() == t[i].line,
    ensures
        ({
            let all = parse_from(s, t, i, acc);
            &&& acc.lines.is_prefix_of(all.lines)
            &&& all.lines.len() <= t.last().line + 1
            &&& forall|k: int|
                i <= k < t.len() && (#[trigger] t[k]).lex is Eol ==> t[k].line < all.lines.len()
        }),
    decreases t.len() - i,
{
    let all = parse_from(s, t, i, acc);
    let j = skip_ws(t, i);
    lemma_skip_ws(t, i);
    lemma_line_stop(t, i);
    lemma_line_stop(t, j);
    let stop = line_stop(t, j);
    lemma_same_line(s, t, i, stop);
    lemma_lines_grow(s, t, stop, t.len() - 1);
    assert(acc.lines =~= acc.lines.subrange(0, acc.lines.len() as int));
    if t[j].lex is Eof {
        assert(all == acc);
        assert forall|k: int| i <= k < t.len() && (#[trigger] t[k]).lex is Eol implies t[k].line
            < all.lines.len() by {
            if k < j {
                assert(t[k].lex is Whitespace);
            }
        }
    } else {
        let next = after(t, stop);
        let acc2 = ProgramText {
            lines: acc.lines.push(settle(acc.lines, t[j], line_at(s, t, j)).0),
            errors: add_line(acc, settle(acc.lines, t[j], line_at(s, t, j))).errors,
        };
        assert(acc2 == add_line(acc, settle(acc.lines, t[j], line_at(s, t, j))));
        if t[stop].lex is Eol {
            assert(follows(t[stop], t[stop + 1]));
            lemma_parse_from(s, t, next, acc2);
            assert(all == parse_from(s, t, next, acc2));
            assert(acc.lines =~= all.lines.subrange(0, acc.lines.len() as int)) by {
                assert(acc2.lines =~= all.lines.subrange(0, acc2.lines.len() as int));
                assert(acc.lines =~= acc2.lines.subrange(0, acc.lines.len() as int));
            }
            assert forall|k: int|
                i <= k < t.len() && (#[trigger] t[k]).lex is Eol implies t[k].line
                < all.lines.len() by {
                if k <= stop {
                    assert(k == stop);
                }
            }
        } else {
            assert(stop == t.len() - 1);
            assert(parse_from(s, t, next, acc2) == acc2);
            assert(all == acc2);
            assert(acc.lines =~= acc2.lines.subrange(0, acc.lines.len() as int));
            assert forall|k: int|
                i <= k < t.len() && (#[trigger] t[k]).lex is Eol implies t[k].line
                < all.lines.len() by {
                if k < stop {
                    assert(!t[k].lex.ends_line());
                }
            }
        }
    }
}

/// The line at the address of a line of the source is what that line
/// parses to, or `NoOp`.
proof fn lemma_content_from(s: Seq<u8>, t: Seq<Advance>, i: int, acc: ProgramText, a: int)
    requires
        records_ok(s, t),
        0 <= i <= a < t.len(),
        starts_line(t, i),
        starts_line(t, a),
        acc.lines.len() == t[i].line,
        !(t[skip_ws(t, a)].lex is Eof),
    ensures
        ({
            let all = parse_from(s, t, i, acc);
            let line = t[a].line as int;
            &&& line < all.lines.len()
            &&& all.lines[line] is NoOp || line_at(s, t, skip_ws(t, a)) == Ok::<
                LineText,
                ErrorText,
            >(all.lines[line])
        }),
    decreases t.len() - i,
{
    let all = parse_from(s, t, i, acc);
    let j = skip_ws(t, i);
    lemma_skip_ws(t, i);
    lemma_line_stop(t, i);
    lemma_line_stop(t, j);
    let stop = line_stop(t, j);
    let next = after(t, stop);
    let acc2 = add_line(acc, settle(acc.lines, t[j], line_at(s, t, j)));
    if a == i {
        if t[stop].lex is Eol {
            assert(follows(t[stop], t[stop + 1]));
            lemma_same_line(s, t, i, stop);
            lemma_parse_from(s, t, next, acc2);
            assert(all == parse_from(s, t, next, acc2));
            assert(acc2.lines.is_prefix_of(all.lines));
            assert(all.lines[acc.lines.len() as int] == acc2.lines[acc.lines.len() as int]);
        } else {
            assert(parse_from(s, t, next, acc2) == acc2);
        }
    } else {
        assert(t[a - 1].lex is Eol);
        assert(a - 1 >= stop) by {
            if a - 1 < stop {
                assert(!t[a - 1].lex.ends_line());
            }
        }
        assert(t[stop].lex is Eol);
        assert(follows(t[stop], t[stop + 1]));
        lemma_same_line(s, t, i, stop);
        lemma_content_from(s, t, next, acc2, a);
    }
}

/// Lines by address. A line of the source that is not blank space before
/// the end of input has a line in the program, at the address that is its
/// line number: what it parses to, or `NoOp`.
pub proof fn lemma_line_content(s: Seq<u8>, a: int)
    requires
        s.len() <= u32::MAX,
        0 <= a < tokens(s).len(),
        starts_line(tokens(s), a),
        !(tokens(s)[skip_ws(tokens(s), a)].lex is Eof),
    ensures
        ({
            let t = tokens(s);
            let lines = parse_text(s).lines;
            let line = t[a].line as int;
            &&& line < lines.len()
            &&& lines[line] is NoOp || line_at(s, t, skip_ws(t, a)) == Ok::<LineText, ErrorText>(
                lines[line],
            )
        }),
{
    lemma_records_ok(s);
    crate::tokens::lemma_line_bookkeeping(s);
    let empty = ProgramText { lines: Seq::empty(), errors: Seq::empty() };
    lemma_content_from(s, tokens(s), 0, empty, a);
}

/// Lines and addresses. The program of a source holds a line for every
/// line end of the source, at the address that is the line number of that
/// line end, and at most one line more, for text after the last line end.
pub proof fn lemma_line_addresses(s: Seq<u8>)
    requires
        s.len() <= u32::MAX,
    ensures
        parse_text(s).lines.len() <= tokens(s).last().line + 1,
        forall|k: int|
            0 <= k < tokens(s).len() && (#[trigger] tokens(s)[k]).lex is Eol ==> tokens(s)[k].line
                < parse_text(s).lines.len(),
{
    lemma_records_ok(s);
    crate::tokens::lemma_line_bookkeeping(s);
    let empty = ProgramText { lines: Seq::empty(), errors: Seq::empty() };
    lemma_parse_from(s, tokens(s), 0, empty);
}

} // verus!
