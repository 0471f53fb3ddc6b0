//! Recovery by line: a line that fails gives one diagnostic, which lies on
//! that line, and `NoOp` in the program; the lines after it are read as if
//! nothing had happened.

use vstd::prelude::*;

use crate::address::{lemma_same_line, starts_line};
use crate::grammar::{add_line, after, deref_at, end_at, lemma_line_stop, lemma_skip_ws, line_at, line_stop, named_at, parse_from, parse_text, rest_at, settle, skip_ws, statement_at, value_at, values_at, Parsed, ProgramText};
use crate::ir::ValueText;
use crate::lexeme::Advance;
use crate::order::{lemma_records_ok, records_ok};
use crate::tokens::{follows, lemma_line_bookkeeping, tokens};

verus! {

/// A record up to the line end is on the line of the records before it.
proof fn lemma_in_line(s: Seq<u8>, t: Seq<Advance>, i: int, k: int)
    requires
        records_ok(s, t),
        0 <= i <= k <= line_stop(t, i),
        i < t.len(),
    ensures
        t[k].line == t[i].line,
{
    lemma_line_stop(t, i);
    lemma_same_line(s, t, i, k);
}

proof fn lemma_end_line(s: Seq<u8>, t: Seq<Advance>, i: int)
    requires
        records_ok(s, t),
        0 <= i < t.len(),
    ensures
        end_at(t, i) matches Some(e) ==> e.ad.line == t[i].line,
{
    lemma_skip_ws(t, i);
    lemma_in_line(s, t, i, skip_ws(t, i));
}

/// A value that fails does so on its line, and one that is read ends on
/// it.
proof fn lemma_value_line(s: Seq<u8>, t: Seq<Advance>, i: int)
    requires
        records_ok(s, t),
        0 <= i < t.len(),
    ensures
        match value_at(s, t, i) {
            Parsed::Fail(e) => e.ad.line == t[i].line,
            Parsed::Done(Some(_), k) => i < k <= line_stop(t, i),
            Parsed::Done(None, _) => true,
        },
{
    lemma_skip_ws(t, i);
    lemma_line_stop(t, i);
    let j = skip_ws(t, i);
    lemma_in_line(s, t, i, j);
    if t[j].lex is OpenBracket {
        lemma_skip_ws(t, j + 1);
        lemma_line_stop(t, j + 1);
        let k = skip_ws(t, j + 1);
        lemma_in_line(s, t, i, k);
        assert(value_at(s, t, i) == deref_at(s, t, j + 1));
        if t[k].lex is Ident {
            lemma_skip_ws(t, k + 1);
            lemma_line_stop(t, k + 1);
            lemma_in_line(s, t, i, skip_ws(t, k + 1));
        }
    }
}

proof fn lemma_values_line(s: Seq<u8>, t: Seq<Advance>, i: int, acc: Seq<ValueText>)
    requires
        records_ok(s, t),
        0 <= i < t.len(),
    ensures
        values_at(s, t, i, acc) matches Parsed::Fail(e) ==> e.ad.line == t[i].line,
    decreases t.len() - i,
{
    lemma_skip_ws(t, i);
    lemma_line_stop(t, i);
    let j = skip_ws(t, i);
    lemma_in_line(s, t, i, j);
    if t[j].lex is Comma {
        lemma_value_line(s, t, j + 1);
        lemma_line_stop(t, j + 1);
        lemma_in_line(s, t, i, j + 1);
        match value_at(s, t, j + 1) {
            Parsed::Done(Some(v), k) => {
                lemma_in_line(s, t, i, k);
                lemma_values_line(s, t, k, acc.push(v));
            },
            _ => {},
        }
    }
}

proof fn lemma_named_line(s: Seq<u8>, t: Seq<Advance>, i: int)
    requires
        records_ok(s, t),
        0 <= i < t.len(),
    ensures
        named_at(s, t, i) matches Err(e) ==> e.ad.line == t[i].line,
{
    lemma_skip_ws(t, i);
    lemma_line_stop(t, i);
    let j = skip_ws(t, i);
    lemma_in_line(s, t, i, j);
    if t[j].lex is Ident {
        lemma_line_stop(t, j + 1);
        lemma_in_line(s, t, i, j + 1);
        lemma_end_line(s, t, j + 1);
    }
}

/// The diagnostic of a line that fails lies on that line.
pub proof fn lemma_error_line(s: Seq<u8>, t: Seq<Advance>, i: int)
    requires
        records_ok(s, t),
        0 <= i < t.len(),
    ensures
        line_at(s, t, i) matches Err(e) ==> e.ad.line == t[i].line,
{
    lemma_line_stop(t, i);
    if t[i].lex is Ident {
        lemma_line_stop(t, i + 1);
        lemma_in_line(s, t, i, i + 1);
        lemma_skip_ws(t, i + 1);
        let first = t[i].span.of(s);
        if first == crate::grammar::section_word() || first == crate::grammar::global_word() {
            lemma_named_line(s, t, i + 1);
        } else {
            assert(line_at(s, t, i) == statement_at(s, t, i));
            let j = skip_ws(t, i + 1);
            lemma_in_line(s, t, i, j);
            if t[j].lex is Colon {
                lemma_line_stop(t, j + 1);
                lemma_in_line(s, t, i, j + 1);
                lemma_end_line(s, t, j + 1);
            } else {
                lemma_value_line(s, t, i + 1);
                match value_at(s, t, i + 1) {
                    Parsed::Done(Some(v), k) => {
                        lemma_in_line(s, t, i, k);
                        lemma_line_stop(t, k);
                        assert(line_at(s, t, i) == rest_at(s, t, first, v, k));
                        lemma_value_line(s, t, k);
                        lemma_values_line(s, t, k, seq![v]);
                        match value_at(s, t, k) {
                            Parsed::Done(Some(w), m) => {
                                lemma_in_line(s, t, i, m);
                                lemma_values_line(s, t, m, seq![w]);
                            },
                            _ => {},
                        }
                    },
                    _ => {},
                }
            }
        }
    }
}

/// The diagnostics lie on lines one after the other, each on a line that
/// is `NoOp` in the program.
pub open spec fn by_line(p: ProgramText) -> bool {
    &&& forall|i: int, j: int|
        0 <= i < j < p.errors.len() ==> (#[trigger] p.errors[i]).ad.line < (
        #[trigger] p.errors[j]).ad.line
    &&& forall|i: int|
        0 <= i < p.errors.len() ==> (#[trigger] p.errors[i]).ad.line < p.lines.len()
            && p.lines[p.errors[i].ad.line as int] is NoOp
}

proof fn lemma_parse_from(s: Seq<u8>, t: Seq<Advance>, i: int, acc: ProgramText)
    requires
        records_ok(s, t),
        0 <= i < t.len(),
        starts_line(t, i),
        acc.lines.len() == t[i].line,
        by_line(acc),
    ensures
        by_line(parse_from(s, t, i, acc)),
    decreases t.len() - i,
{
    let j = skip_ws(t, i);
    lemma_skip_ws(t, i);
    lemma_line_stop(t, i);
    lemma_line_stop(t, j);
    let stop = line_stop(t, j);
    lemma_in_line(s, t, i, j);
    lemma_in_line(s, t, i, stop);
    if !(t[j].lex is Eof) {
        let next = after(t, stop);
        let r = settle(acc.lines, t[j], line_at(s, t, j));
        let acc2 = add_line(acc, r);
        lemma_error_line(s, t, j);
        assert(by_line(acc2)) by {
            assert forall|a: int| 0 <= a < acc2.errors.len() implies (#[trigger] acc2.errors[a]).ad.line
                < acc2.lines.len() && acc2.lines[acc2.errors[a].ad.line as int] is NoOp by {
                if a < acc.errors.len() {
                    assert(acc2.errors[a] == acc.errors[a]);
                }
            }
            assert forall|a: int, b: int| 0 <= a < b < acc2.errors.len() implies (
            #[trigger] acc2.errors[a]).ad.line < (#[trigger] acc2.errors[b]).ad.line by {
                assert(acc2.errors[a] == acc.errors[a]);
                if b < acc.errors.len() {
                    assert(acc2.errors[b] == acc.errors[b]);
                }
            }
        }
        if t[stop].lex is Eol {
            assert(follows(t[stop], t[stop + 1]));
            lemma_parse_from(s, t, next, acc2);
            assert(parse_from(s, t, i, acc) == parse_from(s, t, next, acc2));
        } else {
            assert(stop == t.len() - 1);
            assert(parse_from(s, t, next, acc2) == acc2);
            assert(parse_from(s, t, i, acc) == acc2);
        }
    } else {
        assert(parse_from(s, t, i, acc) == acc);
    }
}

/// Recovery by line. The diagnostics of a text lie on different lines, in
/// the order of the text, and each line on which one lies is `NoOp` in the
/// program.
pub proof fn lemma_recovery_by_line(s: Seq<u8>)
    requires
        s.len() <= u32::MAX,
    ensures
        by_line(parse_text(s)),
{
    lemma_records_ok(s);
    lemma_line_bookkeeping(s);
    let empty = ProgramText { lines: Seq::empty(), errors: Seq::empty() };
    lemma_parse_from(s, tokens(s), 0, empty);
}

} // verus!
