//! What the parser reads of a text: its tokens other than whitespace, each
//! by its kind and its bytes. Two texts with the same such tokens have the
//! same program.

use vstd::prelude::*;

use crate::grammar::{
    add_line, after, closed, deref_at, end_at, lemma_line_stop, lemma_skip_ws, line_at, line_stop,
    named_at, parse_from, rest_at, settle, skip_ws, statement_at, value_at, values_at, ErrorText,
    Parsed, ProgramText,
};
use crate::ir::{LineText, ValueText};
use crate::lexeme::{Advance, Lexeme};
use crate::scan::str_closed;

verus! {

/// A token as the parser reads it: its kind, with the comment of a line end
/// left out, its bytes, for a string whether it is closed, and its line.
pub struct Atom {
    pub lex: Lexeme,
    pub text: Seq<u8>,
    pub closed: bool,
    pub line: u32,
}

pub open spec fn atom_of(s: Seq<u8>, ad: Advance) -> Atom {
    Atom {
        lex: if ad.lex is Eol {
            Lexeme::Eol(false)
        } else {
            ad.lex
        },
        text: if ad.lex.ends_line() {
            Seq::empty()
        } else {
            ad.span.of(s)
        },
        closed: ad.lex is Str && str_closed(s, ad.span.from + 1),
        line: ad.line,
    }
}

/// The atoms of the records from index `i` on.
pub open spec fn sig_from(s: Seq<u8>, t: Seq<Advance>, i: int) -> Seq<Atom>
    decreases t.len() - i,
{
    if i < 0 || i >= t.len() {
        Seq::empty()
    } else if t[i].lex is Whitespace {
        sig_from(s, t, i + 1)
    } else {
        seq![atom_of(s, t[i])] + sig_from(s, t, i + 1)
    }
}

/// The records lie in the text, and a string is at least its quote.
pub open spec fn in_text(s: Seq<u8>, t: Seq<Advance>) -> bool {
    &&& closed(t)
    &&& forall|k: int|
        0 <= k < t.len() ==> (#[trigger] t[k]).span.from <= t[k].span.to <= s.len() && (t[k].lex is Str
            && str_closed(s, t[k].span.from + 1) ==> t[k].span.from + 2 <= t[k].span.to)
}

/// From `i` and from `j` on the two texts read the same.
pub open spec fn sim(s: Seq<u8>, t: Seq<Advance>, i: int, z: Seq<u8>, u: Seq<Advance>, j: int) -> bool {
    &&& in_text(s, t)
    &&& in_text(z, u)
    &&& 0 <= i < t.len()
    &&& 0 <= j < u.len()
    &&& sig_from(s, t, i) == sig_from(z, u, j)
}

proof fn lemma_sig_skip(s: Seq<u8>, t: Seq<Advance>, i: int)
    requires
        closed(t),
        0 <= i < t.len(),
    ensures
        sig_from(s, t, i) == sig_from(s, t, skip_ws(t, i)),
        sig_from(s, t, i) == seq![atom_of(s, t[skip_ws(t, i)])] + sig_from(s, t, skip_ws(t, i) + 1),
    decreases t.len() - i,
{
    lemma_skip_ws(t, i);
    if i + 1 < t.len() && t[i].lex is Whitespace {
        lemma_sig_skip(s, t, i + 1);
    }
}

/// Where two texts read the same, their next tokens are the same, and
/// they read the same after them.
proof fn lemma_head(s: Seq<u8>, t: Seq<Advance>, i: int, z: Seq<u8>, u: Seq<Advance>, j: int)
    requires
        sim(s, t, i, z, u, j),
    ensures
        ({
            let a = skip_ws(t, i);
            let b = skip_ws(u, j);
            &&& i <= a < t.len()
            &&& j <= b < u.len()
            &&& atom_of(s, t[a]) == atom_of(z, u[b])
            &&& t[a].line == u[b].line
            &&& !(t[a].lex is Whitespace)
            &&& !(u[b].lex is Whitespace)
            &&& t[a].lex.ends_line() == u[b].lex.ends_line()
            &&& t[a].lex is Eof == u[b].lex is Eof
            &&& !(t[a].lex is Eol) ==> t[a].lex == u[b].lex
            &&& sim(s, t, after(t, a), z, u, after(u, b))
            &&& !(t[a].lex is Eof) ==> sim(s, t, a + 1, z, u, b + 1)
            &&& sim(s, t, a, z, u, b)
        }),
{
    let a = skip_ws(t, i);
    let b = skip_ws(u, j);
    lemma_sig_skip(s, t, i);
    lemma_sig_skip(z, u, j);
    lemma_skip_ws(t, i);
    lemma_skip_ws(u, j);
    let x = seq![atom_of(s, t[a])] + sig_from(s, t, a + 1);
    let y = seq![atom_of(z, u[b])] + sig_from(z, u, b + 1);
    assert(x[0] == y[0]);
    assert(sig_from(s, t, a + 1) =~= x.subrange(1, x.len() as int));
    assert(sig_from(z, u, b + 1) =~= y.subrange(1, y.len() as int));
    assert(skip_ws(t, a) == a);
    assert(skip_ws(u, b) == b);
    lemma_sig_skip(s, t, a);
    lemma_sig_skip(z, u, b);
}

/// Two results agree: both fail, on the same line, or both give the
/// same, and the texts read the same from then on.
pub open spec fn agree<T>(
    s: Seq<u8>,
    t: Seq<Advance>,
    r: Parsed<T>,
    z: Seq<u8>,
    u: Seq<Advance>,
    q: Parsed<T>,
) -> bool {
    match (r, q) {
        (Parsed::Done(v, k), Parsed::Done(w, l)) => v == w && sim(s, t, k, z, u, l),
        (Parsed::Fail(e), Parsed::Fail(f)) => e.ad.line == f.ad.line,
        _ => false,
    }
}

proof fn lemma_deref(s: Seq<u8>, t: Seq<Advance>, i: int, z: Seq<u8>, u: Seq<Advance>, j: int)
    requires
        sim(s, t, i, z, u, j),
    ensures
        agree(s, t, deref_at(s, t, i), z, u, deref_at(z, u, j)),
{
    lemma_head(s, t, i, z, u, j);
    let a = skip_ws(t, i);
    let b = skip_ws(u, j);
    if t[a].lex is Ident {
        lemma_head(s, t, a + 1, z, u, b + 1);
    }
}

proof fn lemma_value(s: Seq<u8>, t: Seq<Advance>, i: int, z: Seq<u8>, u: Seq<Advance>, j: int)
    requires
        sim(s, t, i, z, u, j),
    ensures
        agree(s, t, value_at(s, t, i), z, u, value_at(z, u, j)),
{
    lemma_head(s, t, i, z, u, j);
    let a = skip_ws(t, i);
    let b = skip_ws(u, j);
    match t[a].lex {
        Lexeme::OpenBracket => {
            lemma_deref(s, t, a + 1, z, u, b + 1);
        },
        Lexeme::Str => {
            if str_closed(s, t[a].span.from + 1) {
                let x = t[a].span.of(s);
                let y = u[b].span.of(z);
                assert(s.subrange(t[a].span.from + 1, t[a].span.to - 1) =~= x.subrange(
                    1,
                    x.len() - 1,
                ));
                assert(z.subrange(u[b].span.from + 1, u[b].span.to - 1) =~= y.subrange(
                    1,
                    y.len() - 1,
                ));
            }
        },
        _ => {},
    }
}

proof fn lemma_values(
    s: Seq<u8>,
    t: Seq<Advance>,
    i: int,
    z: Seq<u8>,
    u: Seq<Advance>,
    j: int,
    acc: Seq<ValueText>,
)
    requires
        sim(s, t, i, z, u, j),
    ensures
        agree(s, t, values_at(s, t, i, acc), z, u, values_at(z, u, j, acc)),
    decreases t.len() - i,
{
    lemma_head(s, t, i, z, u, j);
    let a = skip_ws(t, i);
    let b = skip_ws(u, j);
    if t[a].lex is Comma {
        lemma_value(s, t, a + 1, z, u, b + 1);
        match (value_at(s, t, a + 1), value_at(z, u, b + 1)) {
            (Parsed::Done(Some(v), k), Parsed::Done(Some(w), l)) => {
                lemma_value_moves(s, t, a + 1);
                lemma_value_moves(z, u, b + 1);
                lemma_values(s, t, k, z, u, l, acc.push(v));
            },
            _ => {},
        }
    }
}

/// A value that is parsed ends after where it was looked for.
proof fn lemma_value_moves(s: Seq<u8>, t: Seq<Advance>, i: int)
    requires
        closed(t),
        0 <= i < t.len(),
    ensures
        value_at(s, t, i) matches Parsed::Done(Some(_), k) ==> i < k <= t.len(),
{
    lemma_skip_ws(t, i);
    let a = skip_ws(t, i);
    if a + 1 < t.len() {
        lemma_skip_ws(t, a + 1);
        let b = skip_ws(t, a + 1);
        if b + 1 < t.len() {
            lemma_skip_ws(t, b + 1);
        }
    }
}

proof fn lemma_end(s: Seq<u8>, t: Seq<Advance>, i: int, z: Seq<u8>, u: Seq<Advance>, j: int)
    requires
        sim(s, t, i, z, u, j),
    ensures
        match (end_at(t, i), end_at(u, j)) {
            (None, None) => true,
            (Some(e), Some(f)) => e.ad.line == f.ad.line,
            _ => false,
        },
{
    lemma_head(s, t, i, z, u, j);
}

/// Two lines agree: both fail, on the same line, or both are the same
/// line.
pub open spec fn same_line(r: Result<LineText, ErrorText>, q: Result<LineText, ErrorText>) -> bool {
    match (r, q) {
        (Ok(a), Ok(b)) => a == b,
        (Err(e), Err(f)) => e.ad.line == f.ad.line,
        _ => false,
    }
}

proof fn lemma_named(s: Seq<u8>, t: Seq<Advance>, i: int, z: Seq<u8>, u: Seq<Advance>, j: int)
    requires
        sim(s, t, i, z, u, j),
    ensures
        match (named_at(s, t, i), named_at(z, u, j)) {
            (Ok(a), Ok(b)) => a == b,
            (Err(e), Err(f)) => e.ad.line == f.ad.line,
            _ => false,
        },
{
    lemma_head(s, t, i, z, u, j);
    let a = skip_ws(t, i);
    let b = skip_ws(u, j);
    if t[a].lex is Ident {
        lemma_end(s, t, a + 1, z, u, b + 1);
    }
}

proof fn lemma_rest(
    s: Seq<u8>,
    t: Seq<Advance>,
    k: int,
    z: Seq<u8>,
    u: Seq<Advance>,
    l: int,
    first: Seq<u8>,
    v: ValueText,
)
    requires
        sim(s, t, k, z, u, l),
    ensures
        same_line(rest_at(s, t, first, v, k), rest_at(z, u, first, v, l)),
{
    lemma_head(s, t, k, z, u, l);
    lemma_value(s, t, k, z, u, l);
    lemma_values(s, t, k, z, u, l, seq![v]);
    match (value_at(s, t, k), value_at(z, u, l)) {
        (Parsed::Done(Some(w), m), Parsed::Done(Some(x), n)) => {
            lemma_values(s, t, m, z, u, n, seq![w]);
        },
        _ => {},
    }
}

proof fn lemma_statement(s: Seq<u8>, t: Seq<Advance>, i: int, z: Seq<u8>, u: Seq<Advance>, j: int)
    requires
        sim(s, t, i, z, u, j),
        t[i].lex is Ident,
        u[j].lex is Ident,
    ensures
        same_line(statement_at(s, t, i), statement_at(z, u, j)),
{
    lemma_head(s, t, i, z, u, j);
    assert(skip_ws(t, i) == i);
    assert(skip_ws(u, j) == j);
    lemma_head(s, t, i + 1, z, u, j + 1);
    let a = skip_ws(t, i + 1);
    let b = skip_ws(u, j + 1);
    if t[a].lex is Colon {
        lemma_end(s, t, a + 1, z, u, b + 1);
    } else {
        lemma_value(s, t, i + 1, z, u, j + 1);
        match (value_at(s, t, i + 1), value_at(z, u, j + 1)) {
            (Parsed::Done(Some(v), k), Parsed::Done(Some(w), l)) => {
                lemma_rest(s, t, k, z, u, l, t[i].span.of(s), v);
            },
            _ => {},
        }
    }
}

/// Lines that read the same parse the same.
proof fn lemma_line(s: Seq<u8>, t: Seq<Advance>, i: int, z: Seq<u8>, u: Seq<Advance>, j: int)
    requires
        sim(s, t, i, z, u, j),
        !(t[i].lex is Whitespace),
        !(u[j].lex is Whitespace),
        !(t[i].lex is Eof),
    ensures
        same_line(line_at(s, t, i), line_at(z, u, j)),
{
    lemma_head(s, t, i, z, u, j);
    assert(skip_ws(t, i) == i);
    assert(skip_ws(u, j) == j);
    if t[i].lex is Ident {
        lemma_named(s, t, i + 1, z, u, j + 1);
        lemma_statement(s, t, i, z, u, j);
    }
}

/// Lines that read the same end together.
proof fn lemma_stop(s: Seq<u8>, t: Seq<Advance>, i: int, z: Seq<u8>, u: Seq<Advance>, j: int)
    requires
        sim(s, t, i, z, u, j),
    ensures
        sim(s, t, after(t, line_stop(t, i)), z, u, after(u, line_stop(u, j))),
        t[line_stop(t, i)].lex is Eof == u[line_stop(u, j)].lex is Eof,
    decreases t.len() - i + u.len() - j,
{
    lemma_line_stop(t, i);
    lemma_line_stop(u, j);
    if t[i].lex is Whitespace {
        lemma_sig_skip(s, t, i);
        assert(sig_from(s, t, i + 1) == sig_from(s, t, i));
        lemma_line_stop(t, i + 1);
        lemma_stop(s, t, i + 1, z, u, j);
    } else if u[j].lex is Whitespace {
        assert(sig_from(z, u, j + 1) == sig_from(z, u, j));
        lemma_line_stop(u, j + 1);
        lemma_stop(s, t, i, z, u, j + 1);
    } else {
        lemma_head(s, t, i, z, u, j);
        assert(skip_ws(t, i) == i);
        assert(skip_ws(u, j) == j);
        if !t[i].lex.ends_line() {
            lemma_line_stop(t, i + 1);
            lemma_line_stop(u, j + 1);
            lemma_stop(s, t, i + 1, z, u, j + 1);
        }
    }
}

/// The lines on which the diagnostics lie, in order.
pub open spec fn lines_of(errors: Seq<ErrorText>) -> Seq<u32> {
    Seq::new(errors.len(), |i: int| errors[i].ad.line)
}

/// Texts that read the same from some lines on add the same lines to a
/// program, and diagnostics on the same lines.
proof fn lemma_parse_from(
    s: Seq<u8>,
    t: Seq<Advance>,
    i: int,
    acc: ProgramText,
    z: Seq<u8>,
    u: Seq<Advance>,
    j: int,
    bcc: ProgramText,
)
    requires
        sim(s, t, i, z, u, j),
        acc.lines == bcc.lines,
        lines_of(acc.errors) == lines_of(bcc.errors),
    ensures
        parse_from(s, t, i, acc).lines == parse_from(z, u, j, bcc).lines,
        lines_of(parse_from(s, t, i, acc).errors) == lines_of(parse_from(z, u, j, bcc).errors),
    decreases t.len() - i,
{
    lemma_head(s, t, i, z, u, j);
    let a = skip_ws(t, i);
    let b = skip_ws(u, j);
    if !(t[a].lex is Eof) {
        lemma_line(s, t, a, z, u, b);
        lemma_stop(s, t, a, z, u, b);
        lemma_line_stop(t, a);
        lemma_line_stop(u, b);
        let next = after(t, line_stop(t, a));
        let mext = after(u, line_stop(u, b));
        let acc2 = add_line(acc, settle(acc.lines, t[a], line_at(s, t, a)));
        let bcc2 = add_line(bcc, settle(bcc.lines, u[b], line_at(z, u, b)));
        let r = settle(acc.lines, t[a], line_at(s, t, a));
        let q = settle(bcc.lines, u[b], line_at(z, u, b));
        assert(same_line(line_at(s, t, a), line_at(z, u, b)));
        assert(t[a].line == u[b].line);
        assert(r.0 == q.0);
        assert(match (r.1, q.1) {
            (Some(e), Some(f)) => e.ad.line == f.ad.line,
            (None, None) => true,
            _ => false,
        });
        assert(acc2.lines == bcc2.lines);
        let n = acc.errors.len() as int;
        assert(lines_of(acc.errors).len() == n);
        assert(lines_of(bcc.errors).len() == bcc.errors.len());
        assert(bcc.errors.len() == n);
        assert forall|k: int| 0 <= k < n implies acc.errors[k].ad.line == bcc.errors[k].ad.line by {
            assert(lines_of(acc.errors)[k] == acc.errors[k].ad.line);
            assert(lines_of(bcc.errors)[k] == bcc.errors[k].ad.line);
        }
        match (r.1, q.1) {
            (Some(e), Some(f)) => {
                assert(acc2.errors == acc.errors.push(e));
                assert(bcc2.errors == bcc.errors.push(f));
            },
            _ => {
                assert(acc2.errors == acc.errors);
                assert(bcc2.errors == bcc.errors);
            },
        }
        assert(lines_of(acc2.errors) =~= lines_of(bcc2.errors));
        assert(i < next <= t.len());
        assert(j < mext <= u.len());
        lemma_parse_from(s, t, next, acc2, z, u, mext, bcc2);
    }
}

/// Two texts whose records read the same have the same program, and
/// diagnostics on the same lines.
pub proof fn lemma_same_program(s: Seq<u8>, t: Seq<Advance>, z: Seq<u8>, u: Seq<Advance>)
    requires
        sim(s, t, 0, z, u, 0),
    ensures
        ({
            let empty = ProgramText { lines: Seq::empty(), errors: Seq::empty() };
            &&& parse_from(s, t, 0, empty).lines == parse_from(z, u, 0, empty).lines
            &&& lines_of(parse_from(s, t, 0, empty).errors) == lines_of(
                parse_from(z, u, 0, empty).errors,
            )
        }),
{
    let empty = ProgramText { lines: Seq::empty(), errors: Seq::empty() };
    lemma_parse_from(s, t, 0, empty, z, u, 0, empty);
}

} // verus!
