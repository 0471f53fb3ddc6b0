//! Lexing is local: what is read from some offset on depends on the bytes
//! from that offset on, and on nothing before it.

use vstd::prelude::*;

use crate::atoms::{atom_of, in_text, sig_from, Atom};
use crate::lexeme::{Advance, Lexeme};
use crate::scan::{
    in_class, is_escape_at, is_other_at, lemma_scan_bounds, lemma_str_end_bounds, other_end,
    run_end, scan_end, scan_kind, str_closed, str_end, ws_end, ws_len, ByteClass,
};
use crate::tokens::{is_token_of, lemma_tokens_from, token_at, tokens, tokens_from};

verus! {

/// The atom of the token that starts at `pos`, on line `line`.
pub open spec fn scan_atom(s: Seq<u8>, pos: int, line: int) -> Atom {
    Atom {
        lex: if scan_kind(s, pos) is Eol {
            Lexeme::Eol(false)
        } else {
            scan_kind(s, pos)
        },
        text: if scan_kind(s, pos) is Eol {
            Seq::empty()
        } else {
            s.subrange(pos, scan_end(s, pos))
        },
        closed: scan_kind(s, pos) is Str && str_closed(s, pos + 1),
        line: line as u32,
    }
}

pub open spec fn eof_atom(line: int) -> Atom {
    Atom { lex: Lexeme::Eof, text: Seq::empty(), closed: false, line: line as u32 }
}

/// The line after the token that starts at `pos` on line `line`.
pub open spec fn next_line(s: Seq<u8>, pos: int, line: int) -> int {
    if scan_kind(s, pos) is Eol {
        line + 1
    } else {
        line
    }
}

/// The atoms of the text from offset `pos` on, which lies on line `line`.
pub open spec fn atoms_from(s: Seq<u8>, pos: int, line: int) -> Seq<Atom>
    decreases s.len() - pos,
{
    if pos < 0 || pos >= s.len() {
        seq![eof_atom(line)]
    } else if scan_end(s, pos) <= pos || scan_end(s, pos) > s.len() {
        Seq::empty()
    } else if scan_kind(s, pos) is Whitespace {
        atoms_from(s, scan_end(s, pos), line)
    } else {
        seq![scan_atom(s, pos, line)] + atoms_from(s, scan_end(s, pos), next_line(s, pos, line))
    }
}

proof fn lemma_sig_shift(s: Seq<u8>, a: Seq<Advance>, b: Seq<Advance>, i: int)
    requires
        0 <= i <= b.len(),
    ensures
        sig_from(s, a + b, a.len() + i) == sig_from(s, b, i),
    decreases b.len() - i,
{
    let t = a + b;
    if i < b.len() {
        assert(t[a.len() + i] == b[i]);
        lemma_sig_shift(s, a, b, i + 1);
    }
}

proof fn lemma_sig_tokens(s: Seq<u8>, pos: int, line: int, offset: int)
    requires
        s.len() <= u32::MAX,
        0 <= line <= offset <= pos <= s.len(),
    ensures
        sig_from(s, tokens_from(s, pos, line, offset), 0) == atoms_from(s, pos, line),
    decreases s.len() - pos,
{
    let t = tokens_from(s, pos, line, offset);
    if pos < s.len() {
        lemma_scan_bounds(s, pos);
        let end = scan_end(s, pos);
        let tok = token_at(s, pos, line, offset);
        let rest = if scan_kind(s, pos) is Eol {
            tokens_from(s, end, line + 1, end)
        } else {
            tokens_from(s, end, line, offset)
        };
        if scan_kind(s, pos) is Eol {
            lemma_sig_tokens(s, end, line + 1, end);
        } else {
            lemma_sig_tokens(s, end, line, offset);
        }
        assert(t == seq![tok] + rest);
        lemma_sig_shift(s, seq![tok], rest, 0);
        assert(t[0] == tok);
        assert(atom_of(s, tok) == scan_atom(s, pos, line));
    } else {
        assert(sig_from(s, t, 1) =~= Seq::<Atom>::empty());
        assert(sig_from(s, t, 0) =~= seq![eof_atom(line)]);
    }
}

/// The atoms of the records of a text are the atoms of the text, and the
/// records lie in the text.
pub proof fn lemma_sig_atoms(s: Seq<u8>)
    requires
        s.len() <= u32::MAX,
    ensures
        sig_from(s, tokens(s), 0) == atoms_from(s, 0, 0),
        in_text(s, tokens(s)),
{
    lemma_sig_tokens(s, 0, 0, 0);
    lemma_tokens_from(s, 0, 0, 0);
    let t = tokens(s);
    assert forall|k: int| 0 <= k < t.len() implies (#[trigger] t[k]).span.from <= t[k].span.to
        <= s.len() && (t[k].lex is Str && str_closed(s, t[k].span.from + 1) ==> t[k].span.from + 2
        <= t[k].span.to) by {
        assert(is_token_of(s, t[k]));
        if t[k].lex is Str {
            lemma_str_end_bounds(s, t[k].span.from + 1);
        }
    }
}

pub proof fn lemma_run_shift(x: Seq<u8>, y: Seq<u8>, j: int, class: ByteClass)
    requires
        0 <= j <= y.len(),
    ensures
        run_end(x + y, x.len() + j, class) == x.len() + run_end(y, j, class),
    decreases y.len() - j,
{
    if j < y.len() {
        assert((x + y)[x.len() + j] == y[j]);
        if in_class(class, y[j]) {
            lemma_run_shift(x, y, j + 1, class);
        }
    }
}

pub proof fn lemma_ws_len_shift(x: Seq<u8>, y: Seq<u8>, j: int)
    requires
        0 <= j,
    ensures
        ws_len(x + y, x.len() + j) == ws_len(y, j),
{
    let s = x + y;
    let i = x.len() + j;
    if j < y.len() {
        assert(s[i] == y[j]);
        if j + 1 < y.len() {
            assert(s[i + 1] == y[j + 1]);
        }
        if j + 2 < y.len() {
            assert(s[i + 2] == y[j + 2]);
        }
    }
}

pub proof fn lemma_ws_end_shift(x: Seq<u8>, y: Seq<u8>, j: int)
    requires
        0 <= j <= y.len(),
    ensures
        ws_end(x + y, x.len() + j) == x.len() + ws_end(y, j),
    decreases y.len() - j,
{
    lemma_ws_len_shift(x, y, j);
    if ws_len(y, j) > 0 {
        lemma_ws_end_shift(x, y, j + ws_len(y, j));
    }
}

pub proof fn lemma_other_shift(x: Seq<u8>, y: Seq<u8>, j: int)
    requires
        0 <= j <= y.len(),
    ensures
        other_end(x + y, x.len() + j) == x.len() + other_end(y, j),
    decreases y.len() - j,
{
    lemma_ws_len_shift(x, y, j);
    if j < y.len() {
        assert((x + y)[x.len() + j] == y[j]);
        if is_other_at(y, j) {
            lemma_other_shift(x, y, j + 1);
        }
    }
}

pub proof fn lemma_str_shift(x: Seq<u8>, y: Seq<u8>, j: int)
    requires
        0 <= j <= y.len(),
    ensures
        str_end(x + y, x.len() + j) == x.len() + str_end(y, j),
        str_closed(x + y, x.len() + j) == str_closed(y, j),
    decreases y.len() - j,
{
    let s = x + y;
    if j < y.len() {
        assert(s[x.len() + j] == y[j]);
        if j + 1 < y.len() {
            assert(s[x.len() + j + 1] == y[j + 1]);
        }
        if y[j] == crate::scan::QUOTE {
        } else if is_escape_at(y, j) {
            lemma_str_shift(x, y, j + 2);
        } else {
            lemma_str_shift(x, y, j + 1);
        }
    }
}

/// The token at an offset of the second part of a text is the token at
/// that offset of the part alone.
pub proof fn lemma_scan_shift(x: Seq<u8>, y: Seq<u8>, j: int)
    requires
        0 <= j < y.len(),
    ensures
        scan_kind(x + y, x.len() + j) == scan_kind(y, j),
        scan_end(x + y, x.len() + j) == x.len() + scan_end(y, j),
        forall|line: int| #[trigger] scan_atom(x + y, x.len() + j, line) == scan_atom(y, j, line),
{
    let s = x + y;
    let i = x.len() + j;
    assert(s[i] == y[j]);
    if j + 1 < y.len() {
        assert(s[i + 1] == y[j + 1]);
    }
    lemma_ws_len_shift(x, y, j);
    lemma_ws_end_shift(x, y, j);
    lemma_run_shift(x, y, j + 1, ByteClass::NotNewline);
    lemma_run_shift(x, y, j + 1, ByteClass::IdContinue);
    lemma_run_shift(x, y, j + 1, ByteClass::Decimal);
    if j + 2 <= y.len() {
        lemma_run_shift(x, y, j + 2, ByteClass::Binary);
        lemma_run_shift(x, y, j + 2, ByteClass::Octal);
        lemma_run_shift(x, y, j + 2, ByteClass::Hex);
    }
    lemma_str_shift(x, y, j + 1);
    lemma_other_shift(x, y, j + 1);
    lemma_scan_bounds(y, j);
    assert(s.subrange(i, x.len() + scan_end(y, j)) =~= y.subrange(j, scan_end(y, j)));
}

/// The atoms of the second part of a text are the atoms of the part
/// alone.
pub proof fn lemma_atoms_shift(x: Seq<u8>, y: Seq<u8>, j: int, line: int)
    requires
        0 <= j <= y.len(),
    ensures
        atoms_from(x + y, x.len() + j, line) == atoms_from(y, j, line),
    decreases y.len() - j,
{
    if j < y.len() {
        lemma_scan_shift(x, y, j);
        lemma_scan_bounds(y, j);
        lemma_atoms_shift(x, y, scan_end(y, j), line);
        lemma_atoms_shift(x, y, scan_end(y, j), line + 1);
        assert(scan_atom(x + y, x.len() + j, line) == scan_atom(y, j, line));
    }
}

} // verus!
