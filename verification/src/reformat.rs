//! The formatted text read again: it has the tokens of the text it was
//! made from, but for whitespace and the bodies of comments. So formatting
//! keeps the program.

use vstd::prelude::*;
use vstd::utf8::{
    encode_utf8, is_char_boundary, is_char_boundary_iff_not_is_continuation_byte, valid_utf8,
};

use crate::atoms::{lemma_same_program, lines_of};
use crate::grammar::parse_text;
use crate::layout::{
    body_end, edits_of, formatted, parsed_error_lines, parsed_kinds, spaces, splice, splice_from,
    EditText, LineKind,
};
use crate::lexeme::{Advance, Lexeme};
use crate::minimal::{
    apart, effective, lemma_edits_effective, lemma_record, lemma_space_bytes, lemma_wide_char,
    lemma_ws_stops,
};
use crate::order::{lemma_edits_in_order, lemma_records_ok, on_boundaries, records_ok};
use crate::rescan::{
    agree, ends_itself, hard_stop, lemma_rescan_open, lemma_rescan_other, lemma_rescan_self,
    lemma_rescan_word, lemma_rescan_ws, lemma_scan_comment, lemma_scan_spaces, same_next,
};
use crate::scan::{
    is_other_at, lemma_other_end_bounds, lemma_run_end_bounds, lemma_scan_bounds,
    lemma_str_end_bounds, lemma_ws_end_bounds, number_base, other_end, scan_end, scan_kind, ws_len,
    ByteClass, NEWLINE, OPEN_BRACKET, SEMICOLON, SPACE,
};
use crate::shift::{
    atoms_from, lemma_atoms_shift, lemma_scan_shift, lemma_sig_atoms, lemma_ws_len_shift,
    next_line, scan_atom,
};
use crate::sites::{all_placed, inside, lemma_edits_placed, placed_at};
use crate::tokens::{follows, is_token_of, tokens};

verus! {

/// What is known of a text, its records and its edits.
pub open spec fn laid_out(s: Seq<u8>, t: Seq<Advance>, edits: Seq<EditText>) -> bool {
    &&& records_ok(s, t)
    &&& valid_utf8(s)
    &&& apart(edits, 0, 2 * (s.len() as int), s)
    &&& on_boundaries(edits, s)
    &&& all_placed(s, t, edits)
}

/// The offset before which the text is kept from `p` on: where the `k`-th
/// edit starts, or the end.
pub open spec fn next_edit(s: Seq<u8>, edits: Seq<EditText>, k: int) -> int {
    if 0 <= k < edits.len() {
        edits[k].span.from as int
    } else {
        s.len() as int
    }
}

/// The spliced text keeps the text up to the next edit.
pub proof fn lemma_split(s: Seq<u8>, edits: Seq<EditText>, k: int, p: int, q: int)
    requires
        0 <= k <= edits.len(),
        0 <= p <= q <= next_edit(s, edits, k) <= s.len(),
    ensures
        splice_from(s, edits, k, p) == s.subrange(p, q) + splice_from(s, edits, k, q),
        splice_from(s, edits, k, q).len() >= next_edit(s, edits, k) - q,
        forall|j: int|
            0 <= j < next_edit(s, edits, k) - q ==> (#[trigger] splice_from(s, edits, k, q)[j])
                == s[q + j],
{
    let stop = next_edit(s, edits, k);
    assert(s.subrange(p, stop) =~= s.subrange(p, q) + s.subrange(q, stop));
    if k < edits.len() {
        let rest = encode_utf8(edits[k].text) + splice_from(
            s,
            edits,
            k + 1,
            edits[k].span.to as int,
        );
        assert(splice_from(s, edits, k, p) =~= s.subrange(p, q) + (s.subrange(q, stop) + rest));
        assert(splice_from(s, edits, k, q) =~= s.subrange(q, stop) + rest);
    }
}

/// The spliced text at an edit is its spaces and what follows it.
pub proof fn lemma_at_edit(s: Seq<u8>, edits: Seq<EditText>, k: int)
    requires
        0 <= k < edits.len(),
        effective(s, edits[k]),
    ensures
        ({
            let x = splice_from(s, edits, k, edits[k].span.from as int);
            let rest = splice_from(s, edits, k + 1, edits[k].span.to as int);
            let m = edits[k].text.len() as int;
            &&& x == encode_utf8(edits[k].text) + rest
            &&& encode_utf8(edits[k].text).len() == m
            &&& x.len() == m + rest.len()
            &&& forall|j: int| 0 <= j < m ==> (#[trigger] x[j]) == SPACE
        }),
{
    let e = edits[k];
    let from = e.span.from as int;
    lemma_space_bytes(e.text.len());
    assert(s.subrange(from, from) =~= Seq::<u8>::empty());
    let x = splice_from(s, edits, k, from);
    let rest = splice_from(s, edits, k + 1, e.span.to as int);
    assert(x =~= encode_utf8(e.text) + rest);
}

/// The bytes of the text from `p` on, as a text of their own.
pub open spec fn suffix(s: Seq<u8>, p: int) -> Seq<u8> {
    s.subrange(p, s.len() as int)
}

/// The suffix of a text at a token reads as the text does there.
proof fn lemma_suffix(s: Seq<u8>, p: int)
    requires
        valid_utf8(s),
        0 <= p < s.len(),
        is_char_boundary(s, p),
    ensures
        valid_utf8(suffix(s, p)),
        scan_kind(suffix(s, p), 0) == scan_kind(s, p),
        scan_end(suffix(s, p), 0) == scan_end(s, p) - p,
        forall|line: int| #[trigger] scan_atom(suffix(s, p), 0, line) == scan_atom(s, p, line),
        forall|j: int| 0 <= j ==> #[trigger] ws_len(suffix(s, p), j) == ws_len(s, p + j),
{
    let x = s.subrange(0, p);
    let y = suffix(s, p);
    assert(x + y =~= s);
    vstd::utf8::valid_utf8_split(s, p);
    lemma_scan_shift(x, y, 0);
    assert forall|line: int| #[trigger] scan_atom(y, 0, line) == scan_atom(s, p, line) by {
        assert(scan_atom(x + y, x.len() as int + 0, line) == scan_atom(y, 0, line));
    }
    assert forall|j: int| 0 <= j implies #[trigger] ws_len(y, j) == ws_len(s, p + j) by {
        lemma_ws_len_shift(x, y, j);
    }
}

/// A boundary of the text is one of its suffix.
pub proof fn lemma_suffix_boundary(s: Seq<u8>, p: int, q: int)
    requires
        valid_utf8(s),
        0 <= p <= q <= s.len(),
        is_char_boundary(s, p),
        is_char_boundary(s, q),
    ensures
        is_char_boundary(suffix(s, p), q - p),
{
    let y = suffix(s, p);
    vstd::utf8::valid_utf8_split(s, p);
    if q == p {
    } else if q == s.len() {
        vstd::utf8::is_char_boundary_start_end_of_seq(y);
    } else {
        is_char_boundary_iff_not_is_continuation_byte(s, q);
        is_char_boundary_iff_not_is_continuation_byte(y, q - p);
    }
}

/// What follows a place where the text reads no whitespace, and where no
/// edit stands, starts with no whitespace in the spliced text either.
proof fn lemma_head_not_ws(s: Seq<u8>, edits: Seq<EditText>, k: int, q: int)
    requires
        valid_utf8(s),
        0 <= q <= s.len(),
        is_char_boundary(s, q),
        ws_len(s, q) == 0,
        0 <= k <= edits.len(),
        k < edits.len() ==> q < edits[k].span.from <= s.len() && is_char_boundary(
            s,
            edits[k].span.from as int,
        ),
    ensures
        ws_len(splice_from(s, edits, k, q), 0) == 0,
{
    let x = splice_from(s, edits, k, q);
    lemma_split(s, edits, k, q, q);
    if q < s.len() {
        assert(x[0] == s[q]);
        if s[q] == 0xC2 || s[q] == 0xE2 {
            lemma_wide_char(s, q);
            assert(x[1] == s[q + 1]);
            if s[q] == 0xE2 {
                assert(x[2] == s[q + 2]);
            }
        }
    } else {
        assert(k == edits.len());
        assert(x =~= Seq::<u8>::empty());
    }
}

/// Spaces put before a text that starts with no whitespace do not change
/// its atoms.
proof fn lemma_atoms_after_spaces(x: Seq<u8>, m: int, rest: Seq<u8>, line: int)
    requires
        0 <= m,
        x.len() == m + rest.len(),
        forall|j: int| 0 <= j < m ==> (#[trigger] x[j]) == SPACE,
        x.subrange(m, x.len() as int) == rest,
        ws_len(rest, 0) == 0,
    ensures
        atoms_from(x, 0, line) == atoms_from(rest, 0, line),
{
    let sp = x.subrange(0, m);
    assert(x =~= sp + rest);
    if m > 0 {
        lemma_ws_len_shift(sp, rest, 0);
        lemma_scan_spaces(x, m);
        lemma_atoms_shift(sp, rest, 0, line);
    } else {
        assert(x =~= rest);
    }
}

/// The atoms of a text that starts with a token and goes on with `rest`.
proof fn lemma_atoms_after_token(x: Seq<u8>, n: int, rest: Seq<u8>, line: int)
    requires
        0 < n <= x.len(),
        scan_end(x, 0) == n,
        x.subrange(n, x.len() as int) == rest,
    ensures
        atoms_from(x, 0, line) == (if scan_kind(x, 0) is Whitespace {
            atoms_from(rest, 0, line)
        } else {
            seq![scan_atom(x, 0, line)] + atoms_from(rest, 0, next_line(x, 0, line))
        }),
{
    let head = x.subrange(0, n);
    assert(x =~= head + rest);
    lemma_atoms_shift(head, rest, 0, line);
    lemma_atoms_shift(head, rest, 0, line + 1);
}

/// The spliced text from inside a line on, up to the end of the line: a
/// body without a newline, the newline of the text if there is one, and
/// the spliced text from the next line on. Returns the index of the first
/// edit of the next line, and the body.
proof fn lemma_body(
    s: Seq<u8>,
    t: Seq<Advance>,
    edits: Seq<EditText>,
    k: int,
    x: int,
    nl: int,
    q: int,
) -> (r: (int, Seq<u8>))
    requires
        laid_out(s, t, edits),
        0 <= k <= edits.len(),
        0 <= x <= nl <= q <= s.len(),
        nl == q || (nl == q - 1 && s[nl] == NEWLINE),
        nl == q ==> q == s.len(),
        forall|j: int| x <= j < nl ==> s[j] != NEWLINE,
        k < edits.len() ==> x <= edits[k].span.from,
    ensures
        k <= r.0 <= edits.len(),
        r.0 < edits.len() ==> q <= edits[r.0].span.from,
        forall|j: int| 0 <= j < r.1.len() ==> (#[trigger] r.1[j]) != NEWLINE,
        splice_from(s, edits, k, x) == r.1 + s.subrange(nl, q) + splice_from(s, edits, r.0, q),
    decreases edits.len() - k,
{
    if k == edits.len() || edits[k].span.from >= q {
        lemma_split(s, edits, k, x, q);
        let body = s.subrange(x, nl);
        assert(s.subrange(x, q) =~= body + s.subrange(nl, q));
        (k, body)
    } else {
        let e = edits[k];
        let from = e.span.from as int;
        let to = e.span.to as int;
        assert(effective(s, e));
        if k + 1 < edits.len() {
            assert(edits[k].span.to < edits[k + 1].span.from);
        }
        if from < to {
            if nl < q {
                lemma_ws_stops(s, from, nl);
            }
        }
        lemma_split(s, edits, k, x, from);
        lemma_at_edit(s, edits, k);
        let (k2, rest) = lemma_body(s, t, edits, k + 1, to, nl, q);
        let body = s.subrange(x, from) + encode_utf8(e.text) + rest;
        lemma_space_bytes(e.text.len());
        let head = s.subrange(x, from);
        let mid = encode_utf8(e.text);
        assert forall|j: int| 0 <= j < body.len() implies (#[trigger] body[j]) != NEWLINE by {
            if j < head.len() {
                assert(body[j] == s[x + j]);
            } else if j < head.len() + mid.len() {
                assert(body[j] == mid[j - head.len()]);
            } else {
                assert(body[j] == rest[j - head.len() - mid.len()]);
            }
        }
        assert(splice_from(s, edits, k, x) =~= body + s.subrange(nl, q) + splice_from(
            s,
            edits,
            k2,
            q,
        ));
        (k2, body)
    }
}

/// The record at `i`, where the `k`-th edit stands at its start: spaces put
/// before it, or spaces in place of it, if it is whitespace. The spliced
/// text starts with these spaces, which are read as one whitespace token,
/// and goes on with what follows the edit.
pub proof fn lemma_step_spaces(s: Seq<u8>, t: Seq<Advance>, edits: Seq<EditText>, i: int, k: int)
    requires
        laid_out(s, t, edits),
        0 <= i < t.len(),
        0 <= k < edits.len(),
        edits[k].span.from == t[i].span.from,
        edits[k].span.to == t[i].span.from || t[i].lex is Whitespace,
    ensures
        ({
            let x = splice_from(s, edits, k, t[i].span.from as int);
            let rest = splice_from(s, edits, k + 1, edits[k].span.to as int);
            let m = edits[k].text.len() as int;
            &&& x == encode_utf8(edits[k].text) + rest
            &&& x.len() == m + rest.len()
            &&& forall|j: int| 0 <= j < m ==> (#[trigger] x[j]) == SPACE
            &&& x.subrange(m, x.len() as int) == rest
            &&& ws_len(rest, 0) == 0
            &&& m > 0 ==> scan_kind(x, 0) is Whitespace && scan_end(x, 0) == m
            &&& edits[k].span.to == t[i].span.from || edits[k].span.to == t[i].span.to
            &&& k + 1 < edits.len() ==> edits[k].span.to < edits[k + 1].span.from
        }),
{
    let p = t[i].span.from as int;
    let e = edits[k];
    let m = e.text.len() as int;
    lemma_record(s, t, i);
    assert(is_token_of(s, t[i]));
    assert(effective(s, e));
    assert(placed_at(s, t, e));
    assert(e.span.fits(s));
    lemma_scan_bounds(s, p);
    lemma_ws_end_bounds(s, p);
    if k + 1 < edits.len() {
        assert(edits[k].span.to < edits[k + 1].span.from);
        assert(edits[k + 1].span.fits(s));
        assert(effective(s, edits[k + 1]));
    }
    lemma_at_edit(s, edits, k);
    let x = splice_from(s, edits, k, p);
    let rest = splice_from(s, edits, k + 1, e.span.to as int);
    if e.span.to == p {
        lemma_head_not_ws(s, edits, k + 1, p);
    } else {
        lemma_record(s, t, i + 1);
        assert(t[i].span.fits(s));
        assert(t[i + 1].span.fits(s));
        assert(e.span.to == t[i].span.to);
        lemma_head_not_ws(s, edits, k + 1, t[i].span.to as int);
    }
    assert(x.subrange(m, x.len() as int) =~= rest);
    if m > 0 {
        lemma_scan_spaces(x, m);
    }
}

/// The whitespace at `i`, where no edit stands: the spliced text starts
/// with its bytes, read as the same token, and goes on with the spliced
/// text from its end.
pub proof fn lemma_step_ws(s: Seq<u8>, t: Seq<Advance>, edits: Seq<EditText>, i: int, k: int)
    requires
        laid_out(s, t, edits),
        0 <= i < t.len(),
        0 <= k <= edits.len(),
        t[i].lex is Whitespace,
        k < edits.len() ==> t[i].span.from < edits[k].span.from,
    ensures
        ({
            let p = t[i].span.from as int;
            let q = t[i].span.to as int;
            let x = splice_from(s, edits, k, p);
            let rest = splice_from(s, edits, k, q);
            &&& x == s.subrange(p, q) + rest
            &&& x.subrange(q - p, x.len() as int) == rest
            &&& scan_kind(x, 0) is Whitespace
            &&& scan_end(x, 0) == q - p
            &&& ws_len(rest, 0) == 0
            &&& k < edits.len() ==> q < edits[k].span.from
        }),
{
    let p = t[i].span.from as int;
    let q = t[i].span.to as int;
    lemma_record(s, t, i);
    lemma_record(s, t, i + 1);
    assert(is_token_of(s, t[i]));
    assert(t[i].span.fits(s));
    assert(t[i + 1].span.fits(s));
    lemma_scan_bounds(s, p);
    lemma_ws_end_bounds(s, p);
    let x = splice_from(s, edits, k, p);
    if k < edits.len() {
        let from = edits[k].span.from as int;
        assert(effective(s, edits[k]));
        assert(placed_at(s, t, edits[k]));
        assert(edits[k].span.fits(s));
        assert(!inside(t[i], from));
        assert(from != q) by {
            if from == q {
                if edits[k].span.to == from {
                    assert(t[i].span.to != from);
                }
            }
        }
    }
    lemma_split(s, edits, k, p, q);
    lemma_head_not_ws(s, edits, k, q);
    let rest = splice_from(s, edits, k, q);
    let a = suffix(s, p);
    lemma_suffix(s, p);
    assert(x.subrange(q - p, x.len() as int) =~= rest);
    assert(agree(a, x, q - p));
    lemma_ws_len_shift(s.subrange(p, q), rest, 0);
    lemma_rescan_ws(a, x, q - p);
}

/// The spliced text from the start of the record at `i` on, with the
/// edits from the `k`-th on, reads as the text does from there.
proof fn lemma_main(s: Seq<u8>, t: Seq<Advance>, edits: Seq<EditText>, i: int, k: int)
    requires
        laid_out(s, t, edits),
        0 <= i < t.len(),
        0 <= k <= edits.len(),
        k < edits.len() ==> t[i].span.from <= edits[k].span.from,
    ensures
        atoms_from(splice_from(s, edits, k, t[i].span.from as int), 0, t[i].line as int)
            == atoms_from(s, t[i].span.from as int, t[i].line as int),
    decreases t.len() - i, 2int,
{
    let p = t[i].span.from as int;
    lemma_record(s, t, i);
    if k < edits.len() && edits[k].span.from == p && edits[k].span.to == p {
        lemma_step_spaces(s, t, edits, i, k);
        lemma_token(s, t, edits, i, k + 1);
        let x = splice_from(s, edits, k, p);
        let rest = splice_from(s, edits, k + 1, p);
        lemma_atoms_after_spaces(x, edits[k].text.len() as int, rest, t[i].line as int);
    } else {
        lemma_token(s, t, edits, i, k);
    }
}

/// As `lemma_main`, where no spaces are put before the record.
proof fn lemma_token(s: Seq<u8>, t: Seq<Advance>, edits: Seq<EditText>, i: int, k: int)
    requires
        laid_out(s, t, edits),
        0 <= i < t.len(),
        0 <= k <= edits.len(),
        k < edits.len() ==> t[i].span.from <= edits[k].span.from && !(edits[k].span.from
            == t[i].span.from && edits[k].span.to == t[i].span.from),
    ensures
        atoms_from(splice_from(s, edits, k, t[i].span.from as int), 0, t[i].line as int)
            == atoms_from(s, t[i].span.from as int, t[i].line as int),
    decreases t.len() - i, 1int,
{
    let p = t[i].span.from as int;
    lemma_record(s, t, i);
    assert(is_token_of(s, t[i]));
    if k < edits.len() {
        assert(effective(s, edits[k]));
        assert(placed_at(s, t, edits[k]));
        assert(edits[k].span.fits(s));
    }
    if t[i].lex is Eof {
        assert(k == edits.len());
        assert(splice_from(s, edits, k, p) =~= Seq::<u8>::empty());
    } else if t[i].lex is Whitespace {
        lemma_token_ws(s, t, edits, i, k);
    } else if t[i].lex == Lexeme::Eol(true) {
        lemma_token_comment(s, t, edits, i, k);
    } else {
        lemma_token_plain(s, t, edits, i, k);
    }
}

proof fn lemma_token_ws(s: Seq<u8>, t: Seq<Advance>, edits: Seq<EditText>, i: int, k: int)
    requires
        laid_out(s, t, edits),
        0 <= i < t.len(),
        0 <= k <= edits.len(),
        t[i].lex is Whitespace,
        k < edits.len() ==> t[i].span.from <= edits[k].span.from && !(edits[k].span.from
            == t[i].span.from && edits[k].span.to == t[i].span.from),
    ensures
        atoms_from(splice_from(s, edits, k, t[i].span.from as int), 0, t[i].line as int)
            == atoms_from(s, t[i].span.from as int, t[i].line as int),
    decreases t.len() - i, 0int,
{
    let p = t[i].span.from as int;
    let q = t[i].span.to as int;
    lemma_record(s, t, i);
    assert(is_token_of(s, t[i]));
    lemma_scan_bounds(s, p);
    let x = splice_from(s, edits, k, p);
    if k < edits.len() && edits[k].span.from == p {
        lemma_step_spaces(s, t, edits, i, k);
        assert(edits[k].span.to == q);
        lemma_main(s, t, edits, i + 1, k + 1);
        let rest = splice_from(s, edits, k + 1, q);
        lemma_atoms_after_spaces(x, edits[k].text.len() as int, rest, t[i].line as int);
    } else {
        lemma_step_ws(s, t, edits, i, k);
        lemma_main(s, t, edits, i + 1, k);
        let rest = splice_from(s, edits, k, q);
        lemma_atoms_after_token(x, q - p, rest, t[i].line as int);
    }
}

proof fn lemma_token_comment(s: Seq<u8>, t: Seq<Advance>, edits: Seq<EditText>, i: int, k: int)
    requires
        laid_out(s, t, edits),
        0 <= i < t.len(),
        0 <= k <= edits.len(),
        t[i].lex == Lexeme::Eol(true),
        k < edits.len() ==> t[i].span.from <= edits[k].span.from && !(edits[k].span.from
            == t[i].span.from && edits[k].span.to == t[i].span.from),
    ensures
        atoms_from(splice_from(s, edits, k, t[i].span.from as int), 0, t[i].line as int)
            == atoms_from(s, t[i].span.from as int, t[i].line as int),
    decreases t.len() - i, 0int,
{
    let p = t[i].span.from as int;
    let q = t[i].span.to as int;
    lemma_record(s, t, i);
    assert(is_token_of(s, t[i]));
    lemma_scan_bounds(s, p);
    lemma_run_end_bounds(s, p + 1, ByteClass::NotNewline);
    let nl = body_end(s, t[i]);
    if k < edits.len() {
        assert(effective(s, edits[k]));
        assert(placed_at(s, t, edits[k]));
    }
    lemma_split(s, edits, k, p, p + 1);
    let (k2, body) = lemma_body(s, t, edits, k, p + 1, nl, q);
    if k2 < edits.len() {
        assert(effective(s, edits[k2]));
        assert(placed_at(s, t, edits[k2]));
    }
    lemma_main(s, t, edits, i + 1, k2);
    let x = splice_from(s, edits, k, p);
    let rest = splice_from(s, edits, k2, q);
    let n = 1 + body.len() as int;
    assert(x =~= s.subrange(p, p + 1) + (body + s.subrange(nl, q) + rest));
    assert(x[0] == SEMICOLON);
    assert forall|j: int| 1 <= j < n implies x[j] != NEWLINE by {
        assert(x[j] == body[j - 1]);
    }
    if nl < q {
        assert(x[n] == NEWLINE);
        lemma_scan_comment(x, n);
        assert(x.subrange(n + 1, x.len() as int) =~= rest);
        lemma_atoms_after_token(x, n + 1, rest, t[i].line as int);
    } else {
        assert(k2 == edits.len());
        assert(rest =~= Seq::<u8>::empty());
        assert(x.len() == n);
        lemma_scan_comment(x, n);
        assert(x.subrange(n, x.len() as int) =~= rest);
        lemma_atoms_after_token(x, n, rest, t[i].line as int);
    }
}

/// The last byte of an identifier, a number or a run of unclaimed bytes
/// is neither `[` nor a newline.
proof fn lemma_last_byte(s: Seq<u8>, p: int)
    requires
        0 <= p < s.len(),
        scan_kind(s, p) is Ident || scan_kind(s, p) is Digit || scan_kind(s, p) is Other,
    ensures
        s[scan_end(s, p) - 1] != OPEN_BRACKET,
        s[scan_end(s, p) - 1] != NEWLINE,
{
    lemma_scan_bounds(s, p);
    lemma_run_end_bounds(s, p + 1, ByteClass::IdContinue);
    lemma_run_end_bounds(s, p + 1, ByteClass::Decimal);
    let q = scan_end(s, p);
    if scan_kind(s, p) is Digit {
        if number_base(s, p) != crate::lexeme::DigitBase::Decimal {
            lemma_run_end_bounds(s, p + 2, crate::scan::digit_class(number_base(s, p)));
        }
    } else if scan_kind(s, p) is Other {
        lemma_other_end_bounds(s, p + 1);
        if q - 1 > p {
            lemma_other_last(s, p + 1, q - 1);
        }
    }
}

proof fn lemma_other_last(s: Seq<u8>, j: int, k: int)
    requires
        0 <= j <= k < other_end(s, j),
    ensures
        is_other_at(s, k),
    decreases k - j,
{
    if j < k {
        lemma_other_last(s, j + 1, k);
    }
}

/// What follows the record at `i` in the spliced text ends it as the text
/// did: the same byte, or a byte that ends any token, or nothing.
proof fn lemma_next_byte(s: Seq<u8>, t: Seq<Advance>, edits: Seq<EditText>, i: int, k: int)
    requires
        laid_out(s, t, edits),
        0 <= i,
        i + 1 < t.len(),
        0 <= k <= edits.len(),
        t[i].lex is Ident || t[i].lex is Digit || t[i].lex is Other,
        k < edits.len() ==> t[i].span.to <= edits[k].span.from,
    ensures
        ({
            let rest = splice_from(s, edits, k, t[i].span.to as int);
            let tail = suffix(s, t[i].span.to as int);
            ||| same_next(tail, rest, 0) && next_edit(s, edits, k) > t[i].span.to
            ||| same_next(tail, rest, 0) && t[i].span.to == s.len()
            ||| hard_stop(rest, 0)
        }),
{
    let p = t[i].span.from as int;
    let q = t[i].span.to as int;
    let rest = splice_from(s, edits, k, q);
    lemma_record(s, t, i);
    lemma_record(s, t, i + 1);
    assert(is_token_of(s, t[i]));
    lemma_last_byte(s, p);
    lemma_split(s, edits, k, q, q);
    lemma_scan_bounds(s, p);
    let tail = suffix(s, q);
    if k < edits.len() {
        assert(effective(s, edits[k]));
        assert(placed_at(s, t, edits[k]));
    }
    if k < edits.len() && edits[k].span.from == q {
        let e = edits[k];
        let m = e.text.len() as int;
        let r = e.span.to as int;
        assert(effective(s, e));
        assert(placed_at(s, t, e));
        lemma_at_edit(s, edits, k);
        if m == 0 {
            assert(q < r);
            if k + 1 < edits.len() {
                assert(edits[k].span.to < edits[k + 1].span.from);
            }
            lemma_split(s, edits, k + 1, r, r);
            let after = splice_from(s, edits, k + 1, r);
            assert(rest =~= after);
            if r < s.len() {
                assert(after[0] == s[r]);
            } else {
                assert(k + 1 == edits.len());
                assert(after =~= Seq::<u8>::empty());
            }
        }
    } else if q == s.len() {
        assert(k == edits.len());
        assert(rest =~= Seq::<u8>::empty());
        assert(tail =~= Seq::<u8>::empty());
    } else {
        assert(rest[0] == s[q]);
        assert(tail[0] == s[q]);
    }
}

/// The record at `i`, neither whitespace nor a comment, where no edit
/// stands at its start: the spliced text starts with its bytes, read as
/// the same token, and goes on with the spliced text from its end.
pub proof fn lemma_step_plain(s: Seq<u8>, t: Seq<Advance>, edits: Seq<EditText>, i: int, k: int)
    requires
        laid_out(s, t, edits),
        0 <= i < t.len(),
        0 <= k <= edits.len(),
        !(t[i].lex is Eof),
        !(t[i].lex is Whitespace),
        t[i].lex != Lexeme::Eol(true),
        k < edits.len() ==> t[i].span.from <= edits[k].span.from && !(edits[k].span.from
            == t[i].span.from && edits[k].span.to == t[i].span.from),
    ensures
        ({
            let p = t[i].span.from as int;
            let q = t[i].span.to as int;
            let x = splice_from(s, edits, k, p);
            let rest = splice_from(s, edits, k, q);
            &&& x == s.subrange(p, q) + rest
            &&& x.subrange(q - p, x.len() as int) == rest
            &&& scan_kind(x, 0) == t[i].lex
            &&& scan_end(x, 0) == q - p
            &&& forall|line: int| #[trigger] scan_atom(x, 0, line) == scan_atom(s, p, line)
            &&& k < edits.len() ==> q <= edits[k].span.from
        }),
{
    let p = t[i].span.from as int;
    let q = t[i].span.to as int;
    let n = q - p;
    lemma_record(s, t, i);
    lemma_record(s, t, i + 1);
    assert(is_token_of(s, t[i]));
    assert(t[i].span.fits(s));
    lemma_scan_bounds(s, p);
    if k < edits.len() {
        let from = edits[k].span.from as int;
        assert(effective(s, edits[k]));
        assert(placed_at(s, t, edits[k]));
        assert(!inside(t[i], from));
        assert(from != p);
    }
    lemma_split(s, edits, k, p, q);
    let x = splice_from(s, edits, k, p);
    let rest = splice_from(s, edits, k, q);
    let a = suffix(s, p);
    lemma_suffix(s, p);
    assert(scan_atom(a, 0, 0) == scan_atom(s, p, 0));
    lemma_suffix_boundary(s, p, q);
    assert(x.subrange(n, x.len() as int) =~= rest);
    assert(agree(a, x, n));
    if ends_itself(a) {
        lemma_rescan_self(a, x, n);
    } else if t[i].lex is Str {
        lemma_str_end_bounds(s, p + 1);
        assert(q == s.len());
        assert(k == edits.len());
        assert(rest =~= Seq::<u8>::empty());
        crate::shift::lemma_str_shift(s.subrange(0, p), a, 1);
        assert(s.subrange(0, p) + a =~= s);
        lemma_rescan_open(a, x, n);
    } else {
        lemma_next_byte(s, t, edits, i, k);
        let tail = suffix(s, q);
        assert(rest.len() > 0 ==> x[n] == rest[0]);
        assert(tail.len() > 0 ==> a[n] == tail[0]);
        if t[i].lex is Other {
            lemma_other_stop(s, t, edits, i, k);
            lemma_ws_len_shift(s.subrange(p, q), rest, 0);
            lemma_rescan_other(a, x, n);
        } else {
            lemma_rescan_word(a, x, n);
        }
    }
    assert forall|line: int| #[trigger] scan_atom(x, 0, line) == scan_atom(s, p, line) by {
        assert(scan_atom(x, 0, line) == scan_atom(a, 0, line));
        assert(scan_atom(a, 0, line) == scan_atom(s, p, line));
    }
}

proof fn lemma_token_plain(s: Seq<u8>, t: Seq<Advance>, edits: Seq<EditText>, i: int, k: int)
    requires
        laid_out(s, t, edits),
        0 <= i < t.len(),
        0 <= k <= edits.len(),
        !(t[i].lex is Eof),
        !(t[i].lex is Whitespace),
        t[i].lex != Lexeme::Eol(true),
        k < edits.len() ==> t[i].span.from <= edits[k].span.from && !(edits[k].span.from
            == t[i].span.from && edits[k].span.to == t[i].span.from),
    ensures
        atoms_from(splice_from(s, edits, k, t[i].span.from as int), 0, t[i].line as int)
            == atoms_from(s, t[i].span.from as int, t[i].line as int),
    decreases t.len() - i, 0int,
{
    let p = t[i].span.from as int;
    let q = t[i].span.to as int;
    lemma_record(s, t, i);
    lemma_record(s, t, i + 1);
    assert(is_token_of(s, t[i]));
    lemma_scan_bounds(s, p);
    lemma_step_plain(s, t, edits, i, k);
    lemma_main(s, t, edits, i + 1, k);
    let x = splice_from(s, edits, k, p);
    let rest = splice_from(s, edits, k, q);
    assert(scan_atom(x, 0, t[i].line as int) == scan_atom(s, p, t[i].line as int));
    lemma_atoms_after_token(x, q - p, rest, t[i].line as int);
}

/// What follows a run of unclaimed bytes in the spliced text is claimed
/// or whitespace, or nothing.
proof fn lemma_other_stop(s: Seq<u8>, t: Seq<Advance>, edits: Seq<EditText>, i: int, k: int)
    requires
        laid_out(s, t, edits),
        0 <= i,
        i + 1 < t.len(),
        0 <= k <= edits.len(),
        t[i].lex is Other,
        k < edits.len() ==> t[i].span.to <= edits[k].span.from,
    ensures
        !is_other_at(splice_from(s, edits, k, t[i].span.to as int), 0),
{
    let p = t[i].span.from as int;
    let q = t[i].span.to as int;
    let rest = splice_from(s, edits, k, q);
    lemma_record(s, t, i);
    lemma_record(s, t, i + 1);
    assert(is_token_of(s, t[i]));
    lemma_scan_bounds(s, p);
    lemma_other_end_bounds(s, p + 1);
    lemma_next_byte(s, t, edits, i, k);
    lemma_split(s, edits, k, q, q);
    if rest.len() > 0 && !hard_stop(rest, 0) {
        assert(rest[0] == s[q]);
        assert(!is_other_at(s, q));
        if ws_len(s, q) > 0 {
            let r = t[i + 1].span.to as int;
            assert(is_token_of(s, t[i + 1]));
            lemma_scan_bounds(s, q);
            lemma_ws_end_bounds(s, q);
            lemma_ws_end_bounds(s, q + ws_len(s, q));
            if k < edits.len() {
                assert(placed_at(s, t, edits[k]));
                assert(!inside(t[i + 1], edits[k].span.from as int));
            }
            assert(ws_len(rest, 0) == ws_len(s, q)) by {
                let w = ws_len(s, q);
                assert(forall|j: int| 0 <= j < w ==> rest[j] == s[q + j]);
            }
        }
    }
}

/// The formatted text reads as the text it was made from: the same tokens
/// but for whitespace and the bodies of comments.
pub proof fn lemma_same_atoms(s: Seq<u8>, kinds: Seq<LineKind>, skip: Set<u32>, tab: u32)
    requires
        s.len() <= u32::MAX,
        valid_utf8(s),
    ensures
        atoms_from(splice(s, edits_of(s, tokens(s), kinds, skip, tab)), 0, 0) == atoms_from(
            s,
            0,
            0,
        ),
{
    let t = tokens(s);
    let edits = edits_of(s, t, kinds, skip, tab);
    lemma_records_ok(s);
    lemma_edits_effective(s, kinds, skip, tab);
    lemma_edits_in_order(s, kinds, skip, tab);
    lemma_edits_placed(s, kinds, skip, tab);
    if edits.len() > 0 {
        assert(0 <= 2 * edits[0].span.from);
    }
    lemma_main(s, t, edits, 0, 0);
}

/// Formatter preserves parse: a UTF-8 text and its formatting, with
/// instructions indented by at least one space, have the same program,
/// line for line, and diagnostics on the same lines; so a text without
/// diagnostics is formatted to one without.
pub proof fn lemma_preserves_parse(s: Seq<u8>, tab: u32)
    requires
        s.len() <= u32::MAX,
        valid_utf8(s),
        formatted(s, tab).len() <= u32::MAX,
    ensures
        parse_text(formatted(s, tab)).lines == parse_text(s).lines,
        lines_of(parse_text(formatted(s, tab)).errors) == lines_of(parse_text(s).errors),
        parse_text(formatted(s, tab)).errors.len() == parse_text(s).errors.len(),
{
    let z = formatted(s, tab);
    lemma_same_atoms(s, parsed_kinds(s), parsed_error_lines(s), tab);
    lemma_sig_atoms(s);
    lemma_sig_atoms(z);
    crate::tokens::lemma_lex_totality(s);
    crate::tokens::lemma_lex_totality(z);
    lemma_same_program(s, tokens(s), z, tokens(z));
    assert(lines_of(parse_text(z).errors).len() == lines_of(parse_text(s).errors).len());
}

} // verus!
