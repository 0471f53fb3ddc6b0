//! Where the edits of the canonical layout stand: at the start of a token,
//! on a whole whitespace token, or inside a comment; spaces are never put
//! right after whitespace; and whitespace is deleted only at the start of
//! a line, after `[`, or before a byte that ends any token.

use vstd::prelude::*;

use crate::grammar::{lemma_line_stop, line_stop};
use crate::layout::{
    body_end, comment_edits, edits_from, edits_of, inner_edits, lead_edits, line_edits,
    range_edits, tail_edits, EditText, LineKind,
};
use crate::lexeme::{Advance, Lexeme};
use crate::minimal::{lemma_order, lemma_record};
use crate::order::{lemma_records_ok, lemma_trail_start, records_ok};
use crate::rescan::is_stop;
use crate::scan::{
    lemma_run_end_bounds, lemma_scan_bounds, lemma_ws_end_bounds, ws_end, ws_len, ByteClass,
    NEWLINE, OPEN_BRACKET,
};
use crate::tokens::{is_token_of, tokens};

verus! {

/// The offset lies inside the record, at neither of its ends.
pub open spec fn inside(ad: Advance, x: int) -> bool {
    ad.span.from < x < ad.span.to
}

/// Where an edit stands.
pub open spec fn placed_at(s: Seq<u8>, t: Seq<Advance>, e: EditText) -> bool {
    let from = e.span.from as int;
    let to = e.span.to as int;
    &&& forall|j: int| 0 <= j < t.len() && inside(#[trigger] t[j], from) ==> t[j].lex == Lexeme::Eol(true)
    &&& from == to ==> {
        &&& from < s.len()
        &&& ws_len(s, from) == 0
        &&& forall|j: int|
            0 <= j < t.len() && (#[trigger] t[j]).lex is Whitespace ==> t[j].span.to != from
    }
    &&& from < to && e.text.len() == 0 ==> {
        ||| to == s.len()
        ||| is_stop(s[to])
        ||| from == 0
        ||| s[from - 1] == OPEN_BRACKET
        ||| s[from - 1] == NEWLINE
    }
}

pub open spec fn all_placed(s: Seq<u8>, t: Seq<Advance>, edits: Seq<EditText>) -> bool {
    forall|k: int| 0 <= k < edits.len() ==> placed_at(s, t, #[trigger] edits[k])
}

proof fn lemma_all_concat(s: Seq<u8>, t: Seq<Advance>, a: Seq<EditText>, b: Seq<EditText>)
    requires
        all_placed(s, t, a),
        all_placed(s, t, b),
    ensures
        all_placed(s, t, a + b),
{
    let c = a + b;
    assert forall|k: int| 0 <= k < c.len() implies placed_at(s, t, #[trigger] c[k]) by {
        if k < a.len() {
            assert(c[k] == a[k]);
        } else {
            assert(c[k] == b[k - a.len()]);
        }
    }
}

/// What lies at the start of the record at `i`: no record goes across it,
/// and the one record that ends there is the one before.
pub proof fn lemma_at_start(s: Seq<u8>, t: Seq<Advance>, i: int, j: int)
    requires
        records_ok(s, t),
        0 <= i < t.len(),
        0 <= j < t.len(),
    ensures
        !inside(t[j], t[i].span.from as int),
        !(t[j].lex is Eof) && t[j].span.to == t[i].span.from ==> j == i - 1,
{
    lemma_record(s, t, j);
    if j < i {
        lemma_order(s, t, j, i);
        if j < i - 1 {
            lemma_order(s, t, j, i - 1);
            lemma_record(s, t, i - 1);
        }
    } else {
        lemma_order(s, t, i, j);
    }
}

/// What lies inside the record at `i`: no other record reaches there.
pub proof fn lemma_at_inside(s: Seq<u8>, t: Seq<Advance>, i: int, x: int, j: int)
    requires
        records_ok(s, t),
        0 <= i < t.len(),
        0 <= j < t.len(),
        inside(t[i], x),
    ensures
        inside(t[j], x) ==> j == i,
        t[j].span.to != x,
{
    lemma_record(s, t, j);
    lemma_record(s, t, i);
    if j < i {
        lemma_order(s, t, j, i);
    } else if j > i {
        lemma_order(s, t, i, j);
        lemma_order(s, t, i + 1, j);
    }
}

/// A line end that is followed by a record ends with a newline.
proof fn lemma_newline_before(s: Seq<u8>, t: Seq<Advance>, a: int)
    requires
        records_ok(s, t),
        0 < a < t.len(),
        t[a - 1].lex is Eol,
        !(t[a].lex is Eof),
    ensures
        t[a].span.from >= 1,
        s[t[a].span.from - 1] == NEWLINE,
{
    lemma_record(s, t, a - 1);
    lemma_record(s, t, a);
    let from = t[a - 1].span.from as int;
    lemma_scan_bounds(s, from);
    lemma_run_end_bounds(s, from + 1, ByteClass::NotNewline);
}

proof fn lemma_lead(s: Seq<u8>, t: Seq<Advance>, a: int, gap: int, kind: LineKind, tab: u32)
    requires
        records_ok(s, t),
        0 <= a < t.len(),
        !t[a].lex.ends_line(),
        a == 0 || t[a - 1].lex is Eol,
        gap >= 1,
    ensures
        all_placed(s, t, lead_edits(t[a], gap, kind, tab)),
{
    let edits = lead_edits(t[a], gap, kind, tab);
    lemma_record(s, t, a);
    if a > 0 {
        lemma_newline_before(s, t, a);
    }
    if edits.len() > 0 {
        let e = edits[0];
        assert forall|j: int| 0 <= j < t.len() implies !inside(#[trigger] t[j], e.span.from as int)
            && (t[j].lex is Whitespace ==> t[j].span.to != e.span.from) by {
            lemma_at_start(s, t, a, j);
        }
    }
}

proof fn lemma_inner(s: Seq<u8>, t: Seq<Advance>, i: int)
    requires
        records_ok(s, t),
        1 <= i,
        i + 1 < t.len(),
        !t[i].lex.ends_line(),
        !t[i + 1].lex.ends_line(),
    ensures
        all_placed(s, t, inner_edits(s, t, i)),
{
    let edits = inner_edits(s, t, i);
    lemma_record(s, t, i - 1);
    lemma_record(s, t, i);
    lemma_record(s, t, i + 1);
    if edits.len() > 0 {
        let e = edits[0];
        if t[i].lex is Whitespace {
            assert forall|j: int| 0 <= j < t.len() implies !inside(
                #[trigger] t[j],
                e.span.from as int,
            ) by {
                lemma_at_start(s, t, i, j);
            }
        } else {
            assert forall|j: int| 0 <= j < t.len() implies !inside(
                #[trigger] t[j],
                e.span.from as int,
            ) && (t[j].lex is Whitespace ==> t[j].span.to != e.span.from) by {
                lemma_at_start(s, t, i + 1, j);
            }
        }
    }
}

proof fn lemma_range(s: Seq<u8>, t: Seq<Advance>, i: int, last: int)
    requires
        records_ok(s, t),
        1 <= i,
        last + 1 < t.len(),
        forall|k: int| i <= k <= last ==> !(#[trigger] t[k]).lex.ends_line(),
    ensures
        all_placed(s, t, range_edits(s, t, i, last)),
    decreases last - i,
{
    if i < last {
        assert(!t[i].lex.ends_line());
        assert(!t[i + 1].lex.ends_line());
        lemma_inner(s, t, i);
        lemma_range(s, t, i + 1, last);
        lemma_all_concat(s, t, inner_edits(s, t, i), range_edits(s, t, i + 1, last));
    }
}

proof fn lemma_tail(s: Seq<u8>, t: Seq<Advance>, e: int, kind: LineKind)
    requires
        records_ok(s, t),
        1 <= e < t.len(),
        t[e].lex is Eol,
        !t[e - 1].lex.ends_line(),
    ensures
        all_placed(s, t, tail_edits(s, t[e - 1], t[e], kind)),
{
    let edits = tail_edits(s, t[e - 1], t[e], kind);
    lemma_record(s, t, e - 1);
    lemma_record(s, t, e);
    let from = t[e].span.from as int;
    lemma_scan_bounds(s, from);
    if edits.len() > 0 {
        let x = edits[0];
        if t[e - 1].lex is Whitespace {
            assert forall|j: int| 0 <= j < t.len() implies !inside(
                #[trigger] t[j],
                x.span.from as int,
            ) by {
                lemma_at_start(s, t, e - 1, j);
            }
        } else {
            assert forall|j: int| 0 <= j < t.len() implies !inside(
                #[trigger] t[j],
                x.span.from as int,
            ) && (t[j].lex is Whitespace ==> t[j].span.to != x.span.from) by {
                lemma_at_start(s, t, e, j);
            }
        }
    }
}

proof fn lemma_comment(s: Seq<u8>, t: Seq<Advance>, e: int)
    requires
        records_ok(s, t),
        0 <= e < t.len(),
        t[e].lex is Eol,
    ensures
        all_placed(s, t, comment_edits(s, t[e])),
{
    let eol = t[e];
    let edits = comment_edits(s, eol);
    lemma_record(s, t, e);
    assert(is_token_of(s, eol));
    if eol.lex == Lexeme::Eol(true) {
        let from = eol.span.from as int;
        let to = eol.span.to as int;
        let start = from + 1;
        let end = body_end(s, eol);
        let text = ws_end(s, start);
        lemma_scan_bounds(s, from);
        lemma_run_end_bounds(s, start, ByteClass::NotNewline);
        lemma_ws_end_bounds(s, start);
        assert(start <= end <= to);
        assert(end < s.len() ==> s[end] == NEWLINE);
        if text < end {
            lemma_trail_start(s, text, end);
        }
        assert forall|k: int| 0 <= k < edits.len() implies placed_at(s, t, #[trigger] edits[k]) by {
            let x = edits[k];
            assert(from < x.span.from < to);
            assert forall|j: int| 0 <= j < t.len() implies (inside(
                #[trigger] t[j],
                x.span.from as int,
            ) ==> t[j].lex == Lexeme::Eol(true)) && t[j].span.to != x.span.from by {
                lemma_at_inside(s, t, e, x.span.from as int, j);
            }
        }
    }
}

proof fn lemma_line(
    s: Seq<u8>,
    t: Seq<Advance>,
    a: int,
    e: int,
    kinds: Seq<LineKind>,
    skip: Set<u32>,
    tab: u32,
)
    requires
        records_ok(s, t),
        0 <= a <= e < t.len(),
        a == 0 || t[a - 1].lex is Eol,
        t[e].lex is Eol,
        forall|k: int| a <= k < e ==> !(#[trigger] t[k]).lex.ends_line(),
    ensures
        all_placed(s, t, line_edits(s, t, a, e, kinds, skip, tab)),
{
    let line = t[a].line as int;
    lemma_comment(s, t, e);
    if skip.contains(t[a].line) {
    } else if e == a {
    } else if line >= kinds.len() {
    } else {
        let kind = kinds[line];
        let lead = lead_edits(t[a], e - a, kind, tab);
        let range = if kind != LineKind::NoOp {
            range_edits(s, t, a + 1, e - 1)
        } else {
            Seq::empty()
        };
        let tail = tail_edits(s, t[e - 1], t[e], kind);
        let comment = comment_edits(s, t[e]);
        assert(!t[a].lex.ends_line());
        assert(!t[e - 1].lex.ends_line());
        lemma_lead(s, t, a, e - a, kind, tab);
        if kind != LineKind::NoOp {
            if a + 1 <= e - 1 {
                lemma_range(s, t, a + 1, e - 1);
            }
        }
        lemma_tail(s, t, e, kind);
        lemma_all_concat(s, t, lead, range);
        lemma_all_concat(s, t, lead + range, tail);
        lemma_all_concat(s, t, lead + range + tail, comment);
    }
}

proof fn lemma_edits_from(
    s: Seq<u8>,
    t: Seq<Advance>,
    i: int,
    kinds: Seq<LineKind>,
    skip: Set<u32>,
    tab: u32,
)
    requires
        records_ok(s, t),
        0 <= i < t.len(),
        i == 0 || t[i - 1].lex is Eol,
    ensures
        all_placed(s, t, edits_from(s, t, i, kinds, skip, tab)),
    decreases t.len() - i,
{
    let e = line_stop(t, i);
    lemma_line_stop(t, i);
    if t[e].lex is Eol {
        lemma_line(s, t, i, e, kinds, skip, tab);
        lemma_edits_from(s, t, e + 1, kinds, skip, tab);
        lemma_all_concat(
            s,
            t,
            line_edits(s, t, i, e, kinds, skip, tab),
            edits_from(s, t, e + 1, kinds, skip, tab),
        );
    }
}

/// Every edit of the canonical layout stands at the start of a token, on
/// a whole whitespace token, or inside a comment.
pub proof fn lemma_edits_placed(s: Seq<u8>, kinds: Seq<LineKind>, skip: Set<u32>, tab: u32)
    requires
        s.len() <= u32::MAX,
    ensures
        all_placed(s, tokens(s), edits_of(s, tokens(s), kinds, skip, tab)),
{
    lemma_records_ok(s);
    lemma_edits_from(s, tokens(s), 0, kinds, skip, tab);
}

} // verus!
