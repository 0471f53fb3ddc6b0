//! Edit non-overlap: the edits of the canonical layout come in the order of
//! the source, no two of them overlap, and each starts and ends between two
//! characters.

use vstd::prelude::*;
use vstd::utf8::valid_utf8;

use crate::boundary::{
    lemma_ascii_boundary, lemma_lead_boundary, lemma_tokens_fit, lemma_ws_end_boundary,
};
use crate::grammar::{closed, lemma_line_stop, line_stop};
use crate::layout::{
    body_end, comment_edits, edits_from, edits_of, in_order, inner_edits, lead_edits, line_edits,
    range_edits, tail_edits, trail_start, EditText, LineKind,
};
use crate::lexeme::{Advance, Lexeme};
use crate::scan::{
    lemma_run_end_bounds, lemma_scan_bounds, lemma_ws_end_bounds, ws_end, ws_len, ByteClass,
    SEMICOLON,
};
use crate::tokens::{follows, is_token_of, lemma_tokens_from, tokens};

verus! {

/// Every edit starts and ends between two characters of `s`.
pub open spec fn on_boundaries(edits: Seq<EditText>, s: Seq<u8>) -> bool {
    forall|k: int| 0 <= k < edits.len() ==> (#[trigger] edits[k]).span.fits(s)
}

/// The edits lie in `[lo, hi]` in order without overlap, and on character
/// boundaries where `s` is UTF-8.
pub open spec fn placed(edits: Seq<EditText>, lo: int, hi: int, s: Seq<u8>) -> bool {
    &&& in_order(edits, lo, hi)
    &&& valid_utf8(s) ==> on_boundaries(edits, s)
}

pub proof fn lemma_placed_concat(
    a: Seq<EditText>,
    b: Seq<EditText>,
    lo: int,
    mid: int,
    hi: int,
    s: Seq<u8>,
)
    requires
        placed(a, lo, mid, s),
        placed(b, mid, hi, s),
        lo <= mid <= hi,
    ensures
        placed(a + b, lo, hi, s),
{
    let c = a + b;
    assert forall|k: int| 0 <= k < c.len() implies lo <= (#[trigger] c[k]).span.from
        <= c[k].span.to <= hi && (valid_utf8(s) ==> c[k].span.fits(s)) by {
        if k < a.len() {
            assert(c[k] == a[k]);
        } else {
            assert(c[k] == b[k - a.len()]);
        }
    }
    assert forall|k: int, l: int| 0 <= k < l < c.len() implies (#[trigger] c[k]).span.to <= (
    #[trigger] c[l]).span.from by {
        if l < a.len() {
            assert(c[k] == a[k] && c[l] == a[l]);
        } else if k < a.len() {
            assert(c[k] == a[k] && c[l] == b[l - a.len()]);
        } else {
            assert(c[k] == b[k - a.len()] && c[l] == b[l - a.len()]);
        }
    }
}

/// The facts about the records of `s` that the proofs below rest on.
pub open spec fn records_ok(s: Seq<u8>, t: Seq<Advance>) -> bool {
    &&& s.len() <= u32::MAX
    &&& closed(t)
    &&& t[0].span.from == 0
    &&& forall|k: int| 0 <= k < t.len() ==> is_token_of(s, #[trigger] t[k])
    &&& forall|i: int, j: int|
        0 <= i && j == i + 1 && j < t.len() ==> follows(#[trigger] t[i], #[trigger] t[j])
    &&& valid_utf8(s) ==> forall|k: int| 0 <= k < t.len() ==> (#[trigger] t[k]).span.fits(s)
}

pub proof fn lemma_records_ok(s: Seq<u8>)
    requires
        s.len() <= u32::MAX,
    ensures
        records_ok(s, tokens(s)),
{
    lemma_tokens_from(s, 0, 0, 0);
    if valid_utf8(s) {
        lemma_tokens_fit(s);
    }
}

proof fn lemma_lead(first: Advance, gap: int, kind: LineKind, tab: u32, s: Seq<u8>)
    requires
        is_token_of(s, first),
        valid_utf8(s) ==> first.span.fits(s),
        gap >= 1,
    ensures
        placed(
            lead_edits(first, gap, kind, tab),
            first.span.from as int,
            if gap > 1 {
                first.span.to as int
            } else {
                first.span.from as int
            },
            s,
        ),
{
}

proof fn lemma_inner(s: Seq<u8>, t: Seq<Advance>, i: int)
    requires
        records_ok(s, t),
        1 <= i,
        i + 1 < t.len(),
    ensures
        placed(inner_edits(s, t, i), t[i].span.from as int, t[i].span.to as int, s),
{
    assert(is_token_of(s, t[i]));
}

proof fn lemma_range(s: Seq<u8>, t: Seq<Advance>, i: int, last: int)
    requires
        records_ok(s, t),
        1 <= i <= last,
        last + 1 < t.len(),
    ensures
        placed(range_edits(s, t, i, last), t[i].span.from as int, t[last].span.from as int, s),
        t[i].span.from <= t[last].span.from,
    decreases last - i,
{
    if i < last {
        lemma_inner(s, t, i);
        lemma_range(s, t, i + 1, last);
        assert(follows(t[i], t[i + 1]));
        assert(is_token_of(s, t[i]));
        lemma_placed_concat(
            inner_edits(s, t, i),
            range_edits(s, t, i + 1, last),
            t[i].span.from as int,
            t[i].span.to as int,
            t[last].span.from as int,
            s,
        );
    }
}

proof fn lemma_tail(s: Seq<u8>, last: Advance, eol: Advance, kind: LineKind)
    requires
        is_token_of(s, last),
        valid_utf8(s) ==> last.span.fits(s),
    ensures
        placed(tail_edits(s, last, eol, kind), last.span.from as int, last.span.to as int, s),
{
}

/// The whitespace that runs up to `end` starts between `i` and `end`, at a
/// whitespace character.
pub proof fn lemma_trail_start(s: Seq<u8>, i: int, end: int)
    requires
        0 <= i <= end <= s.len(),
    ensures
        i <= trail_start(s, i, end) <= end,
        trail_start(s, i, end) < end ==> ws_len(s, trail_start(s, i, end)) > 0,
    decreases end - i,
{
    if i >= end {
    } else if ws_len(s, i) > 0 {
        lemma_ws_end_bounds(s, i);
        if ws_end(s, i) < end {
            lemma_trail_start(s, ws_end(s, i), end);
        }
    } else {
        lemma_trail_start(s, i + 1, end);
    }
}

pub proof fn lemma_comment(s: Seq<u8>, eol: Advance)
    requires
        s.len() <= u32::MAX,
        is_token_of(s, eol),
        valid_utf8(s) ==> eol.span.fits(s),
    ensures
        placed(comment_edits(s, eol), eol.span.from as int, eol.span.to as int, s),
{
    if eol.lex == Lexeme::Eol(true) {
        let from = eol.span.from as int;
        let to = eol.span.to as int;
        let start = from + 1;
        let end = body_end(s, eol);
        let text = ws_end(s, start);
        lemma_scan_bounds(s, from);
        lemma_run_end_bounds(s, start, ByteClass::NotNewline);
        lemma_ws_end_bounds(s, start);
        assert(s[from] == SEMICOLON);
        assert(start <= end <= to);
        if text < end {
            lemma_trail_start(s, text, end);
        }
        if valid_utf8(s) {
            lemma_ascii_boundary(s, from);
            lemma_ws_end_boundary(s, start);
            if end < to {
                lemma_ascii_boundary(s, end);
            }
            if text < end {
                let trail = trail_start(s, text, end);
                if trail < end {
                    lemma_lead_boundary(s, trail);
                }
            }
        }
    }
}

proof fn lemma_line(
    s: Seq<u8>,
    t: Seq<Advance>,
    a: int,
    e: int,
    kinds: Seq<LineKind>,
    skip: Set<u32>,
    tab: u32,
)
    requires
        records_ok(s, t),
        0 <= a <= e,
        e + 1 < t.len(),
    ensures
        placed(
            line_edits(s, t, a, e, kinds, skip, tab),
            t[a].span.from as int,
            t[e].span.to as int,
            s,
        ),
        t[a].span.from <= t[e].span.to,
{
    let line = t[a].line as int;
    let lo = t[a].span.from as int;
    let hi = t[e].span.to as int;
    assert(is_token_of(s, t[a]));
    assert(is_token_of(s, t[e]));
    lemma_comment(s, t[e]);
    if e > a {
        assert(is_token_of(s, t[e - 1]));
        assert(follows(t[e - 1], t[e]));
        assert(follows(t[a], t[a + 1]));
        if e - 1 >= a + 1 {
            lemma_range(s, t, a + 1, e - 1);
        }
    }
    if skip.contains(t[a].line) {
    } else if e == a {
    } else if line >= kinds.len() {
    } else {
        let kind = kinds[line];
        let lead = lead_edits(t[a], e - a, kind, tab);
        let range = if kind != LineKind::NoOp {
            range_edits(s, t, a + 1, e - 1)
        } else {
            Seq::empty()
        };
        let tail = tail_edits(s, t[e - 1], t[e], kind);
        let comment = comment_edits(s, t[e]);
        let mid1 = if e - a > 1 {
            t[a].span.to as int
        } else {
            lo
        };
        let mid2 = t[e - 1].span.from as int;
        let mid3 = t[e - 1].span.to as int;
        lemma_lead(t[a], e - a, kind, tab, s);
        lemma_tail(s, t[e - 1], t[e], kind);
        assert(placed(range, mid1, mid2, s)) by {
            if e - 1 >= a + 1 {
                if kind == LineKind::NoOp {
                }
            } else {
                assert(range_edits(s, t, a + 1, e - 1) =~= Seq::<EditText>::empty());
            }
        }
        lemma_placed_concat(lead, range, lo, mid1, mid2, s);
        lemma_placed_concat(lead + range, tail, lo, mid2, mid3, s);
        lemma_placed_concat(lead + range + tail, comment, lo, mid3, hi, s);
    }
}

pub proof fn lemma_edits_from(
    s: Seq<u8>,
    t: Seq<Advance>,
    i: int,
    kinds: Seq<LineKind>,
    skip: Set<u32>,
    tab: u32,
)
    requires
        records_ok(s, t),
        0 <= i < t.len(),
    ensures
        placed(edits_from(s, t, i, kinds, skip, tab), t[i].span.from as int, s.len() as int, s),
    decreases t.len() - i,
{
    let e = line_stop(t, i);
    lemma_line_stop(t, i);
    assert(is_token_of(s, t[i]));
    if t[e].lex is Eol {
        lemma_line(s, t, i, e, kinds, skip, tab);
        lemma_edits_from(s, t, e + 1, kinds, skip, tab);
        assert(follows(t[e], t[e + 1]));
        lemma_placed_concat(
            line_edits(s, t, i, e, kinds, skip, tab),
            edits_from(s, t, e + 1, kinds, skip, tab),
            t[i].span.from as int,
            t[e].span.to as int,
            s.len() as int,
            s,
        );
    }
}

/// Edit non-overlap: the edits of any text, whatever the kinds of its lines
/// and the lines left alone, lie in the text in the order of the source,
/// and none starts before the one before it ends. Where the text is UTF-8
/// they cut it between characters.
pub proof fn lemma_edits_in_order(s: Seq<u8>, kinds: Seq<LineKind>, skip: Set<u32>, tab: u32)
    requires
        s.len() <= u32::MAX,
    ensures
        in_order(edits_of(s, tokens(s), kinds, skip, tab), 0, s.len() as int),
        valid_utf8(s) ==> on_boundaries(edits_of(s, tokens(s), kinds, skip, tab), s),
{
    lemma_records_ok(s);
    lemma_edits_from(s, tokens(s), 0, kinds, skip, tab);
}

} // verus!
