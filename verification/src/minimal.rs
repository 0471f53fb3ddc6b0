//! Minimal edits: every edit of the canonical layout changes the text, and
//! changes nothing but whitespace. A text that equals its own formatting
//! has no edits.
//!
//! An edit either puts spaces where no space stands, or replaces a whole
//! run of whitespace by spaces that the run is not. Between two edits at
//! least one byte is kept. So the first edit of a text is where the text
//! and its formatting part ways.

use vstd::prelude::*;
use vstd::utf8::{
    encode_utf8, is_char_boundary, is_char_boundary_iff_not_is_continuation_byte, valid_utf8,
};

use crate::grammar::{lemma_line_stop, line_stop};
use crate::layout::{
    body_end, comment_edits, edit, edits_from, edits_of, format_edits, formatted, inner_edits,
    is_one_space, lead_edits, line_edits, range_edits, spaces, splice, splice_from, tail_edits,
    trail_start, EditText, LineKind,
};
use crate::lexeme::{Advance, Lexeme};
use crate::order::{lemma_edits_in_order, lemma_records_ok, lemma_trail_start, on_boundaries, records_ok};
use crate::scan::{
    lemma_run_end_bounds, lemma_scan_bounds, lemma_ws_end_bounds, ws_end, ws_len, ByteClass,
    NEWLINE, SEMICOLON, SPACE,
};
use crate::tokens::{follows, is_token_of, tokens};

verus! {

/// The bytes from `from` to `to` are a run of whitespace that ends where
/// the whitespace ends.
pub open spec fn is_ws_run(s: Seq<u8>, from: int, to: int) -> bool {
    0 <= from < to <= s.len() && ws_len(s, from) > 0 && ws_end(s, from) == to
}

/// The bytes from `from` to `to` are `n` spaces.
pub open spec fn are_spaces(s: Seq<u8>, from: int, to: int, n: nat) -> bool {
    to - from == n && forall|k: int| from <= k < to ==> s[k] == SPACE
}

/// The edit changes the text, and only whitespace: it puts spaces where no
/// space stands, or replaces a run of whitespace by spaces that the run
/// is not.
pub open spec fn effective(s: Seq<u8>, e: EditText) -> bool {
    let from = e.span.from as int;
    let to = e.span.to as int;
    &&& e.text == spaces(e.text.len())
    &&& 0 <= from <= to <= s.len()
    &&& if from == to {
        e.text.len() >= 1 && (from < s.len() ==> s[from] != SPACE)
    } else {
        is_ws_run(s, from, to) && !are_spaces(s, from, to, e.text.len())
    }
}

/// The edits are effective and lie between the bounds, apart from each
/// other. A bound counts in half bytes: `2 * p` is the offset `p`, and
/// `2 * p + 1` lies between `p` and `p + 1`.
pub open spec fn apart(edits: Seq<EditText>, lo: int, hi: int, s: Seq<u8>) -> bool {
    &&& forall|k: int|
        0 <= k < edits.len() ==> effective(s, #[trigger] edits[k]) && lo <= 2 * edits[k].span.from
            && 2 * edits[k].span.to <= hi
    &&& forall|k: int, l: int|
        0 <= k < l < edits.len() ==> (#[trigger] edits[k]).span.to < (#[trigger] edits[l]).span.from
}

proof fn lemma_apart_concat(
    a: Seq<EditText>,
    b: Seq<EditText>,
    lo: int,
    mid_a: int,
    mid_b: int,
    hi: int,
    s: Seq<u8>,
)
    requires
        apart(a, lo, mid_a, s),
        apart(b, mid_b, hi, s),
        lo <= mid_a < mid_b <= hi,
    ensures
        apart(a + b, lo, hi, s),
{
    let c = a + b;
    assert forall|k: int| 0 <= k < c.len() implies effective(s, #[trigger] c[k]) && lo <= 2
        * c[k].span.from && 2 * c[k].span.to <= hi by {
        if k < a.len() {
            assert(c[k] == a[k]);
        } else {
            assert(c[k] == b[k - a.len()]);
        }
    }
    assert forall|k: int, l: int| 0 <= k < l < c.len() implies (#[trigger] c[k]).span.to < (
    #[trigger] c[l]).span.from by {
        if l < a.len() {
            assert(c[k] == a[k] && c[l] == a[l]);
        } else if k < a.len() {
            assert(c[k] == a[k] && c[l] == b[l - a.len()]);
        } else {
            assert(c[k] == b[k - a.len()] && c[l] == b[l - a.len()]);
        }
    }
}

proof fn lemma_apart_empty(lo: int, hi: int, s: Seq<u8>)
    ensures
        apart(Seq::<EditText>::empty(), lo, hi, s),
{
}

/// The lower bound of the edits at the record at `i`: at its start where
/// it is whitespace, past its start otherwise.
pub open spec fn low(t: Seq<Advance>, i: int) -> int {
    if t[i].lex is Whitespace {
        2 * t[i].span.from
    } else {
        2 * t[i].span.from + 1
    }
}

/// The upper bound of the edits at the record at `i`: before its end
/// where whitespace follows, at its end otherwise.
pub open spec fn high(t: Seq<Advance>, i: int) -> int {
    if i + 1 < t.len() && t[i + 1].lex is Whitespace {
        2 * t[i].span.to - 1
    } else {
        2 * t[i].span.to
    }
}

/// What the record at `i` tells of the text: whitespace is a whole run,
/// anything else starts with a byte that is no space, and whitespace never
/// follows whitespace.
pub proof fn lemma_record(s: Seq<u8>, t: Seq<Advance>, i: int)
    requires
        records_ok(s, t),
        0 <= i < t.len(),
    ensures
        t[i].span.from <= t[i].span.to <= s.len(),
        t[i].lex is Whitespace ==> is_ws_run(s, t[i].span.from as int, t[i].span.to as int),
        !(t[i].lex is Whitespace) && !(t[i].lex is Eof) ==> t[i].span.from < s.len()
            && s[t[i].span.from as int] != SPACE,
        t[i].lex == Lexeme::Eol(true) ==> s[t[i].span.from as int] == SEMICOLON,
        !(t[i].lex is Eof) ==> t[i].span.from < t[i].span.to && i + 1 < t.len() && t[i + 1].span.from
            == t[i].span.to,
        t[i].lex is Whitespace ==> !(t[i + 1].lex is Whitespace),
        i + 1 < t.len() ==> high(t, i) < low(t, i + 1),
{
    assert(is_token_of(s, t[i]));
    let from = t[i].span.from as int;
    if !(t[i].lex is Eof) {
        lemma_scan_bounds(s, from);
        lemma_ws_end_bounds(s, from);
        assert(follows(t[i], t[i + 1]));
        assert(is_token_of(s, t[i + 1]));
        if t[i].lex is Whitespace {
            lemma_ws_end_bounds(s, t[i].span.to as int);
        }
    }
}

proof fn lemma_lead(s: Seq<u8>, t: Seq<Advance>, a: int, gap: int, kind: LineKind, tab: u32)
    requires
        records_ok(s, t),
        0 <= a < t.len(),
        !(t[a].lex is Eof),
        gap >= 1,
    ensures
        apart(
            lead_edits(t[a], gap, kind, tab),
            2 * t[a].span.from,
            if t[a].lex is Whitespace && gap > 1 {
                2 * t[a].span.to
            } else if t[a].lex is Whitespace {
                2 * t[a].span.from - 1
            } else {
                2 * t[a].span.from
            },
            s,
        ),
{
    lemma_record(s, t, a);
    let first = t[a];
    if kind == LineKind::Instruction && first.lex is Whitespace && gap > 1 && first.span.to
        - first.span.from != tab {
        assert(!are_spaces(s, first.span.from as int, first.span.to as int, tab as nat));
    }
}

proof fn lemma_inner(s: Seq<u8>, t: Seq<Advance>, i: int)
    requires
        records_ok(s, t),
        1 <= i,
        i + 1 < t.len(),
        !(t[i].lex is Eof),
        !(t[i + 1].lex is Eof),
    ensures
        apart(inner_edits(s, t, i), low(t, i), high(t, i), s),
{
    lemma_record(s, t, i);
    lemma_record(s, t, i + 1);
    let ad = t[i];
    if ad.lex is Whitespace {
        let from = ad.span.from as int;
        let to = ad.span.to as int;
        if !is_one_space(s, from, to) {
            assert(!are_spaces(s, from, to, 1));
        }
    }
}

proof fn lemma_range(s: Seq<u8>, t: Seq<Advance>, i: int, last: int)
    requires
        records_ok(s, t),
        1 <= i < last,
        last + 1 < t.len(),
        forall|k: int| i <= k <= last ==> !(#[trigger] t[k]).lex.ends_line(),
    ensures
        apart(range_edits(s, t, i, last), low(t, i), high(t, last - 1), s),
        low(t, i) <= high(t, last - 1),
    decreases last - i,
{
    assert(!t[i].lex.ends_line());
    assert(!t[i + 1].lex.ends_line());
    lemma_inner(s, t, i);
    lemma_record(s, t, i);
    if i + 1 < last {
        lemma_range(s, t, i + 1, last);
        lemma_apart_concat(
            inner_edits(s, t, i),
            range_edits(s, t, i + 1, last),
            low(t, i),
            high(t, i),
            low(t, i + 1),
            high(t, last - 1),
            s,
        );
    } else {
        assert(range_edits(s, t, i + 1, last) =~= Seq::<EditText>::empty());
        assert(range_edits(s, t, i, last) =~= inner_edits(s, t, i));
    }
}

proof fn lemma_tail(s: Seq<u8>, t: Seq<Advance>, e: int, kind: LineKind)
    requires
        records_ok(s, t),
        1 <= e < t.len(),
        t[e].lex is Eol,
        !t[e - 1].lex.ends_line(),
    ensures
        apart(tail_edits(s, t[e - 1], t[e], kind), low(t, e - 1), 2 * t[e - 1].span.to, s),
{
    lemma_record(s, t, e - 1);
    lemma_record(s, t, e);
    let last = t[e - 1];
    if last.lex is Whitespace {
        let from = last.span.from as int;
        let to = last.span.to as int;
        if !is_one_space(s, from, to) {
            assert(!are_spaces(s, from, to, 1));
        }
    }
}

/// A run of whitespace does not go past a newline.
pub proof fn lemma_ws_stops(s: Seq<u8>, i: int, p: int)
    requires
        0 <= i <= p < s.len(),
        s[p] == NEWLINE,
    ensures
        ws_end(s, i) <= p,
    decreases p - i,
{
    if ws_len(s, i) > 0 {
        lemma_ws_stops(s, i + ws_len(s, i), p);
    }
}

/// The whitespace that runs up to `end` is a run of its own.
pub proof fn lemma_trail_run(s: Seq<u8>, i: int, end: int)
    requires
        0 <= i <= end <= s.len(),
        end < s.len() ==> s[end] == NEWLINE,
        trail_start(s, i, end) < end,
    ensures
        is_ws_run(s, trail_start(s, i, end), end),
    decreases end - i,
{
    if i >= end {
    } else if ws_len(s, i) > 0 {
        lemma_ws_end_bounds(s, i);
        if ws_end(s, i) >= end {
            if end < s.len() {
                lemma_ws_stops(s, i, end);
            }
        } else {
            lemma_trail_run(s, ws_end(s, i), end);
        }
    } else {
        lemma_trail_run(s, i + 1, end);
    }
}

proof fn lemma_comment(s: Seq<u8>, t: Seq<Advance>, e: int)
    requires
        records_ok(s, t),
        0 <= e < t.len(),
        t[e].lex is Eol,
    ensures
        apart(
            comment_edits(s, t[e]),
            2 * t[e].span.from + 1,
            if t[e].span.to == s.len() {
                2 * (s.len() as int)
            } else {
                2 * t[e].span.to - 1
            },
            s,
        ),
{
    let eol = t[e];
    lemma_record(s, t, e);
    assert(is_token_of(s, eol));
    if eol.lex == Lexeme::Eol(true) {
        let from = eol.span.from as int;
        let to = eol.span.to as int;
        let start = from + 1;
        let end = body_end(s, eol);
        let text = ws_end(s, start);
        lemma_scan_bounds(s, from);
        lemma_run_end_bounds(s, start, ByteClass::NotNewline);
        lemma_ws_end_bounds(s, start);
        assert(start <= end <= to);
        assert(end < s.len() ==> s[end] == NEWLINE);
        assert(to < s.len() ==> end == to - 1);
        if end < s.len() {
            lemma_ws_stops(s, start, end);
        }
        if text >= end {
            if start < end {
                assert(is_ws_run(s, start, end));
                assert(!are_spaces(s, start, end, 0));
            }
        } else {
            lemma_trail_start(s, text, end);
            let trail = trail_start(s, text, end);
            if trail < end {
                lemma_trail_run(s, text, end);
                assert(!are_spaces(s, trail, end, 0));
            }
            if !is_one_space(s, start, text) {
                if start < text {
                    assert(is_ws_run(s, start, text));
                    assert(!are_spaces(s, start, text, 1));
                }
            }
        }
    }
}

/// The upper bound of the edits of the line whose `Eol` is at `e`.
pub open spec fn line_high(s: Seq<u8>, t: Seq<Advance>, e: int) -> int {
    if t[e].span.to == s.len() {
        2 * (s.len() as int)
    } else {
        2 * t[e].span.to - 1
    }
}

/// Records come in the order of the text.
pub proof fn lemma_order(s: Seq<u8>, t: Seq<Advance>, a: int, b: int)
    requires
        records_ok(s, t),
        0 <= a <= b < t.len(),
    ensures
        t[a].span.from <= t[b].span.from,
        a < b ==> t[a].span.to <= t[b].span.from,
    decreases b - a,
{
    assert(is_token_of(s, t[a]));
    assert(is_token_of(s, t[b]));
    if a < b {
        lemma_order(s, t, a, b - 1);
        assert(follows(t[b - 1], t[b]));
        assert(is_token_of(s, t[b - 1]));
    }
}

/// The upper bound of the edit at the start of a line.
pub open spec fn lead_high(t: Seq<Advance>, a: int, e: int) -> int {
    if t[a].lex is Whitespace && e - a > 1 {
        2 * t[a].span.to
    } else if t[a].lex is Whitespace {
        2 * t[a].span.from - 1
    } else {
        2 * t[a].span.from
    }
}

/// The edits of a line before those at its last record.
proof fn lemma_front(s: Seq<u8>, t: Seq<Advance>, a: int, e: int, kind: LineKind, tab: u32)
    requires
        records_ok(s, t),
        0 <= a < e < t.len(),
        t[e].lex is Eol,
        forall|k: int| a <= k < e ==> !(#[trigger] t[k]).lex.ends_line(),
    ensures
        ({
            let range = if kind != LineKind::NoOp {
                range_edits(s, t, a + 1, e - 1)
            } else {
                Seq::empty()
            };
            let hi = if e - a > 2 {
                high(t, e - 2)
            } else {
                lead_high(t, a, e)
            };
            &&& apart(lead_edits(t[a], e - a, kind, tab) + range, 2 * t[a].span.from, hi, s)
            &&& 2 * t[a].span.from - 1 <= hi < low(t, e - 1)
        }),
{
    let lead = lead_edits(t[a], e - a, kind, tab);
    let range = if kind != LineKind::NoOp {
        range_edits(s, t, a + 1, e - 1)
    } else {
        Seq::empty()
    };
    let lo = 2 * t[a].span.from;
    assert(!t[a].lex.ends_line());
    assert(!t[e - 1].lex.ends_line());
    lemma_record(s, t, a);
    lemma_record(s, t, e - 1);
    lemma_lead(s, t, a, e - a, kind, tab);
    if e - a > 2 {
        lemma_range(s, t, a + 1, e - 1);
        lemma_record(s, t, e - 2);
        lemma_order(s, t, a, a + 1);
        let range_lo = low(t, a + 1);
        let range_hi = high(t, e - 2);
        lemma_apart_empty(range_lo, range_hi, s);
        lemma_apart_concat(lead, range, lo - 1, lead_high(t, a, e), range_lo, range_hi, s);
        let all = lead + range;
        assert forall|k: int| 0 <= k < all.len() implies lo <= 2 * (#[trigger] all[k]).span.from by {
            if k < lead.len() {
                assert(all[k] == lead[k]);
            } else {
                assert(all[k] == range[k - lead.len()]);
            }
        }
    } else {
        assert(range_edits(s, t, a + 1, e - 1) =~= Seq::<EditText>::empty());
        assert(lead + range =~= lead);
    }
}

proof fn lemma_line(
    s: Seq<u8>,
    t: Seq<Advance>,
    a: int,
    e: int,
    kinds: Seq<LineKind>,
    skip: Set<u32>,
    tab: u32,
)
    requires
        records_ok(s, t),
        0 <= a <= e < t.len(),
        t[e].lex is Eol,
        forall|k: int| a <= k < e ==> !(#[trigger] t[k]).lex.ends_line(),
    ensures
        apart(
            line_edits(s, t, a, e, kinds, skip, tab),
            2 * t[a].span.from,
            line_high(s, t, e),
            s,
        ),
        2 * t[a].span.from <= line_high(s, t, e),
{
    let line = t[a].line as int;
    let lo = 2 * t[a].span.from;
    let hi = line_high(s, t, e);
    lemma_record(s, t, a);
    lemma_record(s, t, e);
    lemma_comment(s, t, e);
    lemma_order(s, t, a, e);
    lemma_apart_empty(lo, hi, s);
    if skip.contains(t[a].line) {
    } else if e == a {
    } else if line >= kinds.len() {
    } else {
        let kind = kinds[line];
        let lead = lead_edits(t[a], e - a, kind, tab);
        let range = if kind != LineKind::NoOp {
            range_edits(s, t, a + 1, e - 1)
        } else {
            Seq::empty()
        };
        let tail = tail_edits(s, t[e - 1], t[e], kind);
        let comment = comment_edits(s, t[e]);
        let front_hi = if e - a > 2 {
            high(t, e - 2)
        } else {
            lead_high(t, a, e)
        };
        assert(!t[e - 1].lex.ends_line());
        lemma_record(s, t, e - 1);
        lemma_order(s, t, a, e - 1);
        lemma_front(s, t, a, e, kind, tab);
        lemma_tail(s, t, e, kind);
        let tail_hi = 2 * t[e - 1].span.to;
        lemma_apart_concat(lead + range, tail, lo - 1, front_hi, low(t, e - 1), tail_hi, s);
        lemma_apart_concat(
            lead + range + tail,
            comment,
            lo - 1,
            tail_hi,
            2 * t[e].span.from + 1,
            hi,
            s,
        );
        let front = lead + range;
        let all = front + tail + comment;
        assert forall|k: int| 0 <= k < all.len() implies lo <= 2 * (#[trigger] all[k]).span.from by {
            if k < front.len() {
                assert(all[k] == front[k]);
            } else if k < front.len() + tail.len() {
                assert(all[k] == tail[k - front.len()]);
            } else {
                assert(all[k] == comment[k - front.len() - tail.len()]);
            }
        }
    }
}

proof fn lemma_edits_from(
    s: Seq<u8>,
    t: Seq<Advance>,
    i: int,
    kinds: Seq<LineKind>,
    skip: Set<u32>,
    tab: u32,
)
    requires
        records_ok(s, t),
        0 <= i < t.len(),
    ensures
        apart(edits_from(s, t, i, kinds, skip, tab), 2 * t[i].span.from, 2 * (s.len() as int), s),
    decreases t.len() - i,
{
    let e = line_stop(t, i);
    lemma_line_stop(t, i);
    lemma_record(s, t, i);
    if t[e].lex is Eol {
        lemma_line(s, t, i, e, kinds, skip, tab);
        lemma_record(s, t, e);
        lemma_edits_from(s, t, e + 1, kinds, skip, tab);
        let here = line_edits(s, t, i, e, kinds, skip, tab);
        let rest = edits_from(s, t, e + 1, kinds, skip, tab);
        if t[e].span.to == s.len() {
            lemma_record(s, t, e + 1);
            assert(t[e + 1].lex is Eof) by {
                assert(is_token_of(s, t[e + 1]));
            }
            assert(line_stop(t, e + 1) == e + 1);
            assert(rest =~= Seq::<EditText>::empty());
            assert(here + rest =~= here);
        } else {
            lemma_apart_concat(
                here,
                rest,
                2 * t[i].span.from,
                line_high(s, t, e),
                2 * t[e + 1].span.from,
                2 * (s.len() as int),
                s,
            );
        }
    }
}

/// Every edit of the canonical layout changes the text, and only
/// whitespace; and at least one byte is kept between two edits.
pub proof fn lemma_edits_effective(s: Seq<u8>, kinds: Seq<LineKind>, skip: Set<u32>, tab: u32)
    requires
        s.len() <= u32::MAX,
    ensures
        apart(edits_of(s, tokens(s), kinds, skip, tab), 0, 2 * (s.len() as int), s),
{
    lemma_records_ok(s);
    crate::tokens::lemma_lex_totality(s);
    lemma_edits_from(s, tokens(s), 0, kinds, skip, tab);
}

/// The number of spaces at the start of the bytes from `a` to `b`.
pub open spec fn lead_spaces(s: Seq<u8>, a: int, b: int) -> int
    decreases b - a,
{
    if a < b && 0 <= a < s.len() && s[a] == SPACE {
        1 + lead_spaces(s, a + 1, b)
    } else {
        0
    }
}

proof fn lemma_lead_spaces(s: Seq<u8>, a: int, b: int)
    requires
        0 <= a <= b <= s.len(),
    ensures
        0 <= lead_spaces(s, a, b) <= b - a,
        forall|k: int| a <= k < a + lead_spaces(s, a, b) ==> s[k] == SPACE,
        a + lead_spaces(s, a, b) < b ==> s[a + lead_spaces(s, a, b)] != SPACE,
    decreases b - a,
{
    if a < b && s[a] == SPACE {
        lemma_lead_spaces(s, a + 1, b);
    }
}

/// Inside a run of whitespace, after spaces, whitespace goes on to the end
/// of the run.
proof fn lemma_run_inside(s: Seq<u8>, a: int, j: int, b: int)
    requires
        0 <= a,
        0 <= j,
        a + j < b <= s.len(),
        ws_end(s, a) == b,
        forall|k: int| a <= k < a + j ==> s[k] == SPACE,
    ensures
        ws_end(s, a + j) == b,
        ws_len(s, a + j) > 0,
        a + j + ws_len(s, a + j) <= b,
    decreases j,
{
    if j > 0 {
        assert(s[a] == SPACE);
        assert(ws_len(s, a) == 1);
        assert forall|k: int| a + 1 <= k < a + 1 + (j - 1) implies s[k] == SPACE by {}
        lemma_run_inside(s, a + 1, j - 1, b);
    } else {
        lemma_ws_end_bounds(s, a + ws_len(s, a));
    }
}

/// The UTF-8 bytes of spaces are as many space bytes.
pub proof fn lemma_space_bytes(n: nat)
    ensures
        encode_utf8(spaces(n)).len() == n,
        forall|i: int| 0 <= i < n ==> encode_utf8(spaces(n))[i] == SPACE,
{
    let chars = spaces(n);
    assert(vstd::utf8::is_ascii_chars(chars));
    vstd::utf8::is_ascii_chars_encode_utf8(chars);
    assert forall|i: int| 0 <= i < n implies encode_utf8(chars)[i] == SPACE by {
        assert(chars[i] == ' ');
        assert(chars[i] as u8 == encode_utf8(chars)[i]);
    }
}

/// How many bytes the text keeps after the `k`-th edit.
pub open spec fn kept_after(s: Seq<u8>, edits: Seq<EditText>, k: int) -> int {
    if k + 1 < edits.len() {
        edits[k + 1].span.from - edits[k].span.to
    } else {
        s.len() - edits[k].span.to
    }
}

/// What follows an edit in the spliced text starts with the bytes that the
/// text keeps after it.
proof fn lemma_rest_head(s: Seq<u8>, edits: Seq<EditText>, k: int)
    requires
        0 <= k < edits.len(),
        edits[k].span.to <= s.len(),
        k + 1 < edits.len() ==> edits[k].span.to <= edits[k + 1].span.from <= s.len(),
    ensures
        splice_from(s, edits, k + 1, edits[k].span.to as int).len() >= kept_after(s, edits, k),
        forall|j: int|
            0 <= j < kept_after(s, edits, k) ==> (#[trigger] splice_from(
                s,
                edits,
                k + 1,
                edits[k].span.to as int,
            )[j]) == s[edits[k].span.to + j],
{
}

/// A character of two or three bytes at a boundary is whole, and no
/// boundary lies inside it.
pub proof fn lemma_wide_char(s: Seq<u8>, b: int)
    requires
        valid_utf8(s),
        0 <= b < s.len(),
        is_char_boundary(s, b),
        s[b] == 0xC2 || s[b] == 0xE2,
    ensures
        s[b] == 0xC2 ==> b + 2 <= s.len() && !is_char_boundary(s, b + 1),
        s[b] == 0xE2 ==> b + 3 <= s.len() && !is_char_boundary(s, b + 1) && !is_char_boundary(
            s,
            b + 2,
        ),
{
    let rest = s.subrange(b, s.len() as int);
    vstd::utf8::valid_utf8_split(s, b);
    assert(vstd::utf8::valid_first_scalar(rest));
    assert(rest[0] == s[b]);
    assert(rest[1] == s[b + 1]);
    is_char_boundary_iff_not_is_continuation_byte(s, b + 1);
    if s[b] == 0xE2 {
        assert(rest[2] == s[b + 2]);
        is_char_boundary_iff_not_is_continuation_byte(s, b + 2);
    }
}

/// Where an edit stands, the spliced text is not the text.
proof fn lemma_edit_differs(s: Seq<u8>, edits: Seq<EditText>, k: int, p: int, lo: int)
    requires
        valid_utf8(s),
        apart(edits, lo, 2 * (s.len() as int), s),
        on_boundaries(edits, s),
        0 <= k < edits.len(),
        0 <= p <= edits[k].span.from,
    ensures
        splice_from(s, edits, k, p) != s.subrange(p, s.len() as int),
{
    let e = edits[k];
    let a = e.span.from as int;
    let b = e.span.to as int;
    let m = e.text.len() as int;
    let len = s.len() as int;
    let pre = s.subrange(p, a);
    let mid = encode_utf8(e.text);
    let rest = splice_from(s, edits, k + 1, b);
    let spliced = splice_from(s, edits, k, p);
    let kept = s.subrange(p, len);
    let at = a - p;
    assert(effective(s, e));
    assert(e.span.fits(s));
    lemma_space_bytes(m as nat);
    if k + 1 < edits.len() {
        assert(edits[k].span.to < edits[k + 1].span.from);
        assert(effective(s, edits[k + 1]));
        assert(edits[k + 1].span.fits(s));
    }
    lemma_rest_head(s, edits, k);
    assert(spliced == pre + mid + rest);
    assert(spliced.len() == at + m + rest.len());
    assert(forall|i: int| 0 <= i < m ==> (#[trigger] mid[i]) == SPACE);
    assert(forall|i: int| at <= i < at + m ==> (#[trigger] spliced[i]) == mid[i - at]);
    assert(forall|i: int|
        at + m <= i < spliced.len() ==> (#[trigger] spliced[i]) == rest[i - at - m]);
    assert(forall|i: int| 0 <= i < kept.len() ==> (#[trigger] kept[i]) == s[p + i]);
    if spliced == kept {
        if a == b {
            if a < len {
                assert(spliced[at] == SPACE);
                assert(kept[at] == s[a]);
            }
        } else {
            lemma_lead_spaces(s, a, b);
            lemma_ws_end_bounds(s, a);
            let c = lead_spaces(s, a, b);
            if c < m {
                if c < b - a {
                    assert(spliced[at + c] == SPACE);
                    assert(kept[at + c] == s[a + c]);
                } else if b < len {
                    assert(spliced[at + (b - a)] == SPACE);
                    assert(kept[at + (b - a)] == s[b]);
                    assert(ws_len(s, b) == 0);
                }
            } else if b - a == m {
                assert(are_spaces(s, a, b, m as nat));
            } else {
                let q = a + m;
                lemma_run_inside(s, a, m, b);
                let width = ws_len(s, q);
                assert(ws_len(s, b) == 0);
                if b < len {
                    assert(kept_after(s, edits, k) >= 1);
                    assert(spliced[at + m] == rest[0]);
                    assert(rest[0] == s[b]);
                    assert(kept[at + m] == s[q]);
                    assert(s[q] == s[b]);
                    assert(s[b] == 0xC2 || s[b] == 0xE2);
                    lemma_wide_char(s, b);
                    if s[b] == 0xC2 {
                        assert(kept_after(s, edits, k) >= 2);
                        assert(spliced[at + m + 1] == rest[1]);
                        assert(rest[1] == s[b + 1]);
                        assert(kept[at + m + 1] == s[q + 1]);
                    } else {
                        assert(kept_after(s, edits, k) >= 3);
                        assert(spliced[at + m + 1] == rest[1]);
                        assert(spliced[at + m + 2] == rest[2]);
                        assert(rest[1] == s[b + 1]);
                        assert(rest[2] == s[b + 2]);
                        assert(kept[at + m + 1] == s[q + 1]);
                        assert(kept[at + m + 2] == s[q + 2]);
                    }
                }
            }
        }
    }
}

/// Minimal edits, for any kinds of lines and any lines left alone: where
/// the canonical layout has an edit, the text that the edits make is not
/// the text. So a text that its edits leave as it is has no edits.
pub proof fn lemma_edits_change(s: Seq<u8>, kinds: Seq<LineKind>, skip: Set<u32>, tab: u32)
    requires
        s.len() <= u32::MAX,
        valid_utf8(s),
        splice(s, edits_of(s, tokens(s), kinds, skip, tab)) == s,
    ensures
        edits_of(s, tokens(s), kinds, skip, tab).len() == 0,
{
    let edits = edits_of(s, tokens(s), kinds, skip, tab);
    lemma_edits_effective(s, kinds, skip, tab);
    lemma_edits_in_order(s, kinds, skip, tab);
    if edits.len() > 0 {
        assert(0 <= 2 * edits[0].span.from);
        lemma_edit_differs(s, edits, 0, 0, 0);
        assert(s.subrange(0, s.len() as int) =~= s);
    }
}

/// Minimal edits: a UTF-8 text that equals its own formatting has no
/// edits.
pub proof fn lemma_minimal_edits(s: Seq<u8>, tab: u32)
    requires
        s.len() <= u32::MAX,
        valid_utf8(s),
        formatted(s, tab) == s,
    ensures
        format_edits(s, tab).len() == 0,
{
    lemma_edits_change(s, crate::layout::parsed_kinds(s), crate::layout::parsed_error_lines(s), tab);
}

} // verus!
