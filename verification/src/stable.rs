//! The formatted text formatted again: nothing is left to change.

use vstd::prelude::*;
use vstd::utf8::valid_utf8;

use crate::address::{lemma_line_content, starts_line};
use crate::atoms::lines_of;
use crate::grammar::{lemma_line_stop, lemma_skip_ws, line_stop, parse_text, skip_ws};
use crate::layout::{
    body_end, comment_edits, edits_from, format_edits, formatted, inner_edits, is_one_space,
    kind_of, lead_edits, line_edits, parsed_error_lines, parsed_kinds, range_edits, splice,
    splice_from, tail_edits, EditText, LineKind,
};
use crate::lexeme::{Advance, Lexeme};
use crate::minimal::{effective, lemma_edits_effective};
use crate::order::{
    lemma_comment, lemma_edits_from, lemma_edits_in_order, lemma_records_ok, records_ok,
};
use crate::reformat::{
    laid_out, lemma_preserves_parse, lemma_split, lemma_step_plain, lemma_step_spaces,
    lemma_step_ws, suffix,
};
use crate::rescan::lemma_scan_comment;
use crate::scan::{
    lemma_scan_bounds, lemma_ws_end_bounds, scan_end, scan_kind, NEWLINE, SEMICOLON, SPACE,
};
use crate::shape::{commas_ok, is_comma, is_tight, lemma_line_shape, lex_after};
use crate::shift::lemma_scan_shift;
use crate::sites::{lemma_edits_placed, placed_at};
use crate::tokens::{follows, is_token_of, lemma_line_bookkeeping, tokens};
use crate::trail::{kept_from, lemma_comment_parts, lemma_tidy, lemma_tidy_quiet, tidy};

verus! {

/// Splicing with the edits that follow some others is splicing with them
/// alone.
pub proof fn lemma_drop(s: Seq<u8>, a: Seq<EditText>, b: Seq<EditText>, k: int, p: int)
    requires
        0 <= k <= b.len(),
    ensures
        splice_from(s, a + b, a.len() + k, p) == splice_from(s, b, k, p),
    decreases b.len() - k,
{
    if k < b.len() {
        assert((a + b)[a.len() + k] == b[k]);
        lemma_drop(s, a, b, k + 1, b[k].span.to as int);
    }
}

/// What is known of some edits is known of those that come last among
/// them.
pub proof fn lemma_laid_suffix(s: Seq<u8>, t: Seq<Advance>, a: Seq<EditText>, b: Seq<EditText>)
    requires
        laid_out(s, t, a + b),
    ensures
        laid_out(s, t, b),
{
    let all = a + b;
    let hi = 2 * (s.len() as int);
    assert forall|k: int| 0 <= k < b.len() implies effective(s, #[trigger] b[k]) && 0 <= 2
        * b[k].span.from && 2 * b[k].span.to <= hi && placed_at(s, t, b[k]) && b[k].span.fits(
        s,
    ) by {
        assert(all[a.len() + k] == b[k]);
    }
    assert forall|k: int, l: int| 0 <= k < l < b.len() implies (#[trigger] b[k]).span.to < (
    #[trigger] b[l]).span.from by {
        assert(all[a.len() + k] == b[k]);
        assert(all[a.len() + l] == b[l]);
    }
}

/// A line of the text: its first record, its line end, its kind, and
/// whether it is formatted at all.
pub struct LineCx {
    pub a: int,
    pub e: int,
    pub kind: LineKind,
    pub fmt: bool,
    pub tab: u32,
}

/// The records from `a` to `e` are a line of `t`.
pub open spec fn is_line(t: Seq<Advance>, cx: LineCx) -> bool {
    &&& 0 <= cx.a <= cx.e
    &&& cx.e + 1 < t.len()
    &&& t[cx.e].lex is Eol
    &&& forall|k: int| cx.a <= k < cx.e ==> !(#[trigger] t[k]).lex.ends_line()
}

/// The edits at the record at `i` of the line, before its line end.
pub open spec fn own_edits(s: Seq<u8>, t: Seq<Advance>, cx: LineCx, i: int) -> Seq<EditText> {
    if !cx.fmt {
        Seq::empty()
    } else {
        (if i == cx.a {
            lead_edits(t[cx.a], cx.e - cx.a, cx.kind, cx.tab)
        } else {
            Seq::empty()
        }) + (if cx.a < i < cx.e - 1 && cx.kind != LineKind::NoOp {
            inner_edits(s, t, i)
        } else {
            Seq::empty()
        }) + (if i == cx.e - 1 {
            tail_edits(s, t[cx.e - 1], t[cx.e], cx.kind)
        } else {
            Seq::empty()
        })
    }
}

/// The edits of the line end.
pub open spec fn end_edits(s: Seq<u8>, t: Seq<Advance>, cx: LineCx) -> Seq<EditText> {
    if cx.fmt {
        comment_edits(s, t[cx.e])
    } else {
        Seq::empty()
    }
}

/// The edits from the record at `i` of the line on, and then `rest`.
pub open spec fn remaining(
    s: Seq<u8>,
    t: Seq<Advance>,
    cx: LineCx,
    i: int,
    rest: Seq<EditText>,
) -> Seq<EditText>
    decreases cx.e - i,
{
    if i >= cx.e {
        end_edits(s, t, cx) + rest
    } else {
        own_edits(s, t, cx, i) + remaining(s, t, cx, i + 1, rest)
    }
}

proof fn lemma_remaining_range(s: Seq<u8>, t: Seq<Advance>, cx: LineCx, i: int, rest: Seq<EditText>)
    requires
        cx.fmt,
        cx.a < i <= cx.e - 1,
    ensures
        remaining(s, t, cx, i, rest) == (if cx.kind != LineKind::NoOp {
            range_edits(s, t, i, cx.e - 1)
        } else {
            Seq::empty()
        }) + tail_edits(s, t[cx.e - 1], t[cx.e], cx.kind) + comment_edits(s, t[cx.e]) + rest,
    decreases cx.e - i,
{
    let tail = tail_edits(s, t[cx.e - 1], t[cx.e], cx.kind);
    let end = comment_edits(s, t[cx.e]);
    let own = own_edits(s, t, cx, i);
    if i == cx.e - 1 {
        assert(remaining(s, t, cx, i + 1, rest) == end + rest);
        assert(own =~= tail);
        assert(range_edits(s, t, i, cx.e - 1) =~= Seq::<EditText>::empty());
        assert(own + (end + rest) =~= Seq::<EditText>::empty() + tail + end + rest);
    } else {
        lemma_remaining_range(s, t, cx, i + 1, rest);
        if cx.kind != LineKind::NoOp {
            assert(own =~= inner_edits(s, t, i));
            assert(range_edits(s, t, i, cx.e - 1) == inner_edits(s, t, i) + range_edits(
                s,
                t,
                i + 1,
                cx.e - 1,
            ));
            assert(own + (range_edits(s, t, i + 1, cx.e - 1) + tail + end + rest) =~= range_edits(
                s,
                t,
                i,
                cx.e - 1,
            ) + tail + end + rest);
        } else {
            assert(own =~= Seq::<EditText>::empty());
            assert(own + (Seq::<EditText>::empty() + tail + end + rest) =~= Seq::<
                EditText,
            >::empty() + tail + end + rest);
        }
    }
}

/// The edits of a line, record by record.
pub proof fn lemma_remaining(
    s: Seq<u8>,
    t: Seq<Advance>,
    cx: LineCx,
    kinds: Seq<LineKind>,
    skip: Set<u32>,
    rest: Seq<EditText>,
)
    requires
        is_line(t, cx),
        cx.fmt == !skip.contains(t[cx.a].line),
        cx.fmt && cx.a < cx.e ==> t[cx.a].line < kinds.len() && cx.kind == kinds[t[cx.a].line
            as int],
    ensures
        line_edits(s, t, cx.a, cx.e, kinds, skip, cx.tab) + rest == remaining(s, t, cx, cx.a, rest),
{
    let a = cx.a;
    let e = cx.e;
    let all = line_edits(s, t, a, e, kinds, skip, cx.tab);
    if !cx.fmt {
        lemma_remaining_plain(s, t, cx, a, rest);
        assert(all == Seq::<EditText>::empty());
        assert(all + rest =~= rest);
    } else if a == e {
        assert(all == comment_edits(s, t[e]));
    } else {
        let lead = lead_edits(t[a], e - a, cx.kind, cx.tab);
        let range = if cx.kind != LineKind::NoOp {
            range_edits(s, t, a + 1, e - 1)
        } else {
            Seq::empty()
        };
        let tail = tail_edits(s, t[e - 1], t[e], cx.kind);
        let end = comment_edits(s, t[e]);
        let own = own_edits(s, t, cx, a);
        let next = remaining(s, t, cx, a + 1, rest);
        assert(all == lead + range + tail + end);
        assert(remaining(s, t, cx, a, rest) == own + next);
        if a == e - 1 {
            assert(next == end + rest);
            assert(range_edits(s, t, a + 1, e - 1) =~= Seq::<EditText>::empty());
            assert(range =~= Seq::<EditText>::empty());
            assert(own =~= lead + tail);
            assert((lead + range + tail + end) + rest =~= (lead + tail) + (end + rest));
        } else {
            lemma_remaining_range(s, t, cx, a + 1, rest);
            assert(next == range + tail + end + rest);
            assert(own =~= lead);
            assert((lead + range + tail + end) + rest =~= lead + (range + tail + end + rest));
        }
    }
}

proof fn lemma_remaining_plain(s: Seq<u8>, t: Seq<Advance>, cx: LineCx, i: int, rest: Seq<EditText>)
    requires
        !cx.fmt,
        i <= cx.e,
    ensures
        remaining(s, t, cx, i, rest) == rest,
    decreases cx.e - i,
{
    if i < cx.e {
        lemma_remaining_plain(s, t, cx, i + 1, rest);
        assert(Seq::<EditText>::empty() + rest =~= rest);
    } else {
        assert(Seq::<EditText>::empty() + rest =~= rest);
    }
}

/// The record at `j` of the formatted text `z` stands where the record at
/// `i` of the text stood: from there on `z` is the text from that record
/// on, changed by the edits `r`.
pub open spec fn lines_up(
    s: Seq<u8>,
    t: Seq<Advance>,
    r: Seq<EditText>,
    i: int,
    z: Seq<u8>,
    u: Seq<Advance>,
    j: int,
) -> bool {
    &&& 0 <= i < t.len()
    &&& 0 <= j < u.len()
    &&& laid_out(s, t, r)
    &&& suffix(z, u[j].span.from as int) == splice_from(s, r, 0, t[i].span.from as int)
    &&& u[j].line == t[i].line
}

/// The record of `z` that stands where the text `x` starts in it is the
/// first token of `x`, and the next record stands where the rest of `x`
/// starts.
pub proof fn lemma_record_at(z: Seq<u8>, u: Seq<Advance>, j: int, x: Seq<u8>, n: int)
    requires
        records_ok(z, u),
        0 <= j < u.len(),
        x == suffix(z, u[j].span.from as int),
        0 < n <= x.len(),
        scan_end(x, 0) == n,
    ensures
        u[j].lex == scan_kind(x, 0),
        u[j].span.to == u[j].span.from + n,
        j + 1 < u.len(),
        follows(u[j], u[j + 1]),
        suffix(z, u[j + 1].span.from as int) == x.subrange(n, x.len() as int),
        forall|k: int| 0 <= k < n ==> z[u[j].span.from + k] == #[trigger] x[k],
        forall|k: int|
            u[j].span.from <= k < u[j].span.from + n ==> #[trigger] z[k] == x[k - u[j].span.from],
{
    let p = u[j].span.from as int;
    assert(is_token_of(z, u[j]));
    let pre = z.subrange(0, p);
    assert(pre + x =~= z);
    lemma_scan_shift(pre, x, 0);
    assert(follows(u[j], u[j + 1]));
    assert(suffix(z, p + n) =~= x.subrange(n, x.len() as int));
}

/// The record is whitespace of `m` spaces.
pub open spec fn blank(z: Seq<u8>, ad: Advance, m: int) -> bool {
    &&& ad.lex is Whitespace
    &&& ad.span.to - ad.span.from == m
    &&& forall|k: int| ad.span.from <= k < ad.span.to ==> z[k] == SPACE
}

/// The record `b` of `z` has the kind and the bytes of the record `a` of
/// `s`.
pub open spec fn same(z: Seq<u8>, b: Advance, s: Seq<u8>, a: Advance) -> bool {
    &&& b.lex == a.lex
    &&& b.span.to - b.span.from == a.span.to - a.span.from
    &&& z.subrange(b.span.from as int, b.span.to as int) == s.subrange(
        a.span.from as int,
        a.span.to as int,
    )
}

/// No edit from the record at `i` of the line on starts before it.
pub proof fn lemma_remaining_low(
    s: Seq<u8>,
    t: Seq<Advance>,
    cx: LineCx,
    i: int,
    rest: Seq<EditText>,
)
    requires
        records_ok(s, t),
        is_line(t, cx),
        cx.a <= i <= cx.e,
        rest.len() > 0 ==> t[cx.e].span.to <= rest[0].span.from,
    ensures
        remaining(s, t, cx, i, rest).len() > 0 ==> t[i].span.from <= remaining(
            s,
            t,
            cx,
            i,
            rest,
        )[0].span.from,
    decreases cx.e - i,
{
    assert(is_token_of(s, t[i]));
    if i >= cx.e {
        let end = end_edits(s, t, cx);
        if end.len() > 0 {
            lemma_comment(s, t[cx.e]);
            assert((end + rest)[0] == end[0]);
        } else {
            assert(end + rest =~= rest);
        }
    } else {
        let own = own_edits(s, t, cx, i);
        let next = remaining(s, t, cx, i + 1, rest);
        lemma_remaining_low(s, t, cx, i + 1, rest);
        assert(follows(t[i], t[i + 1]));
        if own.len() > 0 {
            assert((own + next)[0] == own[0]);
        } else {
            assert(own + next =~= next);
        }
    }
}

/// Spaces are put before the record at `i`.
pub open spec fn has_pre(s: Seq<u8>, t: Seq<Advance>, cx: LineCx, i: int) -> bool {
    let d = own_edits(s, t, cx, i);
    d.len() > 0 && d[0].span.to == t[i].span.from
}

/// Spaces are put after the record at `i`.
pub open spec fn has_post(s: Seq<u8>, t: Seq<Advance>, cx: LineCx, i: int) -> bool {
    let d = own_edits(s, t, cx, i);
    d.len() > 0 && d.last().span.from == t[i].span.to
}

/// The whitespace at `i` is replaced.
pub open spec fn is_set(s: Seq<u8>, t: Seq<Advance>, cx: LineCx, i: int) -> bool {
    t[i].lex is Whitespace && own_edits(s, t, cx, i).len() > 0
}

/// The whitespace at `i` is taken out.
pub open spec fn is_gone(s: Seq<u8>, t: Seq<Advance>, cx: LineCx, i: int) -> bool {
    is_set(s, t, cx, i) && own_edits(s, t, cx, i)[0].text.len() == 0
}

/// How many records of the formatted text the record at `i` makes.
pub open spec fn cells(s: Seq<u8>, t: Seq<Advance>, cx: LineCx, i: int) -> int {
    (if has_pre(s, t, cx, i) {
        1int
    } else {
        0int
    }) + (if is_gone(s, t, cx, i) {
        0int
    } else {
        1int
    }) + (if has_post(s, t, cx, i) {
        1int
    } else {
        0int
    })
}

/// The edits at a record: at most one that replaces it, if it is
/// whitespace; else at most one that puts spaces before it and one that
/// puts spaces after it.
pub open spec fn own_shape(t: Seq<Advance>, i: int, d: Seq<EditText>) -> bool {
    let p = t[i].span.from;
    let q = t[i].span.to;
    if t[i].lex is Whitespace {
        d.len() <= 1 && (d.len() == 1 ==> d[0].span.from == p && d[0].span.to == q)
    } else {
        &&& d.len() <= 2
        &&& d.len() == 2 ==> d[0].span.from == p && d[0].span.to == p && d[1].span.from == q
            && d[1].span.to == q
        &&& d.len() == 1 ==> (d[0].span.from == p && d[0].span.to == p) || (d[0].span.from == q
            && d[0].span.to == q)
    }
}

pub proof fn lemma_own_shape(s: Seq<u8>, t: Seq<Advance>, cx: LineCx, i: int)
    requires
        records_ok(s, t),
        is_line(t, cx),
        cx.a <= i < cx.e,
    ensures
        own_shape(t, i, own_edits(s, t, cx, i)),
{
    let d = own_edits(s, t, cx, i);
    assert(is_token_of(s, t[i]));
    assert(!t[i].lex.ends_line());
    if cx.fmt {
        let lead = if i == cx.a {
            lead_edits(t[cx.a], cx.e - cx.a, cx.kind, cx.tab)
        } else {
            Seq::empty()
        };
        let inner = if cx.a < i < cx.e - 1 && cx.kind != LineKind::NoOp {
            inner_edits(s, t, i)
        } else {
            Seq::empty()
        };
        let tail = if i == cx.e - 1 {
            tail_edits(s, t[cx.e - 1], t[cx.e], cx.kind)
        } else {
            Seq::empty()
        };
        assert(d == lead + inner + tail);
        assert(lead.len() <= 1 && inner.len() <= 1 && tail.len() <= 1);
        assert(inner.len() == 1 ==> lead.len() == 0 && tail.len() == 0);
        if inner.len() == 1 {
            assert(d =~= inner);
        } else if lead.len() == 1 {
            if tail.len() == 1 {
                assert(d =~= seq![lead[0], tail[0]]);
            } else {
                assert(d =~= lead);
            }
        } else {
            assert(d =~= tail);
        }
    }
}

/// What `lemma_emit` states of the record at `i`, which stands at `j` in
/// the formatted text.
pub open spec fn emitted(
    s: Seq<u8>,
    t: Seq<Advance>,
    cx: LineCx,
    rest: Seq<EditText>,
    i: int,
    z: Seq<u8>,
    u: Seq<Advance>,
    j: int,
) -> bool {
    let d = own_edits(s, t, cx, i);
    let c = cells(s, t, cx, i);
    let pre = has_pre(s, t, cx, i);
    let own = if pre {
        j + 1
    } else {
        j
    };
    &&& own_shape(t, i, d)
    &&& lines_up(s, t, remaining(s, t, cx, i + 1, rest), i + 1, z, u, j + c)
    &&& forall|k: int| j <= k < j + c ==> !(#[trigger] u[k]).lex.ends_line()
    &&& pre ==> blank(z, u[j], d[0].text.len() as int)
    &&& !is_gone(s, t, cx, i) ==> if is_set(s, t, cx, i) {
        blank(z, u[own], d[0].text.len() as int)
    } else {
        same(z, u[own], s, t[i])
    }
    &&& has_post(s, t, cx, i) ==> blank(z, u[j + c - 1], d.last().text.len() as int)
}

/// The spaces of the edit at `k`, which stands at the start of the record
/// at `i`, are a record of the formatted text.
proof fn lemma_cell_spaces(
    s: Seq<u8>,
    t: Seq<Advance>,
    r: Seq<EditText>,
    i: int,
    k: int,
    z: Seq<u8>,
    u: Seq<Advance>,
    j: int,
)
    requires
        laid_out(s, t, r),
        records_ok(z, u),
        0 <= i < t.len(),
        0 <= j < u.len(),
        0 <= k < r.len(),
        suffix(z, u[j].span.from as int) == splice_from(s, r, k, t[i].span.from as int),
        r[k].span.from == t[i].span.from,
        r[k].span.to == t[i].span.from || t[i].lex is Whitespace,
        r[k].text.len() > 0,
    ensures
        blank(z, u[j], r[k].text.len() as int),
        j + 1 < u.len(),
        follows(u[j], u[j + 1]),
        suffix(z, u[j + 1].span.from as int) == splice_from(s, r, k + 1, r[k].span.to as int),
        k + 1 < r.len() ==> r[k].span.to < r[k + 1].span.from,
{
    let x = splice_from(s, r, k, t[i].span.from as int);
    lemma_step_spaces(s, t, r, i, k);
    lemma_record_at(z, u, j, x, r[k].text.len() as int);
}

/// The record at `i`, kept, is a record of the formatted text.
proof fn lemma_cell_kept(
    s: Seq<u8>,
    t: Seq<Advance>,
    r: Seq<EditText>,
    i: int,
    k: int,
    z: Seq<u8>,
    u: Seq<Advance>,
    j: int,
)
    requires
        laid_out(s, t, r),
        records_ok(z, u),
        0 <= i,
        i + 1 < t.len(),
        0 <= j < u.len(),
        0 <= k <= r.len(),
        suffix(z, u[j].span.from as int) == splice_from(s, r, k, t[i].span.from as int),
        t[i].lex != Lexeme::Eol(true),
        k < r.len() ==> t[i].span.to <= r[k].span.from,
    ensures
        same(z, u[j], s, t[i]),
        j + 1 < u.len(),
        follows(u[j], u[j + 1]),
        suffix(z, u[j + 1].span.from as int) == splice_from(s, r, k, t[i].span.to as int),
{
    let p = t[i].span.from as int;
    let q = t[i].span.to as int;
    let x = splice_from(s, r, k, p);
    assert(is_token_of(s, t[i]));
    lemma_scan_bounds(s, p);
    if t[i].lex is Whitespace {
        lemma_step_ws(s, t, r, i, k);
    } else {
        lemma_step_plain(s, t, r, i, k);
    }
    lemma_record_at(z, u, j, x, q - p);
    assert(z.subrange(u[j].span.from as int, u[j].span.to as int) =~= s.subrange(p, q));
}

proof fn lemma_emit_ws(
    s: Seq<u8>,
    t: Seq<Advance>,
    cx: LineCx,
    rest: Seq<EditText>,
    i: int,
    z: Seq<u8>,
    u: Seq<Advance>,
    j: int,
)
    requires
        records_ok(s, t),
        valid_utf8(s),
        records_ok(z, u),
        is_line(t, cx),
        cx.a <= i < cx.e,
        rest.len() > 0 ==> t[cx.e].span.to <= rest[0].span.from,
        lines_up(s, t, remaining(s, t, cx, i, rest), i, z, u, j),
        t[i].lex is Whitespace,
    ensures
        emitted(s, t, cx, rest, i, z, u, j),
{
    let p = t[i].span.from as int;
    let q = t[i].span.to as int;
    let d = own_edits(s, t, cx, i);
    let r = remaining(s, t, cx, i, rest);
    let r2 = remaining(s, t, cx, i + 1, rest);
    assert(r == d + r2);
    lemma_own_shape(s, t, cx, i);
    lemma_laid_suffix(s, t, d, r2);
    lemma_remaining_low(s, t, cx, i + 1, rest);
    assert(follows(t[i], t[i + 1]));
    assert(!has_pre(s, t, cx, i));
    assert(!has_post(s, t, cx, i));
    if d.len() == 0 {
        assert(r =~= r2);
        lemma_cell_kept(s, t, r, i, 0, z, u, j);
    } else {
        assert(r[0] == d[0]);
        lemma_drop(s, d, r2, 0, q);
        if d[0].text.len() > 0 {
            lemma_cell_spaces(s, t, r, i, 0, z, u, j);
        } else {
            lemma_step_spaces(s, t, r, i, 0);
        }
    }
}

proof fn lemma_emit_word(
    s: Seq<u8>,
    t: Seq<Advance>,
    cx: LineCx,
    rest: Seq<EditText>,
    i: int,
    z: Seq<u8>,
    u: Seq<Advance>,
    j: int,
)
    requires
        records_ok(s, t),
        valid_utf8(s),
        records_ok(z, u),
        is_line(t, cx),
        cx.a <= i < cx.e,
        rest.len() > 0 ==> t[cx.e].span.to <= rest[0].span.from,
        lines_up(s, t, remaining(s, t, cx, i, rest), i, z, u, j),
        !(t[i].lex is Whitespace),
    ensures
        emitted(s, t, cx, rest, i, z, u, j),
{
    let p = t[i].span.from as int;
    let q = t[i].span.to as int;
    let d = own_edits(s, t, cx, i);
    let r = remaining(s, t, cx, i, rest);
    let r2 = remaining(s, t, cx, i + 1, rest);
    assert(r == d + r2);
    lemma_own_shape(s, t, cx, i);
    lemma_laid_suffix(s, t, d, r2);
    lemma_remaining_low(s, t, cx, i + 1, rest);
    assert(is_token_of(s, t[i]));
    assert(follows(t[i], t[i + 1]));
    assert(!t[i].lex.ends_line());
    assert forall|k: int| 0 <= k < d.len() implies r[k] == d[k] by {}
    let pre = has_pre(s, t, cx, i);
    let post = has_post(s, t, cx, i);
    let k1: int = if pre {
        1
    } else {
        0
    };
    let j1 = j + k1;
    if pre {
        assert(effective(s, r[0]));
        lemma_cell_spaces(s, t, r, i, 0, z, u, j);
    }
    if r.len() > k1 && d.len() == k1 {
        assert(r[k1] == r2[0]);
    }
    lemma_cell_kept(s, t, r, i, k1, z, u, j1);
    lemma_drop(s, d, r2, 0, q);
    if post {
        assert(d.len() == k1 + 1);
        assert(effective(s, r[k1]));
        lemma_cell_spaces(s, t, r, i + 1, k1, z, u, j1 + 1);
    } else {
        assert(d.len() == k1);
    }
}

/// The records that the record at `i` of a line makes in the formatted
/// text: spaces before it where some are put there; itself, or the spaces
/// that replace it; and spaces after it where some are put there.
pub proof fn lemma_emit(
    s: Seq<u8>,
    t: Seq<Advance>,
    cx: LineCx,
    rest: Seq<EditText>,
    i: int,
    z: Seq<u8>,
    u: Seq<Advance>,
    j: int,
)
    requires
        records_ok(s, t),
        valid_utf8(s),
        records_ok(z, u),
        is_line(t, cx),
        cx.a <= i < cx.e,
        rest.len() > 0 ==> t[cx.e].span.to <= rest[0].span.from,
        lines_up(s, t, remaining(s, t, cx, i, rest), i, z, u, j),
    ensures
        emitted(s, t, cx, rest, i, z, u, j),
{
    if t[i].lex is Whitespace {
        lemma_emit_ws(s, t, cx, rest, i, z, u, j);
    } else {
        lemma_emit_word(s, t, cx, rest, i, z, u, j);
    }
}

/// Spaces are put before the record at `i`: it starts an instruction
/// that is not indented.
pub open spec fn pre_rule(t: Seq<Advance>, cx: LineCx, i: int) -> bool {
    cx.fmt && i == cx.a && cx.a < cx.e && cx.kind == LineKind::Instruction && cx.tab > 0 && !(
    t[i].lex is Whitespace)
}

/// A space is put after the record at `i`: a comma inside the line
/// that no whitespace follows, or the last record before a comment.
pub open spec fn post_rule(t: Seq<Advance>, cx: LineCx, i: int) -> bool {
    &&& cx.fmt
    &&& cx.kind != LineKind::NoOp
    &&& !(t[i].lex is Whitespace)
    &&& if i == cx.e - 1 {
        t[cx.e].lex == Lexeme::Eol(true)
    } else {
        cx.a < i < cx.e - 1 && t[i].lex is Comma && !(t[i + 1].lex is Whitespace)
    }
}

/// How many spaces the whitespace before the line end is set to, if it is
/// not kept.
pub open spec fn last_rule(s: Seq<u8>, t: Seq<Advance>, cx: LineCx, i: int) -> Option<int> {
    if t[cx.e].lex != Lexeme::Eol(true) || cx.kind == LineKind::NoOp {
        Some(0)
    } else if !is_one_space(s, t[i].span.from as int, t[i].span.to as int) {
        Some(1)
    } else {
        None
    }
}

/// How many spaces the whitespace at `i` is set to, if it is not kept.
pub open spec fn ws_rule(s: Seq<u8>, t: Seq<Advance>, cx: LineCx, i: int) -> Option<int> {
    if !cx.fmt {
        None
    } else if i == cx.e - 1 {
        last_rule(s, t, cx, i)
    } else if i == cx.a {
        if cx.kind != LineKind::Instruction {
            Some(0)
        } else if t[i].span.to - t[i].span.from != cx.tab {
            Some(cx.tab as int)
        } else {
            None
        }
    } else if cx.kind == LineKind::NoOp {
        None
    } else if is_tight(t[i + 1].lex) || t[i - 1].lex is OpenBracket {
        Some(0)
    } else if !is_one_space(s, t[i].span.from as int, t[i].span.to as int) {
        Some(1)
    } else {
        None
    }
}

/// The rules, and the edits that they make at a record.
pub proof fn lemma_rules(s: Seq<u8>, t: Seq<Advance>, cx: LineCx, i: int)
    requires
        records_ok(s, t),
        is_line(t, cx),
        cx.a <= i < cx.e,
    ensures
        ({
            let d = own_edits(s, t, cx, i);
            &&& own_shape(t, i, d)
            &&& has_pre(s, t, cx, i) == pre_rule(t, cx, i)
            &&& has_post(s, t, cx, i) == post_rule(t, cx, i)
            &&& pre_rule(t, cx, i) ==> d[0].text.len() == cx.tab
            &&& post_rule(t, cx, i) ==> d.last().text.len() == 1
            &&& t[i].lex is Whitespace ==> match ws_rule(s, t, cx, i) {
                Some(m) => d.len() == 1 && d[0].text.len() == m && m >= 0,
                None => d.len() == 0,
            }
        }),
{
    let d = own_edits(s, t, cx, i);
    lemma_own_shape(s, t, cx, i);
    assert(is_token_of(s, t[i]));
    assert(is_token_of(s, t[i + 1]));
    assert(follows(t[i], t[i + 1]));
    assert(!t[i].lex.ends_line());
    if cx.fmt {
        let lead = if i == cx.a {
            lead_edits(t[cx.a], cx.e - cx.a, cx.kind, cx.tab)
        } else {
            Seq::empty()
        };
        let inner = if cx.a < i < cx.e - 1 && cx.kind != LineKind::NoOp {
            inner_edits(s, t, i)
        } else {
            Seq::empty()
        };
        let tail = if i == cx.e - 1 {
            tail_edits(s, t[cx.e - 1], t[cx.e], cx.kind)
        } else {
            Seq::empty()
        };
        assert(d == lead + inner + tail);
        if i + 1 < cx.e {
            assert(!t[i + 1].lex.ends_line());
        }
        if inner.len() == 1 {
            assert(d =~= inner);
        } else if lead.len() == 1 {
            if tail.len() == 1 {
                assert(d =~= seq![lead[0], tail[0]]);
            } else {
                assert(d =~= lead);
            }
        } else {
            assert(d =~= tail);
        }
    }
}

/// No whitespace follows whitespace.
pub proof fn lemma_one_ws(s: Seq<u8>, t: Seq<Advance>, i: int)
    requires
        records_ok(s, t),
        0 <= i,
        i + 1 < t.len(),
        t[i].lex is Whitespace,
    ensures
        !(t[i + 1].lex is Whitespace),
{
    let p = t[i].span.from as int;
    assert(is_token_of(s, t[i]));
    assert(is_token_of(s, t[i + 1]));
    assert(follows(t[i], t[i + 1]));
    lemma_scan_bounds(s, p);
    lemma_ws_end_bounds(s, p);
}

/// The kind of the first record that the records of the line from `i` on
/// make in the formatted text.
pub open spec fn head_lex(s: Seq<u8>, t: Seq<Advance>, cx: LineCx, i: int) -> Lexeme
    decreases cx.e - i,
{
    if i >= cx.e {
        t[cx.e].lex
    } else if pre_rule(t, cx, i) {
        Lexeme::Whitespace
    } else if t[i].lex is Whitespace && ws_rule(s, t, cx, i) == Some(0int) {
        head_lex(s, t, cx, i + 1)
    } else {
        t[i].lex
    }
}

/// Nothing is left to change at the record at `k` of the line of `z` that
/// starts at `ja` and ends at `e2`.
pub open spec fn quiet_at(
    z: Seq<u8>,
    u: Seq<Advance>,
    ja: int,
    e2: int,
    kind: LineKind,
    tab: u32,
    k: int,
) -> bool {
    &&& k == ja ==> lead_edits(u[ja], e2 - ja, kind, tab).len() == 0
    &&& ja < k < e2 - 1 && kind != LineKind::NoOp ==> inner_edits(z, u, k).len() == 0
    &&& k == e2 - 1 ==> tail_edits(z, u[e2 - 1], u[e2], kind).len() == 0
}

/// What the line is known to look like where it is formatted by its kind.
pub open spec fn shaped(t: Seq<Advance>, cx: LineCx) -> bool {
    cx.fmt && cx.kind != LineKind::NoOp ==> commas_ok(t, cx.a, cx.e) && !(t[cx.a].lex
        is Comma)
}

/// The record is whitespace of `m` bytes, a space if `m` is 1.
pub open spec fn cell_ws(z: Seq<u8>, ad: Advance, m: int) -> bool {
    &&& ad.lex is Whitespace
    &&& ad.span.to - ad.span.from == m
    &&& m == 1 ==> is_one_space(z, ad.span.from as int, ad.span.to as int)
}

/// The whitespace at `i` is taken out.
pub open spec fn gone_rule(s: Seq<u8>, t: Seq<Advance>, cx: LineCx, i: int) -> bool {
    t[i].lex is Whitespace && ws_rule(s, t, cx, i) == Some(0int)
}

/// How many records the record at `i` makes, by the rules.
pub open spec fn cells_rule(s: Seq<u8>, t: Seq<Advance>, cx: LineCx, i: int) -> int {
    (if pre_rule(t, cx, i) {
        1int
    } else {
        0int
    }) + (if gone_rule(s, t, cx, i) {
        0int
    } else {
        1int
    }) + (if post_rule(t, cx, i) {
        1int
    } else {
        0int
    })
}

/// The record `ad` of `z` is what the rules make of the record at `i`.
pub open spec fn own_ok(
    s: Seq<u8>,
    t: Seq<Advance>,
    cx: LineCx,
    i: int,
    z: Seq<u8>,
    ad: Advance,
) -> bool {
    if t[i].lex is Whitespace {
        match ws_rule(s, t, cx, i) {
            Some(m) => cell_ws(z, ad, m),
            None => {
                &&& ad.lex is Whitespace
                &&& ad.span.to - ad.span.from == t[i].span.to - t[i].span.from
                &&& is_one_space(z, ad.span.from as int, ad.span.to as int)
                    == is_one_space(s, t[i].span.from as int, t[i].span.to as int)
            },
        }
    } else {
        ad.lex == t[i].lex
    }
}

/// The records of `z` from `j` on are what the rules make of the record
/// at `i`.
pub open spec fn cells_ok(
    s: Seq<u8>,
    t: Seq<Advance>,
    cx: LineCx,
    i: int,
    z: Seq<u8>,
    u: Seq<Advance>,
    j: int,
) -> bool {
    let c = cells_rule(s, t, cx, i);
    let own = if pre_rule(t, cx, i) {
        j + 1
    } else {
        j
    };
    &&& pre_rule(t, cx, i) ==> cell_ws(z, u[j], cx.tab as int)
    &&& !gone_rule(s, t, cx, i) ==> own_ok(s, t, cx, i, z, u[own])
    &&& post_rule(t, cx, i) ==> cell_ws(z, u[j + c - 1], 1)
}

/// What is known of the records around the one at `i`.
pub open spec fn local_ok(t: Seq<Advance>, cx: LineCx, i: int) -> bool {
    let e = cx.e;
    &&& 0 <= cx.a <= i < e
    &&& t[e].lex is Eol
    &&& !t[i].lex.ends_line()
    &&& i + 1 < e ==> !t[i + 1].lex.ends_line()
    &&& i + 2 < e ==> !t[i + 2].lex.ends_line()
    &&& i > cx.a ==> !t[i - 1].lex.ends_line()
    &&& t[i].lex is Whitespace ==> !(t[i + 1].lex is Whitespace)
    &&& i + 1 < e && t[i + 1].lex is Whitespace ==> !(t[i + 2].lex is Whitespace)
    &&& i > cx.a && t[i - 1].lex is Whitespace ==> !(t[i].lex is Whitespace)
    &&& cx.fmt && cx.kind != LineKind::NoOp ==> {
        &&& !(t[cx.a].lex is Comma)
        &&& t[i].lex is Comma ==> !is_tight(
            if t[i + 1].lex is Whitespace {
                t[i + 2].lex
            } else {
                t[i + 1].lex
            },
        )
    }
}

/// The kind `n` is that of the first record that the records after the
/// one at `i` make.
pub open spec fn next_ok(s: Seq<u8>, t: Seq<Advance>, cx: LineCx, i: int, n: Lexeme) -> bool {
    if i + 1 >= cx.e {
        n == t[cx.e].lex
    } else if gone_rule(s, t, cx, i + 1) {
        n == t[i + 2].lex
    } else {
        n == t[i + 1].lex
    }
}

/// Where the walk along a line stands: at the record `i` of the text and
/// the record `j` of the formatted text, whose line starts at `ja`.
pub open spec fn walking_at(
    s: Seq<u8>,
    t: Seq<Advance>,
    cx: LineCx,
    i: int,
    u: Seq<Advance>,
    ja: int,
    j: int,
) -> bool {
    &&& 0 <= ja <= j
    &&& t[i].lex is Whitespace && i > cx.a ==> j > ja && u[j - 1].lex == t[i - 1].lex
    &&& i == cx.a ==> j == ja
    &&& j == ja ==> i == cx.a || (i == cx.a + 1 && gone_rule(s, t, cx, cx.a))
}

/// Nothing is left to change at the records that the record at `i` makes.
proof fn lemma_quiet_core(
    s: Seq<u8>,
    t: Seq<Advance>,
    cx: LineCx,
    i: int,
    z: Seq<u8>,
    u: Seq<Advance>,
    ja: int,
    j: int,
    e2: int,
)
    requires
        cx.fmt,
        local_ok(t, cx, i),
        cells_ok(s, t, cx, i, z, u, j),
        walking_at(s, t, cx, i, u, ja, j),
        next_ok(s, t, cx, i, u[j + cells_rule(s, t, cx, i)].lex),
        j + cells_rule(s, t, cx, i) <= e2,
        u[e2].lex == t[cx.e].lex,
        u[j + cells_rule(s, t, cx, i)].lex.ends_line() <==> e2 == j + cells_rule(s, t, cx, i),
    ensures
        cells_rule(s, t, cx, i) >= 1 ==> quiet_at(z, u, ja, e2, cx.kind, cx.tab, j),
        cells_rule(s, t, cx, i) >= 2 ==> quiet_at(z, u, ja, e2, cx.kind, cx.tab, j + 1),
        cells_rule(s, t, cx, i) >= 3 ==> quiet_at(z, u, ja, e2, cx.kind, cx.tab, j + 2),
{
}

proof fn lemma_local(s: Seq<u8>, t: Seq<Advance>, cx: LineCx, i: int)
    requires
        records_ok(s, t),
        is_line(t, cx),
        shaped(t, cx),
        cx.a <= i < cx.e,
    ensures
        local_ok(t, cx, i),
{
    assert(!t[i].lex.ends_line());
    if t[i].lex is Whitespace {
        lemma_one_ws(s, t, i);
    }
    if i + 1 < cx.e {
        assert(!t[i + 1].lex.ends_line());
        if t[i + 1].lex is Whitespace {
            lemma_one_ws(s, t, i + 1);
        }
    }
    if i + 2 < cx.e {
        assert(!t[i + 2].lex.ends_line());
    }
    if i > cx.a {
        assert(!t[i - 1].lex.ends_line());
        if t[i - 1].lex is Whitespace {
            lemma_one_ws(s, t, i - 1);
        }
    }
    if cx.fmt && cx.kind != LineKind::NoOp && t[i].lex is Comma {
        assert(is_comma(t, i));
        assert(!is_tight(lex_after(t, i)));
        if t[i + 1].lex is Whitespace {
            assert(skip_ws(t, i + 1) == skip_ws(t, i + 2));
            assert(skip_ws(t, i + 2) == i + 2);
        } else {
            assert(skip_ws(t, i + 1) == i + 1);
        }
    }
}

proof fn lemma_cells(
    s: Seq<u8>,
    t: Seq<Advance>,
    cx: LineCx,
    rest: Seq<EditText>,
    i: int,
    z: Seq<u8>,
    u: Seq<Advance>,
    j: int,
)
    requires
        records_ok(s, t),
        records_ok(z, u),
        is_line(t, cx),
        cx.a <= i < cx.e,
        0 <= j,
        emitted(s, t, cx, rest, i, z, u, j),
    ensures
        cells(s, t, cx, i) == cells_rule(s, t, cx, i),
        cells_ok(s, t, cx, i, z, u, j),
{
    lemma_rules(s, t, cx, i);
    let c = cells(s, t, cx, i);
    let d = own_edits(s, t, cx, i);
    assert(is_token_of(s, t[i]));
    let own = if pre_rule(t, cx, i) {
        j + 1
    } else {
        j
    };
    if pre_rule(t, cx, i) {
        lemma_blank(z, u, j, cx.tab as int);
    }
    if post_rule(t, cx, i) {
        lemma_blank(z, u, j + c - 1, 1);
    }
    if !gone_rule(s, t, cx, i) {
        if t[i].lex is Whitespace {
            match ws_rule(s, t, cx, i) {
                Some(m) => {
                    lemma_blank(z, u, own, m);
                },
                None => {
                    assert(same(z, u[own], s, t[i]));
                    assert(is_token_of(z, u[own]));
                    let a0 = z.subrange(u[own].span.from as int, u[own].span.to as int);
                    let b0 = s.subrange(t[i].span.from as int, t[i].span.to as int);
                    assert(a0[0] == b0[0]);
                },
            }
        }
    }
}

proof fn lemma_blank(z: Seq<u8>, u: Seq<Advance>, k: int, m: int)
    requires
        records_ok(z, u),
        0 <= k < u.len(),
        blank(z, u[k], m),
    ensures
        cell_ws(z, u[k], m),
{
    assert(is_token_of(z, u[k]));
    if m == 1 {
        assert(z[u[k].span.from as int] == SPACE);
    }
}

proof fn lemma_next(s: Seq<u8>, t: Seq<Advance>, cx: LineCx, i: int)
    requires
        local_ok(t, cx, i),
    ensures
        next_ok(s, t, cx, i, head_lex(s, t, cx, i + 1)),
{
    if i + 1 < cx.e {
        assert(!pre_rule(t, cx, i + 1));
        if gone_rule(s, t, cx, i + 1) {
            if i + 2 < cx.e {
                assert(!pre_rule(t, cx, i + 2));
                assert(head_lex(s, t, cx, i + 2) == t[i + 2].lex);
            } else {
                assert(head_lex(s, t, cx, i + 2) == t[cx.e].lex);
            }
        }
    }
}

/// What holds of the line end of a line in the formatted text: it is the
/// same kind of line end, with nothing left to change in its comment.
pub open spec fn ended(
    s: Seq<u8>,
    t: Seq<Advance>,
    cx: LineCx,
    rest: Seq<EditText>,
    z: Seq<u8>,
    u: Seq<Advance>,
    j: int,
) -> bool {
    &&& u[j].lex == t[cx.e].lex
    &&& j + 1 < u.len()
    &&& lines_up(s, t, rest, cx.e + 1, z, u, j + 1)
    &&& cx.fmt ==> comment_edits(z, u[j]).len() == 0
}

/// The line end of a line in the formatted text: the same kind of line
/// end, with nothing left to change in its comment.
proof fn lemma_emit_end(
    s: Seq<u8>,
    t: Seq<Advance>,
    cx: LineCx,
    rest: Seq<EditText>,
    z: Seq<u8>,
    u: Seq<Advance>,
    j: int,
)
    requires
        records_ok(s, t),
        valid_utf8(s),
        records_ok(z, u),
        is_line(t, cx),
        rest.len() > 0 ==> t[cx.e].span.to <= rest[0].span.from,
        lines_up(s, t, remaining(s, t, cx, cx.e, rest), cx.e, z, u, j),
    ensures
        ended(s, t, cx, rest, z, u, j),
{
    let e = cx.e;
    let eol = t[e];
    let p = eol.span.from as int;
    let q = eol.span.to as int;
    let c = end_edits(s, t, cx);
    let r = c + rest;
    assert(remaining(s, t, cx, e, rest) == r);
    lemma_laid_suffix(s, t, c, rest);
    assert(is_token_of(s, eol));
    assert(follows(t[e], t[e + 1]));
    assert(eol.span.fits(s));
    let x0 = splice_from(s, r, 0, p);
    let x1 = splice_from(s, rest, 0, q);
    if eol.lex != Lexeme::Eol(true) {
        assert(r =~= rest);
        lemma_cell_kept(s, t, r, e, 0, z, u, j);
    } else {
        let end = body_end(s, eol);
        lemma_comment_parts(s, eol);
        let cm = if cx.fmt {
            tidy(s, eol)
        } else {
            s.subrange(p, q)
        };
        if cx.fmt {
            lemma_tidy(s, t, eol, rest);
        } else {
            assert(r =~= rest);
            lemma_split(s, r, 0, p, q);
        }
        assert(x0 == cm + x1);
        if end == q {
            if rest.len() > 0 {
                assert(effective(s, rest[0]));
                assert(placed_at(s, t, rest[0]));
            }
            assert(x1 =~= Seq::<u8>::empty());
        }
        let nb = cm.len() - (q - end);
        assert(x0[0] == SEMICOLON);
        assert forall|k: int| 1 <= k < nb implies x0[k] != NEWLINE by {
            assert(x0[k] == cm[k]);
            if cx.fmt {
                if k >= 2 {
                    assert(cm[k] == s[kept_from(s, eol) + (k - 2)]);
                }
            } else {
                assert(cm[k] == s[p + k]);
            }
        }
        if end < q {
            assert(x0[nb] == cm[nb]);
            assert(cm[nb] == s[end]);
        }
        lemma_scan_comment(x0, nb);
        lemma_record_at(z, u, j, x0, cm.len() as int);
        assert(x0.subrange(cm.len() as int, x0.len() as int) =~= x1);
        if cx.fmt {
            assert(is_token_of(z, u[j]));
            assert forall|k: int| 0 <= k < cm.len() implies z[u[j].span.from + k]
                == #[trigger] cm[k] by {
                assert(x0[k] == cm[k]);
            }
            if end == q {
                assert(suffix(z, u[j + 1].span.from as int).len() == 0);
                assert(is_token_of(z, u[j + 1]));
            }
            lemma_tidy_quiet(s, eol, z, u[j]);
        }
    }
}

/// What the walk along a line finds from the record `j` of the formatted
/// text on, which stands where the record `i` of the text stood.
pub open spec fn walked(
    s: Seq<u8>,
    t: Seq<Advance>,
    cx: LineCx,
    rest: Seq<EditText>,
    i: int,
    z: Seq<u8>,
    u: Seq<Advance>,
    ja: int,
    j: int,
) -> bool {
    let e2 = line_stop(u, j);
    &&& j <= e2
    &&& e2 + 1 < u.len()
    &&& u[e2].lex == t[cx.e].lex
    &&& u[j].lex == head_lex(s, t, cx, i)
    &&& forall|k: int| ja <= k < e2 ==> !(#[trigger] u[k]).lex.ends_line()
    &&& lines_up(s, t, rest, cx.e + 1, z, u, e2 + 1)
    &&& cx.fmt ==> comment_edits(z, u[e2]).len() == 0
    &&& cx.fmt ==> forall|k: int|
        j <= k < e2 ==> #[trigger] quiet_at(z, u, ja, e2, cx.kind, cx.tab, k)
}

/// The walk along a line: the records of the formatted text are those that
/// the rules make of the records of the line, and nothing is left to
/// change at any of them.
proof fn lemma_walk(
    s: Seq<u8>,
    t: Seq<Advance>,
    cx: LineCx,
    rest: Seq<EditText>,
    i: int,
    z: Seq<u8>,
    u: Seq<Advance>,
    ja: int,
    j: int,
)
    requires
        records_ok(s, t),
        valid_utf8(s),
        records_ok(z, u),
        is_line(t, cx),
        shaped(t, cx),
        cx.a <= i <= cx.e,
        rest.len() > 0 ==> t[cx.e].span.to <= rest[0].span.from,
        lines_up(s, t, remaining(s, t, cx, i, rest), i, z, u, j),
        walking_at(s, t, cx, i, u, ja, j),
        forall|k: int| ja <= k < j ==> !(#[trigger] u[k]).lex.ends_line(),
    ensures
        walked(s, t, cx, rest, i, z, u, ja, j),
    decreases cx.e - i,
{
    lemma_line_stop(u, j);
    if i == cx.e {
        lemma_emit_end(s, t, cx, rest, z, u, j);
        assert(line_stop(u, j) == j);
    } else {
        let c = cells(s, t, cx, i);
        lemma_emit(s, t, cx, rest, i, z, u, j);
        lemma_cells(s, t, cx, rest, i, z, u, j);
        lemma_local(s, t, cx, i);
        let j2 = j + c;
        assert(walking_at(s, t, cx, i + 1, u, ja, j2));
        lemma_walk(s, t, cx, rest, i + 1, z, u, ja, j2);
        lemma_line_stop(u, j2);
        let e2 = line_stop(u, j2);
        assert(line_stop(u, j) == e2) by {
            if line_stop(u, j) < j2 {
                assert(!u[line_stop(u, j)].lex.ends_line());
            }
        }
        lemma_next(s, t, cx, i);
        if cx.fmt {
            lemma_quiet_core(s, t, cx, i, z, u, ja, j, e2);
        }
    }
}

proof fn lemma_range_quiet(z: Seq<u8>, u: Seq<Advance>, i: int, last: int)
    requires
        forall|k: int| i <= k < last ==> (#[trigger] inner_edits(z, u, k)).len() == 0,
    ensures
        range_edits(z, u, i, last) == Seq::<EditText>::empty(),
    decreases last - i,
{
    if i < last {
        lemma_range_quiet(z, u, i + 1, last);
        assert(inner_edits(z, u, i).len() == 0);
        assert(inner_edits(z, u, i) + range_edits(z, u, i + 1, last) =~= Seq::<EditText>::empty());
    }
}

/// A line at whose records nothing is left to change has no edits.
proof fn lemma_line_quiet(
    z: Seq<u8>,
    u: Seq<Advance>,
    ja: int,
    e2: int,
    kinds: Seq<LineKind>,
    skip: Set<u32>,
    cx: LineCx,
)
    requires
        0 <= ja <= e2 < u.len(),
        cx.fmt == !skip.contains(u[ja].line),
        cx.fmt && ja < e2 ==> u[ja].line < kinds.len() && cx.kind == kinds[u[ja].line as int],
        cx.fmt ==> comment_edits(z, u[e2]).len() == 0,
        cx.fmt ==> forall|k: int|
            ja <= k < e2 ==> #[trigger] quiet_at(z, u, ja, e2, cx.kind, cx.tab, k),
    ensures
        line_edits(z, u, ja, e2, kinds, skip, cx.tab) == Seq::<EditText>::empty(),
{
    let all = line_edits(z, u, ja, e2, kinds, skip, cx.tab);
    if !cx.fmt {
    } else if ja == e2 {
        assert(all =~= Seq::<EditText>::empty());
    } else {
        let lead = lead_edits(u[ja], e2 - ja, cx.kind, cx.tab);
        let range = if cx.kind != LineKind::NoOp {
            range_edits(z, u, ja + 1, e2 - 1)
        } else {
            Seq::empty()
        };
        let tail = tail_edits(z, u[e2 - 1], u[e2], cx.kind);
        let end = comment_edits(z, u[e2]);
        assert(all == lead + range + tail + end);
        assert(quiet_at(z, u, ja, e2, cx.kind, cx.tab, ja));
        assert(quiet_at(z, u, ja, e2, cx.kind, cx.tab, e2 - 1));
        if cx.kind != LineKind::NoOp {
            assert forall|k: int| ja + 1 <= k < e2 - 1 implies (#[trigger] inner_edits(
                z,
                u,
                k,
            )).len() == 0 by {
                assert(quiet_at(z, u, ja, e2, cx.kind, cx.tab, k));
            }
            lemma_range_quiet(z, u, ja + 1, e2 - 1);
        }
        assert(lead + range + tail + end =~= Seq::<EditText>::empty());
    }
}

/// Texts that are the same from two records on have no line end from the
/// one on if they have none from the other on.
proof fn lemma_same_tail(s: Seq<u8>, t: Seq<Advance>, i: int, z: Seq<u8>, u: Seq<Advance>, j: int)
    requires
        records_ok(s, t),
        records_ok(z, u),
        0 <= i < t.len(),
        0 <= j < u.len(),
        suffix(z, u[j].span.from as int) == suffix(s, t[i].span.from as int),
        forall|k: int| i <= k < t.len() ==> !((#[trigger] t[k]).lex is Eol),
    ensures
        forall|k: int| j <= k < u.len() ==> !((#[trigger] u[k]).lex is Eol),
    decreases t.len() - i,
{
    let x = suffix(s, t[i].span.from as int);
    assert(is_token_of(s, t[i]));
    assert(is_token_of(z, u[j]));
    if x.len() == 0 {
        assert(u[j].lex is Eof);
    } else {
        lemma_scan_bounds(x, 0);
        let n = scan_end(x, 0);
        lemma_record_at(s, t, i, x, n);
        lemma_record_at(z, u, j, x, n);
        lemma_same_tail(s, t, i + 1, z, u, j + 1);
        assert forall|k: int| j <= k < u.len() implies !((#[trigger] u[k]).lex is Eol) by {
            if k == j {
                assert(u[j].lex == t[i].lex);
            }
        }
    }
}

/// What a line that is formatted by its kind is known to look like.
pub open spec fn line_shaped(
    t: Seq<Advance>,
    kinds: Seq<LineKind>,
    skip: Set<u32>,
    a: int,
) -> bool {
    let e = line_stop(t, a);
    let line = t[a].line as int;
    t[e].lex is Eol && !skip.contains(t[a].line) && a < e ==> line < kinds.len() && (kinds[line]
        != LineKind::NoOp ==> commas_ok(t, a, e) && !(t[a].lex is Comma))
}

/// Every line is as `line_shaped` says.
pub open spec fn all_shaped(t: Seq<Advance>, kinds: Seq<LineKind>, skip: Set<u32>) -> bool {
    forall|a: int|
        0 <= a < t.len() && starts_line(t, a) ==> #[trigger] line_shaped(
            t,
            kinds,
            skip,
            a,
        )
}

/// Nothing is left to change from a line of the formatted text on.
proof fn lemma_lines(
    s: Seq<u8>,
    t: Seq<Advance>,
    kinds: Seq<LineKind>,
    skip: Set<u32>,
    tab: u32,
    a: int,
    z: Seq<u8>,
    u: Seq<Advance>,
    j: int,
)
    requires
        records_ok(s, t),
        valid_utf8(s),
        records_ok(z, u),
        all_shaped(t, kinds, skip),
        starts_line(t, a),
        lines_up(s, t, edits_from(s, t, a, kinds, skip, tab), a, z, u, j),
    ensures
        edits_from(z, u, j, kinds, skip, tab) == Seq::<EditText>::empty(),
    decreases t.len() - a,
{
    let e = line_stop(t, a);
    lemma_line_stop(t, a);
    lemma_line_stop(u, j);
    let r = edits_from(s, t, a, kinds, skip, tab);
    if t[e].lex is Eol {
        let rest = edits_from(s, t, e + 1, kinds, skip, tab);
        let line = t[a].line as int;
        let fmt = !skip.contains(t[a].line);
        let kind = if line < kinds.len() {
            kinds[line]
        } else {
            LineKind::NoOp
        };
        let cx = LineCx { a, e, kind, fmt, tab };
        assert(is_line(t, cx));
        assert(line_shaped(t, kinds, skip, a));
        assert(r == line_edits(s, t, a, e, kinds, skip, tab) + rest);
        lemma_remaining(s, t, cx, kinds, skip, rest);
        lemma_edits_from(s, t, e + 1, kinds, skip, tab);
        assert(follows(t[e], t[e + 1]));
        if rest.len() > 0 {
            assert(t[e + 1].span.from <= rest[0].span.from);
        }
        lemma_walk(s, t, cx, rest, a, z, u, j, j);
        let e2 = line_stop(u, j);
        assert(e2 > j ==> a < e) by {
            if a == e {
                assert(head_lex(s, t, cx, a) == t[e].lex);
            }
        }
        lemma_line_quiet(z, u, j, e2, kinds, skip, cx);
        lemma_lines(s, t, kinds, skip, tab, e + 1, z, u, e2 + 1);
    } else {
        assert(r == Seq::<EditText>::empty());
        assert(splice_from(s, r, 0, t[a].span.from as int) == suffix(s, t[a].span.from as int));
        assert forall|k: int| a <= k < t.len() implies !((#[trigger] t[k]).lex is Eol) by {
            if k < e {
                assert(!t[k].lex.ends_line());
            }
        }
        lemma_same_tail(s, t, a, z, u, j);
    }
}

/// The lines of a text that parse to something are shaped as the
/// formatter needs them.
proof fn lemma_parsed_shape(s: Seq<u8>)
    requires
        s.len() <= u32::MAX,
    ensures
        all_shaped(
            tokens(s),
            parsed_kinds(s),
            parsed_error_lines(s),
        ),
{
    let t = tokens(s);
    let kinds = parsed_kinds(s);
    let skip = parsed_error_lines(s);
    lemma_records_ok(s);
    assert forall|a: int| 0 <= a < t.len() && starts_line(t, a) implies #[trigger] line_shaped(
        t,
        kinds,
        skip,
        a,
    ) by {
        let e = line_stop(t, a);
        let line = t[a].line as int;
        lemma_line_stop(t, a);
        lemma_skip_ws(t, a);
        let j0 = skip_ws(t, a);
        if t[e].lex is Eol && !skip.contains(t[a].line) && a < e {
            lemma_line_content(s, a);
            if kinds[line] != LineKind::NoOp {
                let lines = parse_text(s).lines;
                assert(kinds[line] == kind_of(lines[line]));
                assert(!(lines[line] is NoOp));
                assert(t[j0].lex is Ident);
                lemma_line_shape(s, t, j0);
                assert forall|c: int| a <= c < e && #[trigger] is_comma(
                    t,
                    c,
                ) implies !is_tight(lex_after(t, c)) by {
                    if c < j0 {
                        assert(t[c].lex is Whitespace);
                    }
                }
            }
        }
    }
}

/// Idempotent formatting: nothing is left to change in the canonical
/// layout of a UTF-8 text; formatting it again gives it back.
pub proof fn lemma_idempotent(s: Seq<u8>, tab: u32)
    requires
        s.len() <= u32::MAX,
        valid_utf8(s),
        formatted(s, tab).len() <= u32::MAX,
    ensures
        format_edits(formatted(s, tab), tab) == Seq::<
            EditText,
        >::empty(),
        formatted(formatted(s, tab), tab)
            == formatted(s, tab),
{
    let t = tokens(s);
    let kinds = parsed_kinds(s);
    let skip = parsed_error_lines(s);
    let edits = format_edits(s, tab);
    let z = formatted(s, tab);
    let u = tokens(z);
    lemma_records_ok(s);
    lemma_records_ok(z);
    lemma_edits_effective(s, kinds, skip, tab);
    lemma_edits_in_order(s, kinds, skip, tab);
    lemma_edits_placed(s, kinds, skip, tab);
    if edits.len() > 0 {
        assert(0 <= 2 * edits[0].span.from);
    }
    assert(laid_out(s, t, edits));
    lemma_parsed_shape(s);
    lemma_line_bookkeeping(s);
    lemma_line_bookkeeping(z);
    assert(suffix(z, 0) =~= z);
    lemma_lines(s, t, kinds, skip, tab, 0, z, u, 0);
    lemma_preserves_parse(s, tab);
    let kinds2 = parsed_kinds(z);
    let skip2 = parsed_error_lines(z);
    assert(kinds2 =~= kinds);
    let es = parse_text(s).errors;
    let ez = parse_text(z).errors;
    assert(lines_of(ez) == lines_of(es));
    assert forall|line: u32| skip2.contains(line) == skip.contains(line) by {
        if skip2.contains(line) {
            let i = choose|i: int| 0 <= i < ez.len() && ez[i].ad.line == line;
            assert(lines_of(ez)[i] == line);
            assert(lines_of(es)[i] == es[i].ad.line);
        }
        if skip.contains(line) {
            let i = choose|i: int| 0 <= i < es.len() && es[i].ad.line == line;
            assert(lines_of(es)[i] == line);
            assert(lines_of(ez)[i] == ez[i].ad.line);
        }
    }
    assert(skip2 =~= skip);
    assert(format_edits(z, tab) == edits_from(
        z,
        u,
        0,
        kinds,
        skip,
        tab,
    ));
    assert(splice(z, Seq::<EditText>::empty()) =~= z);
}

} // verus!
