//! The comment of a line end as the formatter leaves it, and the
//! whitespace that ends its body, in a text and in another that holds the
//! same bytes.

use vstd::prelude::*;
use vstd::utf8::{is_char_boundary, valid_utf8};

use crate::boundary::{lemma_ascii_boundary, lemma_ws_boundary, lemma_ws_end_boundary};
use crate::layout::{body_end, comment_edits, is_one_space, splice_from, trail_start, EditText};
use crate::lexeme::{Advance, Lexeme};
use crate::minimal::lemma_space_bytes;
use crate::order::{lemma_trail_start, records_ok};
use crate::reformat::{laid_out, lemma_at_edit, lemma_split, lemma_suffix_boundary, suffix};
use crate::rescan::{agree, lemma_no_ws_again, lemma_ws_again, lemma_ws_len_again};
use crate::scan::{
    lemma_run_end_bounds, lemma_scan_bounds, lemma_ws_end_bounds, ws_end, ws_len, ByteClass,
    NEWLINE, SEMICOLON, SPACE,
};
use crate::shift::{lemma_ws_end_shift, lemma_ws_len_shift};
use crate::stable::lemma_drop;
use crate::tokens::is_token_of;

verus! {

/// Where trailing whitespace starts does not depend on what stands before
/// the text.
pub proof fn lemma_trail_shift(x: Seq<u8>, y: Seq<u8>, i: int, end: int)
    requires
        0 <= i <= end <= y.len(),
    ensures
        trail_start(x + y, x.len() + i, x.len() + end) == x.len() + trail_start(y, i, end),
    decreases end - i,
{
    lemma_ws_len_shift(x, y, i);
    lemma_ws_end_shift(x, y, i);
    lemma_ws_end_bounds(y, i);
    if i >= end {
    } else if ws_len(y, i) > 0 {
        if ws_end(y, i) < end {
            lemma_trail_shift(x, y, ws_end(y, i), end);
        }
    } else {
        lemma_trail_shift(x, y, i + 1, end);
    }
}

/// A text that ends where the trailing whitespace of another started,
/// and holds the bytes of the other up to there, has no trailing
/// whitespace.
pub proof fn lemma_trail_again(a: Seq<u8>, b: Seq<u8>, n: int, i: int, end: int)
    requires
        valid_utf8(a),
        agree(a, b, n),
        is_char_boundary(a, n),
        0 <= i <= n <= end <= a.len(),
        trail_start(a, i, end) == n,
        ws_len(b, n) == 0,
    ensures
        trail_start(b, i, n) == n,
    decreases n - i,
{
    if i < n {
        lemma_ws_end_bounds(a, i);
        if ws_len(a, i) > 0 {
            let w = ws_end(a, i);
            assert(w < end);
            lemma_trail_start(a, w, end);
            assert(w <= n);
            assert(w < n) by {
                if w == n {
                    assert(ws_len(a, w) == 0);
                }
            }
            assert(i + ws_len(a, i) <= w) by {
                lemma_ws_end_bounds(a, i + ws_len(a, i));
            }
            lemma_ws_len_again(a, b, n, i);
            lemma_no_ws_again(a, b, n, w);
            assert(agree(a, b, w));
            lemma_ws_again(a, b, w, i);
            lemma_trail_again(a, b, n, w, end);
        } else {
            lemma_trail_start(a, i + 1, end);
            lemma_no_ws_again(a, b, n, i);
            lemma_trail_again(a, b, n, i + 1, end);
        }
    }
}

/// The comment has a body: something but whitespace stands in it.
pub open spec fn has_body(s: Seq<u8>, eol: Advance) -> bool {
    ws_end(s, eol.span.from + 1) < body_end(s, eol)
}

/// Where what is kept of the body of the comment starts.
pub open spec fn kept_from(s: Seq<u8>, eol: Advance) -> int {
    if has_body(s, eol) {
        ws_end(s, eol.span.from + 1)
    } else {
        body_end(s, eol)
    }
}

/// Where what is kept of the body of the comment ends.
pub open spec fn kept_to(s: Seq<u8>, eol: Advance) -> int {
    if has_body(s, eol) {
        trail_start(s, ws_end(s, eol.span.from + 1), body_end(s, eol))
    } else {
        body_end(s, eol)
    }
}

/// The comment as the formatter leaves it: the semicolon; if it has a
/// body, a space and the body without the whitespace around it; and its
/// newline, if it has one.
pub open spec fn tidy(s: Seq<u8>, eol: Advance) -> Seq<u8> {
    seq![SEMICOLON] + (if has_body(s, eol) {
        seq![SPACE]
    } else {
        Seq::empty()
    }) + s.subrange(kept_from(s, eol), kept_to(s, eol)) + s.subrange(
        body_end(s, eol),
        eol.span.to as int,
    )
}

/// The parts of a comment.
pub proof fn lemma_comment_parts(s: Seq<u8>, eol: Advance)
    requires
        s.len() <= u32::MAX,
        is_token_of(s, eol),
        eol.lex == Lexeme::Eol(true),
    ensures
        ({
            let p = eol.span.from as int;
            let q = eol.span.to as int;
            let end = body_end(s, eol);
            &&& 0 <= p < end <= q <= s.len()
            &&& s[p] == SEMICOLON
            &&& end == q || (end == q - 1 && s[end] == NEWLINE)
            &&& end == q ==> q == s.len()
            &&& forall|k: int| p + 1 <= k < end ==> s[k] != NEWLINE
            &&& p + 1 <= ws_end(s, p + 1)
            &&& p + 1 <= kept_from(s, eol) <= kept_to(s, eol) <= end
            &&& has_body(s, eol) ==> kept_from(s, eol) < kept_to(s, eol) && ws_len(
                s,
                kept_from(s, eol),
            ) == 0
        }),
{
    let p = eol.span.from as int;
    lemma_scan_bounds(s, p);
    lemma_run_end_bounds(s, p + 1, ByteClass::NotNewline);
    lemma_ws_end_bounds(s, p + 1);
    let end = body_end(s, eol);
    let text = ws_end(s, p + 1);
    if text < end {
        lemma_trail_start(s, text, end);
        lemma_trail_start(s, text + 1, end);
    }
}

/// The comment that has no body, formatted: its whitespace is taken out.
proof fn lemma_tidy_bare(s: Seq<u8>, t: Seq<Advance>, eol: Advance, rest: Seq<EditText>)
    requires
        records_ok(s, t),
        is_token_of(s, eol),
        eol.lex == Lexeme::Eol(true),
        laid_out(s, t, comment_edits(s, eol) + rest),
        rest.len() > 0 ==> eol.span.to <= rest[0].span.from,
        !has_body(s, eol),
    ensures
        splice_from(s, comment_edits(s, eol) + rest, 0, eol.span.from as int) == tidy(s, eol)
            + splice_from(s, rest, 0, eol.span.to as int),
{
    let p = eol.span.from as int;
    let q = eol.span.to as int;
    let c = comment_edits(s, eol);
    let r = c + rest;
    let start = p + 1;
    let end = body_end(s, eol);
    lemma_comment_parts(s, eol);
    lemma_drop(s, c, rest, 0, q);
    lemma_space_bytes(0);
    let head = s.subrange(p, start);
    assert(head =~= seq![SEMICOLON]);
    let last = s.subrange(end, q);
    let after = splice_from(s, rest, 0, q);
    assert(tidy(s, eol) =~= head + last);
    if start < end {
        assert(c.len() == 1);
        assert(r[0] == c[0]);
        if rest.len() > 0 {
            assert(r[1] == rest[0]);
        }
        lemma_split(s, r, 0, p, start);
        lemma_at_edit(s, r, 0);
        lemma_split(s, r, 1, end, q);
        assert(splice_from(s, r, 0, start) =~= splice_from(s, r, 1, end));
        assert(splice_from(s, r, 0, p) =~= head + last + after);
    } else {
        assert(r =~= rest);
        lemma_split(s, r, 0, p, q);
        assert(s.subrange(p, q) =~= head + last);
    }
}

/// The start of a comment that has a body, formatted: the semicolon and
/// one space.
proof fn lemma_tidy_lead(s: Seq<u8>, t: Seq<Advance>, eol: Advance, r: Seq<EditText>)
    requires
        records_ok(s, t),
        is_token_of(s, eol),
        eol.lex == Lexeme::Eol(true),
        laid_out(s, t, r),
        has_body(s, eol),
        if is_one_space(s, eol.span.from + 1, ws_end(s, eol.span.from + 1)) {
            r.len() > 0 ==> ws_end(s, eol.span.from + 1) <= r[0].span.from
        } else {
            r.len() > 0 && r[0].span.from == eol.span.from + 1 && r[0].span.to == ws_end(
                s,
                eol.span.from + 1,
            ) && r[0].text.len() == 1
        },
    ensures
        ({
            let text = ws_end(s, eol.span.from + 1);
            let k1: int = if is_one_space(s, eol.span.from + 1, text) {
                0
            } else {
                1
            };
            splice_from(s, r, 0, eol.span.from as int) == seq![SEMICOLON] + seq![SPACE]
                + splice_from(s, r, k1, text)
        }),
{
    let p = eol.span.from as int;
    let start = p + 1;
    let text = ws_end(s, start);
    lemma_comment_parts(s, eol);
    lemma_space_bytes(1);
    let head = s.subrange(p, start);
    assert(head =~= seq![SEMICOLON]);
    let gap = seq![SPACE];
    lemma_split(s, r, 0, p, start);
    if is_one_space(s, start, text) {
        lemma_split(s, r, 0, start, text);
        assert(s.subrange(start, text) =~= gap);
    } else {
        lemma_at_edit(s, r, 0);
        assert(vstd::utf8::encode_utf8(r[0].text) =~= gap);
    }
}

/// The rest of a comment that has a body, formatted: the body without
/// the whitespace that ends it, and the newline.
proof fn lemma_tidy_trail(s: Seq<u8>, t: Seq<Advance>, eol: Advance, r: Seq<EditText>, k: int)
    requires
        records_ok(s, t),
        is_token_of(s, eol),
        eol.lex == Lexeme::Eol(true),
        laid_out(s, t, r),
        has_body(s, eol),
        0 <= k <= r.len(),
        if kept_to(s, eol) < body_end(s, eol) {
            &&& k < r.len()
            &&& r[k].span.from == kept_to(s, eol)
            &&& r[k].span.to == body_end(s, eol)
            &&& r[k].text.len() == 0
            &&& k + 1 < r.len() ==> eol.span.to <= r[k + 1].span.from
        } else {
            k < r.len() ==> eol.span.to <= r[k].span.from
        },
    ensures
        ({
            let k2 = if kept_to(s, eol) < body_end(s, eol) {
                k + 1
            } else {
                k
            };
            splice_from(s, r, k, kept_from(s, eol)) == s.subrange(
                kept_from(s, eol),
                kept_to(s, eol),
            ) + s.subrange(body_end(s, eol), eol.span.to as int) + splice_from(
                s,
                r,
                k2,
                eol.span.to as int,
            )
        }),
{
    let q = eol.span.to as int;
    let end = body_end(s, eol);
    let text = kept_from(s, eol);
    let tr = kept_to(s, eol);
    lemma_comment_parts(s, eol);
    lemma_space_bytes(0);
    let body = s.subrange(text, tr);
    let last = s.subrange(end, q);
    if tr < end {
        lemma_split(s, r, k, text, tr);
        lemma_at_edit(s, r, k);
        lemma_split(s, r, k + 1, end, q);
        assert(splice_from(s, r, k, tr) =~= splice_from(s, r, k + 1, end));
    } else {
        lemma_split(s, r, k, text, q);
        assert(s.subrange(text, q) =~= body + last);
    }
}

/// The comment that has a body, formatted: one space stands before the
/// body, and none after it.
proof fn lemma_tidy_body(s: Seq<u8>, t: Seq<Advance>, eol: Advance, rest: Seq<EditText>)
    requires
        records_ok(s, t),
        is_token_of(s, eol),
        eol.lex == Lexeme::Eol(true),
        laid_out(s, t, comment_edits(s, eol) + rest),
        rest.len() > 0 ==> eol.span.to <= rest[0].span.from,
        has_body(s, eol),
    ensures
        splice_from(s, comment_edits(s, eol) + rest, 0, eol.span.from as int) == tidy(s, eol)
            + splice_from(s, rest, 0, eol.span.to as int),
{
    let p = eol.span.from as int;
    let q = eol.span.to as int;
    let c = comment_edits(s, eol);
    let r = c + rest;
    let start = p + 1;
    let end = body_end(s, eol);
    let text = ws_end(s, start);
    let tr = trail_start(s, text, end);
    lemma_comment_parts(s, eol);
    lemma_drop(s, c, rest, 0, q);
    let k1: int = if is_one_space(s, start, text) {
        0
    } else {
        1
    };
    let k2: int = if tr < end {
        k1 + 1
    } else {
        k1
    };
    assert(c.len() == k2);
    assert forall|k: int| 0 <= k < c.len() implies r[k] == c[k] by {}
    if rest.len() > 0 {
        assert(r[k2] == rest[0]);
    }
    lemma_tidy_lead(s, t, eol, r);
    lemma_tidy_trail(s, t, eol, r, k1);
    let body = s.subrange(text, tr);
    let last = s.subrange(end, q);
    let after = splice_from(s, rest, 0, q);
    assert(splice_from(s, r, 0, p) =~= seq![SEMICOLON] + seq![SPACE] + body + last + after);
}

/// The comment, formatted, is its tidy form.
pub proof fn lemma_tidy(s: Seq<u8>, t: Seq<Advance>, eol: Advance, rest: Seq<EditText>)
    requires
        records_ok(s, t),
        is_token_of(s, eol),
        eol.lex == Lexeme::Eol(true),
        laid_out(s, t, comment_edits(s, eol) + rest),
        rest.len() > 0 ==> eol.span.to <= rest[0].span.from,
    ensures
        splice_from(s, comment_edits(s, eol) + rest, 0, eol.span.from as int) == tidy(s, eol)
            + splice_from(s, rest, 0, eol.span.to as int),
{
    if has_body(s, eol) {
        lemma_tidy_body(s, t, eol, rest);
    } else {
        lemma_tidy_bare(s, t, eol, rest);
    }
}

/// Where what is kept of the body of a comment ends, no character is cut.
proof fn lemma_kept_boundary(s: Seq<u8>, eol: Advance)
    requires
        s.len() <= u32::MAX,
        valid_utf8(s),
        is_token_of(s, eol),
        eol.span.fits(s),
        eol.lex == Lexeme::Eol(true),
    ensures
        is_char_boundary(s, kept_from(s, eol)),
        is_char_boundary(s, kept_to(s, eol)),
{
    let p = eol.span.from as int;
    let q = eol.span.to as int;
    let end = body_end(s, eol);
    let text = ws_end(s, p + 1);
    lemma_comment_parts(s, eol);
    lemma_ascii_boundary(s, p);
    lemma_ws_end_boundary(s, p + 1);
    if end < q {
        lemma_ascii_boundary(s, end);
    }
    if text < end {
        lemma_trail_start(s, text, end);
        let tr = trail_start(s, text, end);
        if tr < end {
            lemma_ws_boundary(s, tr);
        }
    }
}

/// Nothing is left to change in a comment that is the tidy form of
/// another.
pub proof fn lemma_tidy_quiet(s: Seq<u8>, eol: Advance, z: Seq<u8>, ad: Advance)
    requires
        s.len() <= u32::MAX,
        valid_utf8(s),
        is_token_of(s, eol),
        eol.span.fits(s),
        eol.lex == Lexeme::Eol(true),
        ad.lex == Lexeme::Eol(true),
        ad.span.to == ad.span.from + tidy(s, eol).len(),
        ad.span.to <= z.len(),
        forall|k: int| 0 <= k < tidy(s, eol).len() ==> z[ad.span.from + k] == #[trigger] tidy(s, eol)[k],
        body_end(s, eol) == eol.span.to ==> z.len() == ad.span.to,
    ensures
        comment_edits(z, ad).len() == 0,
{
    let p = eol.span.from as int;
    let q = eol.span.to as int;
    let end = body_end(s, eol);
    let text = kept_from(s, eol);
    let tr = kept_to(s, eol);
    let cm = tidy(s, eol);
    let f = ad.span.from as int;
    lemma_comment_parts(s, eol);
    lemma_kept_boundary(s, eol);
    let n = tr - text;
    let gap: int = if has_body(s, eol) {
        1
    } else {
        0
    };
    let nb = 1 + gap + n;
    assert(cm.len() == nb + (q - end));
    assert(cm[0] == SEMICOLON);
    assert(z[f + 0] == cm[0]);
    if end < q {
        assert(cm[nb] == s[end]);
        assert(z[f + nb] == cm[nb]);
    } else if nb >= 2 {
        assert(cm[nb - 1] == s[tr - 1]);
        assert(z[f + (nb - 1)] == cm[nb - 1]);
    }
    assert(body_end(z, ad) == f + nb);
    lemma_ws_end_bounds(z, f + 1);
    if has_body(s, eol) {
        let a = suffix(s, text);
        let y = suffix(z, f + 2);
        let pre = s.subrange(0, text);
        let pre2 = z.subrange(0, f + 2);
        assert(pre + a =~= s);
        assert(pre2 + y =~= z);
        vstd::utf8::valid_utf8_split(s, text);
        lemma_suffix_boundary(s, text, tr);
        assert(agree(a, y, n)) by {
            assert forall|k: int| 0 <= k < n implies a[k] == y[k] by {
                assert(cm[2 + k] == s[text + k]);
                assert(z[f + (2 + k)] == cm[2 + k]);
            }
        }
        lemma_ws_len_shift(pre, a, 0);
        lemma_no_ws_again(a, y, n, 0);
        lemma_trail_shift(pre, a, 0, end - text);
        assert(ws_len(y, n) == 0) by {
            if end < q {
                assert(y[n] == z[f + nb]);
            }
        }
        lemma_trail_again(a, y, n, 0, end - text);
        lemma_ws_len_shift(pre2, y, 0);
        lemma_trail_shift(pre2, y, 0, n);
        assert(cm[1] == SPACE);
        assert(z[f + 1] == cm[1]);
        assert(ws_len(z, f + 1) == 1);
        assert(ws_end(z, f + 2) == f + 2);
        assert(ws_end(z, f + 1) == f + 2);
        assert(is_one_space(z, f + 1, f + 2));
        assert(trail_start(z, f + 2, f + nb) == f + nb);
    }
}

} // verus!
