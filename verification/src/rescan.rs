//! Reading a token again in another text: a text that starts with the
//! bytes of a token, and goes on in a way that ends the token where it
//! ended, starts with the same token.

use vstd::prelude::*;
use vstd::utf8::{is_char_boundary, is_char_boundary_iff_not_is_continuation_byte, valid_utf8};

use crate::lexeme::{DigitBase, Lexeme};
use crate::scan::{
    digit_class, in_class, is_escape_at, is_other_at, lemma_other_end_bounds, lemma_run_end_bounds,
    lemma_scan_bounds, lemma_str_end_bounds, lemma_ws_end_bounds, number_base, other_end, run_end,
    scan_end, scan_kind, str_closed, str_end, ws_end, ws_len, ByteClass, CLOSE_BRACKET, COLON,
    COMMA, NEWLINE, QUOTE, SEMICOLON, SPACE,
};
use crate::shift::scan_atom;

verus! {

/// The two texts start with the same `n` bytes.
pub open spec fn agree(a: Seq<u8>, b: Seq<u8>, n: int) -> bool {
    &&& 0 <= n <= a.len()
    &&& n <= b.len()
    &&& forall|k: int| 0 <= k < n ==> a[k] == b[k]
}

/// A byte that ends every token but a string and a comment: a space, a
/// comma, a colon, a closing bracket, a newline, a semicolon.
pub open spec fn is_stop(c: u8) -> bool {
    c == SPACE || c == COMMA || c == COLON || c == CLOSE_BRACKET || c == NEWLINE || c == SEMICOLON
}

/// The text ends after `n` bytes, or goes on with a byte that ends a
/// token.
pub open spec fn hard_stop(b: Seq<u8>, n: int) -> bool {
    b.len() == n || is_stop(b[n])
}

/// After `n` bytes both texts end, or both go on with the same byte.
pub open spec fn same_next(a: Seq<u8>, b: Seq<u8>, n: int) -> bool {
    (a.len() == n && b.len() == n) || (a.len() > n && b.len() > n && a[n] == b[n])
}

pub proof fn lemma_run_again(a: Seq<u8>, b: Seq<u8>, n: int, j: int, class: ByteClass)
    requires
        agree(a, b, n),
        0 <= j <= n,
        run_end(a, j, class) == n,
        b.len() == n || !in_class(class, b[n]),
    ensures
        run_end(b, j, class) == n,
    decreases n - j,
{
    if j < n {
        lemma_run_end_bounds(a, j + 1, class);
        lemma_run_again(a, b, n, j + 1, class);
    }
}

/// A whitespace character that lies in the common start is one in both
/// texts.
pub proof fn lemma_ws_len_again(a: Seq<u8>, b: Seq<u8>, n: int, j: int)
    requires
        agree(a, b, n),
        0 <= j,
        ws_len(a, j) > 0,
        j + ws_len(a, j) <= n,
    ensures
        ws_len(b, j) == ws_len(a, j),
{
}

pub proof fn lemma_ws_again(a: Seq<u8>, b: Seq<u8>, n: int, j: int)
    requires
        agree(a, b, n),
        0 <= j <= n,
        ws_end(a, j) == n,
        ws_len(b, n) == 0,
    ensures
        ws_end(b, j) == n,
    decreases n - j,
{
    if j < n {
        lemma_ws_end_bounds(a, j);
        lemma_ws_end_bounds(a, j + ws_len(a, j));
        lemma_ws_len_again(a, b, n, j);
        lemma_ws_again(a, b, n, j + ws_len(a, j));
    }
}

pub proof fn lemma_str_again(a: Seq<u8>, b: Seq<u8>, n: int, j: int)
    requires
        agree(a, b, n),
        0 <= j <= n,
        str_end(a, j) == n,
        str_closed(a, j) || (a.len() == n && b.len() == n),
    ensures
        str_end(b, j) == n,
        str_closed(b, j) == str_closed(a, j),
    decreases n - j,
{
    lemma_str_end_bounds(a, j);
    if j < n {
        if a[j] == QUOTE {
        } else if is_escape_at(a, j) {
            lemma_str_end_bounds(a, j + 2);
            lemma_str_again(a, b, n, j + 2);
        } else {
            lemma_str_end_bounds(a, j + 1);
            if j + 1 < n {
            } else {
                assert(j + 1 == n);
            }
            lemma_str_again(a, b, n, j + 1);
        }
    }
}

pub proof fn lemma_other_again(a: Seq<u8>, b: Seq<u8>, n: int, j: int)
    requires
        agree(a, b, n),
        0 <= j <= n,
        other_end(a, j) == n,
        forall|k: int| j <= k < n ==> ws_len(b, k) == 0,
        !is_other_at(b, n),
    ensures
        other_end(b, j) == n,
    decreases n - j,
{
    if j < n {
        lemma_other_end_bounds(a, j + 1);
        assert(ws_len(b, j) == 0);
        lemma_other_again(a, b, n, j + 1);
    }
}

/// A lead byte of a two- or three-byte character in a token stands with
/// its whole character in the token.
pub proof fn lemma_wide_inside(a: Seq<u8>, n: int, k: int)
    requires
        valid_utf8(a),
        0 <= k < n <= a.len(),
        is_char_boundary(a, n),
        a[k] == 0xC2 || a[k] == 0xE2,
    ensures
        a[k] == 0xC2 ==> k + 2 <= n,
        a[k] == 0xE2 ==> k + 3 <= n,
{
    is_char_boundary_iff_not_is_continuation_byte(a, k);
    let rest = a.subrange(k, a.len() as int);
    vstd::utf8::valid_utf8_split(a, k);
    assert(vstd::utf8::valid_first_scalar(rest));
    assert(rest[0] == a[k]);
    assert(rest[1] == a[k + 1]);
    if k + 1 < a.len() {
        is_char_boundary_iff_not_is_continuation_byte(a, k + 1);
    }
    if a[k] == 0xE2 {
        assert(rest[2] == a[k + 2]);
        if k + 2 < a.len() {
            is_char_boundary_iff_not_is_continuation_byte(a, k + 2);
        }
    }
}

/// Where one text reads no whitespace, the other reads none, if the
/// character there lies in the common start.
pub proof fn lemma_no_ws_again(a: Seq<u8>, b: Seq<u8>, n: int, k: int)
    requires
        valid_utf8(a),
        agree(a, b, n),
        0 <= k < n,
        is_char_boundary(a, n),
        ws_len(a, k) == 0,
    ensures
        ws_len(b, k) == 0,
{
    if a[k] == 0xC2 || a[k] == 0xE2 {
        lemma_wide_inside(a, n, k);
    }
}

/// The kinds of token that end by themselves: the single characters, the
/// bare line end, and the closed string.
pub open spec fn ends_itself(a: Seq<u8>) -> bool {
    match scan_kind(a, 0) {
        Lexeme::Comma => true,
        Lexeme::Colon => true,
        Lexeme::OpenBracket => true,
        Lexeme::CloseBracket => true,
        Lexeme::Eol(false) => true,
        Lexeme::Str => str_closed(a, 1),
        _ => false,
    }
}

/// A token that ends by itself is read again wherever its bytes stand
/// first.
pub proof fn lemma_rescan_self(a: Seq<u8>, b: Seq<u8>, n: int)
    requires
        valid_utf8(a),
        0 < a.len(),
        agree(a, b, n),
        n == scan_end(a, 0),
        is_char_boundary(a, n),
        ends_itself(a),
    ensures
        scan_kind(b, 0) == scan_kind(a, 0),
        scan_end(b, 0) == n,
        forall|line: int| #[trigger] scan_atom(b, 0, line) == scan_atom(a, 0, line),
{
    lemma_scan_bounds(a, 0);
    lemma_no_ws_again(a, b, n, 0);
    if scan_kind(a, 0) is Str {
        lemma_str_again(a, b, n, 1);
    }
    assert(a.subrange(0, n) =~= b.subrange(0, n));
}

/// An unclosed string is read again in a text that is its bytes.
pub proof fn lemma_rescan_open(a: Seq<u8>, b: Seq<u8>, n: int)
    requires
        valid_utf8(a),
        0 < a.len(),
        agree(a, b, n),
        n == scan_end(a, 0),
        is_char_boundary(a, n),
        scan_kind(a, 0) is Str,
        !str_closed(a, 1),
        b.len() == n,
    ensures
        scan_kind(b, 0) == scan_kind(a, 0),
        scan_end(b, 0) == n,
        forall|line: int| #[trigger] scan_atom(b, 0, line) == scan_atom(a, 0, line),
{
    lemma_scan_bounds(a, 0);
    lemma_str_end_bounds(a, 1);
    lemma_no_ws_again(a, b, n, 0);
    lemma_str_again(a, b, n, 1);
    assert(a.subrange(0, n) =~= b.subrange(0, n));
}

/// An identifier or a number is read again where its bytes stand first and
/// what follows them ends it.
pub proof fn lemma_rescan_word(a: Seq<u8>, b: Seq<u8>, n: int)
    requires
        valid_utf8(a),
        0 < a.len(),
        agree(a, b, n),
        n == scan_end(a, 0),
        is_char_boundary(a, n),
        scan_kind(a, 0) is Ident || scan_kind(a, 0) is Digit,
        same_next(a, b, n) || hard_stop(b, n),
    ensures
        scan_kind(b, 0) == scan_kind(a, 0),
        scan_end(b, 0) == n,
        forall|line: int| #[trigger] scan_atom(b, 0, line) == scan_atom(a, 0, line),
{
    lemma_scan_bounds(a, 0);
    lemma_no_ws_again(a, b, n, 0);
    lemma_run_end_bounds(a, 1, ByteClass::IdContinue);
    lemma_run_end_bounds(a, 1, ByteClass::Decimal);
    if scan_kind(a, 0) is Ident {
        lemma_run_again(a, b, n, 1, ByteClass::IdContinue);
    } else {
        let base = number_base(a, 0);
        if base == DigitBase::Decimal {
            lemma_run_again(a, b, n, 1, ByteClass::Decimal);
        } else {
            lemma_run_end_bounds(a, 2, digit_class(base));
            lemma_run_again(a, b, n, 2, digit_class(base));
        }
    }
    assert(a.subrange(0, n) =~= b.subrange(0, n));
}

/// A run of unclaimed bytes is read again where its bytes stand first and
/// what follows them is claimed or whitespace.
pub proof fn lemma_rescan_other(a: Seq<u8>, b: Seq<u8>, n: int)
    requires
        valid_utf8(a),
        0 < a.len(),
        agree(a, b, n),
        n == scan_end(a, 0),
        is_char_boundary(a, n),
        scan_kind(a, 0) is Other,
        !is_other_at(b, n),
    ensures
        scan_kind(b, 0) == scan_kind(a, 0),
        scan_end(b, 0) == n,
        forall|line: int| #[trigger] scan_atom(b, 0, line) == scan_atom(a, 0, line),
{
    lemma_scan_bounds(a, 0);
    lemma_no_ws_again(a, b, n, 0);
    assert forall|k: int| 1 <= k < n implies ws_len(b, k) == 0 by {
        lemma_other_inside(a, 1, k);
        lemma_no_ws_again(a, b, n, k);
    }
    lemma_other_again(a, b, n, 1);
    assert(a.subrange(0, n) =~= b.subrange(0, n));
}

proof fn lemma_other_inside(a: Seq<u8>, j: int, k: int)
    requires
        0 <= j <= k < other_end(a, j),
    ensures
        is_other_at(a, k),
    decreases k - j,
{
    if j < k {
        lemma_other_inside(a, j + 1, k);
    }
}

/// Whitespace is read again where its bytes stand first and no whitespace
/// follows them.
pub proof fn lemma_rescan_ws(a: Seq<u8>, b: Seq<u8>, n: int)
    requires
        0 < a.len(),
        agree(a, b, n),
        n == scan_end(a, 0),
        scan_kind(a, 0) is Whitespace,
        ws_len(b, n) == 0,
    ensures
        scan_kind(b, 0) is Whitespace,
        scan_end(b, 0) == n,
{
    lemma_scan_bounds(a, 0);
    lemma_ws_end_bounds(a, 0);
    lemma_ws_end_bounds(a, ws_len(a, 0));
    lemma_ws_len_again(a, b, n, 0);
    lemma_ws_again(a, b, n, 0);
}

/// Spaces before a text that starts with no whitespace are one whitespace
/// token.
pub proof fn lemma_scan_spaces(b: Seq<u8>, m: int)
    requires
        0 < m <= b.len(),
        forall|k: int| 0 <= k < m ==> b[k] == SPACE,
        ws_len(b, m) == 0,
    ensures
        scan_kind(b, 0) is Whitespace,
        scan_end(b, 0) == m,
{
    lemma_spaces_end(b, m, 0);
}

proof fn lemma_spaces_end(b: Seq<u8>, m: int, j: int)
    requires
        0 <= j <= m <= b.len(),
        forall|k: int| 0 <= k < m ==> b[k] == SPACE,
        ws_len(b, m) == 0,
    ensures
        ws_end(b, j) == m,
    decreases m - j,
{
    if j < m {
        assert(b[j] == SPACE);
        lemma_spaces_end(b, m, j + 1);
    }
}

/// A comment is read again in a text that is a semicolon, a body without
/// a newline, and then a newline or the end.
pub proof fn lemma_scan_comment(b: Seq<u8>, n: int)
    requires
        1 <= n <= b.len(),
        b[0] == SEMICOLON,
        forall|k: int| 1 <= k < n ==> b[k] != NEWLINE,
        n < b.len() ==> b[n] == NEWLINE,
    ensures
        scan_kind(b, 0) == Lexeme::Eol(true),
        scan_end(b, 0) == (if n < b.len() {
            n + 1
        } else {
            n
        }),
{
    lemma_body_end(b, n, 1);
}

proof fn lemma_body_end(b: Seq<u8>, n: int, j: int)
    requires
        1 <= j <= n <= b.len(),
        forall|k: int| 1 <= k < n ==> b[k] != NEWLINE,
        n < b.len() ==> b[n] == NEWLINE,
    ensures
        run_end(b, j, ByteClass::NotNewline) == n,
    decreases n - j,
{
    if j < n {
        assert(b[j] != NEWLINE);
        lemma_body_end(b, n, j + 1);
    }
}

} // verus!
