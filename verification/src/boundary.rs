//! Tokens and characters: in a UTF-8 text every token starts and ends
//! between two characters, so a span of the lexer can be cut out as text.

use vstd::prelude::*;
use vstd::utf8::{
    is_char_boundary, is_char_boundary_iff_not_is_continuation_byte,
    is_char_boundary_start_end_of_seq, is_continuation_byte, length_of_first_scalar,
    pop_first_scalar, valid_utf8,
};

use crate::lexeme::Lexeme;
use crate::scan::{
    lemma_other_end_bounds, lemma_run_end_bounds, lemma_scan_bounds, lemma_str_end_bounds,
    number_base, other_end, run_end, scan_end, scan_kind, str_closed, str_end, ws_end, ws_len,
    ByteClass,
};
use crate::tokens::{follows, is_token_of, lemma_tokens_from, tokens};

verus! {

/// A position of `bytes` between two characters, or at either end.
pub open spec fn is_boundary(bytes: Seq<u8>, i: int) -> bool {
    0 <= i <= bytes.len() && is_char_boundary(bytes, i)
}

/// The character that starts at a boundary ends at one.
pub proof fn lemma_boundary_step(bytes: Seq<u8>, i: int)
    requires
        valid_utf8(bytes),
        0 <= i < bytes.len(),
        is_char_boundary(bytes, i),
    ensures
        is_boundary(
            bytes,
            i + length_of_first_scalar(bytes.subrange(i, bytes.len() as int)),
        ),
    decreases bytes.len(),
{
    let len = bytes.len() as int;
    let first = length_of_first_scalar(bytes);
    let rest = pop_first_scalar(bytes);
    if i == 0 {
        assert(bytes.subrange(0, len) =~= bytes);
        assert(is_char_boundary(rest, 0));
    } else {
        assert(is_char_boundary(rest, i - first));
        assert(i - first >= 0);
        lemma_boundary_step(rest, i - first);
        assert(rest.subrange(i - first, rest.len() as int) =~= bytes.subrange(i, len));
    }
}

/// An ASCII byte is a character of its own.
pub proof fn lemma_ascii_boundary(bytes: Seq<u8>, i: int)
    requires
        valid_utf8(bytes),
        0 <= i < bytes.len(),
        bytes[i] < 0x80,
    ensures
        is_boundary(bytes, i),
        is_boundary(bytes, i + 1),
{
    is_char_boundary_iff_not_is_continuation_byte(bytes, i);
    lemma_boundary_step(bytes, i);
}

/// A position whose byte is no continuation byte is a boundary.
pub proof fn lemma_lead_boundary(bytes: Seq<u8>, i: int)
    requires
        valid_utf8(bytes),
        0 <= i <= bytes.len(),
        i < bytes.len() ==> !is_continuation_byte(bytes[i]),
    ensures
        is_boundary(bytes, i),
{
    if i < bytes.len() {
        is_char_boundary_iff_not_is_continuation_byte(bytes, i);
    } else {
        is_char_boundary_start_end_of_seq(bytes);
    }
}

/// A whitespace character ends at a boundary.
pub proof fn lemma_ws_boundary(bytes: Seq<u8>, i: int)
    requires
        valid_utf8(bytes),
        0 <= i < bytes.len(),
        ws_len(bytes, i) > 0,
    ensures
        is_boundary(bytes, i),
        is_boundary(bytes, i + ws_len(bytes, i)),
{
    is_char_boundary_iff_not_is_continuation_byte(bytes, i);
    lemma_boundary_step(bytes, i);
}

/// A run of whitespace ends at a boundary.
pub proof fn lemma_ws_end_boundary(bytes: Seq<u8>, i: int)
    requires
        valid_utf8(bytes),
        is_boundary(bytes, i),
    ensures
        is_boundary(bytes, ws_end(bytes, i)),
    decreases bytes.len() - i,
{
    if ws_len(bytes, i) > 0 {
        lemma_ws_boundary(bytes, i);
        lemma_ws_end_boundary(bytes, i + ws_len(bytes, i));
    }
}

/// A run of bytes of an ASCII class ends at a boundary.
pub proof fn lemma_run_end_boundary(bytes: Seq<u8>, i: int, class: ByteClass)
    requires
        valid_utf8(bytes),
        is_boundary(bytes, i),
        class != ByteClass::NotNewline,
    ensures
        is_boundary(bytes, run_end(bytes, i, class)),
    decreases bytes.len() - i,
{
    if i < bytes.len() && crate::scan::in_class(class, bytes[i]) {
        lemma_ascii_boundary(bytes, i);
        lemma_run_end_boundary(bytes, i + 1, class);
    }
}

/// The end of a string literal is a boundary, and so is the place of its
/// closing quote.
pub proof fn lemma_str_end_boundary(bytes: Seq<u8>, i: int)
    requires
        valid_utf8(bytes),
        0 <= i <= bytes.len(),
    ensures
        is_boundary(bytes, str_end(bytes, i)),
        str_closed(bytes, i) ==> is_boundary(bytes, str_end(bytes, i) - 1) && i <= str_end(
            bytes,
            i,
        ) - 1,
{
    lemma_str_end_bounds(bytes, i);
    if str_closed(bytes, i) {
        lemma_ascii_boundary(bytes, str_end(bytes, i) - 1);
    } else {
        is_char_boundary_start_end_of_seq(bytes);
    }
}

/// A token ends at a boundary.
pub proof fn lemma_scan_end_boundary(bytes: Seq<u8>, i: int)
    requires
        valid_utf8(bytes),
        0 <= i < bytes.len(),
        is_boundary(bytes, i),
    ensures
        is_boundary(bytes, scan_end(bytes, i)),
{
    lemma_scan_bounds(bytes, i);
    let end = scan_end(bytes, i);
    match scan_kind(bytes, i) {
        Lexeme::Eol(true) => {
            lemma_run_end_bounds(bytes, i + 1, ByteClass::NotNewline);
            if end < bytes.len() || bytes[end - 1] == crate::scan::NEWLINE {
                let e = run_end(bytes, i + 1, ByteClass::NotNewline);
                if e < bytes.len() {
                    lemma_ascii_boundary(bytes, e);
                } else {
                    is_char_boundary_start_end_of_seq(bytes);
                }
            } else {
                is_char_boundary_start_end_of_seq(bytes);
            }
        },
        Lexeme::Whitespace => {
            lemma_ws_end_boundary(bytes, i);
        },
        Lexeme::Ident => {
            lemma_ascii_boundary(bytes, i);
            lemma_run_end_boundary(bytes, i + 1, ByteClass::IdContinue);
        },
        Lexeme::Digit(base) => {
            lemma_ascii_boundary(bytes, i);
            if number_base(bytes, i) == crate::lexeme::DigitBase::Decimal {
                lemma_run_end_boundary(bytes, i + 1, ByteClass::Decimal);
            } else {
                lemma_ascii_boundary(bytes, i + 1);
                lemma_run_end_boundary(
                    bytes,
                    i + 2,
                    crate::scan::digit_class(number_base(bytes, i)),
                );
            }
        },
        Lexeme::Str => {
            lemma_str_end_boundary(bytes, i + 1);
        },
        Lexeme::Other => {
            lemma_other_end_bounds(bytes, i + 1);
            lemma_lead_boundary(bytes, other_end(bytes, i + 1));
        },
        _ => {
            lemma_ascii_boundary(bytes, i);
        },
    }
}

/// Every token of a UTF-8 text starts and ends at a boundary.
pub proof fn lemma_tokens_fit(bytes: Seq<u8>)
    requires
        valid_utf8(bytes),
        bytes.len() <= u32::MAX,
    ensures
        forall|k: int|
            0 <= k < tokens(bytes).len() ==> (#[trigger] tokens(bytes)[k]).span.fits(bytes),
{
    let t = tokens(bytes);
    lemma_tokens_from(bytes, 0, 0, 0);
    assert forall|k: int| 0 <= k < t.len() implies (#[trigger] t[k]).span.fits(bytes) by {
        lemma_token_fits(bytes, k);
    }
}

proof fn lemma_token_fits(bytes: Seq<u8>, k: int)
    requires
        valid_utf8(bytes),
        bytes.len() <= u32::MAX,
        0 <= k < tokens(bytes).len(),
    ensures
        tokens(bytes)[k].span.fits(bytes),
    decreases k,
{
    let t = tokens(bytes);
    lemma_tokens_from(bytes, 0, 0, 0);
    assert(is_token_of(bytes, t[k]));
    if k == 0 {
        assert(is_char_boundary(bytes, 0));
    } else {
        lemma_token_fits(bytes, k - 1);
        assert(follows(t[k - 1], t[k]));
    }
    let from = t[k].span.from as int;
    if from < bytes.len() {
        lemma_scan_bounds(bytes, from);
        lemma_scan_end_boundary(bytes, from);
    }
}

} // verus!
