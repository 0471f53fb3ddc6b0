//! Bytes and characters: the byte patterns that the lexer reads are the
//! encodings of the characters of its classes, and of no other character.

use vstd::prelude::*;
use vstd::utf8::{
    encode_scalar, encode_utf8, has_width_1_encoding, has_width_2_encoding, has_width_3_encoding,
};

use crate::lexeme::{is_ws_not_nl, spec_is_id_continue, spec_is_id_start, spec_is_other};
use crate::scan::{in_class, is_claimed_byte, is_id_start_byte, ws_len, ByteClass};

verus! {

proof fn lemma_width_1(v: u32)
    by (bit_vector)
    requires
        v <= 0x7F,
    ensures
        (v & 0x7F) as u8 == v,
        (v & 0x7F) as u8 <= 0x7F,
{
}

proof fn lemma_width_2(v: u32)
    by (bit_vector)
    requires
        0x80 <= v <= 0x7FF,
    ensures
        0xC0 <= (0xC0u8 | ((v >> 6) & 0x1F) as u8) <= 0xDF,
        0x80 <= (0x80u8 | (v & 0x3F) as u8) <= 0xBF,
        ((0xC0u8 | ((v >> 6) & 0x1F) as u8) == 0xC2 && (0x80u8 | (v & 0x3F) as u8) == 0x85) <==> v
            == 0x85,
{
}

proof fn lemma_width_3(v: u32)
    by (bit_vector)
    requires
        0x800 <= v <= 0xFFFF,
    ensures
        0xE0 <= (0xE0u8 | ((v >> 12) & 0x0F) as u8) <= 0xEF,
        0x80 <= (0x80u8 | ((v >> 6) & 0x3F) as u8) <= 0xBF,
        0x80 <= (0x80u8 | (v & 0x3F) as u8) <= 0xBF,
        ((0xE0u8 | ((v >> 12) & 0x0F) as u8) == 0xE2 && (0x80u8 | ((v >> 6) & 0x3F) as u8) == 0x80
            && (0x80u8 | (v & 0x3F) as u8) == 0x8E) <==> v == 0x200E,
        ((0xE0u8 | ((v >> 12) & 0x0F) as u8) == 0xE2 && (0x80u8 | ((v >> 6) & 0x3F) as u8) == 0x80
            && (0x80u8 | (v & 0x3F) as u8) == 0x8F) <==> v == 0x200F,
        ((0xE0u8 | ((v >> 12) & 0x0F) as u8) == 0xE2 && (0x80u8 | ((v >> 6) & 0x3F) as u8) == 0x80
            && (0x80u8 | (v & 0x3F) as u8) == 0xA8) <==> v == 0x2028,
        ((0xE0u8 | ((v >> 12) & 0x0F) as u8) == 0xE2 && (0x80u8 | ((v >> 6) & 0x3F) as u8) == 0x80
            && (0x80u8 | (v & 0x3F) as u8) == 0xA9) <==> v == 0x2029,
{
}

proof fn lemma_width_4(v: u32)
    by (bit_vector)
    requires
        0x10000 <= v <= 0x10FFFF,
    ensures
        0xF0 <= (0xF0u8 | ((v >> 18) & 0x7) as u8),
{
}

/// The bytes of a character, wherever they stand in a text, are read as
/// whitespace exactly when the character is whitespace other than the
/// newline, and then as a whitespace character of their length.
pub proof fn lemma_ws_bytes(c: char, before: Seq<u8>, after: Seq<u8>)
    ensures
        ws_len(before + encode_scalar(c as u32) + after, before.len() as int) == (if is_ws_not_nl(
            c,
        ) {
            encode_scalar(c as u32).len() as int
        } else {
            0
        }),
{
    let v = c as u32;
    let bytes = encode_scalar(v);
    let s = before + bytes + after;
    let i = before.len() as int;
    vstd::utf8::char_is_scalar(c);
    assert(s[i] == bytes[0]);
    if has_width_1_encoding(v) {
        lemma_width_1(v);
    } else if has_width_2_encoding(v) {
        lemma_width_2(v);
        assert(s[i + 1] == bytes[1]);
    } else if has_width_3_encoding(v) {
        lemma_width_3(v);
        assert(s[i + 1] == bytes[1]);
        assert(s[i + 2] == bytes[2]);
    } else {
        lemma_width_4(v);
    }
}

/// The first byte of a character starts an identifier, continues one, or
/// is claimed by a class exactly when the character is of that class; the
/// characters of these classes are single bytes.
pub proof fn lemma_class_bytes(c: char)
    ensures
        is_id_start_byte(encode_scalar(c as u32)[0]) == spec_is_id_start(c),
        in_class(ByteClass::IdContinue, encode_scalar(c as u32)[0]) == spec_is_id_continue(c),
        spec_is_other(c) == (!is_claimed_byte(encode_scalar(c as u32)[0]) && !is_ws_not_nl(c)),
        spec_is_id_continue(c) || is_claimed_byte(encode_scalar(c as u32)[0]) ==> encode_scalar(
            c as u32,
        ).len() == 1,
{
    let v = c as u32;
    vstd::utf8::char_is_scalar(c);
    if has_width_1_encoding(v) {
        lemma_width_1(v);
    } else if has_width_2_encoding(v) {
        lemma_width_2(v);
    } else if has_width_3_encoding(v) {
        lemma_width_3(v);
    } else {
        lemma_width_4(v);
    }
}

/// Encoding goes through concatenation.
pub proof fn lemma_encode_concat(a: Seq<char>, b: Seq<char>)
    ensures
        encode_utf8(a + b) == encode_utf8(a) + encode_utf8(b),
    decreases a.len(),
{
    if a.len() == 0 {
        assert(a + b =~= b);
        assert(encode_utf8(a) + encode_utf8(b) =~= encode_utf8(b));
    } else {
        lemma_encode_concat(a.drop_first(), b);
        assert((a + b).drop_first() =~= a.drop_first() + b);
        assert(encode_utf8(a + b) =~= encode_utf8(a) + encode_utf8(b));
    }
}

/// In the bytes of a text, at the place of any of its characters, the
/// lexer reads whitespace exactly when that character is whitespace other
/// than the newline.
pub proof fn lemma_ws_in_text(text: Seq<char>, k: int)
    requires
        0 <= k < text.len(),
    ensures
        ws_len(encode_utf8(text), encode_utf8(text.take(k)).len() as int) == (if is_ws_not_nl(
            text[k],
        ) {
            encode_scalar(text[k] as u32).len() as int
        } else {
            0
        }),
{
    let head = text.take(k);
    let tail = text.skip(k);
    assert(text =~= head + tail);
    lemma_encode_concat(head, tail);
    assert(tail.drop_first() =~= text.skip(k + 1));
    assert(encode_utf8(tail) == encode_scalar(text[k] as u32) + encode_utf8(text.skip(k + 1)));
    lemma_ws_bytes(text[k], encode_utf8(head), encode_utf8(text.skip(k + 1)));
    assert(encode_utf8(text) =~= encode_utf8(head) + encode_scalar(text[k] as u32)
        + encode_utf8(text.skip(k + 1)));
}

} // verus!
