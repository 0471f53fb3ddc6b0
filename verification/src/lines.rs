//! A reader of single lines that needs no lexer. Its dialect writes
//! sections with a dotted name (`section .text`), allows underscores in
//! numbers, knows floats, and reads the escapes of strings.
//!
//! Every reader starts at an offset of the line and says what it read and
//! where it stopped, that nothing of its kind stands there, or that the
//! line ended inside what it was reading.

use vstd::prelude::*;
use vstd::slice::slice_subrange;

use crate::scan::{
    byte_in_class, eat_class, in_class, is_id_start_byte, run_end, ByteClass, BACKSLASH,
    CLOSE_BRACKET, COLON, COMMA, NEWLINE, OPEN_BRACKET, QUOTE, SEMICOLON, SPACE, TAB, UNDERSCORE,
};
use crate::span::Span;

verus! {

/// What a reader found.
#[derive(Debug, Clone, PartialEq, Eq)]
pub enum Read<T> {
    /// This, and the offset after it.
    Done(T, usize),
    /// Nothing of the kind stands here.
    Miss,
    /// The line ended inside it.
    Short,
}

/// What a reader finds, as plain values.
pub enum Got<T> {
    Done(T, int),
    Miss,
    Short,
}

impl<T> Read<T> {
    pub open spec fn got(self) -> Got<T> {
        match self {
            Read::Done(x, at) => Got::Done(x, at as int),
            Read::Miss => Got::Miss,
            Read::Short => Got::Short,
        }
    }
}

/// A value of a line: the digits of a number without its prefix, a float,
/// an identifier, the identifier between brackets, or the bytes of a
/// string with its escapes resolved.
#[derive(Debug, Clone, PartialEq, Eq)]
pub enum Value {
    Hex(Span),
    Octal(Span),
    Binary(Span),
    Decimal(Span),
    Float(Span),
    Identifier(Span),
    Deref(Span),
    String(Vec<u8>),
}

/// A value as plain values.
pub enum ValueModel {
    Hex(Span),
    Octal(Span),
    Binary(Span),
    Decimal(Span),
    Float(Span),
    Identifier(Span),
    Deref(Span),
    String(Seq<u8>),
}

impl Value {
    pub open spec fn model(self) -> ValueModel {
        match self {
            Value::Hex(s) => ValueModel::Hex(s),
            Value::Octal(s) => ValueModel::Octal(s),
            Value::Binary(s) => ValueModel::Binary(s),
            Value::Decimal(s) => ValueModel::Decimal(s),
            Value::Float(s) => ValueModel::Float(s),
            Value::Identifier(s) => ValueModel::Identifier(s),
            Value::Deref(s) => ValueModel::Deref(s),
            Value::String(b) => ValueModel::String(b@),
        }
    }
}

pub open spec fn models(values: Seq<Value>) -> Seq<ValueModel> {
    Seq::new(values.len(), |i: int| values[i].model())
}

/// What stands on a line before its comment.
#[derive(Debug, Clone, PartialEq, Eq)]
pub enum LineKind {
    Empty,
    Section(Span),
    Label(Span),
    Ins(Span, Vec<Value>),
    Var { name: Span, dir: Span, val: Vec<Value> },
}

pub enum KindModel {
    Empty,
    Section(Span),
    Label(Span),
    Ins(Span, Seq<ValueModel>),
    Var { name: Span, dir: Span, val: Seq<ValueModel> },
}

impl LineKind {
    pub open spec fn model(self) -> KindModel {
        match self {
            LineKind::Empty => KindModel::Empty,
            LineKind::Section(s) => KindModel::Section(s),
            LineKind::Label(s) => KindModel::Label(s),
            LineKind::Ins(s, v) => KindModel::Ins(s, models(v@)),
            LineKind::Var { name, dir, val } => KindModel::Var { name, dir, val: models(val@) },
        }
    }
}

/// A line: what stands on it, and its comment from the semicolon on.
#[derive(Debug, Clone, PartialEq, Eq)]
pub struct Line {
    pub kind: LineKind,
    pub comment: Option<Span>,
}

pub struct LineModel {
    pub kind: KindModel,
    pub comment: Option<Span>,
}

impl Line {
    pub open spec fn model(self) -> LineModel {
        LineModel { kind: self.kind.model(), comment: self.comment }
    }
}

/// A line of a text: where it stands in the text, without its line end,
/// and the count that the walk over the lines keeps for it.
#[derive(Debug, Clone, Copy, PartialEq, Eq)]
pub struct Row {
    pub from: usize,
    pub to: usize,
    pub extra: u32,
}

pub open spec fn cut(from: int, to: int) -> Span {
    Span { from: from as u32, to: to as u32 }
}

fn cut_at(from: usize, to: usize) -> (s: Span)
    requires
        from <= to <= u32::MAX,
    ensures
        s == cut(from as int, to as int),
{
    Span { from: from as u32, to: to as u32 }
}

/// The end of the spaces and tabs from `i` on.
pub open spec fn blank_end(s: Seq<u8>, i: int) -> int
    decreases s.len() - i,
{
    if 0 <= i < s.len() && (s[i] == SPACE || s[i] == TAB) {
        blank_end(s, i + 1)
    } else {
        i
    }
}

pub proof fn lemma_blank_end(s: Seq<u8>, i: int)
    requires
        0 <= i <= s.len(),
    ensures
        i <= blank_end(s, i) <= s.len(),
    decreases s.len() - i,
{
    if i < s.len() && (s[i] == SPACE || s[i] == TAB) {
        lemma_blank_end(s, i + 1);
    }
}

fn eat_blank(bytes: &[u8], start: usize) -> (end: usize)
    requires
        start <= bytes.len(),
    ensures
        end == blank_end(bytes@, start as int),
        start <= end <= bytes.len(),
{
    let mut i = start;
    while i < bytes.len() && (bytes[i] == SPACE || bytes[i] == TAB)
        invariant
            start <= i <= bytes.len(),
            blank_end(bytes@, start as int) == blank_end(bytes@, i as int),
        decreases bytes.len() - i,
    {
        i += 1;
    }
    i
}

pub proof fn lemma_run_end(s: Seq<u8>, i: int, class: ByteClass)
    requires
        0 <= i <= s.len(),
    ensures
        i <= run_end(s, i, class) <= s.len(),
    decreases s.len() - i,
{
    if i < s.len() && in_class(class, s[i]) {
        lemma_run_end(s, i + 1, class);
    }
}

/// An identifier: a letter or an underscore, then letters, digits and
/// underscores.
pub open spec fn spec_identifier(s: Seq<u8>, i: int) -> Got<Span> {
    if 0 <= i < s.len() && is_id_start_byte(s[i]) {
        let e = run_end(s, i + 1, ByteClass::IdContinue);
        Got::Done(cut(i, e), e)
    } else {
        Got::Miss
    }
}

/// Reads an identifier at `i`.
pub fn identifier(bytes: &[u8], i: usize) -> (r: Read<Span>)
    requires
        i <= bytes.len() <= u32::MAX,
    ensures
        r.got() == spec_identifier(bytes@, i as int),
        r matches Read::Done(_, e) ==> i < e <= bytes.len(),
{
    if i < bytes.len() && byte_in_class(ByteClass::IdContinue, bytes[i]) && !(0x30 <= bytes[i]
        && bytes[i] <= 0x39) {
        let e = eat_class(bytes, i + 1, ByteClass::IdContinue);
        Read::Done(cut_at(i, e), e)
    } else {
        Read::Miss
    }
}

/// As `identifier`.
pub fn ident2(bytes: &[u8], i: usize) -> (r: Read<Span>)
    requires
        i <= bytes.len() <= u32::MAX,
    ensures
        r.got() == spec_identifier(bytes@, i as int),
        r matches Read::Done(_, e) ==> i < e <= bytes.len(),
{
    identifier(bytes, i)
}

/// Digits of `class`, the first of them no underscore.
pub open spec fn spec_digits(s: Seq<u8>, i: int, class: ByteClass) -> Got<Span> {
    if 0 <= i < s.len() && in_class(class, s[i]) && s[i] != UNDERSCORE {
        let e = run_end(s, i + 1, class);
        Got::Done(cut(i, e), e)
    } else {
        Got::Miss
    }
}

fn digits(bytes: &[u8], i: usize, class: ByteClass) -> (r: Read<Span>)
    requires
        i <= bytes.len() <= u32::MAX,
    ensures
        r.got() == spec_digits(bytes@, i as int, class),
        r matches Read::Done(_, e) ==> i < e <= bytes.len(),
{
    if i < bytes.len() && byte_in_class(class, bytes[i]) && bytes[i] != UNDERSCORE {
        let e = eat_class(bytes, i + 1, class);
        Read::Done(cut_at(i, e), e)
    } else {
        Read::Miss
    }
}

/// Digits of `class` after a zero and one of the two letters; the span
/// is that of the digits.
pub open spec fn spec_prefixed(s: Seq<u8>, i: int, lower: u8, upper: u8, class: ByteClass) -> Got<
    Span,
> {
    if 0 <= i && i + 1 < s.len() && s[i] == 0x30 && (s[i + 1] == lower || s[i + 1] == upper) {
        spec_digits(s, i + 2, class)
    } else {
        Got::Miss
    }
}

fn prefixed(bytes: &[u8], i: usize, lower: u8, upper: u8, class: ByteClass) -> (r: Read<Span>)
    requires
        i <= bytes.len() <= u32::MAX,
    ensures
        r.got() == spec_prefixed(bytes@, i as int, lower, upper, class),
        r matches Read::Done(_, e) ==> i < e <= bytes.len(),
{
    if i < bytes.len() && bytes.len() - i > 1 && bytes[i] == 0x30 && (bytes[i + 1] == lower
        || bytes[i + 1] == upper) {
        digits(bytes, i + 2, class)
    } else {
        Read::Miss
    }
}

/// The end of an exponent at `i`: `e` or `E`, a sign or none, and decimal
/// digits.
pub open spec fn spec_exponent(s: Seq<u8>, i: int) -> Option<int> {
    if 0 <= i < s.len() && (s[i] == 0x65 || s[i] == 0x45) {
        let j = if i + 1 < s.len() && (s[i + 1] == 0x2B || s[i + 1] == 0x2D) {
            i + 2
        } else {
            i + 1
        };
        match spec_digits(s, j, ByteClass::Decimal) {
            Got::Done(_, e) => Some(e),
            _ => None,
        }
    } else {
        None
    }
}

fn exponent(bytes: &[u8], i: usize) -> (r: Option<usize>)
    requires
        i <= bytes.len() <= u32::MAX,
    ensures
        match r {
            Some(e) => spec_exponent(bytes@, i as int) == Some(e as int) && i < e <= bytes.len(),
            None => spec_exponent(bytes@, i as int) is None,
        },
{
    if i < bytes.len() && (bytes[i] == 0x65 || bytes[i] == 0x45) {
        let j = if i + 1 < bytes.len() && (bytes[i + 1] == 0x2B || bytes[i + 1] == 0x2D) {
            i + 2
        } else {
            i + 1
        };
        match digits(bytes, j, ByteClass::Decimal) {
            Read::Done(_, e) => Some(e),
            _ => None,
        }
    } else {
        None
    }
}

/// The end of the digits after a point at `i`, if a point and digits
/// stand there.
pub open spec fn spec_fraction(s: Seq<u8>, i: int) -> Option<int> {
    if 0 <= i < s.len() && s[i] == 0x2E {
        match spec_digits(s, i + 1, ByteClass::Decimal) {
            Got::Done(_, e) => Some(e),
            _ => None,
        }
    } else {
        None
    }
}

fn fraction(bytes: &[u8], i: usize) -> (r: Option<usize>)
    requires
        i <= bytes.len() <= u32::MAX,
    ensures
        match r {
            Some(e) => spec_fraction(bytes@, i as int) == Some(e as int) && i < e <= bytes.len(),
            None => spec_fraction(bytes@, i as int) is None,
        },
{
    if i < bytes.len() && bytes[i] == 0x2E {
        match digits(bytes, i + 1, ByteClass::Decimal) {
            Read::Done(_, e) => Some(e),
            _ => None,
        }
    } else {
        None
    }
}

/// The end of a float at `i`, in the first of its three forms that stands
/// there: a point, digits and perhaps an exponent; digits, perhaps a
/// point and digits, and an exponent; digits, a point and perhaps digits.
pub open spec fn spec_float_end(s: Seq<u8>, i: int) -> Option<int> {
    let first = match spec_fraction(s, i) {
        Some(e1) => Some(
            match spec_exponent(s, e1) {
                Some(e) => e,
                None => e1,
            },
        ),
        None => None,
    };
    let second = match spec_digits(s, i, ByteClass::Decimal) {
        Got::Done(_, e1) => spec_exponent(
            s,
            match spec_fraction(s, e1) {
                Some(e2) => e2,
                None => e1,
            },
        ),
        _ => None,
    };
    let third = match spec_digits(s, i, ByteClass::Decimal) {
        Got::Done(_, e1) => if e1 < s.len() && s[e1] == 0x2E {
            Some(
                match spec_digits(s, e1 + 1, ByteClass::Decimal) {
                    Got::Done(_, e) => e,
                    _ => e1 + 1,
                },
            )
        } else {
            None
        },
        _ => None,
    };
    if first is Some {
        first
    } else if second is Some {
        second
    } else {
        third
    }
}

pub open spec fn spec_float(s: Seq<u8>, i: int) -> Got<Span> {
    match spec_float_end(s, i) {
        Some(e) => Got::Done(cut(i, e), e),
        None => Got::Miss,
    }
}

fn float(bytes: &[u8], i: usize) -> (r: Read<Span>)
    requires
        i <= bytes.len() <= u32::MAX,
    ensures
        r.got() == spec_float(bytes@, i as int),
        r matches Read::Done(_, e) ==> i < e <= bytes.len(),
{
    if let Some(e1) = fraction(bytes, i) {
        let e = match exponent(bytes, e1) {
            Some(e) => e,
            None => e1,
        };
        return Read::Done(cut_at(i, e), e);
    }
    if let Read::Done(_, e1) = digits(bytes, i, ByteClass::Decimal) {
        let e2 = match fraction(bytes, e1) {
            Some(e2) => e2,
            None => e1,
        };
        if let Some(e) = exponent(bytes, e2) {
            return Read::Done(cut_at(i, e), e);
        }
        if e1 < bytes.len() && bytes[e1] == 0x2E {
            let e = match digits(bytes, e1 + 1, ByteClass::Decimal) {
                Read::Done(_, e) => e,
                _ => e1 + 1,
            };
            return Read::Done(cut_at(i, e), e);
        }
    }
    Read::Miss
}

/// `[`, an identifier with blanks around it, `]`: the identifier.
pub open spec fn spec_derefed(s: Seq<u8>, i: int) -> Got<Span> {
    if 0 <= i < s.len() && s[i] == OPEN_BRACKET {
        match spec_identifier(s, blank_end(s, i + 1)) {
            Got::Done(w, k) => {
                let m = blank_end(s, k);
                if m < s.len() && s[m] == CLOSE_BRACKET {
                    Got::Done(w, m + 1)
                } else {
                    Got::Miss
                }
            },
            _ => Got::Miss,
        }
    } else {
        Got::Miss
    }
}

/// Reads a bracketed identifier at `i`.
pub fn derefed(bytes: &[u8], i: usize) -> (r: Read<Span>)
    requires
        i <= bytes.len() <= u32::MAX,
    ensures
        r.got() == spec_derefed(bytes@, i as int),
        r matches Read::Done(_, e) ==> i < e <= bytes.len(),
{
    if i < bytes.len() && bytes[i] == OPEN_BRACKET {
        let j = eat_blank(bytes, i + 1);
        match identifier(bytes, j) {
            Read::Done(w, k) => {
                let m = eat_blank(bytes, k);
                if m < bytes.len() && bytes[m] == CLOSE_BRACKET {
                    Read::Done(w, m + 1)
                } else {
                    Read::Miss
                }
            },
            _ => Read::Miss,
        }
    } else {
        Read::Miss
    }
}

/// The end of the hexadecimal digits from `i` on.
pub open spec fn hex_end(s: Seq<u8>, i: int) -> int
    decreases s.len() - i,
{
    if 0 <= i < s.len() && in_class(ByteClass::Hex, s[i]) && s[i] != UNDERSCORE {
        hex_end(s, i + 1)
    } else {
        i
    }
}

fn eat_hex(bytes: &[u8], start: usize) -> (end: usize)
    requires
        start <= bytes.len(),
    ensures
        end == hex_end(bytes@, start as int),
        start <= end <= bytes.len(),
{
    let mut i = start;
    while i < bytes.len() && byte_in_class(ByteClass::Hex, bytes[i]) && bytes[i] != UNDERSCORE
        invariant
            start <= i <= bytes.len(),
            hex_end(bytes@, start as int) == hex_end(bytes@, i as int),
        decreases bytes.len() - i,
    {
        i += 1;
    }
    i
}

/// The value of a hexadecimal digit.
pub open spec fn hex_digit(b: u8) -> u32 {
    if 0x30 <= b <= 0x39 {
        (b - 0x30) as u32
    } else if 0x61 <= b <= 0x66 {
        (b - 0x61 + 10) as u32
    } else {
        (b - 0x41 + 10) as u32
    }
}

/// The number that the first `n` bytes from `p` on write in base 16, for
/// at most six of them.
pub open spec fn hex_number(s: Seq<u8>, p: int, n: int) -> u32
    decreases n,
{
    if n <= 0 {
        0
    } else {
        ((hex_number(s, p, n - 1) * 16) as u32 + hex_digit(s[p + n - 1])) as u32
    }
}

/// What a number of at most `n` hexadecimal digits is below.
pub open spec fn hex_bound(n: int) -> int
    decreases n,
{
    if n <= 0 {
        1
    } else {
        16 * hex_bound(n - 1)
    }
}

fn hex_value(bytes: &[u8], p: usize, n: usize) -> (v: u32)
    requires
        p + n <= bytes.len(),
        n <= 6,
        forall|k: int|
            p <= k < p + n ==> in_class(ByteClass::Hex, #[trigger] bytes@[k]) && bytes@[k]
                != UNDERSCORE,
    ensures
        v == hex_number(bytes@, p as int, n as int),
{
    let mut v: u32 = 0;
    let mut k: usize = 0;
    proof {
        reveal_with_fuel(hex_bound, 8);
    }
    while k < n
        invariant
            k <= n <= 6,
            p + n <= bytes.len(),
            v == hex_number(bytes@, p as int, k as int),
            v < hex_bound(k as int),
            hex_bound(6) == 16777216,
            forall|j: int|
                p <= j < p + n ==> in_class(ByteClass::Hex, #[trigger] bytes@[j]) && bytes@[j]
                    != UNDERSCORE,
        decreases n - k,
    {
        let b = bytes[p + k];
        proof {
            assert(in_class(ByteClass::Hex, bytes@[p + k]));
            lemma_hex_bound(k as int);
        }
        let d: u32 = if 0x30 <= b && b <= 0x39 {
            (b - 0x30) as u32
        } else if 0x61 <= b && b <= 0x66 {
            (b - 0x61 + 10) as u32
        } else {
            (b - 0x41 + 10) as u32
        };
        v = v * 16 + d;
        k += 1;
    }
    v
}

proof fn lemma_hex_bound(k: int)
    requires
        0 <= k < 6,
    ensures
        16 * hex_bound(k) <= 16777216,
        hex_bound(k + 1) == 16 * hex_bound(k),
{
    reveal_with_fuel(hex_bound, 8);
}

/// A number that is a character: below the surrogates, or above them up
/// to the last code point.
pub open spec fn is_scalar(v: u32) -> bool {
    v < 0xD800 || (0xE000 <= v <= 0x10FFFF)
}

/// `u`, `{`, one to six hexadecimal digits, `}`: the character with that
/// number. The line must go on after the digits for them to be read.
pub open spec fn spec_unicode(s: Seq<u8>, i: int) -> Got<u32> {
    if 0 <= i && i + 1 < s.len() && s[i] == 0x75 && s[i + 1] == 0x7B {
        let p = i + 2;
        let e = hex_end(s, p);
        if e >= s.len() && s.len() - p < 6 {
            Got::Short
        } else if e == p {
            Got::Miss
        } else {
            let q = if e - p > 6 {
                p + 6
            } else {
                e
            };
            if q < s.len() && s[q] == 0x7D && is_scalar(hex_number(s, p, q - p)) {
                Got::Done(hex_number(s, p, q - p), q + 1)
            } else {
                Got::Miss
            }
        }
    } else {
        Got::Miss
    }
}

proof fn lemma_hex_end(s: Seq<u8>, i: int)
    requires
        0 <= i <= s.len(),
    ensures
        i <= hex_end(s, i) <= s.len(),
        forall|k: int|
            i <= k < hex_end(s, i) ==> in_class(ByteClass::Hex, #[trigger] s[k]) && s[k]
                != UNDERSCORE,
    decreases s.len() - i,
{
    if i < s.len() && in_class(ByteClass::Hex, s[i]) && s[i] != UNDERSCORE {
        lemma_hex_end(s, i + 1);
    }
}

fn unicode(bytes: &[u8], i: usize) -> (r: Read<u32>)
    requires
        i <= bytes.len() <= u32::MAX,
    ensures
        r.got() == spec_unicode(bytes@, i as int),
        r matches Read::Done(_, e) ==> i < e <= bytes.len(),
{
    if i < bytes.len() && bytes.len() - i > 1 && bytes[i] == 0x75 && bytes[i + 1] == 0x7B {
        let p = i + 2;
        let e = eat_hex(bytes, p);
        proof {
            lemma_hex_end(bytes@, p as int);
        }
        if e >= bytes.len() && bytes.len() - p < 6 {
            Read::Short
        } else if e == p {
            Read::Miss
        } else {
            let q = if e - p > 6 {
                p + 6
            } else {
                e
            };
            if q < bytes.len() && bytes[q] == 0x7D {
                let v = hex_value(bytes, p, q - p);
                if v < 0xD800 || (0xE000 <= v && v <= 0x10FFFF) {
                    Read::Done(v, q + 1)
                } else {
                    Read::Miss
                }
            } else {
                Read::Miss
            }
        }
    } else {
        Read::Miss
    }
}

/// The character that a letter after a backslash stands for.
pub open spec fn spec_escape(b: u8) -> Option<u32> {
    if b == 0x6E {
        Some(0x0Au32)
    } else if b == 0x72 {
        Some(0x0Du32)
    } else if b == 0x74 {
        Some(0x09u32)
    } else if b == 0x62 {
        Some(0x08u32)
    } else if b == 0x66 {
        Some(0x0Cu32)
    } else if b == BACKSLASH || b == 0x2F || b == QUOTE {
        Some(b as u32)
    } else {
        None
    }
}

/// A backslash and what names a character after it.
pub open spec fn spec_escaped(s: Seq<u8>, i: int) -> Got<u32> {
    if 0 <= i < s.len() && s[i] == BACKSLASH {
        match spec_unicode(s, i + 1) {
            Got::Done(c, e) => Got::Done(c, e),
            Got::Short => Got::Short,
            Got::Miss => if i + 1 < s.len() && spec_escape(s[i + 1]) is Some {
                Got::Done(spec_escape(s[i + 1])->0, i + 2)
            } else {
                Got::Miss
            },
        }
    } else {
        Got::Miss
    }
}

fn escaped(bytes: &[u8], i: usize) -> (r: Read<u32>)
    requires
        i <= bytes.len() <= u32::MAX,
    ensures
        r.got() == spec_escaped(bytes@, i as int),
        r matches Read::Done(_, e) ==> i < e <= bytes.len(),
{
    if i < bytes.len() && bytes[i] == BACKSLASH {
        match unicode(bytes, i + 1) {
            Read::Done(c, e) => Read::Done(c, e),
            Read::Short => Read::Short,
            Read::Miss => {
                if i + 1 < bytes.len() {
                    let b = bytes[i + 1];
                    if b == 0x6E {
                        Read::Done(0x0A, i + 2)
                    } else if b == 0x72 {
                        Read::Done(0x0D, i + 2)
                    } else if b == 0x74 {
                        Read::Done(0x09, i + 2)
                    } else if b == 0x62 {
                        Read::Done(0x08, i + 2)
                    } else if b == 0x66 {
                        Read::Done(0x0C, i + 2)
                    } else if b == BACKSLASH || b == 0x2F || b == QUOTE {
                        Read::Done(b as u32, i + 2)
                    } else {
                        Read::Miss
                    }
                } else {
                    Read::Miss
                }
            },
        }
    } else {
        Read::Miss
    }
}

/// The end of the spaces, tabs, carriage returns and newlines from `i`
/// on.
pub open spec fn gap_end(s: Seq<u8>, i: int) -> int
    decreases s.len() - i,
{
    if 0 <= i < s.len() && (s[i] == SPACE || s[i] == TAB || s[i] == 0x0D || s[i] == NEWLINE) {
        gap_end(s, i + 1)
    } else {
        i
    }
}

fn eat_gap(bytes: &[u8], start: usize) -> (end: usize)
    requires
        start <= bytes.len(),
    ensures
        end == gap_end(bytes@, start as int),
        start <= end <= bytes.len(),
{
    let mut i = start;
    while i < bytes.len() && (bytes[i] == SPACE || bytes[i] == TAB || bytes[i] == 0x0D || bytes[i]
        == NEWLINE)
        invariant
            start <= i <= bytes.len(),
            gap_end(bytes@, start as int) == gap_end(bytes@, i as int),
        decreases bytes.len() - i,
    {
        i += 1;
    }
    i
}

/// The first offset from `i` on at which a quote or a backslash stands,
/// or the end.
pub open spec fn text_end(s: Seq<u8>, i: int) -> int
    decreases s.len() - i,
{
    if 0 <= i < s.len() && s[i] != QUOTE && s[i] != BACKSLASH {
        text_end(s, i + 1)
    } else {
        i
    }
}

fn eat_text(bytes: &[u8], start: usize) -> (end: usize)
    requires
        start <= bytes.len(),
    ensures
        end == text_end(bytes@, start as int),
        start <= end <= bytes.len(),
{
    let mut i = start;
    while i < bytes.len() && bytes[i] != QUOTE && bytes[i] != BACKSLASH
        invariant
            start <= i <= bytes.len(),
            text_end(bytes@, start as int) == text_end(bytes@, i as int),
        decreases bytes.len() - i,
    {
        i += 1;
    }
    i
}

/// The UTF-8 bytes of the character with the number `c`.
pub open spec fn utf8(c: u32) -> Seq<u8> {
    if c < 0x80 {
        seq![c as u8]
    } else if c < 0x800 {
        seq![(0xC0 | (c >> 6)) as u8, (0x80 | (c & 0x3F)) as u8]
    } else if c < 0x10000 {
        seq![
            (0xE0 | (c >> 12)) as u8,
            (0x80 | ((c >> 6) & 0x3F)) as u8,
            (0x80 | (c & 0x3F)) as u8,
        ]
    } else {
        seq![
            (0xF0 | (c >> 18)) as u8,
            (0x80 | ((c >> 12) & 0x3F)) as u8,
            (0x80 | ((c >> 6) & 0x3F)) as u8,
            (0x80 | (c & 0x3F)) as u8,
        ]
    }
}

fn push_utf8(out: &mut Vec<u8>, c: u32)
    ensures
        final(out)@ == old(out)@ + utf8(c),
{
    let ghost before = out@;
    if c < 0x80 {
        out.push(#[verifier::truncate] (c as u8));
        proof {
            assert(out@ =~= before + utf8(c));
        }
    } else if c < 0x800 {
        out.push(#[verifier::truncate] ((0xC0 | (c >> 6)) as u8));
        out.push(#[verifier::truncate] ((0x80 | (c & 0x3F)) as u8));
        proof {
            assert(out@ =~= before + utf8(c));
        }
    } else if c < 0x10000 {
        out.push(#[verifier::truncate] ((0xE0 | (c >> 12)) as u8));
        out.push(#[verifier::truncate] ((0x80 | ((c >> 6) & 0x3F)) as u8));
        out.push(#[verifier::truncate] ((0x80 | (c & 0x3F)) as u8));
        proof {
            assert(out@ =~= before + utf8(c));
        }
    } else {
        out.push(#[verifier::truncate] ((0xF0 | (c >> 18)) as u8));
        out.push(#[verifier::truncate] ((0x80 | ((c >> 12) & 0x3F)) as u8));
        out.push(#[verifier::truncate] ((0x80 | ((c >> 6) & 0x3F)) as u8));
        out.push(#[verifier::truncate] ((0x80 | (c & 0x3F)) as u8));
        proof {
            assert(out@ =~= before + utf8(c));
        }
    }
}

/// A piece of a string at `i`: text up to the next quote or backslash,
/// which must come; an escaped character; or a backslash and whitespace
/// after it, which stand for nothing and after which the line must go
/// on. The bytes that the piece stands for.
pub open spec fn spec_fragment(s: Seq<u8>, i: int) -> Got<Seq<u8>> {
    let e = text_end(s, i);
    if e >= s.len() {
        Got::Short
    } else if e > i {
        Got::Done(s.subrange(i, e), e)
    } else {
        match spec_escaped(s, i) {
            Got::Done(c, k) => Got::Done(utf8(c), k),
            Got::Short => Got::Short,
            Got::Miss => if s[i] == BACKSLASH {
                let g = gap_end(s, i + 1);
                if g >= s.len() {
                    Got::Short
                } else if g > i + 1 {
                    Got::Done(Seq::empty(), g)
                } else {
                    Got::Miss
                }
            } else {
                Got::Miss
            },
        }
    }
}

/// The pieces of a string from `i` on, after the bytes `acc`.
pub open spec fn spec_fragments(s: Seq<u8>, i: int, acc: Seq<u8>) -> Got<Seq<u8>>
    decreases s.len() - i,
{
    match spec_fragment(s, i) {
        Got::Done(b, e) => if i < e <= s.len() {
            spec_fragments(s, e, acc + b)
        } else {
            Got::Miss
        },
        Got::Miss => Got::Done(acc, i),
        Got::Short => Got::Short,
    }
}

/// A string at `i`: a quote, pieces, a quote. The bytes it stands for.
pub open spec fn spec_string(s: Seq<u8>, i: int) -> Got<Seq<u8>> {
    if 0 <= i < s.len() && s[i] == QUOTE {
        match spec_fragments(s, i + 1, Seq::empty()) {
            Got::Done(acc, e) => if e < s.len() && s[e] == QUOTE {
                Got::Done(acc, e + 1)
            } else {
                Got::Miss
            },
            Got::Short => Got::Short,
            Got::Miss => Got::Miss,
        }
    } else {
        Got::Miss
    }
}

/// What `parse_string` found, as plain values.
pub open spec fn got_bytes(r: Read<Vec<u8>>) -> Got<Seq<u8>> {
    match r {
        Read::Done(b, at) => Got::Done(b@, at as int),
        Read::Miss => Got::Miss,
        Read::Short => Got::Short,
    }
}

/// Reads a string at `i`.
pub fn parse_string(bytes: &[u8], i: usize) -> (r: Read<Vec<u8>>)
    requires
        i <= bytes.len() <= u32::MAX,
    ensures
        got_bytes(r) == spec_string(bytes@, i as int),
        r matches Read::Done(_, e) ==> i < e <= bytes.len(),
{
    if !(i < bytes.len() && bytes[i] == QUOTE) {
        return Read::Miss;
    }
    let mut out: Vec<u8> = Vec::new();
    let mut j = i + 1;
    let ghost s = bytes@;
    loop
        invariant
            s == bytes@,
            i < j <= bytes.len() <= u32::MAX,
            s[i as int] == QUOTE,
            spec_fragments(s, i + 1, Seq::empty()) == spec_fragments(s, j as int, out@),
        ensures
            i < j <= bytes.len(),
            spec_fragments(s, i + 1, Seq::empty()) == Got::Done(out@, j as int),
        decreases bytes.len() - j,
    {
        let e = eat_text(bytes, j);
        if e >= bytes.len() {
            proof {
                assert(spec_fragment(s, j as int) is Short);
                assert(spec_fragments(s, j as int, out@) is Short);
            }
            return Read::Short;
        }
        if e > j {
            let ghost before = out@;
            let mut k = j;
            while k < e
                invariant
                    j <= k <= e <= bytes.len(),
                    s == bytes@,
                    out@ == before + s.subrange(j as int, k as int),
                decreases e - k,
            {
                out.push(bytes[k]);
                proof {
                    assert(before + s.subrange(j as int, k as int + 1) =~= (before + s.subrange(
                        j as int,
                        k as int,
                    )).push(s[k as int]));
                }
                k += 1;
            }
            proof {
                assert(spec_fragment(s, j as int) == Got::Done(s.subrange(j as int, e as int), e as int));
            }
            j = e;
        } else {
            match escaped(bytes, j) {
                Read::Done(c, k) => {
                    push_utf8(&mut out, c);
                    j = k;
                },
                Read::Short => {
                    proof {
                        assert(spec_fragment(s, j as int) is Short);
                        assert(spec_fragments(s, j as int, out@) is Short);
                    }
                    return Read::Short;
                },
                Read::Miss => {
                    if bytes[j] == BACKSLASH {
                        let g = eat_gap(bytes, j + 1);
                        if g >= bytes.len() {
                            proof {
                                assert(spec_fragment(s, j as int) is Short);
                                assert(spec_fragments(s, j as int, out@) is Short);
                            }
                            return Read::Short;
                        } else if g > j + 1 {
                            proof {
                                assert(out@ + Seq::<u8>::empty() =~= out@);
                            }
                            j = g;
                        } else {
                            break ;
                        }
                    } else {
                        break ;
                    }
                },
            }
        }
    }
    if j < bytes.len() && bytes[j] == QUOTE {
        Read::Done(out, j + 1)
    } else {
        Read::Miss
    }
}

/// A value at `i`: the first that stands there of a hexadecimal, an
/// octal, a binary and a decimal number, a float, an identifier, a
/// bracketed identifier and a string.
pub open spec fn spec_val(s: Seq<u8>, i: int) -> Got<ValueModel> {
    if let Got::Done(x, e) = spec_prefixed(s, i, 0x78, 0x58, ByteClass::Hex) {
        Got::Done(ValueModel::Hex(x), e)
    } else if let Got::Done(x, e) = spec_prefixed(s, i, 0x6F, 0x4F, ByteClass::Octal) {
        Got::Done(ValueModel::Octal(x), e)
    } else if let Got::Done(x, e) = spec_prefixed(s, i, 0x62, 0x42, ByteClass::Binary) {
        Got::Done(ValueModel::Binary(x), e)
    } else if let Got::Done(x, e) = spec_digits(s, i, ByteClass::Decimal) {
        Got::Done(ValueModel::Decimal(x), e)
    } else if let Got::Done(x, e) = spec_float(s, i) {
        Got::Done(ValueModel::Float(x), e)
    } else if let Got::Done(x, e) = spec_identifier(s, i) {
        Got::Done(ValueModel::Identifier(x), e)
    } else if let Got::Done(x, e) = spec_derefed(s, i) {
        Got::Done(ValueModel::Deref(x), e)
    } else {
        match spec_string(s, i) {
            Got::Done(b, e) => Got::Done(ValueModel::String(b), e),
            Got::Short => Got::Short,
            Got::Miss => Got::Miss,
        }
    }
}

/// What a reader of a value found, as plain values.
pub open spec fn got_value(r: Read<Value>) -> Got<ValueModel> {
    match r {
        Read::Done(v, at) => Got::Done(v.model(), at as int),
        Read::Miss => Got::Miss,
        Read::Short => Got::Short,
    }
}

/// Reads a value at `i`.
pub fn val(bytes: &[u8], i: usize) -> (r: Read<Value>)
    requires
        i <= bytes.len() <= u32::MAX,
    ensures
        got_value(r) == spec_val(bytes@, i as int),
        r matches Read::Done(_, e) ==> i < e <= bytes.len(),
{
    if let Read::Done(x, e) = prefixed(bytes, i, 0x78, 0x58, ByteClass::Hex) {
        return Read::Done(Value::Hex(x), e);
    }
    if let Read::Done(x, e) = prefixed(bytes, i, 0x6F, 0x4F, ByteClass::Octal) {
        return Read::Done(Value::Octal(x), e);
    }
    if let Read::Done(x, e) = prefixed(bytes, i, 0x62, 0x42, ByteClass::Binary) {
        return Read::Done(Value::Binary(x), e);
    }
    if let Read::Done(x, e) = digits(bytes, i, ByteClass::Decimal) {
        return Read::Done(Value::Decimal(x), e);
    }
    if let Read::Done(x, e) = float(bytes, i) {
        return Read::Done(Value::Float(x), e);
    }
    if let Read::Done(x, e) = identifier(bytes, i) {
        return Read::Done(Value::Identifier(x), e);
    }
    if let Read::Done(x, e) = derefed(bytes, i) {
        return Read::Done(Value::Deref(x), e);
    }
    match parse_string(bytes, i) {
        Read::Done(b, e) => Read::Done(Value::String(b), e),
        Read::Short => Read::Short,
        Read::Miss => Read::Miss,
    }
}

/// A value with blanks around it.
pub open spec fn spec_spaced_val(s: Seq<u8>, i: int) -> Got<ValueModel> {
    match spec_val(s, blank_end(s, i)) {
        Got::Done(v, e) => Got::Done(v, blank_end(s, e)),
        Got::Short => Got::Short,
        Got::Miss => Got::Miss,
    }
}

fn spaced_val(bytes: &[u8], i: usize) -> (r: Read<Value>)
    requires
        i <= bytes.len() <= u32::MAX,
    ensures
        got_value(r) == spec_spaced_val(bytes@, i as int),
        r matches Read::Done(_, e) ==> i < e <= bytes.len(),
{
    let p = eat_blank(bytes, i);
    match val(bytes, p) {
        Read::Done(v, e) => Read::Done(v, eat_blank(bytes, e)),
        Read::Short => Read::Short,
        Read::Miss => Read::Miss,
    }
}

/// The values after `acc`, each after a comma. A comma that no value
/// follows is not read.
pub open spec fn spec_more(s: Seq<u8>, i: int, acc: Seq<ValueModel>) -> Got<Seq<ValueModel>>
    decreases s.len() - i,
{
    if 0 <= i < s.len() && s[i] == COMMA {
        match spec_spaced_val(s, i + 1) {
            Got::Done(v, e) => if i < e <= s.len() {
                spec_more(s, e, acc.push(v))
            } else {
                Got::Miss
            },
            Got::Miss => Got::Done(acc, i),
            Got::Short => Got::Short,
        }
    } else {
        Got::Done(acc, i)
    }
}

/// Values with commas between them, with blanks around the whole; at
/// least one value if `one` is set.
pub open spec fn spec_values(s: Seq<u8>, i: int, one: bool) -> Got<Seq<ValueModel>> {
    let p = blank_end(s, i);
    let list = match spec_spaced_val(s, p) {
        Got::Done(v, e) => spec_more(s, e, seq![v]),
        Got::Miss => if one {
            Got::Miss
        } else {
            Got::Done(Seq::empty(), p)
        },
        Got::Short => Got::Short,
    };
    match list {
        Got::Done(vs, e) => Got::Done(vs, blank_end(s, e)),
        Got::Short => Got::Short,
        Got::Miss => Got::Miss,
    }
}

/// What a reader of values found, as plain values.
pub open spec fn got_values(r: Read<Vec<Value>>) -> Got<Seq<ValueModel>> {
    match r {
        Read::Done(v, at) => Got::Done(models(v@), at as int),
        Read::Miss => Got::Miss,
        Read::Short => Got::Short,
    }
}

fn values(bytes: &[u8], i: usize, one: bool) -> (r: Read<Vec<Value>>)
    requires
        i <= bytes.len() <= u32::MAX,
    ensures
        got_values(r) == spec_values(bytes@, i as int, one),
        r matches Read::Done(_, e) ==> i <= e <= bytes.len(),
{
    let p = eat_blank(bytes, i);
    let mut out: Vec<Value> = Vec::new();
    let mut j: usize;
    let ghost s = bytes@;
    match spaced_val(bytes, p) {
        Read::Done(v, e) => {
            out.push(v);
            j = e;
            proof {
                assert(models(out@) =~= seq![v.model()]);
            }
        },
        Read::Miss => {
            if one {
                return Read::Miss;
            }
            proof {
                assert(models(out@) =~= Seq::<ValueModel>::empty());
            }
            return Read::Done(out, eat_blank(bytes, p));
        },
        Read::Short => {
            return Read::Short;
        },
    }
    loop
        invariant
            s == bytes@,
            i <= j <= bytes.len() <= u32::MAX,
            spec_values(s, i as int, one) == (match spec_more(s, j as int, models(out@)) {
                Got::Done(vs, e) => Got::Done(vs, blank_end(s, e)),
                Got::Short => Got::Short,
                Got::Miss => Got::Miss,
            }),
        ensures
            i <= j <= bytes.len(),
            spec_values(s, i as int, one) == Got::Done(models(out@), blank_end(s, j as int)),
        decreases bytes.len() - j,
    {
        if !(j < bytes.len() && bytes[j] == COMMA) {
            break ;
        }
        match spaced_val(bytes, j + 1) {
            Read::Done(v, e) => {
                let ghost before = out@;
                out.push(v);
                proof {
                    assert(models(out@) =~= models(before).push(v.model()));
                }
                j = e;
            },
            Read::Miss => {
                break ;
            },
            Read::Short => {
                return Read::Short;
            },
        }
    }
    Read::Done(out, eat_blank(bytes, j))
}

/// Reads values with commas between them, none too.
pub fn values0(bytes: &[u8], i: usize) -> (r: Read<Vec<Value>>)
    requires
        i <= bytes.len() <= u32::MAX,
    ensures
        got_values(r) == spec_values(bytes@, i as int, false),
        r matches Read::Done(_, e) ==> i <= e <= bytes.len(),
{
    values(bytes, i, false)
}

/// Reads values with commas between them, at least one.
pub fn values1(bytes: &[u8], i: usize) -> (r: Read<Vec<Value>>)
    requires
        i <= bytes.len() <= u32::MAX,
    ensures
        got_values(r) == spec_values(bytes@, i as int, true),
        r matches Read::Done(_, e) ==> i <= e <= bytes.len(),
{
    values(bytes, i, true)
}

/// The word `section`.
pub open spec fn at_section(s: Seq<u8>, p: int) -> bool {
    &&& 0 <= p
    &&& p + 7 <= s.len()
    &&& s[p] == 0x73
    &&& s[p + 1] == 0x65
    &&& s[p + 2] == 0x63
    &&& s[p + 3] == 0x74
    &&& s[p + 4] == 0x69
    &&& s[p + 5] == 0x6F
    &&& s[p + 6] == 0x6E
}

/// A section line: `section`, a point and an identifier, with blanks
/// around and between them. The identifier.
pub open spec fn spec_section(s: Seq<u8>, i: int) -> Got<Span> {
    let p = blank_end(s, i);
    if at_section(s, p) {
        let q = blank_end(s, p + 7);
        if q < s.len() && s[q] == 0x2E {
            match spec_identifier(s, blank_end(s, q + 1)) {
                Got::Done(w, e) => Got::Done(w, blank_end(s, e)),
                _ => Got::Miss,
            }
        } else {
            Got::Miss
        }
    } else {
        Got::Miss
    }
}

/// Reads the name of a section line.
pub fn section(bytes: &[u8], i: usize) -> (r: Read<Span>)
    requires
        i <= bytes.len() <= u32::MAX,
    ensures
        r.got() == spec_section(bytes@, i as int),
        r matches Read::Done(_, e) ==> i < e <= bytes.len(),
{
    let p = eat_blank(bytes, i);
    if bytes.len() - p >= 7 && bytes[p] == 0x73 && bytes[p + 1] == 0x65 && bytes[p + 2] == 0x63
        && bytes[p + 3] == 0x74 && bytes[p + 4] == 0x69 && bytes[p + 5] == 0x6F && bytes[p + 6]
        == 0x6E {
        let q = eat_blank(bytes, p + 7);
        if q < bytes.len() && bytes[q] == 0x2E {
            let r = eat_blank(bytes, q + 1);
            match identifier(bytes, r) {
                Read::Done(w, e) => Read::Done(w, eat_blank(bytes, e)),
                _ => Read::Miss,
            }
        } else {
            Read::Miss
        }
    } else {
        Read::Miss
    }
}

/// A label line: an identifier and a colon, with blanks around and
/// between them. The identifier.
pub open spec fn spec_label(s: Seq<u8>, i: int) -> Got<Span> {
    match spec_identifier(s, blank_end(s, i)) {
        Got::Done(w, e) => {
            let q = blank_end(s, e);
            if q < s.len() && s[q] == COLON {
                Got::Done(w, blank_end(s, q + 1))
            } else {
                Got::Miss
            }
        },
        _ => Got::Miss,
    }
}

/// Reads the name of a label line.
pub fn label(bytes: &[u8], i: usize) -> (r: Read<Span>)
    requires
        i <= bytes.len() <= u32::MAX,
    ensures
        r.got() == spec_label(bytes@, i as int),
        r matches Read::Done(_, e) ==> i < e <= bytes.len(),
{
    let p = eat_blank(bytes, i);
    match identifier(bytes, p) {
        Read::Done(w, e) => {
            let q = eat_blank(bytes, e);
            if q < bytes.len() && bytes[q] == COLON {
                Read::Done(w, eat_blank(bytes, q + 1))
            } else {
                Read::Miss
            }
        },
        _ => Read::Miss,
    }
}

/// A variable from the end `e` of its name on: blanks, the directive,
/// and at least one value.
pub open spec fn spec_var(s: Seq<u8>, name: Span, e: int) -> Got<KindModel> {
    let e2 = blank_end(s, e);
    if e2 > e {
        match spec_identifier(s, e2) {
            Got::Done(dir, e3) => match spec_values(s, e3, true) {
                Got::Done(val, k) => Got::Done(KindModel::Var { name, dir, val }, k),
                Got::Short => Got::Short,
                Got::Miss => Got::Miss,
            },
            _ => Got::Miss,
        }
    } else {
        Got::Miss
    }
}

/// An instruction or a variable, with blanks around it: an identifier,
/// and then a variable if one stands there, else the values of an
/// instruction.
pub open spec fn spec_ins_or_var(s: Seq<u8>, i: int) -> Got<KindModel> {
    match spec_identifier(s, blank_end(s, i)) {
        Got::Done(name, e) => match spec_var(s, name, e) {
            Got::Done(x, k) => Got::Done(x, blank_end(s, k)),
            Got::Short => Got::Short,
            Got::Miss => match spec_values(s, e, false) {
                Got::Done(vs, k) => Got::Done(KindModel::Ins(name, vs), blank_end(s, k)),
                Got::Short => Got::Short,
                Got::Miss => Got::Miss,
            },
        },
        _ => Got::Miss,
    }
}

/// What a reader of a line's content found, as plain values.
pub open spec fn got_kind(r: Read<LineKind>) -> Got<KindModel> {
    match r {
        Read::Done(k, at) => Got::Done(k.model(), at as int),
        Read::Miss => Got::Miss,
        Read::Short => Got::Short,
    }
}

fn var(bytes: &[u8], name: Span, e: usize) -> (r: Read<LineKind>)
    requires
        e <= bytes.len() <= u32::MAX,
    ensures
        got_kind(r) == spec_var(bytes@, name, e as int),
        r matches Read::Done(_, k) ==> e < k <= bytes.len(),
{
    let e2 = eat_blank(bytes, e);
    if e2 > e {
        match identifier(bytes, e2) {
            Read::Done(dir, e3) => match values(bytes, e3, true) {
                Read::Done(val, k) => Read::Done(LineKind::Var { name, dir, val }, k),
                Read::Short => Read::Short,
                Read::Miss => Read::Miss,
            },
            _ => Read::Miss,
        }
    } else {
        Read::Miss
    }
}

/// Reads an instruction or a variable.
pub fn ins_or_var(bytes: &[u8], i: usize) -> (r: Read<LineKind>)
    requires
        i <= bytes.len() <= u32::MAX,
    ensures
        got_kind(r) == spec_ins_or_var(bytes@, i as int),
        r matches Read::Done(_, e) ==> i < e <= bytes.len(),
{
    let p = eat_blank(bytes, i);
    match identifier(bytes, p) {
        Read::Done(name, e) => match var(bytes, name, e) {
            Read::Done(x, k) => Read::Done(x, eat_blank(bytes, k)),
            Read::Short => Read::Short,
            Read::Miss => match values(bytes, e, false) {
                Read::Done(vs, k) => Read::Done(LineKind::Ins(name, vs), eat_blank(bytes, k)),
                Read::Short => Read::Short,
                Read::Miss => Read::Miss,
            },
        },
        _ => Read::Miss,
    }
}

/// The comment of a line, after blanks: from the semicolon to the end of
/// the line. Without a semicolon nothing is read.
pub open spec fn spec_comment(s: Seq<u8>, i: int) -> Got<Option<Span>> {
    let p = blank_end(s, i);
    if p < s.len() && s[p] == SEMICOLON {
        Got::Done(Some(cut(p, s.len() as int)), s.len() as int)
    } else {
        Got::Done(None, i)
    }
}

/// Reads the comment of a line.
pub fn comment(bytes: &[u8], i: usize) -> (r: Read<Option<Span>>)
    requires
        i <= bytes.len() <= u32::MAX,
    ensures
        r.got() == spec_comment(bytes@, i as int),
        r matches Read::Done(_, e) ==> i <= e <= bytes.len(),
{
    let p = eat_blank(bytes, i);
    if p < bytes.len() && bytes[p] == SEMICOLON {
        Read::Done(Some(cut_at(p, bytes.len())), bytes.len())
    } else {
        Read::Done(None, i)
    }
}

/// What stands on a line before its comment: nothing on an empty line;
/// else the first that is there of a section, a label, and an instruction
/// or variable; else blanks.
pub open spec fn spec_kind(s: Seq<u8>) -> Got<KindModel> {
    if s.len() == 0 {
        Got::Done(KindModel::Empty, 0)
    } else if let Got::Done(w, k) = spec_section(s, 0) {
        Got::Done(KindModel::Section(w), k)
    } else if let Got::Done(w, k) = spec_label(s, 0) {
        Got::Done(KindModel::Label(w), k)
    } else {
        match spec_ins_or_var(s, 0) {
            Got::Done(x, k) => Got::Done(x, k),
            Got::Short => Got::Short,
            Got::Miss => Got::Done(KindModel::Empty, blank_end(s, 0)),
        }
    }
}

/// A whole line: what stands on it, and its comment, with nothing left
/// over.
pub open spec fn spec_line(s: Seq<u8>) -> Got<LineModel> {
    match spec_kind(s) {
        Got::Done(kind, k) => match spec_comment(s, k) {
            Got::Done(comment, e) => if e == s.len() {
                Got::Done(LineModel { kind, comment }, e)
            } else {
                Got::Miss
            },
            _ => Got::Miss,
        },
        Got::Short => Got::Short,
        Got::Miss => Got::Miss,
    }
}

/// What `line` found, as plain values.
pub open spec fn got_line(r: Read<Line>) -> Got<LineModel> {
    match r {
        Read::Done(l, at) => Got::Done(l.model(), at as int),
        Read::Miss => Got::Miss,
        Read::Short => Got::Short,
    }
}

fn kind(bytes: &[u8]) -> (r: Read<LineKind>)
    requires
        bytes.len() <= u32::MAX,
    ensures
        got_kind(r) == spec_kind(bytes@),
        r matches Read::Done(_, e) ==> e <= bytes.len(),
{
    if bytes.len() == 0 {
        return Read::Done(LineKind::Empty, 0);
    }
    if let Read::Done(w, k) = section(bytes, 0) {
        return Read::Done(LineKind::Section(w), k);
    }
    if let Read::Done(w, k) = label(bytes, 0) {
        return Read::Done(LineKind::Label(w), k);
    }
    match ins_or_var(bytes, 0) {
        Read::Done(x, k) => Read::Done(x, k),
        Read::Short => Read::Short,
        Read::Miss => Read::Done(LineKind::Empty, eat_blank(bytes, 0)),
    }
}

/// Reads a line, which `bytes` is the whole of.
pub fn line(bytes: &[u8]) -> (r: Read<Line>)
    requires
        bytes.len() <= u32::MAX,
    ensures
        got_line(r) == spec_line(bytes@),
{
    match kind(bytes) {
        Read::Done(kind, k) => match comment(bytes, k) {
            Read::Done(comment, e) => {
                if e == bytes.len() {
                    Read::Done(Line { kind, comment }, e)
                } else {
                    Read::Miss
                }
            },
            _ => Read::Miss,
        },
        Read::Short => Read::Short,
        Read::Miss => Read::Miss,
    }
}

/// The lines of a text from offset `p` on, which the count `extra` has
/// been kept up to. A line ends before its newline, and before a
/// carriage return that stands right before the newline; the count goes
/// up by the length of the line and one.
pub open spec fn spec_rows(s: Seq<u8>, p: int, extra: int) -> Seq<Row>
    decreases s.len() - p,
{
    if p < 0 || p >= s.len() {
        Seq::empty()
    } else {
        let e = run_end(s, p, ByteClass::NotNewline);
        let to = if e < s.len() && e > p && s[e - 1] == 0x0D {
            e - 1
        } else {
            e
        };
        let row = Row { from: p as usize, to: to as usize, extra: extra as u32 };
        if p <= e < s.len() {
            seq![row] + spec_rows(s, e + 1, extra + (to - p) + 1)
        } else {
            seq![row]
        }
    }
}

/// The lines of a text.
pub fn line_spans(input: &[u8]) -> (rows: Vec<Row>)
    requires
        input.len() < u32::MAX,
    ensures
        rows@ == spec_rows(input@, 0, 0),
        forall|k: int| 0 <= k < rows@.len() ==> (#[trigger] rows@[k]).from <= rows@[k].to <= input.len(),
{
    let mut rows: Vec<Row> = Vec::new();
    let mut p: usize = 0;
    let mut extra: usize = 0;
    let ghost s = input@;
    while p < input.len()
        invariant
            s == input@,
            input.len() < u32::MAX,
            extra <= p <= input.len() + 1,
            spec_rows(s, 0, 0) == rows@ + spec_rows(s, p as int, extra as int),
            forall|k: int| 0 <= k < rows@.len() ==> (#[trigger] rows@[k]).from <= rows@[k].to <= input.len(),
        decreases input.len() + 1 - p,
    {
        let e = eat_class(input, p, ByteClass::NotNewline);
        let to = if e < input.len() && e > p && input[e - 1] == 0x0D {
            e - 1
        } else {
            e
        };
        let row = Row { from: p, to, extra: extra as u32 };
        let ghost before = rows@;
        rows.push(row);
        proof {
            let rest = spec_rows(s, e + 1, extra + (to - p) + 1);
            assert(before + (seq![row] + rest) =~= before.push(row) + rest);
            assert(before + seq![row] =~= before.push(row) + Seq::<Row>::empty());
        }
        extra = extra + (to - p) + 1;
        p = e + 1;
    }
    proof {
        assert(rows@ + Seq::<Row>::empty() =~= rows@);
    }
    rows
}

/// What reading each line gives, as plain values.
pub open spec fn spec_lines(s: Seq<u8>, rows: Seq<Row>) -> Seq<Got<LineModel>> {
    Seq::new(rows.len(), |k: int| spec_line(s.subrange(rows[k].from as int, rows[k].to as int)))
}

/// Reads each line of a text.
pub fn lex_lines(input: &[u8]) -> (out: Vec<Read<Line>>)
    requires
        input.len() < u32::MAX,
    ensures
        out@.len() == spec_rows(input@, 0, 0).len(),
        forall|k: int|
            0 <= k < out@.len() ==> got_line(#[trigger] out@[k]) == spec_lines(
                input@,
                spec_rows(input@, 0, 0),
            )[k],
{
    let rows = line_spans(input);
    let mut out: Vec<Read<Line>> = Vec::new();
    let mut k: usize = 0;
    while k < rows.len()
        invariant
            k <= rows.len(),
            input.len() < u32::MAX,
            rows@ == spec_rows(input@, 0, 0),
            forall|j: int| 0 <= j < rows@.len() ==> (#[trigger] rows@[j]).from <= rows@[j].to <= input.len(),
            out@.len() == k,
            forall|j: int|
                0 <= j < k ==> got_line(#[trigger] out@[j]) == spec_lines(input@, rows@)[j],
        decreases rows.len() - k,
    {
        let row = rows[k];
        let part = slice_subrange(input, row.from, row.to);
        out.push(line(part));
        k += 1;
    }
    out
}

} // verus!
