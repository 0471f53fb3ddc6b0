//! Numeric decoding: the 16-bit value of an integer literal.
//!
//! A literal is an optional base prefix (`0b`, `0o`, `0x`) and digits of the
//! base, among which underscores may stand and do not count.

use vstd::prelude::*;

use crate::lexeme::DigitBase;
use crate::scan::{prefix_len, UNDERSCORE};

verus! {

/// Why a literal has no 16-bit value.
#[derive(Debug, Clone, Copy, PartialEq, Eq, Structural)]
pub enum IntErrorKind {
    /// There is no digit.
    Empty,
    /// A byte is neither an underscore nor a digit of the base.
    InvalidDigit,
    /// The value is above `u16::MAX`.
    Overflow,
}

/// The value of a digit byte in base 16, and -1 for any other byte.
pub open spec fn digit_value(b: u8) -> int {
    if 0x30 <= b <= 0x39 {
        b - 0x30
    } else if 0x61 <= b <= 0x66 {
        b - 0x61 + 10
    } else if 0x41 <= b <= 0x46 {
        b - 0x41 + 10
    } else {
        -1
    }
}

pub open spec fn is_digit_of(b: u8, radix: nat) -> bool {
    0 <= digit_value(b) < radix
}

/// Every byte is an underscore or a digit of the base.
pub open spec fn digits_ok(s: Seq<u8>, radix: nat) -> bool {
    forall|i: int| 0 <= i < s.len() ==> s[i] == UNDERSCORE || is_digit_of(#[trigger] s[i], radix)
}

/// The number of bytes that are not underscores.
pub open spec fn digits_count(s: Seq<u8>) -> nat
    decreases s.len(),
{
    if s.len() == 0 {
        0
    } else if s.last() == UNDERSCORE {
        digits_count(s.drop_last())
    } else {
        digits_count(s.drop_last()) + 1
    }
}

/// The number that the digits of `s` write in base `radix`, underscores
/// skipped.
pub open spec fn digits_number(s: Seq<u8>, radix: nat) -> nat
    decreases s.len(),
{
    if s.len() == 0 {
        0
    } else if s.last() == UNDERSCORE || digit_value(s.last()) < 0 {
        digits_number(s.drop_last(), radix)
    } else {
        digits_number(s.drop_last(), radix) * radix + digit_value(s.last()) as nat
    }
}

/// The 16-bit value of the digits `s` in the given base.
pub open spec fn digits_value(s: Seq<u8>, base: DigitBase) -> Result<u16, IntErrorKind> {
    if digits_count(s) == 0 {
        Err(IntErrorKind::Empty)
    } else if !digits_ok(s, base.spec_radix()) {
        Err(IntErrorKind::InvalidDigit)
    } else if digits_number(s, base.spec_radix()) > u16::MAX {
        Err(IntErrorKind::Overflow)
    } else {
        Ok(digits_number(s, base.spec_radix()) as u16)
    }
}

/// The 16-bit value of the literal `token` of the given base: that of its
/// digits, which follow the prefix of the base.
pub open spec fn literal_value(token: Seq<u8>, base: DigitBase) -> Result<u16, IntErrorKind> {
    if token.len() < prefix_len(base) {
        Err(IntErrorKind::Empty)
    } else {
        digits_value(token.subrange(prefix_len(base), token.len() as int), base)
    }
}

/// The value of a digit byte in base 16.
fn digit_of(b: u8) -> (d: Option<u32>)
    ensures
        d is Some <==> digit_value(b) >= 0,
        d is Some ==> d->0 == digit_value(b),
{
    if 0x30 <= b && b <= 0x39 {
        Some((b - 0x30) as u32)
    } else if 0x61 <= b && b <= 0x66 {
        Some((b - 0x61) as u32 + 10)
    } else if 0x41 <= b && b <= 0x46 {
        Some((b - 0x41) as u32 + 10)
    } else {
        None
    }
}

proof fn lemma_number_grows(s: Seq<u8>, radix: nat)
    requires
        radix >= 2,
        s.len() > 0,
    ensures
        digits_number(s, radix) >= digits_number(s.drop_last(), radix),
{
    let n = digits_number(s.drop_last(), radix);
    assert(n * radix >= n) by (nonlinear_arith)
        requires
            radix >= 2,
            n >= 0,
    ;
}

/// Decodes the literal at `bytes[from..to]`.
pub fn parse_literal(bytes: &[u8], from: usize, to: usize, base: DigitBase) -> (r: Result<
    u16,
    IntErrorKind,
>)
    requires
        from <= to <= bytes.len(),
    ensures
        r == literal_value(bytes@.subrange(from as int, to as int), base),
{
    let ghost token = bytes@.subrange(from as int, to as int);
    let skip: usize = match base {
        DigitBase::Decimal => 0,
        _ => 2,
    };
    if to - from < skip {
        return Err(IntErrorKind::Empty);
    }
    let start = from + skip;
    let ghost s = token.subrange(prefix_len(base), token.len() as int);
    let radix = base.radix();
    let mut i = start;
    let mut acc: u32 = 0;
    let mut count: usize = 0;
    let mut valid = true;
    let mut overflow = false;
    proof {
        assert(s =~= bytes@.subrange(start as int, to as int));
        assert(s.subrange(0, 0) =~= Seq::<u8>::empty());
    }
    while i < to
        invariant
            start <= i <= to <= bytes.len(),
            radix == base.spec_radix(),
            s == bytes@.subrange(start as int, to as int),
            count == digits_count(s.subrange(0, i - start)),
            count <= i - start,
            valid == digits_ok(s.subrange(0, i - start), radix as nat),
            overflow ==> digits_number(s.subrange(0, i - start), radix as nat) > u16::MAX,
            !overflow ==> acc == digits_number(s.subrange(0, i - start), radix as nat) && acc
                <= u16::MAX,
        decreases to - i,
    {
        let b = bytes[i];
        let ghost before = s.subrange(0, i - start);
        let ghost after = s.subrange(0, i + 1 - start);
        proof {
            assert(after.drop_last() =~= before);
            assert(after.last() == b);
            lemma_number_grows(after, radix as nat);
            if digits_ok(after, radix as nat) {
                assert forall|j: int| 0 <= j < before.len() implies before[j] == UNDERSCORE
                    || is_digit_of(#[trigger] before[j], radix as nat) by {
                    assert(before[j] == after[j]);
                }
            }
            if digits_ok(before, radix as nat) && (b == UNDERSCORE || is_digit_of(
                b,
                radix as nat,
            )) {
                assert forall|j: int| 0 <= j < after.len() implies after[j] == UNDERSCORE
                    || is_digit_of(#[trigger] after[j], radix as nat) by {
                    if j < before.len() {
                        assert(before[j] == after[j]);
                    }
                }
            }
        }
        if b != UNDERSCORE {
            count += 1;
            match digit_of(b) {
                Some(d) => {
                    if d >= radix {
                        valid = false;
                    }
                    if !overflow {
                        assert(acc * radix + d <= 65535 * 16 + 15) by (nonlinear_arith)
                            requires
                                acc <= 65535,
                                radix <= 16,
                                d <= 15,
                        ;
                        let next = acc * radix + d;
                        if next > 65535 {
                            overflow = true;
                        } else {
                            acc = next;
                        }
                    } else {
                        proof {
                            let n = digits_number(before, radix as nat);
                            assert(n * radix >= n) by (nonlinear_arith)
                                requires
                                    radix >= 2,
                                    n >= 0,
                            ;
                        }
                    }
                },
                None => {
                    valid = false;
                },
            }
        }
        i += 1;
    }
    proof {
        assert(s.subrange(0, to - start) =~= s);
    }
    if count == 0 {
        Err(IntErrorKind::Empty)
    } else if !valid {
        Err(IntErrorKind::InvalidDigit)
    } else if overflow {
        Err(IntErrorKind::Overflow)
    } else {
        Ok(acc as u16)
    }
}

/// The byte of the digit `d`, in lower case from ten on.
pub open spec fn digit_byte(d: nat) -> u8 {
    if d < 10 {
        (0x30 + d) as u8
    } else {
        (0x61 + d - 10) as u8
    }
}

/// The digits of `n` in base `radix`, without leading zeros.
pub open spec fn render_digits(n: nat, radix: nat) -> Seq<u8>
    decreases n,
{
    if n < radix || radix < 2 || n / radix >= n {
        seq![digit_byte(n)]
    } else {
        render_digits(n / radix, radix).push(digit_byte(n % radix))
    }
}

/// The prefix that marks the base: `0b`, `0o`, `0x`, or nothing.
pub open spec fn base_prefix(base: DigitBase) -> Seq<u8> {
    match base {
        DigitBase::Binary => seq![0x30u8, 0x62u8],
        DigitBase::Octal => seq![0x30u8, 0x6Fu8],
        DigitBase::Decimal => Seq::empty(),
        DigitBase::Hex => seq![0x30u8, 0x78u8],
    }
}

/// The literal that writes `n` in the given base: the prefix of the base
/// and the digits of `n`.
pub open spec fn render_literal(base: DigitBase, n: u16) -> Seq<u8> {
    base_prefix(base) + render_digits(n as nat, base.spec_radix())
}

/// The digits `d` are written as `render_digits` writes them: only digits
/// of the base, letters in lower case, no zero in front of another digit.
pub open spec fn is_plain(d: Seq<u8>, radix: nat) -> bool {
    &&& d.len() >= 1
    &&& forall|i: int|
        0 <= i < d.len() ==> is_digit_of(#[trigger] d[i], radix) && !(0x41 <= d[i] <= 0x46)
    &&& d.len() > 1 ==> d[0] != 0x30
}

proof fn lemma_div_mod(q: nat, r: nat, radix: nat)
    requires
        radix >= 2,
        r < radix,
    ensures
        (q * radix + r) / radix == q,
        (q * radix + r) % radix == r,
        q >= 1 ==> q * radix + r >= radix,
{
    assert((q * radix + r) / radix == q && (q * radix + r) % radix == r) by (nonlinear_arith)
        requires
            radix >= 2,
            r < radix,
    ;
    assert(q >= 1 ==> q * radix + r >= radix) by (nonlinear_arith)
        requires
            radix >= 2,
    ;
}

proof fn lemma_quotient(n: nat, radix: nat)
    requires
        radix >= 2,
        n >= radix,
    ensures
        1 <= n / radix < n,
        n % radix < radix,
        (n / radix) * radix + n % radix == n,
{
    assert(1 <= n / radix < n && n % radix < radix && (n / radix) * radix + n % radix == n)
        by (nonlinear_arith)
        requires
            radix >= 2,
            n >= radix,
    ;
}

proof fn lemma_plain_number(d: Seq<u8>, radix: nat)
    requires
        2 <= radix <= 16,
        is_plain(d, radix),
    ensures
        render_digits(digits_number(d, radix), radix) == d,
        d[0] != 0x30 ==> digits_number(d, radix) >= 1,
        digits_count(d) == d.len(),
        digits_ok(d, radix),
    decreases d.len(),
{
    let c = d.last();
    let head = d.drop_last();
    let v = digit_value(c) as nat;
    assert(is_digit_of(c, radix));
    assert(digit_byte(v) == c);
    if d.len() == 1 {
        assert(head.len() == 0);
        assert(digits_number(head, radix) == 0);
        assert(digits_count(head) == 0);
        assert(digits_number(d, radix) == 0 * radix + v);
        assert(digits_number(d, radix) == v) by (nonlinear_arith)
            requires
                digits_number(d, radix) == 0 * radix + v,
        ;
        assert(d =~= seq![c]);
    } else {
        assert forall|i: int| 0 <= i < head.len() implies is_digit_of(#[trigger] head[i], radix)
            && !(0x41 <= head[i] <= 0x46) by {
            assert(head[i] == d[i]);
        }
        assert(head[0] == d[0]);
        lemma_plain_number(head, radix);
        let q = digits_number(head, radix);
        lemma_div_mod(q, v, radix);
        let n = q * radix + v;
        assert(digits_number(d, radix) == n);
        lemma_quotient(n, radix);
        assert(render_digits(n, radix) =~= head.push(c));
        assert(head.push(c) =~= d);
    }
    assert forall|i: int| 0 <= i < d.len() implies d[i] == UNDERSCORE || is_digit_of(
        #[trigger] d[i],
        radix,
    ) by {}
}

proof fn lemma_render_number(n: nat, radix: nat)
    requires
        2 <= radix <= 16,
    ensures
        is_plain(render_digits(n, radix), radix),
        digits_number(render_digits(n, radix), radix) == n,
    decreases n,
{
    let d = render_digits(n, radix);
    if n < radix {
        assert(digit_value(digit_byte(n)) == n);
        assert(d.drop_last() =~= Seq::<u8>::empty());
        assert(digits_number(d.drop_last(), radix) == 0);
        assert(digits_number(d, radix) == 0 * radix + n);
        assert(digits_number(d, radix) == n) by (nonlinear_arith)
            requires
                digits_number(d, radix) == 0 * radix + n,
        ;
    } else {
        lemma_quotient(n, radix);
        lemma_render_number(n / radix, radix);
        let head = render_digits(n / radix, radix);
        let c = digit_byte(n % radix);
        assert(d == head.push(c));
        assert(digit_value(c) == n % radix);
        assert(d.drop_last() =~= head);
        assert(d.last() == c);
        assert(d[0] == head[0]);
        assert(digits_number(d, radix) == digits_number(head, radix) * radix + (n % radix));
        assert forall|i: int| 0 <= i < d.len() implies is_digit_of(#[trigger] d[i], radix) && !(
        0x41 <= d[i] <= 0x46) by {
            if i < head.len() {
                assert(d[i] == head[i]);
            }
        }
        if head.len() == 1 && head[0] == 0x30 {
            assert(head.drop_last() =~= Seq::<u8>::empty());
            assert(digits_number(head.drop_last(), radix) == 0);
            assert(digits_number(head, radix) == 0 * radix + 0);
            assert(false) by (nonlinear_arith)
                requires
                    digits_number(head, radix) == 0 * radix + 0,
                    digits_number(head, radix) >= 1,
            ;
        }
    }
}

/// Every number reads back from its rendering.
pub proof fn lemma_render_parses(base: DigitBase, n: u16)
    ensures
        literal_value(render_literal(base, n), base) == Ok::<u16, IntErrorKind>(n),
{
    let radix = base.spec_radix();
    let d = render_digits(n as nat, radix);
    lemma_render_number(n as nat, radix);
    lemma_plain_number(d, radix);
    let token = render_literal(base, n);
    assert(token.subrange(prefix_len(base), token.len() as int) =~= d);
}

/// Digit round-trip: a literal with a 16-bit value, written with the
/// prefix of its base and plain digits (no underscore, no zero in front of
/// another digit, letters in lower case), is the rendering of its value.
pub proof fn lemma_digit_round_trip(token: Seq<u8>, base: DigitBase, n: u16)
    requires
        token.len() >= prefix_len(base),
        token.subrange(0, prefix_len(base)) == base_prefix(base),
        is_plain(token.subrange(prefix_len(base), token.len() as int), base.spec_radix()),
        literal_value(token, base) == Ok::<u16, IntErrorKind>(n),
    ensures
        render_literal(base, n) == token,
{
    let radix = base.spec_radix();
    let d = token.subrange(prefix_len(base), token.len() as int);
    lemma_plain_number(d, radix);
    assert(token =~= base_prefix(base) + d);
}

/// The byte of the digit `d`.
fn digit_to_byte(d: u32) -> (b: u8)
    requires
        d < 16,
    ensures
        b == digit_byte(d as nat),
{
    if d < 10 {
        0x30 + d as u8
    } else {
        0x61 + (d as u8 - 10)
    }
}

/// Appends the digits of `n` in base `radix` to `out`.
fn push_digits(out: &mut Vec<u8>, n: u32, radix: u32)
    requires
        2 <= radix <= 16,
    ensures
        final(out)@ == old(out)@ + render_digits(n as nat, radix as nat),
    decreases n,
{
    let ghost before = out@;
    if n < radix {
        out.push(digit_to_byte(n));
        proof {
            assert(out@ =~= before + render_digits(n as nat, radix as nat));
        }
    } else {
        proof {
            lemma_quotient(n as nat, radix as nat);
        }
        push_digits(out, n / radix, radix);
        out.push(digit_to_byte(n % radix));
        proof {
            assert(out@ =~= before + render_digits(n as nat, radix as nat));
        }
    }
}

/// The literal that writes `n` in the given base.
pub fn render(base: DigitBase, n: u16) -> (out: Vec<u8>)
    ensures
        out@ == render_literal(base, n),
{
    let mut out: Vec<u8> = Vec::new();
    match base {
        DigitBase::Binary => {
            out.push(0x30);
            out.push(0x62);
        },
        DigitBase::Octal => {
            out.push(0x30);
            out.push(0x6F);
        },
        DigitBase::Decimal => {},
        DigitBase::Hex => {
            out.push(0x30);
            out.push(0x78);
        },
    }
    proof {
        assert(out@ =~= base_prefix(base));
    }
    push_digits(&mut out, n as u32, base.radix());
    out
}

} // verus!
