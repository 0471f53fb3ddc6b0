//! The wording of diagnostics: `<what> at: <line>:<from>:<to>`, with the
//! columns counted in bytes from the start of the line.

use vstd::prelude::*;
use vstd::string::StringExecFns;

use crate::grammar::{ErrorText, KindText};
use crate::lexeme::{DigitBase, Lexeme};

verus! {

/// The character of a decimal digit.
pub open spec fn digit_char(d: int) -> char {
    if d == 0 {
        '0'
    } else if d == 1 {
        '1'
    } else if d == 2 {
        '2'
    } else if d == 3 {
        '3'
    } else if d == 4 {
        '4'
    } else if d == 5 {
        '5'
    } else if d == 6 {
        '6'
    } else if d == 7 {
        '7'
    } else if d == 8 {
        '8'
    } else {
        '9'
    }
}

/// The decimal digits of `n`, without leading zeros.
pub open spec fn decimal(n: nat) -> Seq<char>
    decreases n,
{
    if n < 10 {
        seq![digit_char(n as int)]
    } else {
        decimal(n / 10).push(digit_char((n % 10) as int))
    }
}

/// The name of a lexeme, as diagnostics show it.
pub open spec fn lexeme_text(lex: Lexeme) -> Seq<char> {
    match lex {
        Lexeme::Whitespace => "Whitespace"@,
        Lexeme::Ident => "Ident"@,
        Lexeme::Str => "Str"@,
        Lexeme::Comma => "Comma"@,
        Lexeme::Colon => "Colon"@,
        Lexeme::OpenBracket => "OpenBracket"@,
        Lexeme::CloseBracket => "CloseBracket"@,
        Lexeme::Digit(DigitBase::Binary) => "Digit(Binary)"@,
        Lexeme::Digit(DigitBase::Octal) => "Digit(Octal)"@,
        Lexeme::Digit(DigitBase::Decimal) => "Digit(Decimal)"@,
        Lexeme::Digit(DigitBase::Hex) => "Digit(Hex)"@,
        Lexeme::Eol(true) => "Eol(true)"@,
        Lexeme::Eol(false) => "Eol(false)"@,
        Lexeme::Eof => "Eof"@,
        Lexeme::Other => "Other"@,
    }
}

/// Where a diagnostic lies: `<line>:<from>:<to>`.
pub open spec fn place_text(e: ErrorText) -> Seq<char> {
    decimal(e.ad.line as nat) + ":"@ + decimal((e.ad.span.from - e.ad.offset) as nat) + ":"@
        + decimal((e.ad.span.to - e.ad.offset) as nat)
}

/// The line of text of a diagnostic.
pub open spec fn render_text(e: ErrorText) -> Seq<char> {
    match e.kind {
        KindText::Expected(what) => "unexpected input found at: "@ + place_text(e)
            + ". expected "@ + what + " but got "@ + lexeme_text(e.ad.lex) + "\n"@,
        KindText::ParseIntError(_) => "unable to parse number at: "@ + place_text(e) + "\n"@,
        KindText::InputEnd => "input ended early at: "@ + place_text(e) + "\n"@,
        KindText::DuplicateLabel(_, _) => "duplicate label found at: "@ + place_text(e) + "\n"@,
    }
}

fn digit_str(d: u32) -> (s: &'static str)
    requires
        d < 10,
    ensures
        s@ == seq![digit_char(d as int)],
{
    proof {
        reveal_strlit("0");
        reveal_strlit("1");
        reveal_strlit("2");
        reveal_strlit("3");
        reveal_strlit("4");
        reveal_strlit("5");
        reveal_strlit("6");
        reveal_strlit("7");
        reveal_strlit("8");
        reveal_strlit("9");
    }
    let s = match d {
        0 => "0",
        1 => "1",
        2 => "2",
        3 => "3",
        4 => "4",
        5 => "5",
        6 => "6",
        7 => "7",
        8 => "8",
        _ => "9",
    };
    assert(s@ =~= seq![digit_char(d as int)]);
    s
}

/// Appends the decimal digits of `n` to `out`.
pub fn push_decimal(out: &mut String, n: u32)
    ensures
        final(out)@ == old(out)@ + decimal(n as nat),
    decreases n,
{
    let ghost before = out@;
    if n >= 10 {
        push_decimal(out, n / 10);
        out.append(digit_str(n % 10));
        proof {
            assert(out@ =~= before + decimal(n as nat));
        }
    } else {
        out.append(digit_str(n));
    }
}

/// The name of a lexeme, as diagnostics show it.
pub fn lexeme_name(lex: Lexeme) -> (s: &'static str)
    ensures
        s@ == lexeme_text(lex),
{
    match lex {
        Lexeme::Whitespace => "Whitespace",
        Lexeme::Ident => "Ident",
        Lexeme::Str => "Str",
        Lexeme::Comma => "Comma",
        Lexeme::Colon => "Colon",
        Lexeme::OpenBracket => "OpenBracket",
        Lexeme::CloseBracket => "CloseBracket",
        Lexeme::Digit(DigitBase::Binary) => "Digit(Binary)",
        Lexeme::Digit(DigitBase::Octal) => "Digit(Octal)",
        Lexeme::Digit(DigitBase::Decimal) => "Digit(Decimal)",
        Lexeme::Digit(DigitBase::Hex) => "Digit(Hex)",
        Lexeme::Eol(true) => "Eol(true)",
        Lexeme::Eol(false) => "Eol(false)",
        Lexeme::Eof => "Eof",
        Lexeme::Other => "Other",
    }
}

} // verus!
