use basm::digits::{parse_literal, render, IntErrorKind};
use basm::fmt::{apply, apply_fmt, create_fmt, fmt, Edit, FmtContext};
use basm::interner::{Interner, Symbol};
use basm::ir::{Basm, Line, Value};
use basm::lex::{lex_all, record_all, BaseLexer, RecordedLexer, TokenSource};
use basm::lexeme::{
    is_id_continue, is_id_start, is_other, ws_not_nl, Advance, DigitBase, Lexeme,
};
use basm::parse::{ParseError, ParseErrorKind, Parser};
use basm::span::Span;

fn text(basm: &Basm, sym: Symbol) -> String {
    basm.si.resolve(sym).unwrap().to_owned()
}

fn parse(src: &str) -> (Basm, Vec<ParseError>) {
    Parser::base(src).parse()
}

fn edits(src: &str) -> Vec<(u32, u32, String)> {
    create_fmt(src)
        .into_iter()
        .map(|e| (e.span.from, e.span.to, e.text))
        .collect()
}

fn kinds(src: &str) -> Vec<Lexeme> {
    lex_all(src).into_iter().map(|ad| ad.lex).collect()
}

#[test]
fn empty_program() {
    let lex = lex_all("");
    assert_eq!(
        lex,
        vec![Advance { lex: Lexeme::Eof, line: 0, offset: 0, span: Span { from: 0, to: 0 } }]
    );
    let (basm, errors) = parse("");
    assert!(basm.lines.is_empty());
    assert!(errors.is_empty());
    assert!(create_fmt("").is_empty());
    assert_eq!(apply_fmt(""), "");
}

#[test]
fn blank_lines() {
    let (basm, errors) = parse("\n\n\n");
    assert_eq!(basm.lines, vec![Line::NoOp, Line::NoOp, Line::NoOp]);
    assert!(errors.is_empty());
    assert!(create_fmt("\n\n\n").is_empty());
}

#[test]
fn indent_correction() {
    assert_eq!(edits("mov rax, 1\n"), vec![(0, 0, "    ".to_owned())]);
    assert_eq!(apply_fmt("mov rax, 1\n"), "    mov rax, 1\n");
}

#[test]
fn deref_tightening() {
    let src = "    rax [  deref   ]\n";
    assert_eq!(edits(src), vec![(9, 11, String::new()), (16, 19, String::new())]);
    assert_eq!(apply_fmt(src), "    rax [deref]\n");
}

#[test]
fn comment_spacing() {
    let src = "    mov rax, 12;do it\n";
    assert_eq!(edits(src), vec![(15, 15, " ".to_owned()), (16, 16, " ".to_owned())]);
    assert_eq!(apply_fmt(src), "    mov rax, 12 ; do it\n");
}

#[test]
fn hello_world_parse() {
    let src = "\
section data
message db \"Hello, World\", 10
global _start
_start:
    mov rax, 1
    mov rdi, 1
    mov rsi, message
    mov rdx, 13
    syscall
    mov rax, 60
    xor rdi, rdi
    syscall
";
    let (basm, errors) = parse(src);
    assert!(errors.is_empty());
    let shown: Vec<String> = basm
        .lines
        .iter()
        .map(|line| match line {
            Line::NoOp => "noop".to_owned(),
            Line::Section { name } => format!("section {}", text(&basm, *name)),
            Line::Global { name } => format!("global {}", text(&basm, *name)),
            Line::Label { name } => format!("label {}", text(&basm, *name)),
            Line::Instruction { ins, values } => {
                format!("ins {} {}", text(&basm, *ins), values.len())
            }
            Line::Variable { name, ty, values } => {
                format!("var {} {} {}", text(&basm, *name), text(&basm, *ty), values.len())
            }
        })
        .collect();
    assert_eq!(
        shown,
        vec![
            "section data",
            "var message db 2",
            "global _start",
            "label _start",
            "ins mov 2",
            "ins mov 2",
            "ins mov 2",
            "ins mov 2",
            "ins syscall 0",
            "ins mov 2",
            "ins xor 2",
            "ins syscall 0",
        ]
    );
    let Line::Variable { values, .. } = &basm.lines[1] else { panic!() };
    let Value::String(body) = values[0] else { panic!() };
    assert_eq!(text(&basm, body), "Hello, World");
    assert_eq!(values[1], Value::Digit(DigitBase::Decimal, 10));
    let Line::Instruction { values, .. } = &basm.lines[4] else { panic!() };
    let Value::Ident(rax) = values[0] else { panic!() };
    assert_eq!(text(&basm, rax), "rax");
    assert_eq!(values[1], Value::Digit(DigitBase::Decimal, 1));
    let Line::Instruction { ins, values } = &basm.lines[10] else { panic!() };
    assert_eq!(text(&basm, *ins), "xor");
    assert_eq!(values[0], values[1]);
    let xors = basm
        .lines
        .iter()
        .filter(|l| matches!(l, Line::Instruction { ins, .. } if text(&basm, *ins) == "xor"))
        .count();
    assert_eq!(xors, 1);
    // Already canonical: nothing to edit.
    assert!(create_fmt(src).is_empty());
    assert_eq!(apply_fmt(src), src);
}

const SAMPLES: [&str; 8] = [
    "",
    "\n\n",
    "mov rax, 1\n",
    "l1:\n  mov [ rbx ] ,0x1F ; c\n\"open",
    "a\u{85}b \u{200E}\u{2028}c\té\n",
    ";only\n;;;\t \n",
    "0b101_0 0o17 0x 0b2 12_3.4",
    "x db \"a\\\"b\\\\\", 1, 2\x00\x01 @#\n",
];

#[test]
fn spans_tile_the_source() {
    for src in SAMPLES {
        let lex = lex_all(src);
        let mut at = 0;
        for (i, ad) in lex.iter().enumerate() {
            assert_eq!(ad.span.from, at);
            assert!(ad.offset <= ad.span.from);
            if i + 1 < lex.len() {
                assert!(ad.span.from < ad.span.to);
                assert_ne!(ad.lex, Lexeme::Eof);
            }
            at = ad.span.to;
        }
        let last = lex.last().unwrap();
        assert_eq!(last.lex, Lexeme::Eof);
        assert_eq!((last.span.from, last.span.to), (src.len() as u32, src.len() as u32));
    }
}

#[test]
fn lines_follow_line_ends() {
    let lex = lex_all("a\n  b ; c\n\nd");
    let places: Vec<(u32, u32)> = lex.iter().map(|ad| (ad.line, ad.offset)).collect();
    assert_eq!(
        places,
        vec![(0, 0), (0, 0), (1, 2), (1, 2), (1, 2), (1, 2), (2, 10), (3, 11), (3, 11)]
    );
}

#[test]
fn peek_then_advance() {
    for src in SAMPLES {
        let mut lexer = BaseLexer::new(src);
        loop {
            let first = lexer.peek();
            let second = lexer.peek();
            let taken = lexer.advance();
            assert_eq!(first, second);
            assert_eq!(first, taken);
            if taken.lex == Lexeme::Eof {
                break;
            }
        }
    }
}

#[test]
fn eof_is_sticky() {
    let mut lexer = BaseLexer::new("a");
    let a = lexer.advance();
    assert_eq!(a.lex, Lexeme::Ident);
    let eof = lexer.advance();
    assert_eq!(eof.lex, Lexeme::Eof);
    assert_eq!(lexer.advance(), eof);
    assert_eq!(lexer.peek(), eof);
    assert_eq!(lexer.pop_peek(), Some(eof));
    assert_eq!(lexer.pop_peek(), None);
    assert_eq!(lexer.advance(), eof);
}

#[test]
fn record_equals_base() {
    for src in SAMPLES {
        assert_eq!(lex_all(src), record_all(src));
    }
}

#[test]
fn record_holds_each_token_once() {
    let mut lexer = RecordedLexer::new("a b");
    lexer.peek();
    lexer.peek();
    assert_eq!(lexer.store().len(), 1);
    lexer.pop_peek();
    lexer.advance();
    lexer.advance();
    assert_eq!(lexer.store().len(), 3);
    lexer.advance();
    lexer.advance();
    lexer.peek();
    assert_eq!(lexer.store().len(), 4);
    assert_eq!(lexer.store().as_slice(), lex_all("a b").as_slice());
    let (src, log) = lexer.parts();
    assert_eq!(src, "a b");
    assert_eq!(log.len(), 4);
}

#[test]
fn parser_log_is_the_token_sequence() {
    for src in SAMPLES {
        let (_, _, log) = Parser::recorded(src).parse();
        assert_eq!(log, lex_all(src));
    }
}

#[test]
fn classification() {
    assert_eq!(kinds("a\u{85}b"), vec![Lexeme::Ident, Lexeme::Whitespace, Lexeme::Ident, Lexeme::Eof]);
    assert_eq!(kinds("\u{200E}\u{200F}\u{2028}\u{2029}\x0B\x0C\r \t"), vec![Lexeme::Whitespace, Lexeme::Eof]);
    assert_eq!(kinds("\u{A0}"), vec![Lexeme::Other, Lexeme::Eof]);
    assert_eq!(kinds("é\u{2030}@"), vec![Lexeme::Other, Lexeme::Eof]);
    assert_eq!(kinds("é x"), vec![Lexeme::Other, Lexeme::Whitespace, Lexeme::Ident, Lexeme::Eof]);
    assert_eq!(
        kinds("0b101_0 0o17 0xfF_ 12_3"),
        vec![
            Lexeme::Digit(DigitBase::Binary),
            Lexeme::Whitespace,
            Lexeme::Digit(DigitBase::Octal),
            Lexeme::Whitespace,
            Lexeme::Digit(DigitBase::Hex),
            Lexeme::Whitespace,
            Lexeme::Digit(DigitBase::Decimal),
            Lexeme::Eof
        ]
    );
    assert_eq!(kinds("0b12"), vec![Lexeme::Digit(DigitBase::Binary), Lexeme::Digit(DigitBase::Decimal), Lexeme::Eof]);
    assert_eq!(kinds("0o8"), vec![Lexeme::Digit(DigitBase::Octal), Lexeme::Digit(DigitBase::Decimal), Lexeme::Eof]);
    assert_eq!(kinds("0xg"), vec![Lexeme::Digit(DigitBase::Hex), Lexeme::Ident, Lexeme::Eof]);
    assert_eq!(kinds("1.5"), vec![Lexeme::Digit(DigitBase::Decimal), Lexeme::Other, Lexeme::Digit(DigitBase::Decimal), Lexeme::Eof]);
    assert_eq!(kinds("\"a\\\"b\" c"), vec![Lexeme::Str, Lexeme::Whitespace, Lexeme::Ident, Lexeme::Eof]);
    assert_eq!(kinds("\"a\\\\\" c"), vec![Lexeme::Str, Lexeme::Whitespace, Lexeme::Ident, Lexeme::Eof]);
    assert_eq!(kinds("\"never closed\n x"), vec![Lexeme::Str, Lexeme::Eof]);
    assert_eq!(kinds("a;b\nc"), vec![Lexeme::Ident, Lexeme::Eol(true), Lexeme::Ident, Lexeme::Eof]);
    assert_eq!(kinds(",[]:"), vec![Lexeme::Comma, Lexeme::OpenBracket, Lexeme::CloseBracket, Lexeme::Colon, Lexeme::Eof]);
}

#[test]
fn character_classes() {
    for c in ['\t', '\u{B}', '\u{C}', '\r', ' ', '\u{85}', '\u{200E}', '\u{200F}', '\u{2028}', '\u{2029}'] {
        assert!(ws_not_nl(c));
        assert!(!is_other(c));
    }
    assert!(!ws_not_nl('\n'));
    assert!(!ws_not_nl('\u{A0}'));
    assert!(is_id_start('_') && is_id_start('a') && is_id_start('Z') && !is_id_start('0'));
    assert!(is_id_continue('0') && is_id_continue('_') && !is_id_continue('-'));
    assert!(is_other('@') && is_other('é') && is_other('.'));
    for c in ['a', '7', '\n', ',', '[', ']', ':', '"', ';'] {
        assert!(!is_other(c));
    }
}

#[test]
fn span_operations() {
    let a = Span::new(2, 5);
    let b = Span::new(7, 9);
    assert_eq!(a.to(b), Span::new(2, 9));
    assert_eq!(a.between(b), Span::new(5, 7));
    assert_eq!(Span::point(4), Span::new(4, 5));
    assert_eq!(a.offset(10), Span::new(12, 15));
    assert_eq!(a.len(), 3);
    assert!(!a.is_empty());
    assert!(Span::new(3, 3).is_empty());
    assert_eq!(a.slice("0123456789"), "234");
    assert_eq!(a.get("0123456789"), Some("234"));
    assert_eq!(Span::new(0, 1).get("é"), None);
    assert_eq!(Span::new(0, 2).get("é"), Some("é"));
    assert_eq!(Span::new(3, 2).get("abcd"), None);
    assert_eq!(Span::new(2, 9).get("abcd"), None);
    assert!(Span::new(1, 9) < Span::new(2, 0));
    assert!(Span::new(1, 2) < Span::new(1, 3));
}

#[test]
fn interner_contract() {
    let mut table = Interner::new();
    let a = table.get_or_intern("rax");
    let b = table.get_or_intern("rbx");
    let again = table.get_or_intern("rax");
    assert_eq!(a, Symbol { index: 0 });
    assert_eq!(b, Symbol { index: 1 });
    assert_eq!(a, again);
    assert_eq!(table.resolve(a), Some("rax"));
    assert_eq!(table.resolve(b), Some("rbx"));
    assert_eq!(table.resolve(Symbol { index: 2 }), None);
    assert_eq!(table.resolve(Symbol { index: u32::MAX }), None);
}

#[test]
fn repeated_names_share_a_symbol() {
    let (basm, errors) = parse("mov rax, rax\nmov \"rax\", [rax]\n");
    assert!(errors.is_empty());
    let Line::Instruction { ins: first, values: v0 } = &basm.lines[0] else { panic!() };
    let Line::Instruction { ins: second, values: v1 } = &basm.lines[1] else { panic!() };
    assert_eq!(first, second);
    let Value::Ident(rax) = v0[0] else { panic!() };
    assert_eq!(v0[1], Value::Ident(rax));
    assert_eq!(v1[0], Value::String(rax));
    assert_eq!(v1[1], Value::Deref(rax));
}

fn first_error(src: &str) -> (Vec<Line>, ParseErrorKind, Lexeme, (u32, u32)) {
    let (basm, mut errors) = parse(src);
    assert_eq!(errors.len(), 1, "{src:?}");
    let e = errors.remove(0);
    let ad = e.advance();
    assert_eq!(e.line(), ad.line);
    assert_eq!(e.offset(), ad.offset);
    (basm.lines, e.kind().clone(), ad.lex, (ad.span.from, ad.span.to))
}

#[test]
fn error_kinds() {
    let expected = |s: &str| ParseErrorKind::Expected(s.to_owned());
    let (lines, kind, lex, span) = first_error("label: x\n");
    assert_eq!(lines, vec![Line::NoOp]);
    assert_eq!((kind, lex, span), (expected("Whitespace"), Lexeme::Ident, (7, 8)));
    let (_, kind, lex, _) = first_error(", a\n");
    assert_eq!((kind, lex), (expected("Ident | Eol | Eof"), Lexeme::Comma));
    let (_, kind, lex, _) = first_error("mov a b c\n");
    assert_eq!((kind, lex), (expected("Comma"), Lexeme::Ident));
    let (_, kind, lex, _) = first_error("mov [1]\n");
    assert_eq!((kind, lex), (expected("Ident"), Lexeme::Digit(DigitBase::Decimal)));
    let (_, kind, lex, _) = first_error("mov [a b]\n");
    assert_eq!((kind, lex), (expected("CloseBracket"), Lexeme::Ident));
    let (_, kind, lex, _) = first_error("mov ]\n");
    assert_eq!(
        (kind, lex),
        (expected("Ident | Str | Colon | OpenBracket | Digit"), Lexeme::CloseBracket)
    );
    let (_, kind, lex, _) = first_error("section 1\n");
    assert_eq!((kind, lex), (expected("Ident"), Lexeme::Digit(DigitBase::Decimal)));

    let (_, kind, lex, span) = first_error("mov [a\n");
    assert_eq!((kind, lex, span), (ParseErrorKind::InputEnd, Lexeme::Eol(false), (6, 7)));
    let (_, kind, lex, _) = first_error("mov [");
    assert_eq!((kind, lex), (ParseErrorKind::InputEnd, Lexeme::Eof));
    let (_, kind, lex, _) = first_error("section\n");
    assert_eq!((kind, lex), (ParseErrorKind::InputEnd, Lexeme::Eol(false)));
    let (_, kind, lex, _) = first_error("global ; none\n");
    assert_eq!((kind, lex), (ParseErrorKind::InputEnd, Lexeme::Eol(true)));
    let (lines, kind, lex, span) = first_error("db \"open\nnext");
    assert_eq!(lines, vec![Line::NoOp]);
    assert_eq!((kind, lex, span), (ParseErrorKind::InputEnd, Lexeme::Str, (3, 13)));

    let int = |k| ParseErrorKind::ParseIntError(k);
    let (_, kind, _, span) = first_error("mov 65536\n");
    assert_eq!((kind, span), (int(IntErrorKind::Overflow), (4, 9)));
    let (_, kind, _, _) = first_error("mov 0x\n");
    assert_eq!(kind, int(IntErrorKind::Empty));
    let (_, kind, _, _) = first_error("mov 0b__\n");
    assert_eq!(kind, int(IntErrorKind::Empty));
    let (_, kind, _, _) = first_error("mov 0x1_0000\n");
    assert_eq!(kind, int(IntErrorKind::Overflow));
}

#[test]
fn recovery_is_by_line() {
    let (basm, errors) = parse("mov 99999, a\nadd b\n: x\nret");
    assert_eq!(errors.len(), 2);
    assert_eq!(errors[0].line(), 0);
    assert_eq!(errors[1].line(), 2);
    assert_eq!(basm.lines.len(), 4);
    assert_eq!(basm.lines[0], Line::NoOp);
    assert!(matches!(basm.lines[1], Line::Instruction { .. }));
    assert_eq!(basm.lines[2], Line::NoOp);
    assert!(matches!(basm.lines[3], Line::Instruction { .. }));
}

#[test]
fn fully_invalid_input_gives_noops() {
    let (basm, errors) = parse("1\n]\n, ,\n");
    assert_eq!(basm.lines, vec![Line::NoOp, Line::NoOp, Line::NoOp]);
    assert_eq!(errors.len(), 3);
}

#[test]
fn numbers_decode() {
    let (basm, errors) = parse("x 0b1010, 0o17, 0xfF, 1_000, 65535, 0, 007\n");
    assert!(errors.is_empty());
    let Line::Instruction { values, .. } = &basm.lines[0] else { panic!() };
    assert_eq!(
        values,
        &vec![
            Value::Digit(DigitBase::Binary, 10),
            Value::Digit(DigitBase::Octal, 15),
            Value::Digit(DigitBase::Hex, 255),
            Value::Digit(DigitBase::Decimal, 1000),
            Value::Digit(DigitBase::Decimal, 65535),
            Value::Digit(DigitBase::Decimal, 0),
            Value::Digit(DigitBase::Decimal, 7),
        ]
    );
    assert_eq!(parse_literal(b"12a", 0, 3, DigitBase::Decimal), Err(IntErrorKind::InvalidDigit));
    assert_eq!(parse_literal(b"0b12", 0, 4, DigitBase::Binary), Err(IntErrorKind::InvalidDigit));
    assert_eq!(parse_literal(b"0", 0, 1, DigitBase::Hex), Err(IntErrorKind::Empty));
    assert_eq!(parse_literal(b"xx41yy", 2, 4, DigitBase::Decimal), Ok(41));
}

#[test]
fn digits_round_trip() {
    for base in [DigitBase::Binary, DigitBase::Octal, DigitBase::Decimal, DigitBase::Hex] {
        for n in [0u16, 1, 7, 8, 9, 10, 15, 16, 255, 256, 4095, 40000, 65535] {
            let literal = render(base, n);
            assert_eq!(parse_literal(&literal, 0, literal.len(), base), Ok(n));
        }
    }
    assert_eq!(render(DigitBase::Hex, 0xBEEF), b"0xbeef");
    assert_eq!(render(DigitBase::Binary, 5), b"0b101");
    assert_eq!(render(DigitBase::Octal, 8), b"0o10");
    assert_eq!(render(DigitBase::Decimal, 1337), b"1337");
    for (literal, base) in [
        ("1337", DigitBase::Decimal),
        ("0", DigitBase::Decimal),
        ("0x1f", DigitBase::Hex),
        ("0b0", DigitBase::Binary),
        ("0o777", DigitBase::Octal),
    ] {
        let n = parse_literal(literal.as_bytes(), 0, literal.len(), base).unwrap();
        assert_eq!(render(base, n), literal.as_bytes());
    }
    assert_eq!(DigitBase::Binary.radix(), 2);
    assert_eq!(DigitBase::Octal.radix(), 8);
    assert_eq!(DigitBase::Decimal.radix(), 10);
    assert_eq!(DigitBase::Hex.radix(), 16);
}

#[test]
fn duplicate_labels() {
    let src = "a:\nb:\na:\nmov a\na:\nb:\n";
    let (basm, errors) = parse(src);
    let labels: Vec<usize> = basm
        .lines
        .iter()
        .enumerate()
        .filter(|(_, l)| matches!(l, Line::Label { .. }))
        .map(|(i, _)| i)
        .collect();
    assert_eq!(labels, vec![0, 1]);
    assert_eq!(basm.lines[2], Line::NoOp);
    assert_eq!(basm.lines[4], Line::NoOp);
    assert_eq!(basm.lines[5], Line::NoOp);
    let found: Vec<(u32, ParseErrorKind)> =
        errors.iter().map(|e| (e.line(), e.kind().clone())).collect();
    assert_eq!(
        found,
        vec![
            (2, ParseErrorKind::DuplicateLabel("a".to_owned(), 0)),
            (4, ParseErrorKind::DuplicateLabel("a".to_owned(), 0)),
            (5, ParseErrorKind::DuplicateLabel("b".to_owned(), 1)),
        ]
    );
    assert_eq!(errors[0].render(), "duplicate label found at: 2:0:1\n");
}

#[test]
fn rendering() {
    let (_, errors) = parse("  mov [a\n\nmov 70000\nx: y\n");
    let shown: Vec<String> = errors.iter().map(|e| e.render()).collect();
    assert_eq!(
        shown,
        vec![
            "input ended early at: 0:8:9\n",
            "unable to parse number at: 2:4:9\n",
            "unexpected input found at: 3:3:4. expected Whitespace but got Ident\n",
        ]
    );
    let ad = errors[2].advance();
    assert_eq!((ad.col_from(), ad.col_to()), (3, 4));
}

#[test]
fn lines_with_errors_are_left_alone() {
    let src = "mov   a, b c  \nmov   a\n";
    let (basm, errors, lex) = Parser::recorded(src).parse();
    assert_eq!(errors.len(), 1);
    let out = fmt(&basm, &lex, src, &errors, &FmtContext::default());
    let lines: Vec<u32> = out.iter().map(|e| e.line).collect();
    assert_eq!(lines, vec![1, 1]);
    // Without the diagnostics the first line would be formatted too.
    let out = fmt(&basm, &lex, src, &[], &FmtContext::default());
    assert!(out.iter().any(|e| e.line == 0));
}

#[test]
fn edits_are_sorted_and_disjoint() {
    for src in SAMPLES.iter().chain(
        [
            "  a :\n\tmov\ta ,b,c  ,  [ d ]  ;  x  \n",
            "x  db  1 ,2;\n   ; \t\n s  db \"a b\"\t\n",
            "mov a;c\nmov a ;c\nmov a  ; c \n,a\n mov,\n",
        ]
        .iter(),
    ) {
        for tab in [0, 1, 4, 8] {
            let (basm, errors, lex) = Parser::recorded(src).parse();
            let out = fmt(&basm, &lex, src, &errors, &FmtContext { tab_size: tab });
            let mut at = 0;
            for e in &out {
                assert!(at <= e.span.from, "{src:?}");
                assert!(e.span.from <= e.span.to);
                assert!(e.span.to as usize <= src.len());
                assert!(e.offset <= e.span.from);
                at = e.span.to;
            }
        }
    }
}

#[test]
fn formatting_is_stable() {
    for src in [
        "  a :\n\tmov\ta ,b,c  ,  [ d ]  ;  x  \n",
        "x  db  1 ,2;\n   ; \t\n s  db \"a b\"\t\n",
        "mov a;c\nmov a ;c\nmov a  ; c \n;\u{85}c\u{2028}\n",
        "global   _start\nsection\ttext ;\tt\n_start :\n",
        "mov a,\t[b] ,c\r\n\t \n  mov a ,b",
        "mov a b c\n  x :;y\n, mov\n  [ a\n",
        "\u{2028}mov\u{85}a ,\n;\t\u{2029}x\u{200e}\n",
        "",
    ] {
        let once = apply_fmt(src);
        assert_eq!(apply_fmt(&once), once, "{src:?}");
        assert!(create_fmt(&once).is_empty());
    }
}

#[test]
fn formatting_keeps_the_lines_of_the_diagnostics() {
    let src = "  mov a ,b\nmov a b c\n  x :;y\n, mov\n  [ a\nx:\n";
    let (before, errors) = parse(src);
    let lines: Vec<u32> = errors.iter().map(|e| e.line()).collect();
    assert_eq!(lines, [1, 3, 4, 5]);
    let formatted = apply_fmt(src);
    assert_eq!(formatted, "    mov a, b\nmov a b c\nx: ; y\n, mov\n  [ a\nx:\n");
    let (after, errors) = parse(&formatted);
    assert_eq!(errors.iter().map(|e| e.line()).collect::<Vec<u32>>(), lines);
    assert_eq!(before.lines, after.lines);
}

#[test]
fn a_new_parser_stands_at_the_start() {
    let src = "mov a\n";
    let parser = Parser::base(src);
    assert_eq!(parser.lexer().src(), src);
    assert!(!parser.lexer().is_peeked());
}

#[test]
fn formatting_keeps_the_program() {
    let src = "  a :\n\tmov\ta ,b,c  ,  [ d ]  ;  x  \nv  db  \"s  s\" ,2;\nglobal   a\nsection\tt\n";
    let (before, errors) = parse(src);
    assert!(errors.is_empty());
    let formatted = apply_fmt(src);
    assert_eq!(
        formatted,
        "a:\n    mov a, b, c, [d] ; x\nv db \"s  s\", 2 ;\nglobal a\nsection t\n"
    );
    let (after, errors) = parse(&formatted);
    assert!(errors.is_empty());
    assert_eq!(before.lines, after.lines);
}

#[test]
fn canonical_layout() {
    assert_eq!(apply_fmt("   ;c\n"), "; c\n");
    assert_eq!(apply_fmt(";\n"), ";\n");
    assert_eq!(apply_fmt(";   \n"), ";\n");
    assert_eq!(apply_fmt(";  c  \n"), "; c\n");
    assert_eq!(apply_fmt("a:;c"), "a: ; c");
    assert_eq!(apply_fmt("  x   db 1,2 \n"), "x db 1, 2\n");
    assert_eq!(apply_fmt("\tmov a\n"), "    mov a\n");
    assert_eq!(apply_fmt("mov a"), "mov a");
    assert_eq!(apply_fmt("mov a\nmov b"), "    mov a\nmov b");
    let (basm, errors, lex) = Parser::recorded("mov a\n").parse();
    let out = fmt(&basm, &lex, "mov a\n", &errors, &FmtContext { tab_size: 2 });
    assert_eq!(out.len(), 1);
    assert_eq!(out[0].text, "  ");
    assert_eq!(FmtContext::default().tab_size, 4);
}

#[test]
fn apply_splices_in_order() {
    let edits = vec![
        Edit { line: 0, offset: 0, span: Span::new(0, 0), text: ">".to_owned() },
        Edit { line: 0, offset: 0, span: Span::new(1, 3), text: String::new() },
        Edit { line: 0, offset: 0, span: Span::new(4, 5), text: "xyz".to_owned() },
    ];
    assert_eq!(apply("abcdef", &edits), ">adxyzf");
    assert_eq!(apply("abcdef", &[]), "abcdef");
}

#[test]
fn no_indent_asks_for_no_spaces() {
    let none = FmtContext { tab_size: 0 };
    let src = "mov a\n";
    let (basm, errors, lex) = Parser::recorded(src).parse();
    assert!(fmt(&basm, &lex, src, &errors, &none).is_empty());
    let src = "  mov a\n";
    let (basm, errors, lex) = Parser::recorded(src).parse();
    let out = fmt(&basm, &lex, src, &errors, &none);
    assert_eq!(out.len(), 1);
    assert_eq!((out[0].span, out[0].text.as_str()), (Span::new(0, 2), ""));
    assert_eq!(apply(src, &out), "mov a\n");
}
