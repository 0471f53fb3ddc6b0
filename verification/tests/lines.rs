use basm::lines::{
    comment, derefed, ident2, identifier, ins_or_var, label, lex_lines, line_spans, parse_string,
    section, val, values0, values1, Line, LineKind, Read, Row, Value,
};
use basm::span::Span;

fn cut<'a>(src: &'a str, span: &Span) -> &'a str {
    &src[span.from as usize..span.to as usize]
}

fn show_value(src: &str, v: &Value) -> String {
    match v {
        Value::Hex(s) => format!("Hex({:?})", cut(src, s)),
        Value::Octal(s) => format!("Octal({:?})", cut(src, s)),
        Value::Binary(s) => format!("Binary({:?})", cut(src, s)),
        Value::Decimal(s) => format!("Decimal({:?})", cut(src, s)),
        Value::Float(s) => format!("Float({:?})", cut(src, s)),
        Value::Identifier(s) => format!("Identifier({:?})", cut(src, s)),
        Value::Deref(s) => format!("Deref({:?})", cut(src, s)),
        Value::String(b) => format!("String({:?})", String::from_utf8(b.clone()).unwrap()),
    }
}

fn show_values(src: &str, vs: &[Value]) -> String {
    let all: Vec<String> = vs.iter().map(|v| show_value(src, v)).collect();
    format!("[{}]", all.join(", "))
}

fn show_kind(src: &str, kind: &LineKind) -> String {
    match kind {
        LineKind::Empty => format!("Empty"),
        LineKind::Section(s) => format!("Section({:?})", cut(src, s)),
        LineKind::Label(s) => format!("Label({:?})", cut(src, s)),
        LineKind::Ins(s, vs) => format!("Ins({:?}, {})", cut(src, s), show_values(src, vs)),
        LineKind::Var { name, dir, val } => format!(
            "Var {{ name: {:?}, dir: {:?}, val: {} }}",
            cut(src, name),
            cut(src, dir),
            show_values(src, val)
        ),
    }
}

fn show_span(src: &str, r: Read<Span>) -> String {
    match r {
        Read::Done(s, at) => format!("Ok(({:?}, {:?}))", &src[at..], cut(src, &s)),
        Read::Miss => format!("Miss"),
        Read::Short => format!("Short"),
    }
}

fn show_read(src: &str, r: Read<LineKind>) -> String {
    match r {
        Read::Done(k, at) => format!("Ok(({:?}, {}))", &src[at..], show_kind(src, &k)),
        Read::Miss => format!("Miss"),
        Read::Short => format!("Short"),
    }
}

fn show_line(src: &str) -> String {
    match basm::lines::line(src.as_bytes()) {
        Read::Done(l, at) => format!("Ok(({:?}, {}))", &src[at..], show_kind(src, &l.kind)),
        Read::Miss => format!("Miss"),
        Read::Short => format!("Short"),
    }
}

fn show_lines(src: &str) -> String {
    let all: Vec<String> = src.lines().map(show_line).collect();
    all.join("\n")
}

#[test]
fn line_label() {
    let src = "   _one : ";
    assert_eq!(show_span(src, label(src.as_bytes(), 0)), r#"Ok(("", "_one"))"#);
}

#[test]
fn label_fail() {
    assert_eq!(label("12one:".as_bytes(), 0), Read::Miss);
    assert_eq!(label("yeah()".as_bytes(), 0), Read::Miss);
}

#[test]
fn nullary() {
    let src = "   _one   ";
    assert_eq!(show_read(src, ins_or_var(src.as_bytes(), 0)), r#"Ok(("", Ins("_one", [])))"#);
}

#[test]
fn unary() {
    let src = "   _one  two ";
    assert_eq!(
        show_read(src, ins_or_var(src.as_bytes(), 0)),
        r#"Ok(("", Ins("_one", [Identifier("two")])))"#
    );
}

#[test]
fn binary() {
    let src = "   _one  two,   threee ";
    assert_eq!(
        show_read(src, ins_or_var(src.as_bytes(), 0)),
        r#"Ok(("", Ins("_one", [Identifier("two"), Identifier("threee")])))"#
    );
}

#[test]
fn nullary_list() {
    let all: Vec<String> = "one\ntwo\nthree\nfour"
        .lines()
        .map(|l| show_read(l, ins_or_var(l.as_bytes(), 0)))
        .collect();
    assert_eq!(
        all.join("\n"),
        r#"Ok(("", Ins("one", [])))
Ok(("", Ins("two", [])))
Ok(("", Ins("three", [])))
Ok(("", Ins("four", [])))"#
    );
}

#[test]
fn unary_list() {
    let all: Vec<String> = "one two\nthree four\nfive six\nseven eight"
        .lines()
        .map(|l| show_read(l, ins_or_var(l.as_bytes(), 0)))
        .collect();
    assert_eq!(
        all.join("\n"),
        r#"Ok(("", Ins("one", [Identifier("two")])))
Ok(("", Ins("three", [Identifier("four")])))
Ok(("", Ins("five", [Identifier("six")])))
Ok(("", Ins("seven", [Identifier("eight")])))"#
    );
}

#[test]
fn unit_list_1() {
    assert_eq!(
        show_lines("one\ntwo three\nfour five\nsix seven, eight"),
        r#"Ok(("", Ins("one", [])))
Ok(("", Ins("two", [Identifier("three")])))
Ok(("", Ins("four", [Identifier("five")])))
Ok(("", Ins("six", [Identifier("seven"), Identifier("eight")])))"#
    );
}

#[test]
fn test_section() {
    let src = "   section .data";
    assert_eq!(show_span(src, section(src.as_bytes(), 0)), r#"Ok(("", "data"))"#);
}

#[test]
fn sections() {
    let all: Vec<String> = "section .data\nsection .bss\nsection .text"
        .lines()
        .map(|l| show_span(l, section(l.as_bytes(), 0)))
        .collect();
    assert_eq!(
        all.join("\n"),
        r#"Ok(("", "data"))
Ok(("", "bss"))
Ok(("", "text"))"#
    );
}

const HELLO_WORLD: &str = "section .data
message db \"Hello, World\", 10

section .text
global _start

_start:
    mov rax, 1
    mov rdi, 1
    mov rsi, message
    mov rdx, 13
    syscall
    mov rax, 60
    xor rdi, rdi
    syscall
";

#[test]
fn line_hello_world() {
    assert_eq!(
        show_lines(HELLO_WORLD),
        r#"Ok(("", Section("data")))
Ok(("", Var { name: "message", dir: "db", val: [String("Hello, World"), Decimal("10")] }))
Ok(("", Empty))
Ok(("", Section("text")))
Ok(("", Ins("global", [Identifier("_start")])))
Ok(("", Empty))
Ok(("", Label("_start")))
Ok(("", Ins("mov", [Identifier("rax"), Decimal("1")])))
Ok(("", Ins("mov", [Identifier("rdi"), Decimal("1")])))
Ok(("", Ins("mov", [Identifier("rsi"), Identifier("message")])))
Ok(("", Ins("mov", [Identifier("rdx"), Decimal("13")])))
Ok(("", Ins("syscall", [])))
Ok(("", Ins("mov", [Identifier("rax"), Decimal("60")])))
Ok(("", Ins("xor", [Identifier("rdi"), Identifier("rdi")])))
Ok(("", Ins("syscall", [])))"#
    );
}

const PRINT_ANY: &str = "section .data
hello_world db \"Hello, World!\", 10, 0
whats_up db \"What's up\", 10, 0
long_text db \"this is a longer line of text.\", 10, 0

section .text
global _start

_start:
    mov rax, hello_world
    call print

    mov rax, whats_up
    call print

    mov rax, long_text
    call print

    mov rax, 60
    mov rdi, 0
    syscall
print:
    push rax
    mov rbx, 0
print_loop:
    inc rax
    inc rbx
    mov cl, [rax]
    cmp cl, 0
    jne print_loop

    mov rax, 1
    mov rdi, 1
    pop rsi
    mov rdx, rbx
    syscall

    ret
";

#[test]
fn line_print_any() {
    assert_eq!(
        show_lines(PRINT_ANY),
        r#"Ok(("", Section("data")))
Ok(("", Var { name: "hello_world", dir: "db", val: [String("Hello, World!"), Decimal("10"), Decimal("0")] }))
Ok(("", Var { name: "whats_up", dir: "db", val: [String("What's up"), Decimal("10"), Decimal("0")] }))
Ok(("", Var { name: "long_text", dir: "db", val: [String("this is a longer line of text."), Decimal("10"), Decimal("0")] }))
Ok(("", Empty))
Ok(("", Section("text")))
Ok(("", Ins("global", [Identifier("_start")])))
Ok(("", Empty))
Ok(("", Label("_start")))
Ok(("", Ins("mov", [Identifier("rax"), Identifier("hello_world")])))
Ok(("", Ins("call", [Identifier("print")])))
Ok(("", Empty))
Ok(("", Ins("mov", [Identifier("rax"), Identifier("whats_up")])))
Ok(("", Ins("call", [Identifier("print")])))
Ok(("", Empty))
Ok(("", Ins("mov", [Identifier("rax"), Identifier("long_text")])))
Ok(("", Ins("call", [Identifier("print")])))
Ok(("", Empty))
Ok(("", Ins("mov", [Identifier("rax"), Decimal("60")])))
Ok(("", Ins("mov", [Identifier("rdi"), Decimal("0")])))
Ok(("", Ins("syscall", [])))
Ok(("", Label("print")))
Ok(("", Ins("push", [Identifier("rax")])))
Ok(("", Ins("mov", [Identifier("rbx"), Decimal("0")])))
Ok(("", Label("print_loop")))
Ok(("", Ins("inc", [Identifier("rax")])))
Ok(("", Ins("inc", [Identifier("rbx")])))
Ok(("", Ins("mov", [Identifier("cl"), Deref("rax")])))
Ok(("", Ins("cmp", [Identifier("cl"), Decimal("0")])))
Ok(("", Ins("jne", [Identifier("print_loop")])))
Ok(("", Empty))
Ok(("", Ins("mov", [Identifier("rax"), Decimal("1")])))
Ok(("", Ins("mov", [Identifier("rdi"), Decimal("1")])))
Ok(("", Ins("pop", [Identifier("rsi")])))
Ok(("", Ins("mov", [Identifier("rdx"), Identifier("rbx")])))
Ok(("", Ins("syscall", [])))
Ok(("", Empty))
Ok(("", Ins("ret", [])))"#
    );
}

fn one(src: &str) -> String {
    match val(src.as_bytes(), 0) {
        Read::Done(v, at) => format!("{} {:?}", show_value(src, &v), &src[at..]),
        Read::Miss => format!("Miss"),
        Read::Short => format!("Short"),
    }
}

#[test]
fn values_of_each_kind() {
    assert_eq!(one("0x1F_a,"), r#"Hex("1F_a") ",""#);
    assert_eq!(one("0X_1"), r#"Decimal("0") "X_1""#);
    assert_eq!(one("0o17"), r#"Octal("17") """#);
    assert_eq!(one("0b2"), r#"Decimal("0") "b2""#);
    assert_eq!(one("0B1_0 "), r#"Binary("1_0") " ""#);
    assert_eq!(one("12__3x"), r#"Decimal("12__3") "x""#);
    assert_eq!(one("1.5"), r#"Decimal("1") ".5""#);
    assert_eq!(one(".5e-3x"), r#"Float(".5e-3") "x""#);
    assert_eq!(one(".5e"), r#"Float(".5") "e""#);
    assert_eq!(one("_a1 b"), r#"Identifier("_a1") " b""#);
    assert_eq!(one("[ a ]"), r#"Deref("a") """#);
    assert_eq!(one("[ a"), "Miss");
    assert_eq!(one("_"), r#"Identifier("_") """#);
    assert_eq!(one(""), "Miss");
    assert_eq!(one(","), "Miss");
    assert_eq!(one("\"a b\" c"), r#"String("a b") " c""#);
    assert_eq!(one("\"a b"), "Short");
}

#[test]
fn identifiers_and_brackets() {
    assert_eq!(identifier(b"ab_1-", 0), Read::Done(Span::new(0, 4), 4));
    assert_eq!(identifier(b" ab", 0), Read::Miss);
    assert_eq!(identifier(b" ab", 1), Read::Done(Span::new(1, 3), 3));
    assert_eq!(ident2(b"1a", 0), Read::Miss);
    assert_eq!(derefed(b"[\tx ]y", 0), Read::Done(Span::new(2, 3), 5));
    assert_eq!(derefed(b"[1]", 0), Read::Miss);
}

#[test]
fn strings_and_their_escapes() {
    assert_eq!(
        parse_string(b"\"a\\n\\u{41}\\  b\\\"\\\\\\/\"", 0),
        Read::Done(b"a\nAb\"\\/".to_vec(), 21)
    );
    assert_eq!(parse_string(b"\"\\t\\r\\b\\f\"", 0), Read::Done(vec![9, 13, 8, 12], 10));
    assert_eq!(
        parse_string("\"\\u{1F600}\\u{e9}\\u{20AC}\"".as_bytes(), 0),
        Read::Done("\u{1F600}\u{e9}\u{20AC}".as_bytes().to_vec(), 25)
    );
    assert_eq!(parse_string(b"\"\"", 0), Read::Done(Vec::new(), 2));
    assert_eq!(parse_string(b"\"abc", 0), Read::Short);
    assert_eq!(parse_string(b"\"", 0), Read::Short);
    assert_eq!(parse_string(b"\"a\\q\"", 0), Read::Miss);
    assert_eq!(parse_string(b"\"\\u{D800}\"", 0), Read::Miss);
    assert_eq!(parse_string(b"\"\\u{110000}\"", 0), Read::Miss);
    assert_eq!(parse_string(b"\"\\u{1234567}\"", 0), Read::Miss);
    assert_eq!(parse_string(b"\"\\u{}\"", 0), Read::Miss);
    assert_eq!(parse_string(b"\"\\u{12", 0), Read::Short);
    assert_eq!(parse_string(b"\"\\u{123456", 0), Read::Miss);
    assert_eq!(parse_string(b"\"a\\  ", 0), Read::Short);
    assert_eq!(parse_string(b"x\"a\"", 0), Read::Miss);
    assert_eq!(parse_string(b"x\"a\"", 1), Read::Done(b"a".to_vec(), 4));
}

#[test]
fn lists_of_values() {
    let src = " a, b,";
    match values0(src.as_bytes(), 0) {
        Read::Done(vs, at) => {
            assert_eq!(show_values(src, &vs), r#"[Identifier("a"), Identifier("b")]"#);
            assert_eq!(at, 5);
        }
        _ => panic!(),
    }
    assert_eq!(values0(b" ; x", 0), Read::Done(Vec::new(), 1));
    assert_eq!(values1(b" ; x", 0), Read::Miss);
    assert_eq!(values1(b"1, \"a", 0), Read::Short);
    assert_eq!(
        values1(b"1 ,2", 0),
        Read::Done(vec![Value::Decimal(Span::new(0, 1)), Value::Decimal(Span::new(3, 4))], 4)
    );
}

#[test]
fn comments_and_whole_lines() {
    assert_eq!(comment(b"  ; a b", 0), Read::Done(Some(Span::new(2, 7)), 7));
    assert_eq!(comment(b"  a", 0), Read::Done(None, 0));
    assert_eq!(
        basm::lines::line(b"mov a, b ; c"),
        Read::Done(
            Line {
                kind: LineKind::Ins(
                    Span::new(0, 3),
                    vec![Value::Identifier(Span::new(4, 5)), Value::Identifier(Span::new(7, 8))]
                ),
                comment: Some(Span::new(9, 12)),
            },
            12
        )
    );
    assert_eq!(basm::lines::line(b""), Read::Done(Line { kind: LineKind::Empty, comment: None }, 0));
    assert_eq!(basm::lines::line(b" \t "), Read::Done(Line { kind: LineKind::Empty, comment: None }, 3));
    assert_eq!(
        basm::lines::line(b" ;"),
        Read::Done(Line { kind: LineKind::Empty, comment: Some(Span::new(1, 2)) }, 2)
    );
    assert_eq!(
        basm::lines::line(b"x db 1"),
        Read::Done(
            Line {
                kind: LineKind::Var {
                    name: Span::new(0, 1),
                    dir: Span::new(2, 4),
                    val: vec![Value::Decimal(Span::new(5, 6))],
                },
                comment: None,
            },
            6
        )
    );
    assert_eq!(basm::lines::line(b"mov a b c"), Read::Miss);
    assert_eq!(basm::lines::line(b"a: b"), Read::Miss);
    assert_eq!(show_line("section data"), r#"Ok(("", Ins("section", [Identifier("data")])))"#);
    assert_eq!(basm::lines::line(b"mov \"a"), Read::Short);
    assert_eq!(basm::lines::line(b", a"), Read::Miss);
}

#[test]
fn lines_of_a_text() {
    assert_eq!(
        line_spans(b"a\r\nbc\n\nd"),
        vec![
            Row { from: 0, to: 1, extra: 0 },
            Row { from: 3, to: 5, extra: 2 },
            Row { from: 6, to: 6, extra: 5 },
            Row { from: 7, to: 8, extra: 6 },
        ]
    );
    assert_eq!(line_spans(b""), Vec::new());
    assert_eq!(line_spans(b"\n"), vec![Row { from: 0, to: 0, extra: 0 }]);
    assert_eq!(line_spans(b"a\r"), vec![Row { from: 0, to: 2, extra: 0 }]);
    let all = lex_lines(b"x:\n mov \"a\nq q q q\n");
    assert_eq!(all.len(), 3);
    assert_eq!(
        all[0],
        Read::Done(Line { kind: LineKind::Label(Span::new(0, 1)), comment: None }, 2)
    );
    assert_eq!(all[1], Read::Short);
    assert_eq!(all[2], Read::Miss);
}
