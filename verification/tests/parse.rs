use basm::interner::Symbol;
use basm::ir::{Basm, Line, Value};
use basm::parse::Parser;

const HELLO: &str = r#"; ----------------------------------------

message str "Hello, World", 10  ; note the newline at the end
global  _start

_start: 
    mov       rax, 1            ; system call for write
    mov       rdi, 1            ; file handle 1 is stdout
    mov       rsi, message      ; address of string to output
    mov       rdx, 13           ; number of bytes
    syscall                     ; invoke operating system to do the write
    mov       rax, 60           ; system call for exit
    xor       rdi, rdi          ; exit code 0
    syscall                     ; invoke operating system to exit
"#;

const PRINT_ANY: &str = r#"    hello_world str "Hello, World!", 10, 0
    whats_up str "What's up", 10, 0
    long_text str "this is a longer line of text.", 10, 0

    global _start

_start:
    mov rax, hello_world
    call print

    mov rax, whats_up
    call print

    mov rax, long_text
    call print

    mov rax, 60
    mov rdi, 0
    syscall
print:
    push rax
    mov rbx, 0
print_loop:
    inc rax
    inc rbx
    mov cl, [rax]
    cmp cl, 0
    jne print_loop

    mov rax, 1
    mov rdi, 1
    pop rsi
    mov rdx, rbx
    syscall

    ret
"#;

const PRINT_INT: &str = r#"    digit_buffer        resb 100    ; --------------------
    digit_buffer_pos    resb 8      ; -----------------
                                    ; ----------------------------------------


    global _start

_start:
    mov rax, 1337
    call print

    mov rax, 60
    mov rdi, 0
    syscall

print:
    mov rcx, digit_buffer
    mov rbx, 10
    mov [rcx], rbx
    inc rcx
    mov [digit_buffer_pos], rcx
int_buffer:
    mov rdx, 0
    mov rbx, 10
    div rbx
    push rax
    add rdx, 48 ; -----------------------------------------

    mov rcx, [digit_buffer_pos]
    mov [rcx], dl
    inc rcx
    mov [digit_buffer_pos], rcx

    pop rax
    cmp rax, 0
    jne int_buffer
print_loop:
    mov rcx, [digit_buffer_pos]

    mov rax, 1
    mov rdi, 1
    mov rsi, rcx
    mov rdx, 1
    syscall

    mov rcx, [digit_buffer_pos]
    dec rcx
    mov [digit_buffer_pos], rcx

    cmp rcx, digit_buffer
    jge print_loop

    ret
"#;

/// Strips the first newline and the common indentation of a literal.
fn ex(text: &str) -> String {
    let text = text.strip_prefix('\n').unwrap_or(text);
    let indent = text
        .lines()
        .filter(|line| !line.trim().is_empty())
        .map(|line| line.len() - line.trim_start().len())
        .min()
        .unwrap_or(0);
    text.split_inclusive('\n')
        .map(|line| {
            if line.len() <= indent {
                line.trim_start_matches(' ')
            } else {
                &line[indent..]
            }
        })
        .collect()
}

fn sy(basm: &Basm, sym: &Symbol) -> String {
    basm.si.resolve(*sym).unwrap().to_owned()
}

fn vals(basm: &Basm, values: &[Value]) -> String {
    let mut out = String::new();
    for value in values {
        if !out.is_empty() {
            out.push_str(", ");
        } else {
            out.push(' ');
        }
        match value {
            Value::Deref(s) => {
                out.push('[');
                out.push_str(&sy(basm, s));
                out.push(']');
            }
            Value::Ident(s) => {
                out.push_str(&sy(basm, s));
            }
            Value::String(s) => {
                out.push('"');
                out.push_str(&sy(basm, s));
                out.push('"');
            }
            Value::Digit(_, n) => out.push_str(&n.to_string()),
        };
    }
    out
}

fn check(src: &str, expect: &str) {
    let (basm, errors) = Parser::base(src).parse();
    let mut output = String::with_capacity(src.len());
    output.push_str("output:\n");
    for line in basm.lines.iter() {
        let text = match line {
            Line::NoOp => "NoOp: ".to_owned(),
            Line::Section { name } => format!("Section: {}", sy(&basm, name)),
            Line::Global { name } => format!("Global: {}", sy(&basm, name)),
            Line::Label { name } => format!("Label: {}", sy(&basm, name)),
            Line::Instruction { ins, values } => {
                format!("Instruction: {}{}", sy(&basm, ins), vals(&basm, values))
            }
            Line::Variable { name, ty, values } => format!(
                "Variable: {} {}{}",
                sy(&basm, name),
                sy(&basm, ty),
                vals(&basm, values)
            ),
        };
        output.push_str(&text);
        output.push('\n');
    }
    for e in errors.iter() {
        output.push_str(&e.render());
    }
    assert_eq!(output, expect);
}

#[test]
fn test_empty() {
    check("", &ex(r#"
        output:
    "#));
}

#[test]
fn test_multi_empty() {
    check(
        "\n\n\n\n",
        &ex(r#"
            output:
            NoOp: 
            NoOp: 
            NoOp: 
            NoOp: 
        "#),
    );
}

#[test]
fn test_empty_ws() {
    check(
        "\t\t    \t     \t ",
        &ex(r#"
            output:
        "#),
    );
}

#[test]
fn test_multi_empty_ws() {
    check(
        "\t\t    \t     \t \n\n\t\t    \t     \t \n\n",
        &ex(r#"
            output:
            NoOp: 
            NoOp: 
            NoOp: 
            NoOp: 
        "#),
    );
}

#[test]
fn test_singles() {
    check(
        "one\n two\t\n threeeeee\n four\n",
        &ex(r#"
            output:
            Instruction: one
            Instruction: two
            Instruction: threeeeee
            Instruction: four
        "#),
    );
}

#[test]
fn test_doubles() {
    check(
        "one two\n two threeeee\t\n threeeeee four\n four five\n",
        &ex(r#"
            output:
            Instruction: one two
            Instruction: two threeeee
            Instruction: threeeeee four
            Instruction: four five
        "#),
    );
}

#[test]
fn test_triples() {
    check(
        "one two, three\n two threeeee, four",
        &ex(r#"
            output:
            Instruction: one two, three
            Instruction: two threeeee, four
        "#),
    );
}

#[test]
fn test_empty_comments() {
    check(
        "\
\t\t  \t    ; one two three
; three four five
\t; five six",
        &ex(r#"
            output:
            NoOp: 
            NoOp: 
            NoOp: 
        "#),
    );
}

#[test]
fn test_comment_etc() {
    check(
        "\
abc\t\t  \t    ; one two three
cde efg; three four five
ghi ijk, klm\t; five six",
        &ex(r#"
            output:
            Instruction: abc
            Instruction: cde efg
            Instruction: ghi ijk, klm
        "#),
    );
}

#[test]
fn test_label() {
    check(
        "\
l1      :
\t\tl2\t:
\t\t    l3      :",
        &ex(r#"
            output:
            Label: l1
            Label: l2
            Label: l3
        "#),
    );
}

#[test]
fn test_decimal() {
    check(
        "\
1, 1293, 9384093, 1231234",
        &ex(r#"
            output:
            NoOp: 
            unexpected input found at: 0:0:1. expected Ident | Eol | Eof but got Digit(Decimal)
        "#),
    );
}

#[test]
fn test_variable() {
    check(
        "\
msg db \"ONE TWO THREE\", 12309, 12
digit reb 100",
        &ex(r#"
            output:
            Variable: msg db "ONE TWO THREE", 12309, 12
            Variable: digit reb 100
        "#),
    );
}

#[test]
fn test_variable_err() {
    check(
        r#"msg db "ONE TWO THREE" 12309 12"#,
        &ex(r#"
            output:
            NoOp: 
            unexpected input found at: 0:23:28. expected Comma but got Digit(Decimal)
        "#),
    );
}

#[test]
fn test_hello_world() {
    check(
        HELLO,
        &ex(r#"
            output:
            NoOp: 
            NoOp: 
            Variable: message str "Hello, World", 10
            Global: _start
            NoOp: 
            Label: _start
            Instruction: mov rax, 1
            Instruction: mov rdi, 1
            Instruction: mov rsi, message
            Instruction: mov rdx, 13
            Instruction: syscall
            Instruction: mov rax, 60
            Instruction: xor rdi, rdi
            Instruction: syscall
        "#),
    );
}

#[test]
fn test_print_any() {
    check(
        PRINT_ANY,
        &ex(r#"
            output:
            Variable: hello_world str "Hello, World!", 10, 0
            Variable: whats_up str "What's up", 10, 0
            Variable: long_text str "this is a longer line of text.", 10, 0
            NoOp: 
            Global: _start
            NoOp: 
            Label: _start
            Instruction: mov rax, hello_world
            Instruction: call print
            NoOp: 
            Instruction: mov rax, whats_up
            Instruction: call print
            NoOp: 
            Instruction: mov rax, long_text
            Instruction: call print
            NoOp: 
            Instruction: mov rax, 60
            Instruction: mov rdi, 0
            Instruction: syscall
            Label: print
            Instruction: push rax
            Instruction: mov rbx, 0
            Label: print_loop
            Instruction: inc rax
            Instruction: inc rbx
            Instruction: mov cl, [rax]
            Instruction: cmp cl, 0
            Instruction: jne print_loop
            NoOp: 
            Instruction: mov rax, 1
            Instruction: mov rdi, 1
            Instruction: pop rsi
            Instruction: mov rdx, rbx
            Instruction: syscall
            NoOp: 
            Instruction: ret
        "#),
    );
}

#[test]
fn test_print_int() {
    check(
        PRINT_INT,
        &ex(r#"
            output:
            Variable: digit_buffer resb 100
            Variable: digit_buffer_pos resb 8
            NoOp: 
            NoOp: 
            NoOp: 
            Global: _start
            NoOp: 
            Label: _start
            Instruction: mov rax, 1337
            Instruction: call print
            NoOp: 
            Instruction: mov rax, 60
            Instruction: mov rdi, 0
            Instruction: syscall
            NoOp: 
            Label: print
            Instruction: mov rcx, digit_buffer
            Instruction: mov rbx, 10
            Instruction: mov [rcx], rbx
            Instruction: inc rcx
            Instruction: mov [digit_buffer_pos], rcx
            Label: int_buffer
            Instruction: mov rdx, 0
            Instruction: mov rbx, 10
            Instruction: div rbx
            Instruction: push rax
            Instruction: add rdx, 48
            NoOp: 
            Instruction: mov rcx, [digit_buffer_pos]
            Instruction: mov [rcx], dl
            Instruction: inc rcx
            Instruction: mov [digit_buffer_pos], rcx
            NoOp: 
            Instruction: pop rax
            Instruction: cmp rax, 0
            Instruction: jne int_buffer
            Label: print_loop
            Instruction: mov rcx, [digit_buffer_pos]
            NoOp: 
            Instruction: mov rax, 1
            Instruction: mov rdi, 1
            Instruction: mov rsi, rcx
            Instruction: mov rdx, 1
            Instruction: syscall
            NoOp: 
            Instruction: mov rcx, [digit_buffer_pos]
            Instruction: dec rcx
            Instruction: mov [digit_buffer_pos], rcx
            NoOp: 
            Instruction: cmp rcx, digit_buffer
            Instruction: jge print_loop
            NoOp: 
            Instruction: ret
        "#),
    );
}

#[test]
fn test_numerics() {
    check(
        "\
190238, 10928321, 0904832041, 3924092840238491019283210
0x1saklj90238SLKDJSD, 0b10101_1001, 0o172537162
",
        &ex(r#"
            output:
            NoOp: 
            NoOp: 
            unexpected input found at: 0:0:6. expected Ident | Eol | Eof but got Digit(Decimal)
            unexpected input found at: 1:0:3. expected Ident | Eol | Eof but got Digit(Hex)
        "#),
    );
}

#[test]
fn test_deref() {
    check(
        "\
one [ yeahhhhh
two [ nooooo 12309]
three [  12309 nooooo]
",
        &ex(r#"
            output:
            NoOp: 
            NoOp: 
            NoOp: 
            input ended early at: 0:14:15
            unexpected input found at: 1:13:18. expected CloseBracket but got Digit(Decimal)
            unexpected input found at: 2:9:14. expected Ident but got Digit(Decimal)
        "#),
    );
}

#[test]
fn test_float() {
    check(
        "\
0.123.123.123
",
        &ex(r#"
            output:
            NoOp: 
            unexpected input found at: 0:0:1. expected Ident | Eol | Eof but got Digit(Decimal)
        "#),
    );
}

/// out of order

#[test]
fn test_ooo() {
    check(
        "\
123  yeah
123, yeah
",
        &ex(r#"
            output:
            NoOp: 
            NoOp: 
            unexpected input found at: 0:0:3. expected Ident | Eol | Eof but got Digit(Decimal)
            unexpected input found at: 1:0:3. expected Ident | Eol | Eof but got Digit(Decimal)
        "#),
    );
}

#[test]
fn test_other_comment() {
    check(
        "\
; one two three
    ; one two three
",
        &ex(r#"
            output:
            NoOp: 
            NoOp: 
        "#),
    );
}

#[test]
fn test_colon_other() {
    check(
        "\
label: : :
var var var: : :
var var \"var\", 10, 0: : :
: : : ;empty!
",
        &ex(r#"
            output:
            NoOp: 
            NoOp: 
            NoOp: 
            NoOp: 
            unexpected input found at: 0:7:8. expected Whitespace but got Colon
            unexpected input found at: 1:11:12. expected Comma but got Colon
            unexpected input found at: 2:20:21. expected Comma but got Colon
            unexpected input found at: 3:0:1. expected Ident | Eol | Eof but got Colon
        "#),
    );
}

#[test]
fn test_rand_other() {
    check(
        "\
label: `~]]./\\
var var var `~]]./\\
var var \"var\", 10, 0`~]]./\\
 `~]]./\\;empty!
",
        &ex(r#"
            output:
            NoOp: 
            NoOp: 
            NoOp: 
            NoOp: 
            unexpected input found at: 0:7:9. expected Whitespace but got Other
            unexpected input found at: 1:12:14. expected Comma but got Other
            unexpected input found at: 2:20:22. expected Comma but got Other
            unexpected input found at: 3:1:3. expected Ident | Eol | Eof but got Other
        "#),
    );
}

#[test]
fn test_empty_not_instruction() {
    check(
        "one, two, three\n two, threeeee, four",
        &ex(r#"
            output:
            NoOp: 
            NoOp: 
            unexpected input found at: 0:3:4. expected Ident | Str | Colon | OpenBracket | Digit but got Comma
            unexpected input found at: 1:4:5. expected Ident | Str | Colon | OpenBracket | Digit but got Comma
        "#),
    );
}
