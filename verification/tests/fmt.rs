use basm::fmt::{apply_fmt, fmt, Edit, FmtContext};
use basm::parse::Parser;

const HELLO: &str = r#"; ----------------------------------------

message str "Hello, World", 10  ; note the newline at the end
global  _start

_start: 
    mov       rax, 1            ; system call for write
    mov       rdi, 1            ; file handle 1 is stdout
    mov       rsi, message      ; address of string to output
    mov       rdx, 13           ; number of bytes
    syscall                     ; invoke operating system to do the write
    mov       rax, 60           ; system call for exit
    xor       rdi, rdi          ; exit code 0
    syscall                     ; invoke operating system to exit
"#;


/// Strips the first newline and the common indentation of a literal.
fn ex(text: &str) -> String {
    let text = text.strip_prefix('\n').unwrap_or(text);
    let indent = text
        .lines()
        .filter(|line| !line.trim().is_empty())
        .map(|line| line.len() - line.trim_start().len())
        .min()
        .unwrap_or(0);
    text.split_inclusive('\n')
        .map(|line| {
            if line.len() <= indent {
                line.trim_start_matches(' ')
            } else {
                &line[indent..]
            }
        })
        .collect()
}

fn display_edit(src: &str, edit: &Edit) -> String {
    let from = edit.span.from as usize;
    let to = edit.span.to as usize;
    format!(
        "{}:({}, {}) = '{}' -> '{}'",
        edit.line,
        edit.span.from - edit.offset,
        edit.span.to - edit.offset,
        src[from..to].escape_debug(),
        edit.text
    )
}

fn check(src: &str, expect: &str) {
    let (basm, errors, lex) = Parser::recorded(src).parse();
    let edits = fmt(&basm, &lex, src, &errors, &FmtContext::default());
    let shown = edits
        .iter()
        .map(|e| display_edit(src, e))
        .collect::<Vec<_>>()
        .join("\n");
    assert_eq!(shown, expect);
}

const HELLO_FORMATTED: &str = "\
; ----------------------------------------

message str \"Hello, World\", 10 ; note the newline at the end
global _start

_start:
    mov rax, 1 ; system call for write
    mov rdi, 1 ; file handle 1 is stdout
    mov rsi, message ; address of string to output
    mov rdx, 13 ; number of bytes
    syscall ; invoke operating system to do the write
    mov rax, 60 ; system call for exit
    xor rdi, rdi ; exit code 0
    syscall ; invoke operating system to exit
";

#[test]
fn fmt_empty() {
    check("", &ex(""));
}

#[test]
fn fmt_empty_lines() {
    check("\n\n\n", &ex(""));
}

#[test]
fn fmt_empty_lines_ws() {
    check(
        "  \t  \t \n \t \n \n",
        &ex(r#"
            0:(0, 7) = '  \t  \t ' -> ''
            1:(0, 3) = ' \t ' -> ''
            2:(0, 1) = ' ' -> ''"#),
    );
}

#[test]
fn pad_instruction_four() {
    check(
        "
mov rax, 12
mov rax, rax
mov rax
",
        &ex(r#"
            1:(0, 0) = '' -> '    '
            2:(0, 0) = '' -> '    '
            3:(0, 0) = '' -> '    '"#),
    );
}

#[test]
fn pad_instruction_n() {
    check(
        "
            mov rax, 12
    mov rax, rax
            mov rax
",
        &ex(r#"
            1:(0, 12) = '            ' -> '    '
            3:(0, 12) = '            ' -> '    '"#),
    );
}

#[test]
fn pad_trim() {
    check(
        "
            \tmov rax, 12     
    mov rax, rax                
   \t\t         mov rax         
",
        &ex(r#"
            1:(0, 13) = '            \t' -> '    '
            1:(24, 29) = '     ' -> ''
            2:(16, 32) = '                ' -> ''
            3:(0, 14) = '   \t\t         ' -> '    '
            3:(21, 30) = '         ' -> ''"#),
    );
}

#[test]
fn fmt_deref() {
    check(
        "
    rax [deref]
    rax [deref      ]
    rax [           deref]
    rax [\t \t deref  \t\t   ]
",
        &ex(r#"
            2:(14, 20) = '      ' -> ''
            3:(9, 20) = '           ' -> ''
            4:(9, 13) = '\t \t ' -> ''
            4:(18, 25) = '  \t\t   ' -> ''"#),
    );
}

#[test]
fn comment_empty() {
    check(
        "
;
    ;   \t\t
    \t\t;   \t\t
            ;;;;    \t
",
        &ex(r#"
            2:(0, 4) = '    ' -> ''
            2:(5, 10) = '   \t\t' -> ''
            3:(0, 6) = '    \t\t' -> ''
            3:(7, 12) = '   \t\t' -> ''
            4:(0, 12) = '            ' -> ''
            4:(13, 13) = '' -> ' '
            4:(16, 21) = '    \t' -> ''"#),
    );
}

#[test]
fn ins_comment() {
    check(
        "
    mov rax, 12 ; do nothing
    mov rax, 12     ;\t do something
    mov rax, 12 ;\t   do something
    mov rax, 12     ;\t   do something
    mov rax, 12;\t   do something
; do nothing
",
        &ex(r#"
            2:(15, 20) = '     ' -> ' '
            2:(21, 23) = '\t ' -> ' '
            3:(17, 21) = '\t   ' -> ' '
            4:(15, 20) = '     ' -> ' '
            4:(21, 25) = '\t   ' -> ' '
            5:(15, 15) = '' -> ' '
            5:(16, 20) = '\t   ' -> ' '"#),
    );
}

#[test]
fn fmt_hello_world() {
    check(
        HELLO,
        &ex(r#"
            2:(30, 32) = '  ' -> ' '
            3:(6, 8) = '  ' -> ' '
            5:(7, 8) = ' ' -> ''
            6:(7, 14) = '       ' -> ' '
            6:(20, 32) = '            ' -> ' '
            7:(7, 14) = '       ' -> ' '
            7:(20, 32) = '            ' -> ' '
            8:(7, 14) = '       ' -> ' '
            8:(26, 32) = '      ' -> ' '
            9:(7, 14) = '       ' -> ' '
            9:(21, 32) = '           ' -> ' '
            10:(11, 32) = '                     ' -> ' '
            11:(7, 14) = '       ' -> ' '
            11:(21, 32) = '           ' -> ' '
            12:(7, 14) = '       ' -> ' '
            12:(22, 32) = '          ' -> ' '
            13:(11, 32) = '                     ' -> ' '"#),
    );
}

#[test]
fn apply_works() {
    assert_eq!(apply_fmt(HELLO), HELLO_FORMATTED);
}
