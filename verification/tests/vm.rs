use basm::comment::{comments, Comment, DocComment, DocStyle};
use basm::decode::{decode, decode_seq, SeqCode};
use basm::encode::{encode, encode_entries, EncodeError};
use basm::interner::Symbol;
use basm::ir::Either;
use basm::lex::lex_all;
use basm::machine::{BasmVM, Effect, VmError};
use basm::parse::Parser;
use basm::reparse::{
    bytes_eq, op_named, reparse, reparse_program, var_read_string, Code, CompileError, InputError,
    Op, ReparseError,
};
use basm::semantic::{is_keyword, semantic_tokens, SemanticToken, TokenKind};
use basm::span::Span;
use basm::vm::{Flag, Loc, LocKind, LocThenVal, Register, Sequence, Value, MEM_SIZE};

fn show(src: &str) -> String {
    let (code, errors) = reparse(src);
    let Code { si: _, sequences, variables, globals, labels } = code;
    let errors: Vec<String> = match errors {
        Either::A(errors) => errors.iter().map(|e| format!("\n{e:?}")).collect(),
        Either::B(errors) => errors.iter().map(|e| format!("\n{e:?}")).collect(),
    };
    let mut labels: Vec<_> = labels.iter().map(|(k, v)| (*k, *v)).collect();
    labels.sort();
    let mut globals: Vec<_> = globals.iter().copied().collect();
    globals.sort();
    let mut variables: Vec<_> = variables.iter().map(|(k, v)| (*k, v.clone())).collect();
    variables.sort();
    format!(
        "output:\nerrors:{}\nlabels:{}\nglobals:{}\nvariables:{}\nsequences:{}",
        errors.concat(),
        labels.iter().map(|d| format!("\n{d:?}")).collect::<String>(),
        globals.iter().map(|d| format!("\n{d:?}")).collect::<String>(),
        variables.iter().map(|d| format!("\n{d:?}")).collect::<String>(),
        sequences.iter().map(|d| format!("\n{d:?}")).collect::<String>(),
    )
}

const NOTHING: &str = "output:\nerrors:\nlabels:\nglobals:\nvariables:\nsequences:";

#[test]
fn reparse_empty() {
    assert_eq!(show(""), NOTHING);
}

#[test]
fn reparse_empty_lines() {
    assert_eq!(show("\n\n\n\n"), NOTHING);
}

#[test]
fn reparse_empty_lines_ws() {
    assert_eq!(show("   \t   \n    \t\t\t \n\t\t\t\n\n"), NOTHING);
}

const HELLO: &str = "\
message str \"Hello, World\", 10
global  _start

_start:
    mov       rax, 1
    mov       rdi, 1
    mov       rsi, message
    mov       rdx, 13
    syscall
    mov       rax, 60
    xor       rdi, rdi
    syscall
";

fn reg(r: Register) -> Loc {
    Loc { location: LocKind::Reg(r), deref: false }
}

#[test]
fn reparse_hello_world() {
    let (code, errors) = reparse(HELLO);
    assert!(matches!(errors, Either::B(ref e) if e.is_empty()));
    // Symbols in the order of interning: str, the string, message, _start, rax, mov, rdi, ...
    let message = Symbol { index: 2 };
    let start = 3;
    assert_eq!(code.si.resolve(message), Some("message"));
    assert_eq!(code.labels.iter().map(|(k, v)| (*k, *v)).collect::<Vec<_>>(), vec![(start, 0)]);
    assert_eq!(code.globals.iter().copied().collect::<Vec<_>>(), vec![start]);
    assert_eq!(
        code.variables.iter().map(|(k, v)| (*k, v.clone())).collect::<Vec<_>>(),
        vec![(2, vec![18533, 27756, 28460, 8279, 28530, 27748, 10])]
    );
    let mov = |r, v| Sequence::Mov(LocThenVal(reg(r), v));
    assert_eq!(
        code.sequences,
        vec![
            mov(Register::RAX, Value::Word(1)),
            mov(Register::RDI, Value::Word(1)),
            mov(
                Register::RSI,
                Value::Loc(Loc { location: LocKind::Sym(message), deref: false })
            ),
            mov(Register::RDX, Value::Word(13)),
            Sequence::SysCall,
            mov(Register::RAX, Value::Word(60)),
            Sequence::Xor(LocThenVal(reg(Register::RDI), Value::Loc(reg(Register::RDI)))),
            Sequence::SysCall,
        ]
    );
}

#[test]
fn reparse_reports_parse_errors() {
    let (code, errors) = reparse("mov [\n");
    let Either::A(errors) = errors else { panic!() };
    assert_eq!(errors.len(), 1);
    assert!(code.sequences.is_empty());
}

fn reparse_errors(src: &str) -> Vec<ReparseError> {
    let (basm, errors) = Parser::base(src).parse();
    assert!(errors.is_empty());
    reparse_program(basm).1
}

#[test]
fn reparse_error_kinds() {
    let input = |e| ReparseError::InputError(e);
    assert_eq!(
        reparse_errors("nop\n"),
        vec![input(InputError::InvalidInstruction(Symbol { index: 0 }))]
    );
    assert_eq!(
        reparse_errors("mov rax\n"),
        vec![input(InputError::InvalidArgCount { exp: 2, got: 1 })]
    );
    assert_eq!(
        reparse_errors("push\n"),
        vec![input(InputError::InvalidArgCount { exp: 1, got: 0 })]
    );
    assert_eq!(
        reparse_errors("ret 1\n"),
        vec![input(InputError::InvalidArgCount { exp: 0, got: 1 })]
    );
    assert_eq!(
        reparse_errors("mov 1, rax\n"),
        vec![input(InputError::UnexpectedLiteral(Value::Word(1)))]
    );
    assert_eq!(
        reparse_errors("inc \"ab\"\n"),
        vec![input(InputError::UnexpectedLiteral(Value::Words(vec![0x6162])))]
    );
    assert_eq!(
        reparse_errors("x db 1\n"),
        vec![input(InputError::InvalidType(Symbol { index: 0 }))]
    );
    assert_eq!(
        reparse_errors("x bss 1, 2\n"),
        vec![input(InputError::InvalidType(Symbol { index: 0 }))]
    );
    let (code, errors) = reparse_program({
        let mut basm = Parser::base("a:\n").parse().0;
        basm.lines.push(basm.lines[0].clone());
        basm.lines.push(basm::ir::Line::Instruction {
            ins: Symbol { index: 9 },
            values: vec![],
        });
        basm
    });
    assert_eq!(
        errors,
        vec![
            input(InputError::DuplicateLabel(Symbol { index: 0 })),
            ReparseError::CompileError(CompileError::InvalidSymbol(Symbol { index: 9 })),
        ]
    );
    assert_eq!(code.labels.len(), 1);
}

#[test]
fn variables_and_labels() {
    let (code, errors) =
        reparse("buf bss 3\ns str \"abc\", 7, x\nglobal f\nret\nf:\nje f\ng:\n");
    assert!(matches!(errors, Either::B(ref e) if e.is_empty()));
    let find = |name: &str| {
        (0..20).find(|i| code.si.resolve(Symbol { index: *i }) == Some(name)).unwrap()
    };
    assert_eq!(code.variables[&find("buf")], vec![0, 0, 0]);
    assert_eq!(code.variables[&find("s")], vec![0x6162, 0x6300, 7, 0x7800]);
    assert_eq!(code.labels[&find("f")], 1);
    assert_eq!(code.labels[&find("g")], 2);
    assert!(code.globals.contains(&find("f")));
    assert_eq!(code.sequences.len(), 2);
}

#[test]
fn words_of_strings() {
    let mut words = vec![9];
    var_read_string(&mut words, "Hello");
    assert_eq!(words, vec![9, 0x4865, 0x6c6c, 0x6f00]);
    var_read_string(&mut words, "");
    assert_eq!(words.len(), 4);
    assert!(bytes_eq(b"abc", b"abc"));
    assert!(!bytes_eq(b"abc", b"abd"));
    assert!(!bytes_eq(b"abc", b"ab"));
    assert_eq!(op_named(b"mov"), Some(Op::Mov));
    assert_eq!(op_named(b"syscall"), Some(Op::SysCall));
    assert_eq!(op_named(b"or"), Some(Op::Or));
    assert_eq!(op_named(b"MOV"), None);
}

#[test]
fn registers_and_flags() {
    let names = [
        "rax", "rbx", "rcx", "rdx", "rsi", "rdi", "rsp", "rbp", "r08", "r09", "r10", "r11",
        "r12", "r13", "r14", "r15",
    ];
    for (i, name) in names.iter().enumerate() {
        let r = Register::from_name(name.as_bytes()).unwrap();
        assert_eq!(r.index() as usize, i);
        assert_eq!(Register::from_word(i as u16), Some(r));
    }
    assert_eq!(Register::from_word(16), None);
    for bad in ["r16", "r8", "eax", "rax ", "RAX", ""] {
        assert_eq!(Register::from_name(bad.as_bytes()), None);
    }
    let bits: Vec<u16> =
        [Flag::Sf, Flag::Zf, Flag::Cf, Flag::Af, Flag::Pf, Flag::Of].iter().map(|f| f.bit()).collect();
    assert_eq!(bits, vec![1, 2, 4, 8, 16, 32]);
}

#[test]
fn decoding() {
    assert!(SeqCode(0b0000).is_loc() && SeqCode(0b0011).is_loc() && !SeqCode(0b0100).is_loc());
    assert!(SeqCode(0b0001).is_deref() && !SeqCode(0b0010).is_deref());
    assert!(SeqCode(0b0001).is_reg() && !SeqCode(0b0010).is_reg());
    assert!(SeqCode(0b0100).is_word() && !SeqCode(0b1000).is_word());
    assert!(SeqCode(0b1000).is_multi_word() && !SeqCode(0b0100).is_multi_word());
    assert_eq!(
        decode_seq(0x0104, 0, 1),
        Some(Sequence::Mov(LocThenVal(reg(Register::RAX), Value::Word(1))))
    );
    assert_eq!(
        decode_seq(0x0231, 7, 5),
        Some(Sequence::Add(LocThenVal(
            Loc { location: LocKind::Mem(7), deref: true },
            Value::Loc(Loc { location: LocKind::Reg(Register::RDI), deref: true })
        )))
    );
    assert_eq!(decode_seq(0x0104, 16, 1), None);
    assert_eq!(decode_seq(0x0140, 0, 1), None);
    assert_eq!(decode_seq(0x0704, 9, 0), Some(Sequence::Push(Value::Word(9))));
    assert_eq!(decode_seq(0x0800, 2, 0), Some(Sequence::Pop(reg(Register::RCX))));
    assert_eq!(decode_seq(0x0804, 2, 0), None);
    assert_eq!(
        decode_seq(0x0e04, 3, 4),
        Some(Sequence::Cmp(Value::Loc(reg(Register::RDX)), Value::Word(4)))
    );
    assert_eq!(decode_seq(0x0f00, 0, 0), Some(Sequence::SysCall));
    assert_eq!(decode_seq(0x1000, 0, 0), Some(Sequence::Ret));
    assert_eq!(decode_seq(0x0000, 0, 0), None);
    assert_eq!(decode_seq(0x1100, 0, 0), None);
    let mem = [2, 13, 0x0f00, 0, 0, 0, 0x0000, 0, 0, 0, 0x1000, 0, 0, 0];
    assert_eq!(decode(&mem), vec![Sequence::SysCall]);
    let mem = [2, 14, 0x0f00, 0, 0, 0, 0x0000, 0, 0, 0, 0x1000, 0, 0, 0];
    assert_eq!(decode(&mem), vec![Sequence::SysCall, Sequence::Ret]);
    assert!(decode(&[0, 0]).is_empty());
}

#[test]
fn encoding() {
    let labels = {
        let mut m = ahash::AHashMap::new();
        m.insert(5u32, 1u16);
        m
    };
    let entries = vec![(7u32, vec![11u16, 12]), (8u32, vec![])];
    let sym = |i| Loc { location: LocKind::Sym(Symbol { index: i }), deref: false };
    let sequences = vec![
        Sequence::Mov(LocThenVal(reg(Register::RBX), Value::Loc(sym(7)))),
        Sequence::Je(sym(5)),
        Sequence::Call(sym(99)),
        Sequence::Push(Value::Words(vec![3, 4])),
        Sequence::Cmp(Value::Word(1), Value::Loc(Loc { deref: true, ..sym(8) })),
        Sequence::Ret,
    ];
    let mut mem = [0xffffu16; 32];
    let done = encode_entries(&entries, &sequences, &labels, &mut mem).unwrap();
    assert_eq!(done.end, 26);
    assert_eq!(done.missing, vec![Symbol { index: 99 }]);
    assert_eq!(
        mem[..26],
        [
            6, 26, // code from 6 up to 26
            2, 11, 12, // the first variable, at 3
            0, // the second, empty, at 6
            0x0102, 1, 3, 0, // mov rbx, <7>
            0x0a02, 1, 0, 0, // je <5>
            0x0708, 3, 0, 0, // push
            0x0e43, 1, 6, 0, // cmp 1, [<8>]
            0x1000, 0, 0, 0, // ret
        ]
    );
    assert!(mem[26..].iter().all(|w| *w == 0xffff));
    assert_eq!(
        decode(&mem),
        vec![
            Sequence::Mov(LocThenVal(
                reg(Register::RBX),
                Value::Loc(Loc { location: LocKind::Mem(3), deref: false })
            )),
            Sequence::Je(Loc { location: LocKind::Mem(1), deref: false }),
            Sequence::Push(Value::Word(3)),
            Sequence::Cmp(
                Value::Word(1),
                Value::Loc(Loc { location: LocKind::Mem(6), deref: true })
            ),
            Sequence::Ret,
        ]
    );
    let mut small = [0u16; 25];
    assert!(encode_entries(&entries, &sequences, &labels, &mut small).is_none());
    let mut tiny = [0u16; 1];
    assert!(encode_entries(&[], &[], &labels, &mut tiny).is_none());
    let mut two = [9u16; 2];
    assert_eq!(encode_entries(&[], &[], &labels, &mut two).unwrap().end, 2);
    assert_eq!(two, [2, 2]);
    assert_eq!(Sequence::Ret.code(), 0x10);
    assert_eq!(EncodeError::OutOfMemory, EncodeError::OutOfMemory);
}

#[test]
fn encoding_a_program() {
    let (code, _) = reparse(HELLO);
    let mut mem = vec![0u16; 100];
    let done = encode(&code, &mut mem).unwrap();
    assert_eq!(mem[0], 10);
    assert_eq!(mem[1], 42);
    assert_eq!(done.end, 42);
    assert_eq!(mem[2..10], [7, 18533, 27756, 28460, 8279, 28530, 27748, 10]);
    // mov rsi, message: the variable's words start at 3.
    assert_eq!(mem[18..22], [0x0102, 4, 3, 0]);
    assert_eq!(decode(&mem).len(), 8);
}

fn machine(src: &str) -> BasmVM {
    match BasmVM::parse(src) {
        Ok(vm) => vm,
        Err(_) => panic!("no machine"),
    }
}

#[test]
fn machine_runs_hello() {
    let mut vm = machine(HELLO);
    assert_eq!(vm.flag, 0);
    assert!(vm.reg.iter().all(|r| *r == 0));
    let mut written = Vec::new();
    let mut exit = None;
    for seq in decode(&vm.mem) {
        match vm.step(&seq) {
            Effect::Next => {}
            Effect::Write(bytes) => written.extend(bytes),
            Effect::Exit(code) => {
                exit = Some(code);
                break;
            }
            Effect::Fault => panic!(),
        }
    }
    assert_eq!(written, b"Hello, World\n");
    assert_eq!(exit, Some(0));
}

#[test]
fn machine_refuses_bad_sources() {
    assert!(matches!(BasmVM::parse("mov [\n"), Err(VmError::ParseError(e)) if e.len() == 1));
    assert!(matches!(BasmVM::parse("nop\n"), Err(VmError::ReparseError(e)) if e.len() == 1));
    let huge = format!("b bss 65535\n");
    assert!(matches!(
        BasmVM::parse(&huge),
        Err(VmError::EncodeError(e)) if e == vec![EncodeError::OutOfMemory]
    ));
}

#[test]
fn machine_steps() {
    let mut vm = machine("");
    assert_eq!((vm.mem[0], vm.mem[1]), (2, 2));
    vm.set_reg(Register::RBX, 40);
    assert_eq!(vm.reg(Register::RBX), 40);
    vm.set_mem(40, 1000);
    assert_eq!(vm.mem(40), 1000);
    let rbx = reg(Register::RBX);
    let at_rbx = Loc { deref: true, ..rbx };
    assert_eq!(vm.loc(rbx), Some(40));
    assert_eq!(vm.loc(at_rbx), Some(1000));
    assert_eq!(vm.loc(Loc { location: LocKind::Mem(40), deref: false }), Some(40));
    vm.set_mem(1000, 77);
    assert_eq!(vm.loc(Loc { location: LocKind::Mem(40), deref: true }), Some(77));
    assert_eq!(vm.loc(Loc { location: LocKind::Sym(Symbol { index: 0 }), deref: false }), None);
    assert_eq!(vm.value(&Value::Words(vec![])), Some(0));
    assert_eq!(vm.value(&Value::Words(vec![5, 6])), Some(5));

    let step = |vm: &mut BasmVM, seq| vm.step(&seq);
    assert_eq!(step(&mut vm, Sequence::Add(LocThenVal(rbx, Value::Word(0xffff)))), Effect::Next);
    assert_eq!(vm.reg(Register::RBX), 39);
    assert_eq!(step(&mut vm, Sequence::Sub(LocThenVal(rbx, Value::Word(40)))), Effect::Next);
    assert_eq!(vm.reg(Register::RBX), 0xffff);
    assert_eq!(step(&mut vm, Sequence::And(LocThenVal(rbx, Value::Word(0x0ff0)))), Effect::Next);
    assert_eq!(step(&mut vm, Sequence::Or(LocThenVal(rbx, Value::Word(0x000f)))), Effect::Next);
    assert_eq!(step(&mut vm, Sequence::Xor(LocThenVal(rbx, Value::Word(0x00ff)))), Effect::Next);
    assert_eq!(vm.reg(Register::RBX), 0x0f00);
    assert_eq!(step(&mut vm, Sequence::Mov(LocThenVal(at_rbx, Value::Word(3)))), Effect::Next);
    assert_eq!(vm.mem(0x0f00), 3);
    vm.set_reg(Register::RBX, 0xffff);
    assert_eq!(step(&mut vm, Sequence::Mov(LocThenVal(at_rbx, Value::Word(3)))), Effect::Fault);
    assert!(!vm.store(at_rbx, 1));
    assert_eq!(step(&mut vm, Sequence::Inc(rbx)), Effect::Next);
    assert_eq!(step(&mut vm, Sequence::SysCall), Effect::Fault);

    vm.set_reg(Register::RAX, 1);
    vm.set_reg(Register::RSI, 50);
    vm.set_reg(Register::RDX, 3);
    vm.set_mem(50, 0x4142);
    vm.set_mem(51, 0x0043);
    assert_eq!(step(&mut vm, Sequence::SysCall), Effect::Write(b"ABC".to_vec()));
    assert_eq!(vm.write_bytes(50, 2), Some(b"AB".to_vec()));
    assert_eq!(vm.write_bytes(65534, 2), Some(vec![0, 0]));
    assert_eq!(vm.write_bytes(65534, 3), None);
    vm.set_reg(Register::RAX, 60);
    vm.set_reg(Register::RDI, 0x0107);
    assert_eq!(step(&mut vm, Sequence::SysCall), Effect::Exit(7));

    assert!(!vm.flag(Flag::Zf));
    vm.set_flag(Flag::Zf, true);
    vm.set_flag(Flag::Of, true);
    assert!(vm.flag(Flag::Zf) && vm.flag(Flag::Of) && !vm.flag(Flag::Cf));
    vm.set_flag(Flag::Zf, false);
    assert!(!vm.flag(Flag::Zf) && vm.flag(Flag::Of));
    assert_eq!(vm.flag, 32);
    assert_eq!(vm.mem.len(), MEM_SIZE);
    assert_eq!(Value::Words(vec![1, 2]).duplicate(), Value::Words(vec![1, 2]));
}

#[test]
fn highlighting() {
    let src = "global main\nmain:\n  msg db \"hi\", 1 ; c\n  mov [msg], msg\n";
    let (basm, _, lex) = Parser::recorded(src).parse();
    let out = semantic_tokens(src, &lex, &basm);
    let tok = |delta_line, delta_start, length, kind: TokenKind| SemanticToken {
        delta_line,
        delta_start,
        length,
        token_type: kind.index(),
        token_modifiers_bitset: 0,
    };
    assert_eq!(
        out,
        vec![
            tok(0, 0, 6, TokenKind::Keyword),
            tok(0, 7, 4, TokenKind::Variable),
            tok(1, 0, 4, TokenKind::Function),
            tok(0, 4, 1, TokenKind::Operator),
            tok(1, 2, 3, TokenKind::Function),
            tok(0, 4, 2, TokenKind::Type),
            tok(0, 3, 4, TokenKind::String),
            tok(0, 6, 1, TokenKind::Number),
            tok(0, 2, 4, TokenKind::Comment),
            tok(1, 2, 3, TokenKind::Function),
            tok(0, 4, 1, TokenKind::Operator),
            tok(0, 1, 3, TokenKind::Variable),
            tok(0, 3, 1, TokenKind::Operator),
            tok(0, 3, 3, TokenKind::Variable),
        ]
    );
    assert!(is_keyword("global"));
    assert!(!is_keyword("section") && !is_keyword("globals") && !is_keyword(""));
    assert_eq!(TokenKind::Namespace.index(), 0);
    assert_eq!(TokenKind::Decorator.index(), 22);
}

#[test]
fn comment_values() {
    let lex = lex_all("a ; one\n\n;two");
    assert_eq!(comments(&lex), vec![Comment(Span::new(2, 8)), Comment(Span::new(9, 13))]);
    assert_eq!(Comment(Span::new(1, 2)).span(), Span::new(1, 2));
    let doc = DocComment(DocStyle::Inner, Span::new(3, 4));
    assert_eq!(doc.style(), DocStyle::Inner);
    assert_eq!(doc.span(), Span::new(3, 4));
    assert!(DocStyle::Outer < DocStyle::Inner);
}

#[test]
fn machine_of_the_empty_text() {
    let vm = machine("");
    assert_eq!(vm.flag, 0);
    assert_eq!(vm.reg, [0u16; 16]);
    assert_eq!(vm.mem(0), 2);
    assert_eq!(vm.mem(1), 2);
    assert!(vm.mem[2..].iter().all(|w| *w == 0));
    assert_eq!(vm.mem.len(), MEM_SIZE);
}

#[test]
fn machine_holds_the_image_of_the_program() {
    let vm = machine("x:\nmov rax, 1\n");
    let mut image = vec![0u16; MEM_SIZE];
    let (code, _) = reparse("x:\nmov rax, 1\n");
    let done = encode(&code, &mut image).unwrap();
    assert_eq!(done.end, 6);
    assert_eq!(&vm.mem[..], &image[..]);
    assert_eq!((vm.mem(0), vm.mem(1)), (2, 6));
}
