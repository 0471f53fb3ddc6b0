//! From parsed lines to a program for the machine: instructions become
//! sequences, variables become blocks of words, labels get the address of
//! the sequence that follows them.

use ahash::{AHashMap, AHashSet};
use vstd::prelude::*;
use vstd::string::StringSliceAdditionalSpecFns;

use crate::grammar::parse_text;
use crate::interner::{Interner, Symbol};
use crate::ir::{Basm, Either, Line, Value as PValue};
use crate::maps::{
    addresses, addresses_get, addresses_insert, addresses_new, blocks, blocks_insert, blocks_new,
    held, set_insert, set_new,
};
use crate::parse::{errors_text, ParseError, Parser};
use crate::vm::{
    sequences_model, Loc, LocKind, LocThenVal, Register, Sequence, SequenceModel, Value,
    ValueModel,
};

verus! {

/// A program for the machine.
pub struct Code {
    pub si: Interner,
    pub sequences: Vec<Sequence>,
    /// The words of each variable, by the symbol of its name.
    pub variables: AHashMap<u32, Vec<u16>>,
    /// The symbols declared global.
    pub globals: AHashSet<u32>,
    /// The address of each label, by the symbol of its name.
    pub labels: AHashMap<u32, u16>,
}

/// A program as plain values.
pub struct CodeModel {
    pub sequences: Seq<SequenceModel>,
    pub variables: Map<u32, Seq<u16>>,
    pub globals: Set<u32>,
    pub labels: Map<u32, u16>,
}

impl Code {
    pub open spec fn model(&self) -> CodeModel {
        CodeModel {
            sequences: sequences_model(self.sequences@),
            variables: blocks(self.variables),
            globals: held(self.globals),
            labels: addresses(self.labels),
        }
    }

    /// The empty program.
    pub fn new() -> (code: Code)
        ensures
            code.model() == empty_code(),
            code.si.wf(),
    {
        let code = Code {
            si: Interner::new(),
            sequences: Vec::new(),
            variables: blocks_new(),
            globals: set_new(),
            labels: addresses_new(),
        };
        proof {
            assert(sequences_model(code.sequences@) =~= Seq::<SequenceModel>::empty());
        }
        code
    }
}

pub open spec fn empty_code() -> CodeModel {
    CodeModel {
        sequences: Seq::empty(),
        variables: Map::empty(),
        globals: Set::empty(),
        labels: Map::empty(),
    }
}

#[derive(Debug, Clone, Copy, PartialEq, Eq, Structural)]
pub enum CompileError {
    /// A symbol that the table does not hold.
    InvalidSymbol(Symbol),
}

#[derive(Debug, Clone, PartialEq, Eq)]
pub enum InputError {
    /// A directive that is neither `str` nor `bss`, or `bss` without its
    /// one size.
    InvalidType(Symbol),
    InvalidInstruction(Symbol),
    InvalidArgCount { exp: usize, got: usize },
    /// A literal where a location is needed.
    UnexpectedLiteral(Value),
    DuplicateLabel(Symbol),
}

#[derive(Debug, Clone, PartialEq, Eq)]
pub enum ReparseError {
    CompileError(CompileError),
    InputError(InputError),
}

/// An error as plain values.
pub enum ErrorModel {
    InvalidSymbol(Symbol),
    InvalidType(Symbol),
    InvalidInstruction(Symbol),
    InvalidArgCount { exp: int, got: int },
    UnexpectedLiteral(ValueModel),
    DuplicateLabel(Symbol),
}

impl ReparseError {
    pub open spec fn model(self) -> ErrorModel {
        match self {
            ReparseError::CompileError(CompileError::InvalidSymbol(s)) => ErrorModel::InvalidSymbol(
                s,
            ),
            ReparseError::InputError(InputError::InvalidType(s)) => ErrorModel::InvalidType(s),
            ReparseError::InputError(InputError::InvalidInstruction(s)) => ErrorModel::InvalidInstruction(
                s,
            ),
            ReparseError::InputError(InputError::InvalidArgCount { exp, got }) => ErrorModel::InvalidArgCount {
                exp: exp as int,
                got: got as int,
            },
            ReparseError::InputError(InputError::UnexpectedLiteral(v)) => ErrorModel::UnexpectedLiteral(
                v.model(),
            ),
            ReparseError::InputError(InputError::DuplicateLabel(s)) => ErrorModel::DuplicateLabel(
                s,
            ),
        }
    }
}

pub open spec fn reparse_errors_model(errors: Seq<ReparseError>) -> Seq<ErrorModel> {
    Seq::new(errors.len(), |i: int| errors[i].model())
}

/// The words of a string: two bytes to a word, the first one high; a last
/// single byte is the high byte of its word.
pub open spec fn pack_words(bytes: Seq<u8>) -> Seq<u16>
    decreases bytes.len(),
{
    if bytes.len() == 0 {
        Seq::empty()
    } else if bytes.len() == 1 {
        seq![pack(bytes[0], 0)]
    } else {
        seq![pack(bytes[0], bytes[1])] + pack_words(bytes.subrange(2, bytes.len() as int))
    }
}

/// The word with `high` as its high byte and `low` as its low byte.
pub open spec fn pack(high: u8, low: u8) -> u16 {
    ((high as u16) << 8) | (low as u16)
}

/// Appends the words of `s` to `vars`.
pub fn var_read_string(vars: &mut Vec<u16>, s: &str)
    ensures
        final(vars)@ == old(vars)@ + pack_words(s.spec_bytes()),
{
    let bytes = s.as_bytes();
    let n = bytes.len();
    let mut i: usize = 0;
    let ghost start = vars@;
    proof {
        assert(bytes@.subrange(0, n as int) =~= bytes@);
    }
    while n - i >= 2
        invariant
            n == bytes@.len(),
            0 <= i <= n,
            vars@ + pack_words(bytes@.subrange(i as int, n as int)) == start + pack_words(bytes@),
        decreases n - i,
    {
        let ghost before = vars@;
        let ghost rest = bytes@.subrange(i as int, n as int);
        let word = ((bytes[i] as u16) << 8) | (bytes[i + 1] as u16);
        vars.push(word);
        proof {
            assert(rest.subrange(2, rest.len() as int) =~= bytes@.subrange(i + 2, n as int));
            assert(before.push(word) + pack_words(bytes@.subrange(i + 2, n as int)) =~= before + (
            seq![word] + pack_words(bytes@.subrange(i + 2, n as int))));
        }
        i += 2;
    }
    if i < n {
        let ghost before = vars@;
        let ghost rest = bytes@.subrange(i as int, n as int);
        let word = ((bytes[i] as u16) << 8) | (0u8 as u16);
        vars.push(word);
        proof {
            assert(rest.len() == 1);
            assert(before.push(word) =~= before + seq![word]);
        }
    } else {
        proof {
            assert(vars@ + Seq::<u16>::empty() =~= vars@);
        }
    }
}

/// The string of `sym` in the table `strings`, if it holds one.
pub open spec fn lookup(strings: Seq<Seq<u8>>, sym: Symbol) -> Result<Seq<u8>, ErrorModel> {
    if sym.index < strings.len() {
        Ok(strings[sym.index as int])
    } else {
        Err(ErrorModel::InvalidSymbol(sym))
    }
}

/// A name as a location: a register where it names one, a symbol to
/// resolve otherwise.
pub open spec fn named_loc(name: Seq<u8>, sym: Symbol, deref: bool) -> Loc {
    Loc {
        location: match Register::spec_from_name(name) {
            Some(reg) => LocKind::Reg(reg),
            None => LocKind::Sym(sym),
        },
        deref,
    }
}

/// The operand that a parsed value stands for.
pub open spec fn spec_reparse_value(strings: Seq<Seq<u8>>, v: PValue) -> Result<
    ValueModel,
    ErrorModel,
> {
    match v {
        PValue::Deref(sym) => match lookup(strings, sym) {
            Ok(name) => Ok(ValueModel::Loc(named_loc(name, sym, true))),
            Err(e) => Err(e),
        },
        PValue::Ident(sym) => match lookup(strings, sym) {
            Ok(name) => Ok(ValueModel::Loc(named_loc(name, sym, false))),
            Err(e) => Err(e),
        },
        PValue::String(sym) => match lookup(strings, sym) {
            Ok(text) => Ok(ValueModel::Words(pack_words(text))),
            Err(e) => Err(e),
        },
        PValue::Digit(_, n) => Ok(ValueModel::Word(n)),
    }
}

/// The one operand of an instruction.
pub open spec fn spec_single(strings: Seq<Seq<u8>>, values: Seq<PValue>) -> Result<
    ValueModel,
    ErrorModel,
> {
    if values.len() == 1 {
        spec_reparse_value(strings, values[0])
    } else {
        Err(ErrorModel::InvalidArgCount { exp: 1, got: values.len() as int })
    }
}

/// The two operands of an instruction.
pub open spec fn spec_double(strings: Seq<Seq<u8>>, values: Seq<PValue>) -> Result<
    (ValueModel, ValueModel),
    ErrorModel,
> {
    if values.len() == 2 {
        match spec_reparse_value(strings, values[0]) {
            Err(e) => Err(e),
            Ok(a) => match spec_reparse_value(strings, values[1]) {
                Err(e) => Err(e),
                Ok(b) => Ok((a, b)),
            },
        }
    } else {
        Err(ErrorModel::InvalidArgCount { exp: 2, got: values.len() as int })
    }
}

/// The one operand of an instruction, which must be a location.
pub open spec fn spec_loc(strings: Seq<Seq<u8>>, values: Seq<PValue>) -> Result<Loc, ErrorModel> {
    match spec_single(strings, values) {
        Err(e) => Err(e),
        Ok(ValueModel::Loc(loc)) => Ok(loc),
        Ok(v) => Err(ErrorModel::UnexpectedLiteral(v)),
    }
}

/// The two operands of an instruction, of which the first must be a
/// location.
pub open spec fn spec_loc_then_value(strings: Seq<Seq<u8>>, values: Seq<PValue>) -> Result<
    (Loc, ValueModel),
    ErrorModel,
> {
    match spec_double(strings, values) {
        Err(e) => Err(e),
        Ok((ValueModel::Loc(loc), v)) => Ok((loc, v)),
        Ok((v, _)) => Err(ErrorModel::UnexpectedLiteral(v)),
    }
}

pub open spec fn spec_empty(values: Seq<PValue>) -> Result<(), ErrorModel> {
    if values.len() == 0 {
        Ok(())
    } else {
        Err(ErrorModel::InvalidArgCount { exp: 0, got: values.len() as int })
    }
}

/// The operations of the machine, by mnemonic.
#[derive(Debug, Clone, Copy, PartialEq, Eq, Structural)]
pub enum Op {
    Mov,
    Add,
    Sub,
    Xor,
    And,
    Or,
    Push,
    Pop,
    Call,
    Je,
    Jne,
    Inc,
    Dec,
    Cmp,
    SysCall,
    Ret,
}

/// The operation that a mnemonic names.
pub open spec fn spec_op(name: Seq<u8>) -> Option<Op> {
    if name == "mov".spec_bytes() {
        Some(Op::Mov)
    } else if name == "add".spec_bytes() {
        Some(Op::Add)
    } else if name == "sub".spec_bytes() {
        Some(Op::Sub)
    } else if name == "xor".spec_bytes() {
        Some(Op::Xor)
    } else if name == "and".spec_bytes() {
        Some(Op::And)
    } else if name == "or".spec_bytes() {
        Some(Op::Or)
    } else if name == "push".spec_bytes() {
        Some(Op::Push)
    } else if name == "pop".spec_bytes() {
        Some(Op::Pop)
    } else if name == "call".spec_bytes() {
        Some(Op::Call)
    } else if name == "je".spec_bytes() {
        Some(Op::Je)
    } else if name == "jne".spec_bytes() {
        Some(Op::Jne)
    } else if name == "inc".spec_bytes() {
        Some(Op::Inc)
    } else if name == "dec".spec_bytes() {
        Some(Op::Dec)
    } else if name == "cmp".spec_bytes() {
        Some(Op::Cmp)
    } else if name == "syscall".spec_bytes() {
        Some(Op::SysCall)
    } else if name == "ret".spec_bytes() {
        Some(Op::Ret)
    } else {
        None
    }
}

pub open spec fn with_loc_value(op: Op, r: Result<(Loc, ValueModel), ErrorModel>) -> Result<
    SequenceModel,
    ErrorModel,
> {
    match r {
        Err(e) => Err(e),
        Ok((l, v)) => Ok(
            match op {
                Op::Mov => SequenceModel::Mov(l, v),
                Op::Add => SequenceModel::Add(l, v),
                Op::Sub => SequenceModel::Sub(l, v),
                Op::Xor => SequenceModel::Xor(l, v),
                Op::And => SequenceModel::And(l, v),
                _ => SequenceModel::Or(l, v),
            },
        ),
    }
}

pub open spec fn with_loc(op: Op, r: Result<Loc, ErrorModel>) -> Result<SequenceModel, ErrorModel> {
    match r {
        Err(e) => Err(e),
        Ok(l) => Ok(
            match op {
                Op::Pop => SequenceModel::Pop(l),
                Op::Call => SequenceModel::Call(l),
                Op::Je => SequenceModel::Je(l),
                Op::Jne => SequenceModel::Jne(l),
                Op::Inc => SequenceModel::Inc(l),
                _ => SequenceModel::Dec(l),
            },
        ),
    }
}

/// The sequence of the instruction `ins` with the operands `values`.
pub open spec fn spec_sequence(strings: Seq<Seq<u8>>, ins: Symbol, values: Seq<PValue>) -> Result<
    SequenceModel,
    ErrorModel,
> {
    match lookup(strings, ins) {
        Err(e) => Err(e),
        Ok(name) => match spec_op(name) {
            None => Err(ErrorModel::InvalidInstruction(ins)),
            Some(op) => match op {
                Op::Mov | Op::Add | Op::Sub | Op::Xor | Op::And | Op::Or => with_loc_value(
                    op,
                    spec_loc_then_value(strings, values),
                ),
                Op::Push => match spec_single(strings, values) {
                    Err(e) => Err(e),
                    Ok(v) => Ok(SequenceModel::Push(v)),
                },
                Op::Pop | Op::Call | Op::Je | Op::Jne | Op::Inc | Op::Dec => with_loc(
                    op,
                    spec_loc(strings, values),
                ),
                Op::Cmp => match spec_double(strings, values) {
                    Err(e) => Err(e),
                    Ok((a, b)) => Ok(SequenceModel::Cmp(a, b)),
                },
                Op::SysCall => match spec_empty(values) {
                    Err(e) => Err(e),
                    Ok(_) => Ok(SequenceModel::SysCall),
                },
                Op::Ret => match spec_empty(values) {
                    Err(e) => Err(e),
                    Ok(_) => Ok(SequenceModel::Ret),
                },
            },
        },
    }
}

/// The words of the initializers of a `str` variable, from the `i`-th on:
/// a number is one word, anything else the words of its string.
pub open spec fn spec_str_words(strings: Seq<Seq<u8>>, values: Seq<PValue>, i: int) -> Result<
    Seq<u16>,
    ErrorModel,
>
    decreases values.len() - i,
{
    if i < 0 || i >= values.len() {
        Ok(Seq::empty())
    } else {
        let head = match values[i] {
            PValue::Digit(_, n) => Ok(seq![n]),
            PValue::Deref(sym) | PValue::Ident(sym) | PValue::String(sym) => match lookup(
                strings,
                sym,
            ) {
                Ok(text) => Ok(pack_words(text)),
                Err(e) => Err(e),
            },
        };
        match head {
            Err(e) => Err(e),
            Ok(words) => match spec_str_words(strings, values, i + 1) {
                Err(e) => Err(e),
                Ok(rest) => Ok(words + rest),
            },
        }
    }
}

/// The words of a variable of directive `ty`: those of its initializers for
/// `str`, as many zeros as its one number says for `bss`.
pub open spec fn spec_var(strings: Seq<Seq<u8>>, ty: Symbol, values: Seq<PValue>) -> Result<
    Seq<u16>,
    ErrorModel,
> {
    match lookup(strings, ty) {
        Err(e) => Err(e),
        Ok(name) => if name == "str".spec_bytes() {
            spec_str_words(strings, values, 0)
        } else if name == "bss".spec_bytes() {
            if values.len() == 1 && values[0] is Digit {
                Ok(Seq::new(values[0]->Digit_1 as nat, |i: int| 0u16))
            } else {
                Err(ErrorModel::InvalidType(ty))
            }
        } else {
            Err(ErrorModel::InvalidType(ty))
        },
    }
}

/// What a line adds to the program `code`.
pub open spec fn spec_line(strings: Seq<Seq<u8>>, code: CodeModel, line: Line) -> Result<
    CodeModel,
    ErrorModel,
> {
    match line {
        Line::NoOp => Ok(code),
        Line::Section { .. } => Ok(code),
        Line::Global { name } => Ok(CodeModel { globals: code.globals.insert(name.index), ..code }),
        Line::Label { name } => if code.labels.dom().contains(name.index) {
            Err(ErrorModel::DuplicateLabel(name))
        } else {
            Ok(
                CodeModel {
                    labels: code.labels.insert(name.index, code.sequences.len() as u16),
                    ..code
                },
            )
        },
        Line::Instruction { ins, values } => match spec_sequence(strings, ins, values@) {
            Err(e) => Err(e),
            Ok(seq) => Ok(CodeModel { sequences: code.sequences.push(seq), ..code }),
        },
        Line::Variable { name, ty, values } => match spec_var(strings, ty, values@) {
            Err(e) => Err(e),
            Ok(words) => Ok(
                CodeModel { variables: code.variables.insert(name.index, words), ..code },
            ),
        },
    }
}

/// The program and the errors of the first `n` lines: a line with an error
/// adds nothing but the error.
pub open spec fn spec_lines(strings: Seq<Seq<u8>>, lines: Seq<Line>, n: int) -> (
    CodeModel,
    Seq<ErrorModel>,
)
    decreases n,
{
    if n <= 0 {
        (empty_code(), Seq::empty())
    } else {
        let (code, errors) = spec_lines(strings, lines, n - 1);
        match spec_line(strings, code, lines[n - 1]) {
            Ok(next) => (next, errors),
            Err(e) => (code, errors.push(e)),
        }
    }
}

/// Whether two byte strings are equal.
pub fn bytes_eq(a: &[u8], b: &[u8]) -> (r: bool)
    ensures
        r == (a@ == b@),
{
    if a.len() != b.len() {
        return false;
    }
    let mut i: usize = 0;
    while i < a.len()
        invariant
            a@.len() == b@.len(),
            0 <= i <= a@.len(),
            forall|k: int| 0 <= k < i ==> a@[k] == b@[k],
        decreases a@.len() - i,
    {
        if a[i] != b[i] {
            return false;
        }
        i += 1;
    }
    proof {
        assert(a@ =~= b@);
    }
    true
}

/// The operation that a mnemonic names.
pub fn op_named(name: &[u8]) -> (r: Option<Op>)
    ensures
        r == spec_op(name@),
{
    if bytes_eq(name, "mov".as_bytes()) {
        Some(Op::Mov)
    } else if bytes_eq(name, "add".as_bytes()) {
        Some(Op::Add)
    } else if bytes_eq(name, "sub".as_bytes()) {
        Some(Op::Sub)
    } else if bytes_eq(name, "xor".as_bytes()) {
        Some(Op::Xor)
    } else if bytes_eq(name, "and".as_bytes()) {
        Some(Op::And)
    } else if bytes_eq(name, "or".as_bytes()) {
        Some(Op::Or)
    } else if bytes_eq(name, "push".as_bytes()) {
        Some(Op::Push)
    } else if bytes_eq(name, "pop".as_bytes()) {
        Some(Op::Pop)
    } else if bytes_eq(name, "call".as_bytes()) {
        Some(Op::Call)
    } else if bytes_eq(name, "je".as_bytes()) {
        Some(Op::Je)
    } else if bytes_eq(name, "jne".as_bytes()) {
        Some(Op::Jne)
    } else if bytes_eq(name, "inc".as_bytes()) {
        Some(Op::Inc)
    } else if bytes_eq(name, "dec".as_bytes()) {
        Some(Op::Dec)
    } else if bytes_eq(name, "cmp".as_bytes()) {
        Some(Op::Cmp)
    } else if bytes_eq(name, "syscall".as_bytes()) {
        Some(Op::SysCall)
    } else if bytes_eq(name, "ret".as_bytes()) {
        Some(Op::Ret)
    } else {
        None
    }
}

/// Requires that an instruction has no operand.
fn empty(values: &[PValue]) -> (r: Result<(), ReparseError>)
    ensures
        match spec_empty(values@) {
            Ok(_) => r is Ok,
            Err(e) => r matches Err(err) && err.model() == e,
        },
{
    if values.len() == 0 {
        Ok(())
    } else {
        Err(ReparseError::InputError(InputError::InvalidArgCount { exp: 0, got: values.len() }))
    }
}

struct Reparser {
    si: Interner,
    lines: Vec<Line>,
    sequences: Vec<Sequence>,
    variables: AHashMap<u32, Vec<u16>>,
    globals: AHashSet<u32>,
    labels: AHashMap<u32, u16>,
}

impl Reparser {
    spec fn strings(&self) -> Seq<Seq<u8>> {
        self.si.strings()
    }

    spec fn state(&self) -> CodeModel {
        CodeModel {
            sequences: sequences_model(self.sequences@),
            variables: blocks(self.variables),
            globals: held(self.globals),
            labels: addresses(self.labels),
        }
    }

    fn resolve(&self, symbol: Symbol) -> (r: Result<&str, ReparseError>)
        ensures
            match lookup(self.strings(), symbol) {
                Ok(text) => r matches Ok(s) && s.spec_bytes() == text,
                Err(e) => r matches Err(err) && err.model() == e,
            },
    {
        match self.si.resolve(symbol) {
            Some(s) => Ok(s),
            None => Err(ReparseError::CompileError(CompileError::InvalidSymbol(symbol))),
        }
    }

    fn named(&self, sym: Symbol, deref: bool) -> (r: Result<Value, ReparseError>)
        ensures
            match lookup(self.strings(), sym) {
                Ok(name) => r matches Ok(v) && v.model() == ValueModel::Loc(
                    named_loc(name, sym, deref),
                ),
                Err(e) => r matches Err(err) && err.model() == e,
            },
    {
        let name = match self.resolve(sym) {
            Ok(name) => name,
            Err(e) => {
                return Err(e);
            },
        };
        let location = match Register::from_name(name.as_bytes()) {
            Some(reg) => LocKind::Reg(reg),
            None => LocKind::Sym(sym),
        };
        Ok(Value::Loc(Loc { location, deref }))
    }

    fn reparse_value(&self, value: &PValue) -> (r: Result<Value, ReparseError>)
        ensures
            match spec_reparse_value(self.strings(), *value) {
                Ok(m) => r matches Ok(v) && v.model() == m,
                Err(e) => r matches Err(err) && err.model() == e,
            },
    {
        match value {
            PValue::Deref(sym) => self.named(*sym, true),
            PValue::Ident(sym) => self.named(*sym, false),
            PValue::String(sym) => {
                let text = match self.resolve(*sym) {
                    Ok(text) => text,
                    Err(e) => {
                        return Err(e);
                    },
                };
                let mut words: Vec<u16> = Vec::new();
                var_read_string(&mut words, text);
                proof {
                    assert(Seq::<u16>::empty() + pack_words(text.spec_bytes()) =~= pack_words(
                        text.spec_bytes(),
                    ));
                }
                Ok(Value::Words(words))
            },
            PValue::Digit(_, n) => Ok(Value::Word(*n)),
        }
    }

    fn single_value(&self, values: &[PValue]) -> (r: Result<Value, ReparseError>)
        ensures
            match spec_single(self.strings(), values@) {
                Ok(m) => r matches Ok(v) && v.model() == m,
                Err(e) => r matches Err(err) && err.model() == e,
            },
    {
        if values.len() == 1 {
            self.reparse_value(&values[0])
        } else {
            Err(
                ReparseError::InputError(
                    InputError::InvalidArgCount { exp: 1, got: values.len() },
                ),
            )
        }
    }

    fn double_value(&self, values: &[PValue]) -> (r: Result<(Value, Value), ReparseError>)
        ensures
            match spec_double(self.strings(), values@) {
                Ok(m) => r matches Ok(v) && v.0.model() == m.0 && v.1.model() == m.1,
                Err(e) => r matches Err(err) && err.model() == e,
            },
    {
        if values.len() == 2 {
            let a = match self.reparse_value(&values[0]) {
                Ok(a) => a,
                Err(e) => {
                    return Err(e);
                },
            };
            let b = match self.reparse_value(&values[1]) {
                Ok(b) => b,
                Err(e) => {
                    return Err(e);
                },
            };
            Ok((a, b))
        } else {
            Err(
                ReparseError::InputError(
                    InputError::InvalidArgCount { exp: 2, got: values.len() },
                ),
            )
        }
    }

    fn loc(&self, values: &[PValue]) -> (r: Result<Loc, ReparseError>)
        ensures
            match spec_loc(self.strings(), values@) {
                Ok(m) => r == Ok::<Loc, ReparseError>(m),
                Err(e) => r matches Err(err) && err.model() == e,
            },
    {
        match self.single_value(values) {
            Err(e) => Err(e),
            Ok(Value::Loc(loc)) => Ok(loc),
            Ok(v) => Err(ReparseError::InputError(InputError::UnexpectedLiteral(v))),
        }
    }

    fn loc_then_value(&self, values: &[PValue]) -> (r: Result<LocThenVal, ReparseError>)
        ensures
            match spec_loc_then_value(self.strings(), values@) {
                Ok(m) => r matches Ok(lv) && lv.0 == m.0 && lv.1.model() == m.1,
                Err(e) => r matches Err(err) && err.model() == e,
            },
    {
        match self.double_value(values) {
            Err(e) => Err(e),
            Ok((Value::Loc(loc), v)) => Ok(LocThenVal(loc, v)),
            Ok((v, _)) => Err(ReparseError::InputError(InputError::UnexpectedLiteral(v))),
        }
    }

    /// The sequence of the instruction `ins` with the operands `values`.
    fn sequence(&self, ins: Symbol, values: &[PValue]) -> (r: Result<Sequence, ReparseError>)
        ensures
            match spec_sequence(self.strings(), ins, values@) {
                Ok(m) => r matches Ok(seq) && seq.model() == m,
                Err(e) => r matches Err(err) && err.model() == e,
            },
    {
        let name = match self.resolve(ins) {
            Ok(name) => name,
            Err(e) => {
                return Err(e);
            },
        };
        let op = match op_named(name.as_bytes()) {
            Some(op) => op,
            None => {
                return Err(ReparseError::InputError(InputError::InvalidInstruction(ins)));
            },
        };
        match op {
            Op::Mov => match self.loc_then_value(values) {
                Ok(lv) => Ok(Sequence::Mov(lv)),
                Err(e) => Err(e),
            },
            Op::Add => match self.loc_then_value(values) {
                Ok(lv) => Ok(Sequence::Add(lv)),
                Err(e) => Err(e),
            },
            Op::Sub => match self.loc_then_value(values) {
                Ok(lv) => Ok(Sequence::Sub(lv)),
                Err(e) => Err(e),
            },
            Op::Xor => match self.loc_then_value(values) {
                Ok(lv) => Ok(Sequence::Xor(lv)),
                Err(e) => Err(e),
            },
            Op::And => match self.loc_then_value(values) {
                Ok(lv) => Ok(Sequence::And(lv)),
                Err(e) => Err(e),
            },
            Op::Or => match self.loc_then_value(values) {
                Ok(lv) => Ok(Sequence::Or(lv)),
                Err(e) => Err(e),
            },
            Op::Push => match self.single_value(values) {
                Ok(v) => Ok(Sequence::Push(v)),
                Err(e) => Err(e),
            },
            Op::Pop => match self.loc(values) {
                Ok(l) => Ok(Sequence::Pop(l)),
                Err(e) => Err(e),
            },
            Op::Call => match self.loc(values) {
                Ok(l) => Ok(Sequence::Call(l)),
                Err(e) => Err(e),
            },
            Op::Je => match self.loc(values) {
                Ok(l) => Ok(Sequence::Je(l)),
                Err(e) => Err(e),
            },
            Op::Jne => match self.loc(values) {
                Ok(l) => Ok(Sequence::Jne(l)),
                Err(e) => Err(e),
            },
            Op::Inc => match self.loc(values) {
                Ok(l) => Ok(Sequence::Inc(l)),
                Err(e) => Err(e),
            },
            Op::Dec => match self.loc(values) {
                Ok(l) => Ok(Sequence::Dec(l)),
                Err(e) => Err(e),
            },
            Op::Cmp => match self.double_value(values) {
                Ok((a, b)) => Ok(Sequence::Cmp(a, b)),
                Err(e) => Err(e),
            },
            Op::SysCall => match empty(values) {
                Ok(_) => Ok(Sequence::SysCall),
                Err(e) => Err(e),
            },
            Op::Ret => match empty(values) {
                Ok(_) => Ok(Sequence::Ret),
                Err(e) => Err(e),
            },
        }
    }

    /// The words of the initializers of a `str` variable.
    fn parse_str_value(&self, values: &[PValue]) -> (r: Result<Vec<u16>, ReparseError>)
        ensures
            match spec_str_words(self.strings(), values@, 0) {
                Ok(words) => r matches Ok(vars) && vars@ == words,
                Err(e) => r matches Err(err) && err.model() == e,
            },
    {
        let mut vars: Vec<u16> = Vec::new();
        let mut i: usize = 0;
        let ghost strings = self.strings();
        let ghost goal = spec_str_words(strings, values@, 0);
        proof {
            if let Ok(rest) = goal {
                assert(vars@ + rest =~= rest);
            }
        }
        while i < values.len()
            invariant
                0 <= i <= values@.len(),
                strings == self.strings(),
                goal == spec_str_words(strings, values@, 0),
                match spec_str_words(strings, values@, i as int) {
                    Ok(rest) => goal == Ok::<Seq<u16>, ErrorModel>(vars@ + rest),
                    Err(e) => goal == Err::<Seq<u16>, ErrorModel>(e),
                },
            decreases values@.len() - i,
        {
            let ghost before = vars@;
            match &values[i] {
                PValue::Digit(_, n) => {
                    vars.push(*n);
                    proof {
                        if let Ok(rest) = spec_str_words(strings, values@, i + 1) {
                            assert(before.push(*n) + rest =~= before + (seq![*n] + rest));
                        }
                    }
                },
                PValue::Deref(sym) | PValue::Ident(sym) | PValue::String(sym) => {
                    let text = match self.resolve(*sym) {
                        Ok(text) => text,
                        Err(e) => {
                            return Err(e);
                        },
                    };
                    var_read_string(&mut vars, text);
                    proof {
                        if let Ok(rest) = spec_str_words(strings, values@, i + 1) {
                            assert((before + pack_words(text.spec_bytes())) + rest =~= before + (
                            pack_words(text.spec_bytes()) + rest));
                        }
                    }
                },
            }
            i += 1;
        }
        proof {
            assert(vars@ + Seq::<u16>::empty() =~= vars@);
        }
        Ok(vars)
    }

    /// The words of a variable of directive `ty`.
    fn handle_var(&self, ty: Symbol, values: &[PValue]) -> (r: Result<Vec<u16>, ReparseError>)
        ensures
            match spec_var(self.strings(), ty, values@) {
                Ok(words) => r matches Ok(vars) && vars@ == words,
                Err(e) => r matches Err(err) && err.model() == e,
            },
    {
        let name = match self.resolve(ty) {
            Ok(name) => name,
            Err(e) => {
                return Err(e);
            },
        };
        if bytes_eq(name.as_bytes(), "str".as_bytes()) {
            self.parse_str_value(values)
        } else if bytes_eq(name.as_bytes(), "bss".as_bytes()) {
            if values.len() != 1 {
                return Err(ReparseError::InputError(InputError::InvalidType(ty)));
            }
            match &values[0] {
                PValue::Digit(_, n) => {
                    let mut words: Vec<u16> = Vec::new();
                    let mut k: u16 = 0;
                    while k < *n
                        invariant
                            k <= *n,
                            words@ == Seq::new(k as nat, |i: int| 0u16),
                        decreases *n - k,
                    {
                        words.push(0);
                        k += 1;
                        proof {
                            assert(words@ =~= Seq::new(k as nat, |i: int| 0u16));
                        }
                    }
                    Ok(words)
                },
                _ => Err(ReparseError::InputError(InputError::InvalidType(ty))),
            }
        } else {
            Err(ReparseError::InputError(InputError::InvalidType(ty)))
        }
    }

    /// Adds the line at `line` to the program.
    fn reparse_line(&mut self, line: usize) -> (r: Result<(), ReparseError>)
        requires
            line < old(self).lines@.len(),
        ensures
            final(self).si == old(self).si,
            final(self).lines == old(self).lines,
            match spec_line(old(self).strings(), old(self).state(), old(self).lines@[line as int]) {
                Ok(next) => r is Ok && final(self).state() == next,
                Err(e) => r matches Err(err) && err.model() == e && final(self).state() == old(
                    self,
                ).state(),
            },
    {
        let ghost before = sequences_model(self.sequences@);
        match &self.lines[line] {
            Line::NoOp => Ok(()),
            Line::Section { .. } => Ok(()),
            Line::Global { name } => {
                set_insert(&mut self.globals, name.index);
                Ok(())
            },
            Line::Label { name } => {
                if addresses_get(&self.labels, name.index).is_some() {
                    return Err(ReparseError::InputError(InputError::DuplicateLabel(*name)));
                }
                let address = self.sequences.len() as u16;
                proof {
                    assert(sequences_model(self.sequences@).len() == self.sequences@.len());
                }
                addresses_insert(&mut self.labels, name.index, address);
                Ok(())
            },
            Line::Instruction { ins, values } => {
                let seq = match self.sequence(*ins, values.as_slice()) {
                    Ok(seq) => seq,
                    Err(e) => {
                        return Err(e);
                    },
                };
                self.sequences.push(seq);
                proof {
                    assert(sequences_model(self.sequences@) =~= before.push(seq.model()));
                }
                Ok(())
            },
            Line::Variable { name, ty, values } => {
                let words = match self.handle_var(*ty, values.as_slice()) {
                    Ok(words) => words,
                    Err(e) => {
                        return Err(e);
                    },
                };
                blocks_insert(&mut self.variables, name.index, words);
                Ok(())
            },
        }
    }

    /// Adds every line to the program; a line with an error adds only the
    /// error.
    fn reparse(self) -> (r: (Code, Vec<ReparseError>))
        requires
            self.state() == empty_code(),
        ensures
            r.0.si == self.si,
            (r.0.model(), reparse_errors_model(r.1@)) == spec_lines(
                self.strings(),
                self.lines@,
                self.lines@.len() as int,
            ),
    {
        let mut this = self;
        let mut errors: Vec<ReparseError> = Vec::new();
        let n = this.lines.len();
        let mut i: usize = 0;
        proof {
            assert(reparse_errors_model(errors@) =~= Seq::<ErrorModel>::empty());
        }
        while i < n
            invariant
                this.si == self.si,
                this.lines == self.lines,
                n == self.lines@.len(),
                0 <= i <= n,
                (this.state(), reparse_errors_model(errors@)) == spec_lines(
                    self.strings(),
                    self.lines@,
                    i as int,
                ),
            decreases n - i,
        {
            let ghost before = reparse_errors_model(errors@);
            match this.reparse_line(i) {
                Ok(_) => {},
                Err(e) => {
                    errors.push(e);
                    proof {
                        assert(reparse_errors_model(errors@) =~= before.push(e.model()));
                    }
                },
            }
            i += 1;
        }
        let code = Code {
            sequences: this.sequences,
            si: this.si,
            variables: this.variables,
            globals: this.globals,
            labels: this.labels,
        };
        (code, errors)
    }
}

/// The program for the machine of a parsed program, and what is wrong with
/// its lines.
pub fn reparse_program(basm: Basm) -> (r: (Code, Vec<ReparseError>))
    ensures
        r.0.si == basm.si,
        (r.0.model(), reparse_errors_model(r.1@)) == spec_lines(
            basm.si.strings(),
            basm.lines@,
            basm.lines@.len() as int,
        ),
{
    let sequences: Vec<Sequence> = Vec::new();
    proof {
        assert(sequences_model(sequences@) =~= Seq::<SequenceModel>::empty());
    }
    let reparser = Reparser {
        sequences,
        si: basm.si,
        lines: basm.lines,
        variables: blocks_new(),
        globals: set_new(),
        labels: addresses_new(),
    };
    reparser.reparse()
}

/// Parses `src` and makes the program for the machine of it. With parse
/// diagnostics the program is empty and they are returned; without, the
/// program is that of the parsed lines.
pub fn reparse(src: &str) -> (r: (Code, Either<Vec<ParseError>, Vec<ReparseError>>))
    requires
        src.spec_bytes().len() <= u32::MAX,
    ensures
        match r.1 {
            Either::A(errors) => {
                &&& errors@.len() > 0
                &&& errors_text(errors@) == parse_text(src.spec_bytes()).errors
                &&& r.0.model() == empty_code()
            },
            Either::B(errors) => {
                &&& parse_text(src.spec_bytes()).errors.len() == 0
                &&& exists|basm: Basm|
                    #![auto]
                    basm.wf() && basm.text() == parse_text(src.spec_bytes()).lines && (
                        r.0.model(),
                        reparse_errors_model(errors@),
                    ) == spec_lines(basm.si.strings(), basm.lines@, basm.lines@.len() as int)
            },
        },
{
    let (basm, errors) = Parser::base(src).parse();
    if errors.len() != 0 {
        return (Code::new(), Either::A(errors));
    }
    let ghost parsed = basm;
    let (code, errors) = reparse_program(basm);
    proof {
        assert(parsed.wf() && parsed.text() == parse_text(src.spec_bytes()).lines && (
            code.model(),
            reparse_errors_model(errors@),
        ) == spec_lines(parsed.si.strings(), parsed.lines@, parsed.lines@.len() as int));
    }
    (code, Either::B(errors))
}

} // verus!
