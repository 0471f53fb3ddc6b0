//! The intermediate representation: a symbol table and the parsed lines, in
//! source order. The index of a line is its address.

use vstd::prelude::*;

use crate::interner::{Interner, Symbol};
use crate::lexeme::DigitBase;

verus! {

/// The address of a line: its index in the program.
pub type Address = u16;

/// A parsed argument. Identifiers, bracketed identifiers and string bodies
/// are held as symbols.
#[derive(Debug, Clone, Copy, PartialEq, Eq, Structural)]
pub enum Value {
    /// A bracketed identifier, `[name]`.
    Deref(Symbol),
    Ident(Symbol),
    /// A string literal, interned without its quotes.
    String(Symbol),
    Digit(DigitBase, u16),
}

/// What a `Value` says once its symbol is looked up: the same shape, with
/// the bytes of the string in place of the symbol.
pub enum ValueText {
    Deref(Seq<u8>),
    Ident(Seq<u8>),
    String(Seq<u8>),
    Digit(DigitBase, u16),
}

impl Value {
    /// The symbol of the value, if it has one, is one of `table`.
    pub open spec fn valid(self, table: &Interner) -> bool {
        match self {
            Value::Deref(s) => table.has(s),
            Value::Ident(s) => table.has(s),
            Value::String(s) => table.has(s),
            Value::Digit(_, _) => true,
        }
    }

    pub open spec fn text(self, table: &Interner) -> ValueText {
        match self {
            Value::Deref(s) => ValueText::Deref(table.text(s)),
            Value::Ident(s) => ValueText::Ident(table.text(s)),
            Value::String(s) => ValueText::String(table.text(s)),
            Value::Digit(base, n) => ValueText::Digit(base, n),
        }
    }
}

/// The values of a line, looked up.
pub open spec fn values_text(values: Seq<Value>, table: &Interner) -> Seq<ValueText> {
    Seq::new(values.len(), |i: int| values[i].text(table))
}

pub open spec fn values_valid(values: Seq<Value>, table: &Interner) -> bool {
    forall|i: int| 0 <= i < values.len() ==> (#[trigger] values[i]).valid(table)
}

/// A parsed statement.
#[derive(Debug, Clone, PartialEq, Eq)]
pub enum Line {
    /// A blank or comment-only line, or a line given up after an error.
    NoOp,
    /// `section <name>`
    Section { name: Symbol },
    /// `global <name>`
    Global { name: Symbol },
    /// `<name>:`
    Label { name: Symbol },
    /// An opcode and its comma-separated arguments.
    Instruction { ins: Symbol, values: Vec<Value> },
    /// A name, a directive and one or more comma-separated initializers.
    Variable { name: Symbol, ty: Symbol, values: Vec<Value> },
}

/// What a `Line` says once its symbols are looked up.
pub enum LineText {
    NoOp,
    Section { name: Seq<u8> },
    Global { name: Seq<u8> },
    Label { name: Seq<u8> },
    Instruction { ins: Seq<u8>, values: Seq<ValueText> },
    Variable { name: Seq<u8>, ty: Seq<u8>, values: Seq<ValueText> },
}

impl Line {
    /// Every symbol of the line is one of `table`.
    pub open spec fn valid(self, table: &Interner) -> bool {
        match self {
            Line::NoOp => true,
            Line::Section { name } => table.has(name),
            Line::Global { name } => table.has(name),
            Line::Label { name } => table.has(name),
            Line::Instruction { ins, values } => table.has(ins) && values_valid(values@, table),
            Line::Variable { name, ty, values } => table.has(name) && table.has(ty)
                && values_valid(values@, table),
        }
    }

    pub open spec fn text(self, table: &Interner) -> LineText {
        match self {
            Line::NoOp => LineText::NoOp,
            Line::Section { name } => LineText::Section { name: table.text(name) },
            Line::Global { name } => LineText::Global { name: table.text(name) },
            Line::Label { name } => LineText::Label { name: table.text(name) },
            Line::Instruction { ins, values } => LineText::Instruction {
                ins: table.text(ins),
                values: values_text(values@, table),
            },
            Line::Variable { name, ty, values } => LineText::Variable {
                name: table.text(name),
                ty: table.text(ty),
                values: values_text(values@, table),
            },
        }
    }
}

pub open spec fn lines_valid(lines: Seq<Line>, table: &Interner) -> bool {
    forall|i: int| 0 <= i < lines.len() ==> (#[trigger] lines[i]).valid(table)
}

/// The lines of a program, looked up.
pub open spec fn lines_text(lines: Seq<Line>, table: &Interner) -> Seq<LineText> {
    Seq::new(lines.len(), |i: int| lines[i].text(table))
}

/// A parsed program.
pub struct Basm {
    pub si: Interner,
    pub lines: Vec<Line>,
}

impl Basm {
    /// The table is well-formed and resolves every symbol of every line.
    pub open spec fn wf(&self) -> bool {
        &&& self.si.wf()
        &&& lines_valid(self.lines@, &self.si)
    }

    /// The program with every symbol looked up.
    pub open spec fn text(&self) -> Seq<LineText> {
        lines_text(self.lines@, &self.si)
    }

    /// The empty program.
    pub fn new() -> (basm: Basm)
        ensures
            basm.wf(),
            basm.lines@.len() == 0,
            basm.si.strings().len() == 0,
    {
        Basm { si: Interner::new(), lines: Vec::new() }
    }
}

impl Default for Basm {
    fn default() -> (basm: Basm)
        ensures
            basm.wf(),
            basm.lines@.len() == 0,
    {
        Basm::new()
    }
}

/// One of two alternatives.
#[derive(Debug)]
pub enum Either<A, B> {
    A(A),
    B(B),
}

/// Values keep their meaning when the table grows.
pub proof fn lemma_values_keep(values: Seq<Value>, before: &Interner, after: &Interner)
    requires
        before.extends_to(after),
        values_valid(values, before),
    ensures
        values_valid(values, after),
        values_text(values, after) == values_text(values, before),
{
    assert forall|i: int| 0 <= i < values.len() implies (#[trigger] values[i]).valid(after)
        && values[i].text(after) == values[i].text(before) by {
        assert(values[i].valid(before));
    }
    assert(values_text(values, after) =~= values_text(values, before));
}

/// Lines keep their meaning when the table grows.
pub proof fn lemma_lines_keep(lines: Seq<Line>, before: &Interner, after: &Interner)
    requires
        before.extends_to(after),
        lines_valid(lines, before),
    ensures
        lines_valid(lines, after),
        lines_text(lines, after) == lines_text(lines, before),
{
    assert forall|i: int| 0 <= i < lines.len() implies (#[trigger] lines[i]).valid(after)
        && lines[i].text(after) == lines[i].text(before) by {
        assert(lines[i].valid(before));
        match lines[i] {
            Line::Instruction { ins, values } => {
                lemma_values_keep(values@, before, after);
            },
            Line::Variable { name, ty, values } => {
                lemma_values_keep(values@, before, after);
            },
            _ => {},
        }
    }
    assert(lines_text(lines, after) =~= lines_text(lines, before));
}

} // verus!
