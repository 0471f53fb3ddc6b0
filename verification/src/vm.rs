//! The 16-bit virtual machine: its state, its registers and flags, and the
//! sequences that it runs.

use vstd::prelude::*;

use crate::interner::Symbol;
use crate::ir::Address;

verus! {

/// The number of registers.
pub const REGISTER_COUNT: usize = 16;

/// The number of 16-bit cells of memory.
pub const MEM_SIZE: usize = 65535;

/// The sixteen general-purpose registers, in the order of their indices.
#[derive(Debug, Clone, Copy, PartialEq, Eq, Structural)]
pub enum Register {
    /// accumulator, volatile, return value
    RAX,
    /// base, stable, storage
    RBX,
    /// counter, volatile, arg 4
    RCX,
    /// data, volatile, arg 3
    RDX,
    /// source, stable, arg 2
    RSI,
    /// destination, stable, arg 1
    RDI,
    /// stack pointer, stable, stack top
    RSP,
    /// base pointer, stable, stack bot
    RBP,
    /// register 8, volatile, arg 5
    R08,
    /// register 9, volatile, arg 6
    R09,
    /// register 10, volatile
    R10,
    /// register 11, volatile
    R11,
    /// register 12, stable
    R12,
    /// register 13, stable
    R13,
    /// register 14, stable
    R14,
    /// register 15, stable
    R15,
}

impl Register {
    pub open spec fn spec_index(self) -> u16 {
        match self {
            Register::RAX => 0,
            Register::RBX => 1,
            Register::RCX => 2,
            Register::RDX => 3,
            Register::RSI => 4,
            Register::RDI => 5,
            Register::RSP => 6,
            Register::RBP => 7,
            Register::R08 => 8,
            Register::R09 => 9,
            Register::R10 => 10,
            Register::R11 => 11,
            Register::R12 => 12,
            Register::R13 => 13,
            Register::R14 => 14,
            Register::R15 => 15,
        }
    }

    /// The register of index `v`, if `v` is below 16.
    pub open spec fn spec_from_word(v: u16) -> Option<Register> {
        if v == 0 {
            Some(Register::RAX)
        } else if v == 1 {
            Some(Register::RBX)
        } else if v == 2 {
            Some(Register::RCX)
        } else if v == 3 {
            Some(Register::RDX)
        } else if v == 4 {
            Some(Register::RSI)
        } else if v == 5 {
            Some(Register::RDI)
        } else if v == 6 {
            Some(Register::RSP)
        } else if v == 7 {
            Some(Register::RBP)
        } else if v == 8 {
            Some(Register::R08)
        } else if v == 9 {
            Some(Register::R09)
        } else if v == 10 {
            Some(Register::R10)
        } else if v == 11 {
            Some(Register::R11)
        } else if v == 12 {
            Some(Register::R12)
        } else if v == 13 {
            Some(Register::R13)
        } else if v == 14 {
            Some(Register::R14)
        } else if v == 15 {
            Some(Register::R15)
        } else {
            None
        }
    }

    /// The index of the register, from 0 for `RAX` to 15 for `R15`.
    pub fn index(self) -> (i: u16)
        ensures
            i == self.spec_index(),
            i < 16,
            Register::spec_from_word(i) == Some(self),
    {
        match self {
            Register::RAX => 0,
            Register::RBX => 1,
            Register::RCX => 2,
            Register::RDX => 3,
            Register::RSI => 4,
            Register::RDI => 5,
            Register::RSP => 6,
            Register::RBP => 7,
            Register::R08 => 8,
            Register::R09 => 9,
            Register::R10 => 10,
            Register::R11 => 11,
            Register::R12 => 12,
            Register::R13 => 13,
            Register::R14 => 14,
            Register::R15 => 15,
        }
    }

    /// The register of index `v`, if `v` is below 16.
    pub fn from_word(v: u16) -> (r: Option<Register>)
        ensures
            r == Register::spec_from_word(v),
            r is Some <==> v < 16,
            r is Some ==> r->0.spec_index() == v,
    {
        match v {
            0 => Some(Register::RAX),
            1 => Some(Register::RBX),
            2 => Some(Register::RCX),
            3 => Some(Register::RDX),
            4 => Some(Register::RSI),
            5 => Some(Register::RDI),
            6 => Some(Register::RSP),
            7 => Some(Register::RBP),
            8 => Some(Register::R08),
            9 => Some(Register::R09),
            10 => Some(Register::R10),
            11 => Some(Register::R11),
            12 => Some(Register::R12),
            13 => Some(Register::R13),
            14 => Some(Register::R14),
            15 => Some(Register::R15),
            _ => None,
        }
    }

    /// The register that the three bytes name, in lower case: `rax` to
    /// `rbp`, `r08` to `r15`.
    pub open spec fn spec_from_name(name: Seq<u8>) -> Option<Register> {
        if name.len() != 3 || name[0] != 0x72 {
            None
        } else if name[1] == 0x61 && name[2] == 0x78 {
            Some(Register::RAX)
        } else if name[1] == 0x62 && name[2] == 0x78 {
            Some(Register::RBX)
        } else if name[1] == 0x63 && name[2] == 0x78 {
            Some(Register::RCX)
        } else if name[1] == 0x64 && name[2] == 0x78 {
            Some(Register::RDX)
        } else if name[1] == 0x73 && name[2] == 0x69 {
            Some(Register::RSI)
        } else if name[1] == 0x64 && name[2] == 0x69 {
            Some(Register::RDI)
        } else if name[1] == 0x73 && name[2] == 0x70 {
            Some(Register::RSP)
        } else if name[1] == 0x62 && name[2] == 0x70 {
            Some(Register::RBP)
        } else if name[1] == 0x30 && name[2] == 0x38 {
            Some(Register::R08)
        } else if name[1] == 0x30 && name[2] == 0x39 {
            Some(Register::R09)
        } else if name[1] == 0x31 && 0x30 <= name[2] <= 0x35 {
            Register::spec_from_word((10 + (name[2] - 0x30)) as u16)
        } else {
            None
        }
    }

    /// The register that `name` names.
    pub fn from_name(name: &[u8]) -> (r: Option<Register>)
        ensures
            r == Register::spec_from_name(name@),
    {
        if name.len() != 3 || name[0] != 0x72 {
            return None;
        }
        let a = name[1];
        let b = name[2];
        if a == 0x61 && b == 0x78 {
            Some(Register::RAX)
        } else if a == 0x62 && b == 0x78 {
            Some(Register::RBX)
        } else if a == 0x63 && b == 0x78 {
            Some(Register::RCX)
        } else if a == 0x64 && b == 0x78 {
            Some(Register::RDX)
        } else if a == 0x73 && b == 0x69 {
            Some(Register::RSI)
        } else if a == 0x64 && b == 0x69 {
            Some(Register::RDI)
        } else if a == 0x73 && b == 0x70 {
            Some(Register::RSP)
        } else if a == 0x62 && b == 0x70 {
            Some(Register::RBP)
        } else if a == 0x30 && b == 0x38 {
            Some(Register::R08)
        } else if a == 0x30 && b == 0x39 {
            Some(Register::R09)
        } else if a == 0x31 && 0x30 <= b && b <= 0x35 {
            Register::from_word((10 + (b - 0x30)) as u16)
        } else {
            None
        }
    }
}

/// The status flags; each is one bit of the flag word.
#[derive(Debug, Clone, Copy, PartialEq, Eq, Structural)]
pub enum Flag {
    /// sign
    Sf,
    /// zero
    Zf,
    /// carry
    Cf,
    /// auxiliary carry
    Af,
    /// parity
    Pf,
    /// overflow
    Of,
}

impl Flag {
    pub open spec fn spec_bit(self) -> u16 {
        match self {
            Flag::Sf => 0b1,
            Flag::Zf => 0b10,
            Flag::Cf => 0b100,
            Flag::Af => 0b1000,
            Flag::Pf => 0b10000,
            Flag::Of => 0b100000,
        }
    }

    /// The bit of the flag in the flag word.
    pub fn bit(self) -> (b: u16)
        ensures
            b == self.spec_bit(),
    {
        match self {
            Flag::Sf => 0b1,
            Flag::Zf => 0b10,
            Flag::Cf => 0b100,
            Flag::Af => 0b1000,
            Flag::Pf => 0b10000,
            Flag::Of => 0b100000,
        }
    }
}

/// Where an operand lives.
#[derive(Debug, Clone, Copy, PartialEq, Eq, Structural)]
pub enum LocKind {
    Mem(Address),
    Reg(Register),
    /// A name that the encoder still has to resolve.
    Sym(Symbol),
}

/// A location, taken directly or as the address of the operand.
#[derive(Debug, Clone, Copy, PartialEq, Eq, Structural)]
pub struct Loc {
    pub location: LocKind,
    pub deref: bool,
}

/// An operand.
#[derive(Debug, Clone, PartialEq, Eq)]
pub enum Value {
    Loc(Loc),
    Word(u16),
    Words(Vec<u16>),
}

/// An operand with its words as a plain sequence.
pub enum ValueModel {
    Loc(Loc),
    Word(u16),
    Words(Seq<u16>),
}

impl Value {
    pub open spec fn model(self) -> ValueModel {
        match self {
            Value::Loc(loc) => ValueModel::Loc(loc),
            Value::Word(w) => ValueModel::Word(w),
            Value::Words(ws) => ValueModel::Words(ws@),
        }
    }

    pub fn duplicate(&self) -> (v: Value)
        ensures
            v.model() == self.model(),
    {
        match self {
            Value::Loc(loc) => Value::Loc(*loc),
            Value::Word(w) => Value::Word(*w),
            Value::Words(ws) => {
                let mut out: Vec<u16> = Vec::new();
                let mut i: usize = 0;
                while i < ws.len()
                    invariant
                        0 <= i <= ws@.len(),
                        out@ == ws@.take(i as int),
                    decreases ws@.len() - i,
                {
                    out.push(ws[i]);
                    proof {
                        assert(ws@.take(i as int).push(ws@[i as int]) =~= ws@.take(i + 1));
                    }
                    i += 1;
                }
                proof {
                    assert(ws@.take(ws@.len() as int) =~= ws@);
                }
                Value::Words(out)
            },
        }
    }
}

/// A destination and the operand that goes to it.
#[derive(Debug, Clone, PartialEq, Eq)]
pub struct LocThenVal(pub Loc, pub Value);

/// One step of a program.
#[derive(Debug, Clone, PartialEq, Eq)]
pub enum Sequence {
    Mov(LocThenVal),
    Add(LocThenVal),
    Sub(LocThenVal),
    Xor(LocThenVal),
    And(LocThenVal),
    Or(LocThenVal),
    Push(Value),
    Pop(Loc),
    Call(Loc),
    Je(Loc),
    Jne(Loc),
    Inc(Loc),
    Dec(Loc),
    Cmp(Value, Value),
    SysCall,
    Ret,
}

/// A step with its words as plain sequences.
pub enum SequenceModel {
    Mov(Loc, ValueModel),
    Add(Loc, ValueModel),
    Sub(Loc, ValueModel),
    Xor(Loc, ValueModel),
    And(Loc, ValueModel),
    Or(Loc, ValueModel),
    Push(ValueModel),
    Pop(Loc),
    Call(Loc),
    Je(Loc),
    Jne(Loc),
    Inc(Loc),
    Dec(Loc),
    Cmp(ValueModel, ValueModel),
    SysCall,
    Ret,
}

impl Sequence {
    pub open spec fn model(self) -> SequenceModel {
        match self {
            Sequence::Mov(lv) => SequenceModel::Mov(lv.0, lv.1.model()),
            Sequence::Add(lv) => SequenceModel::Add(lv.0, lv.1.model()),
            Sequence::Sub(lv) => SequenceModel::Sub(lv.0, lv.1.model()),
            Sequence::Xor(lv) => SequenceModel::Xor(lv.0, lv.1.model()),
            Sequence::And(lv) => SequenceModel::And(lv.0, lv.1.model()),
            Sequence::Or(lv) => SequenceModel::Or(lv.0, lv.1.model()),
            Sequence::Push(v) => SequenceModel::Push(v.model()),
            Sequence::Pop(l) => SequenceModel::Pop(l),
            Sequence::Call(l) => SequenceModel::Call(l),
            Sequence::Je(l) => SequenceModel::Je(l),
            Sequence::Jne(l) => SequenceModel::Jne(l),
            Sequence::Inc(l) => SequenceModel::Inc(l),
            Sequence::Dec(l) => SequenceModel::Dec(l),
            Sequence::Cmp(a, b) => SequenceModel::Cmp(a.model(), b.model()),
            Sequence::SysCall => SequenceModel::SysCall,
            Sequence::Ret => SequenceModel::Ret,
        }
    }

    pub open spec fn spec_code(self) -> u8 {
        match self {
            Sequence::Mov(_) => 0x01,
            Sequence::Add(_) => 0x02,
            Sequence::Sub(_) => 0x03,
            Sequence::Xor(_) => 0x04,
            Sequence::And(_) => 0x05,
            Sequence::Or(_) => 0x06,
            Sequence::Push(_) => 0x07,
            Sequence::Pop(_) => 0x08,
            Sequence::Call(_) => 0x09,
            Sequence::Je(_) => 0x0a,
            Sequence::Jne(_) => 0x0b,
            Sequence::Inc(_) => 0x0c,
            Sequence::Dec(_) => 0x0d,
            Sequence::Cmp(_, _) => 0x0e,
            Sequence::SysCall => 0x0f,
            Sequence::Ret => 0x10,
        }
    }

    /// The opcode of the step.
    pub fn code(&self) -> (c: u8)
        ensures
            c == self.spec_code(),
            1 <= c <= 0x10,
    {
        match self {
            Sequence::Mov(_) => 0x01,
            Sequence::Add(_) => 0x02,
            Sequence::Sub(_) => 0x03,
            Sequence::Xor(_) => 0x04,
            Sequence::And(_) => 0x05,
            Sequence::Or(_) => 0x06,
            Sequence::Push(_) => 0x07,
            Sequence::Pop(_) => 0x08,
            Sequence::Call(_) => 0x09,
            Sequence::Je(_) => 0x0a,
            Sequence::Jne(_) => 0x0b,
            Sequence::Inc(_) => 0x0c,
            Sequence::Dec(_) => 0x0d,
            Sequence::Cmp(_, _) => 0x0e,
            Sequence::SysCall => 0x0f,
            Sequence::Ret => 0x10,
        }
    }
}

/// The steps, with their words as plain sequences.
pub open spec fn sequences_model(sequences: Seq<Sequence>) -> Seq<SequenceModel> {
    Seq::new(sequences.len(), |i: int| sequences[i].model())
}

} // verus!
