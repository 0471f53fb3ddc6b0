//! Decoding a memory image back into sequences.
//!
//! An instruction is four words: the opcode in the high byte of the first
//! and the operand modes in its low byte, two operand words, and a spare.
//! The mode of the first operand is the high nibble of the mode byte; that
//! of the second is read from the whole byte, of which only the low nibble
//! counts.

use vstd::prelude::*;

use crate::vm::{Loc, LocKind, LocThenVal, Register, Sequence, SequenceModel, Value, ValueModel};

verus! {

/// The mode bits of an operand: bit 0 dereferences, bit 1 unset names a
/// register and set names memory, bits 2 and 3 unset make it a location.
#[derive(Debug, Clone, Copy, PartialEq, Eq, Structural)]
pub struct SeqCode(pub u8);

impl SeqCode {
    pub open spec fn spec_is_loc(self) -> bool {
        self.0 & 0b1100 == 0
    }

    pub open spec fn spec_is_deref(self) -> bool {
        self.0 & 0b0001 == 1
    }

    pub open spec fn spec_is_reg(self) -> bool {
        self.0 & 0b0010 == 0
    }

    pub open spec fn spec_is_word(self) -> bool {
        self.0 & 0b1100 == 0b0100
    }

    pub open spec fn spec_is_multi_word(self) -> bool {
        self.0 & 0b1100 == 0b1000
    }

    pub fn is_loc(self) -> (b: bool)
        ensures
            b == self.spec_is_loc(),
    {
        self.0 & 0b1100 == 0
    }

    pub fn is_deref(self) -> (b: bool)
        ensures
            b == self.spec_is_deref(),
    {
        self.0 & 0b0001 == 1
    }

    pub fn is_reg(self) -> (b: bool)
        ensures
            b == self.spec_is_reg(),
    {
        self.0 & 0b0010 == 0
    }

    pub fn is_word(self) -> (b: bool)
        ensures
            b == self.spec_is_word(),
    {
        self.0 & 0b1100 == 0b0100
    }

    pub fn is_multi_word(self) -> (b: bool)
        ensures
            b == self.spec_is_multi_word(),
    {
        self.0 & 0b1100 == 0b1000
    }
}

/// The location that the mode `sq` makes of the word `v`.
pub open spec fn spec_loc(sq: SeqCode, v: u16) -> Option<Loc> {
    if !sq.spec_is_loc() {
        None
    } else if sq.spec_is_reg() {
        match Register::spec_from_word(v) {
            Some(reg) => Some(Loc { location: LocKind::Reg(reg), deref: sq.spec_is_deref() }),
            None => None,
        }
    } else {
        Some(Loc { location: LocKind::Mem(v), deref: sq.spec_is_deref() })
    }
}

/// The operand that the mode `sq` makes of the word `v`: a location where
/// the mode and the word give one, the word itself otherwise.
pub open spec fn spec_value(sq: SeqCode, v: u16) -> ValueModel {
    match spec_loc(sq, v) {
        Some(loc) => ValueModel::Loc(loc),
        None => ValueModel::Word(v),
    }
}

pub open spec fn mode_byte(ins: u16) -> u8 {
    (ins & 0xff) as u8
}

/// The mode of the first operand of the instruction word `ins`.
pub open spec fn first_mode(ins: u16) -> SeqCode {
    SeqCode(mode_byte(ins) >> 4)
}

/// The mode of the second operand, or of the only one.
pub open spec fn second_mode(ins: u16) -> SeqCode {
    SeqCode(mode_byte(ins))
}

/// The step that the instruction word `ins` and the operand words `v1` and
/// `v2` encode, if they encode one.
pub open spec fn spec_decode_seq(ins: u16, v1: u16, v2: u16) -> Option<SequenceModel> {
    let sq1 = first_mode(ins);
    let sq2 = second_mode(ins);
    let op = ins >> 8;
    if 1 <= op <= 6 {
        match spec_loc(sq1, v1) {
            None => None,
            Some(loc) => {
                let val = spec_value(sq2, v2);
                if op == 1 {
                    Some(SequenceModel::Mov(loc, val))
                } else if op == 2 {
                    Some(SequenceModel::Add(loc, val))
                } else if op == 3 {
                    Some(SequenceModel::Sub(loc, val))
                } else if op == 4 {
                    Some(SequenceModel::Xor(loc, val))
                } else if op == 5 {
                    Some(SequenceModel::And(loc, val))
                } else {
                    Some(SequenceModel::Or(loc, val))
                }
            },
        }
    } else if op == 7 {
        Some(SequenceModel::Push(spec_value(sq2, v1)))
    } else if 8 <= op <= 0x0d {
        match spec_loc(sq2, v1) {
            None => None,
            Some(loc) => if op == 8 {
                Some(SequenceModel::Pop(loc))
            } else if op == 9 {
                Some(SequenceModel::Call(loc))
            } else if op == 0x0a {
                Some(SequenceModel::Je(loc))
            } else if op == 0x0b {
                Some(SequenceModel::Jne(loc))
            } else if op == 0x0c {
                Some(SequenceModel::Inc(loc))
            } else {
                Some(SequenceModel::Dec(loc))
            },
        }
    } else if op == 0x0e {
        Some(SequenceModel::Cmp(spec_value(sq1, v1), spec_value(sq2, v2)))
    } else if op == 0x0f {
        Some(SequenceModel::SysCall)
    } else if op == 0x10 {
        Some(SequenceModel::Ret)
    } else {
        None
    }
}

fn loc(sq: SeqCode, v: u16) -> (r: Option<Loc>)
    ensures
        r == spec_loc(sq, v),
{
    if !sq.is_loc() {
        return None;
    }
    let location = if sq.is_reg() {
        match Register::from_word(v) {
            Some(reg) => LocKind::Reg(reg),
            None => {
                return None;
            },
        }
    } else {
        LocKind::Mem(v)
    };
    Some(Loc { location, deref: sq.is_deref() })
}

fn value(sq: SeqCode, v: u16) -> (r: Value)
    ensures
        r.model() == spec_value(sq, v),
{
    match loc(sq, v) {
        Some(loc) => Value::Loc(loc),
        None => Value::Word(v),
    }
}

fn loc_then_val(sq1: SeqCode, sq2: SeqCode, v1: u16, v2: u16) -> (r: Option<LocThenVal>)
    ensures
        match spec_loc(sq1, v1) {
            Some(l) => r matches Some(lv) && lv.0 == l && lv.1.model() == spec_value(sq2, v2),
            None => r is None,
        },
{
    match loc(sq1, v1) {
        Some(l) => Some(LocThenVal(l, value(sq2, v2))),
        None => None,
    }
}

/// Decodes one instruction.
pub fn decode_seq(ins: u16, v1: u16, v2: u16) -> (r: Option<Sequence>)
    ensures
        match spec_decode_seq(ins, v1, v2) {
            Some(m) => r matches Some(seq) && seq.model() == m,
            None => r is None,
        },
{
    let sq = (ins & 0xff) as u8;
    let sq1 = SeqCode(sq >> 4);
    let sq2 = SeqCode(sq);
    let op = ins >> 8;
    if 1 <= op && op <= 6 {
        match loc_then_val(sq1, sq2, v1, v2) {
            None => None,
            Some(lv) => if op == 1 {
                Some(Sequence::Mov(lv))
            } else if op == 2 {
                Some(Sequence::Add(lv))
            } else if op == 3 {
                Some(Sequence::Sub(lv))
            } else if op == 4 {
                Some(Sequence::Xor(lv))
            } else if op == 5 {
                Some(Sequence::And(lv))
            } else {
                Some(Sequence::Or(lv))
            },
        }
    } else if op == 7 {
        Some(Sequence::Push(value(sq2, v1)))
    } else if 8 <= op && op <= 0x0d {
        match loc(sq2, v1) {
            None => None,
            Some(l) => if op == 8 {
                Some(Sequence::Pop(l))
            } else if op == 9 {
                Some(Sequence::Call(l))
            } else if op == 0x0a {
                Some(Sequence::Je(l))
            } else if op == 0x0b {
                Some(Sequence::Jne(l))
            } else if op == 0x0c {
                Some(Sequence::Inc(l))
            } else {
                Some(Sequence::Dec(l))
            },
        }
    } else if op == 0x0e {
        Some(Sequence::Cmp(value(sq1, v1), value(sq2, v2)))
    } else if op == 0x0f {
        Some(Sequence::SysCall)
    } else if op == 0x10 {
        Some(Sequence::Ret)
    } else {
        None
    }
}

/// The steps that the words of `mem` from `from` up to `to` encode, four
/// words each; what does not decode, and a last group of fewer than four
/// words, is passed over.
pub open spec fn spec_decode(mem: Seq<u16>, from: int, to: int) -> Seq<SequenceModel>
    decreases to - from,
{
    if from + 4 > to {
        Seq::empty()
    } else {
        match spec_decode_seq(mem[from], mem[from + 1], mem[from + 2]) {
            Some(m) => seq![m] + spec_decode(mem, from + 4, to),
            None => spec_decode(mem, from + 4, to),
        }
    }
}

/// Decodes the code of a memory image, which lies between the offsets that
/// its first two words give.
pub fn decode(mem: &[u16]) -> (out: Vec<Sequence>)
    requires
        mem@.len() >= 2,
        mem@[0] <= mem@[1] <= mem@.len(),
    ensures
        crate::vm::sequences_model(out@) == spec_decode(mem@, mem@[0] as int, mem@[1] as int),
{
    let from = mem[0] as usize;
    let to = mem[1] as usize;
    let mut out: Vec<Sequence> = Vec::new();
    let mut i = from;
    proof {
        assert(crate::vm::sequences_model(out@) =~= Seq::<SequenceModel>::empty());
        assert(Seq::<SequenceModel>::empty() + spec_decode(mem@, from as int, to as int)
            =~= spec_decode(mem@, from as int, to as int));
    }
    while to - i >= 4
        invariant
            from <= i <= to <= mem@.len(),
            crate::vm::sequences_model(out@) + spec_decode(mem@, i as int, to as int)
                == spec_decode(mem@, from as int, to as int),
        decreases to - i,
    {
        let ghost before = crate::vm::sequences_model(out@);
        match decode_seq(mem[i], mem[i + 1], mem[i + 2]) {
            Some(seq) => {
                out.push(seq);
                proof {
                    assert(crate::vm::sequences_model(out@) =~= before.push(seq.model()));
                    assert(before.push(seq.model()) + spec_decode(mem@, i + 4, to as int)
                        =~= before + (seq![seq.model()] + spec_decode(mem@, i + 4, to as int)));
                }
            },
            None => {},
        }
        i += 4;
    }
    proof {
        assert(crate::vm::sequences_model(out@) + Seq::<SequenceModel>::empty()
            =~= crate::vm::sequences_model(out@));
    }
    out
}

} // verus!
