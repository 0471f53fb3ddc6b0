//! The machine: loading a program into memory and running its sequences
//! one at a time.

use vstd::prelude::*;
use vstd::string::StringSliceAdditionalSpecFns;

use crate::encode::{encode, holds_image, image, is_listing, lemma_image_bounds, EncodeError};
use crate::maps::{addresses, blocks};
use crate::grammar::parse_text;
use crate::ir::{Basm, Either, LineText};
use crate::parse::{errors_text, ParseError};
use crate::reparse::{
    empty_code, reparse, reparse_errors_model, spec_lines, Code, ErrorModel, ReparseError,
};
use crate::vm::{
    sequences_model, Flag, Loc, LocKind, Register, Sequence, Value, MEM_SIZE, REGISTER_COUNT,
};

verus! {

/// The state of the machine: the flag word, the registers and the memory.
pub struct BasmVM {
    pub flag: u16,
    pub reg: [u16; REGISTER_COUNT],
    pub mem: [u16; MEM_SIZE],
}

/// The state of the machine as plain values.
pub struct VmModel {
    pub flag: u16,
    pub reg: Seq<u16>,
    pub mem: Seq<u16>,
}

/// Why a source text gives no machine.
pub enum VmError {
    ParseError(Vec<ParseError>),
    ReparseError(Vec<ReparseError>),
    EncodeError(Vec<EncodeError>),
}

/// What running a sequence asks of the outside world.
#[derive(Debug, Clone, PartialEq, Eq)]
pub enum Effect {
    /// Nothing: go on with the next sequence.
    Next,
    /// `sys_write`: these bytes go to the output.
    Write(Vec<u8>),
    /// `sys_exit`: the program ends with this code.
    Exit(u8),
    /// The sequence cannot run: a system call that does not exist, a
    /// symbol left in a location, an address outside the memory.
    Fault,
}

/// What an `Effect` says, with its bytes as a plain sequence.
pub enum EffectModel {
    Next,
    Write(Seq<u8>),
    Exit(u8),
    Fault,
}

impl Effect {
    pub open spec fn model(self) -> EffectModel {
        match self {
            Effect::Next => EffectModel::Next,
            Effect::Write(bytes) => EffectModel::Write(bytes@),
            Effect::Exit(code) => EffectModel::Exit(code),
            Effect::Fault => EffectModel::Fault,
        }
    }
}

/// The number of the `sys_write` call.
pub const SYS_WRITE: u16 = 0x01;

/// The number of the `sys_exit` call.
pub const SYS_EXIT: u16 = 0x3C;

/// The high byte of a word.
pub open spec fn high_byte(w: u16) -> u8 {
    (w >> 8) as u8
}

/// The low byte of a word.
pub open spec fn low_byte(w: u16) -> u8 {
    (w & 0xff) as u8
}

/// The bytes of the words of `mem` from `from` up to `to`, the high byte of
/// each word first.
pub open spec fn word_bytes(mem: Seq<u16>, from: int, to: int) -> Seq<u8>
    decreases to - from,
{
    if from >= to {
        Seq::empty()
    } else {
        word_bytes(mem, from, to - 1) + seq![high_byte(mem[to - 1]), low_byte(mem[to - 1])]
    }
}

/// The `count` bytes that `sys_write` puts out from the word at `start`
/// on: the bytes of `count / 2` words and, for an odd count, the low byte
/// of the word after them.
pub open spec fn written(mem: Seq<u16>, start: int, count: int) -> Seq<u8> {
    let end = start + count / 2;
    if count % 2 != 0 {
        word_bytes(mem, start, end) + seq![low_byte(mem[end])]
    } else {
        word_bytes(mem, start, end)
    }
}

impl BasmVM {
    /// The value of a flag.
    pub fn flag(&self, flag: Flag) -> (b: bool)
        ensures
            b == (self.flag & flag.spec_bit() != 0),
    {
        (self.flag & flag.bit()) != 0
    }

    /// Sets or clears a flag.
    pub fn set_flag(&mut self, flag: Flag, set: bool)
        ensures
            final(self).reg == old(self).reg,
            final(self).mem == old(self).mem,
            final(self).flag == (if set {
                old(self).flag | flag.spec_bit()
            } else {
                old(self).flag & !flag.spec_bit()
            }),
    {
        if set {
            self.flag = self.flag | flag.bit();
        } else {
            self.flag = self.flag & !flag.bit();
        }
    }

    /// The word in a register.
    pub fn reg(&self, reg: Register) -> (w: u16)
        ensures
            w == self.reg@[reg.spec_index() as int],
    {
        self.reg[reg.index() as usize]
    }

    /// Puts a word into a register.
    pub fn set_reg(&mut self, reg: Register, val: u16)
        ensures
            final(self).flag == old(self).flag,
            final(self).mem == old(self).mem,
            final(self).reg@ == old(self).reg@.update(reg.spec_index() as int, val),
    {
        self.reg[reg.index() as usize] = val;
    }

    /// The word at an address.
    pub fn mem(&self, address: u16) -> (w: u16)
        requires
            address < MEM_SIZE,
        ensures
            w == self.mem@[address as int],
    {
        self.mem[address as usize]
    }

    /// Puts a word at an address.
    pub fn set_mem(&mut self, address: u16, val: u16)
        requires
            address < MEM_SIZE,
        ensures
            final(self).flag == old(self).flag,
            final(self).reg == old(self).reg,
            final(self).mem@ == old(self).mem@.update(address as int, val),
    {
        self.mem[address as usize] = val;
    }

    /// The word that a location holds: that of a register, or an address
    /// itself; dereferenced, the word at the address that this gives.
    pub open spec fn spec_loc(&self, loc: Loc) -> Option<u16> {
        match loc.location {
            LocKind::Sym(_) => None,
            LocKind::Mem(ad) => if !loc.deref {
                Some(ad)
            } else if ad < MEM_SIZE && self.mem@[ad as int] < MEM_SIZE {
                Some(self.mem@[self.mem@[ad as int] as int])
            } else {
                None
            },
            LocKind::Reg(reg) => if !loc.deref {
                Some(self.reg@[reg.spec_index() as int])
            } else if self.reg@[reg.spec_index() as int] < MEM_SIZE {
                Some(self.mem@[self.reg@[reg.spec_index() as int] as int])
            } else {
                None
            },
        }
    }

    /// The word of an operand; of several words, the first, or 0 of none.
    pub open spec fn spec_value(&self, val: Value) -> Option<u16> {
        match val {
            Value::Loc(loc) => self.spec_loc(loc),
            Value::Word(w) => Some(w),
            Value::Words(ws) => if ws@.len() > 0 {
                Some(ws@[0])
            } else {
                Some(0)
            },
        }
    }

    /// The word that a location holds.
    pub fn loc(&self, loc: Loc) -> (r: Option<u16>)
        ensures
            r == self.spec_loc(loc),
    {
        match loc.location {
            LocKind::Sym(_) => None,
            LocKind::Mem(ad) => {
                if !loc.deref {
                    Some(ad)
                } else if (ad as usize) < MEM_SIZE && (self.mem(ad) as usize) < MEM_SIZE {
                    Some(self.mem(self.mem(ad)))
                } else {
                    None
                }
            },
            LocKind::Reg(reg) => {
                let w = self.reg(reg);
                if !loc.deref {
                    Some(w)
                } else if (w as usize) < MEM_SIZE {
                    Some(self.mem(w))
                } else {
                    None
                }
            },
        }
    }

    /// The word of an operand.
    pub fn value(&self, val: &Value) -> (r: Option<u16>)
        ensures
            r == self.spec_value(*val),
    {
        match val {
            Value::Loc(loc) => self.loc(*loc),
            Value::Word(w) => Some(*w),
            Value::Words(ws) => if ws.len() > 0 {
                Some(ws[0])
            } else {
                Some(0)
            },
        }
    }

    /// The machine as plain values.
    pub open spec fn model(&self) -> VmModel {
        VmModel { flag: self.flag, reg: self.reg@, mem: self.mem@ }
    }

    /// The machine after the word `w` went to the location `loc`: to the
    /// register, or to the cell at the address; dereferenced, to the cell
    /// whose address the register holds. `None` where there is no such
    /// place.
    pub open spec fn spec_store(&self, loc: Loc, w: u16) -> Option<VmModel> {
        let m = self.model();
        match loc.location {
            LocKind::Sym(_) => None,
            LocKind::Mem(ad) => if ad < MEM_SIZE {
                Some(VmModel { mem: m.mem.update(ad as int, w), ..m })
            } else {
                None
            },
            LocKind::Reg(reg) => if !loc.deref {
                Some(VmModel { reg: m.reg.update(reg.spec_index() as int, w), ..m })
            } else if m.reg[reg.spec_index() as int] < MEM_SIZE {
                Some(VmModel { mem: m.mem.update(m.reg[reg.spec_index() as int] as int, w), ..m })
            } else {
                None
            },
        }
    }

    /// Puts a word where a location says.
    pub fn store(&mut self, loc: Loc, w: u16) -> (done: bool)
        ensures
            match old(self).spec_store(loc, w) {
                Some(next) => done && final(self).model() == next,
                None => !done && *final(self) == *old(self),
            },
    {
        match loc.location {
            LocKind::Sym(_) => false,
            LocKind::Mem(ad) => {
                if (ad as usize) < MEM_SIZE {
                    self.set_mem(ad, w);
                    true
                } else {
                    false
                }
            },
            LocKind::Reg(reg) => {
                if !loc.deref {
                    self.set_reg(reg, w);
                    true
                } else {
                    let ad = self.reg(reg);
                    if (ad as usize) < MEM_SIZE {
                        self.set_mem(ad, w);
                        true
                    } else {
                        false
                    }
                }
            },
        }
    }

    /// The bytes that `sys_write` puts out: `count` of them, from the word
    /// at `start` on.
    pub fn write_bytes(&self, start: u16, count: u16) -> (r: Option<Vec<u8>>)
        ensures
            match r {
                Some(bytes) => start + count / 2 + count % 2 <= MEM_SIZE && bytes@ == written(
                    self.mem@,
                    start as int,
                    count as int,
                ),
                None => start + count / 2 + count % 2 > MEM_SIZE,
            },
    {
        let from = start as usize;
        let words = (count / 2) as usize;
        let odd = (count % 2) as usize;
        if from + words + odd > MEM_SIZE {
            return None;
        }
        let end = from + words;
        let mut bytes: Vec<u8> = Vec::new();
        let mut i = from;
        while i < end
            invariant
                from <= i <= end <= MEM_SIZE,
                bytes@ == word_bytes(self.mem@, from as int, i as int),
            decreases end - i,
        {
            let w = self.mem[i];
            bytes.push((w >> 8) as u8);
            bytes.push((w & 0xff) as u8);
            proof {
                assert(bytes@ =~= word_bytes(self.mem@, from as int, i as int) + seq![
                    high_byte(w),
                    low_byte(w),
                ]);
            }
            i += 1;
        }
        if odd != 0 {
            let w = self.mem[end];
            bytes.push((w & 0xff) as u8);
        }
        Some(bytes)
    }

    /// The effect of a system call in the state of the machine.
    pub open spec fn spec_syscall(&self) -> EffectModel {
        let call = self.reg@[Register::RAX.spec_index() as int];
        let rdi = self.reg@[Register::RDI.spec_index() as int];
        let rsi = self.reg@[Register::RSI.spec_index() as int];
        let rdx = self.reg@[Register::RDX.spec_index() as int];
        if call == SYS_WRITE {
            if rsi + rdx / 2 + rdx % 2 <= MEM_SIZE {
                EffectModel::Write(written(self.mem@, rsi as int, rdx as int))
            } else {
                EffectModel::Fault
            }
        } else if call == SYS_EXIT {
            EffectModel::Exit(low_byte(rdi))
        } else {
            EffectModel::Fault
        }
    }

    /// The word that an operation makes of the word `a` at its destination
    /// and the word `b` of its operand; sums and differences wrap around.
    pub open spec fn combine(seq: Sequence, a: u16, b: u16) -> u16 {
        match seq {
            Sequence::Mov(_) => b,
            Sequence::Add(_) => ((a + b) % 0x10000) as u16,
            Sequence::Sub(_) => ((a - b) % 0x10000) as u16,
            Sequence::Xor(_) => a ^ b,
            Sequence::And(_) => a & b,
            _ => a | b,
        }
    }

    /// Runs one sequence. The six moves and operations change the machine;
    /// a system call reads it; every other sequence does nothing yet.
    pub fn step(&mut self, seq: &Sequence) -> (effect: Effect)
        ensures
            match *seq {
                Sequence::Mov(lv) | Sequence::Add(lv) | Sequence::Sub(lv) | Sequence::Xor(lv)
                | Sequence::And(lv) | Sequence::Or(lv) => match (
                    old(self).spec_loc(lv.0),
                    old(self).spec_value(lv.1),
                ) {
                    (Some(a), Some(b)) => match old(self).spec_store(
                        lv.0,
                        Self::combine(*seq, a, b),
                    ) {
                        Some(next) => effect.model() == EffectModel::Next && final(self).model()
                            == next,
                        None => effect.model() == EffectModel::Fault && *final(self) == *old(self),
                    },
                    _ => effect.model() == EffectModel::Fault && *final(self) == *old(self),
                },
                Sequence::SysCall => effect.model() == old(self).spec_syscall() && *final(self)
                    == *old(self),
                _ => effect.model() == EffectModel::Next && *final(self) == *old(self),
            },
    {
        match seq {
            Sequence::Mov(lv) | Sequence::Add(lv) | Sequence::Sub(lv) | Sequence::Xor(lv)
            | Sequence::And(lv) | Sequence::Or(lv) => {
                let a = match self.loc(lv.0) {
                    Some(a) => a,
                    None => {
                        return Effect::Fault;
                    },
                };
                let b = match self.value(&lv.1) {
                    Some(b) => b,
                    None => {
                        return Effect::Fault;
                    },
                };
                let w = match seq {
                    Sequence::Mov(_) => b,
                    Sequence::Add(_) => a.wrapping_add(b),
                    Sequence::Sub(_) => a.wrapping_sub(b),
                    Sequence::Xor(_) => a ^ b,
                    Sequence::And(_) => a & b,
                    _ => a | b,
                };
                if self.store(lv.0, w) {
                    Effect::Next
                } else {
                    Effect::Fault
                }
            },
            Sequence::SysCall => {
                let call = self.reg(Register::RAX);
                if call == SYS_WRITE {
                    let buf = self.reg(Register::RSI);
                    let count = self.reg(Register::RDX);
                    match self.write_bytes(buf, count) {
                        Some(bytes) => Effect::Write(bytes),
                        None => Effect::Fault,
                    }
                } else if call == SYS_EXIT {
                    Effect::Exit((self.reg(Register::RDI) & 0xff) as u8)
                } else {
                    Effect::Fault
                }
            },
            _ => Effect::Next,
        }
    }

    /// The machine with `code` loaded, if its image fits the memory: flags
    /// and registers clear, the image of the program at the start of the
    /// memory and zeros after it. The image is that of some listing of the
    /// variables of the program.
    pub fn load(code: &Code) -> (r: Option<BasmVM>)
        ensures
            exists|entries: Seq<(u32, Vec<u16>)>|
                #![auto]
                is_listing(entries, blocks(code.variables)) && match r {
                    Some(vm) => {
                        &&& vm.flag == 0
                        &&& vm.reg@ == Seq::new(REGISTER_COUNT as nat, |i: int| 0u16)
                        &&& holds_image(
                            vm.mem@,
                            image(entries, code.sequences@, addresses(code.labels)),
                            Seq::new(MEM_SIZE as nat, |i: int| 0u16),
                        )
                    },
                    None => image(entries, code.sequences@, addresses(code.labels)).len()
                        > MEM_SIZE,
                },
            r matches Some(vm) ==> vm.runnable(),
    {
        let reg = [0u16; REGISTER_COUNT];
        let mut mem = [0u16; MEM_SIZE];
        let mut image: Vec<u16> = Vec::new();
        image.resize(MEM_SIZE, 0);
        let ghost zeros = image@;
        proof {
            assert(zeros =~= Seq::new(MEM_SIZE as nat, |i: int| 0u16));
            assert(reg@ =~= Seq::new(REGISTER_COUNT as nat, |i: int| 0u16));
        }
        if encode(code, image.as_mut_slice()).is_none() {
            return None;
        }
        let mut i: usize = 0;
        while i < MEM_SIZE
            invariant
                0 <= i <= MEM_SIZE,
                image@.len() == MEM_SIZE,
                forall|k: int| 0 <= k < i ==> mem@[k] == image@[k],
            decreases MEM_SIZE - i,
        {
            mem[i] = image[i];
            i += 1;
        }
        proof {
            assert(mem@ =~= image@);
            let entries = choose|entries: Seq<(u32, Vec<u16>)>|
                #![auto]
                is_listing(entries, blocks(code.variables)) && holds_image(
                    image@,
                    crate::encode::image(entries, code.sequences@, addresses(code.labels)),
                    zeros,
                );
            lemma_image_bounds(entries, code.sequences@, addresses(code.labels));
        }
        Some(BasmVM { flag: 0, reg, mem })
    }

    /// The first two words of the memory bound the code, inside the memory.
    pub open spec fn runnable(&self) -> bool {
        self.mem@[0] <= self.mem@[1] <= MEM_SIZE
    }

    /// The machine loaded with the program of `src`.
    ///
    /// With parse diagnostics they are returned. Without, the parsed lines
    /// are made into a program for the machine; the errors of that step
    /// are returned if there are any, else the program is loaded as `load`
    /// loads it, and `OutOfMemory` is returned if its image does not fit. A
    /// text without lines gives the machine whose memory holds the two
    /// bounds of the code, both 2, and zeros.
    pub fn parse(src: &str) -> (r: Result<BasmVM, VmError>)
        requires
            src.spec_bytes().len() <= u32::MAX,
        ensures
            parse_text(src.spec_bytes()).errors.len() > 0 <==> r matches Err(
                VmError::ParseError(_),
            ),
            r matches Err(VmError::ParseError(errors)) ==> errors_text(errors@) == parse_text(
                src.spec_bytes(),
            ).errors,
            r matches Err(VmError::EncodeError(errors)) ==> errors@ == seq![
                EncodeError::OutOfMemory,
            ],
            r matches Ok(vm) ==> {
                &&& vm.flag == 0
                &&& vm.reg@ == Seq::new(REGISTER_COUNT as nat, |i: int| 0u16)
                &&& vm.runnable()
            },
            parse_text(src.spec_bytes()).errors.len() == 0 ==> exists|
                basm: Basm,
                code: Code,
                entries: Seq<(u32, Vec<u16>)>,
                es: Seq<ErrorModel>,
            |
                #![auto]
                Self::loads(parse_text(src.spec_bytes()).lines, basm, code, entries, es, r),
            parse_text(src.spec_bytes()).errors.len() == 0 && parse_text(
                src.spec_bytes(),
            ).lines.len() == 0 ==> (r matches Ok(vm) && vm.mem@ == seq![2u16, 2u16] + Seq::new(
                (MEM_SIZE - 2) as nat,
                |i: int| 0u16,
            )),
    {
        let ghost lines = parse_text(src.spec_bytes()).lines;
        let (code, err) = reparse(src);
        let ghost basm: Basm = arbitrary();
        let ghost es = Seq::<ErrorModel>::empty();
        match err {
            Either::A(errors) => {
                return Err(VmError::ParseError(errors));
            },
            Either::B(errors) => {
                proof {
                    basm = choose|basm: Basm|
                        #![auto]
                        basm.wf() && basm.text() == lines && (
                            code.model(),
                            reparse_errors_model(errors@),
                        ) == spec_lines(basm.si.strings(), basm.lines@, basm.lines@.len() as int);
                    es = reparse_errors_model(errors@);
                    if lines.len() == 0 {
                        assert(basm.text().len() == basm.lines@.len());
                    }
                }
                if errors.len() != 0 {
                    let r = Err(VmError::ReparseError(errors));
                    proof {
                        assert(Self::loads(lines, basm, code, Seq::empty(), es, r));
                    }
                    return r;
                }
            },
        }
        let loaded = BasmVM::load(&code);
        let ghost entries = choose|entries: Seq<(u32, Vec<u16>)>|
            #![auto]
            is_listing(entries, blocks(code.variables)) && match loaded {
                Some(vm) => {
                    &&& vm.flag == 0
                    &&& vm.reg@ == Seq::new(REGISTER_COUNT as nat, |i: int| 0u16)
                    &&& holds_image(
                        vm.mem@,
                        image(entries, code.sequences@, addresses(code.labels)),
                        Seq::new(MEM_SIZE as nat, |i: int| 0u16),
                    )
                },
                None => image(entries, code.sequences@, addresses(code.labels)).len() > MEM_SIZE,
            };
        proof {
            if lines.len() == 0 {
                let img = image(entries, code.sequences@, addresses(code.labels));
                assert(code.model() == empty_code());
                assert(entries.len() == 0) by {
                    if entries.len() > 0 {
                        assert(blocks(code.variables).contains_pair(entries[0].0, entries[0].1@));
                    }
                }
                assert(sequences_model(code.sequences@).len() == code.sequences@.len());
                assert(img =~= seq![2u16, 2u16]);
                let zeros = Seq::new(MEM_SIZE as nat, |i: int| 0u16);
                assert(img + zeros.subrange(2, MEM_SIZE as int) =~= seq![2u16, 2u16] + Seq::new(
                    (MEM_SIZE - 2) as nat,
                    |i: int| 0u16,
                ));
            }
        }
        match loaded {
            Some(vm) => {
                let r = Ok(vm);
                proof {
                    assert(Self::loads(lines, basm, code, entries, es, r));
                }
                r
            },
            None => {
                let mut errors: Vec<EncodeError> = Vec::new();
                errors.push(EncodeError::OutOfMemory);
                let r = Err(VmError::EncodeError(errors));
                proof {
                    assert(Self::loads(lines, basm, code, entries, es, r));
                }
                r
            },
        }
    }

    /// What `parse` makes of a text without parse diagnostics, whose lines
    /// are `lines`: `basm` holds them, `code` with the errors `es` is what
    /// they are made into. With errors they are returned; without,
    /// `entries` lists the variables of `code` in the order in which they
    /// are laid out, and the machine holds the image of `code` and zeros
    /// after it, or the image does not fit the memory.
    pub open spec fn loads(
        lines: Seq<LineText>,
        basm: Basm,
        code: Code,
        entries: Seq<(u32, Vec<u16>)>,
        es: Seq<ErrorModel>,
        r: Result<BasmVM, VmError>,
    ) -> bool {
        &&& basm.wf()
        &&& basm.text() == lines
        &&& (code.model(), es) == spec_lines(
            basm.si.strings(),
            basm.lines@,
            basm.lines@.len() as int,
        )
        &&& match r {
            Err(VmError::ReparseError(errors)) => es.len() > 0 && reparse_errors_model(errors@)
                == es,
            Err(VmError::EncodeError(_)) => es.len() == 0 && is_listing(
                entries,
                blocks(code.variables),
            ) && image(entries, code.sequences@, addresses(code.labels)).len() > MEM_SIZE,
            Ok(vm) => es.len() == 0 && is_listing(entries, blocks(code.variables))
                && holds_image(
                vm.mem@,
                image(entries, code.sequences@, addresses(code.labels)),
                Seq::new(MEM_SIZE as nat, |i: int| 0u16),
            ),
            Err(VmError::ParseError(_)) => false,
        }
    }
}

} // verus!
