//! Encoding a program into a memory image.
//!
//! The image starts with two words, the offsets at which the code starts
//! and ends. Then come the variables, each as its length and its words;
//! then the code, four words to a sequence: the opcode in the high byte of
//! the first word and the operand modes in its low byte, two operand words,
//! and a spare. A sequence that names an unknown symbol is left out.

use ahash::AHashMap;
use vstd::prelude::*;

use crate::interner::Symbol;
use crate::maps::{addresses, addresses_get, addresses_insert, addresses_new, blocks, blocks_entries};
use crate::reparse::Code;
use crate::vm::{Loc, LocKind, LocThenVal, Sequence, Value};

verus! {

/// Why a program has no image, or an image without one of its sequences.
#[derive(Debug, Clone, Copy, PartialEq, Eq, Structural)]
pub enum EncodeError {
    /// A sequence names a symbol that is neither a label nor a variable.
    MissingSymbol(Symbol),
    /// The image does not fit the memory.
    OutOfMemory,
}

/// The mode bits of a location.
pub open spec fn spec_loc_code(loc: Loc) -> u8 {
    if loc.location is Reg {
        if loc.deref {
            0x01
        } else {
            0x00
        }
    } else if loc.deref {
        0x03
    } else {
        0x02
    }
}

/// The mode bits of an operand.
pub open spec fn spec_value_code(val: Value) -> u8 {
    match val {
        Value::Loc(loc) => spec_loc_code(loc),
        Value::Word(_) => 0x04,
        Value::Words(_) => 0x08,
    }
}

/// The word of a location: the index of a register, an address as it is,
/// the address of a label or else of a variable for a symbol.
pub open spec fn spec_loc_address(loc: Loc, labels: Map<u32, u16>, vars: Map<u32, u16>) -> Result<
    u16,
    Symbol,
> {
    match loc.location {
        LocKind::Reg(reg) => Ok(reg.spec_index()),
        LocKind::Sym(sym) => if labels.dom().contains(sym.index) {
            Ok(labels[sym.index])
        } else if vars.dom().contains(sym.index) {
            Ok(vars[sym.index])
        } else {
            Err(sym)
        },
        LocKind::Mem(a) => Ok(a),
    }
}

/// The word of an operand; of several words, the first, or 0 of none.
pub open spec fn spec_value_word(val: Value, labels: Map<u32, u16>, vars: Map<u32, u16>) -> Result<
    u16,
    Symbol,
> {
    match val {
        Value::Loc(loc) => spec_loc_address(loc, labels, vars),
        Value::Word(w) => Ok(w),
        Value::Words(ws) => if ws@.len() > 0 {
            Ok(ws@[0])
        } else {
            Ok(0)
        },
    }
}

/// The mode byte of two operands: the first in the high nibble.
pub open spec fn pair_code(first: u8, second: u8) -> u8 {
    (first << 4) | second
}

/// The first word of an instruction.
pub open spec fn head_word(modes: u8, opcode: u8) -> u16 {
    ((opcode as u16) << 8) | (modes as u16)
}

pub open spec fn two_words(
    modes: u8,
    opcode: u8,
    a: Result<u16, Symbol>,
    b: Result<u16, Symbol>,
) -> Result<Seq<u16>, Symbol> {
    match a {
        Err(s) => Err(s),
        Ok(w1) => match b {
            Err(s) => Err(s),
            Ok(w2) => Ok(seq![head_word(modes, opcode), w1, w2, 0]),
        },
    }
}

pub open spec fn one_word(modes: u8, opcode: u8, a: Result<u16, Symbol>) -> Result<
    Seq<u16>,
    Symbol,
> {
    match a {
        Err(s) => Err(s),
        Ok(w1) => Ok(seq![head_word(modes, opcode), w1, 0, 0]),
    }
}

/// The four words of a sequence, or the symbol that it names and nothing
/// defines.
pub open spec fn spec_seq_words(seq: Sequence, labels: Map<u32, u16>, vars: Map<u32, u16>) -> Result<
    Seq<u16>,
    Symbol,
> {
    let opcode = seq.spec_code();
    match seq {
        Sequence::SysCall | Sequence::Ret => Ok(seq![head_word(0, opcode), 0, 0, 0]),
        Sequence::Mov(vl) | Sequence::Add(vl) | Sequence::Sub(vl) | Sequence::Xor(vl)
        | Sequence::And(vl) | Sequence::Or(vl) => two_words(
            pair_code(spec_loc_code(vl.0), spec_value_code(vl.1)),
            opcode,
            spec_loc_address(vl.0, labels, vars),
            spec_value_word(vl.1, labels, vars),
        ),
        Sequence::Push(v) => one_word(spec_value_code(v), opcode, spec_value_word(v, labels, vars)),
        Sequence::Pop(l) | Sequence::Call(l) | Sequence::Je(l) | Sequence::Jne(l)
        | Sequence::Inc(l) | Sequence::Dec(l) => one_word(
            spec_loc_code(l),
            opcode,
            spec_loc_address(l, labels, vars),
        ),
        Sequence::Cmp(a, b) => two_words(
            pair_code(spec_value_code(a), spec_value_code(b)),
            opcode,
            spec_value_word(a, labels, vars),
            spec_value_word(b, labels, vars),
        ),
    }
}

/// The words of the first `n` variables: each its length, then its words.
pub open spec fn var_words(entries: Seq<(u32, Vec<u16>)>, n: int) -> Seq<u16>
    decreases n,
{
    if n <= 0 {
        Seq::empty()
    } else {
        var_words(entries, n - 1) + seq![entries[n - 1].1@.len() as u16] + entries[n - 1].1@
    }
}

/// The address of the first word of each of the first `n` variables.
pub open spec fn var_addresses(entries: Seq<(u32, Vec<u16>)>, n: int) -> Map<u32, u16>
    decreases n,
{
    if n <= 0 {
        Map::empty()
    } else {
        var_addresses(entries, n - 1).insert(
            entries[n - 1].0,
            (2 + var_words(entries, n - 1).len() + 1) as u16,
        )
    }
}

/// The words of the first `n` sequences, those left out that name an
/// unknown symbol.
pub open spec fn code_words(
    sequences: Seq<Sequence>,
    n: int,
    labels: Map<u32, u16>,
    vars: Map<u32, u16>,
) -> Seq<u16>
    decreases n,
{
    if n <= 0 {
        Seq::empty()
    } else {
        match spec_seq_words(sequences[n - 1], labels, vars) {
            Ok(words) => code_words(sequences, n - 1, labels, vars) + words,
            Err(_) => code_words(sequences, n - 1, labels, vars),
        }
    }
}

/// The symbols that the first `n` sequences name and nothing defines, one
/// for each sequence left out.
pub open spec fn missing_symbols(
    sequences: Seq<Sequence>,
    n: int,
    labels: Map<u32, u16>,
    vars: Map<u32, u16>,
) -> Seq<Symbol>
    decreases n,
{
    if n <= 0 {
        Seq::empty()
    } else {
        match spec_seq_words(sequences[n - 1], labels, vars) {
            Ok(_) => missing_symbols(sequences, n - 1, labels, vars),
            Err(s) => missing_symbols(sequences, n - 1, labels, vars).push(s),
        }
    }
}

/// The image of the variables `entries`, in their order, and the sequences
/// `sequences`.
pub open spec fn image(
    entries: Seq<(u32, Vec<u16>)>,
    sequences: Seq<Sequence>,
    labels: Map<u32, u16>,
) -> Seq<u16> {
    let vars = var_words(entries, entries.len() as int);
    let code = code_words(
        sequences,
        sequences.len() as int,
        labels,
        var_addresses(entries, entries.len() as int),
    );
    seq![(2 + vars.len()) as u16, (2 + vars.len() + code.len()) as u16] + vars + code
}

/// What encoding gives: the offset at which the image ends, and the symbols
/// of the sequences that were left out.
pub struct Encoded {
    pub end: usize,
    pub missing: Vec<Symbol>,
}

fn loc_code(loc: &Loc) -> (c: u8)
    ensures
        c == spec_loc_code(*loc),
{
    match loc.location {
        LocKind::Reg(_) => if loc.deref {
            0x01
        } else {
            0x00
        },
        _ => if loc.deref {
            0x03
        } else {
            0x02
        },
    }
}

fn value_code(val: &Value) -> (c: u8)
    ensures
        c == spec_value_code(*val),
{
    match val {
        Value::Loc(loc) => loc_code(loc),
        Value::Word(_) => 0x04,
        Value::Words(_) => 0x08,
    }
}

fn double_value_code(v1: &Value, v2: &Value) -> (c: u8)
    ensures
        c == pair_code(spec_value_code(*v1), spec_value_code(*v2)),
{
    (value_code(v1) << 4) | value_code(v2)
}

fn loc_value_code(vl: &LocThenVal) -> (c: u8)
    ensures
        c == pair_code(spec_loc_code(vl.0), spec_value_code(vl.1)),
{
    (loc_code(&vl.0) << 4) | value_code(&vl.1)
}

struct Encoder {
    /// The address of each variable written so far.
    var_address: AHashMap<u32, u16>,
    /// The offset of the next word.
    i: usize,
}

impl Encoder {
    fn loc_address(&self, loc: Loc, labels: &AHashMap<u32, u16>) -> (r: Result<u16, EncodeError>)
        ensures
            match spec_loc_address(loc, addresses(*labels), addresses(self.var_address)) {
                Ok(w) => r == Ok::<u16, EncodeError>(w),
                Err(s) => r == Err::<u16, EncodeError>(EncodeError::MissingSymbol(s)),
            },
    {
        match loc.location {
            LocKind::Reg(reg) => Ok(reg.index()),
            LocKind::Sym(sym) => {
                if let Some(address) = addresses_get(labels, sym.index) {
                    return Ok(address);
                }
                if let Some(address) = addresses_get(&self.var_address, sym.index) {
                    return Ok(address);
                }
                Err(EncodeError::MissingSymbol(sym))
            },
            LocKind::Mem(a) => Ok(a),
        }
    }

    fn value_to_word(&self, val: &Value, labels: &AHashMap<u32, u16>) -> (r: Result<
        u16,
        EncodeError,
    >)
        ensures
            match spec_value_word(*val, addresses(*labels), addresses(self.var_address)) {
                Ok(w) => r == Ok::<u16, EncodeError>(w),
                Err(s) => r == Err::<u16, EncodeError>(EncodeError::MissingSymbol(s)),
            },
    {
        match val {
            Value::Loc(loc) => self.loc_address(*loc, labels),
            Value::Word(word) => Ok(*word),
            Value::Words(words) => if words.len() > 0 {
                Ok(words[0])
            } else {
                Ok(0)
            },
        }
    }

    /// The four words of a sequence.
    fn seq_words(&self, seq: &Sequence, labels: &AHashMap<u32, u16>) -> (r: Result<
        [u16; 4],
        EncodeError,
    >)
        ensures
            match spec_seq_words(*seq, addresses(*labels), addresses(self.var_address)) {
                Ok(words) => r matches Ok(ws) && ws@ == words,
                Err(s) => r == Err::<[u16; 4], EncodeError>(EncodeError::MissingSymbol(s)),
            },
    {
        let opcode = seq.code();
        let (modes, w1, w2): (u8, u16, u16) = match seq {
            Sequence::SysCall | Sequence::Ret => (0, 0, 0),
            Sequence::Mov(vl) | Sequence::Add(vl) | Sequence::Sub(vl) | Sequence::Xor(vl)
            | Sequence::And(vl) | Sequence::Or(vl) => {
                let a = match self.loc_address(vl.0, labels) {
                    Ok(a) => a,
                    Err(e) => {
                        return Err(e);
                    },
                };
                let b = match self.value_to_word(&vl.1, labels) {
                    Ok(b) => b,
                    Err(e) => {
                        return Err(e);
                    },
                };
                (loc_value_code(vl), a, b)
            },
            Sequence::Push(value) => {
                let a = match self.value_to_word(value, labels) {
                    Ok(a) => a,
                    Err(e) => {
                        return Err(e);
                    },
                };
                (value_code(value), a, 0)
            },
            Sequence::Pop(loc) | Sequence::Call(loc) | Sequence::Je(loc) | Sequence::Jne(loc)
            | Sequence::Inc(loc) | Sequence::Dec(loc) => {
                let a = match self.loc_address(*loc, labels) {
                    Ok(a) => a,
                    Err(e) => {
                        return Err(e);
                    },
                };
                (loc_code(loc), a, 0)
            },
            Sequence::Cmp(v1, v2) => {
                let a = match self.value_to_word(v1, labels) {
                    Ok(a) => a,
                    Err(e) => {
                        return Err(e);
                    },
                };
                let b = match self.value_to_word(v2, labels) {
                    Ok(b) => b,
                    Err(e) => {
                        return Err(e);
                    },
                };
                (double_value_code(v1, v2), a, b)
            },
        };
        let words = [((opcode as u16) << 8) | (modes as u16), w1, w2, 0];
        proof {
            assert(words@ =~= seq![head_word(modes, opcode), w1, w2, 0]);
        }
        Ok(words)
    }

    /// Writes `words` at the offset of the encoder and moves past them.
    fn write(&mut self, mem: &mut [u16], words: &[u16])
        requires
            old(self).i + words@.len() <= old(mem)@.len(),
        ensures
            final(self).var_address == old(self).var_address,
            final(self).i == old(self).i + words@.len(),
            final(mem)@ == old(mem)@.subrange(0, old(self).i as int) + words@ + old(mem)@.subrange(
                final(self).i as int,
                old(mem)@.len() as int,
            ),
    {
        let ghost start = self.i as int;
        let ghost before = mem@;
        let mut k: usize = 0;
        proof {
            assert(mem@ =~= before.subrange(0, start) + words@.take(0) + before.subrange(
                start,
                before.len() as int,
            ));
        }
        while k < words.len()
            invariant
                0 <= k <= words@.len(),
                0 <= start,
                mem@.len() == before.len(),
                start + words@.len() <= before.len(),
                self.i == start + k,
                self.var_address == old(self).var_address,
                mem@ == before.subrange(0, start) + words@.take(k as int) + before.subrange(
                    start + k,
                    before.len() as int,
                ),
            decreases words@.len() - k,
        {
            mem[self.i] = words[k];
            self.i += 1;
            k += 1;
            proof {
                assert(mem@ =~= before.subrange(0, start) + words@.take(k as int)
                    + before.subrange(start + k, before.len() as int));
            }
        }
        proof {
            assert(words@.take(words@.len() as int) =~= words@);
        }
    }
}

impl Encoder {
    /// Writes the variables `entries`, each as its length and its words,
    /// and notes their addresses, if they fit.
    fn write_vars(&mut self, entries: &[(u32, Vec<u16>)], mem: &mut [u16]) -> (fits: bool)
        requires
            old(self).i == 2,
            addresses(old(self).var_address) == Map::<u32, u16>::empty(),
            2 <= old(mem)@.len() <= u16::MAX,
        ensures
            final(mem)@.len() == old(mem)@.len(),
            final(self).i <= old(mem)@.len(),
            fits ==> final(self).i == 2 + var_words(entries@, entries@.len() as int).len(),
            fits ==> addresses(final(self).var_address) == var_addresses(
                entries@,
                entries@.len() as int,
            ),
            fits ==> final(mem)@ == old(mem)@.subrange(0, 2) + var_words(
                entries@,
                entries@.len() as int,
            ) + old(mem)@.subrange(final(self).i as int, old(mem)@.len() as int),
            !fits ==> 2 + var_words(entries@, entries@.len() as int).len() > old(mem)@.len(),
    {
        let ghost before = mem@;
        let ghost len = before.len() as int;
        let size = mem.len();
        let mut k: usize = 0;
        let mut fits = true;
        proof {
            assert(mem@ =~= before.subrange(0, 2) + var_words(entries@, 0) + before.subrange(
                2,
                len,
            ));
        }
        while fits && k < entries.len()
            invariant
                0 <= k <= entries@.len(),
                size == len,
                len == before.len(),
                2 <= len <= u16::MAX,
                mem@.len() == len,
                self.i <= len,
                fits ==> self.i == 2 + var_words(entries@, k as int).len(),
                fits ==> addresses(self.var_address) == var_addresses(entries@, k as int),
                fits ==> mem@ == before.subrange(0, 2) + var_words(entries@, k as int)
                    + before.subrange(self.i as int, len),
                !fits ==> 2 + var_words(entries@, entries@.len() as int).len() > len,
            decreases
                    entries@.len() - k + (if fits {
                        1int
                    } else {
                        0int
                    }),
        {
            let words = &entries[k].1;
            if size - self.i < 1 || size - self.i - 1 < words.len() {
                proof {
                    lemma_var_words_grow(entries@, k as int + 1, entries@.len() as int);
                }
                fits = false;
            } else {
                let ghost at = self.i as int;
                let ghost head = var_words(entries@, k as int);
                let count: [u16; 1] = [words.len() as u16];
                self.write(mem, count.as_slice());
                addresses_insert(&mut self.var_address, entries[k].0, self.i as u16);
                self.write(mem, words.as_slice());
                proof {
                    assert(count@ =~= seq![words@.len() as u16]);
                    assert(var_words(entries@, k + 1) =~= head + seq![words@.len() as u16]
                        + words@);
                    assert(mem@ =~= before.subrange(0, 2) + var_words(entries@, k + 1)
                        + before.subrange(self.i as int, len));
                }
                k += 1;
            }
        }
        fits
    }

    /// Writes the sequences, four words each, if they fit, and lists the
    /// symbols of those that are left out.
    fn write_code(
        &mut self,
        sequences: &[Sequence],
        labels: &AHashMap<u32, u16>,
        mem: &mut [u16],
        missing: &mut Vec<Symbol>,
    ) -> (fits: bool)
        requires
            old(self).i <= old(mem)@.len() <= u16::MAX,
            old(missing)@.len() == 0,
        ensures
            final(mem)@.len() == old(mem)@.len(),
            final(self).i <= old(mem)@.len(),
            final(self).var_address == old(self).var_address,
            fits ==> final(self).i == old(self).i + code_words(
                sequences@,
                sequences@.len() as int,
                addresses(*labels),
                addresses(old(self).var_address),
            ).len(),
            fits ==> final(missing)@ == missing_symbols(
                sequences@,
                sequences@.len() as int,
                addresses(*labels),
                addresses(old(self).var_address),
            ),
            fits ==> final(mem)@ == old(mem)@.subrange(0, old(self).i as int) + code_words(
                sequences@,
                sequences@.len() as int,
                addresses(*labels),
                addresses(old(self).var_address),
            ) + old(mem)@.subrange(final(self).i as int, old(mem)@.len() as int),
            !fits ==> old(self).i + code_words(
                sequences@,
                sequences@.len() as int,
                addresses(*labels),
                addresses(old(self).var_address),
            ).len() > old(mem)@.len(),
    {
        let ghost before = mem@;
        let ghost len = before.len() as int;
        let ghost start = self.i as int;
        let ghost lab = addresses(*labels);
        let ghost vars = addresses(self.var_address);
        let size = mem.len();
        let mut n: usize = 0;
        let mut fits = true;
        proof {
            assert(mem@ =~= before.subrange(0, start) + code_words(sequences@, 0, lab, vars)
                + before.subrange(start, len));
            assert(missing@ =~= missing_symbols(sequences@, 0, lab, vars));
        }
        while fits && n < sequences.len()
            invariant
                0 <= n <= sequences@.len(),
                size == len,
                len == before.len(),
                len <= u16::MAX,
                mem@.len() == len,
                0 <= start <= self.i <= len,
                lab == addresses(*labels),
                vars == addresses(self.var_address),
                self.var_address == old(self).var_address,
                fits ==> self.i == start + code_words(sequences@, n as int, lab, vars).len(),
                fits ==> missing@ == missing_symbols(sequences@, n as int, lab, vars),
                fits ==> mem@ == before.subrange(0, start) + code_words(
                    sequences@,
                    n as int,
                    lab,
                    vars,
                ) + before.subrange(self.i as int, len),
                !fits ==> start + code_words(sequences@, sequences@.len() as int, lab, vars).len()
                    > len,
            decreases
                    sequences@.len() - n + (if fits {
                        1int
                    } else {
                        0int
                    }),
        {
            let ghost head = code_words(sequences@, n as int, lab, vars);
            match self.seq_words(&sequences[n], labels) {
                Err(EncodeError::MissingSymbol(sym)) => {
                    missing.push(sym);
                    n += 1;
                },
                Err(_) => {
                    n += 1;
                },
                Ok(words) => {
                    if size - self.i < 4 {
                        proof {
                            lemma_code_words_grow(
                                sequences@,
                                n as int + 1,
                                sequences@.len() as int,
                                lab,
                                vars,
                            );
                        }
                        fits = false;
                    } else {
                        self.write(mem, words.as_slice());
                        proof {
                            assert(code_words(sequences@, n + 1, lab, vars) =~= head + words@);
                            assert(mem@ =~= before.subrange(0, start) + code_words(
                                sequences@,
                                n + 1,
                                lab,
                                vars,
                            ) + before.subrange(self.i as int, len));
                        }
                        n += 1;
                    }
                },
            }
        }
        fits
    }
}

/// Writes the image of the variables `entries`, in their order, and of the
/// sequences to the start of `mem`, if it fits.
pub fn encode_entries(
    entries: &[(u32, Vec<u16>)],
    sequences: &[Sequence],
    labels: &AHashMap<u32, u16>,
    mem: &mut [u16],
) -> (r: Option<Encoded>)
    requires
        old(mem)@.len() <= u16::MAX,
    ensures
        final(mem)@.len() == old(mem)@.len(),
        match r {
            Some(done) => {
                let img = image(entries@, sequences@, addresses(*labels));
                &&& img.len() <= old(mem)@.len()
                &&& done.end == img.len()
                &&& final(mem)@ == img + old(mem)@.subrange(
                    img.len() as int,
                    old(mem)@.len() as int,
                )
                &&& done.missing@ == missing_symbols(
                    sequences@,
                    sequences@.len() as int,
                    addresses(*labels),
                    var_addresses(entries@, entries@.len() as int),
                )
            },
            None => image(entries@, sequences@, addresses(*labels)).len() > old(mem)@.len(),
        },
{
    let ghost before = mem@;
    let ghost len = before.len() as int;
    let ghost img = image(entries@, sequences@, addresses(*labels));
    if mem.len() < 2 {
        return None;
    }
    let mut enc = Encoder { var_address: addresses_new(), i: 2 };
    if !enc.write_vars(entries, mem) {
        return None;
    }
    let ghost middle = mem@;
    let code_start = enc.i;
    let mut missing: Vec<Symbol> = Vec::new();
    if !enc.write_code(sequences, labels, mem, &mut missing) {
        return None;
    }
    mem[0] = code_start as u16;
    mem[1] = enc.i as u16;
    proof {
        assert(mem@ =~= img + before.subrange(img.len() as int, len));
    }
    Some(Encoded { end: enc.i, missing })
}

proof fn lemma_var_words_grow(entries: Seq<(u32, Vec<u16>)>, a: int, b: int)
    requires
        0 <= a <= b,
    ensures
        var_words(entries, a).len() <= var_words(entries, b).len(),
    decreases b - a,
{
    if a < b {
        lemma_var_words_grow(entries, a, b - 1);
    }
}

proof fn lemma_code_words_grow(
    sequences: Seq<Sequence>,
    a: int,
    b: int,
    labels: Map<u32, u16>,
    vars: Map<u32, u16>,
)
    requires
        0 <= a <= b,
    ensures
        code_words(sequences, a, labels, vars).len() <= code_words(sequences, b, labels, vars).len(),
    decreases b - a,
{
    if a < b {
        lemma_code_words_grow(sequences, a, b - 1, labels, vars);
    }
}

/// The first two words of an image that fits 16-bit addresses give the
/// offsets at which its code starts and ends.
pub proof fn lemma_image_bounds(
    entries: Seq<(u32, Vec<u16>)>,
    sequences: Seq<Sequence>,
    labels: Map<u32, u16>,
)
    requires
        image(entries, sequences, labels).len() <= u16::MAX,
    ensures
        ({
            let img = image(entries, sequences, labels);
            &&& img.len() >= 2
            &&& img[0] <= img[1] == img.len()
        }),
{
}

/// `entries` lists the keys of `map`, each once, with its words.
pub open spec fn is_listing(entries: Seq<(u32, Vec<u16>)>, map: Map<u32, Seq<u16>>) -> bool {
    &&& forall|i: int|
        0 <= i < entries.len() ==> map.contains_pair((#[trigger] entries[i]).0, entries[i].1@)
    &&& forall|k: u32|
        map.dom().contains(k) ==> exists|i: int|
            0 <= i < entries.len() && (#[trigger] entries[i]).0 == k
    &&& forall|i: int, j: int|
        0 <= i < j < entries.len() ==> (#[trigger] entries[i]).0 != (#[trigger] entries[j]).0
}

/// `mem` holds the image `img` at its start, and after it what `before`
/// held there.
pub open spec fn holds_image(mem: Seq<u16>, img: Seq<u16>, before: Seq<u16>) -> bool {
    &&& img.len() <= before.len()
    &&& mem == img + before.subrange(img.len() as int, before.len() as int)
}

/// Writes the image of `code` to the start of `mem`, if it fits.
///
/// The variables are laid out in the order in which the map of the program
/// hands them out, which is not fixed: the image is that of
/// `encode_entries` on some listing of them.
pub fn encode(code: &Code, mem: &mut [u16]) -> (r: Option<Encoded>)
    requires
        old(mem)@.len() <= u16::MAX,
    ensures
        final(mem)@.len() == old(mem)@.len(),
        exists|entries: Seq<(u32, Vec<u16>)>|
            #![auto]
            is_listing(entries, blocks(code.variables)) && match r {
                Some(done) => done.end == image(
                    entries,
                    code.sequences@,
                    addresses(code.labels),
                ).len() && holds_image(
                    final(mem)@,
                    image(entries, code.sequences@, addresses(code.labels)),
                    old(mem)@,
                ),
                None => image(entries, code.sequences@, addresses(code.labels)).len() > old(
                    mem,
                )@.len(),
            },
{
    let entries = blocks_entries(&code.variables);
    let r = encode_entries(entries.as_slice(), code.sequences.as_slice(), &code.labels, mem);
    proof {
        assert(is_listing(entries@, blocks(code.variables)));
    }
    r
}

} // verus!
