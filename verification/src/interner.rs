//! The symbol table: strings stored once each, handed out as small integers.
//!
//! Storage and lookup are those of `string_interner::StringInterner` with its
//! default backend. What is assumed of it is stated on the three wrappers
//! below; the table's own invariant is proved from that.

use string_interner::backend::StringBackend;
use string_interner::symbol::SymbolU32;
use string_interner::{StringInterner, Symbol as _};
use vstd::prelude::*;
use vstd::string::StringSliceAdditionalSpecFns;

verus! {

/// An append-only table of distinct strings, kept by a
/// `string_interner::StringInterner` with its default backend.
#[verifier::external_body]
pub struct Interner {
    inner: StringInterner<StringBackend<SymbolU32>>,
}

/// The strings that a table holds, as UTF-8 bytes, in the order in which
/// they were first interned. The position of a string is its symbol.
pub uninterp spec fn interned(table: Interner) -> Seq<Seq<u8>>;

/// `StringInterner::new`: a table that holds no string.
#[verifier::external_body]
fn interner_new() -> (table: Interner)
    ensures
        interned(table) == Seq::<Seq<u8>>::empty(),
{
    Interner { inner: StringInterner::new() }
}

/// `StringInterner::get_or_intern`, with the symbol given as its index
/// (`Symbol::to_usize`). A string that is held keeps the table as it is; a
/// new one is appended and gets the next index. Either way the symbol is a
/// position of the string. The backend panics when it runs out of 32-bit
/// symbols, which the bound on the count excludes.
#[verifier::external_body]
fn interner_get_or_intern(table: &mut Interner, s: &str) -> (sym: u32)
    requires
        interned(*old(table)).len() < u32::MAX,
    ensures
        interned(*old(table)).contains(s.spec_bytes()) ==> interned(*final(table)) == interned(
            *old(table),
        ),
        !interned(*old(table)).contains(s.spec_bytes()) ==> interned(*final(table)) == interned(
            *old(table),
        ).push(s.spec_bytes()) && sym == interned(*old(table)).len(),
        sym < interned(*final(table)).len(),
        interned(*final(table))[sym as int] == s.spec_bytes(),
{
    table.inner.get_or_intern(s).to_usize() as u32
}

/// `StringInterner::resolve`, with the symbol made from its index
/// (`Symbol::try_from_usize`): the string at that position, if there is one.
#[verifier::external_body]
fn interner_resolve<'a>(table: &'a Interner, sym: u32) -> (r: Option<&'a str>)
    ensures
        r is Some <==> sym < interned(*table).len(),
        r is Some ==> r->0.spec_bytes() == interned(*table)[sym as int],
{
    match SymbolU32::try_from_usize(sym as usize) {
        Some(symbol) => table.inner.resolve(symbol),
        None => None,
    }
}

/// A handle to an interned string: its position in the table.
#[derive(Debug, Clone, Copy, PartialEq, Eq, PartialOrd, Ord, Hash, Structural)]
pub struct Symbol {
    pub index: u32,
}

impl Interner {
    /// The strings of the table as UTF-8 bytes; a symbol indexes into them.
    pub closed spec fn strings(&self) -> Seq<Seq<u8>> {
        interned(*self)
    }

    /// No string is held twice, and the count fits a 32-bit symbol.
    pub open spec fn wf(&self) -> bool {
        &&& self.strings().no_duplicates()
        &&& self.strings().len() <= u32::MAX
    }

    /// The symbol is one of this table.
    pub open spec fn has(&self, sym: Symbol) -> bool {
        sym.index < self.strings().len()
    }

    /// The bytes of the string of a symbol of this table.
    pub open spec fn text(&self, sym: Symbol) -> Seq<u8>
        recommends
            self.has(sym),
    {
        self.strings()[sym.index as int]
    }

    /// `other` holds the strings of `self` at the same positions, and
    /// perhaps more after them.
    pub open spec fn extends_to(&self, other: &Interner) -> bool {
        self.strings().is_prefix_of(other.strings())
    }

    pub fn new() -> (table: Interner)
        ensures
            table.wf(),
            table.strings() == Seq::<Seq<u8>>::empty(),
    {
        interner_new()
    }

    /// The symbol of `s`, which is added to the table if it is new to it.
    pub fn get_or_intern(&mut self, s: &str) -> (sym: Symbol)
        requires
            old(self).wf(),
            old(self).strings().len() < u32::MAX,
        ensures
            final(self).wf(),
            final(self).has(sym),
            final(self).text(sym) == s.spec_bytes(),
            old(self).extends_to(final(self)),
            old(self).strings().contains(s.spec_bytes()) ==> final(self).strings() == old(
                self,
            ).strings(),
            !old(self).strings().contains(s.spec_bytes()) ==> final(self).strings() == old(
                self,
            ).strings().push(s.spec_bytes()),
    {
        let index = interner_get_or_intern(self, s);
        Symbol { index }
    }

    /// The string of `sym`, if `sym` is a symbol of this table.
    pub fn resolve(&self, sym: Symbol) -> (r: Option<&str>)
        ensures
            r is Some <==> self.has(sym),
            r is Some ==> r->0.spec_bytes() == self.text(sym),
    {
        interner_resolve(self, sym.index)
    }
}

/// Two symbols of a table are equal exactly when their strings are.
pub proof fn lemma_symbol_identity(table: &Interner, a: Symbol, b: Symbol)
    requires
        table.wf(),
        table.has(a),
        table.has(b),
    ensures
        a == b <==> table.text(a) == table.text(b),
{
}

/// A table that grows keeps every symbol and its string.
pub proof fn lemma_extension_keeps(before: &Interner, after: &Interner, sym: Symbol)
    requires
        before.extends_to(after),
        before.has(sym),
    ensures
        after.has(sym),
        after.text(sym) == before.text(sym),
{
}

} // verus!
