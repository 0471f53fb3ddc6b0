//! Half-open byte intervals into a source text.

use vstd::prelude::*;
use vstd::string::StringSliceAdditionalSpecFns;
use vstd::utf8::{is_char_boundary, valid_utf8};

verus! {

/// A half-open byte interval `[from, to)` into the source.
///
/// Spans are ordered by `from`, then by `to`.
#[derive(Debug, Default, Clone, Copy, PartialEq, Eq, PartialOrd, Ord, Hash, Structural)]
pub struct Span {
    pub from: u32,
    pub to: u32,
}

impl Span {
    /// `from <= to`.
    pub open spec fn wf(self) -> bool {
        self.from <= self.to
    }

    /// The span lies inside `bytes` and both ends fall between characters.
    pub open spec fn fits(self, bytes: Seq<u8>) -> bool {
        &&& self.from <= self.to <= bytes.len()
        &&& is_char_boundary(bytes, self.from as int)
        &&& is_char_boundary(bytes, self.to as int)
    }

    /// The bytes of `bytes` that the span covers.
    pub open spec fn of(self, bytes: Seq<u8>) -> Seq<u8>
        recommends
            self.from <= self.to <= bytes.len(),
    {
        bytes.subrange(self.from as int, self.to as int)
    }

    pub fn new(from: u32, to: u32) -> (s: Span)
        ensures
            s == (Span { from, to }),
    {
        Span { from, to }
    }

    /// The one-byte span at `pos`.
    pub fn point(pos: u32) -> (s: Span)
        requires
            pos < u32::MAX,
        ensures
            s == (Span { from: pos, to: (pos + 1) as u32 }),
    {
        Span { from: pos, to: pos + 1 }
    }

    /// From the start of `self` to the end of `other`.
    pub fn to(self, other: Span) -> (s: Span)
        ensures
            s == (Span { from: self.from, to: other.to }),
    {
        Span { from: self.from, to: other.to }
    }

    /// The gap between the end of `self` and the start of `other`.
    pub fn between(self, other: Span) -> (s: Span)
        ensures
            s == (Span { from: self.to, to: other.from }),
    {
        Span { from: self.to, to: other.from }
    }

    /// The span moved right by `offset` bytes.
    pub fn offset(self, offset: u32) -> (s: Span)
        requires
            self.from + offset <= u32::MAX,
            self.to + offset <= u32::MAX,
        ensures
            s == (Span { from: (self.from + offset) as u32, to: (self.to + offset) as u32 }),
    {
        Span { from: self.from + offset, to: self.to + offset }
    }

    pub fn len(&self) -> (n: u32)
        requires
            self.wf(),
        ensures
            n == self.to - self.from,
    {
        self.to - self.from
    }

    pub fn is_empty(&self) -> (b: bool)
        requires
            self.wf(),
        ensures
            b == (self.from == self.to),
    {
        self.len() == 0
    }

    /// The text that the span covers, or `None` where the span does not fit
    /// `src`.
    pub fn get<'a>(self, src: &'a str) -> (r: Option<&'a str>)
        ensures
            r is Some <==> self.fits(src.spec_bytes()),
            r is Some ==> r->0.spec_bytes() == self.of(src.spec_bytes()),
    {
        let from = self.from as usize;
        let to = self.to as usize;
        let len = src.as_bytes().len();
        if from <= to && to <= len && src.is_char_boundary(from) && src.is_char_boundary(to) {
            Some(self.slice(src))
        } else {
            None
        }
    }

    /// The text that the span covers.
    pub fn slice<'a>(self, src: &'a str) -> (r: &'a str)
        requires
            self.fits(src.spec_bytes()),
        ensures
            r.spec_bytes() == self.of(src.spec_bytes()),
    {
        let ghost bytes = src.spec_bytes();
        let (head, _) = src.split_at(self.to as usize);
        proof {
            vstd::utf8::encode_utf8_valid_utf8(src@);
            lemma_boundary_in_prefix(bytes, self.from as int, self.to as int);
        }
        let (_, r) = head.split_at(self.from as usize);
        assert(r.spec_bytes() =~= self.of(bytes));
        r
    }
}

/// A character boundary of a text is one of each prefix that ends on a
/// boundary at or after it.
pub proof fn lemma_boundary_in_prefix(bytes: Seq<u8>, i: int, j: int)
    requires
        valid_utf8(bytes),
        0 <= i <= j <= bytes.len(),
        is_char_boundary(bytes, i),
        is_char_boundary(bytes, j),
    ensures
        valid_utf8(bytes.subrange(0, j)),
        is_char_boundary(bytes.subrange(0, j), i),
{
    let head = bytes.subrange(0, j);
    vstd::utf8::valid_utf8_split(bytes, j);
    if i == j {
        vstd::utf8::is_char_boundary_start_end_of_seq(head);
    } else if i == 0 {
    } else {
        vstd::utf8::is_char_boundary_iff_not_is_continuation_byte(bytes, i);
        vstd::utf8::is_char_boundary_iff_not_is_continuation_byte(head, i);
    }
}

} // verus!
