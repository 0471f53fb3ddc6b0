//! Comments as values: where a comment lies in the source, and for a doc
//! comment what it documents.

use vstd::prelude::*;

use crate::lexeme::{Advance, Lexeme};
use crate::span::Span;

verus! {

/// A byte span.
pub type BSpan = Span;

/// What a doc comment documents: the item after it, or the item around it.
#[derive(Debug, Clone, Copy, PartialEq, Eq, PartialOrd, Ord, Structural)]
pub enum DocStyle {
    Outer,
    Inner,
}

/// A comment, by its span.
#[derive(Debug, Clone, Copy, PartialEq, Eq, PartialOrd, Ord, Structural)]
pub struct Comment(pub BSpan);

impl Comment {
    #[must_use]
    pub fn span(&self) -> (span: BSpan)
        ensures
            span == self.0,
    {
        self.0
    }
}

/// A doc comment, by its style and its span.
#[derive(Debug, Clone, Copy, PartialEq, Eq, PartialOrd, Ord, Structural)]
pub struct DocComment(pub DocStyle, pub BSpan);

impl DocComment {
    #[must_use]
    pub fn style(&self) -> (style: DocStyle)
        ensures
            style == self.0,
    {
        self.0
    }

    #[must_use]
    pub fn span(&self) -> (span: BSpan)
        ensures
            span == self.1,
    {
        self.1
    }
}

/// The comments among the first `n` records: the spans of the line ends
/// that hold one, in order.
pub open spec fn spec_comments(lex: Seq<Advance>, n: int) -> Seq<Comment>
    decreases n,
{
    if n <= 0 {
        Seq::empty()
    } else if lex[n - 1].lex == Lexeme::Eol(true) {
        spec_comments(lex, n - 1).push(Comment(lex[n - 1].span))
    } else {
        spec_comments(lex, n - 1)
    }
}

/// The comments of a source, from its records.
pub fn comments(lex: &[Advance]) -> (out: Vec<Comment>)
    ensures
        out@ == spec_comments(lex@, lex@.len() as int),
{
    let mut out: Vec<Comment> = Vec::new();
    let mut i: usize = 0;
    while i < lex.len()
        invariant
            0 <= i <= lex@.len(),
            out@ == spec_comments(lex@, i as int),
        decreases lex@.len() - i,
    {
        match lex[i].lex {
            Lexeme::Eol(true) => {
                out.push(Comment(lex[i].span));
            },
            _ => {},
        }
        i += 1;
    }
    out
}

} // verus!
