//! The streaming lexers: a base lexer that keeps nothing but one peeked
//! record, and a recorded lexer that also logs every record it produces.

use vstd::prelude::*;
use vstd::string::StringSliceAdditionalSpecFns;

use crate::lexeme::{Advance, Lexeme};
use crate::scan::{lemma_scan_bounds, scan};
use crate::span::Span;
use crate::tokens::{lemma_tokens_from, next_index, tokens, tokens_from};

verus! {

/// A peekable stream of the records of one source text.
///
/// The state of a stream is the text, the index in `tokens` of the record
/// that comes next, whether that record is held as peeked, and how many
/// records have been produced so far. The index stops at the last record,
/// `Eof`, which is handed out again on every further call.
pub trait TokenSource {
    spec fn wf(&self) -> bool;

    /// The bytes of the text.
    spec fn source(&self) -> Seq<u8>;

    /// The index in `tokens(self.source())` of the next record.
    spec fn index(&self) -> nat;

    /// The next record has been peeked and not yet consumed.
    spec fn has_peek(&self) -> bool;

    /// How many records of `tokens(self.source())` have been produced,
    /// peeked ones included.
    spec fn lexed(&self) -> nat;

    proof fn lemma_state(&self)
        requires
            self.wf(),
        ensures
            self.source().len() <= u32::MAX,
            self.index() < tokens(self.source()).len(),
            self.index() <= self.lexed() <= self.index() + 1,
            self.lexed() <= tokens(self.source()).len(),
            self.has_peek() ==> self.lexed() == self.index() + 1,
    ;

    /// Consumes the next record and returns it.
    fn advance(&mut self) -> (ad: Advance)
        requires
            old(self).wf(),
        ensures
            final(self).wf(),
            final(self).source() == old(self).source(),
            ad == tokens(old(self).source())[old(self).index() as int],
            final(self).index() == next_index(old(self).source(), old(self).index()),
            final(self).lexed() == old(self).index() + 1,
            !final(self).has_peek(),
    ;

    /// Returns the next record without consuming it.
    fn peek(&mut self) -> (ad: Advance)
        requires
            old(self).wf(),
        ensures
            final(self).wf(),
            final(self).source() == old(self).source(),
            ad == tokens(old(self).source())[old(self).index() as int],
            final(self).index() == old(self).index(),
            final(self).lexed() == old(self).index() + 1,
            final(self).has_peek(),
    ;

    /// Consumes the peeked record, if there is one, and returns it.
    fn pop_peek(&mut self) -> (r: Option<Advance>)
        requires
            old(self).wf(),
        ensures
            final(self).wf(),
            final(self).source() == old(self).source(),
            final(self).lexed() == old(self).lexed(),
            !final(self).has_peek(),
            old(self).has_peek() ==> r == Some(
                tokens(old(self).source())[old(self).index() as int],
            ) && final(self).index() == next_index(old(self).source(), old(self).index()),
            !old(self).has_peek() ==> r is None && final(self).index() == old(self).index(),
    ;
}

/// The base lexer: no history, one peek slot.
pub struct Lexer<'a> {
    src: &'a str,
    peeked: Option<Advance>,
    pos: u32,
    line: u32,
    line_start: u32,
    seen: Ghost<nat>,
}

pub type BaseLexer<'a> = Lexer<'a>;

impl<'a> Lexer<'a> {
    /// The index of the record that starts at `self.pos`.
    closed spec fn cursor(&self) -> nat {
        let n = tokens(self.src.spec_bytes()).len();
        if self.seen@ < n {
            self.seen@
        } else {
            (n - 1) as nat
        }
    }

    pub fn new(src: &'a str) -> (lexer: Self)
        requires
            src.spec_bytes().len() <= u32::MAX,
        ensures
            lexer.wf(),
            lexer.source() == src.spec_bytes(),
            lexer.index() == 0,
            lexer.lexed() == 0,
            !lexer.has_peek(),
    {
        proof {
            lemma_tokens_from(src.spec_bytes(), 0, 0, 0);
            let t = tokens(src.spec_bytes());
            assert(t.skip(0) == t);
        }
        Lexer { src, peeked: None, pos: 0, line: 0, line_start: 0, seen: Ghost(0) }
    }

    /// The text that is lexed.
    pub fn src(&self) -> (s: &'a str)
        ensures
            s.spec_bytes() == self.source(),
    {
        self.src
    }

    /// A record is held as peeked.
    pub fn is_peeked(&self) -> (b: bool)
        ensures
            b == self.has_peek(),
    {
        self.peeked.is_some()
    }

    /// Lexes the record at the current offset and moves past it.
    fn lex_next(&mut self) -> (ad: Advance)
        requires
            old(self).wf(),
            !old(self).has_peek(),
        ensures
            final(self).wf(),
            final(self).src == old(self).src,
            !final(self).has_peek(),
            ad == tokens(old(self).source())[old(self).index() as int],
            final(self).index() == next_index(old(self).source(), old(self).index()),
            final(self).lexed() == old(self).index() + 1,
            final(self).lexed() == old(self).lexed() || final(self).lexed() == old(self).lexed()
                + 1,
            final(self).lexed() == old(self).lexed() ==> old(self).lexed() == tokens(
                old(self).source(),
            ).len(),
    {
        let bytes = self.src.as_bytes();
        let ghost s = self.src.spec_bytes();
        let ghost t = tokens(s);
        let ghost k = self.cursor();
        proof {
            lemma_tokens_from(s, 0, 0, 0);
            lemma_tokens_from(s, self.pos as int, self.line as int, self.line_start as int);
            assert(t.skip(k as int)[0] == t[k as int]);
        }
        let line = self.line;
        let offset = self.line_start;
        let start = self.pos;
        if start as usize >= bytes.len() {
            proof {
                assert(t.skip(k as int).len() == 1);
                self.seen = Ghost(t.len());
            }
            return Advance { lex: Lexeme::Eof, line, offset, span: Span { from: start, to: start } };
        }
        proof {
            lemma_scan_bounds(s, start as int);
        }
        let (lex, end) = scan(bytes, start as usize);
        let end = end as u32;
        let ghost rest;
        if let Lexeme::Eol(_) = lex {
            proof {
                rest = tokens_from(s, end as int, line + 1, end as int);
            }
            self.line = line + 1;
            self.line_start = end;
        } else {
            proof {
                rest = tokens_from(s, end as int, line as int, offset as int);
            }
        }
        self.pos = end;
        let ad = Advance { lex, line, offset, span: Span { from: start, to: end } };
        proof {
            let here = tokens_from(s, start as int, line as int, offset as int);
            assert(here == seq![ad] + rest);
            lemma_tokens_from(s, self.pos as int, self.line as int, self.line_start as int);
            assert(here.len() >= 2);
            assert(t.skip(k as int).len() == t.len() - k);
            assert(rest == here.skip(1));
            assert(t.skip(k as int).skip(1) == t.skip(k as int + 1));
            self.seen = Ghost(k + 1);
        }
        ad
    }
}

impl<'a> TokenSource for Lexer<'a> {
    closed spec fn wf(&self) -> bool {
        let s = self.src.spec_bytes();
        let t = tokens(s);
        &&& s.len() <= u32::MAX
        &&& self.line <= self.line_start <= self.pos <= s.len()
        &&& self.seen@ <= t.len()
        &&& tokens_from(s, self.pos as int, self.line as int, self.line_start as int) == t.skip(
            self.cursor() as int,
        )
        &&& self.peeked matches Some(p) ==> self.seen@ >= 1 && p == t[self.seen@ - 1]
    }

    closed spec fn source(&self) -> Seq<u8> {
        self.src.spec_bytes()
    }

    closed spec fn index(&self) -> nat {
        if self.peeked is Some {
            (self.seen@ - 1) as nat
        } else {
            self.cursor()
        }
    }

    closed spec fn has_peek(&self) -> bool {
        self.peeked is Some
    }

    closed spec fn lexed(&self) -> nat {
        self.seen@
    }

    proof fn lemma_state(&self) {
        lemma_tokens_from(self.src.spec_bytes(), 0, 0, 0);
    }

    fn advance(&mut self) -> (ad: Advance) {
        proof {
            lemma_tokens_from(self.src.spec_bytes(), 0, 0, 0);
        }
        match self.peeked {
            Some(p) => {
                self.peeked = None;
                p
            },
            None => self.lex_next(),
        }
    }

    fn peek(&mut self) -> (ad: Advance) {
        proof {
            lemma_tokens_from(self.src.spec_bytes(), 0, 0, 0);
        }
        match self.peeked {
            Some(p) => p,
            None => {
                let p = self.lex_next();
                self.peeked = Some(p);
                p
            },
        }
    }

    fn pop_peek(&mut self) -> (r: Option<Advance>) {
        proof {
            lemma_tokens_from(self.src.spec_bytes(), 0, 0, 0);
        }
        let r = self.peeked;
        self.peeked = None;
        r
    }
}

/// The recorded lexer: a base lexer and the log of every record that it has
/// produced, each once, in order.
pub struct RecordedLexer<'a> {
    lexer: Lexer<'a>,
    store: Vec<Advance>,
}

impl<'a> RecordedLexer<'a> {
    pub fn new(src: &'a str) -> (lexer: Self)
        requires
            src.spec_bytes().len() <= u32::MAX,
        ensures
            lexer.wf(),
            lexer.source() == src.spec_bytes(),
            lexer.index() == 0,
            lexer.lexed() == 0,
            !lexer.has_peek(),
            lexer.log() == Seq::<Advance>::empty(),
    {
        let lexer = Lexer::new(src);
        let store = Vec::new();
        assert(tokens(src.spec_bytes()).take(0) == Seq::<Advance>::empty());
        RecordedLexer { lexer, store }
    }

    /// The text that is lexed.
    pub fn src(&self) -> (s: &'a str)
        ensures
            s.spec_bytes() == self.source(),
    {
        self.lexer.src
    }

    /// The records logged so far.
    pub closed spec fn log(&self) -> Seq<Advance> {
        self.store@
    }

    /// The log holds the records produced so far: a prefix of the records of
    /// the text, and all of them once `Eof` was produced.
    pub proof fn lemma_log(&self)
        requires
            self.wf(),
        ensures
            self.log() == tokens(self.source()).take(self.lexed() as int),
    {
    }

    /// The log so far.
    pub fn store(&self) -> (log: &Vec<Advance>)
        ensures
            log@ == self.log(),
    {
        &self.store
    }

    /// The text and the log.
    pub fn parts(self) -> (r: (&'a str, Vec<Advance>))
        requires
            self.wf(),
        ensures
            r.0.spec_bytes() == self.source(),
            r.1@ == tokens(self.source()).take(self.lexed() as int),
    {
        (self.lexer.src, self.store)
    }

    /// Lexes a record with the base lexer and logs it, unless it is `Eof`
    /// produced once more.
    fn lex_record(&mut self) -> (ad: Advance)
        requires
            old(self).wf(),
            !old(self).has_peek(),
        ensures
            final(self).wf(),
            final(self).lexer.src == old(self).lexer.src,
            !final(self).has_peek(),
            ad == tokens(old(self).source())[old(self).index() as int],
            final(self).index() == next_index(old(self).source(), old(self).index()),
            final(self).lexed() == old(self).index() + 1,
    {
        let ghost t = tokens(self.source());
        let ghost before = self.lexer.lexed();
        proof {
            lemma_tokens_from(self.source(), 0, 0, 0);
            self.lexer.lemma_state();
        }
        let ad = self.lexer.lex_next();
        let again = match ad.lex {
            Lexeme::Eof => self.store.len() > 0 && match self.store[self.store.len() - 1].lex {
                Lexeme::Eof => true,
                _ => false,
            },
            _ => false,
        };
        if !again {
            self.store.push(ad);
            proof {
                assert(self.lexer.lexed() == before + 1) by {
                    if self.lexer.lexed() == before {
                        assert(before == t.len());
                        assert(t.take(before as int).last() == t.last());
                    }
                }
                assert(t.take(before as int).push(ad) == t.take(before as int + 1));
            }
        } else {
            proof {
                assert(before >= 1);
                assert(t.take(before as int).last() == t[before - 1]);
                assert(before == t.len());
            }
        }
        ad
    }
}

impl<'a> TokenSource for RecordedLexer<'a> {
    closed spec fn wf(&self) -> bool {
        &&& self.lexer.wf()
        &&& self.store@ == tokens(self.lexer.source()).take(self.lexer.lexed() as int)
    }

    closed spec fn source(&self) -> Seq<u8> {
        self.lexer.source()
    }

    closed spec fn index(&self) -> nat {
        self.lexer.index()
    }

    closed spec fn has_peek(&self) -> bool {
        self.lexer.has_peek()
    }

    closed spec fn lexed(&self) -> nat {
        self.lexer.lexed()
    }

    proof fn lemma_state(&self) {
        self.lexer.lemma_state();
    }

    fn advance(&mut self) -> (ad: Advance) {
        if self.lexer.is_peeked() {
            self.lexer.advance()
        } else {
            self.lex_record()
        }
    }

    fn peek(&mut self) -> (ad: Advance) {
        if self.lexer.is_peeked() {
            self.lexer.peek()
        } else {
            let p = self.lex_record();
            proof {
                lemma_tokens_from(self.source(), 0, 0, 0);
            }
            self.lexer.peeked = Some(p);
            p
        }
    }

    fn pop_peek(&mut self) -> (r: Option<Advance>) {
        self.lexer.pop_peek()
    }
}

/// All the records of `src`, from a base lexer run to the end of input.
pub fn lex_all(src: &str) -> (out: Vec<Advance>)
    requires
        src.spec_bytes().len() <= u32::MAX,
    ensures
        out@ == tokens(src.spec_bytes()),
{
    let ghost t = tokens(src.spec_bytes());
    let mut lexer = Lexer::new(src);
    let mut out: Vec<Advance> = Vec::new();
    proof {
        lexer.lemma_state();
        lemma_tokens_from(src.spec_bytes(), 0, 0, 0);
    }
    loop
        invariant_except_break
            lexer.wf(),
            lexer.source() == src.spec_bytes(),
            t == tokens(src.spec_bytes()),
            out@ == t.take(lexer.index() as int),
            out@.len() == lexer.index(),
            lexer.index() < t.len(),
            forall|i: int| 0 <= i < t.len() ==> ((#[trigger] t[i]).lex is Eof <==> i == t.len() - 1),
        ensures
            out@ == t,
        decreases t.len() - lexer.index(),
    {
        let ghost k = lexer.index();
        let ad = lexer.advance();
        out.push(ad);
        assert(t.take(k as int).push(ad) == t.take(k as int + 1));
        if let Lexeme::Eof = ad.lex {
            assert(t.take(t.len() as int) == t);
            break;
        }
        proof {
            lexer.lemma_state();
        }
    }
    out
}

/// All the records of `src`, from the log of a recorded lexer run to the end
/// of input. Record equivalence: it is the sequence that `lex_all` gives.
pub fn record_all(src: &str) -> (out: Vec<Advance>)
    requires
        src.spec_bytes().len() <= u32::MAX,
    ensures
        out@ == tokens(src.spec_bytes()),
{
    let ghost t = tokens(src.spec_bytes());
    let mut lexer = RecordedLexer::new(src);
    proof {
        lexer.lemma_state();
        lemma_tokens_from(src.spec_bytes(), 0, 0, 0);
    }
    loop
        invariant_except_break
            lexer.wf(),
            lexer.source() == src.spec_bytes(),
            t == tokens(src.spec_bytes()),
            lexer.index() < t.len(),
            forall|i: int| 0 <= i < t.len() ==> ((#[trigger] t[i]).lex is Eof <==> i == t.len() - 1),
        ensures
            lexer.wf(),
            lexer.source() == src.spec_bytes(),
            lexer.lexed() == t.len(),
        decreases t.len() - lexer.index(),
    {
        let ad = lexer.advance();
        if let Lexeme::Eof = ad.lex {
            break;
        }
        proof {
            lexer.lemma_state();
        }
    }
    proof {
        lexer.lemma_log();
        assert(t.take(t.len() as int) == t);
    }
    lexer.parts().1
}

} // verus!
