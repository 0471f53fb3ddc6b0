//! The recursive-descent parser: records in, lines and diagnostics out, with
//! recovery at the next line end after any error.

use vstd::prelude::*;
use vstd::string::{StringExecFns, StringSliceAdditionalSpecFns};
use vstd::utf8::{encode_utf8, valid_utf8};

use crate::boundary::{lemma_str_end_boundary, lemma_tokens_fit};
use crate::digits::{parse_literal, IntErrorKind};
use crate::grammar::{
    add_line, address_of, after, closed, deref_at, end_at, expect_text, first_label, global_word,
    instruction, label_at, lemma_line_stop, lemma_skip_ws, line_at, line_stop, named_at,
    parse_from, parse_text, rest_at, section_word, settle, skip_ws, statement_at, value_at,
    values_at, variable, ErrorText, Expect, KindText, Parsed, ProgramText,
};
use crate::interner::{lemma_symbol_identity, Symbol};
use crate::ir::{
    lemma_lines_keep, lemma_values_keep, lines_text, values_text, values_valid, Basm, Line,
    LineText, Value, ValueText,
};
use crate::lex::{Lexer, RecordedLexer, TokenSource};
use crate::lexeme::{Advance, Lexeme};
use crate::render::{lexeme_name, place_text, push_decimal, render_text};
use crate::scan::{eat_string, lemma_scan_bounds};
use crate::span::Span;
use crate::tokens::{
    follows, is_token_of, lemma_token_order, lemma_tokens_from, next_index, tokens,
};

verus! {

/// What is wrong at a diagnostic's record.
#[derive(Debug, Clone, PartialEq, Eq)]
pub enum ParseErrorKind {
    /// Something else was required; the string describes what.
    Expected(String),
    /// A digit literal has no 16-bit value.
    ParseIntError(IntErrorKind),
    /// The line or the input ended inside a construct.
    InputEnd,
    /// A label was defined before; holds its name and the address of the
    /// first definition.
    DuplicateLabel(String, u16),
}

impl ParseErrorKind {
    pub open spec fn text(&self) -> KindText {
        match self {
            ParseErrorKind::Expected(s) => KindText::Expected(s@),
            ParseErrorKind::ParseIntError(e) => KindText::ParseIntError(*e),
            ParseErrorKind::InputEnd => KindText::InputEnd,
            ParseErrorKind::DuplicateLabel(s, a) => KindText::DuplicateLabel(encode_utf8(s@), *a),
        }
    }
}

/// A diagnostic: the offending record and what is wrong with it.
#[derive(Debug, PartialEq, Eq)]
pub struct ParseError {
    ad: Advance,
    kind: ParseErrorKind,
}

impl ParseError {
    /// The offending record lies in its line: neither of its columns is
    /// negative.
    #[verifier::type_invariant]
    spec fn located(&self) -> bool {
        self.ad.offset <= self.ad.span.from <= self.ad.span.to
    }

    pub closed spec fn text(&self) -> ErrorText {
        ErrorText { ad: self.ad, kind: self.kind.text() }
    }

    /// The offending record.
    pub fn advance(&self) -> (ad: Advance)
        ensures
            ad == self.text().ad,
    {
        self.ad
    }

    /// The line of the offending record.
    pub fn line(&self) -> (line: u32)
        ensures
            line == self.text().ad.line,
    {
        self.ad.line
    }

    /// The offset at which that line starts.
    pub fn offset(&self) -> (offset: u32)
        ensures
            offset == self.text().ad.offset,
    {
        self.ad.offset
    }

    pub fn kind(&self) -> (kind: &ParseErrorKind)
        ensures
            kind.text() == self.text().kind,
    {
        &self.kind
    }

    /// The line of text of the diagnostic:
    /// `<what> at: <line>:<from>:<to>`, a newline at its end.
    pub fn render(&self) -> (line: String)
        ensures
            line@ == render_text(self.text()),
    {
        proof {
            use_type_invariant(self);
        }
        let ad = self.ad;
        let mut place = String::new();
        push_decimal(&mut place, ad.line);
        place.append(":");
        push_decimal(&mut place, ad.span.from - ad.offset);
        place.append(":");
        push_decimal(&mut place, ad.span.to - ad.offset);
        proof {
            assert(place@ =~= place_text(self.text()));
        }
        let mut out = String::new();
        match &self.kind {
            ParseErrorKind::Expected(what) => {
                out.append("unexpected input found at: ");
                out.append(place.as_str());
                out.append(". expected ");
                out.append(what.as_str());
                out.append(" but got ");
                out.append(lexeme_name(ad.lex));
            },
            ParseErrorKind::ParseIntError(_) => {
                out.append("unable to parse number at: ");
                out.append(place.as_str());
            },
            ParseErrorKind::InputEnd => {
                out.append("input ended early at: ");
                out.append(place.as_str());
            },
            ParseErrorKind::DuplicateLabel(_, _) => {
                out.append("duplicate label found at: ");
                out.append(place.as_str());
            },
        }
        out.append("\n");
        proof {
            assert(out@ =~= render_text(self.text()));
        }
        out
    }
}

/// The diagnostics, with strings as plain sequences.
pub open spec fn errors_text(errors: Seq<ParseError>) -> Seq<ErrorText> {
    Seq::new(errors.len(), |i: int| errors[i].text())
}

pub type ParseResult<T> = Result<T, ParseError>;

/// The description of what was expected.
fn describe(e: Expect) -> (s: String)
    ensures
        s@ == expect_text(e),
{
    match e {
        Expect::LineStart => "Ident | Eol | Eof".to_owned(),
        Expect::Ident => "Ident".to_owned(),
        Expect::Comma => "Comma".to_owned(),
        Expect::LineEnd => "Whitespace".to_owned(),
        Expect::CloseBracket => "CloseBracket".to_owned(),
        Expect::Value => "Ident | Str | Colon | OpenBracket | Digit".to_owned(),
    }
}

/// The bytes `bytes[from..to]` spell `section`.
fn is_section_word(bytes: &[u8], from: usize, to: usize) -> (b: bool)
    requires
        from <= to <= bytes.len(),
    ensures
        b == (bytes@.subrange(from as int, to as int) == section_word()),
{
    let ghost word = bytes@.subrange(from as int, to as int);
    if to - from != 7 {
        assert(section_word().len() == 7);
        return false;
    }
    let b = bytes[from] == 0x73 && bytes[from + 1] == 0x65 && bytes[from + 2] == 0x63 && bytes[from
        + 3] == 0x74 && bytes[from + 4] == 0x69 && bytes[from + 5] == 0x6F && bytes[from + 6]
        == 0x6E;
    proof {
        if b {
            assert(word =~= section_word());
        } else {
            assert(word[0] == bytes[from as int]);
            assert(word[1] == bytes[from + 1]);
            assert(word[2] == bytes[from + 2]);
            assert(word[3] == bytes[from + 3]);
            assert(word[4] == bytes[from + 4]);
            assert(word[5] == bytes[from + 5]);
            assert(word[6] == bytes[from + 6]);
        }
    }
    b
}

/// The bytes `bytes[from..to]` spell `global`.
fn is_global_word(bytes: &[u8], from: usize, to: usize) -> (b: bool)
    requires
        from <= to <= bytes.len(),
    ensures
        b == (bytes@.subrange(from as int, to as int) == global_word()),
{
    let ghost word = bytes@.subrange(from as int, to as int);
    if to - from != 6 {
        assert(global_word().len() == 6);
        return false;
    }
    let b = bytes[from] == 0x67 && bytes[from + 1] == 0x6C && bytes[from + 2] == 0x6F && bytes[from
        + 3] == 0x62 && bytes[from + 4] == 0x61 && bytes[from + 5] == 0x6C;
    proof {
        if b {
            assert(word =~= global_word());
        } else {
            assert(word[0] == bytes[from as int]);
            assert(word[1] == bytes[from + 1]);
            assert(word[2] == bytes[from + 2]);
            assert(word[3] == bytes[from + 3]);
            assert(word[4] == bytes[from + 4]);
            assert(word[5] == bytes[from + 5]);
        }
    }
    b
}

/// A parser over a stream of records of `src`.
pub struct Parser<'a, L> {
    src: &'a str,
    lexer: L,
    basm: Basm,
    errors: Vec<ParseError>,
}

impl<'a, L: TokenSource> Parser<'a, L> {
    /// The bytes of the text that is parsed.
    pub closed spec fn source(&self) -> Seq<u8> {
        self.src.spec_bytes()
    }

    /// Nothing has been read or produced yet.
    pub closed spec fn fresh(&self) -> bool {
        &&& self.inv()
        &&& self.lexer.index() == 0
        &&& self.basm.lines@.len() == 0
        &&& self.basm.si.strings().len() == 0
        &&& self.errors@.len() == 0
    }

    spec fn t(&self) -> Seq<Advance> {
        tokens(self.src.spec_bytes())
    }

    spec fn idx(&self) -> int {
        self.lexer.index() as int
    }

    spec fn inv(&self) -> bool {
        &&& self.lexer.wf()
        &&& self.lexer.source() == self.src.spec_bytes()
        &&& self.basm.wf()
    }

    /// The offset at which the next record starts.
    spec fn pos(&self) -> int {
        self.t()[self.idx()].span.from as int
    }

    /// The number of strings in the table.
    spec fn count(&self) -> int {
        self.basm.si.strings().len() as int
    }

    /// Between `a` and `b` only the lexer moved.
    spec fn moved(a: Self, b: Self) -> bool {
        &&& b.src == a.src
        &&& b.basm == a.basm
        &&& b.errors == a.errors
    }

    /// Between `a` and `b` the lexer moved and the table may have grown.
    spec fn grew(a: Self, b: Self) -> bool {
        &&& b.src == a.src
        &&& b.basm.lines == a.basm.lines
        &&& b.errors == a.errors
        &&& a.basm.si.extends_to(&b.basm.si)
    }

    /// The program and the diagnostics so far.
    spec fn acc(&self) -> ProgramText {
        ProgramText { lines: self.basm.text(), errors: errors_text(self.errors@) }
    }

    proof fn lemma_facts(&self)
        requires
            self.inv(),
        ensures
            self.src.spec_bytes().len() <= u32::MAX,
            valid_utf8(self.src.spec_bytes()),
            closed(self.t()),
            0 <= self.idx() < self.t().len(),
            self.idx() <= self.lexer.lexed() <= self.t().len(),
            next_index(self.src.spec_bytes(), self.lexer.index()) == after(self.t(), self.idx()),
            0 <= self.pos() <= self.src.spec_bytes().len(),
            forall|k: int| 0 <= k < self.t().len() ==> is_token_of(self.src.spec_bytes(), #[trigger] self.t()[k]),
            forall|k: int| 0 <= k < self.t().len() ==> (#[trigger] self.t()[k]).span.fits(self.src.spec_bytes()),
            forall|i: int, j: int|
                0 <= i && j == i + 1 && j < self.t().len() ==> follows(
                    #[trigger] self.t()[i],
                    #[trigger] self.t()[j],
                ),
    {
        let s = self.src.spec_bytes();
        self.lexer.lemma_state();
        vstd::utf8::encode_utf8_valid_utf8(self.src@);
        lemma_tokens_from(s, 0, 0, 0);
        lemma_tokens_fit(s);
        assert(is_token_of(s, self.t()[self.idx()]));
    }

    /// The lexer that the parser reads from.
    pub closed spec fn stream(&self) -> L {
        self.lexer
    }

    /// The lexer, for a look at its state: that of a parser that has read
    /// nothing stands at the first record of the text.
    pub fn lexer(&self) -> (r: &L)
        ensures
            *r == self.stream(),
            self.fresh() ==> r.wf() && r.index() == 0 && r.source() == self.source(),
    {
        &self.lexer
    }

    /// Consumes whitespace and the record after it, which is returned.
    fn non_ws(&mut self) -> (ad: Advance)
        requires
            old(self).inv(),
        ensures
            final(self).inv(),
            Self::moved(*old(self), *final(self)),
            ad == old(self).t()[skip_ws(old(self).t(), old(self).idx())],
            final(self).idx() == after(old(self).t(), skip_ws(old(self).t(), old(self).idx())),
            old(self).pos() <= final(self).pos(),
    {
        let ghost t = self.t();
        let ghost i0 = self.idx();
        proof {
            self.lemma_facts();
            lemma_skip_ws(t, i0);
            lemma_token_order(self.src.spec_bytes(), i0, after(t, skip_ws(t, i0)));
        }
        loop
            invariant_except_break
                self.inv(),
                Self::moved(*old(self), *self),
                t == self.t(),
                closed(t),
                i0 <= self.idx() < t.len(),
                skip_ws(t, self.idx()) == skip_ws(t, i0),
            ensures
                self.inv(),
                Self::moved(*old(self), *self),
                self.idx() == skip_ws(t, i0),
                0 <= self.idx() < t.len(),
            decreases t.len() - self.idx(),
        {
            let p = self.lexer.peek();
            proof {
                self.lemma_facts();
            }
            if let Lexeme::Whitespace = p.lex {
                self.lexer.pop_peek();
            } else {
                break;
            }
            proof {
                self.lemma_facts();
            }
        }
        proof {
            self.lemma_facts();
        }
        self.lexer.advance()
    }

    /// Consumes whitespace and returns the record after it, which stays.
    fn peek_non_ws(&mut self) -> (ad: Advance)
        requires
            old(self).inv(),
        ensures
            final(self).inv(),
            Self::moved(*old(self), *final(self)),
            ad == old(self).t()[skip_ws(old(self).t(), old(self).idx())],
            final(self).idx() == skip_ws(old(self).t(), old(self).idx()),
            final(self).lexer.has_peek(),
    {
        let ghost t = self.t();
        let ghost i0 = self.idx();
        proof {
            self.lemma_facts();
        }
        loop
            invariant_except_break
                self.inv(),
                Self::moved(*old(self), *self),
                t == self.t(),
                closed(t),
                i0 <= self.idx() < t.len(),
                skip_ws(t, self.idx()) == skip_ws(t, i0),
            ensures
                self.inv(),
                Self::moved(*old(self), *self),
                self.idx() == skip_ws(t, i0),
                0 <= self.idx() < t.len(),
            decreases t.len() - self.idx(),
        {
            let p = self.lexer.peek();
            proof {
                self.lemma_facts();
            }
            if let Lexeme::Whitespace = p.lex {
                self.lexer.pop_peek();
            } else {
                break;
            }
            proof {
                self.lemma_facts();
            }
        }
        self.lexer.peek()
    }

    /// Consumes records up to and including the next line end.
    fn kill_line(&mut self)
        requires
            old(self).inv(),
        ensures
            final(self).inv(),
            Self::moved(*old(self), *final(self)),
            final(self).idx() == after(old(self).t(), line_stop(old(self).t(), old(self).idx())),
            old(self).pos() <= final(self).pos(),
    {
        let ghost t = self.t();
        let ghost i0 = self.idx();
        proof {
            self.lemma_facts();
            lemma_line_stop(t, i0);
            lemma_token_order(self.src.spec_bytes(), i0, after(t, line_stop(t, i0)));
        }
        loop
            invariant_except_break
                self.inv(),
                Self::moved(*old(self), *self),
                t == self.t(),
                closed(t),
                i0 <= self.idx() <= line_stop(t, i0),
                self.idx() < t.len(),
            ensures
                self.inv(),
                Self::moved(*old(self), *self),
                self.idx() == after(t, line_stop(t, i0)),
            decreases t.len() - self.idx(),
        {
            let ghost i = self.idx();
            proof {
                lemma_line_stop(t, i0);
                lemma_line_stop(t, i);
                assert(line_stop(t, i) == line_stop(t, i0));
            }
            let ad = self.lexer.advance();
            proof {
                self.lemma_facts();
            }
            if ad.lex.is_line_end() {
                break;
            }
        }
    }

    /// The diagnostic of `kind` at `ad`, the record at index `j` that was
    /// just consumed. The rest of its line is consumed too.
    fn fail(&mut self, ad: Advance, kind: ParseErrorKind, Ghost(j): Ghost<int>) -> (e: ParseError)
        requires
            old(self).inv(),
            0 <= j < old(self).t().len(),
            ad == old(self).t()[j],
            old(self).idx() == after(old(self).t(), j),
        ensures
            final(self).inv(),
            Self::moved(*old(self), *final(self)),
            final(self).idx() == after(old(self).t(), line_stop(old(self).t(), j)),
            old(self).pos() <= final(self).pos(),
            e.text() == (ErrorText { ad, kind: kind.text() }),
    {
        proof {
            self.lemma_facts();
            lemma_line_stop(self.t(), j);
            assert(is_token_of(self.src.spec_bytes(), self.t()[j]));
        }
        if !ad.lex.is_line_end() {
            proof {
                assert(line_stop(self.t(), j + 1) == line_stop(self.t(), j));
            }
            self.kill_line();
        }
        ParseError { ad, kind }
    }

    /// The diagnostic that `what` was expected at `ad`, the record at index
    /// `j` that was just consumed.
    fn expected(&mut self, ad: Advance, what: Expect, Ghost(j): Ghost<int>) -> (e: ParseError)
        requires
            old(self).inv(),
            0 <= j < old(self).t().len(),
            ad == old(self).t()[j],
            old(self).idx() == after(old(self).t(), j),
        ensures
            final(self).inv(),
            Self::moved(*old(self), *final(self)),
            final(self).idx() == after(old(self).t(), line_stop(old(self).t(), j)),
            old(self).pos() <= final(self).pos(),
            e.text() == (ErrorText { ad, kind: KindText::Expected(expect_text(what)) }),
    {
        self.fail(ad, ParseErrorKind::Expected(describe(what)), Ghost(j))
    }

    /// The symbol of the text that `span` covers.
    fn symbol(&mut self, span: Span) -> (sym: Symbol)
        requires
            old(self).inv(),
            span.fits(old(self).src.spec_bytes()),
            old(self).count() < u32::MAX,
        ensures
            final(self).inv(),
            Self::grew(*old(self), *final(self)),
            final(self).lexer == old(self).lexer,
            final(self).basm.si.has(sym),
            final(self).basm.si.text(sym) == span.of(old(self).src.spec_bytes()),
            final(self).count() <= old(self).count() + 1,
    {
        let ghost before = self.basm.si;
        let s = span.slice(self.src);
        let sym = self.basm.si.get_or_intern(s);
        proof {
            lemma_lines_keep(self.basm.lines@, &before, &self.basm.si);
        }
        sym
    }

    /// Requires that nothing but whitespace is left on the line.
    fn clear_line(&mut self) -> (r: ParseResult<()>)
        requires
            old(self).inv(),
        ensures
            final(self).inv(),
            Self::moved(*old(self), *final(self)),
            final(self).idx() == after(old(self).t(), line_stop(old(self).t(), old(self).idx())),
            old(self).pos() <= final(self).pos(),
            match end_at(old(self).t(), old(self).idx()) {
                None => r is Ok,
                Some(e) => r matches Err(err) && err.text() == e,
            },
    {
        let ghost t = self.t();
        let ghost i0 = self.idx();
        proof {
            self.lemma_facts();
            lemma_skip_ws(t, i0);
            lemma_line_stop(t, i0);
        }
        let ad = self.non_ws();
        if ad.lex.is_line_end() {
            Ok(())
        } else {
            Err(self.expected(ad, Expect::LineEnd, Ghost(skip_ws(t, i0))))
        }
    }

    /// The rest of a bracketed identifier, after its `[`.
    fn after_bracket(&mut self) -> (r: ParseResult<Value>)
        requires
            old(self).inv(),
            old(self).count() + 1 <= old(self).pos(),
        ensures
            final(self).inv(),
            Self::grew(*old(self), *final(self)),
            final(self).count() + 1 <= final(self).pos(),
            match deref_at(old(self).src.spec_bytes(), old(self).t(), old(self).idx()) {
                Parsed::Done(v, k) => r matches Ok(val) && val.valid(&final(self).basm.si) && Some(
                    val.text(&final(self).basm.si),
                ) == v && final(self).idx() == k && old(self).idx() < k <= line_stop(
                    old(self).t(),
                    old(self).idx(),
                ),
                Parsed::Fail(e) => r matches Err(err) && err.text() == e && final(self).idx()
                    == after(old(self).t(), line_stop(old(self).t(), old(self).idx())),
            },
    {
        let ghost s = self.src.spec_bytes();
        let ghost t = self.t();
        let ghost i0 = self.idx();
        let ghost k = skip_ws(t, i0);
        let ghost m = skip_ws(t, k + 1);
        proof {
            self.lemma_facts();
            lemma_skip_ws(t, i0);
            lemma_line_stop(t, i0);
            lemma_token_order(s, i0, k);
        }
        let ident = self.non_ws();
        match ident.lex {
            Lexeme::Ident => {},
            Lexeme::Eol(_) => {
                return Err(self.fail(ident, ParseErrorKind::InputEnd, Ghost(k)));
            },
            Lexeme::Eof => {
                return Err(self.fail(ident, ParseErrorKind::InputEnd, Ghost(k)));
            },
            _ => {
                return Err(self.expected(ident, Expect::Ident, Ghost(k)));
            },
        }
        proof {
            self.lemma_facts();
            lemma_skip_ws(t, k + 1);
            lemma_line_stop(t, k + 1);
            lemma_token_order(s, k + 1, m);
            lemma_token_order(s, i0, m);
            assert(follows(t[k], t[k + 1]));
        }
        let close = self.non_ws();
        match close.lex {
            Lexeme::CloseBracket => {},
            Lexeme::Eol(_) => {
                return Err(self.fail(close, ParseErrorKind::InputEnd, Ghost(m)));
            },
            Lexeme::Eof => {
                return Err(self.fail(close, ParseErrorKind::InputEnd, Ghost(m)));
            },
            _ => {
                return Err(self.expected(close, Expect::CloseBracket, Ghost(m)));
            },
        }
        proof {
            self.lemma_facts();
            assert(follows(t[m], t[m + 1]));
            assert(is_token_of(s, t[m]));
            assert(is_token_of(s, t[k]));
        }
        let sym = self.symbol(ident.span);
        Ok(Value::Deref(sym))
    }

    /// A value, or `None` where the line ends first.
    fn value(&mut self) -> (r: ParseResult<Option<Value>>)
        requires
            old(self).inv(),
            old(self).count() + 1 <= old(self).pos(),
        ensures
            final(self).inv(),
            Self::grew(*old(self), *final(self)),
            final(self).count() + 1 <= final(self).pos(),
            match value_at(old(self).src.spec_bytes(), old(self).t(), old(self).idx()) {
                Parsed::Done(None, k) => r matches Ok(None) && final(self).idx() == k && k == after(
                    old(self).t(),
                    line_stop(old(self).t(), old(self).idx()),
                ),
                Parsed::Done(Some(v), k) => r matches Ok(Some(val)) && val.valid(
                    &final(self).basm.si,
                ) && val.text(&final(self).basm.si) == v && final(self).idx() == k && old(self).idx() < k <= line_stop(old(self).t(), old(self).idx()),
                Parsed::Fail(e) => r matches Err(err) && err.text() == e && final(self).idx()
                    == after(old(self).t(), line_stop(old(self).t(), old(self).idx())),
            },
    {
        let ghost s = self.src.spec_bytes();
        let ghost t = self.t();
        let ghost i0 = self.idx();
        let ghost j = skip_ws(t, i0);
        proof {
            self.lemma_facts();
            lemma_skip_ws(t, i0);
            lemma_line_stop(t, i0);
            lemma_token_order(s, i0, j);
        }
        let ad = self.non_ws();
        proof {
            self.lemma_facts();
            assert(is_token_of(s, t[j]));
            assert(t[j].span.fits(s));
            if j + 1 < t.len() {
                assert(follows(t[j], t[j + 1]));
                lemma_line_stop(t, j + 1);
            }
        }
        match ad.lex {
            Lexeme::Eol(_) => Ok(None),
            Lexeme::Eof => Ok(None),
            Lexeme::Ident => {
                let sym = self.symbol(ad.span);
                Ok(Some(Value::Ident(sym)))
            },
            Lexeme::Str => {
                let bytes = self.src.as_bytes();
                let (_, is_closed) = eat_string(bytes, ad.span.from as usize + 1);
                if is_closed {
                    proof {
                        lemma_scan_bounds(s, ad.span.from as int);
                        lemma_str_end_boundary(s, ad.span.from + 1);
                        crate::boundary::lemma_ascii_boundary(s, ad.span.from as int);
                    }
                    let body = Span::new(ad.span.from + 1, ad.span.to - 1);
                    let sym = self.symbol(body);
                    Ok(Some(Value::String(sym)))
                } else {
                    Err(self.fail(ad, ParseErrorKind::InputEnd, Ghost(j)))
                }
            },
            Lexeme::Digit(base) => {
                let bytes = self.src.as_bytes();
                match parse_literal(bytes, ad.span.from as usize, ad.span.to as usize, base) {
                    Ok(n) => Ok(Some(Value::Digit(base, n))),
                    Err(e) => Err(self.fail(ad, ParseErrorKind::ParseIntError(e), Ghost(j))),
                }
            },
            Lexeme::OpenBracket => {
                proof {
                    lemma_skip_ws(t, j + 1);
                    lemma_token_order(s, i0, j + 1);
                }
                match self.after_bracket() {
                    Ok(v) => Ok(Some(v)),
                    Err(e) => Err(e),
                }
            },
            _ => Err(self.expected(ad, Expect::Value, Ghost(j))),
        }
    }

    /// The values that follow `first`, each after a comma, up to the line
    /// end.
    #[verifier::loop_isolation(false)]
    fn values(&mut self, first: Value) -> (r: ParseResult<Vec<Value>>)
        requires
            old(self).inv(),
            old(self).count() + 1 <= old(self).pos(),
            first.valid(&old(self).basm.si),
        ensures
            final(self).inv(),
            Self::grew(*old(self), *final(self)),
            final(self).count() + 1 <= final(self).pos(),
            final(self).idx() == after(old(self).t(), line_stop(old(self).t(), old(self).idx())),
            match values_at(
                old(self).src.spec_bytes(),
                old(self).t(),
                old(self).idx(),
                seq![first.text(&old(self).basm.si)],
            ) {
                Parsed::Done(vs, _) => r matches Ok(vals) && values_valid(
                    vals@,
                    &final(self).basm.si,
                ) && values_text(vals@, &final(self).basm.si) == vs,
                Parsed::Fail(e) => r matches Err(err) && err.text() == e,
            },
    {
        let ghost s = self.src.spec_bytes();
        let ghost t = self.t();
        let ghost i0 = self.idx();
        let ghost stop = line_stop(t, i0);
        let ghost goal = values_at(s, t, i0, seq![first.text(&self.basm.si)]);
        let mut values: Vec<Value> = Vec::new();
        values.push(first);
        proof {
            self.lemma_facts();
            lemma_line_stop(t, i0);
            assert(values_text(values@, &self.basm.si) =~= seq![first.text(&self.basm.si)]);
        }
        loop
            invariant
                self.inv(),
                Self::grew(*old(self), *self),
                s == self.src.spec_bytes(),
                t == self.t(),
                closed(t),
                self.count() + 1 <= self.pos(),
                i0 <= self.idx() <= stop,
                stop == line_stop(t, i0),
                values_valid(values@, &self.basm.si),
                values_at(s, t, self.idx(), values_text(values@, &self.basm.si)) == goal,
            decreases t.len() - self.idx(),
        {
            let ghost i = self.idx();
            let ghost j = skip_ws(t, i);
            let ghost acc = values_text(values@, &self.basm.si);
            let ghost table = self.basm.si;
            proof {
                self.lemma_facts();
                lemma_skip_ws(t, i);
                lemma_line_stop(t, i0);
                lemma_line_stop(t, i);
                lemma_token_order(s, i, j);
            }
            let ad = self.non_ws();
            proof {
                self.lemma_facts();
                if j + 1 < t.len() {
                    lemma_line_stop(t, j + 1);
                }
            }
            match ad.lex {
                Lexeme::Comma => {},
                Lexeme::Eol(_) => {
                    return Ok(values);
                },
                Lexeme::Eof => {
                    return Ok(values);
                },
                _ => {
                    return Err(self.expected(ad, Expect::Comma, Ghost(j)));
                },
            }
            match self.value() {
                Err(e) => {
                    return Err(e);
                },
                Ok(None) => {
                    proof {
                        lemma_values_keep(values@, &table, &self.basm.si);
                    }
                    return Ok(values);
                },
                Ok(Some(value)) => {
                    proof {
                        lemma_values_keep(values@, &table, &self.basm.si);
                    }
                    values.push(value);
                    proof {
                        assert(values_text(values@, &self.basm.si) =~= acc.push(
                            value.text(&self.basm.si),
                        ));
                    }
                },
            }
        }
    }

    /// The name of a `section` or `global` line, after its keyword.
    fn named(&mut self) -> (r: ParseResult<Symbol>)
        requires
            old(self).inv(),
            old(self).count() + 1 <= old(self).pos(),
        ensures
            final(self).inv(),
            Self::grew(*old(self), *final(self)),
            final(self).count() <= final(self).pos(),
            final(self).idx() == after(old(self).t(), line_stop(old(self).t(), old(self).idx())),
            match named_at(old(self).src.spec_bytes(), old(self).t(), old(self).idx()) {
                Ok(name) => r matches Ok(sym) && final(self).basm.si.has(sym) && final(self).basm.si.text(sym) == name,
                Err(e) => r matches Err(err) && err.text() == e,
            },
    {
        let ghost s = self.src.spec_bytes();
        let ghost t = self.t();
        let ghost i0 = self.idx();
        let ghost j = skip_ws(t, i0);
        proof {
            self.lemma_facts();
            lemma_skip_ws(t, i0);
            lemma_line_stop(t, i0);
        }
        let ad = self.non_ws();
        proof {
            self.lemma_facts();
            if j + 1 < t.len() {
                lemma_line_stop(t, j + 1);
            }
        }
        match ad.lex {
            Lexeme::Ident => {},
            Lexeme::Eol(_) => {
                return Err(self.fail(ad, ParseErrorKind::InputEnd, Ghost(j)));
            },
            Lexeme::Eof => {
                return Err(self.fail(ad, ParseErrorKind::InputEnd, Ghost(j)));
            },
            _ => {
                return Err(self.expected(ad, Expect::Ident, Ghost(j)));
            },
        }
        match self.clear_line() {
            Err(e) => {
                return Err(e);
            },
            Ok(_) => {},
        }
        proof {
            self.lemma_facts();
        }
        let sym = self.symbol(ad.span);
        Ok(sym)
    }

    /// The rest of a label, after its colon. `first` is the record of its
    /// name, at index `i`.
    fn label(&mut self, first: Advance, Ghost(i): Ghost<int>) -> (r: ParseResult<Line>)
        requires
            old(self).inv(),
            0 <= i < old(self).idx(),
            first == old(self).t()[i],
            first.lex is Ident,
            old(self).count() + 1 <= old(self).pos(),
        ensures
            final(self).inv(),
            Self::grew(*old(self), *final(self)),
            final(self).count() <= final(self).pos(),
            final(self).idx() == after(old(self).t(), line_stop(old(self).t(), old(self).idx())),
            match label_at(
                old(self).t(),
                first.span.of(old(self).src.spec_bytes()),
                old(self).idx(),
            ) {
                Ok(l) => r matches Ok(line) && line.valid(&final(self).basm.si) && line.text(
                    &final(self).basm.si,
                ) == l,
                Err(e) => r matches Err(err) && err.text() == e,
            },
    {
        proof {
            self.lemma_facts();
        }
        match self.clear_line() {
            Err(e) => {
                return Err(e);
            },
            Ok(_) => {},
        }
        proof {
            self.lemma_facts();
        }
        let name = self.symbol(first.span);
        Ok(Line::Label { name })
    }

    /// The instruction `first` with the values from `value` on. `first` is
    /// the record at index `i`.
    fn instruction(&mut self, first: Advance, value: Value, Ghost(i): Ghost<int>) -> (r:
        ParseResult<Line>)
        requires
            old(self).inv(),
            0 <= i < old(self).idx(),
            first == old(self).t()[i],
            first.lex is Ident,
            old(self).count() + 1 <= old(self).pos(),
            value.valid(&old(self).basm.si),
        ensures
            final(self).inv(),
            Self::grew(*old(self), *final(self)),
            final(self).count() <= final(self).pos(),
            final(self).idx() == after(old(self).t(), line_stop(old(self).t(), old(self).idx())),
            match instruction(
                first.span.of(old(self).src.spec_bytes()),
                values_at(
                    old(self).src.spec_bytes(),
                    old(self).t(),
                    old(self).idx(),
                    seq![value.text(&old(self).basm.si)],
                ),
            ) {
                Ok(l) => r matches Ok(line) && line.valid(&final(self).basm.si) && line.text(
                    &final(self).basm.si,
                ) == l,
                Err(e) => r matches Err(err) && err.text() == e,
            },
    {
        proof {
            self.lemma_facts();
        }
        let values = match self.values(value) {
            Err(e) => {
                return Err(e);
            },
            Ok(values) => values,
        };
        proof {
            self.lemma_facts();
        }
        let ghost table = self.basm.si;
        let ins = self.symbol(first.span);
        proof {
            lemma_values_keep(values@, &table, &self.basm.si);
        }
        Ok(Line::Instruction { ins, values })
    }

    /// The variable `first` of directive `ty`, with its values. `first` is
    /// the record at index `i`.
    fn variable(&mut self, first: Advance, ty: Symbol, Ghost(i): Ghost<int>) -> (r: ParseResult<
        Line,
    >)
        requires
            old(self).inv(),
            0 <= i < old(self).idx(),
            first == old(self).t()[i],
            first.lex is Ident,
            old(self).count() + 1 <= old(self).pos(),
            old(self).basm.si.has(ty),
            !old(self).t()[skip_ws(old(self).t(), old(self).idx())].lex.ends_line(),
        ensures
            final(self).inv(),
            Self::grew(*old(self), *final(self)),
            final(self).count() <= final(self).pos(),
            final(self).idx() == after(old(self).t(), line_stop(old(self).t(), old(self).idx())),
            match value_at(old(self).src.spec_bytes(), old(self).t(), old(self).idx()) {
                Parsed::Fail(e) => r matches Err(err) && err.text() == e,
                Parsed::Done(None, _) => false,
                Parsed::Done(Some(w), m) => match variable(
                    first.span.of(old(self).src.spec_bytes()),
                    old(self).basm.si.text(ty),
                    values_at(old(self).src.spec_bytes(), old(self).t(), m, seq![w]),
                ) {
                    Ok(l) => r matches Ok(line) && line.valid(&final(self).basm.si) && line.text(
                        &final(self).basm.si,
                    ) == l,
                    Err(e) => r matches Err(err) && err.text() == e,
                },
            },
    {
        let ghost t = self.t();
        let ghost i0 = self.idx();
        let ghost table1 = self.basm.si;
        proof {
            self.lemma_facts();
            lemma_line_stop(t, i0);
            lemma_skip_ws(t, i0);
        }
        let value = match self.value() {
            Err(e) => {
                return Err(e);
            },
            Ok(None) => {
                proof {
                    assert(false);
                }
                return Ok(Line::NoOp);
            },
            Ok(Some(w)) => w,
        };
        proof {
            self.lemma_facts();
            lemma_line_stop(t, self.idx());
        }
        let values = match self.values(value) {
            Err(e) => {
                return Err(e);
            },
            Ok(values) => values,
        };
        proof {
            self.lemma_facts();
        }
        let ghost table3 = self.basm.si;
        let name = self.symbol(first.span);
        proof {
            lemma_values_keep(values@, &table3, &self.basm.si);
            crate::interner::lemma_extension_keeps(&table1, &self.basm.si, ty);
        }
        Ok(Line::Variable { name, ty, values })
    }

    /// An instruction or a variable, after its first value. `first` is the
    /// record of its first identifier, at index `i`.
    fn ins_or_var(&mut self, first: Advance, value: Value, Ghost(i): Ghost<int>) -> (r:
        ParseResult<Line>)
        requires
            old(self).inv(),
            0 <= i < old(self).idx(),
            first == old(self).t()[i],
            first.lex is Ident,
            old(self).count() + 1 <= old(self).pos(),
            value.valid(&old(self).basm.si),
        ensures
            final(self).inv(),
            Self::grew(*old(self), *final(self)),
            final(self).count() <= final(self).pos(),
            final(self).idx() == after(old(self).t(), line_stop(old(self).t(), old(self).idx())),
            match rest_at(
                old(self).src.spec_bytes(),
                old(self).t(),
                first.span.of(old(self).src.spec_bytes()),
                value.text(&old(self).basm.si),
                old(self).idx(),
            ) {
                Ok(l) => r matches Ok(line) && line.valid(&final(self).basm.si) && line.text(
                    &final(self).basm.si,
                ) == l,
                Err(e) => r matches Err(err) && err.text() == e,
            },
    {
        let ghost s = self.src.spec_bytes();
        let ghost t = self.t();
        let ghost k = self.idx();
        let ghost p = skip_ws(t, k);
        proof {
            self.lemma_facts();
            lemma_line_stop(t, k);
            lemma_skip_ws(t, k);
            lemma_token_order(s, k, p);
            lemma_line_stop(t, p);
            assert(skip_ws(t, p) == p);
        }
        let directive: Option<Symbol> = match value {
            Value::Ident(sym) => {
                let next = self.peek_non_ws();
                match next.lex {
                    Lexeme::Comma => None,
                    Lexeme::Eol(_) => None,
                    Lexeme::Eof => None,
                    _ => Some(sym),
                }
            },
            _ => None,
        };
        proof {
            self.lemma_facts();
            assert(skip_ws(t, self.idx()) == p);
        }
        match directive {
            Some(ty) => self.variable(first, ty, Ghost(i)),
            None => self.instruction(first, value, Ghost(i)),
        }
    }

    /// A label, an instruction or a variable, after its first identifier,
    /// which is `first`, the record at index `i`.
    fn parse_line(&mut self, first: Advance, Ghost(i): Ghost<int>) -> (r: ParseResult<Line>)
        requires
            old(self).inv(),
            0 <= i < old(self).t().len(),
            first == old(self).t()[i],
            first.lex is Ident,
            old(self).idx() == i + 1,
            old(self).count() + 1 <= old(self).pos(),
        ensures
            final(self).inv(),
            Self::grew(*old(self), *final(self)),
            final(self).count() <= final(self).pos(),
            final(self).idx() == after(old(self).t(), line_stop(old(self).t(), i)),
            match statement_at(old(self).src.spec_bytes(), old(self).t(), i) {
                Ok(l) => r matches Ok(line) && line.valid(&final(self).basm.si) && line.text(
                    &final(self).basm.si,
                ) == l,
                Err(e) => r matches Err(err) && err.text() == e,
            },
    {
        let ghost s = self.src.spec_bytes();
        let ghost t = self.t();
        let ghost j = skip_ws(t, i + 1);
        proof {
            self.lemma_facts();
            lemma_line_stop(t, i);
            lemma_skip_ws(t, i + 1);
            lemma_line_stop(t, i + 1);
            lemma_token_order(s, i + 1, j);
        }
        let second = self.peek_non_ws();
        proof {
            self.lemma_facts();
            assert(skip_ws(t, j) == j);
        }
        if let Lexeme::Colon = second.lex {
            self.lexer.pop_peek();
            proof {
                self.lemma_facts();
                lemma_line_stop(t, j + 1);
                lemma_token_order(s, j, j + 1);
            }
            return self.label(first, Ghost(i));
        }
        match self.value() {
            Err(e) => Err(e),
            Ok(None) => {
                proof {
                    self.lemma_facts();
                }
                let ins = self.symbol(first.span);
                let values: Vec<Value> = Vec::new();
                proof {
                    assert(values_text(values@, &self.basm.si) =~= Seq::<ValueText>::empty());
                }
                Ok(Line::Instruction { ins, values })
            },
            Ok(Some(value)) => {
                proof {
                    self.lemma_facts();
                    lemma_line_stop(t, self.idx());
                }
                self.ins_or_var(first, value, Ghost(i))
            },
        }
    }

    /// The line whose first record that is not whitespace is `first`, the
    /// record at index `i`, which was just consumed.
    fn line(&mut self, first: Advance, Ghost(i): Ghost<int>) -> (r: ParseResult<Line>)
        requires
            old(self).inv(),
            0 <= i < old(self).t().len(),
            first == old(self).t()[i],
            !(first.lex is Eof),
            old(self).idx() == i + 1,
            old(self).count() <= first.span.from,
        ensures
            final(self).inv(),
            Self::grew(*old(self), *final(self)),
            final(self).count() <= final(self).pos(),
            final(self).idx() == after(old(self).t(), line_stop(old(self).t(), i)),
            match line_at(old(self).src.spec_bytes(), old(self).t(), i) {
                Ok(l) => r matches Ok(line) && line.valid(&final(self).basm.si) && line.text(
                    &final(self).basm.si,
                ) == l,
                Err(e) => r matches Err(err) && err.text() == e,
            },
    {
        let ghost s = self.src.spec_bytes();
        let ghost t = self.t();
        proof {
            self.lemma_facts();
            lemma_line_stop(t, i);
            lemma_line_stop(t, i + 1);
            assert(follows(t[i], t[i + 1]));
            assert(is_token_of(s, t[i]));
        }
        match first.lex {
            Lexeme::Eol(_) => Ok(Line::NoOp),
            Lexeme::Ident => {
                let bytes = self.src.as_bytes();
                let from = first.span.from as usize;
                let to = first.span.to as usize;
                if is_section_word(bytes, from, to) {
                    match self.named() {
                        Ok(name) => Ok(Line::Section { name }),
                        Err(e) => Err(e),
                    }
                } else if is_global_word(bytes, from, to) {
                    match self.named() {
                        Ok(name) => Ok(Line::Global { name }),
                        Err(e) => Err(e),
                    }
                } else {
                    self.parse_line(first, Ghost(i))
                }
            },
            _ => Err(self.expected(first, Expect::LineStart, Ghost(i))),
        }
    }

    /// The address of the first line that defines the label `name`.
    fn find_label(&self, name: Symbol) -> (r: Option<usize>)
        requires
            self.basm.wf(),
            self.basm.si.has(name),
        ensures
            match r {
                Some(k) => first_label(self.basm.text(), self.basm.si.text(name)) == Some(
                    k as int,
                ),
                None => first_label(self.basm.text(), self.basm.si.text(name)) is None,
            },
    {
        let ghost text = self.basm.text();
        let ghost target = self.basm.si.text(name);
        let n = self.basm.lines.len();
        let mut k: usize = 0;
        proof {
            assert(text.take(0) =~= Seq::<LineText>::empty());
        }
        while k < n
            invariant
                self.basm.wf(),
                self.basm.si.has(name),
                text == self.basm.text(),
                target == self.basm.si.text(name),
                n == self.basm.lines@.len(),
                0 <= k <= n,
                first_label(text.take(k as int), target) is None,
            decreases n - k,
        {
            let ghost head = text.take(k as int + 1);
            proof {
                assert(head.drop_last() =~= text.take(k as int));
                assert(head.last() == self.basm.lines@[k as int].text(&self.basm.si));
                assert(self.basm.lines@[k as int].valid(&self.basm.si));
            }
            let found = match &self.basm.lines[k] {
                Line::Label { name: other } => {
                    proof {
                        lemma_symbol_identity(&self.basm.si, *other, name);
                    }
                    other.index == name.index
                },
                _ => false,
            };
            if found {
                proof {
                    assert(first_label(head, target) == Some(k as int));
                    lemma_first_label_stays(text, target, k as int + 1);
                }
                return Some(k);
            }
            k += 1;
        }
        proof {
            assert(text.take(n as int) =~= text);
        }
        None
    }

    /// Adds the outcome of a line to the program: the line, or `NoOp` and
    /// a diagnostic where it failed or defines a known label.
    fn push_outcome(&mut self, first: Advance, r: ParseResult<Line>)
        requires
            old(self).inv(),
            first.offset <= first.span.from <= first.span.to,
            r matches Ok(line) ==> line.valid(&old(self).basm.si),
        ensures
            final(self).inv(),
            final(self).src == old(self).src,
            final(self).lexer == old(self).lexer,
            final(self).basm.si == old(self).basm.si,
            final(self).acc() == add_line(
                old(self).acc(),
                settle(
                    old(self).acc().lines,
                    first,
                    match r {
                        Ok(line) => Ok(line.text(&old(self).basm.si)),
                        Err(e) => Err(e.text()),
                    },
                ),
            ),
    {
        let ghost lines = self.basm.lines@;
        let ghost errors = self.errors@;
        let ghost before = self.acc();
        match r {
            Err(e) => {
                let ghost text = e.text();
                self.basm.lines.push(Line::NoOp);
                self.errors.push(e);
                proof {
                    assert(lines_text(self.basm.lines@, &self.basm.si) =~= lines_text(
                        lines,
                        &self.basm.si,
                    ).push(LineText::NoOp));
                    assert(errors_text(self.errors@) =~= errors_text(errors).push(text));
                    assert(settle(before.lines, first, Err(text)) == (LineText::NoOp, Some(text)));
                    assert(self.acc() == add_line(before, (LineText::NoOp, Some(text))));
                }
            },
            Ok(Line::Label { name }) => {
                match self.find_label(name) {
                    Some(a) => {
                        let address: u16 = if a > 0xFFFF {
                            0xFFFF
                        } else {
                            a as u16
                        };
                        let text = match self.basm.si.resolve(name) {
                            Some(text) => text.to_owned(),
                            None => String::new(),
                        };
                        let e = ParseError {
                            ad: first,
                            kind: ParseErrorKind::DuplicateLabel(text, address),
                        };
                        self.basm.lines.push(Line::NoOp);
                        self.errors.push(e);
                        proof {
                            assert(lines_text(self.basm.lines@, &self.basm.si) =~= lines_text(
                                lines,
                                &self.basm.si,
                            ).push(LineText::NoOp));
                            assert(errors_text(self.errors@) =~= errors_text(errors).push(
                                e.text(),
                            ));
                            assert(first_label(before.lines, self.basm.si.text(name)) == Some(
                                a as int,
                            ));
                            assert(e.text().kind == KindText::DuplicateLabel(
                                self.basm.si.text(name),
                                address_of(a as int),
                            ));
                            assert(self.acc() == add_line(
                                before,
                                (LineText::NoOp, Some(e.text())),
                            ));
                        }
                    },
                    None => {
                        self.basm.lines.push(Line::Label { name });
                        proof {
                            assert(lines_text(self.basm.lines@, &self.basm.si) =~= lines_text(
                                lines,
                                &self.basm.si,
                            ).push(LineText::Label { name: self.basm.si.text(name) }));
                            assert(errors_text(self.errors@) =~= errors_text(errors));
                            assert(self.acc() == add_line(
                                before,
                                (LineText::Label { name: self.basm.si.text(name) }, None),
                            ));
                        }
                    },
                }
            },
            Ok(line) => {
                let ghost text = line.text(&self.basm.si);
                self.basm.lines.push(line);
                proof {
                    assert(lines_text(self.basm.lines@, &self.basm.si) =~= lines_text(
                        lines,
                        &self.basm.si,
                    ).push(text));
                    assert(errors_text(self.errors@) =~= errors_text(errors));
                    assert(!(text is Label));
                    assert(settle(before.lines, first, Ok(text)) == (text, None::<ErrorText>));
                    assert(self.acc() == add_line(before, (text, None)));
                }
            },
        }
    }

    /// Parses the whole text.
    fn parse_inner(&mut self)
        requires
            old(self).fresh(),
        ensures
            final(self).inv(),
            final(self).src == old(self).src,
            final(self).acc() == parse_text(old(self).src.spec_bytes()),
            final(self).lexer.lexed() == old(self).t().len(),
    {
        let ghost s = self.src.spec_bytes();
        let ghost t = self.t();
        proof {
            self.lemma_facts();
            assert(self.acc().lines =~= Seq::<LineText>::empty());
            assert(self.acc().errors =~= Seq::<ErrorText>::empty());
        }
        loop
            invariant_except_break
                self.count() <= self.pos(),
                parse_from(s, t, self.idx(), self.acc()) == parse_text(s),
            invariant
                self.inv(),
                self.src == old(self).src,
                s == self.src.spec_bytes(),
                t == self.t(),
            ensures
                self.acc() == parse_text(s),
                self.lexer.lexed() == t.len(),
            decreases t.len() - self.idx(),
        {
            let ghost i = self.idx();
            let ghost acc = self.acc();
            proof {
                self.lemma_facts();
                lemma_skip_ws(t, i);
                lemma_line_stop(t, i);
            }
            let ad = self.lexer.advance();
            proof {
                self.lemma_facts();
                lemma_token_order(s, i, self.idx());
            }
            match ad.lex {
                Lexeme::Whitespace => {
                    proof {
                        lemma_skip_ws(t, i + 1);
                        lemma_line_stop(t, skip_ws(t, i));
                    }
                },
                Lexeme::Eof => {
                    break;
                },
                _ => {
                    let ghost table = self.basm.si;
                    let r = self.line(ad, Ghost(i));
                    proof {
                        lemma_lines_keep(self.basm.lines@, &table, &self.basm.si);
                        assert(self.acc() == acc);
                    }
                    self.push_outcome(ad, r);
                    proof {
                        self.lemma_facts();
                    }
                },
            }
        }
    }
}

/// Once a label is found among the first `k` lines, it is the first among
/// all the lines.
proof fn lemma_first_label_stays(lines: Seq<LineText>, name: Seq<u8>, k: int)
    requires
        0 <= k <= lines.len(),
        first_label(lines.take(k), name) is Some,
    ensures
        first_label(lines, name) == first_label(lines.take(k), name),
    decreases lines.len() - k,
{
    if k < lines.len() {
        assert(lines.take(k + 1).drop_last() =~= lines.take(k));
        lemma_first_label_stays(lines, name, k + 1);
    } else {
        assert(lines.take(k) =~= lines);
    }
}

impl<'a> Parser<'a, Lexer<'a>> {
    /// A parser over a base lexer.
    pub fn base(src: &'a str) -> (parser: Self)
        requires
            src.spec_bytes().len() <= u32::MAX,
        ensures
            parser.fresh(),
            parser.source() == src.spec_bytes(),
    {
        Parser { src, lexer: Lexer::new(src), basm: Basm::new(), errors: Vec::new() }
    }

    /// The program and the diagnostics of the text.
    pub fn parse(self) -> (r: (Basm, Vec<ParseError>))
        requires
            self.fresh(),
        ensures
            r.0.wf(),
            r.0.text() == parse_text(self.source()).lines,
            errors_text(r.1@) == parse_text(self.source()).errors,
    {
        let mut parser = self;
        parser.parse_inner();
        (parser.basm, parser.errors)
    }
}

impl<'a> Parser<'a, RecordedLexer<'a>> {
    /// A parser over a recorded lexer.
    pub fn recorded(src: &'a str) -> (parser: Self)
        requires
            src.spec_bytes().len() <= u32::MAX,
        ensures
            parser.fresh(),
            parser.source() == src.spec_bytes(),
    {
        Parser { src, lexer: RecordedLexer::new(src), basm: Basm::new(), errors: Vec::new() }
    }

    /// The program and the diagnostics of the text, and all its records.
    pub fn parse(self) -> (r: (Basm, Vec<ParseError>, Vec<Advance>))
        requires
            self.fresh(),
        ensures
            r.0.wf(),
            r.0.text() == parse_text(self.source()).lines,
            errors_text(r.1@) == parse_text(self.source()).errors,
            r.2@ == tokens(self.source()),
    {
        let mut parser = self;
        parser.parse_inner();
        proof {
            let t = tokens(parser.src.spec_bytes());
            assert(t.take(t.len() as int) =~= t);
        }
        let (_, log) = parser.lexer.parts();
        (parser.basm, parser.errors, log)
    }
}

} // verus!
