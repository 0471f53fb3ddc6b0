//! Semantic highlighting: the class of each record that an editor colours,
//! in the delta encoding of the language server protocol.
//!
//! A token is placed relative to the token before it: by how many lines it
//! lies further down and, on the same line, by how many bytes its start lies
//! further right; on a new line its start is its column.

use vstd::prelude::*;
use vstd::string::StringSliceAdditionalSpecFns;

use crate::grammar::global_word;
use crate::ir::{Basm, Line};
use crate::lexeme::{Advance, Lexeme};
use crate::order::{lemma_records_ok, records_ok};
use crate::tokens::{follows, is_token_of, tokens};

verus! {

/// The classes of tokens, in the order of the legend that the server
/// announces.
#[derive(Debug, Clone, Copy, PartialEq, Eq, Structural)]
pub enum TokenKind {
    Namespace,
    Type,
    Class,
    Enum,
    Interface,
    Struct,
    TypeParameter,
    Parameter,
    Variable,
    Property,
    EnumMember,
    Event,
    Function,
    Method,
    Macro,
    Keyword,
    Modifier,
    Comment,
    String,
    Number,
    Regexp,
    Operator,
    Decorator,
}

impl TokenKind {
    pub open spec fn spec_index(self) -> u32 {
        match self {
            TokenKind::Namespace => 0,
            TokenKind::Type => 1,
            TokenKind::Class => 2,
            TokenKind::Enum => 3,
            TokenKind::Interface => 4,
            TokenKind::Struct => 5,
            TokenKind::TypeParameter => 6,
            TokenKind::Parameter => 7,
            TokenKind::Variable => 8,
            TokenKind::Property => 9,
            TokenKind::EnumMember => 10,
            TokenKind::Event => 11,
            TokenKind::Function => 12,
            TokenKind::Method => 13,
            TokenKind::Macro => 14,
            TokenKind::Keyword => 15,
            TokenKind::Modifier => 16,
            TokenKind::Comment => 17,
            TokenKind::String => 18,
            TokenKind::Number => 19,
            TokenKind::Regexp => 20,
            TokenKind::Operator => 21,
            TokenKind::Decorator => 22,
        }
    }

    /// The index of the class in the legend.
    pub fn index(self) -> (i: u32)
        ensures
            i == self.spec_index(),
    {
        match self {
            TokenKind::Namespace => 0,
            TokenKind::Type => 1,
            TokenKind::Class => 2,
            TokenKind::Enum => 3,
            TokenKind::Interface => 4,
            TokenKind::Struct => 5,
            TokenKind::TypeParameter => 6,
            TokenKind::Parameter => 7,
            TokenKind::Variable => 8,
            TokenKind::Property => 9,
            TokenKind::EnumMember => 10,
            TokenKind::Event => 11,
            TokenKind::Function => 12,
            TokenKind::Method => 13,
            TokenKind::Macro => 14,
            TokenKind::Keyword => 15,
            TokenKind::Modifier => 16,
            TokenKind::Comment => 17,
            TokenKind::String => 18,
            TokenKind::Number => 19,
            TokenKind::Regexp => 20,
            TokenKind::Operator => 21,
            TokenKind::Decorator => 22,
        }
    }
}

/// One highlighted token in delta encoding.
#[derive(Debug, Clone, Copy, PartialEq, Eq, Structural)]
pub struct SemanticToken {
    pub delta_line: u32,
    pub delta_start: u32,
    pub length: u32,
    pub token_type: u32,
    pub token_modifiers_bitset: u32,
}

/// The bytes spell a keyword of the dialect, which is `global` alone.
pub open spec fn spec_is_keyword(word: Seq<u8>) -> bool {
    word == global_word()
}

/// Whether `s` is a keyword of the dialect.
pub fn is_keyword(s: &str) -> (b: bool)
    ensures
        b == spec_is_keyword(s.spec_bytes()),
{
    let bytes = s.as_bytes();
    assert(bytes@.subrange(0, bytes@.len() as int) =~= bytes@);
    bytes_are_keyword(bytes, 0, bytes.len())
}

fn bytes_are_keyword(bytes: &[u8], from: usize, to: usize) -> (b: bool)
    requires
        from <= to <= bytes.len(),
    ensures
        b == spec_is_keyword(bytes@.subrange(from as int, to as int)),
{
    let ghost word = bytes@.subrange(from as int, to as int);
    if to - from != 6 {
        assert(global_word().len() == 6);
        return false;
    }
    let b = bytes[from] == 0x67 && bytes[from + 1] == 0x6C && bytes[from + 2] == 0x6F && bytes[from
        + 3] == 0x62 && bytes[from + 4] == 0x61 && bytes[from + 5] == 0x6C;
    proof {
        if b {
            assert(word =~= global_word());
        } else {
            assert(word[0] == bytes[from as int]);
            assert(word[1] == bytes[from + 1]);
            assert(word[2] == bytes[from + 2]);
            assert(word[3] == bytes[from + 3]);
            assert(word[4] == bytes[from + 4]);
            assert(word[5] == bytes[from + 5]);
        }
    }
    b
}

/// The line at address `line` is a variable.
pub open spec fn is_variable_line(lines: Seq<Line>, line: u32) -> bool {
    line < lines.len() && lines[line as int] is Variable
}

/// The class of the record `ad`, before which `li` records of its line
/// were classed; `None` for a record that is not highlighted.
pub open spec fn class_of(s: Seq<u8>, lines: Seq<Line>, ad: Advance, li: nat) -> Option<TokenKind> {
    match ad.lex {
        Lexeme::Ident => if spec_is_keyword(ad.span.of(s)) {
            Some(TokenKind::Keyword)
        } else if li == 0 {
            Some(TokenKind::Function)
        } else if li == 1 && is_variable_line(lines, ad.line) {
            Some(TokenKind::Type)
        } else {
            Some(TokenKind::Variable)
        },
        Lexeme::Str => Some(TokenKind::String),
        Lexeme::Colon => Some(TokenKind::Operator),
        Lexeme::OpenBracket => Some(TokenKind::Operator),
        Lexeme::CloseBracket => Some(TokenKind::Operator),
        Lexeme::Digit(_) => Some(TokenKind::Number),
        Lexeme::Eol(true) => Some(TokenKind::Comment),
        _ => None,
    }
}

/// The token of the record `ad` of class `kind`, placed after a token that
/// starts at `prev_start` on line `prev_line`.
pub open spec fn delta_token(ad: Advance, kind: TokenKind, prev_line: u32, prev_start: u32) -> SemanticToken {
    SemanticToken {
        delta_line: (ad.line - prev_line) as u32,
        delta_start: if prev_line == ad.line {
            (ad.span.from - prev_start) as u32
        } else {
            (ad.span.from - ad.offset) as u32
        },
        length: (ad.span.to - ad.span.from) as u32,
        token_type: kind.spec_index(),
        token_modifiers_bitset: 0,
    }
}

/// The state of the encoder before the record at index `n`: the tokens so
/// far, the line and the start of the last of them, and the number of
/// records classed on the current line.
pub struct Encoding {
    pub out: Seq<SemanticToken>,
    pub prev_line: u32,
    pub prev_start: u32,
    pub li: nat,
}

/// The encoding of the first `n` records.
pub open spec fn encoding(s: Seq<u8>, lines: Seq<Line>, lex: Seq<Advance>, n: int) -> Encoding
    decreases n,
{
    if n <= 0 {
        Encoding { out: Seq::empty(), prev_line: 0, prev_start: 0, li: 0 }
    } else {
        let before = encoding(s, lines, lex, n - 1);
        let ad = lex[n - 1];
        let li = if ad.lex is Eol {
            0
        } else {
            before.li
        };
        match class_of(s, lines, ad, li) {
            None => Encoding { li, ..before },
            Some(kind) => Encoding {
                out: before.out.push(delta_token(ad, kind, before.prev_line, before.prev_start)),
                prev_line: ad.line,
                prev_start: ad.span.from,
                li: if kind == TokenKind::Comment {
                    li
                } else {
                    li + 1
                },
            },
        }
    }
}

struct Tokenizer {
    inner: Vec<SemanticToken>,
    prev_line: u32,
    prev_end: u32,
}

impl Tokenizer {
    /// Adds the token of the record `ad` of class `kind`.
    fn push(&mut self, ad: Advance, kind: TokenKind)
        requires
            old(self).prev_line <= ad.line,
            ad.offset <= ad.span.from <= ad.span.to,
            old(self).prev_line == ad.line ==> old(self).prev_end <= ad.span.from,
        ensures
            final(self).inner@ == old(self).inner@.push(
                delta_token(ad, kind, old(self).prev_line, old(self).prev_end),
            ),
            final(self).prev_line == ad.line,
            final(self).prev_end == ad.span.from,
    {
        let span = ad.span;
        let line = ad.line;
        let start = if self.prev_line == line {
            span.from - self.prev_end
        } else {
            span.from - ad.offset
        };
        self.inner.push(
            SemanticToken {
                delta_line: line - self.prev_line,
                delta_start: start,
                length: span.to - span.from,
                token_type: kind.index(),
                token_modifiers_bitset: 0,
            },
        );
        self.prev_end = span.from;
        self.prev_line = line;
    }
}

/// The highlighted tokens of `src`, from its records `lex` and its
/// program.
pub fn semantic_tokens(src: &str, lex: &[Advance], basm: &Basm) -> (out: Vec<SemanticToken>)
    requires
        src.spec_bytes().len() <= u32::MAX,
        lex@ == tokens(src.spec_bytes()),
    ensures
        out@ == encoding(src.spec_bytes(), basm.lines@, lex@, lex@.len() as int).out,
{
    let ghost s = src.spec_bytes();
    let ghost t = lex@;
    let bytes = src.as_bytes();
    let mut data = Tokenizer { inner: Vec::new(), prev_line: 0, prev_end: 0 };
    let mut li: usize = 0;
    let mut i: usize = 0;
    proof {
        lemma_records_ok(s);
    }
    while i < lex.len()
        invariant
            0 <= i <= t.len(),
            t == lex@,
            s == src.spec_bytes(),
            bytes@ == s,
            records_ok(s, t),
            li <= i,
            data.inner@ == encoding(s, basm.lines@, t, i as int).out,
            data.prev_line == encoding(s, basm.lines@, t, i as int).prev_line,
            data.prev_end == encoding(s, basm.lines@, t, i as int).prev_start,
            li == encoding(s, basm.lines@, t, i as int).li,
            i > 0 ==> data.prev_line <= t[i - 1].line && data.prev_end <= t[i - 1].span.from,
            i == 0 ==> data.prev_line == 0 && data.prev_end == 0,
        decreases t.len() - i,
    {
        let ad = lex[i];
        proof {
            assert(is_token_of(s, t[i as int]));
            if i > 0 {
                assert(follows(t[i - 1], t[i as int]));
                assert(is_token_of(s, t[i - 1]));
            }
        }
        if let Lexeme::Eol(_) = ad.lex {
            li = 0;
        }
        let kind = match ad.lex {
            Lexeme::Ident => {
                if bytes_are_keyword(bytes, ad.span.from as usize, ad.span.to as usize) {
                    Some(TokenKind::Keyword)
                } else if li == 0 {
                    Some(TokenKind::Function)
                } else if li == 1 && (ad.line as usize) < basm.lines.len() && match &basm.lines[ad.line as usize] {
                    Line::Variable { .. } => true,
                    _ => false,
                } {
                    Some(TokenKind::Type)
                } else {
                    Some(TokenKind::Variable)
                }
            },
            Lexeme::Str => Some(TokenKind::String),
            Lexeme::Colon => Some(TokenKind::Operator),
            Lexeme::OpenBracket => Some(TokenKind::Operator),
            Lexeme::CloseBracket => Some(TokenKind::Operator),
            Lexeme::Digit(_) => Some(TokenKind::Number),
            Lexeme::Eol(true) => Some(TokenKind::Comment),
            _ => None,
        };
        match kind {
            Some(TokenKind::Comment) => {
                data.push(ad, TokenKind::Comment);
            },
            Some(kind) => {
                li += 1;
                data.push(ad, kind);
            },
            None => {},
        }
        i += 1;
    }
    data.inner
}

} // verus!
