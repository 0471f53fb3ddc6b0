//! Toolchain core for a small NASM-style assembly dialect: a byte-exact
//! lexer, a line-oriented parser with interned symbols, and a formatter that
//! emits minimal textual edits. A small machine that runs the programs, and
//! the token classes that an editor shows, build on them.
//!
//! What each part computes is stated over plain models of the text:
//!
//! - `scan` and `tokens` say what the records of a text are; `lex` reads
//!   them, and `rescan` and `shift` read a text that holds the bytes of
//!   another.
//! - `grammar` says what program and what diagnostics a text has; `parse`
//!   computes them, over the symbol table of `interner` and the lines of
//!   `ir`. `labels`, `address`, `recovery` and `shape` state what follows
//!   for labels, for line numbers, for diagnostics and for the commas of a
//!   line.
//! - `layout` says which edits bring a text to canonical layout; `fmt`
//!   computes and applies them. `order`, `minimal` and `sites` state where
//!   the edits stand, `reformat` that the formatted text has the same
//!   program, and `stable`, with `trail`, that formatting it again changes
//!   nothing.
//! - `digits` reads and writes number literals; `render` writes
//!   diagnostics.
//! - `lines` reads single lines of a stricter dialect without a lexer.
//! - `vm`, `decode`, `encode`, `reparse` and `machine` are the machine;
//!   `semantic` and `comment` serve the editor.

pub mod address;
pub mod atoms;
pub mod boundary;
pub mod comment;
pub mod decode;
pub mod digits;
pub mod encode;
pub mod fmt;
pub mod grammar;
pub mod interner;
pub mod ir;
pub mod labels;
pub mod layout;
pub mod lex;
pub mod lexeme;
pub mod lines;
pub mod machine;
pub mod maps;
pub mod minimal;
pub mod order;
pub mod parse;
pub mod recovery;
pub mod reformat;
pub mod render;
pub mod reparse;
pub mod rescan;
pub mod scan;
pub mod semantic;
pub mod shape;
pub mod shift;
pub mod sites;
pub mod span;
pub mod stable;
pub mod tokens;
pub mod trail;
pub mod unicode;
pub mod vm;
