//! The shape of a line that parses: what may follow a comma on it.

use vstd::prelude::*;

use crate::grammar::{
    closed, deref_at, end_at, lemma_line_stop, lemma_skip_ws, line_at, line_stop, named_at,
    rest_at, skip_ws, statement_at, value_at, values_at, Parsed,
};
use crate::ir::ValueText;
use crate::lexeme::{Advance, Lexeme};

verus! {

/// A token before which no space stands.
pub open spec fn is_tight(l: Lexeme) -> bool {
    l is Comma || l is Colon || l is CloseBracket
}

/// The record at `c` is a comma.
pub open spec fn is_comma(t: Seq<Advance>, c: int) -> bool {
    t[c].lex is Comma
}

/// The kind of the record that follows the one at `c`, whitespace apart.
pub open spec fn lex_after(t: Seq<Advance>, c: int) -> Lexeme {
    t[skip_ws(t, c + 1)].lex
}

/// After every comma at an index from `i` up to `e`, whitespace apart,
/// comes a token before which a space may stand.
pub open spec fn commas_ok(t: Seq<Advance>, i: int, e: int) -> bool {
    forall|c: int| i <= c < e && #[trigger] is_comma(t, c) ==> !is_tight(lex_after(t, c))
}

/// A value holds no comma, and where none is left on the line, only
/// whitespace is.
proof fn lemma_value_shape(s: Seq<u8>, t: Seq<Advance>, i: int)
    requires
        closed(t),
        0 <= i < t.len(),
    ensures
        match value_at(s, t, i) {
            Parsed::Done(Some(_), k) => {
                &&& i < k <= line_stop(t, i)
                &&& !is_tight(t[skip_ws(t, i)].lex)
                &&& forall|c: int| i <= c < k ==> !((#[trigger] t[c]).lex is Comma)
            },
            Parsed::Done(None, _) => {
                &&& t[skip_ws(t, i)].lex.ends_line()
                &&& forall|c: int| i <= c < line_stop(t, i) ==> (#[trigger] t[c]).lex is Whitespace
            },
            Parsed::Fail(_) => true,
        },
{
    lemma_skip_ws(t, i);
    lemma_line_stop(t, i);
    let j = skip_ws(t, i);
    if t[j].lex is OpenBracket {
        lemma_skip_ws(t, j + 1);
        lemma_line_stop(t, j + 1);
        let k = skip_ws(t, j + 1);
        if t[k].lex is Ident {
            lemma_skip_ws(t, k + 1);
            lemma_line_stop(t, k + 1);
            let m = skip_ws(t, k + 1);
            if t[m].lex is CloseBracket {
                assert(value_at(s, t, i) == deref_at(s, t, j + 1));
                assert forall|c: int| i <= c < m + 1 implies !((#[trigger] t[c]).lex is Comma) by {
                    if c < j {
                    } else if c == j {
                    } else if c < k {
                    } else if c == k {
                    } else if c < m {
                    }
                }
            }
        }
    } else if t[j].lex.ends_line() {
        assert(j == line_stop(t, i));
    }
}

/// What follows the commas of a list of values.
proof fn lemma_values_shape(s: Seq<u8>, t: Seq<Advance>, i: int, acc: Seq<ValueText>)
    requires
        closed(t),
        0 <= i < t.len(),
        values_at(s, t, i, acc) is Done,
    ensures
        commas_ok(t, i, line_stop(t, i)),
    decreases t.len() - i,
{
    lemma_skip_ws(t, i);
    lemma_line_stop(t, i);
    let j = skip_ws(t, i);
    let e = line_stop(t, i);
    if t[j].lex is Comma {
        lemma_value_shape(s, t, j + 1);
        lemma_skip_ws(t, j + 1);
        lemma_line_stop(t, j + 1);
        match value_at(s, t, j + 1) {
            Parsed::Done(Some(v), k) => {
                lemma_values_shape(s, t, k, acc.push(v));
                lemma_line_stop(t, k);
                assert forall|c: int| i <= c < e && #[trigger] is_comma(t, c) implies !is_tight(
                    lex_after(t, c),
                ) by {
                    if c < j {
                    } else if c == j {
                    } else if c < k {
                    }
                }
            },
            Parsed::Done(None, k) => {
                assert forall|c: int| i <= c < e && #[trigger] is_comma(t, c) implies !is_tight(
                    lex_after(t, c),
                ) by {
                    if c < j {
                    } else if c == j {
                    }
                }
            },
            Parsed::Fail(_) => {},
        }
    } else {
        assert(j == e);
    }
}

/// Nothing but whitespace is left on a line that ends where it should.
proof fn lemma_end_shape(t: Seq<Advance>, i: int)
    requires
        closed(t),
        0 <= i < t.len(),
        end_at(t, i) is None,
    ensures
        forall|c: int| i <= c < line_stop(t, i) ==> (#[trigger] t[c]).lex is Whitespace,
{
    lemma_skip_ws(t, i);
    lemma_line_stop(t, i);
}

/// The shape of a line that parses and is not blank: whitespace apart,
/// what follows a comma on it is the start of a value or the end of the
/// line.
pub proof fn lemma_line_shape(s: Seq<u8>, t: Seq<Advance>, i: int)
    requires
        closed(t),
        0 <= i < t.len(),
        t[i].lex is Ident,
        line_at(s, t, i) is Ok,
    ensures
        commas_ok(t, i, line_stop(t, i)),
{
    lemma_line_stop(t, i);
    lemma_skip_ws(t, i + 1);
    lemma_line_stop(t, i + 1);
    let e = line_stop(t, i);
    let first = t[i].span.of(s);
    if first == crate::grammar::section_word() || first == crate::grammar::global_word() {
        let j = skip_ws(t, i + 1);
        assert(named_at(s, t, i + 1) is Ok);
        lemma_end_shape(t, j + 1);
        lemma_line_stop(t, j + 1);
        assert forall|c: int| i <= c < e implies !((#[trigger] t[c]).lex is Comma) by {
            if c == i {
            } else if c < j {
            } else if c == j {
            }
        }
    } else {
        assert(line_at(s, t, i) == statement_at(s, t, i));
        let j = skip_ws(t, i + 1);
        if t[j].lex is Colon {
            lemma_end_shape(t, j + 1);
            lemma_line_stop(t, j + 1);
            assert forall|c: int| i <= c < e implies !((#[trigger] t[c]).lex is Comma) by {
                if c == i {
                } else if c < j {
                } else if c == j {
                }
            }
        } else {
            lemma_value_shape(s, t, i + 1);
            match value_at(s, t, i + 1) {
                Parsed::Done(Some(v), k) => {
                    lemma_line_stop(t, k);
                    lemma_skip_ws(t, k);
                    assert(line_at(s, t, i) == rest_at(s, t, first, v, k));
                    if crate::grammar::is_directive(v, t[skip_ws(t, k)].lex) {
                        lemma_value_shape(s, t, k);
                        match value_at(s, t, k) {
                            Parsed::Done(Some(w), m) => {
                                lemma_line_stop(t, m);
                                lemma_values_shape(s, t, m, seq![w]);
                                assert forall|c: int|
                                    i <= c < e && #[trigger] is_comma(t, c) implies !is_tight(
                                    lex_after(t, c),
                                ) by {
                                    if c == i {
                                    } else if c < k {
                                    } else if c < m {
                                    }
                                }
                            },
                            _ => {
                                assert forall|c: int| i <= c < e implies !((#[trigger] t[c]).lex
                                    is Comma) by {
                                    if c == i {
                                    } else if c < k {
                                    }
                                }
                            },
                        }
                    } else {
                        lemma_values_shape(s, t, k, seq![v]);
                        assert forall|c: int|
                            i <= c < e && #[trigger] is_comma(t, c) implies !is_tight(
                            lex_after(t, c),
                        ) by {
                            if c == i {
                            } else if c < k {
                            }
                        }
                    }
                },
                _ => {
                    assert forall|c: int| i <= c < e implies !((#[trigger] t[c]).lex is Comma) by {
                        if c == i {
                        }
                    }
                },
            }
        }
    }
}

} // verus!
