//! Label uniqueness: the program defines no label twice, and every further
//! definition of a label gives exactly one `DuplicateLabel` diagnostic,
//! which names the label and the address of its first definition.

use vstd::prelude::*;

use crate::grammar::{
    add_line, address_of, after, first_label, line_at, line_stop, parse_from, parse_text, settle,
    skip_ws, value_at, values_at, ErrorText, KindText, Parsed, ProgramText,
};
use crate::ir::{LineText, ValueText};
use crate::lexeme::Advance;
use crate::tokens::tokens;

verus! {

/// The name that a line defines as a label, if it parses as one.
pub open spec fn defined_label(r: Result<LineText, ErrorText>) -> Option<Seq<u8>> {
    match r {
        Ok(LineText::Label { name }) => Some(name),
        _ => None,
    }
}

/// The names of the labels that the lines from index `i` on define, one for
/// each definition, in order.
pub open spec fn definitions_from(s: Seq<u8>, t: Seq<Advance>, i: int) -> Seq<Seq<u8>>
    decreases t.len() - i,
{
    let j = skip_ws(t, i);
    if j < 0 || j >= t.len() || t[j].lex is Eof {
        Seq::empty()
    } else {
        let next = after(t, line_stop(t, j));
        let here = match defined_label(line_at(s, t, j)) {
            Some(name) => seq![name],
            None => Seq::empty(),
        };
        if i < next <= t.len() {
            here + definitions_from(s, t, next)
        } else {
            here
        }
    }
}

/// The names of the labels that the source `s` defines, one for each
/// definition, in order.
pub open spec fn definitions(s: Seq<u8>) -> Seq<Seq<u8>> {
    definitions_from(s, tokens(s), 0)
}

/// The number of lines that are labels.
pub open spec fn label_count(lines: Seq<LineText>) -> nat
    decreases lines.len(),
{
    if lines.len() == 0 {
        0
    } else if lines.last() is Label {
        label_count(lines.drop_last()) + 1
    } else {
        label_count(lines.drop_last())
    }
}

/// The number of `DuplicateLabel` diagnostics.
pub open spec fn duplicate_count(errors: Seq<ErrorText>) -> nat
    decreases errors.len(),
{
    if errors.len() == 0 {
        0
    } else if errors.last().kind is DuplicateLabel {
        duplicate_count(errors.drop_last()) + 1
    } else {
        duplicate_count(errors.drop_last())
    }
}

/// No two lines define the same label.
pub open spec fn labels_unique(lines: Seq<LineText>) -> bool {
    forall|i: int, j: int|
        0 <= i < j < lines.len() && (#[trigger] lines[i]) is Label && (#[trigger] lines[j]) is Label
            ==> lines[i] != lines[j]
}

/// Every `DuplicateLabel` names a label of `lines` and gives the address of
/// the line that defines it.
pub open spec fn duplicates_resolve(lines: Seq<LineText>, errors: Seq<ErrorText>) -> bool {
    forall|k: int|
        0 <= k < errors.len() ==> match (#[trigger] errors[k]).kind {
            KindText::DuplicateLabel(name, address) => {
                &&& first_label(lines, name) is Some
                &&& address == address_of(first_label(lines, name)->0)
            },
            _ => true,
        }
}

pub proof fn lemma_first_label(lines: Seq<LineText>, name: Seq<u8>)
    ensures
        match first_label(lines, name) {
            Some(a) => 0 <= a < lines.len() && lines[a] == (LineText::Label { name }) && forall|
                k: int,
            |
                0 <= k < a ==> lines[k] != (LineText::Label { name }),
            None => forall|k: int| 0 <= k < lines.len() ==> lines[k] != (LineText::Label { name }),
        },
    decreases lines.len(),
{
    if lines.len() > 0 {
        let head = lines.drop_last();
        lemma_first_label(head, name);
        assert forall|k: int| 0 <= k < head.len() implies head[k] == lines[k] by {}
        match first_label(head, name) {
            Some(a) => {
                assert(head[a] == lines[a]);
                assert forall|k: int| 0 <= k < a implies lines[k] != (LineText::Label { name }) by {
                    assert(head[k] == lines[k]);
                }
            },
            None => {
                assert forall|k: int| 0 <= k < lines.len() - 1 implies lines[k] != (
                LineText::Label { name }) by {
                    assert(head[k] == lines[k]);
                }
            },
        }
    }
}

/// The first definition of a label stays the first when lines are added.
pub proof fn lemma_first_label_push(lines: Seq<LineText>, line: LineText, name: Seq<u8>)
    requires
        first_label(lines, name) is Some,
    ensures
        first_label(lines.push(line), name) == first_label(lines, name),
{
    assert(lines.push(line).drop_last() =~= lines);
}

proof fn lemma_value_kind(s: Seq<u8>, t: Seq<Advance>, i: int)
    ensures
        value_at(s, t, i) matches Parsed::Fail(e) ==> !(e.kind is DuplicateLabel),
{
}

proof fn lemma_values_kind(s: Seq<u8>, t: Seq<Advance>, i: int, acc: Seq<ValueText>)
    ensures
        values_at(s, t, i, acc) matches Parsed::Fail(e) ==> !(e.kind is DuplicateLabel),
    decreases t.len() - i,
{
    let j = skip_ws(t, i);
    if t[j].lex is Comma {
        lemma_value_kind(s, t, j + 1);
        match value_at(s, t, j + 1) {
            Parsed::Done(Some(v), k) => {
                if i < k <= t.len() {
                    lemma_values_kind(s, t, k, acc.push(v));
                }
            },
            _ => {},
        }
    }
}

/// A line that fails to parse fails with a diagnostic of its own, never
/// with `DuplicateLabel`.
proof fn lemma_line_kind(s: Seq<u8>, t: Seq<Advance>, i: int)
    ensures
        line_at(s, t, i) matches Err(e) ==> !(e.kind is DuplicateLabel),
{
    lemma_value_kind(s, t, i + 1);
    match value_at(s, t, i + 1) {
        Parsed::Done(Some(v), k) => {
            lemma_value_kind(s, t, k);
            lemma_values_kind(s, t, k, seq![v]);
            match value_at(s, t, k) {
                Parsed::Done(Some(w), m) => {
                    lemma_values_kind(s, t, m, seq![w]);
                },
                _ => {},
            }
        },
        _ => {},
    }
}

proof fn lemma_count_push(lines: Seq<LineText>, line: LineText)
    ensures
        label_count(lines.push(line)) == label_count(lines) + (if line is Label {
            1nat
        } else {
            0nat
        }),
{
    assert(lines.push(line).drop_last() =~= lines);
}

proof fn lemma_duplicate_push(errors: Seq<ErrorText>, e: ErrorText)
    ensures
        duplicate_count(errors.push(e)) == duplicate_count(errors) + (if e.kind is DuplicateLabel {
            1nat
        } else {
            0nat
        }),
{
    assert(errors.push(e).drop_last() =~= errors);
}

/// What one line adds keeps the labels unique and the diagnostics true, and
/// a definition adds either a label or a `DuplicateLabel`.
proof fn lemma_settle(s: Seq<u8>, t: Seq<Advance>, j: int, acc: ProgramText)
    requires
        labels_unique(acc.lines),
        duplicates_resolve(acc.lines, acc.errors),
    ensures
        ({
            let next = add_line(acc, settle(acc.lines, t[j], line_at(s, t, j)));
            &&& labels_unique(next.lines)
            &&& duplicates_resolve(next.lines, next.errors)
            &&& label_count(next.lines) + duplicate_count(next.errors) == label_count(acc.lines)
                + duplicate_count(acc.errors) + (if defined_label(line_at(s, t, j)) is Some {
                1nat
            } else {
                0nat
            })
        }),
{
    let r = line_at(s, t, j);
    let out = settle(acc.lines, t[j], r);
    let next = add_line(acc, out);
    lemma_line_kind(s, t, j);
    lemma_count_push(acc.lines, out.0);
    if let Some(e) = out.1 {
        lemma_duplicate_push(acc.errors, e);
    }
    if let Ok(LineText::Label { name }) = r {
        lemma_first_label(acc.lines, name);
    }
    assert forall|a: int, b: int|
        0 <= a < b < next.lines.len() && (#[trigger] next.lines[a]) is Label && (
        #[trigger] next.lines[b]) is Label implies next.lines[a] != next.lines[b] by {
        if b < acc.lines.len() {
            assert(next.lines[a] == acc.lines[a] && next.lines[b] == acc.lines[b]);
        } else {
            assert(next.lines[a] == acc.lines[a]);
        }
    }
    assert forall|k: int| 0 <= k < next.errors.len() implies match (#[trigger] next.errors[k]).kind {
        KindText::DuplicateLabel(name, address) => {
            &&& first_label(next.lines, name) is Some
            &&& address == address_of(first_label(next.lines, name)->0)
        },
        _ => true,
    } by {
        if k < acc.errors.len() {
            assert(next.errors[k] == acc.errors[k]);
            if let KindText::DuplicateLabel(name, address) = acc.errors[k].kind {
                lemma_first_label_push(acc.lines, out.0, name);
            }
        } else {
            if let KindText::DuplicateLabel(name, address) = next.errors[k].kind {
                lemma_first_label_push(acc.lines, out.0, name);
            }
        }
    }
}

proof fn lemma_parse_from(s: Seq<u8>, t: Seq<Advance>, i: int, acc: ProgramText)
    requires
        labels_unique(acc.lines),
        duplicates_resolve(acc.lines, acc.errors),
    ensures
        ({
            let all = parse_from(s, t, i, acc);
            &&& labels_unique(all.lines)
            &&& duplicates_resolve(all.lines, all.errors)
            &&& label_count(all.lines) + duplicate_count(all.errors) == label_count(acc.lines)
                + duplicate_count(acc.errors) + definitions_from(s, t, i).len()
        }),
    decreases t.len() - i,
{
    let j = skip_ws(t, i);
    if j < 0 || j >= t.len() || t[j].lex is Eof {
    } else {
        let next = after(t, line_stop(t, j));
        let acc2 = add_line(acc, settle(acc.lines, t[j], line_at(s, t, j)));
        lemma_settle(s, t, j, acc);
        if i < next <= t.len() {
            lemma_parse_from(s, t, next, acc2);
        }
    }
}

/// Label uniqueness. In the program of any source no label is defined
/// twice; each definition of a label in the source gives either its one
/// label line or one `DuplicateLabel` diagnostic, so that there are exactly
/// as many of these diagnostics as there are definitions after the first;
/// and each of them names a label of the program and the address of the
/// line that defines it.
pub proof fn lemma_label_uniqueness(s: Seq<u8>)
    ensures
        labels_unique(parse_text(s).lines),
        duplicates_resolve(parse_text(s).lines, parse_text(s).errors),
        label_count(parse_text(s).lines) + duplicate_count(parse_text(s).errors) == definitions(
            s,
        ).len(),
{
    let empty = ProgramText { lines: Seq::empty(), errors: Seq::empty() };
    lemma_parse_from(s, tokens(s), 0, empty);
}

} // verus!
