//! The tree of a document, as its derivation in the grammar gives it.
//!
//! Blanks and comments may stand anywhere, so they are left out here. Each
//! function below is a rule of the grammar together with the walk through the
//! nodes and tokens that the rule gives.

use vstd::prelude::*;

use crate::grammar::{
    elements, entries, entry, key, line, lines, scalar, splits, table_array_header, table_header,
    value, word_is, words, Word,
};
use crate::model::{dotted, Tok};
use crate::syntax::SyntaxKind;
use crate::tree::TreeEvent;

verus! {

/// A blank, or a comment.
pub open spec fn is_blank(e: TreeEvent) -> bool {
    e matches TreeEvent::Token { kind, .. } && (kind == SyntaxKind::WHITESPACE.number() || kind
        == SyntaxKind::COMMENT.number())
}

/// A walk without blanks and comments.
pub open spec fn skeleton(tree: Seq<TreeEvent>) -> Seq<TreeEvent>
    decreases tree.len(),
{
    if tree.len() == 0 {
        Seq::empty()
    } else if is_blank(tree.last()) {
        skeleton(tree.drop_last())
    } else {
        skeleton(tree.drop_last()).push(tree.last())
    }
}

/// Everything but blanks and comments stays.
pub broadcast proof fn lemma_skeleton_push(tree: Seq<TreeEvent>, e: TreeEvent)
    ensures
        #[trigger] skeleton(tree.push(e)) == (if is_blank(e) {
            skeleton(tree)
        } else {
            skeleton(tree).push(e)
        }),
{
    assert(tree.push(e).drop_last() =~= tree);
}

/// A word as a token of the given kind.
pub open spec fn leaf(w: Word, kind: SyntaxKind) -> TreeEvent {
    TreeEvent::Token { kind: kind.number(), text: w.text }
}

/// A word as a token of its own kind.
pub open spec fn own(w: Word) -> TreeEvent {
    leaf(w, w.kind)
}

/// The walk through a node.
pub open spec fn node(kind: SyntaxKind, inside: Seq<TreeEvent>) -> Seq<TreeEvent> {
    seq![TreeEvent::Open { kind: kind.number() }] + inside + seq![TreeEvent::Close]
}

/// A walk is that through a node.
pub open spec fn is_node(t: Seq<TreeEvent>, kind: SyntaxKind, inside: Seq<TreeEvent>) -> bool {
    t == node(kind, inside)
}

/// A walk has two parts.
pub open spec fn joined(t: Seq<TreeEvent>, a: Seq<TreeEvent>, b: Seq<TreeEvent>) -> bool {
    t == a + b
}

/// A part of a key: an identifier, or those of a float with the periods in
/// between.
pub open spec fn ident_walk(w: Word) -> Seq<TreeEvent> {
    if w.kind == SyntaxKind::FLOAT {
        dotted(w.text)
    } else {
        seq![leaf(w, SyntaxKind::IDENT)]
    }
}

/// The words from `i` to `j` as a key.
pub open spec fn key_walk(ws: Seq<Word>, i: int, j: int) -> Seq<TreeEvent>
    decreases j - i,
{
    if j <= i + 1 {
        ident_walk(ws[i])
    } else {
        ident_walk(ws[i]) + seq![own(ws[i + 1])] + key_walk(ws, i + 2, j)
    }
}

/// What ends a list of words up to `j`: its last word, if the list is closed.
pub open spec fn closing(ws: Seq<Word>, j: int, closed: bool) -> Seq<TreeEvent> {
    if closed {
        seq![own(ws[j - 1])]
    } else {
        Seq::empty()
    }
}

/// A walk is that through an array or an inline table: the opening word, what
/// is listed, and what closes it.
pub open spec fn is_list(
    t: Seq<TreeEvent>,
    kind: SyntaxKind,
    opening: TreeEvent,
    listed: Seq<TreeEvent>,
    end: Seq<TreeEvent>,
) -> bool {
    t == node(kind, seq![opening] + listed + end)
}

/// The words from `i` to `j` as a value.
pub open spec fn value_walk(ws: Seq<Word>, i: int, j: int, t: Seq<TreeEvent>) -> bool
    decreases j - i, 0int,
{
    &&& 0 <= i < j <= ws.len()
    &&& {
        ||| j == i + 1 && scalar(ws[i]) && t == seq![own(ws[i])]
        ||| {
            &&& word_is(ws, i, SyntaxKind::BRACKET_START)
            &&& {
                ||| j == ws.len() && exists|m: Seq<TreeEvent>| #[trigger]
                    is_list(t, SyntaxKind::ARRAY, own(ws[i]), m, closing(ws, j, false))
                        && elements_walk(ws, i + 1, j, true, m)
                ||| i + 1 < j && word_is(ws, j - 1, SyntaxKind::BRACKET_END) && exists|
                    m: Seq<TreeEvent>,
                | #[trigger]
                    is_list(t, SyntaxKind::ARRAY, own(ws[i]), m, closing(ws, j, true))
                        && elements_walk(ws, i + 1, j - 1, true, m)
            }
        }
        ||| {
            &&& word_is(ws, i, SyntaxKind::BRACE_START)
            &&& {
                ||| j == ws.len() && exists|m: Seq<TreeEvent>| #[trigger]
                    is_list(t, SyntaxKind::INLINE_TABLE, own(ws[i]), m, closing(ws, j, false))
                        && entries_walk(ws, i + 1, j, true, false, m)
                ||| i + 1 < j && word_is(ws, j - 1, SyntaxKind::BRACE_END) && exists|
                    m: Seq<TreeEvent>,
                | #[trigger]
                    is_list(t, SyntaxKind::INLINE_TABLE, own(ws[i]), m, closing(ws, j, true))
                        && entries_walk(ws, i + 1, j - 1, true, false, m)
            }
        }
    }
}

/// A walk starts with a word.
pub open spec fn starts_with(t: Seq<TreeEvent>, w: Word) -> bool {
    t.len() > 0 && t[0] == own(w)
}

/// The words from `i` to `j` as what can stand in an array.
pub open spec fn elements_walk(
    ws: Seq<Word>,
    i: int,
    j: int,
    value_next: bool,
    t: Seq<TreeEvent>,
) -> bool
    decreases j - i, 1int,
{
    &&& 0 <= i <= j <= ws.len()
    &&& {
        ||| i == j && t.len() == 0
        ||| {
            &&& i < j && word_is(ws, i, SyntaxKind::NEWLINE)
            &&& starts_with(t, ws[i])
            &&& elements_walk(ws, i + 1, j, value_next, t.skip(1))
        }
        ||| {
            &&& i < j && !value_next && word_is(ws, i, SyntaxKind::COMMA)
            &&& starts_with(t, ws[i])
            &&& elements_walk(ws, i + 1, j, true, t.skip(1))
        }
        ||| value_next && exists|k: int, a: Seq<TreeEvent>, b: Seq<TreeEvent>|
            {
                &&& #[trigger] splits(i, k, j)
                &&& #[trigger] joined(t, node(SyntaxKind::VALUE, a), b)
                &&& value_walk(ws, i, k, a)
                &&& elements_walk(ws, k, j, false, b)
            }
    }
}

/// The words from `i` to `j` as what can stand in an inline table.
pub open spec fn entries_walk(
    ws: Seq<Word>,
    i: int,
    j: int,
    first: bool,
    comma_last: bool,
    t: Seq<TreeEvent>,
) -> bool
    decreases j - i, 2int,
{
    &&& 0 <= i <= j <= ws.len()
    &&& {
        ||| i == j && (comma_last ==> j == ws.len()) && t.len() == 0
        ||| {
            &&& i < j && !first && word_is(ws, i, SyntaxKind::COMMA)
            &&& starts_with(t, ws[i])
            &&& entries_walk(ws, i + 1, j, false, true, t.skip(1))
        }
        ||| (first || comma_last) && exists|k: int, a: Seq<TreeEvent>, b: Seq<TreeEvent>|
            {
                &&& #[trigger] splits(i, k, j)
                &&& #[trigger] joined(t, node(SyntaxKind::ENTRY, a), b)
                &&& entry_walk(ws, i, k, a)
                &&& entries_walk(ws, k, j, false, false, b)
            }
    }
}

/// A walk is that through a key, an equality sign and a value.
pub open spec fn is_entry(
    t: Seq<TreeEvent>,
    in_key: Seq<TreeEvent>,
    eq: TreeEvent,
    in_value: Seq<TreeEvent>,
) -> bool {
    t == node(SyntaxKind::KEY, in_key) + seq![eq] + node(SyntaxKind::VALUE, in_value)
}

/// The words from `i` to `j` as an entry.
pub open spec fn entry_walk(ws: Seq<Word>, i: int, j: int, t: Seq<TreeEvent>) -> bool
    decreases j - i, 1int,
{
    exists|k: int, v: Seq<TreeEvent>|
        {
            &&& #[trigger] splits(i, k, j - 1)
            &&& key(ws, i, k)
            &&& word_is(ws, k, SyntaxKind::EQ)
            &&& #[trigger] is_entry(t, key_walk(ws, i, k), own(ws[k]), v)
            &&& value_walk(ws, k + 1, j, v)
        }
}

/// The words from `i` to `j` as what can stand on a line.
pub open spec fn line_walk(ws: Seq<Word>, i: int, j: int, t: Seq<TreeEvent>) -> bool {
    ||| table_header(ws, i, j) && t == node(
        SyntaxKind::TABLE_HEADER,
        seq![own(ws[i])] + node(SyntaxKind::KEY, key_walk(ws, i + 1, j - 1)) + seq![
            own(ws[j - 1]),
        ],
    )
    ||| table_array_header(ws, i, j) && t == node(
        SyntaxKind::TABLE_ARRAY_HEADER,
        seq![own(ws[i]), own(ws[i + 1])] + node(SyntaxKind::KEY, key_walk(ws, i + 2, j - 2))
            + seq![own(ws[j - 2]), own(ws[j - 1])],
    )
    ||| exists|e: Seq<TreeEvent>| #[trigger]
        is_node(t, SyntaxKind::ENTRY, e) && entry_walk(ws, i, j, e)
}

/// The words from `i` on as lines.
pub open spec fn lines_walk(ws: Seq<Word>, i: int, line_next: bool, t: Seq<TreeEvent>) -> bool
    decreases ws.len() - i,
{
    &&& 0 <= i <= ws.len()
    &&& {
        ||| i == ws.len() && t.len() == 0
        ||| {
            &&& word_is(ws, i, SyntaxKind::NEWLINE)
            &&& starts_with(t, ws[i])
            &&& lines_walk(ws, i + 1, true, t.skip(1))
        }
        ||| line_next && exists|j: int, a: Seq<TreeEvent>, b: Seq<TreeEvent>|
            {
                &&& #[trigger] splits(i, j, ws.len() as int)
                &&& #[trigger] joined(t, a, b)
                &&& line_walk(ws, i, j, a)
                &&& lines_walk(ws, j, false, b)
            }
    }
}

/// A walk is that through the document that the tokens are derived as.
pub open spec fn document_walk(toks: Seq<Tok>, tree: Seq<TreeEvent>) -> bool {
    exists|m: Seq<TreeEvent>| #[trigger]
        is_node(skeleton(tree), SyntaxKind::ROOT, m) && lines_walk(
            words(toks, toks.len() as int),
            0,
            true,
            m,
        )
}

proof fn lemma_value_derived(ws: Seq<Word>, i: int, j: int, t: Seq<TreeEvent>)
    requires
        value_walk(ws, i, j, t),
    ensures
        value(ws, i, j),
    decreases j - i, 0int,
{
    if word_is(ws, i, SyntaxKind::BRACKET_START) {
        if j == ws.len() && exists|m: Seq<TreeEvent>| #[trigger]
            is_list(t, SyntaxKind::ARRAY, own(ws[i]), m, closing(ws, j, false)) && elements_walk(
                ws,
                i + 1,
                j,
                true,
                m,
            ) {
            let m = choose|m: Seq<TreeEvent>| #[trigger]
                is_list(t, SyntaxKind::ARRAY, own(ws[i]), m, closing(ws, j, false))
                    && elements_walk(ws, i + 1, j, true, m);
            lemma_elements_derived(ws, i + 1, j, true, m);
        } else {
            let m = choose|m: Seq<TreeEvent>| #[trigger]
                is_list(t, SyntaxKind::ARRAY, own(ws[i]), m, closing(ws, j, true))
                    && elements_walk(ws, i + 1, j - 1, true, m);
            lemma_elements_derived(ws, i + 1, j - 1, true, m);
        }
    } else if word_is(ws, i, SyntaxKind::BRACE_START) {
        if j == ws.len() && exists|m: Seq<TreeEvent>| #[trigger]
            is_list(t, SyntaxKind::INLINE_TABLE, own(ws[i]), m, closing(ws, j, false))
                && entries_walk(ws, i + 1, j, true, false, m) {
            let m = choose|m: Seq<TreeEvent>| #[trigger]
                is_list(t, SyntaxKind::INLINE_TABLE, own(ws[i]), m, closing(ws, j, false))
                    && entries_walk(ws, i + 1, j, true, false, m);
            lemma_entries_derived(ws, i + 1, j, true, false, m);
        } else {
            let m = choose|m: Seq<TreeEvent>| #[trigger]
                is_list(t, SyntaxKind::INLINE_TABLE, own(ws[i]), m, closing(ws, j, true))
                    && entries_walk(ws, i + 1, j - 1, true, false, m);
            lemma_entries_derived(ws, i + 1, j - 1, true, false, m);
        }
    }
}

proof fn lemma_elements_derived(
    ws: Seq<Word>,
    i: int,
    j: int,
    value_next: bool,
    t: Seq<TreeEvent>,
)
    requires
        elements_walk(ws, i, j, value_next, t),
    ensures
        elements(ws, i, j, value_next),
    decreases j - i, 1int,
{
    if i < j {
        if word_is(ws, i, SyntaxKind::NEWLINE) && starts_with(t, ws[i]) && elements_walk(
            ws,
            i + 1,
            j,
            value_next,
            t.skip(1),
        ) {
            lemma_elements_derived(ws, i + 1, j, value_next, t.skip(1));
        } else if !value_next {
            lemma_elements_derived(ws, i + 1, j, true, t.skip(1));
        } else {
            let (k, a, b) = choose|k: int, a: Seq<TreeEvent>, b: Seq<TreeEvent>|
                {
                    &&& #[trigger] splits(i, k, j)
                    &&& #[trigger] joined(t, node(SyntaxKind::VALUE, a), b)
                    &&& value_walk(ws, i, k, a)
                    &&& elements_walk(ws, k, j, false, b)
                };
            lemma_value_derived(ws, i, k, a);
            lemma_elements_derived(ws, k, j, false, b);
            assert(splits(i, k, j));
        }
    }
}

proof fn lemma_entries_derived(
    ws: Seq<Word>,
    i: int,
    j: int,
    first: bool,
    comma_last: bool,
    t: Seq<TreeEvent>,
)
    requires
        entries_walk(ws, i, j, first, comma_last, t),
    ensures
        entries(ws, i, j, first, comma_last),
    decreases j - i, 2int,
{
    if i < j {
        if !first && word_is(ws, i, SyntaxKind::COMMA) && starts_with(t, ws[i]) && entries_walk(
            ws,
            i + 1,
            j,
            false,
            true,
            t.skip(1),
        ) {
            lemma_entries_derived(ws, i + 1, j, false, true, t.skip(1));
        } else {
            let (k, a, b) = choose|k: int, a: Seq<TreeEvent>, b: Seq<TreeEvent>|
                {
                    &&& #[trigger] splits(i, k, j)
                    &&& #[trigger] joined(t, node(SyntaxKind::ENTRY, a), b)
                    &&& entry_walk(ws, i, k, a)
                    &&& entries_walk(ws, k, j, false, false, b)
                };
            lemma_entry_derived(ws, i, k, a);
            lemma_entries_derived(ws, k, j, false, false, b);
            assert(splits(i, k, j));
        }
    }
}

proof fn lemma_entry_derived(ws: Seq<Word>, i: int, j: int, t: Seq<TreeEvent>)
    requires
        entry_walk(ws, i, j, t),
    ensures
        entry(ws, i, j),
    decreases j - i, 1int,
{
    let (k, v) = choose|k: int, v: Seq<TreeEvent>|
        {
            &&& #[trigger] splits(i, k, j - 1)
            &&& key(ws, i, k)
            &&& word_is(ws, k, SyntaxKind::EQ)
            &&& #[trigger] is_entry(t, key_walk(ws, i, k), own(ws[k]), v)
            &&& value_walk(ws, k + 1, j, v)
        };
    lemma_value_derived(ws, k + 1, j, v);
    assert(splits(i, k, j - 1));
}

proof fn lemma_line_derived(ws: Seq<Word>, i: int, j: int, t: Seq<TreeEvent>)
    requires
        line_walk(ws, i, j, t),
    ensures
        line(ws, i, j),
{
    if !table_header(ws, i, j) && !table_array_header(ws, i, j) {
        let e = choose|e: Seq<TreeEvent>| #[trigger]
            is_node(t, SyntaxKind::ENTRY, e) && entry_walk(ws, i, j, e);
        lemma_entry_derived(ws, i, j, e);
    }
}

/// Words that have a walk are derived by the grammar: the walks add nodes to
/// its rules, and no rules to it.
pub proof fn walks_are_derivations(ws: Seq<Word>, i: int, line_next: bool, t: Seq<TreeEvent>)
    requires
        lines_walk(ws, i, line_next, t),
    ensures
        lines(ws, i, line_next),
    decreases ws.len() - i,
{
    if i < ws.len() {
        if word_is(ws, i, SyntaxKind::NEWLINE) && starts_with(t, ws[i]) && lines_walk(
            ws,
            i + 1,
            true,
            t.skip(1),
        ) {
            walks_are_derivations(ws, i + 1, true, t.skip(1));
        } else {
            let (j, a, b) = choose|j: int, a: Seq<TreeEvent>, b: Seq<TreeEvent>|
                {
                    &&& #[trigger] splits(i, j, ws.len() as int)
                    &&& #[trigger] joined(t, a, b)
                    &&& line_walk(ws, i, j, a)
                    &&& lines_walk(ws, j, false, b)
                };
            lemma_line_derived(ws, i, j, a);
            walks_are_derivations(ws, j, false, b);
            assert(line(ws, i, j));
        }
    }
}

/// The node of a line is named by what the line starts with: one opening
/// bracket makes it the header of a table, two make it that of an element of an
/// array of tables, and anything else makes it an entry.
pub proof fn lines_are_named_by_their_brackets(
    ws: Seq<Word>,
    i: int,
    j: int,
    t: Seq<TreeEvent>,
)
    requires
        line_walk(ws, i, j, t),
    ensures
        t.len() > 0,
        t.last() is Close,
        t.first() == (TreeEvent::Open {
            kind: if word_is(ws, i, SyntaxKind::BRACKET_START) && word_is(
                ws,
                i + 1,
                SyntaxKind::BRACKET_START,
            ) {
                SyntaxKind::TABLE_ARRAY_HEADER.number()
            } else if word_is(ws, i, SyntaxKind::BRACKET_START) {
                SyntaxKind::TABLE_HEADER.number()
            } else {
                SyntaxKind::ENTRY.number()
            },
        }),
{
    if table_header(ws, i, j) {
        assert(key(ws, i + 1, j - 1));
    }
    if exists|e: Seq<TreeEvent>| #[trigger]
        is_node(t, SyntaxKind::ENTRY, e) && entry_walk(ws, i, j, e) {
        let e = choose|e: Seq<TreeEvent>| #[trigger]
            is_node(t, SyntaxKind::ENTRY, e) && entry_walk(ws, i, j, e);
        lemma_entry_derived(ws, i, j, e);
        let k = choose|k: int| #[trigger]
            splits(i, k, j - 1) && key(ws, i, k) && word_is(ws, k, SyntaxKind::EQ) && value(
                ws,
                k + 1,
                j,
            );
        assert(key(ws, i, k));
    }
}

} // verus!
