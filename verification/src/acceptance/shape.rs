//! The tree of a document is the one that its derivation gives.

use vstd::prelude::*;

use super::{
    all, at, between, documents_are_accepted, good, lemma_at_left, lemma_current,
    lemma_dotted_kinds, lemma_g_array, lemma_g_array_element, lemma_g_array_rest, lemma_g_entry,
    lemma_g_error, lemma_g_expect, lemma_g_header_line, lemma_g_ident, lemma_g_inline_table,
    lemma_g_key, lemma_g_key_rest, lemma_g_lines, lemma_g_peek, lemma_g_scalar, lemma_g_step,
    lemma_g_table_array_header, lemma_g_table_element, lemma_g_table_header, lemma_g_table_rest,
    lemma_g_token, lemma_g_token_as, lemma_g_value, lemma_push_errors_len, lemma_report_at,
    lemma_start,
};
use crate::derivation::{
    closing, document_walk, elements_walk, entries_walk, entry_walk, ident_walk, is_entry, is_list,
    is_node, joined, key_walk, leaf, lemma_skeleton_push, line_walk, lines_walk, node, own,
    skeleton, value_walk,
};
use crate::grammar::{clean, is_document, splits, word_is, Word};
use crate::leaves::{
    can_be, leaves, lemma_leaves_dotted, lemma_leaves_push, lemma_spells_add, lemma_spells_push,
};
use crate::model::{
    document, dotted, last_period, lemma_expect, lemma_ident, lemma_key, lemma_peek, lemma_token,
    State, Tok,
};
use crate::syntax::SyntaxKind;
use crate::tree::TreeEvent;
use crate::util::allowed_chars::forbidden_offsets;
use crate::util::escape::escape_errors;

pub mod recovery;

verus! {

broadcast use {lemma_leaves_push, lemma_skeleton_push};

/// The tree that was built so far, without blanks and comments.
spec fn built(s: State) -> Seq<TreeEvent> {
    skeleton(s.tree)
}

proof fn lemma_skeleton_dotted(tree: Seq<TreeEvent>, text: Seq<u8>)
    ensures
        skeleton(tree + dotted(text)) == skeleton(tree) + dotted(text),
    decreases text.len(),
{
    let at = last_period(text);
    let d = dotted(text);
    if 0 <= at < text.len() {
        let front = dotted(text.take(at));
        lemma_skeleton_dotted(tree, text.take(at));
        let period = d[front.len() as int];
        assert(tree + d =~= (tree + front).push(period).push(d.last()));
        assert(skeleton(tree) + d =~= (skeleton(tree) + front).push(period).push(d.last()));
    } else {
        assert(tree + d =~= tree.push(d.last()));
        assert(skeleton(tree) + d =~= skeleton(tree).push(d.last()));
    }
}

proof fn lemma_d_step(s: State)
    requires
        between(s),
        s.step().errors.len() == 0,
    ensures
        built(s.step()) == built(s),
    decreases s.toks.len() - s.pos,
{
    if s.pos < s.toks.len() {
        let n = State { current: None, ..s }.next();
        let tok = s.toks[s.pos];
        let kind = tok.kind;
        lemma_spells_push(leaves(s.tree), s.toks, s.pos, kind);
        if kind == SyntaxKind::COMMENT {
            let offsets = forbidden_offsets(n.text, false);
            let message = "invalid character in comment"@;
            lemma_push_errors_len(n.errors, n.start, offsets, message);
            let e = n.report_at(offsets, message).emit(kind, n.text);
            assert(between(e)) by {
                if e.errors.len() == 0 {
                    assert(clean(tok));
                }
            }
            lemma_d_step(e);
        } else if kind == SyntaxKind::WHITESPACE {
            assert(clean(tok));
            lemma_d_step(n.emit(kind, n.text));
        } else if kind == SyntaxKind::ERROR {
            let e = n.emit(kind, n.text).report("unexpected token"@);
            assert(e.errors.len() > 0);
            lemma_g_step(e);
        }
    }
}

proof fn lemma_d_peek(s: State)
    requires
        good(s),
        s.peek().errors.len() == 0,
    ensures
        built(s.peek()) == built(s),
{
    if s.current is None {
        lemma_d_step(s);
    }
}

proof fn lemma_d_token_as(s: State, kind: SyntaxKind)
    requires
        good(s),
        kind != SyntaxKind::ERROR,
        kind != SyntaxKind::WHITESPACE,
        kind != SyntaxKind::COMMENT,
        s.peek().current is Some ==> can_be(s.toks[s.peek().pos - 1], kind),
        s.token_as(kind).0.errors.len() == 0,
        at(s) < all(s).len(),
    ensures
        built(s.token_as(kind).0) == built(s).push(leaf(all(s)[at(s)], kind)),
{
    lemma_g_peek(s);
    let p = s.peek();
    lemma_spells_push(leaves(p.tree), p.toks, p.pos - 1, kind);
    let e = p.emit(kind, p.text);
    lemma_g_step(e);
    lemma_d_step(e);
    lemma_d_peek(s);
}

proof fn lemma_d_token(s: State)
    requires
        good(s),
        s.token().0.errors.len() == 0,
        at(s) < all(s).len(),
    ensures
        built(s.token().0) == built(s).push(own(all(s)[at(s)])),
{
    lemma_g_peek(s);
    let p = s.peek();
    assert(p.peek() == p);
    lemma_g_token_as(p, p.current->0);
    lemma_d_token_as(p, p.current->0);
    lemma_d_peek(s);
}

proof fn lemma_d_expect(s: State, kind: SyntaxKind, message: Seq<char>)
    requires
        good(s),
        s.expect(kind, message).0.errors.len() == 0,
    ensures
        0 <= at(s) < all(s).len(),
        built(s.expect(kind, message).0) == built(s).push(own(all(s)[at(s)])),
{
    lemma_g_peek(s);
    lemma_g_expect(s, kind, message);
    let p = s.peek();
    lemma_g_token(p);
    lemma_g_error(p, message);
    lemma_d_token(p);
    lemma_d_peek(s);
}

proof fn lemma_d_ident(s: State)
    requires
        good(s),
        s.ident().0.errors.len() == 0,
        s.ident().1,
    ensures
        built(s.ident().0) == built(s) + ident_walk(all(s)[at(s)]),
{
    lemma_g_peek(s);
    lemma_g_ident(s);
    let p = s.peek();
    let t = p.current->0;
    let i = leaf(all(s)[at(s)], SyntaxKind::IDENT);
    assert(built(s) + seq![i] =~= built(s).push(i));
    if t == SyntaxKind::IDENT {
        lemma_g_token(p);
        lemma_d_token(p);
    } else if t == SyntaxKind::INTEGER {
        lemma_g_token_as(p, SyntaxKind::IDENT);
        lemma_d_token_as(p, SyntaxKind::IDENT);
    } else if t == SyntaxKind::STRING_LITERAL {
        let offsets = forbidden_offsets(p.text, false);
        let message = "invalid control character in string literal"@;
        lemma_report_at(p, offsets, message);
        let q = p.report_at(offsets, message);
        lemma_g_token_as(q, SyntaxKind::IDENT);
        lemma_d_token_as(q, SyntaxKind::IDENT);
    } else if t == SyntaxKind::STRING {
        let offsets = forbidden_offsets(p.text, false);
        let message = "invalid character in string"@;
        lemma_report_at(p, offsets, message);
        let r = p.report_at(offsets, message);
        lemma_report_at(r, escape_errors(p.text, 0), "invalid escape sequence"@);
        let q = r.report_at(escape_errors(p.text, 0), "invalid escape sequence"@);
        lemma_g_token_as(q, SyntaxKind::IDENT);
        lemma_d_token_as(q, SyntaxKind::IDENT);
    } else if t == SyntaxKind::FLOAT {
        lemma_dotted_kinds(p.text);
        lemma_leaves_dotted(p.tree, p.text);
        lemma_spells_add(leaves(p.tree), p.toks, p.pos - 1, dotted(p.text));
        lemma_skeleton_dotted(p.tree, p.text);
        let d = State { tree: p.tree + dotted(p.text), ..p };
        lemma_g_step(d);
        lemma_d_step(d);
    } else {
        lemma_g_error(p, "expected identifier"@);
    }
    lemma_d_peek(s);
}

/// What the rest of a key adds.
spec fn key_part_walk(ws: Seq<Word>, i: int, j: int, after_period: bool) -> Seq<TreeEvent> {
    if after_period {
        key_walk(ws, i, j)
    } else if j == i {
        Seq::empty()
    } else {
        seq![own(ws[i])] + key_walk(ws, i + 1, j)
    }
}

/// A part of a key, and what follows it.
proof fn lemma_key_joined(ws: Seq<Word>, i: int, j: int)
    requires
        i < j,
    ensures
        key_walk(ws, i, j) == ident_walk(ws[i]) + key_part_walk(ws, i + 1, j, false),
{
    if j == i + 1 {
        assert(ident_walk(ws[i]) + Seq::<TreeEvent>::empty() =~= ident_walk(ws[i]));
    } else {
        assert(key_walk(ws, i, j) =~= ident_walk(ws[i]) + (seq![own(ws[i + 1])] + key_walk(
            ws,
            i + 2,
            j,
        )));
    }
}

proof fn lemma_d_key_rest(s: State, after_period: bool)
    requires
        good(s),
        s.key_rest(after_period).0.errors.len() == 0,
    ensures
        built(s.key_rest(after_period).0) == built(s) + key_part_walk(
            all(s),
            at(s),
            at(s.key_rest(after_period).0),
            after_period,
        ),
        at(s) <= at(s.key_rest(after_period).0),
        after_period ==> at(s) < at(s.key_rest(after_period).0),
    decreases s.left(),
{
    lemma_g_peek(s);
    lemma_peek(s);
    lemma_g_key_rest(s, after_period);
    let p = s.peek();
    let r = s.key_rest(after_period).0;
    let ws = all(s);
    if p.current is None {
        lemma_g_error(p, "unexpected end of input"@);
        lemma_d_peek(s);
        assert(built(s) + Seq::<TreeEvent>::empty() =~= built(s));
    } else if p.current->0 == SyntaxKind::PERIOD {
        lemma_g_error(p, "unexpected \".\""@);
        lemma_g_token(p);
        lemma_token(p);
        let q = p.token().0;
        lemma_g_key_rest(q, true);
        lemma_d_key_rest(q, true);
        lemma_d_token(p);
        lemma_d_peek(s);
        assert(built(s).push(own(ws[at(s)])) + key_walk(ws, at(s) + 1, at(r)) =~= built(s) + (seq![
            own(ws[at(s)]),
        ] + key_walk(ws, at(s) + 1, at(r))));
    } else if after_period {
        lemma_g_ident(p);
        lemma_ident(p);
        let q = p.ident().0;
        lemma_g_error(q, "expected identifier"@);
        lemma_g_key_rest(q, false);
        lemma_d_key_rest(q, false);
        lemma_d_ident(p);
        lemma_d_peek(s);
        lemma_key_joined(ws, at(s), at(r));
        assert(built(r) =~= built(s) + key_walk(ws, at(s), at(r)));
    } else {
        lemma_d_peek(s);
        assert(built(s) + Seq::<TreeEvent>::empty() =~= built(s));
    }
}

proof fn lemma_d_key(s: State)
    requires
        good(s),
        s.key().0.errors.len() == 0,
    ensures
        built(s.key().0) == built(s) + key_walk(all(s), at(s), at(s.key().0)),
{
    lemma_g_ident(s);
    let q = s.ident().0;
    lemma_g_error(q, "expected identifier"@);
    lemma_g_key_rest(q, false);
    lemma_d_key_rest(q, false);
    lemma_d_ident(s);
    lemma_key_joined(all(s), at(s), at(s.key().0));
    assert(built(s.key().0) =~= built(s) + key_walk(all(s), at(s), at(s.key().0)));
}

/// A key in a node of its own.
proof fn lemma_d_key_node(s: State)
    requires
        good(s),
        s.open(SyntaxKind::KEY).key().0.errors.len() == 0,
    ensures
        ({
            let c = s.open(SyntaxKind::KEY).key().0.close();
            built(c) == built(s) + node(SyntaxKind::KEY, key_walk(all(s), at(s), at(c)))
        }),
{
    let o = s.open(SyntaxKind::KEY);
    lemma_d_key(o);
    let c = o.key().0.close();
    assert(built(c) =~= built(s) + node(SyntaxKind::KEY, key_walk(all(s), at(s), at(c))));
}

proof fn lemma_d_scalar(s: State)
    requires
        good(s),
        s.current is Some,
        s.current->0 != SyntaxKind::BRACKET_START,
        s.current->0 != SyntaxKind::BRACE_START,
        s.value().0.errors.len() == 0,
    ensures
        built(s.value().0) == built(s).push(own(all(s)[at(s)])),
{
    lemma_g_peek(s);
    lemma_current(s);
    lemma_g_scalar(s);
    lemma_g_token(s);
    let t = s.current->0;
    if t == SyntaxKind::BOOL || t == SyntaxKind::DATE {
        lemma_d_token(s);
    } else if t == SyntaxKind::INTEGER_BIN || t == SyntaxKind::INTEGER_HEX || t
        == SyntaxKind::INTEGER_OCT || t == SyntaxKind::FLOAT || t == SyntaxKind::INTEGER {
        lemma_g_error(s, "invalid underscores"@);
        lemma_g_error(s, "zero-padded integers are not allowed"@);
        lemma_d_token(s);
    } else if t == SyntaxKind::STRING_LITERAL {
        let offsets = forbidden_offsets(s.text, false);
        let message = "invalid control character in string literal"@;
        lemma_report_at(s, offsets, message);
        lemma_d_token(s.report_at(offsets, message));
    } else if t == SyntaxKind::MULTI_LINE_STRING_LITERAL {
        let offsets = forbidden_offsets(s.text, true);
        let message = "invalid character in string"@;
        lemma_report_at(s, offsets, message);
        lemma_d_token(s.report_at(offsets, message));
    } else if t == SyntaxKind::STRING || t == SyntaxKind::MULTI_LINE_STRING {
        let offsets = forbidden_offsets(s.text, t == SyntaxKind::MULTI_LINE_STRING);
        let message = "invalid character in string"@;
        lemma_report_at(s, offsets, message);
        let q = s.report_at(offsets, message);
        lemma_report_at(q, escape_errors(s.text, 0), "invalid escape sequence"@);
        lemma_d_token(q.report_at(escape_errors(s.text, 0), "invalid escape sequence"@));
    } else {
        lemma_g_error(s, "expected value"@);
    }
}

proof fn lemma_d_value(s: State) -> (t: Seq<TreeEvent>)
    requires
        good(s),
        s.value().0.errors.len() == 0,
    ensures
        value_walk(all(s), at(s), at(s.value().0), t),
        built(s.value().0) == built(s) + t,
    decreases s.left(), 5int,
{
    lemma_g_peek(s);
    lemma_peek(s);
    lemma_g_value(s);
    let p = s.peek();
    let ws = all(s);
    let i = at(s);
    if p.current is None {
        lemma_g_error(p, "expected value"@);
    }
    assert(p.peek() == p);
    assert(s.value() == p.value());
    lemma_g_value(p);
    lemma_d_peek(s);
    let j = at(s.value().0);
    if p.current->0 == SyntaxKind::BRACKET_START {
        let o = p.open(SyntaxKind::ARRAY);
        let (m, closed) = lemma_d_array(o);
        let t = node(SyntaxKind::ARRAY, seq![own(ws[i])] + m + closing(ws, j, closed));
        assert(is_list(t, SyntaxKind::ARRAY, own(ws[i]), m, closing(ws, j, closed)));
        assert(built(s.value().0) =~= built(s) + t);
        t
    } else if p.current->0 == SyntaxKind::BRACE_START {
        let o = p.open(SyntaxKind::INLINE_TABLE);
        let (m, closed) = lemma_d_inline_table(o);
        let t = node(SyntaxKind::INLINE_TABLE, seq![own(ws[i])] + m + closing(ws, j, closed));
        assert(is_list(t, SyntaxKind::INLINE_TABLE, own(ws[i]), m, closing(ws, j, closed)));
        assert(built(s.value().0) =~= built(s) + t);
        t
    } else {
        lemma_g_scalar(p);
        lemma_d_scalar(p);
        let t = seq![own(ws[i])];
        assert(built(s.value().0) =~= built(s) + t);
        t
    }
}

/// The index behind what is listed by the words up to `j`.
spec fn list_end(j: int, closed: bool) -> int {
    if closed {
        j - 1
    } else {
        j
    }
}

proof fn lemma_d_array(s: State) -> (list: (Seq<TreeEvent>, bool))
    requires
        good(s),
        s.array().0.errors.len() == 0,
    ensures
        ({
            let (m, closed) = list;
            let ws = all(s);
            let i = at(s);
            let j = at(s.array().0);
            &&& word_is(ws, i, SyntaxKind::BRACKET_START)
            &&& elements_walk(ws, i + 1, list_end(j, closed), true, m)
            &&& if closed {
                word_is(ws, j - 1, SyntaxKind::BRACKET_END)
            } else {
                j == ws.len()
            }
            &&& built(s.array().0) == built(s) + (seq![own(ws[i])] + m + closing(ws, j, closed))
        }),
    decreases s.left(), 4int,
{
    let message = "expected \"[\""@;
    lemma_g_array(s);
    lemma_g_expect(s, SyntaxKind::BRACKET_START, message);
    lemma_expect(s, SyntaxKind::BRACKET_START, message);
    let r = s.expect(SyntaxKind::BRACKET_START, message).0;
    lemma_g_array_rest(r, true, false);
    lemma_d_expect(s, SyntaxKind::BRACKET_START, message);
    let (m, closed) = lemma_d_array_rest(r, true, false);
    assert(built(s.array().0) =~= built(s) + (seq![own(all(s)[at(s)])] + m + closing(
        all(s),
        at(s.array().0),
        closed,
    )));
    (m, closed)
}

proof fn lemma_join_word(
    x: Seq<TreeEvent>,
    e: TreeEvent,
    b: Seq<TreeEvent>,
    c: Seq<TreeEvent>,
)
    ensures
        x.push(e) + (b + c) == x + (seq![e] + b + c),
{
    assert(x.push(e) + (b + c) =~= x + (seq![e] + b + c));
}

proof fn lemma_join_node(
    x: Seq<TreeEvent>,
    kind: SyntaxKind,
    a: Seq<TreeEvent>,
    b: Seq<TreeEvent>,
    c: Seq<TreeEvent>,
)
    ensures
        (x.push(TreeEvent::Open { kind: kind.number() }) + a).push(TreeEvent::Close) + (b + c)
            == x + (node(kind, a) + b + c),
{
    assert((x.push(TreeEvent::Open { kind: kind.number() }) + a).push(TreeEvent::Close) + (b + c)
        =~= x + (node(kind, a) + b + c));
}

/// A line break or a comma in an array.
proof fn lemma_array_word(s: State, first: bool, comma_last: bool) -> (q: State)
    requires
        good(s),
        s.array_rest(first, comma_last).0.errors.len() == 0,
        s.peek().current == Some(SyntaxKind::NEWLINE) || s.peek().current == Some(
            SyntaxKind::COMMA,
        ),
    ensures
        good(q),
        q.toks == s.toks,
        q.left() < s.left(),
        at(q) == at(s) + 1,
        0 <= at(s) < all(s).len(),
        built(q) == built(s).push(own(all(s)[at(s)])),
        word_is(all(s), at(s), SyntaxKind::NEWLINE) ==> s.array_rest(first, comma_last)
            == q.array_rest(first, comma_last),
        !word_is(all(s), at(s), SyntaxKind::NEWLINE) ==> {
            &&& word_is(all(s), at(s), SyntaxKind::COMMA)
            &&& !first && !comma_last
            &&& s.array_rest(first, comma_last) == q.array_rest(false, true)
        },
{
    lemma_g_peek(s);
    lemma_peek(s);
    let p = s.peek();
    lemma_g_token(p);
    lemma_token(p);
    let q = p.token().0;
    if p.current == Some(SyntaxKind::NEWLINE) {
        lemma_g_array_rest(q, first, comma_last);
    } else if first || comma_last {
        let e = p.error("unexpected \",\""@);
        lemma_g_error(p, "unexpected \",\""@);
        lemma_g_token(e);
        if e.token().1 {
            lemma_g_array_rest(e.token().0, false, true);
        }
    } else {
        lemma_g_array_rest(q, false, true);
    }
    lemma_d_token(p);
    lemma_d_peek(s);
    q
}

/// An element of an array: the state before its value, and the one behind
/// its node.
proof fn lemma_array_value(s: State, first: bool, comma_last: bool) -> (around: (State, State))
    requires
        good(s),
        s.array_rest(first, comma_last).0.errors.len() == 0,
        s.peek().current matches Some(t) && t != SyntaxKind::NEWLINE && t != SyntaxKind::COMMA
            && t != SyntaxKind::BRACKET_END,
    ensures
        ({
            let (o, c) = around;
            &&& first || comma_last
            &&& good(o) && good(c)
            &&& o.toks == s.toks && c.toks == s.toks
            &&& o.left() <= s.left() && c.left() < s.left()
            &&& o.value().0.errors.len() == 0
            &&& at(o) == at(s) && at(c) == at(o.value().0)
            &&& built(o) == built(s).push(TreeEvent::Open { kind: SyntaxKind::VALUE.number() })
            &&& built(c) == built(o.value().0).push(TreeEvent::Close)
            &&& s.array_rest(first, comma_last) == c.array_rest(false, false)
        }),
{
    lemma_g_peek(s);
    lemma_peek(s);
    let p = s.peek();
    let in_place = first || comma_last;
    lemma_g_array_element(p, in_place);
    let c = p.array_element(in_place);
    if c.errors.len() == 0 {
        lemma_at_left(p, c);
    }
    if s.goes_on(c, in_place) {
        lemma_g_array_rest(c, false, false);
    }
    let o = p.allow(SyntaxKind::COMMA).open(SyntaxKind::VALUE);
    assert(c == o.value().0.close().disallow(SyntaxKind::COMMA));
    lemma_g_value(o);
    lemma_d_peek(s);
    (o, c)
}

/// The end of an array, or of the text.
proof fn lemma_array_end(s: State, first: bool, comma_last: bool)
    requires
        good(s),
        s.array_rest(first, comma_last).0.errors.len() == 0,
        s.peek().current is None || s.peek().current == Some(SyntaxKind::BRACKET_END),
    ensures
        ({
            let r = s.array_rest(first, comma_last).0;
            let closed = s.peek().current is Some;
            &&& 0 <= at(s) <= all(s).len()
            &&& closed ==> word_is(all(s), at(s), SyntaxKind::BRACKET_END) && at(r) == at(s) + 1
            &&& !closed ==> at(r) == at(s) && at(s) == all(s).len()
            &&& built(r) == built(s) + closing(all(s), at(r), closed)
        }),
{
    lemma_g_peek(s);
    lemma_current(s);
    let p = s.peek();
    let r = s.array_rest(first, comma_last).0;
    if p.current is Some {
        lemma_g_token(p);
        lemma_d_token(p);
    }
    lemma_d_peek(s);
    assert(built(r) =~= built(s) + closing(all(s), at(r), p.current is Some));
}

proof fn lemma_d_array_rest(s: State, first: bool, comma_last: bool) -> (list: (
    Seq<TreeEvent>,
    bool,
))
    requires
        good(s),
        s.array_rest(first, comma_last).0.errors.len() == 0,
    ensures
        ({
            let (m, closed) = list;
            let ws = all(s);
            let j = at(s.array_rest(first, comma_last).0);
            &&& elements_walk(ws, at(s), list_end(j, closed), first || comma_last, m)
            &&& if closed {
                word_is(ws, j - 1, SyntaxKind::BRACKET_END)
            } else {
                j == ws.len()
            }
            &&& built(s.array_rest(first, comma_last).0) == built(s) + (m + closing(
                ws,
                j,
                closed,
            ))
        }),
    decreases
            s.left(),
            if first || comma_last {
                11int
            } else {
                10int
            },
{
    let ws = all(s);
    let i = at(s);
    let r = s.array_rest(first, comma_last).0;
    let j = at(r);
    let current = s.peek().current;
    if current is None || current == Some(SyntaxKind::BRACKET_END) {
        lemma_array_end(s, first, comma_last);
        let m = Seq::<TreeEvent>::empty();
        assert(m + closing(ws, j, current is Some) =~= closing(ws, j, current is Some));
        (m, current is Some)
    } else if current == Some(SyntaxKind::NEWLINE) || current == Some(SyntaxKind::COMMA) {
        let q = lemma_array_word(s, first, comma_last);
        let (b, closed) = if word_is(ws, i, SyntaxKind::NEWLINE) {
            lemma_d_array_rest(q, first, comma_last)
        } else {
            lemma_d_array_rest(q, false, true)
        };
        let m = seq![own(ws[i])] + b;
        assert(m.skip(1) =~= b);
        lemma_join_word(built(s), own(ws[i]), b, closing(ws, j, closed));
        (m, closed)
    } else {
        let (o, c) = lemma_array_value(s, first, comma_last);
        let a = lemma_d_value(o);
        let (b, closed) = lemma_d_array_rest(c, false, false);
        let m = node(SyntaxKind::VALUE, a) + b;
        assert(joined(m, node(SyntaxKind::VALUE, a), b));
        assert(splits(i, at(c), list_end(j, closed)));
        lemma_join_node(built(s), SyntaxKind::VALUE, a, b, closing(ws, j, closed));
        (m, closed)
    }
}

proof fn lemma_d_inline_table(s: State) -> (list: (Seq<TreeEvent>, bool))
    requires
        good(s),
        s.inline_table().0.errors.len() == 0,
    ensures
        ({
            let (m, closed) = list;
            let ws = all(s);
            let i = at(s);
            let j = at(s.inline_table().0);
            &&& word_is(ws, i, SyntaxKind::BRACE_START)
            &&& entries_walk(ws, i + 1, list_end(j, closed), true, false, m)
            &&& if closed {
                word_is(ws, j - 1, SyntaxKind::BRACE_END)
            } else {
                j == ws.len()
            }
            &&& built(s.inline_table().0) == built(s) + (seq![own(ws[i])] + m + closing(
                ws,
                j,
                closed,
            ))
        }),
    decreases s.left(), 4int,
{
    let message = "expected \"{\""@;
    lemma_g_inline_table(s);
    lemma_g_expect(s, SyntaxKind::BRACE_START, message);
    lemma_expect(s, SyntaxKind::BRACE_START, message);
    let r = s.expect(SyntaxKind::BRACE_START, message).0;
    lemma_g_table_rest(r, true, false, false);
    lemma_d_expect(s, SyntaxKind::BRACE_START, message);
    let (m, closed) = lemma_d_table_rest(r, true, false);
    assert(built(s.inline_table().0) =~= built(s) + (seq![own(all(s)[at(s)])] + m + closing(
        all(s),
        at(s.inline_table().0),
        closed,
    )));
    (m, closed)
}

/// A comma in an inline table; no line break stands in one.
proof fn lemma_table_word(s: State, first: bool, comma_last: bool) -> (q: State)
    requires
        good(s),
        s.table_rest(first, comma_last, false).0.errors.len() == 0,
        s.peek().current == Some(SyntaxKind::NEWLINE) || s.peek().current == Some(
            SyntaxKind::COMMA,
        ),
    ensures
        good(q),
        q.toks == s.toks,
        q.left() < s.left(),
        at(q) == at(s) + 1,
        0 <= at(s) < all(s).len(),
        built(q) == built(s).push(own(all(s)[at(s)])),
        word_is(all(s), at(s), SyntaxKind::COMMA),
        !first,
        s.table_rest(first, comma_last, false) == q.table_rest(false, true, false),
{
    lemma_g_peek(s);
    lemma_peek(s);
    let p = s.peek();
    lemma_g_token(p);
    lemma_token(p);
    let q = p.token().0;
    if p.current == Some(SyntaxKind::NEWLINE) {
        let message = "newline is not allowed in an inline table"@;
        lemma_g_error(p, message);
        lemma_g_table_rest(p.error(message), false, comma_last, true);
    } else if first {
        lemma_g_error(p, "unexpected \",\""@);
        lemma_g_table_rest(p.error("unexpected \",\""@), false, true, false);
    } else {
        lemma_g_table_rest(q, false, true, false);
        lemma_d_token(p);
        lemma_d_peek(s);
    }
    q
}

/// An entry of an inline table: the state before it, and the one behind its
/// node.
proof fn lemma_table_entry(s: State, first: bool, comma_last: bool) -> (around: (State, State))
    requires
        good(s),
        s.table_rest(first, comma_last, false).0.errors.len() == 0,
        s.peek().current matches Some(t) && t != SyntaxKind::NEWLINE && t != SyntaxKind::COMMA
            && t != SyntaxKind::BRACE_END,
    ensures
        ({
            let (o, c) = around;
            &&& first || comma_last
            &&& good(o) && good(c)
            &&& o.toks == s.toks && c.toks == s.toks
            &&& o.left() <= s.left() && c.left() < s.left()
            &&& o.entry().0.errors.len() == 0
            &&& at(o) == at(s) && at(c) == at(o.entry().0) && at(s) < at(c)
            &&& built(o) == built(s).push(TreeEvent::Open { kind: SyntaxKind::ENTRY.number() })
            &&& built(c) == built(o.entry().0).push(TreeEvent::Close)
            &&& s.table_rest(first, comma_last, false) == c.table_rest(false, false, false)
        }),
{
    lemma_g_peek(s);
    lemma_peek(s);
    let p = s.peek();
    let in_place = first || comma_last;
    lemma_g_table_element(p, in_place);
    let c = p.table_element(in_place);
    if c.errors.len() == 0 {
        lemma_at_left(p, c);
    }
    if s.goes_on(c, in_place) {
        lemma_g_table_rest(c, false, false, false);
    }
    let o = p.allow(SyntaxKind::COMMA).open(SyntaxKind::ENTRY);
    assert(c == o.entry().0.close().disallow(SyntaxKind::COMMA));
    lemma_g_entry(o);
    lemma_d_peek(s);
    (o, c)
}

/// The end of an inline table, or of the text.
proof fn lemma_table_end(s: State, first: bool, comma_last: bool)
    requires
        good(s),
        s.table_rest(first, comma_last, false).0.errors.len() == 0,
        s.peek().current is None || s.peek().current == Some(SyntaxKind::BRACE_END),
    ensures
        ({
            let r = s.table_rest(first, comma_last, false).0;
            let closed = s.peek().current is Some;
            &&& 0 <= at(s) <= all(s).len()
            &&& closed ==> {
                &&& word_is(all(s), at(s), SyntaxKind::BRACE_END)
                &&& at(r) == at(s) + 1
                &&& !comma_last
            }
            &&& !closed ==> at(r) == at(s) && at(s) == all(s).len()
            &&& built(r) == built(s) + closing(all(s), at(r), closed)
        }),
{
    lemma_g_peek(s);
    lemma_current(s);
    let p = s.peek();
    let r = s.table_rest(first, comma_last, false).0;
    if p.current is Some {
        let message = "expected value, trailing comma is not allowed"@;
        assert(p.report(message).errors.len() > 0);
        lemma_g_token(p.report(message));
        lemma_g_token(p);
        lemma_d_token(p);
    }
    lemma_d_peek(s);
    assert(built(r) =~= built(s) + closing(all(s), at(r), p.current is Some));
}

proof fn lemma_d_table_rest(s: State, first: bool, comma_last: bool) -> (list: (
    Seq<TreeEvent>,
    bool,
))
    requires
        good(s),
        s.table_rest(first, comma_last, false).0.errors.len() == 0,
    ensures
        ({
            let (m, closed) = list;
            let ws = all(s);
            let j = at(s.table_rest(first, comma_last, false).0);
            &&& entries_walk(ws, at(s), list_end(j, closed), first, comma_last, m)
            &&& if closed {
                word_is(ws, j - 1, SyntaxKind::BRACE_END)
            } else {
                j == ws.len()
            }
            &&& built(s.table_rest(first, comma_last, false).0) == built(s) + (m + closing(
                ws,
                j,
                closed,
            ))
        }),
    decreases
            s.left(),
            11 + (if first {
                4int
            } else {
                0int
            }) + (if comma_last {
                2int
            } else {
                0int
            }),
{
    let ws = all(s);
    let i = at(s);
    let r = s.table_rest(first, comma_last, false).0;
    let j = at(r);
    let current = s.peek().current;
    if current is None || current == Some(SyntaxKind::BRACE_END) {
        lemma_table_end(s, first, comma_last);
        let m = Seq::<TreeEvent>::empty();
        assert(m + closing(ws, j, current is Some) =~= closing(ws, j, current is Some));
        (m, current is Some)
    } else if current == Some(SyntaxKind::NEWLINE) || current == Some(SyntaxKind::COMMA) {
        let q = lemma_table_word(s, first, comma_last);
        let (b, closed) = lemma_d_table_rest(q, false, true);
        let m = seq![own(ws[i])] + b;
        assert(m.skip(1) =~= b);
        lemma_join_word(built(s), own(ws[i]), b, closing(ws, j, closed));
        (m, closed)
    } else {
        let (o, c) = lemma_table_entry(s, first, comma_last);
        let a = lemma_d_entry(o);
        let (b, closed) = lemma_d_table_rest(c, false, false);
        let m = node(SyntaxKind::ENTRY, a) + b;
        assert(joined(m, node(SyntaxKind::ENTRY, a), b));
        assert(splits(i, at(c), list_end(j, closed)));
        lemma_join_node(built(s), SyntaxKind::ENTRY, a, b, closing(ws, j, closed));
        (m, closed)
    }
}

proof fn lemma_d_entry(s: State) -> (t: Seq<TreeEvent>)
    requires
        good(s),
        s.entry().0.errors.len() == 0,
    ensures
        entry_walk(all(s), at(s), at(s.entry().0), t),
        built(s.entry().0) == built(s) + t,
    decreases s.left(), 6int,
{
    let ws = all(s);
    let i = at(s);
    let o = s.open(SyntaxKind::KEY);
    lemma_g_entry(s);
    lemma_g_key(o);
    lemma_key(o);
    let c = o.key().0.close();
    let message = "expected \"=\""@;
    lemma_g_expect(c, SyntaxKind::EQ, message);
    lemma_expect(c, SyntaxKind::EQ, message);
    let r = c.expect(SyntaxKind::EQ, message).0;
    let v = r.open(SyntaxKind::VALUE);
    lemma_g_value(v);
    lemma_d_key_node(s);
    lemma_d_expect(c, SyntaxKind::EQ, message);
    let a = lemma_d_value(v);
    let k = at(c);
    let t = node(SyntaxKind::KEY, key_walk(ws, i, k)) + seq![own(ws[k])] + node(
        SyntaxKind::VALUE,
        a,
    );
    assert(is_entry(t, key_walk(ws, i, k), own(ws[k]), a));
    assert(splits(i, k, at(s.entry().0) - 1));
    assert(built(s.entry().0) =~= built(s) + t);
    t
}

proof fn lemma_d_table_header(s: State)
    requires
        good(s),
        s.table_header().0.errors.len() == 0,
    ensures
        ({
            let ws = all(s);
            let i = at(s);
            let j = at(s.table_header().0);
            built(s.table_header().0) == built(s) + (seq![own(ws[i])] + node(
                SyntaxKind::KEY,
                key_walk(ws, i + 1, j - 1),
            ) + seq![own(ws[j - 1])])
        }),
{
    lemma_g_expect(s, SyntaxKind::BRACKET_START, "expected \"[\""@);
    let r = s.expect(SyntaxKind::BRACKET_START, "expected \"[\""@).0;
    lemma_g_key(r.open(SyntaxKind::KEY));
    let k = r.open(SyntaxKind::KEY).key().0.close();
    lemma_g_expect(k, SyntaxKind::BRACKET_END, "expected \"]\""@);
    lemma_d_expect(s, SyntaxKind::BRACKET_START, "expected \"[\""@);
    lemma_d_key_node(r);
    lemma_d_expect(k, SyntaxKind::BRACKET_END, "expected \"]\""@);
    let ws = all(s);
    let i = at(s);
    let j = at(s.table_header().0);
    assert(built(s.table_header().0) =~= built(s) + (seq![own(ws[i])] + node(
        SyntaxKind::KEY,
        key_walk(ws, i + 1, j - 1),
    ) + seq![own(ws[j - 1])]));
}

proof fn lemma_d_table_array_header(s: State)
    requires
        good(s),
        s.table_array_header().0.errors.len() == 0,
    ensures
        ({
            let ws = all(s);
            let i = at(s);
            let j = at(s.table_array_header().0);
            built(s.table_array_header().0) == built(s) + (seq![own(ws[i]), own(ws[i + 1])] + node(
                SyntaxKind::KEY,
                key_walk(ws, i + 2, j - 2),
            ) + seq![own(ws[j - 2]), own(ws[j - 1])])
        }),
{
    let start = "expected \"[[\""@;
    let stop = "expected \"]]\""@;
    lemma_g_expect(s, SyntaxKind::BRACKET_START, start);
    let r = s.expect(SyntaxKind::BRACKET_START, start).0;
    lemma_g_expect(r, SyntaxKind::BRACKET_START, start);
    let q = r.expect(SyntaxKind::BRACKET_START, start).0;
    lemma_g_key(q.open(SyntaxKind::KEY));
    let k = q.open(SyntaxKind::KEY).key().0.close();
    lemma_g_expect(k, SyntaxKind::BRACKET_END, stop);
    let e = k.expect(SyntaxKind::BRACKET_END, stop).0;
    lemma_g_expect(e, SyntaxKind::BRACKET_END, stop);
    lemma_d_expect(s, SyntaxKind::BRACKET_START, start);
    lemma_d_expect(r, SyntaxKind::BRACKET_START, start);
    lemma_d_key_node(q);
    lemma_d_expect(k, SyntaxKind::BRACKET_END, stop);
    lemma_d_expect(e, SyntaxKind::BRACKET_END, stop);
    let ws = all(s);
    let i = at(s);
    let j = at(s.table_array_header().0);
    assert(built(s.table_array_header().0) =~= built(s) + (seq![own(ws[i]), own(ws[i + 1])] + node(
        SyntaxKind::KEY,
        key_walk(ws, i + 2, j - 2),
    ) + seq![own(ws[j - 2]), own(ws[j - 1])]));
}

proof fn lemma_d_header_line(s: State) -> (t: Seq<TreeEvent>)
    requires
        good(s),
        s.current == Some(SyntaxKind::BRACKET_START),
        s.header_line().errors.len() == 0,
    ensures
        line_walk(all(s), at(s), at(s.header_line()), t),
        built(s.header_line()) == built(s) + t,
{
    lemma_current(s);
    lemma_g_header_line(s);
    let a = s.allow(SyntaxKind::NEWLINE);
    let ws = all(s);
    let i = at(s);
    let j = at(s.header_line());
    if s.bracket_follows() {
        let o = a.open(SyntaxKind::TABLE_ARRAY_HEADER);
        lemma_g_table_array_header(o);
        lemma_d_table_array_header(o);
        let t = node(
            SyntaxKind::TABLE_ARRAY_HEADER,
            seq![own(ws[i]), own(ws[i + 1])] + node(SyntaxKind::KEY, key_walk(ws, i + 2, j - 2))
                + seq![own(ws[j - 2]), own(ws[j - 1])],
        );
        assert(built(s.header_line()) =~= built(s) + t);
        t
    } else {
        let o = a.open(SyntaxKind::TABLE_HEADER);
        lemma_g_table_header(o);
        lemma_d_table_header(o);
        let t = node(
            SyntaxKind::TABLE_HEADER,
            seq![own(ws[i])] + node(SyntaxKind::KEY, key_walk(ws, i + 1, j - 1)) + seq![
                own(ws[j - 1]),
            ],
        );
        assert(built(s.header_line()) =~= built(s) + t);
        t
    }
}

/// What leaves the node of an entry, if one is open.
spec fn entry_end(entry_started: bool) -> Seq<TreeEvent> {
    if entry_started {
        seq![TreeEvent::Close]
    } else {
        Seq::empty()
    }
}

/// A line break.
proof fn lemma_lines_break(s: State, not_newline: bool, entry_started: bool) -> (q: State)
    requires
        good(s),
        s.lines(not_newline, entry_started).errors.len() == 0,
        s.peek().current == Some(SyntaxKind::NEWLINE),
    ensures
        good(q),
        q.toks == s.toks,
        q.left() < s.left(),
        at(q) == at(s) + 1,
        word_is(all(s), at(s), SyntaxKind::NEWLINE),
        built(q) == (built(s) + entry_end(entry_started)).push(own(all(s)[at(s)])),
        s.lines(not_newline, entry_started) == q.lines(false, false),
{
    lemma_g_peek(s);
    lemma_peek(s);
    let p = s.peek();
    let c = p.close_entry(entry_started);
    lemma_g_token(c);
    lemma_token(c);
    let q = c.token().0;
    lemma_g_lines(q, false, false);
    lemma_d_token(c);
    lemma_d_peek(s);
    assert(built(c) =~= built(s) + entry_end(entry_started));
    q
}

/// Something on a line stands there alone.
proof fn lemma_lines_first(s: State, not_newline: bool, entry_started: bool)
    requires
        good(s),
        s.lines(not_newline, entry_started).errors.len() == 0,
        s.peek().current matches Some(t) && t != SyntaxKind::NEWLINE,
    ensures
        !not_newline,
{
    if not_newline {
        lemma_g_peek(s);
        let p = s.peek();
        let c = p.close_entry(entry_started);
        let message = "expected new line"@;
        if p.current == Some(SyntaxKind::BRACKET_START) {
            lemma_g_error(c, message);
            if s.goes_on(c.error(message), false) {
                lemma_g_lines(c.error(message), true, false);
            }
        } else {
            lemma_g_error(p, message);
            if s.goes_on(p.error(message), false) {
                lemma_g_lines(p.error(message), true, entry_started);
            }
        }
    }
}

/// A header on a line: the state behind it, and its walk.
proof fn lemma_lines_header(s: State) -> (line: (State, Seq<TreeEvent>))
    requires
        good(s),
        s.lines(false, false).errors.len() == 0,
        s.peek().current == Some(SyntaxKind::BRACKET_START),
    ensures
        ({
            let (c, a) = line;
            &&& good(c) && c.toks == s.toks && c.left() < s.left()
            &&& splits(at(s), at(c), all(s).len() as int)
            &&& line_walk(all(s), at(s), at(c), a)
            &&& built(c) == built(s) + a
            &&& s.lines(false, false) == c.lines(true, false)
        }),
{
    lemma_g_peek(s);
    lemma_peek(s);
    let p = s.peek();
    lemma_g_header_line(p);
    let c = p.header_line();
    if c.errors.len() == 0 {
        lemma_at_left(p, c);
    }
    if s.goes_on(c, true) {
        lemma_g_lines(c, true, false);
    }
    lemma_current(c);
    lemma_d_peek(s);
    let a = lemma_d_header_line(p);
    (c, a)
}

/// An entry on a line: the state behind it, and its walk.
proof fn lemma_lines_entry(s: State) -> (line: (State, Seq<TreeEvent>))
    requires
        good(s),
        s.lines(false, false).errors.len() == 0,
        s.peek().current matches Some(t) && t != SyntaxKind::NEWLINE && t
            != SyntaxKind::BRACKET_START,
    ensures
        ({
            let (c, a) = line;
            &&& good(c) && c.toks == s.toks && c.left() < s.left()
            &&& splits(at(s), at(c), all(s).len() as int)
            &&& entry_walk(all(s), at(s), at(c), a)
            &&& built(c) == built(s).push(
                TreeEvent::Open { kind: SyntaxKind::ENTRY.number() },
            ) + a
            &&& s.lines(false, false) == c.lines(true, true)
        }),
{
    lemma_g_peek(s);
    lemma_peek(s);
    let p = s.peek();
    let o = p.open(SyntaxKind::ENTRY).allow(SyntaxKind::NEWLINE);
    lemma_g_entry(o);
    let c = p.entry_line();
    if c.errors.len() == 0 {
        lemma_at_left(p, c);
    }
    if s.goes_on(c, true) {
        lemma_g_lines(c, true, true);
    }
    lemma_current(c);
    lemma_d_peek(s);
    let a = lemma_d_entry(o);
    (c, a)
}

/// Nothing is left.
proof fn lemma_lines_end(s: State, not_newline: bool, entry_started: bool)
    requires
        good(s),
        s.lines(not_newline, entry_started).errors.len() == 0,
        s.peek().current is None,
    ensures
        at(s) == all(s).len(),
        built(s.lines(not_newline, entry_started)) == built(s) + entry_end(entry_started),
{
    lemma_g_peek(s);
    lemma_d_peek(s);
    let r = s.lines(not_newline, entry_started);
    assert(built(r) =~= built(s) + entry_end(entry_started));
}

proof fn lemma_break_joined(ws: Seq<Word>, i: int, line_next: bool, b: Seq<TreeEvent>)
    requires
        word_is(ws, i, SyntaxKind::NEWLINE),
        lines_walk(ws, i + 1, true, b),
    ensures
        lines_walk(ws, i, line_next, seq![own(ws[i])] + b),
{
    assert((seq![own(ws[i])] + b).skip(1) =~= b);
}

proof fn lemma_line_joined(ws: Seq<Word>, i: int, j: int, a: Seq<TreeEvent>, b: Seq<TreeEvent>)
    requires
        0 <= i,
        splits(i, j, ws.len() as int),
        line_walk(ws, i, j, a),
        lines_walk(ws, j, false, b),
    ensures
        lines_walk(ws, i, true, a + b),
{
    assert(joined(a + b, a, b));
}

#[verifier::rlimit(40)]
proof fn lemma_d_after_header(s: State) -> (t: Seq<TreeEvent>)
    requires
        good(s),
        s.lines(false, false).errors.len() == 0,
        s.peek().current == Some(SyntaxKind::BRACKET_START),
    ensures
        lines_walk(all(s), at(s), true, t),
        built(s.lines(false, false)) == built(s) + t,
    decreases s.left(), 0int,
{
    lemma_current(s);
    let (c, a) = lemma_lines_header(s);
    let b = lemma_d_lines(c, true, false);
    lemma_line_joined(all(s), at(s), at(c), a, b);
    assert(built(s) + a + entry_end(false) + b =~= built(s) + (a + b));
    a + b
}

#[verifier::rlimit(40)]
proof fn lemma_d_after_entry(s: State) -> (t: Seq<TreeEvent>)
    requires
        good(s),
        s.lines(false, false).errors.len() == 0,
        s.peek().current matches Some(t) && t != SyntaxKind::NEWLINE && t
            != SyntaxKind::BRACKET_START,
    ensures
        lines_walk(all(s), at(s), true, t),
        built(s.lines(false, false)) == built(s) + t,
    decreases s.left(), 0int,
{
    lemma_current(s);
    let (c, inside) = lemma_lines_entry(s);
    let b = lemma_d_lines(c, true, true);
    let a = node(SyntaxKind::ENTRY, inside);
    assert(is_node(a, SyntaxKind::ENTRY, inside));
    lemma_line_joined(all(s), at(s), at(c), a, b);
    let open = TreeEvent::Open { kind: SyntaxKind::ENTRY.number() };
    assert(built(s).push(open) + inside + entry_end(true) + b =~= built(s) + (a + b));
    a + b
}

proof fn lemma_d_after_break(s: State, not_newline: bool, entry_started: bool) -> (t: Seq<
    TreeEvent,
>)
    requires
        good(s),
        s.lines(not_newline, entry_started).errors.len() == 0,
        s.peek().current == Some(SyntaxKind::NEWLINE),
    ensures
        lines_walk(all(s), at(s), !not_newline, t),
        built(s.lines(not_newline, entry_started)) == built(s) + entry_end(entry_started) + t,
    decreases s.left(), 0int,
{
    let q = lemma_lines_break(s, not_newline, entry_started);
    let b = lemma_d_lines(q, false, false);
    let w = own(all(s)[at(s)]);
    lemma_break_joined(all(s), at(s), !not_newline, b);
    let x = built(s) + entry_end(entry_started);
    assert(x.push(w) + entry_end(false) + b =~= x + (seq![w] + b));
    seq![w] + b
}

proof fn lemma_d_lines(s: State, not_newline: bool, entry_started: bool) -> (t: Seq<TreeEvent>)
    requires
        good(s),
        entry_started ==> not_newline,
        s.lines(not_newline, entry_started).errors.len() == 0,
    ensures
        lines_walk(all(s), at(s), !not_newline, t),
        built(s.lines(not_newline, entry_started)) == built(s) + entry_end(entry_started) + t,
    decreases s.left(), 1int,
{
    lemma_current(s);
    let x = built(s) + entry_end(entry_started);
    let current = s.peek().current;
    if current is None {
        lemma_lines_end(s, not_newline, entry_started);
        assert(x + Seq::<TreeEvent>::empty() =~= x);
        Seq::empty()
    } else if current == Some(SyntaxKind::NEWLINE) {
        lemma_d_after_break(s, not_newline, entry_started)
    } else {
        lemma_lines_first(s, not_newline, entry_started);
        assert(x =~= built(s));
        if current == Some(SyntaxKind::BRACKET_START) {
            lemma_d_after_header(s)
        } else {
            lemma_d_after_entry(s)
        }
    }
}

/// The tree of a document is the one that its derivation in the grammar gives:
/// its keys, values, entries, headers, arrays and inline tables are nodes, one
/// inside of the other as the rules are, with the words as their tokens.
pub proof fn trees_are_derivations(toks: Seq<Tok>)
    requires
        is_document(toks),
    ensures
        document_walk(toks, document(toks).tree),
{
    documents_are_accepted(toks);
    lemma_start(toks);
    let s = State::initial(toks).open(SyntaxKind::ROOT);
    let m = lemma_d_lines(s, false, false);
    assert(skeleton(State::initial(toks).tree) == Seq::<TreeEvent>::empty());
    assert(skeleton(document(toks).tree) =~= node(SyntaxKind::ROOT, m));
    assert(is_node(skeleton(document(toks).tree), SyntaxKind::ROOT, m));
}

} // verus!
