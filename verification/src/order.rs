//! In which order nodes and tokens stand in their nodes.
//!
//! All of this holds of every text, of those with errors too.

use vstd::prelude::*;

use crate::model::{
    document, dotted, last_period, lemma_error, lemma_expect, lemma_ident, lemma_key, lemma_peek,
    lemma_token, State, Tok,
};
use crate::preserved::{
    lemma_keeps_entry_line, lemma_keeps_error, lemma_keeps_header_line, lemma_keeps_peek,
    lemma_keeps_token, lemma_whitelist_bits, tiled, valid,
};
use crate::schema::{inside_of, open_kinds, stands_anywhere};
use crate::syntax::{kinds_have_distinct_numbers, SyntaxKind};
use crate::tree::TreeEvent;
use crate::util::allowed_chars::forbidden_offsets;
use crate::util::escape::escape_errors;

verus! {

/// Stands for the last child of a node that has none.
pub open spec fn none() -> u16 {
    1000
}

/// A child becomes the last one of the node that was entered last.
pub open spec fn with_child(lasts: Seq<u16>, kind: u16) -> Seq<u16> {
    if lasts.len() == 0 {
        lasts
    } else {
        lasts.drop_last().push(kind)
    }
}

/// The kinds of the last children of the nodes that a walk has entered and not
/// left yet; blanks, comments and errors do not count.
pub open spec fn last_children(tree: Seq<TreeEvent>) -> Seq<u16>
    decreases tree.len(),
{
    if tree.len() == 0 {
        Seq::empty()
    } else {
        let before = last_children(tree.drop_last());
        match tree.last() {
            TreeEvent::Open { kind } => with_child(before, kind).push(none()),
            TreeEvent::Token { kind, .. } => if stands_anywhere(kind) {
                before
            } else {
                with_child(before, kind)
            },
            TreeEvent::Close => if before.len() > 0 {
                before.drop_last()
            } else {
                before
            },
        }
    }
}

/// A child may follow on the last one in a node.
pub open spec fn follows(parent: SyntaxKind, last: u16, kind: SyntaxKind) -> bool {
    match parent {
        SyntaxKind::ROOT => kind == SyntaxKind::NEWLINE || last == none() || last
            == SyntaxKind::NEWLINE.number(),
        SyntaxKind::ENTRY => {
            ||| kind == SyntaxKind::KEY && last == none()
            ||| kind == SyntaxKind::EQ && last == SyntaxKind::KEY.number()
            ||| kind == SyntaxKind::VALUE && last == SyntaxKind::EQ.number()
        },
        SyntaxKind::KEY => {
            ||| kind == SyntaxKind::IDENT && (last == none() || last == SyntaxKind::PERIOD.number())
            ||| kind == SyntaxKind::PERIOD && last == SyntaxKind::IDENT.number()
        },
        SyntaxKind::VALUE => last == none(),
        SyntaxKind::TABLE_HEADER => {
            ||| kind == SyntaxKind::BRACKET_START && last == none()
            ||| kind == SyntaxKind::KEY && last == SyntaxKind::BRACKET_START.number()
            ||| kind == SyntaxKind::BRACKET_END && last == SyntaxKind::KEY.number()
        },
        SyntaxKind::TABLE_ARRAY_HEADER => {
            ||| kind == SyntaxKind::BRACKET_START && (last == none() || last
                == SyntaxKind::BRACKET_START.number())
            ||| kind == SyntaxKind::KEY && last == SyntaxKind::BRACKET_START.number()
            ||| kind == SyntaxKind::BRACKET_END && (last == SyntaxKind::KEY.number() || last
                == SyntaxKind::BRACKET_END.number())
        },
        SyntaxKind::ARRAY => kind == SyntaxKind::BRACKET_START || last != none(),
        SyntaxKind::INLINE_TABLE => kind == SyntaxKind::BRACE_START || last != none(),
        _ => false,
    }
}

/// The kind of an event that enters a node, or of a token.
pub open spec fn kind_of(e: TreeEvent) -> Option<u16> {
    match e {
        TreeEvent::Open { kind } => Some(kind),
        TreeEvent::Token { kind, .. } => Some(kind),
        TreeEvent::Close => None,
    }
}

/// An event of a walk may follow on what stands before it in its node.
pub open spec fn event_follows(tree: Seq<TreeEvent>, k: int) -> bool {
    forall|parent: SyntaxKind, kind: SyntaxKind|
        inside_of(tree.take(k), parent) && kind_of(tree[k]) == Some(kind.number())
            && !stands_anywhere(kind.number()) && last_children(tree.take(k)).len() > 0
            ==> #[trigger] follows(parent, last_children(tree.take(k)).last(), kind)
}

/// Everything in a walk stands in order.
pub open spec fn in_order(tree: Seq<TreeEvent>) -> bool {
    forall|k: int| 0 <= k < tree.len() ==> #[trigger] event_follows(tree, k)
}

/// In a node of a kind, with the given last children outside of it and in it,
/// all stands in order.
spec fn stands_at(tree: Seq<TreeEvent>, parent: SyntaxKind, outer: Seq<u16>, last: u16) -> bool {
    &&& ordered(tree)
    &&& inside_of(tree, parent)
    &&& open_kinds(tree).len() == outer.len() + 1
    &&& last_children(tree) == outer.push(last)
}

/// Everything in a walk stands in order, for proofs that need not look inside.
#[verifier::opaque]
spec fn ordered(tree: Seq<TreeEvent>) -> bool {
    in_order(tree)
}

proof fn lemma_push(tree: Seq<TreeEvent>, e: TreeEvent)
    ensures
        open_kinds(tree.push(e)) == match e {
            TreeEvent::Open { kind } => open_kinds(tree).push(kind),
            TreeEvent::Token { .. } => open_kinds(tree),
            TreeEvent::Close => if open_kinds(tree).len() > 0 {
                open_kinds(tree).drop_last()
            } else {
                open_kinds(tree)
            },
        },
        last_children(tree.push(e)) == match e {
            TreeEvent::Open { kind } => with_child(last_children(tree), kind).push(none()),
            TreeEvent::Token { kind, .. } => if stands_anywhere(kind) {
                last_children(tree)
            } else {
                with_child(last_children(tree), kind)
            },
            TreeEvent::Close => if last_children(tree).len() > 0 {
                last_children(tree).drop_last()
            } else {
                last_children(tree)
            },
        },
        ordered(tree) && event_follows(tree.push(e), tree.len() as int) ==> ordered(tree.push(e)),
{
    reveal(ordered);
    let t = tree.push(e);
    assert(t.drop_last() =~= tree);
    if ordered(tree) && event_follows(t, tree.len() as int) {
        assert forall|k: int| 0 <= k < t.len() implies #[trigger] event_follows(t, k) by {
            if k < tree.len() {
                assert(event_follows(tree, k));
                assert(t.take(k) =~= tree.take(k));
            }
        }
    }
}

/// A token is added that may follow, or one that may stand anywhere.
proof fn lemma_token_added(
    tree: Seq<TreeEvent>,
    parent: SyntaxKind,
    outer: Seq<u16>,
    last: u16,
    kind: SyntaxKind,
    text: Seq<u8>,
)
    requires
        stands_at(tree, parent, outer, last),
        stands_anywhere(kind.number()) || follows(parent, last, kind),
    ensures
        stands_at(
            tree.push(TreeEvent::Token { kind: kind.number(), text }),
            parent,
            outer,
            if stands_anywhere(kind.number()) {
                last
            } else {
                kind.number()
            },
        ),
{
    let e = TreeEvent::Token { kind: kind.number(), text };
    let t = tree.push(e);
    let k = tree.len() as int;
    lemma_push(tree, e);
    assert(t.take(k) =~= tree);
    assert(outer.push(last).drop_last() =~= outer);
    assert(event_follows(t, k)) by {
        assert forall|other: SyntaxKind, own: SyntaxKind|
            inside_of(t.take(k), other) && kind_of(t[k]) == Some(own.number()) && !stands_anywhere(
                own.number(),
            ) && last_children(t.take(k)).len() > 0 implies #[trigger] follows(
            other,
            last_children(t.take(k)).last(),
            own,
        ) by {
            kinds_have_distinct_numbers(own, kind);
            kinds_have_distinct_numbers(other, parent);
        }
    }
}

/// A node is entered that may follow.
proof fn lemma_entered(
    s: State,
    parent: SyntaxKind,
    outer: Seq<u16>,
    last: u16,
    kind: SyntaxKind,
)
    requires
        stands_at(s.tree, parent, outer, last),
        follows(parent, last, kind),
    ensures
        stands_at(s.open(kind).tree, kind, outer.push(kind.number()), none()),
        open_kinds(s.open(kind).tree) == open_kinds(s.tree).push(kind.number()),
{
    let e = TreeEvent::Open { kind: kind.number() };
    let t = s.tree.push(e);
    let k = s.tree.len() as int;
    lemma_push(s.tree, e);
    assert(t.take(k) =~= s.tree);
    assert(outer.push(last).drop_last() =~= outer);
    assert(event_follows(t, k)) by {
        assert forall|other: SyntaxKind, own: SyntaxKind|
            inside_of(t.take(k), other) && kind_of(t[k]) == Some(own.number()) && !stands_anywhere(
                own.number(),
            ) && last_children(t.take(k)).len() > 0 implies #[trigger] follows(
            other,
            last_children(t.take(k)).last(),
            own,
        ) by {
            kinds_have_distinct_numbers(own, kind);
            kinds_have_distinct_numbers(other, parent);
        }
    }
}

/// A node is left.
proof fn lemma_left(r: State, kind: SyntaxKind, outer: Seq<u16>, last: u16)
    requires
        stands_at(r.tree, kind, outer, last),
    ensures
        ordered(r.close().tree),
        open_kinds(r.close().tree) == open_kinds(r.tree).drop_last(),
        last_children(r.close().tree) == outer,
{
    lemma_push(r.tree, TreeEvent::Close);
    assert(r.tree.push(TreeEvent::Close)[r.tree.len() as int] is Close);
    assert(outer.push(last).drop_last() =~= outer);
}

/// The same nodes are open, and the last child of the innermost one is another.
spec fn goes_to(a: State, b: State, parent: SyntaxKind, outer: Seq<u16>, last: u16) -> bool {
    &&& stands_at(b.tree, parent, outer, last)
    &&& open_kinds(b.tree) == open_kinds(a.tree)
}

/// A node was entered, something was read in it, and it is left.
proof fn lemma_node(
    s: State,
    parent: SyntaxKind,
    outer: Seq<u16>,
    last: u16,
    kind: SyntaxKind,
    r: State,
    inner: u16,
)
    requires
        stands_at(s.tree, parent, outer, last),
        follows(parent, last, kind),
        goes_to(s.open(kind), r, kind, outer.push(kind.number()), inner),
    ensures
        goes_to(s, r.close(), parent, outer, kind.number()),
{
    lemma_entered(s, parent, outer, last, kind);
    lemma_left(r, kind, outer.push(kind.number()), inner);
    assert(open_kinds(s.tree).push(kind.number()).drop_last() =~= open_kinds(s.tree));
}

proof fn lemma_o_step(s: State, parent: SyntaxKind, outer: Seq<u16>, last: u16)
    requires
        stands_at(s.tree, parent, outer, last),
    ensures
        goes_to(s, s.step(), parent, outer, last),
    decreases s.toks.len() - s.pos,
{
    if s.pos < s.toks.len() {
        let n = State { current: None, ..s }.next();
        let kind = s.toks[s.pos].kind;
        let r = if kind == SyntaxKind::COMMENT {
            n.report_at(
                forbidden_offsets(n.text, false),
                "invalid character in comment"@,
            ).emit(kind, n.text)
        } else if kind == SyntaxKind::ERROR {
            n.emit(kind, n.text).report("unexpected token"@)
        } else {
            n.emit(kind, n.text)
        };
        if kind == SyntaxKind::COMMENT || kind == SyntaxKind::ERROR || (kind
            == SyntaxKind::WHITESPACE && s.skip_whitespace) {
            lemma_push(s.tree, TreeEvent::Token { kind: kind.number(), text: n.text });
            lemma_token_added(s.tree, parent, outer, last, kind, n.text);
            lemma_o_step(r, parent, outer, last);
        }
    }
}

proof fn lemma_o_peek(s: State, parent: SyntaxKind, outer: Seq<u16>, last: u16)
    requires
        stands_at(s.tree, parent, outer, last),
    ensures
        goes_to(s, s.peek(), parent, outer, last),
{
    lemma_o_step(s, parent, outer, last);
}

/// The current token goes into the tree as one that may follow.
proof fn lemma_o_token_as(
    s: State,
    parent: SyntaxKind,
    outer: Seq<u16>,
    last: u16,
    kind: SyntaxKind,
)
    requires
        stands_at(s.tree, parent, outer, last),
        stands_anywhere(kind.number()) || follows(parent, last, kind),
    ensures
        goes_to(
            s,
            s.token_as(kind).0,
            parent,
            outer,
            if s.token_as(kind).1 && !stands_anywhere(kind.number()) {
                kind.number()
            } else {
                last
            },
        ),
{
    lemma_o_peek(s, parent, outer, last);
    let p = s.peek();
    if p.current is Some {
        let e = TreeEvent::Token { kind: kind.number(), text: p.text };
        lemma_push(p.tree, e);
        lemma_token_added(p.tree, parent, outer, last, kind, p.text);
        let next = if stands_anywhere(kind.number()) {
            last
        } else {
            kind.number()
        };
        lemma_o_step(p.emit(kind, p.text), parent, outer, next);
    }
}

proof fn lemma_o_error(
    s: State,
    parent: SyntaxKind,
    outer: Seq<u16>,
    last: u16,
    message: Seq<char>,
)
    requires
        stands_at(s.tree, parent, outer, last),
    ensures
        goes_to(s, s.error(message), parent, outer, last),
{
    lemma_o_token_as(s.report(message), parent, outer, last, SyntaxKind::ERROR);
}

proof fn lemma_o_expect(
    s: State,
    parent: SyntaxKind,
    outer: Seq<u16>,
    last: u16,
    kind: SyntaxKind,
    message: Seq<char>,
)
    requires
        stands_at(s.tree, parent, outer, last),
        follows(parent, last, kind),
        !stands_anywhere(kind.number()),
    ensures
        goes_to(
            s,
            s.expect(kind, message).0,
            parent,
            outer,
            if s.expect(kind, message).1 {
                kind.number()
            } else {
                last
            },
        ),
{
    lemma_o_peek(s, parent, outer, last);
    let p = s.peek();
    if p.current == Some(kind) {
        lemma_o_token_as(p, parent, outer, last, kind);
    } else if p.current is Some {
        lemma_o_error(p, parent, outer, last, message);
    }
}

/// The parts of a dotted text, in order.
proof fn lemma_o_dotted(tree: Seq<TreeEvent>, outer: Seq<u16>, last: u16, text: Seq<u8>)
    requires
        stands_at(tree, SyntaxKind::KEY, outer, last),
        follows(SyntaxKind::KEY, last, SyntaxKind::IDENT),
    ensures
        stands_at(tree + dotted(text), SyntaxKind::KEY, outer, SyntaxKind::IDENT.number()),
        open_kinds(tree + dotted(text)) == open_kinds(tree),
    decreases text.len(),
{
    let at = last_period(text);
    let d = dotted(text);
    let part = text.subrange(at + 1, text.len() as int);
    let period = TreeEvent::Token { kind: SyntaxKind::PERIOD.number(), text: seq![0x2eu8] };
    let end = TreeEvent::Token { kind: SyntaxKind::IDENT.number(), text: part };
    let ident = SyntaxKind::IDENT.number();
    let key = SyntaxKind::KEY;
    if 0 <= at < text.len() {
        let front = tree + dotted(text.take(at));
        lemma_o_dotted(tree, outer, last, text.take(at));
        lemma_push(front, period);
        lemma_token_added(front, key, outer, ident, SyntaxKind::PERIOD, seq![0x2eu8]);
        lemma_push(front.push(period), end);
        lemma_token_added(
            front.push(period),
            key,
            outer,
            SyntaxKind::PERIOD.number(),
            SyntaxKind::IDENT,
            part,
        );
        assert(tree + d =~= front.push(period).push(end));
    } else {
        lemma_push(tree, end);
        lemma_token_added(tree, key, outer, last, SyntaxKind::IDENT, part);
        assert(tree + d =~= tree.push(end));
    }
}

proof fn lemma_o_ident(s: State, outer: Seq<u16>, last: u16)
    requires
        stands_at(s.tree, SyntaxKind::KEY, outer, last),
        follows(SyntaxKind::KEY, last, SyntaxKind::IDENT),
    ensures
        goes_to(
            s,
            s.ident().0,
            SyntaxKind::KEY,
            outer,
            if s.ident().1 {
                SyntaxKind::IDENT.number()
            } else {
                last
            },
        ),
{
    let key = SyntaxKind::KEY;
    lemma_o_peek(s, key, outer, last);
    let p = s.peek();
    if p.current is Some {
        let t = p.current->0;
        if t == SyntaxKind::IDENT || t == SyntaxKind::INTEGER {
            lemma_o_token_as(p, key, outer, last, SyntaxKind::IDENT);
        } else if t == SyntaxKind::STRING_LITERAL {
            let q = p.report_at(
                forbidden_offsets(p.text, false),
                "invalid control character in string literal"@,
            );
            lemma_o_token_as(q, key, outer, last, SyntaxKind::IDENT);
        } else if t == SyntaxKind::STRING {
            let q = p.report_at(
                forbidden_offsets(p.text, false),
                "invalid character in string"@,
            ).report_at(escape_errors(p.text, 0), "invalid escape sequence"@);
            lemma_o_token_as(q, key, outer, last, SyntaxKind::IDENT);
        } else if t == SyntaxKind::FLOAT {
            lemma_o_dotted(p.tree, outer, last, p.text);
            lemma_o_step(
                State { tree: p.tree + dotted(p.text), ..p },
                key,
                outer,
                SyntaxKind::IDENT.number(),
            );
        } else {
            lemma_o_error(p, key, outer, last, "expected identifier"@);
        }
    }
}

proof fn lemma_o_key_rest(s: State, outer: Seq<u16>, after_period: bool) -> (last: u16)
    requires
        stands_at(
            s.tree,
            SyntaxKind::KEY,
            outer,
            if after_period {
                SyntaxKind::PERIOD.number()
            } else {
                SyntaxKind::IDENT.number()
            },
        ),
    ensures
        goes_to(s, s.key_rest(after_period).0, SyntaxKind::KEY, outer, last),
        s.key_rest(after_period).1 ==> last == SyntaxKind::IDENT.number(),
    decreases s.left(),
{
    let key = SyntaxKind::KEY;
    let now = if after_period {
        SyntaxKind::PERIOD.number()
    } else {
        SyntaxKind::IDENT.number()
    };
    lemma_o_peek(s, key, outer, now);
    lemma_peek(s);
    let p = s.peek();
    if p.current is None {
        lemma_o_error(p, key, outer, now, "unexpected end of input"@);
        now
    } else if p.current->0 == SyntaxKind::PERIOD {
        if after_period {
            lemma_o_error(p, key, outer, now, "unexpected \".\""@);
            now
        } else {
            lemma_o_token_as(p, key, outer, now, SyntaxKind::PERIOD);
            lemma_token(p);
            lemma_o_key_rest(p.token().0, outer, true)
        }
    } else if after_period {
        lemma_o_ident(p, outer, now);
        lemma_ident(p);
        if p.ident().1 {
            lemma_o_key_rest(p.ident().0, outer, false)
        } else {
            lemma_o_error(p.ident().0, key, outer, now, "expected identifier"@);
            now
        }
    } else {
        now
    }
}

proof fn lemma_o_key(s: State, outer: Seq<u16>) -> (last: u16)
    requires
        stands_at(s.tree, SyntaxKind::KEY, outer, none()),
    ensures
        goes_to(s, s.key().0, SyntaxKind::KEY, outer, last),
{
    lemma_o_ident(s, outer, none());
    if s.ident().1 {
        lemma_o_key_rest(s.ident().0, outer, false)
    } else {
        lemma_o_error(s.ident().0, SyntaxKind::KEY, outer, none(), "expected identifier"@);
        none()
    }
}

/// A key in a node of its own.
proof fn lemma_o_key_node(s: State, parent: SyntaxKind, outer: Seq<u16>, last: u16)
    requires
        stands_at(s.tree, parent, outer, last),
        follows(parent, last, SyntaxKind::KEY),
    ensures
        goes_to(
            s,
            s.open(SyntaxKind::KEY).key().0.close(),
            parent,
            outer,
            SyntaxKind::KEY.number(),
        ),
{
    let o = s.open(SyntaxKind::KEY);
    lemma_entered(s, parent, outer, last, SyntaxKind::KEY);
    let inner = lemma_o_key(o, outer.push(SyntaxKind::KEY.number()));
    lemma_node(s, parent, outer, last, SyntaxKind::KEY, o.key().0, inner);
}

/// A single word as a value.
proof fn lemma_o_scalar(s: State, outer: Seq<u16>) -> (last: u16)
    requires
        stands_at(s.tree, SyntaxKind::VALUE, outer, none()),
        s.current is Some,
        s.current->0 != SyntaxKind::BRACKET_START,
        s.current->0 != SyntaxKind::BRACE_START,
    ensures
        goes_to(s, s.value().0, SyntaxKind::VALUE, outer, last),
{
    let v = SyntaxKind::VALUE;
    let t = s.current->0;
    assert(s.peek() == s);
    lemma_o_token_as(s, v, outer, none(), t);
    lemma_o_error(s, v, outer, none(), "invalid underscores"@);
    lemma_o_error(s, v, outer, none(), "zero-padded integers are not allowed"@);
    lemma_o_error(s, v, outer, none(), "expected value"@);
    let a = s.report_at(
        forbidden_offsets(s.text, false),
        "invalid control character in string literal"@,
    );
    let b = s.report_at(forbidden_offsets(s.text, true), "invalid character in string"@);
    let c = s.report_at(
        forbidden_offsets(s.text, false),
        "invalid character in string"@,
    ).report_at(escape_errors(s.text, 0), "invalid escape sequence"@);
    let d = b.report_at(escape_errors(s.text, 0), "invalid escape sequence"@);
    lemma_o_token_as(a, v, outer, none(), t);
    lemma_o_token_as(b, v, outer, none(), t);
    lemma_o_token_as(c, v, outer, none(), t);
    lemma_o_token_as(d, v, outer, none(), t);
    if stands_at(s.value().0.tree, v, outer, none()) {
        none()
    } else {
        t.number()
    }
}

proof fn lemma_o_value(s: State, outer: Seq<u16>) -> (last: u16)
    requires
        stands_at(s.tree, SyntaxKind::VALUE, outer, none()),
    ensures
        goes_to(s, s.value().0, SyntaxKind::VALUE, outer, last),
    decreases s.left(), 5int,
{
    let v = SyntaxKind::VALUE;
    lemma_o_peek(s, v, outer, none());
    lemma_peek(s);
    let p = s.peek();
    if p.current is None {
        lemma_o_error(p, v, outer, none(), "expected value"@);
        none()
    } else {
        assert(p.peek() == p);
        assert(s.value() == p.value());
        if p.current->0 == SyntaxKind::BRACKET_START {
            let kind = SyntaxKind::ARRAY;
            let o = p.open(kind);
            lemma_entered(p, v, outer, none(), kind);
            let inner = lemma_o_array(o, outer.push(kind.number()));
            lemma_node(p, v, outer, none(), kind, o.array().0, inner);
            kind.number()
        } else if p.current->0 == SyntaxKind::BRACE_START {
            let kind = SyntaxKind::INLINE_TABLE;
            let o = p.open(kind);
            lemma_entered(p, v, outer, none(), kind);
            let inner = lemma_o_inline_table(o, outer.push(kind.number()));
            lemma_node(p, v, outer, none(), kind, o.inline_table().0, inner);
            kind.number()
        } else {
            lemma_o_scalar(p, outer)
        }
    }
}

proof fn lemma_o_array(s: State, outer: Seq<u16>) -> (last: u16)
    requires
        stands_at(s.tree, SyntaxKind::ARRAY, outer, none()),
    ensures
        goes_to(s, s.array().0, SyntaxKind::ARRAY, outer, last),
    decreases s.left(), 4int,
{
    let message = "expected \"[\""@;
    let kind = SyntaxKind::BRACKET_START;
    lemma_o_expect(s, SyntaxKind::ARRAY, outer, none(), kind, message);
    lemma_expect(s, kind, message);
    let r = s.expect(kind, message);
    if r.1 {
        lemma_o_array_rest(r.0, outer, kind.number(), true, false)
    } else {
        none()
    }
}

proof fn lemma_o_array_rest(
    s: State,
    outer: Seq<u16>,
    now: u16,
    first: bool,
    comma_last: bool,
) -> (last: u16)
    requires
        stands_at(s.tree, SyntaxKind::ARRAY, outer, now),
        now != none(),
    ensures
        goes_to(s, s.array_rest(first, comma_last).0, SyntaxKind::ARRAY, outer, last),
    decreases
            s.left(),
            if first || comma_last {
                11int
            } else {
                10int
            },
{
    let a = SyntaxKind::ARRAY;
    lemma_o_peek(s, a, outer, now);
    lemma_peek(s);
    let p = s.peek();
    let in_place = first || comma_last;
    if p.current is None {
        now
    } else if p.current->0 == SyntaxKind::BRACKET_END {
        lemma_o_token_as(p, a, outer, now, SyntaxKind::BRACKET_END);
        lemma_token(p);
        SyntaxKind::BRACKET_END.number()
    } else if p.current->0 == SyntaxKind::NEWLINE {
        lemma_o_token_as(p, a, outer, now, SyntaxKind::NEWLINE);
        lemma_token(p);
        let next = SyntaxKind::NEWLINE.number();
        lemma_o_array_rest(p.token().0, outer, next, first, comma_last)
    } else if p.current->0 == SyntaxKind::COMMA {
        let message = "unexpected \",\""@;
        lemma_o_error(p, a, outer, now, message);
        lemma_error(p, message);
        let q = if in_place {
            p.error(message)
        } else {
            p
        };
        lemma_o_peek(q, a, outer, now);
        lemma_peek(q);
        lemma_token(q);
        let g = q.peek();
        if g.current is None {
            now
        } else {
            let kind = g.current->0;
            lemma_o_token_as(g, a, outer, now, kind);
            let next = if stands_anywhere(kind.number()) {
                now
            } else {
                kind.number()
            };
            lemma_o_array_rest(q.token().0, outer, next, false, true)
        }
    } else {
        let next = lemma_o_array_element(p, outer, now, in_place);
        let q = p.array_element(in_place);
        if s.goes_on(q, in_place) {
            lemma_o_array_rest(q, outer, next, false, false)
        } else {
            next
        }
    }
}

proof fn lemma_o_array_element(s: State, outer: Seq<u16>, now: u16, in_place: bool) -> (last: u16)
    requires
        stands_at(s.tree, SyntaxKind::ARRAY, outer, now),
        now != none(),
    ensures
        goes_to(s, s.array_element(in_place), SyntaxKind::ARRAY, outer, last),
        last != none(),
    decreases s.left(), 9int,
{
    let a = SyntaxKind::ARRAY;
    let kind = SyntaxKind::VALUE;
    let message = "expected \",\""@;
    lemma_o_error(s, a, outer, now, message);
    lemma_error(s, message);
    let h = if in_place {
        s
    } else {
        s.error(message)
    };
    let g = h.allow(SyntaxKind::COMMA);
    let o = g.open(kind);
    lemma_entered(g, a, outer, now, kind);
    let inner = lemma_o_value(o, outer.push(kind.number()));
    lemma_node(g, a, outer, now, kind, o.value().0, inner);
    kind.number()
}

proof fn lemma_o_inline_table(s: State, outer: Seq<u16>) -> (last: u16)
    requires
        stands_at(s.tree, SyntaxKind::INLINE_TABLE, outer, none()),
    ensures
        goes_to(s, s.inline_table().0, SyntaxKind::INLINE_TABLE, outer, last),
    decreases s.left(), 4int,
{
    let message = "expected \"{\""@;
    let kind = SyntaxKind::BRACE_START;
    lemma_o_expect(s, SyntaxKind::INLINE_TABLE, outer, none(), kind, message);
    lemma_expect(s, kind, message);
    let r = s.expect(kind, message);
    if r.1 {
        lemma_o_table_rest(r.0, outer, kind.number(), true, false, false)
    } else {
        none()
    }
}

proof fn lemma_o_table_rest(
    s: State,
    outer: Seq<u16>,
    now: u16,
    first: bool,
    comma_last: bool,
    was_newline: bool,
) -> (last: u16)
    requires
        stands_at(s.tree, SyntaxKind::INLINE_TABLE, outer, now),
        now != none(),
    ensures
        goes_to(
            s,
            s.table_rest(first, comma_last, was_newline).0,
            SyntaxKind::INLINE_TABLE,
            outer,
            last,
        ),
    decreases
            s.left(),
            10 + (if first {
                4int
            } else {
                0int
            }) + (if comma_last {
                2int
            } else {
                0int
            }) + (if was_newline {
                0int
            } else {
                1int
            }),
{
    let t = SyntaxKind::INLINE_TABLE;
    lemma_o_peek(s, t, outer, now);
    lemma_peek(s);
    let p = s.peek();
    let in_place = first || comma_last;
    if p.current is None {
        now
    } else if p.current->0 == SyntaxKind::BRACE_END {
        let message = "expected value, trailing comma is not allowed"@;
        lemma_o_token_as(p, t, outer, now, SyntaxKind::BRACE_END);
        lemma_o_token_as(p.report(message), t, outer, now, SyntaxKind::BRACE_END);
        SyntaxKind::BRACE_END.number()
    } else if p.current->0 == SyntaxKind::NEWLINE {
        if was_newline {
            now
        } else {
            let message = "newline is not allowed in an inline table"@;
            lemma_o_error(p, t, outer, now, message);
            lemma_error(p, message);
            lemma_o_table_rest(p.error(message), outer, now, false, comma_last, true)
        }
    } else if p.current->0 == SyntaxKind::COMMA {
        if first {
            let message = "unexpected \",\""@;
            lemma_o_error(p, t, outer, now, message);
            lemma_error(p, message);
            lemma_o_table_rest(p.error(message), outer, now, false, true, false)
        } else {
            lemma_o_token_as(p, t, outer, now, SyntaxKind::COMMA);
            lemma_token(p);
            let next = SyntaxKind::COMMA.number();
            lemma_o_table_rest(p.token().0, outer, next, false, true, false)
        }
    } else {
        let next = lemma_o_table_element(p, outer, now, in_place);
        let q = p.table_element(in_place);
        if s.goes_on(q, in_place) {
            lemma_o_table_rest(q, outer, next, false, false, false)
        } else {
            next
        }
    }
}

proof fn lemma_o_table_element(s: State, outer: Seq<u16>, now: u16, in_place: bool) -> (last: u16)
    requires
        stands_at(s.tree, SyntaxKind::INLINE_TABLE, outer, now),
        now != none(),
    ensures
        goes_to(s, s.table_element(in_place), SyntaxKind::INLINE_TABLE, outer, last),
        last != none(),
    decreases s.left(), 9int,
{
    let t = SyntaxKind::INLINE_TABLE;
    let kind = SyntaxKind::ENTRY;
    let message = "expected \",\""@;
    lemma_o_error(s, t, outer, now, message);
    lemma_error(s, message);
    let h = if in_place {
        s
    } else {
        s.error(message)
    };
    let g = h.allow(SyntaxKind::COMMA);
    let o = g.open(kind);
    lemma_entered(g, t, outer, now, kind);
    let inner = lemma_o_entry(o, outer.push(kind.number()));
    lemma_node(g, t, outer, now, kind, o.entry().0, inner);
    kind.number()
}

proof fn lemma_o_entry(s: State, outer: Seq<u16>) -> (last: u16)
    requires
        stands_at(s.tree, SyntaxKind::ENTRY, outer, none()),
    ensures
        goes_to(s, s.entry().0, SyntaxKind::ENTRY, outer, last),
    decreases s.left(), 6int,
{
    let e = SyntaxKind::ENTRY;
    let message = "expected \"=\""@;
    let o = s.open(SyntaxKind::KEY);
    let c = o.key().0.close();
    let key = SyntaxKind::KEY.number();
    lemma_o_key_node(s, e, outer, none());
    lemma_key(o);
    if o.key().1 {
        lemma_o_expect(c, e, outer, key, SyntaxKind::EQ, message);
        lemma_expect(c, SyntaxKind::EQ, message);
        let r = c.expect(SyntaxKind::EQ, message);
        if r.1 {
            let kind = SyntaxKind::VALUE;
            let eq = SyntaxKind::EQ.number();
            let v = r.0.open(kind);
            lemma_entered(r.0, e, outer, eq, kind);
            let inner = lemma_o_value(v, outer.push(kind.number()));
            lemma_node(r.0, e, outer, eq, kind, v.value().0, inner);
            kind.number()
        } else {
            key
        }
    } else {
        key
    }
}

proof fn lemma_o_table_header(s: State, outer: Seq<u16>) -> (last: u16)
    requires
        stands_at(s.tree, SyntaxKind::TABLE_HEADER, outer, none()),
    ensures
        goes_to(s, s.table_header().0, SyntaxKind::TABLE_HEADER, outer, last),
{
    let h = SyntaxKind::TABLE_HEADER;
    let start = SyntaxKind::BRACKET_START;
    let stop = SyntaxKind::BRACKET_END;
    let key = SyntaxKind::KEY.number();
    lemma_o_expect(s, h, outer, none(), start, "expected \"[\""@);
    let r = s.expect(start, "expected \"[\""@);
    if r.1 {
        lemma_o_key_node(r.0, h, outer, start.number());
        let k = r.0.open(SyntaxKind::KEY).key().0.close();
        lemma_o_expect(k, h, outer, key, stop, "expected \"]\""@);
        if k.expect(stop, "expected \"]\""@).1 {
            stop.number()
        } else {
            key
        }
    } else {
        none()
    }
}

proof fn lemma_o_table_array_header(s: State, outer: Seq<u16>) -> (last: u16)
    requires
        stands_at(s.tree, SyntaxKind::TABLE_ARRAY_HEADER, outer, none()),
    ensures
        goes_to(s, s.table_array_header().0, SyntaxKind::TABLE_ARRAY_HEADER, outer, last),
{
    let h = SyntaxKind::TABLE_ARRAY_HEADER;
    let start = SyntaxKind::BRACKET_START;
    let stop = SyntaxKind::BRACKET_END;
    let key = SyntaxKind::KEY.number();
    let opening = "expected \"[[\""@;
    let closing = "expected \"]]\""@;
    lemma_o_expect(s, h, outer, none(), start, opening);
    let r = s.expect(start, opening);
    if r.1 {
        lemma_o_expect(r.0, h, outer, start.number(), start, opening);
        let q = r.0.expect(start, opening);
        if q.1 {
            lemma_o_key_node(q.0, h, outer, start.number());
            let k = q.0.open(SyntaxKind::KEY).key().0.close();
            lemma_o_expect(k, h, outer, key, stop, closing);
            let e = k.expect(stop, closing);
            let now = if e.1 {
                stop.number()
            } else {
                key
            };
            lemma_o_expect(e.0, h, outer, now, stop, closing);
            if e.0.expect(stop, closing).1 {
                stop.number()
            } else {
                now
            }
        } else {
            start.number()
        }
    } else {
        none()
    }
}

/// A header on a line of its own.
proof fn lemma_o_header_line(s: State, now: u16) -> (last: u16)
    requires
        stands_at(s.tree, SyntaxKind::ROOT, Seq::empty(), now),
        now == none() || now == SyntaxKind::NEWLINE.number(),
    ensures
        goes_to(s, s.header_line(), SyntaxKind::ROOT, Seq::empty(), last),
{
    let root = SyntaxKind::ROOT;
    let outer = Seq::<u16>::empty();
    let a = s.allow(SyntaxKind::NEWLINE);
    if s.bracket_follows() {
        let kind = SyntaxKind::TABLE_ARRAY_HEADER;
        let o = a.open(kind);
        lemma_entered(a, root, outer, now, kind);
        let inner = lemma_o_table_array_header(o, outer.push(kind.number()));
        lemma_node(a, root, outer, now, kind, o.table_array_header().0, inner);
        kind.number()
    } else {
        let kind = SyntaxKind::TABLE_HEADER;
        let o = a.open(kind);
        lemma_entered(a, root, outer, now, kind);
        let inner = lemma_o_table_header(o, outer.push(kind.number()));
        lemma_node(a, root, outer, now, kind, o.table_header().0, inner);
        kind.number()
    }
}

/// The parser is between two lines, on a new one or behind something, or in an
/// entry on one.
spec fn on_a_line(s: State, not_newline: bool, entry_started: bool, last: u16) -> bool {
    if entry_started {
        let outer = seq![SyntaxKind::ENTRY.number()];
        not_newline && stands_at(s.tree, SyntaxKind::ENTRY, outer, last) && open_kinds(s.tree)
            == seq![SyntaxKind::ROOT.number(), SyntaxKind::ENTRY.number()]
    } else {
        &&& stands_at(s.tree, SyntaxKind::ROOT, Seq::empty(), last)
        &&& open_kinds(s.tree) == seq![SyntaxKind::ROOT.number()]
        &&& !not_newline ==> last == none() || last == SyntaxKind::NEWLINE.number()
    }
}

proof fn lemma_o_peek_line(s: State, nn: bool, es: bool, last: u16)
    requires
        on_a_line(s, nn, es, last),
    ensures
        on_a_line(s.peek(), nn, es, last),
{
    if es {
        lemma_o_peek(s, SyntaxKind::ENTRY, seq![SyntaxKind::ENTRY.number()], last);
    } else {
        lemma_o_peek(s, SyntaxKind::ROOT, Seq::empty(), last);
    }
}

proof fn lemma_o_close_entry(p: State, nn: bool, es: bool, last: u16) -> (now: u16)
    requires
        on_a_line(p, nn, es, last),
    ensures
        on_a_line(p.close_entry(es), nn, false, now),
{
    if es {
        let e = SyntaxKind::ENTRY.number();
        lemma_left(p, SyntaxKind::ENTRY, seq![e], last);
        assert(seq![SyntaxKind::ROOT.number(), e].drop_last() =~= seq![SyntaxKind::ROOT.number()]);
        assert(Seq::<u16>::empty().push(e) =~= seq![e]);
        e
    } else {
        last
    }
}

proof fn lemma_o_entry_line(c: State, now: u16) -> (last: u16)
    requires
        on_a_line(c, false, false, now),
    ensures
        on_a_line(c.entry_line(), true, true, last),
{
    let kind = SyntaxKind::ENTRY;
    let outer = Seq::<u16>::empty();
    lemma_entered(c, SyntaxKind::ROOT, outer, now, kind);
    let o = c.open(kind).allow(SyntaxKind::NEWLINE);
    assert(outer.push(kind.number()) =~= seq![kind.number()]);
    assert(seq![SyntaxKind::ROOT.number()].push(kind.number()) =~= seq![
        SyntaxKind::ROOT.number(),
        kind.number(),
    ]);
    lemma_o_entry(o, seq![kind.number()])
}

proof fn lemma_o_error_line(p: State, es: bool, last: u16)
    requires
        on_a_line(p, true, es, last),
    ensures
        on_a_line(p.error("expected new line"@), true, es, last),
{
    let message = "expected new line"@;
    if es {
        lemma_o_error(p, SyntaxKind::ENTRY, seq![SyntaxKind::ENTRY.number()], last, message);
    } else {
        lemma_o_error(p, SyntaxKind::ROOT, Seq::empty(), last, message);
    }
}

proof fn lemma_o_break(c: State, nn: bool, last: u16)
    requires
        on_a_line(c, nn, false, last),
        c.current == Some(SyntaxKind::NEWLINE),
    ensures
        on_a_line(c.token().0, false, false, SyntaxKind::NEWLINE.number()),
{
    lemma_o_token_as(c, SyntaxKind::ROOT, Seq::empty(), last, SyntaxKind::NEWLINE);
}

#[verifier::rlimit(40)]
proof fn lemma_o_lines(s: State, nn: bool, es: bool, last: u16)
    requires
        on_a_line(s, nn, es, last),
        es ==> nn,
        valid(s),
        s.whitelist == 0,
    ensures
        ordered(s.lines(nn, es).tree),
    decreases
            s.left(),
            if nn {
                0int
            } else {
                1int
            },
{
    let message = "expected new line"@;
    lemma_o_peek_line(s, nn, es, last);
    lemma_peek(s);
    lemma_keeps_peek(s);
    let p = s.peek();
    let c = p.close_entry(es);
    let now = lemma_o_close_entry(p, nn, es, last);
    if p.current is None {
    } else if p.current->0 == SyntaxKind::NEWLINE {
        lemma_o_break(c, nn, now);
        lemma_token(c);
        lemma_keeps_token(c);
        lemma_o_lines(c.token().0, false, false, SyntaxKind::NEWLINE.number());
    } else if p.current->0 == SyntaxKind::BRACKET_START && nn {
        lemma_whitelist_bits();
        lemma_o_error_line(c, false, now);
        lemma_error(c, message);
        lemma_keeps_error(c, message);
        lemma_o_lines(c.error(message), true, false, now);
    } else if p.current->0 == SyntaxKind::BRACKET_START {
        let next = lemma_o_header_line(c, now);
        lemma_keeps_header_line(c);
        lemma_o_lines(c.header_line(), true, false, next);
    } else if nn {
        lemma_whitelist_bits();
        lemma_o_error_line(p, es, last);
        lemma_error(p, message);
        lemma_keeps_error(p, message);
        lemma_o_lines(p.error(message), true, es, last);
    } else {
        let next = lemma_o_entry_line(c, now);
        lemma_keeps_entry_line(c);
        lemma_o_lines(c.entry_line(), true, true, next);
    }
}

/// In every tree, also where the text has errors, nodes and tokens stand in
/// their nodes in the order in which they may: an entry is a key, an equality
/// sign and a value, a key is parts and periods in turn, a header is brackets
/// around a key, a value is one thing, and what stands under the root starts on
/// a line of its own. Blanks, comments and errors may stand in between.
pub proof fn trees_are_in_order(toks: Seq<Tok>)
    requires
        tiled(toks),
    ensures
        in_order(document(toks).tree),
{
    let e = TreeEvent::Open { kind: SyntaxKind::ROOT.number() };
    let empty = Seq::<TreeEvent>::empty();
    let o = State::initial(toks).open(SyntaxKind::ROOT);
    assert(ordered(empty)) by {
        reveal(ordered);
    }
    lemma_push(empty, e);
    assert(empty.push(e).take(0) =~= empty);
    assert(event_follows(empty.push(e), 0));
    assert(open_kinds(o.tree) =~= seq![SyntaxKind::ROOT.number()]);
    assert(last_children(o.tree) =~= Seq::<u16>::empty().push(none()));
    lemma_o_lines(o, false, false, none());
    let r = o.lines(false, false);
    lemma_push(r.tree, TreeEvent::Close);
    assert(event_follows(r.tree.push(TreeEvent::Close), r.tree.len() as int));
    reveal(ordered);
}

} // verus!
