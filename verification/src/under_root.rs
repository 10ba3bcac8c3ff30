//! What stands directly under the root of a document: entries and headers on
//! lines of their own, and what may stand between them.

use vstd::prelude::*;

use crate::model::{document, lemma_error, lemma_peek, lemma_token, State, Tok};
use crate::preserved::{
    lemma_keeps_entry_line, lemma_keeps_error, lemma_keeps_header_line, lemma_keeps_peek,
    lemma_keeps_report, lemma_keeps_table_array_header, lemma_keeps_table_header, lemma_keeps_token,
    lemma_walk_push, lemma_whitelist_bits, nested, tiled, valid,
};
use crate::syntax::SyntaxKind;
use crate::tree::{open_nodes, TreeEvent};
use crate::util::allowed_chars::forbidden_offsets;

verus! {

/// The kind of the node that is open directly under the root.
pub open spec fn child_of_root(tree: Seq<TreeEvent>) -> Option<u16>
    decreases tree.len(),
{
    if tree.len() == 0 {
        None
    } else {
        let before = child_of_root(tree.drop_last());
        match tree.last() {
            TreeEvent::Open { kind } => if open_nodes(tree) == 2 {
                Some(kind)
            } else {
                before
            },
            TreeEvent::Token { .. } => before,
            TreeEvent::Close => if open_nodes(tree) == 1 {
                None
            } else {
                before
            },
        }
    }
}

/// An entry that stands directly under the root is left at an index of a walk.
pub open spec fn entry_ends(tree: Seq<TreeEvent>, i: int) -> bool {
    &&& tree[i] is Close
    &&& open_nodes(tree.take(i)) == 2
    &&& child_of_root(tree.take(i)) == Some(SyntaxKind::ENTRY.number())
}

/// What can follow an entry: a line break, the end of the root, or an opening
/// bracket that stands in a wrong place.
pub open spec fn ends_line(toks: Seq<Tok>, e: TreeEvent) -> bool {
    match e {
        TreeEvent::Open { .. } => false,
        TreeEvent::Close => true,
        TreeEvent::Token { kind, text } => {
            ||| kind == SyntaxKind::NEWLINE.number()
            ||| {
                &&& kind == SyntaxKind::ERROR.number()
                &&& exists|k: int|
                    0 <= k < toks.len() && (#[trigger] toks[k]).kind == SyntaxKind::BRACKET_START
                        && toks[k].text == text
            }
        },
    }
}

/// Every entry directly under the root reaches up to the end of its line.
pub open spec fn entries_take_lines(toks: Seq<Tok>, tree: Seq<TreeEvent>) -> bool {
    forall|i: int|
        0 <= i < tree.len() && #[trigger] entry_ends(tree, i) ==> i + 1 < tree.len() && ends_line(
            toks,
            tree[i + 1],
        )
}

/// A node directly under the root, an entry or a header, is entered at an
/// index of a walk.
pub open spec fn child_starts(tree: Seq<TreeEvent>, i: int) -> bool {
    &&& 0 <= i < tree.len()
    &&& tree[i] is Open
    &&& open_nodes(tree.take(i)) == 1
}

/// A line break stands directly under the root at an index of a walk.
pub open spec fn line_breaks(tree: Seq<TreeEvent>, k: int) -> bool {
    &&& 0 <= k < tree.len()
    &&& tree[k] matches TreeEvent::Token { kind, .. } && kind == SyntaxKind::NEWLINE.number()
    &&& open_nodes(tree.take(k)) == 1
}

/// Between every two nodes under the root a line breaks.
pub open spec fn lines_part_children(tree: Seq<TreeEvent>) -> bool {
    forall|i: int, j: int| #[trigger]
        child_starts(tree, i) && #[trigger] child_starts(tree, j) && i < j ==> exists|k: int|
            i < k < j && #[trigger] line_breaks(tree, k)
}

/// A token that may stand directly under the root: a line break, a blank, a
/// comment, or an error.
pub open spec fn is_root_token(e: TreeEvent) -> bool {
    e matches TreeEvent::Token { kind, .. } && {
        ||| kind == SyntaxKind::NEWLINE.number()
        ||| kind == SyntaxKind::WHITESPACE.number()
        ||| kind == SyntaxKind::COMMENT.number()
        ||| kind == SyntaxKind::ERROR.number()
    }
}

/// A node that may stand directly under the root: an entry, or a header.
pub open spec fn is_root_node(e: TreeEvent) -> bool {
    e matches TreeEvent::Open { kind } && {
        ||| kind == SyntaxKind::ENTRY.number()
        ||| kind == SyntaxKind::TABLE_HEADER.number()
        ||| kind == SyntaxKind::TABLE_ARRAY_HEADER.number()
    }
}

/// An event directly under the root is one that may stand there, or the end
/// of the root.
pub open spec fn fits_root(tree: Seq<TreeEvent>, i: int) -> bool {
    open_nodes(tree.take(i)) == 1 ==> is_root_token(tree[i]) || is_root_node(tree[i])
        || tree[i] is Close
}

/// Nothing else stands directly under the root.
pub open spec fn root_is_plain(tree: Seq<TreeEvent>) -> bool {
    forall|i: int| 0 <= i < tree.len() ==> #[trigger] fits_root(tree, i)
}

/// Between every two nodes under the root a line breaks, and one breaks
/// behind the last of them where a new line was started.
spec fn parted(tree: Seq<TreeEvent>, new_line: bool) -> bool {
    &&& lines_part_children(tree)
    &&& new_line ==> forall|i: int| #[trigger]
        child_starts(tree, i) ==> exists|k: int| i < k && #[trigger] line_breaks(tree, k)
}

/// All that holds under the root while the lines of a document are parsed.
#[verifier::opaque]
spec fn in_order(toks: Seq<Tok>, tree: Seq<TreeEvent>, new_line: bool) -> bool {
    &&& entries_take_lines(toks, tree)
    &&& parted(tree, new_line)
    &&& root_is_plain(tree)
}

/// The walk goes on from `a` to `b` over tokens alone that may stand under the root.
spec fn only_tokens(a: Seq<TreeEvent>, b: Seq<TreeEvent>) -> bool {
    &&& a.len() <= b.len()
    &&& b.take(a.len() as int) == a
    &&& forall|i: int| a.len() <= i < b.len() ==> is_root_token(#[trigger] b[i])
}

proof fn lemma_only_tokens_push(a: Seq<TreeEvent>, e: TreeEvent, b: Seq<TreeEvent>)
    requires
        is_root_token(e),
        only_tokens(a.push(e), b),
    ensures
        only_tokens(a, b),
        b.len() > a.len(),
        b[a.len() as int] == e,
{
    let n = a.len() as int;
    assert(b.take(n + 1)[n] == e);
    assert(b.take(n + 1).take(n) =~= b.take(n));
    assert(a.push(e).take(n) =~= a);
}

proof fn lemma_only_tokens_refl(a: Seq<TreeEvent>)
    ensures
        only_tokens(a, a),
{
    assert(a.take(a.len() as int) =~= a);
}

proof fn lemma_step_tokens(s: State)
    ensures
        only_tokens(s.tree, s.step().tree),
    decreases s.toks.len() - s.pos,
{
    lemma_only_tokens_refl(s.tree);
    if s.pos < s.toks.len() {
        let n = State { current: None, ..s }.next();
        let kind = s.toks[s.pos].kind;
        let e = TreeEvent::Token { kind: kind.number(), text: n.text };
        if kind == SyntaxKind::COMMENT {
            let r = n.report_at(
                forbidden_offsets(n.text, false),
                "invalid character in comment"@,
            ).emit(kind, n.text);
            lemma_step_tokens(r);
            lemma_only_tokens_push(s.tree, e, r.step().tree);
        } else if kind == SyntaxKind::WHITESPACE && s.skip_whitespace {
            let r = n.emit(kind, n.text);
            lemma_step_tokens(r);
            lemma_only_tokens_push(s.tree, e, r.step().tree);
        } else if kind == SyntaxKind::ERROR {
            let r = n.emit(kind, n.text).report("unexpected token"@);
            lemma_step_tokens(r);
            lemma_only_tokens_push(s.tree, e, r.step().tree);
        }
    }
}

proof fn lemma_child_push(a: Seq<TreeEvent>, e: TreeEvent)
    ensures
        e is Token ==> child_of_root(a.push(e)) == child_of_root(a),
        e is Open ==> child_of_root(a.push(e)) == (if open_nodes(a) == 1 {
            Some(e->Open_kind)
        } else {
            child_of_root(a)
        }),
        e is Close ==> child_of_root(a.push(e)) == (if open_nodes(a) == 2 {
            None
        } else {
            child_of_root(a)
        }),
{
    lemma_walk_push(a, e);
    assert(a.push(e).drop_last() =~= a);
}

/// One more event, which does not leave an entry under the root.
proof fn lemma_take_lines_push(toks: Seq<Tok>, a: Seq<TreeEvent>, e: TreeEvent)
    requires
        entries_take_lines(toks, a),
        e is Close ==> open_nodes(a) != 2 || child_of_root(a) != Some(SyntaxKind::ENTRY.number()),
    ensures
        entries_take_lines(toks, a.push(e)),
{
    let b = a.push(e);
    assert forall|i: int| 0 <= i < b.len() && #[trigger] entry_ends(b, i) implies i + 1 < b.len()
        && ends_line(toks, b[i + 1]) by {
        assert(b.take(i) =~= a.take(i));
        if i < a.len() {
            assert(entry_ends(a, i));
        } else {
            assert(a.take(i) =~= a);
        }
    }
}

/// An entry under the root is left, and what can follow it does.
proof fn lemma_take_lines_end(toks: Seq<Tok>, a: Seq<TreeEvent>, e: TreeEvent)
    requires
        entries_take_lines(toks, a),
        open_nodes(a) == 2,
        ends_line(toks, e),
    ensures
        entries_take_lines(toks, a.push(TreeEvent::Close).push(e)),
{
    let c = a.push(TreeEvent::Close);
    let b = c.push(e);
    lemma_walk_push(a, TreeEvent::Close);
    assert forall|i: int| 0 <= i < b.len() && #[trigger] entry_ends(b, i) implies i + 1 < b.len()
        && ends_line(toks, b[i + 1]) by {
        if i < a.len() {
            assert(b.take(i) =~= a.take(i));
            assert(entry_ends(a, i));
        } else if i > a.len() {
            assert(b.take(i) =~= c);
        }
    }
}

/// One more event changes nothing about those before it.
proof fn lemma_before_push(a: Seq<TreeEvent>, e: TreeEvent)
    ensures
        forall|i: int|
            i < a.len() ==> #[trigger] child_starts(a.push(e), i) == child_starts(a, i),
        forall|k: int| k < a.len() && line_breaks(a, k) ==> #[trigger] line_breaks(a.push(e), k),
        child_starts(a.push(e), a.len() as int) == (e is Open && open_nodes(a) == 1),
        line_breaks(a.push(e), a.len() as int) == (open_nodes(a) == 1 && (e matches
            TreeEvent::Token { kind, .. } && kind == SyntaxKind::NEWLINE.number())),
{
    let b = a.push(e);
    assert(b.take(a.len() as int) =~= a);
    assert forall|i: int| i < a.len() implies #[trigger] child_starts(b, i) == child_starts(
        a,
        i,
    ) by {
        if 0 <= i {
            assert(b.take(i) =~= a.take(i));
        }
    }
    assert forall|k: int| k < a.len() && line_breaks(a, k) implies #[trigger] line_breaks(
        b,
        k,
    ) by {
        assert(b.take(k) =~= a.take(k));
    }
}

/// One more event: it enters a node under the root on a new line alone.
proof fn lemma_parted_push(a: Seq<TreeEvent>, e: TreeEvent, new_line: bool)
    requires
        parted(a, new_line),
        e is Open && open_nodes(a) == 1 ==> new_line,
    ensures
        parted(a.push(e), new_line && !(e is Open && open_nodes(a) == 1)),
        line_breaks(a.push(e), a.len() as int) ==> parted(a.push(e), true),
{
    lemma_before_push(a, e);
    let b = a.push(e);
    assert forall|i: int, j: int| #[trigger]
        child_starts(b, i) && #[trigger] child_starts(b, j) && i < j implies exists|k: int|
        i < k < j && #[trigger] line_breaks(b, k) by {
        assert(child_starts(a, i));
        if j < a.len() {
            assert(child_starts(a, j));
            let k = choose|k: int| i < k < j && #[trigger] line_breaks(a, k);
            assert(line_breaks(b, k));
        } else {
            let k = choose|k: int| i < k && #[trigger] line_breaks(a, k);
            assert(line_breaks(b, k));
        }
    }
    if new_line && !(e is Open && open_nodes(a) == 1) {
        assert forall|i: int| #[trigger] child_starts(b, i) implies exists|k: int|
            i < k && #[trigger] line_breaks(b, k) by {
            assert(child_starts(a, i));
            let k = choose|k: int| i < k && #[trigger] line_breaks(a, k);
            assert(line_breaks(b, k));
        }
    }
}

proof fn lemma_root_push(a: Seq<TreeEvent>, e: TreeEvent)
    requires
        root_is_plain(a),
        open_nodes(a) == 1 ==> is_root_token(e) || is_root_node(e) || e is Close,
    ensures
        root_is_plain(a.push(e)),
{
    let b = a.push(e);
    assert forall|i: int| 0 <= i < b.len() implies #[trigger] fits_root(b, i) by {
        assert(b.take(i) =~= a.take(i));
        if i < a.len() {
            assert(fits_root(a, i));
        } else {
            assert(a.take(i) =~= a);
        }
    }
}

/// One more event, which does not leave an entry under the root, and enters a
/// node there on a new line alone.
proof fn lemma_push(toks: Seq<Tok>, a: Seq<TreeEvent>, e: TreeEvent, new_line: bool)
    requires
        in_order(toks, a, new_line),
        e is Close ==> open_nodes(a) != 2 || child_of_root(a) != Some(SyntaxKind::ENTRY.number()),
        open_nodes(a) == 1 ==> is_root_token(e) || is_root_node(e) || e is Close,
        e is Open && open_nodes(a) == 1 ==> new_line,
    ensures
        in_order(toks, a.push(e), new_line && !(e is Open && open_nodes(a) == 1)),
{
    reveal(in_order);
    lemma_take_lines_push(toks, a, e);
    lemma_parted_push(a, e, new_line);
    lemma_root_push(a, e);
}

/// An entry under the root is left, or none is open, and what can end a line follows.
proof fn lemma_end(
    toks: Seq<Tok>,
    a: Seq<TreeEvent>,
    entry_started: bool,
    e: TreeEvent,
    new_line: bool,
)
    requires
        in_order(toks, a, new_line),
        open_nodes(a) == if entry_started {
            2int
        } else {
            1int
        },
        ends_line(toks, e),
    ensures
        ({
            let c = if entry_started {
                a.push(TreeEvent::Close)
            } else {
                a
            };
            let is_break = e matches TreeEvent::Token { kind, .. } && kind
                == SyntaxKind::NEWLINE.number();
            in_order(toks, c.push(e), new_line || is_break)
        }),
{
    reveal(in_order);
    let c = if entry_started {
        a.push(TreeEvent::Close)
    } else {
        a
    };
    lemma_walk_push(a, TreeEvent::Close);
    if entry_started {
        lemma_take_lines_end(toks, a, e);
        lemma_parted_push(a, TreeEvent::Close, new_line);
        lemma_root_push(a, TreeEvent::Close);
    } else {
        lemma_take_lines_push(toks, a, e);
    }
    lemma_parted_push(c, e, new_line);
    lemma_before_push(c, e);
    lemma_root_push(c, e);
}

proof fn lemma_any_line(toks: Seq<Tok>, a: Seq<TreeEvent>, new_line: bool)
    requires
        in_order(toks, a, new_line),
    ensures
        in_order(toks, a, false),
{
    reveal(in_order);
}

/// Tokens enter and leave nothing.
proof fn lemma_tokens(toks: Seq<Tok>, a: Seq<TreeEvent>, b: Seq<TreeEvent>, new_line: bool)
    requires
        in_order(toks, a, new_line),
        only_tokens(a, b),
    ensures
        in_order(toks, b, new_line),
        open_nodes(b) == open_nodes(a),
    decreases b.len(),
{
    if b.len() == a.len() {
        assert(b.take(a.len() as int) =~= b);
    } else {
        let c = b.drop_last();
        assert(c.take(a.len() as int) =~= b.take(a.len() as int));
        assert(is_root_token(b[b.len() - 1]));
        lemma_tokens(toks, a, c, new_line);
        assert(c.push(b.last()) =~= b);
        lemma_push(toks, c, b.last(), new_line);
        lemma_walk_push(c, b.last());
    }
}

/// Inside of a node under the root no other one is entered or left.
proof fn lemma_nested(toks: Seq<Tok>, a: Seq<TreeEvent>, b: Seq<TreeEvent>, n: int)
    requires
        in_order(toks, a, false),
        nested(a, b, 0),
        open_nodes(a) >= 2,
        a.len() <= n <= b.len(),
    ensures
        in_order(toks, b.take(n), false),
        child_of_root(b.take(n)) == child_of_root(a),
    decreases n,
{
    if n > a.len() {
        lemma_nested(toks, a, b, n - 1);
        let c = b.take(n - 1);
        assert(b.take(n) =~= c.push(b[n - 1]));
        assert(open_nodes(b.take(n)) >= 2);
        assert(open_nodes(c) >= 2);
        lemma_walk_push(c, b[n - 1]);
        lemma_push(toks, c, b[n - 1], false);
        lemma_child_push(c, b[n - 1]);
    }
}

/// A line is parsed under the root, or an entry under it.
spec fn in_line(s: State, not_newline: bool, entry_started: bool) -> bool {
    &&& valid(s)
    &&& s.whitelist == 0
    &&& entry_started ==> not_newline
    &&& in_order(s.toks, s.tree, !not_newline)
    &&& open_nodes(s.tree) == if entry_started {
        2int
    } else {
        1int
    }
}

proof fn lemma_line_peek(s: State, not_newline: bool, entry_started: bool)
    requires
        in_line(s, not_newline, entry_started),
    ensures
        in_line(s.peek(), not_newline, entry_started),
        s.peek().toks == s.toks,
        s.peek().left() <= s.left(),
{
    lemma_keeps_peek(s);
    lemma_peek(s);
    lemma_step_tokens(s);
    lemma_only_tokens_refl(s.tree);
    lemma_tokens(s.toks, s.tree, s.peek().tree, !not_newline);
}

/// The current token, which ends a line, goes into the tree behind an entry.
proof fn lemma_after_entry(p: State, not_newline: bool, entry_started: bool, kind: SyntaxKind)
    requires
        in_line(p, not_newline, entry_started),
        p.current is Some,
        kind == SyntaxKind::NEWLINE || (kind == SyntaxKind::ERROR && p.current == Some(
            SyntaxKind::BRACKET_START,
        )),
    ensures
        ({
            let t = p.close_entry(entry_started).token_as(kind).0.tree;
            &&& in_order(p.toks, t, !not_newline || kind == SyntaxKind::NEWLINE)
            &&& open_nodes(t) == 1
        }),
{
    let c = p.close_entry(entry_started);
    let e = TreeEvent::Token { kind: kind.number(), text: p.text };
    assert(p.toks[p.pos - 1].kind == p.current->0);
    lemma_walk_push(p.tree, TreeEvent::Close);
    lemma_walk_push(c.tree, e);
    lemma_end(p.toks, p.tree, entry_started, e, !not_newline);
    let m = c.emit(kind, c.text);
    lemma_step_tokens(m);
    lemma_tokens(p.toks, m.tree, m.step().tree, !not_newline || kind == SyntaxKind::NEWLINE);
}

/// A line break ends a line.
proof fn lemma_line_newline(p: State, not_newline: bool, entry_started: bool)
    requires
        in_line(p, not_newline, entry_started),
        p.current == Some(SyntaxKind::NEWLINE),
    ensures
        in_line(p.close_entry(entry_started).token().0, false, false),
        p.close_entry(entry_started).token().0.toks == p.toks,
        p.close_entry(entry_started).token().0.left() < p.left(),
{
    let c = p.close_entry(entry_started);
    assert(valid(c));
    lemma_keeps_token(c);
    lemma_token(c);
    lemma_after_entry(p, not_newline, entry_started, SyntaxKind::NEWLINE);
}

/// An opening bracket stands behind something else on a line.
proof fn lemma_line_bracket(p: State, entry_started: bool)
    requires
        in_line(p, true, entry_started),
        p.current == Some(SyntaxKind::BRACKET_START),
    ensures
        in_line(p.close_entry(entry_started).error("expected new line"@), true, false),
        p.close_entry(entry_started).error("expected new line"@).toks == p.toks,
        p.close_entry(entry_started).error("expected new line"@).left() < p.left(),
{
    let c = p.close_entry(entry_started);
    let message = "expected new line"@;
    assert(valid(c));
    lemma_whitelist_bits();
    lemma_keeps_error(c, message);
    lemma_error(c, message);
    lemma_keeps_report(p, message);
    let r = p.report(message);
    lemma_after_entry(r, true, entry_started, SyntaxKind::ERROR);
    assert(c.report(message) == r.close_entry(entry_started));
}

/// Something else stands behind something else on a line.
proof fn lemma_line_error(p: State, entry_started: bool)
    requires
        in_line(p, true, entry_started),
        p.current is Some,
    ensures
        in_line(p.error("expected new line"@), true, entry_started),
        p.error("expected new line"@).toks == p.toks,
        p.error("expected new line"@).left() < p.left(),
{
    let message = "expected new line"@;
    lemma_whitelist_bits();
    lemma_keeps_error(p, message);
    lemma_error(p, message);
    let r = p.report(message);
    let m = r.emit(SyntaxKind::ERROR, r.text);
    let e = TreeEvent::Token { kind: SyntaxKind::ERROR.number(), text: r.text };
    lemma_step_tokens(m);
    lemma_only_tokens_push(p.tree, e, m.step().tree);
    lemma_tokens(p.toks, p.tree, p.error(message).tree, false);
}

/// A header starts a line.
proof fn lemma_line_header(s: State)
    requires
        in_line(s, false, false),
    ensures
        in_line(s.header_line(), true, false),
        s.header_line().toks == s.toks,
        s.header_line().left() <= s.left(),
{
    lemma_whitelist_bits();
    lemma_keeps_header_line(s);
    let kind = if s.bracket_follows() {
        SyntaxKind::TABLE_ARRAY_HEADER
    } else {
        SyntaxKind::TABLE_HEADER
    };
    let o = s.allow(SyntaxKind::NEWLINE).open(kind);
    let r = if s.bracket_follows() {
        lemma_keeps_table_array_header(o);
        o.table_array_header().0
    } else {
        lemma_keeps_table_header(o);
        o.table_header().0
    };
    let e = TreeEvent::Open { kind: kind.number() };
    lemma_walk_push(s.tree, e);
    lemma_child_push(s.tree, e);
    lemma_push(s.toks, s.tree, e, true);
    lemma_nested(s.toks, o.tree, r.tree, r.tree.len() as int);
    assert(r.tree.take(r.tree.len() as int) =~= r.tree);
    lemma_push(s.toks, r.tree, TreeEvent::Close, false);
}

/// An entry starts a line.
proof fn lemma_line_entry(p: State)
    requires
        in_line(p, false, false),
    ensures
        in_line(p.entry_line(), true, true),
        p.entry_line().toks == p.toks,
        p.entry_line().left() <= p.left(),
{
    let e = TreeEvent::Open { kind: SyntaxKind::ENTRY.number() };
    let r = p.entry_line();
    let o = p.open(SyntaxKind::ENTRY);
    lemma_keeps_entry_line(p);
    lemma_walk_push(p.tree, e);
    lemma_push(p.toks, p.tree, e, true);
    lemma_nested(p.toks, o.tree, r.tree, r.tree.len() as int);
    assert(r.tree.take(r.tree.len() as int) =~= r.tree);
}

proof fn lemma_lines(s: State, not_newline: bool, entry_started: bool)
    requires
        in_line(s, not_newline, entry_started),
    ensures
        in_order(
            s.toks,
            s.lines(not_newline, entry_started).tree.push(TreeEvent::Close),
            false,
        ),
    decreases
            s.left(),
            if not_newline {
                0int
            } else {
                1int
            },
{
    lemma_line_peek(s, not_newline, entry_started);
    let p = s.peek();
    let c = p.close_entry(entry_started);
    if p.current is None {
        lemma_end(s.toks, p.tree, entry_started, TreeEvent::Close, !not_newline);
        lemma_any_line(s.toks, c.tree.push(TreeEvent::Close), !not_newline);
    } else if p.current->0 == SyntaxKind::NEWLINE {
        lemma_line_newline(p, not_newline, entry_started);
        lemma_lines(c.token().0, false, false);
    } else if p.current->0 == SyntaxKind::BRACKET_START && not_newline {
        lemma_line_bracket(p, entry_started);
        lemma_lines(c.error("expected new line"@), true, false);
    } else if p.current->0 == SyntaxKind::BRACKET_START {
        lemma_line_header(p);
        lemma_lines(p.header_line(), true, false);
    } else if not_newline {
        lemma_line_error(p, entry_started);
        lemma_lines(p.error("expected new line"@), true, entry_started);
    } else {
        lemma_line_entry(p);
        lemma_lines(p.entry_line(), true, true);
    }
}

proof fn lemma_document(toks: Seq<Tok>)
    requires
        tiled(toks),
    ensures
        entries_take_lines(toks, document(toks).tree),
        lines_part_children(document(toks).tree),
        root_is_plain(document(toks).tree),
{
    reveal(in_order);
    let root = TreeEvent::Open { kind: SyntaxKind::ROOT.number() };
    let o = State::initial(toks).open(SyntaxKind::ROOT);
    lemma_walk_push(Seq::empty(), root);
    lemma_push(toks, Seq::empty(), root, true);
    lemma_lines(o, false, false);
}

/// An entry of a document takes all of its line: what follows it in the tree
/// is a line break, the end of the document, or an opening bracket that is
/// reported because it has to stand on a new line.
pub proof fn entries_end_with_lines(toks: Seq<Tok>)
    requires
        tiled(toks),
    ensures
        entries_take_lines(toks, document(toks).tree),
{
    lemma_document(toks);
}

/// Line breaks stand between entries: between every two nodes directly under
/// the root, entries or headers, there is a line break directly under the root.
pub proof fn line_breaks_part_entries(toks: Seq<Tok>)
    requires
        tiled(toks),
    ensures
        lines_part_children(document(toks).tree),
{
    lemma_document(toks);
}

/// Directly under the root stand only entries and headers, and between them
/// only line breaks, blanks, comments and errors.
pub proof fn root_holds_lines(toks: Seq<Tok>)
    requires
        tiled(toks),
    ensures
        root_is_plain(document(toks).tree),
{
    lemma_document(toks);
}

} // verus!
