//! Every line of a text is parsed for itself: one that the grammar derives
//! stands in the tree as it is derived, and one that it does not derive is
//! reported, whatever the other lines are.

use vstd::prelude::*;

use super::super::{
    at, clean_to, fine, good, is_error_token, lemma_c_entry, lemma_c_header_line,
    lemma_clean_before, lemma_entry_start, lemma_g_entry, lemma_g_header_line, lemma_g_peek,
    lemma_start, lemma_words_prefix, no_error_tokens,
};
use super::{built, entry_end, lemma_d_entry, lemma_d_header_line, lemma_d_peek};
use crate::afresh::{
    join, lemma_break_is_later, lemma_line_ends, lemma_lines_extend, lemma_new_line,
    lemma_on_line_close, lemma_on_line_entry, lemma_on_line_error, lemma_on_line_header,
    lemma_on_line_peek, lemma_outcome_peek, lemma_quiet_trans, lemma_text_ends, lemma_texts_len,
    lines_start_afresh, moved, on_line, outcome, parsed_afresh, quiet, shifted,
};
use crate::derivation::{is_node, lemma_skeleton_push, line_walk, node, skeleton};
use crate::error::ErrorView;
use crate::grammar::{all_clean, clean, entry, is_trivia, line, words};
use crate::laws::{errors_are_in_text, looking_twice_is_looking_once};
use crate::leaves::lemma_leaves_push;
use crate::model::{document, lemma_peek, State, Tok};
use crate::preserved::{
    end_of, errors_fit, known_message, lemma_keeps_report, lemma_keeps_token_as, lemma_walk_push,
    none_empty, texts_from, tiled, valid, whole_text,
};
use crate::syntax::SyntaxKind;
use crate::tree::{open_nodes, tree_text, TreeEvent};
use crate::under_root::line_breaks;

verus! {

broadcast use {lemma_leaves_push, lemma_skeleton_push};

/// The state before anything was read, in the root.
spec fn start(toks: Seq<Tok>) -> State {
    State::initial(toks).open(SyntaxKind::ROOT)
}

/// What enters the root.
spec fn root() -> TreeEvent {
    TreeEvent::Open { kind: SyntaxKind::ROOT.number() }
}

proof fn lemma_at_start(toks: Seq<Tok>)
    requires
        tiled(toks),
    ensures
        on_line(start(toks), false),
        good(start(toks)),
        at(start(toks)) == 0,
        outcome(start(toks), false, false) == document(toks),
        start(toks).tree == seq![root()],
        built(start(toks)) == seq![root()],
{
    reveal(on_line);
    reveal(outcome);
    let s = start(toks);
    lemma_start(toks);
    lemma_walk_push(Seq::empty(), root());
    assert(whole_text(s) =~= texts_from(toks, 0));
    assert(s.tree =~= seq![root()]);
    assert(skeleton(Seq::<TreeEvent>::empty()) == Seq::<TreeEvent>::empty());
}

/// The lines go on behind what was read first.
proof fn lemma_outcome_first(s: State)
    requires
        on_line(s, false),
        s.peek().current is Some,
        s.peek().current->0 != SyntaxKind::NEWLINE,
    ensures
        s.peek().current->0 == SyntaxKind::BRACKET_START ==> outcome(s, false, false) == outcome(
            s.peek().header_line(),
            true,
            false,
        ),
        s.peek().current->0 != SyntaxKind::BRACKET_START ==> outcome(s, false, false) == outcome(
            s.peek().entry_line(),
            true,
            true,
        ),
{
    reveal(outcome);
    lemma_peek(s);
    lemma_on_line_peek(s, false);
    lemma_on_line_header(s.peek());
    lemma_on_line_entry(s.peek());
}

/// A line that starts with a bracket was read: the state behind it, and its walk.
proof fn lemma_header_read(toks: Seq<Tok>, j: int) -> (r: (State, Seq<TreeEvent>))
    requires
        tiled(toks),
        fine(start(toks), j),
        line(words(toks, toks.len() as int), 0, j),
        start(toks).peek().current == Some(SyntaxKind::BRACKET_START),
        start(toks).peek().errors.len() == 0,
    ensures
        good(r.0),
        r.0.toks == toks,
        r.0.errors.len() == 0,
        at(r.0) == j,
        on_line(r.0, false),
        quiet(start(toks).tree, r.0.tree),
        outcome(r.0, true, false) == document(toks),
        line_walk(words(toks, toks.len() as int), 0, j, r.1),
        built(r.0) == seq![root()] + r.1,
{
    let s = start(toks);
    let p = s.peek();
    lemma_at_start(toks);
    lemma_g_peek(s);
    lemma_peek(s);
    lemma_d_peek(s);
    lemma_outcome_first(s);
    lemma_on_line_peek(s, false);
    lemma_on_line_header(p);
    lemma_g_header_line(p);
    lemma_c_header_line(p, j);
    let c = p.header_line();
    lemma_quiet_trans(s.tree, p.tree, c.tree);
    let t = lemma_d_header_line(p);
    (c, t)
}

/// A line that starts with something else was read: the state behind it, and its walk.
proof fn lemma_entry_read(toks: Seq<Tok>, j: int) -> (r: (State, Seq<TreeEvent>))
    requires
        tiled(toks),
        fine(start(toks), j),
        entry(words(toks, toks.len() as int), 0, j),
        start(toks).peek().current is Some,
        start(toks).peek().current->0 != SyntaxKind::NEWLINE,
        start(toks).peek().current->0 != SyntaxKind::BRACKET_START,
        start(toks).peek().errors.len() == 0,
    ensures
        good(r.0),
        r.0.toks == toks,
        r.0.errors.len() == 0,
        at(r.0) == j,
        on_line(r.0, true),
        quiet(start(toks).tree, r.0.tree),
        outcome(r.0, true, true) == document(toks),
        line_walk(words(toks, toks.len() as int), 0, j, r.1),
        built(r.0) + entry_end(true) == seq![root()] + r.1,
{
    let s = start(toks);
    let p = s.peek();
    lemma_at_start(toks);
    lemma_g_peek(s);
    lemma_peek(s);
    lemma_d_peek(s);
    lemma_outcome_first(s);
    lemma_on_line_peek(s, false);
    lemma_on_line_entry(p);
    let o = p.open(SyntaxKind::ENTRY).allow(SyntaxKind::NEWLINE);
    lemma_g_entry(o);
    lemma_c_entry(o, j);
    let c = p.entry_line();
    lemma_quiet_trans(s.tree, p.tree, c.tree);
    let inside = lemma_d_entry(o);
    let t = node(SyntaxKind::ENTRY, inside);
    assert(is_node(t, SyntaxKind::ENTRY, inside));
    assert(built(c) + entry_end(true) =~= seq![root()] + t);
    (c, t)
}

/// The first line of a text ends at its `m`-th token, a line break, or with the text.
pub open spec fn line_ends(toks: Seq<Tok>, m: int) -> bool {
    0 <= m <= toks.len() && (m < toks.len() ==> toks[m].kind == SyntaxKind::NEWLINE)
}

/// The tokens up to the `m`-th are a line that the grammar derives: a header or
/// an entry, with nothing wrong between their words.
pub open spec fn is_good_line(toks: Seq<Tok>, m: int) -> bool {
    &&& line_ends(toks, m)
    &&& all_clean(toks, m)
    &&& line(words(toks, toks.len() as int), 0, words(toks, m).len() as int)
}

/// A part of a walk is the derivation of the tokens up to the `m`-th as a line,
/// without error tokens.
pub open spec fn is_line_walk(toks: Seq<Tok>, m: int, part: Seq<TreeEvent>) -> bool {
    &&& line_walk(
        words(toks, toks.len() as int),
        0,
        words(toks, m).len() as int,
        skeleton(part),
    )
    &&& no_error_tokens(part)
}

proof fn lemma_line_fine(toks: Seq<Tok>, m: int)
    requires
        line_ends(toks, m),
        all_clean(toks, m),
    ensures
        fine(start(toks), words(toks, m).len() as int),
{
    reveal(clean_to);
    let j = words(toks, m).len();
    assert forall|i: int| 0 <= i < toks.len() && words(toks, i).len() <= j implies clean(
        #[trigger] toks[i],
    ) by {
        if i > m {
            lemma_words_prefix(toks, m + 1, i);
        }
    }
}

/// A line was read: the state behind it, whether an entry is open there, and its walk.
proof fn lemma_line_read(toks: Seq<Tok>, j: int) -> (r: (State, bool, Seq<TreeEvent>))
    requires
        tiled(toks),
        fine(start(toks), j),
        line(words(toks, toks.len() as int), 0, j),
    ensures
        good(r.0),
        r.0.toks == toks,
        r.0.errors.len() == 0,
        at(r.0) == j,
        on_line(r.0, r.1),
        quiet(start(toks).tree, r.0.tree),
        outcome(r.0, true, r.1) == document(toks),
        line_walk(words(toks, toks.len() as int), 0, j, r.2),
        built(r.0) + entry_end(r.1) == seq![root()] + r.2,
{
    let ws = words(toks, toks.len() as int);
    let s = start(toks);
    lemma_at_start(toks);
    if entry(ws, 0, j) {
        lemma_entry_start(ws, 0, j);
    }
    assert(0 <= j);
    lemma_clean_before(toks, 0, j);
    lemma_g_peek(s);
    if s.peek().current->0 == SyntaxKind::BRACKET_START {
        let (c, t) = lemma_header_read(toks, j);
        assert(built(c) + entry_end(false) =~= built(c));
        (c, false, t)
    } else {
        let (c, t) = lemma_entry_read(toks, j);
        (c, true, t)
    }
}

/// The current token is the word at which it stands.
proof fn lemma_token_index(s: State, m: int)
    requires
        good(s),
        s.current is Some,
        0 <= m < s.toks.len(),
        !is_trivia(s.toks[m].kind),
        at(s) == words(s.toks, m).len(),
    ensures
        s.pos == m + 1,
{
    if s.pos <= m {
        lemma_words_prefix(s.toks, s.pos, m);
    } else if s.pos > m + 1 {
        lemma_words_prefix(s.toks, m + 1, s.pos - 1);
    }
}

proof fn lemma_skeleton_add(a: Seq<TreeEvent>, b: Seq<TreeEvent>)
    ensures
        skeleton(a + b) == skeleton(a) + skeleton(b),
    decreases b.len(),
{
    if b.len() == 0 {
        assert(a + b =~= a);
        assert(skeleton(a) + Seq::<TreeEvent>::empty() =~= skeleton(a));
    } else {
        lemma_skeleton_add(a, b.drop_last());
        assert(a + b =~= (a + b.drop_last()).push(b.last()));
        assert(skeleton(a) + skeleton(b.drop_last()).push(b.last()) =~= (skeleton(a) + skeleton(
            b.drop_last(),
        )).push(b.last()));
    }
}

/// What a walk holds behind the start of the root.
proof fn lemma_in_root(tree: Seq<TreeEvent>, y: int, t: Seq<TreeEvent>)
    requires
        1 <= y <= tree.len(),
        tree[0] == root(),
        skeleton(tree.take(y)) == seq![root()] + t,
    ensures
        skeleton(tree.subrange(1, y)) == t,
{
    let first = Seq::<TreeEvent>::empty().push(root());
    let part = tree.subrange(1, y);
    assert(skeleton(Seq::<TreeEvent>::empty()) == Seq::<TreeEvent>::empty());
    assert(first + part =~= tree.take(y));
    lemma_skeleton_add(first, part);
    assert((seq![root()] + t).skip(1) =~= t);
    assert((seq![root()] + skeleton(part)).skip(1) =~= skeleton(part));
}

/// All errors start where the line break at the `m`-th token ends, or later.
spec fn errors_behind(toks: Seq<Tok>, errors: Seq<ErrorView>, m: int) -> bool {
    if m < toks.len() {
        forall|i: int| 0 <= i < errors.len() ==> (#[trigger] errors[i]).start >= end_of(toks, m + 1)
    } else {
        errors.len() == 0
    }
}

/// The rest of the tokens of a tiled text are tiled too.
proof fn lemma_moved_tiled(toks: Seq<Tok>, n: int)
    requires
        tiled(toks),
        0 <= n <= toks.len(),
    ensures
        tiled(moved(toks, n, end_of(toks, n))),
{
    let d = end_of(toks, n);
    let rest = moved(toks, n, d);
    assert forall|i: int| 0 <= i < rest.len() implies rest[i].start == #[trigger] end_of(
        rest,
        i,
    ) by {
        assert(toks[i + n].start == end_of(toks, i + n));
        if i > 0 {
            assert(rest[i - 1].start == toks[i - 1 + n].start - d);
        }
    }
}

/// Behind a line break without errors, errors come later.
proof fn lemma_errors_behind(s: State)
    requires
        on_line(s, false),
        s.current is None,
        s.errors.len() == 0,
        tiled(s.toks),
        0 <= s.pos <= s.toks.len(),
    ensures
        tree_text(s.tree).len() == end_of(s.toks, s.pos),
        ({
            let errors = outcome(s, false, false).errors;
            forall|i: int|
                0 <= i < errors.len() ==> (#[trigger] errors[i]).start >= end_of(s.toks, s.pos)
        }),
{
    reveal(outcome);
    lemma_new_line(s);
    let d = end_of(s.toks, s.pos);
    let rest = document(moved(s.toks, s.pos, d)).errors;
    lemma_moved_tiled(s.toks, s.pos);
    errors_are_in_text(moved(s.toks, s.pos, d));
    let errors = outcome(s, false, false).errors;
    assert(errors == join(s.errors, shifted(rest, d)));
    assert(join(s.errors, shifted(rest, d)) =~= shifted(rest, d));
    assert forall|i: int| 0 <= i < errors.len() implies (#[trigger] errors[i]).start >= d by {
        assert(rest[i].start >= 0);
    }
}

/// A line that is followed by a line break.
proof fn lemma_line_then_break(toks: Seq<Tok>, m: int, c: State, es: bool, t: Seq<TreeEvent>) -> (y:
    int)
    requires
        tiled(toks),
        line_ends(toks, m),
        m < toks.len(),
        fine(c, words(toks, m).len() as int),
        good(c),
        c.toks == toks,
        at(c) == words(toks, m).len(),
        on_line(c, es),
        outcome(c, true, es) == document(toks),
        built(c) + entry_end(es) == seq![root()] + t,
        c.tree.len() > 0,
        c.tree[0] == root(),
    ensures
        ({
            let tree = document(toks).tree;
            &&& 1 <= y < tree.len()
            &&& skeleton(tree.subrange(1, y)) == t
            &&& no_error_tokens(tree.subrange(1, y))
            &&& line_breaks(tree, y)
            &&& tree_text(tree.take(y + 1)).len() == end_of(toks, m + 1)
            &&& errors_behind(toks, document(toks).errors, m)
        }),
{
    let tree = document(toks).tree;
    let p = c.peek();
    lemma_g_peek(c);
    lemma_d_peek(c);
    lemma_words_prefix(toks, m + 1, toks.len() as int);
    assert(words(toks, m + 1)[at(c)].kind == SyntaxKind::NEWLINE);
    assert(p.current == Some(SyntaxKind::NEWLINE));
    lemma_token_index(p, m);
    let b = lemma_line_ends(c, true, es);
    lemma_errors_behind(b);
    lemma_lines_extend(b, false, false);
    lemma_on_line_peek(c, es);
    lemma_on_line_close(p, es);
    let e = p.close_entry(es);
    let y = e.tree.len() as int;
    assert(b.tree =~= tree.take(y + 1));
    assert(tree.take(y) =~= e.tree) by {
        assert(tree.take(y + 1).take(y) =~= tree.take(y));
        assert(b.tree.take(y) =~= e.tree);
    }
    assert(tree[y] == b.tree[y]);
    assert(built(e) =~= built(c) + entry_end(es));
    assert(p.tree.len() > 0 && p.tree[0] == root()) by {
        lemma_first_stays(c, es);
    }
    assert(tree[0] == e.tree[0]);
    lemma_in_root(tree, y, t);
    assert(open_nodes(e.tree) == 1) by {
        reveal(on_line);
    }
    assert forall|i: int| 0 <= i < tree.subrange(1, y).len() implies !is_error_token(
        #[trigger] tree.subrange(1, y)[i],
    ) by {
        assert(tree.subrange(1, y)[i] == e.tree[i + 1]);
        assert(!is_error_token(e.tree[i + 1]));
    }
    y
}

/// A line with which the text ends.
proof fn lemma_line_then_end(toks: Seq<Tok>, c: State, es: bool, t: Seq<TreeEvent>) -> (y: int)
    requires
        fine(c, words(toks, toks.len() as int).len() as int),
        good(c),
        c.toks == toks,
        at(c) == words(toks, toks.len() as int).len(),
        on_line(c, es),
        outcome(c, true, es) == document(toks),
        built(c) + entry_end(es) == seq![root()] + t,
        c.tree.len() > 0,
        c.tree[0] == root(),
    ensures
        ({
            let tree = document(toks).tree;
            &&& 1 <= y < tree.len()
            &&& skeleton(tree.subrange(1, y)) == t
            &&& no_error_tokens(tree.subrange(1, y))
            &&& y == tree.len() - 1
            &&& document(toks).errors.len() == 0
        }),
{
    reveal(outcome);
    let tree = document(toks).tree;
    let p = c.peek();
    lemma_g_peek(c);
    lemma_d_peek(c);
    let e = p.close_entry(es);
    let y = e.tree.len() as int;
    assert(tree == e.tree.push(TreeEvent::Close));
    assert(tree.take(y) =~= e.tree);
    assert(built(e) =~= built(c) + entry_end(es));
    assert(p.tree.len() > 0 && p.tree[0] == root()) by {
        lemma_first_stays(c, es);
    }
    assert(tree[0] == e.tree[0]);
    lemma_in_root(tree, y, t);
    assert forall|i: int| 0 <= i < tree.subrange(1, y).len() implies !is_error_token(
        #[trigger] tree.subrange(1, y)[i],
    ) by {
        assert(tree.subrange(1, y)[i] == e.tree[i + 1]);
        assert(!is_error_token(e.tree[i + 1]));
    }
    y
}

/// What a walk starts with stays there.
proof fn lemma_first_stays(c: State, es: bool)
    requires
        on_line(c, es),
        c.tree.len() > 0,
    ensures
        c.peek().tree.len() > 0,
        c.peek().tree[0] == c.tree[0],
{
    reveal(quiet);
    lemma_on_line_peek(c, es);
    assert(c.peek().tree.take(c.tree.len() as int)[0] == c.peek().tree[0]);
}

/// The first line of a text, where the grammar derives it: where it ends in the tree.
proof fn lemma_good_first_line(toks: Seq<Tok>, m: int) -> (y: int)
    requires
        tiled(toks),
        is_good_line(toks, m),
    ensures
        ({
            let tree = document(toks).tree;
            &&& 1 <= y < tree.len()
            &&& is_line_walk(toks, m, tree.subrange(1, y))
            &&& m < toks.len() ==> line_breaks(tree, y) && tree_text(tree.take(y + 1)).len()
                == end_of(toks, m + 1)
            &&& m == toks.len() ==> y == tree.len() - 1
            &&& errors_behind(toks, document(toks).errors, m)
        }),
{
    lemma_line_fine(toks, m);
    lemma_at_start(toks);
    let (c, es, t) = lemma_line_read(toks, words(toks, m).len() as int);
    assert(c.tree.len() > 0 && c.tree[0] == root()) by {
        reveal(quiet);
        assert(c.tree.take(1)[0] == c.tree[0]);
    }
    if m < toks.len() {
        lemma_line_then_break(toks, m, c, es, t)
    } else {
        lemma_line_then_end(toks, c, es, t)
    }
}

/// The tokens from the `n`-th on, as those of a text of its own.
pub open spec fn rest_of(toks: Seq<Tok>, n: int) -> Seq<Tok> {
    moved(toks, n, end_of(toks, n))
}

/// A line starts behind the event at `x` of the tree of a text, which enters
/// the root or is a line break directly under it; and behind the first `n`
/// tokens of the text.
pub open spec fn line_starts(toks: Seq<Tok>, x: int, n: int) -> bool {
    let tree = document(toks).tree;
    &&& x == 0 || line_breaks(tree, x)
    &&& 0 <= x < tree.len()
    &&& 0 <= n <= toks.len()
    &&& tree_text(tree.take(x + 1)).len() == end_of(toks, n)
}

/// The line that starts behind the event at `x`, and takes the `m` tokens from
/// the `n`-th on, is derived by what stands in front of the event at `y`: a
/// line break directly under the root, or the end of the root.
pub open spec fn line_stands(toks: Seq<Tok>, x: int, n: int, m: int, y: int) -> bool {
    let tree = document(toks).tree;
    &&& x < y < tree.len()
    &&& is_line_walk(rest_of(toks, n), m, tree.subrange(x + 1, y))
    &&& if n + m < toks.len() {
        line_breaks(tree, y) && tree_text(tree.take(y + 1)).len() == end_of(toks, n + m + 1)
    } else {
        y == tree.len() - 1
    }
}

/// No error has a part in the `m` tokens from the `n`-th on, or in the line
/// break behind them.
pub open spec fn line_is_clear(toks: Seq<Tok>, errors: Seq<ErrorView>, n: int, m: int) -> bool {
    forall|i: int|
        0 <= i < errors.len() ==> (#[trigger] errors[i]).end <= end_of(toks, n) || (n + m
            < toks.len() && errors[i].start >= end_of(toks, n + m + 1))
}

proof fn lemma_end_grows(toks: Seq<Tok>, a: int, b: int)
    requires
        tiled(toks),
        none_empty(toks),
        0 <= a < b <= toks.len(),
    ensures
        end_of(toks, a) < end_of(toks, b),
    decreases b - a,
{
    if a + 1 < b {
        lemma_end_grows(toks, a, b - 1);
    }
    assert(toks[b - 1].start == end_of(toks, b - 1));
}

/// A line starts afresh, and at one token alone.
proof fn lemma_starts_afresh(toks: Seq<Tok>, x: int, n: int)
    requires
        tiled(toks),
        none_empty(toks),
        line_starts(toks, x, n),
    ensures
        parsed_afresh(toks, x, n),
{
    if x == 0 {
        lemma_at_start(toks);
        lemma_lines_extend(start(toks), false, false);
        let tree = document(toks).tree;
        lemma_walk_push(Seq::empty(), root());
        assert(tree.take(1) =~= seq![root()]);
        assert(tree_text(seq![root()]).len() == 0);
        if n > 0 {
            lemma_end_grows(toks, 0, n);
        }
        assert(moved(toks, 0, 0) =~= toks);
        let errors = document(toks).errors;
        assert(shifted(errors, 0) =~= errors);
        assert(join(Seq::empty(), errors) =~= errors);
        assert(errors_fit(Seq::empty(), 0));
    } else {
        lines_start_afresh(toks, x);
        let k = choose|k: int| #[trigger]
            parsed_afresh(toks, x, k) && k > 0 && toks[k - 1].kind == SyntaxKind::NEWLINE;
        if k < n {
            lemma_end_grows(toks, k, n);
        } else if n < k {
            lemma_end_grows(toks, n, k);
        }
    }
}

proof fn lemma_rest_end(toks: Seq<Tok>, n: int, k: int)
    requires
        0 <= n <= toks.len(),
        0 <= k <= toks.len() - n,
    ensures
        end_of(rest_of(toks, n), k) == end_of(toks, n + k) - end_of(toks, n),
{
}

proof fn lemma_open_nodes_add(a: Seq<TreeEvent>, b: Seq<TreeEvent>)
    ensures
        open_nodes(a + b) == open_nodes(a) + open_nodes(b),
        tree_text(a + b) == tree_text(a) + tree_text(b),
    decreases b.len(),
{
    if b.len() == 0 {
        assert(a + b =~= a);
        assert(tree_text(a) + Seq::<u8>::empty() =~= tree_text(a));
    } else {
        lemma_open_nodes_add(a, b.drop_last());
        assert((a + b).drop_last() =~= a + b.drop_last());
        assert(tree_text(a + b) =~= tree_text(a) + tree_text(b));
    }
}

/// What stands behind a start of a line in a tree, and in that of the rest.
proof fn lemma_same_part(toks: Seq<Tok>, x: int, n: int, y: int)
    requires
        tiled(toks),
        parsed_afresh(toks, x, n),
        line_starts(toks, x, n),
        1 <= y < document(rest_of(toks, n)).tree.len(),
    ensures
        ({
            let tree = document(toks).tree;
            let rest = document(rest_of(toks, n)).tree;
            &&& tree.len() - (x + 1) == rest.len() - 1
            &&& tree.subrange(x + 1, x + y) == rest.subrange(1, y)
            &&& line_breaks(tree, x + y) == line_breaks(rest, y)
            &&& tree_text(tree.take(x + y)).len() == end_of(toks, n) + tree_text(
                rest.take(y),
            ).len()
            &&& tree_text(tree.take(x + y + 1)).len() == end_of(toks, n) + tree_text(
                rest.take(y + 1),
            ).len()
        }),
{
    let tree = document(toks).tree;
    let rest = document(rest_of(toks, n)).tree;
    lemma_moved_tiled(toks, n);
    lemma_at_start(toks);
    lemma_at_start(rest_of(toks, n));
    lemma_lines_extend(start(toks), false, false);
    lemma_lines_extend(start(rest_of(toks, n)), false, false);
    lemma_walk_push(Seq::empty(), root());
    assert(rest.take(1) =~= seq![root()]);
    assert(open_nodes(seq![root()]) == 1 && tree_text(seq![root()]).len() == 0);
    assert(tree.skip(x + 1).len() == rest.skip(1).len());
    assert(tree.subrange(x + 1, x + y) =~= tree.skip(x + 1).take(y - 1));
    assert(rest.subrange(1, y) =~= rest.skip(1).take(y - 1));
    assert(tree.subrange(x + 1, x + y + 1) =~= tree.skip(x + 1).take(y));
    assert(rest.subrange(1, y + 1) =~= rest.skip(1).take(y));
    assert(tree.skip(x + 1)[y - 1] == tree[x + y]);
    assert(rest.skip(1)[y - 1] == rest[y]);
    let a = tree.take(x + 1);
    assert(tree.take(x + y) =~= a + tree.subrange(x + 1, x + y));
    assert(tree.take(x + y + 1) =~= a + tree.subrange(x + 1, x + y + 1));
    assert(rest.take(y) =~= seq![root()] + rest.subrange(1, y));
    assert(rest.take(y + 1) =~= seq![root()] + rest.subrange(1, y + 1));
    lemma_open_nodes_add(a, tree.subrange(x + 1, x + y));
    lemma_open_nodes_add(a, tree.subrange(x + 1, x + y + 1));
    lemma_open_nodes_add(seq![root()], rest.subrange(1, y));
    lemma_open_nodes_add(seq![root()], rest.subrange(1, y + 1));
    assert(open_nodes(a) == 1) by {
        if x == 0 {
            assert(a =~= seq![root()]);
        } else {
            assert(a =~= tree.take(x).push(tree[x]));
            lemma_walk_push(tree.take(x), tree[x]);
        }
    }
}

/// A line that the grammar derives stands in the tree as it is derived,
/// whatever the lines before and behind it are: wherever a line starts, at the
/// start of the text or behind a line break directly under the root, and the
/// tokens from there up to a line break or the end of the text are a header or
/// an entry, the tree holds the derivation of that line there, without error
/// tokens, and no error lies in that line.
pub proof fn good_lines_are_derived(toks: Seq<Tok>, x: int, n: int, m: int)
    requires
        tiled(toks),
        none_empty(toks),
        line_starts(toks, x, n),
        is_good_line(rest_of(toks, n), m),
    ensures
        exists|y: int| #[trigger] line_stands(toks, x, n, m, y),
        line_is_clear(toks, document(toks).errors, n, m),
{
    let d = end_of(toks, n);
    let rest = rest_of(toks, n);
    lemma_starts_afresh(toks, x, n);
    lemma_moved_tiled(toks, n);
    let y = lemma_good_first_line(rest, m);
    lemma_same_part(toks, x, n, y);
    if m < rest.len() {
        lemma_rest_end(toks, n, m + 1);
    }
    assert(line_stands(toks, x, n, m, x + y));
    let errors = document(toks).errors;
    let later = document(rest).errors;
    let before = choose|before: Seq<ErrorView>| #[trigger]
        errors_fit(before, d) && errors == join(before, shifted(later, d));
    assert forall|i: int| 0 <= i < errors.len() implies (#[trigger] errors[i]).end <= d || (n + m
        < toks.len() && errors[i].start >= end_of(toks, n + m + 1)) by {
        if i >= before.len() {
            let skipped: int = if errors.len() < before.len() + later.len() {
                1
            } else {
                0
            };
            let k = i - before.len() + skipped;
            assert(errors[i] == shifted(later, d)[k]);
            assert(later[k].start + d == errors[i].start);
        } else {
            assert(errors[i] == before[i]);
        }
    }
}

/// A line that starts behind the event at `x` of a tree ends at the one at
/// `y`: the next line break directly under the root, or the end of the root.
pub open spec fn line_reaches(tree: Seq<TreeEvent>, x: int, y: int) -> bool {
    &&& 0 <= x < y < tree.len()
    &&& line_breaks(tree, y) || y == tree.len() - 1
    &&& forall|k: int| x < k < y ==> !#[trigger] line_breaks(tree, k)
}

/// The tokens up to the `m`-th are clean, and nothing or a line of the grammar.
pub open spec fn line_derives(toks: Seq<Tok>, m: int) -> bool {
    let j = words(toks, m).len() as int;
    all_clean(toks, m) && (j == 0 || line(words(toks, toks.len() as int), 0, j))
}

/// The end of the `n`-th token, or of the text.
pub open spec fn end_behind(toks: Seq<Tok>, n: int) -> int {
    if n < toks.len() {
        end_of(toks, n + 1)
    } else {
        end_of(toks, n)
    }
}

/// An error ends with the `m`-th token, or before.
spec fn reported(toks: Seq<Tok>, errors: Seq<ErrorView>, m: int) -> bool {
    exists|i: int| 0 <= i < errors.len() && (#[trigger] errors[i]).end <= end_behind(toks, m)
}

/// The parser is on the first line of a text, and ends up with its tree.
spec fn on_first_line(c: State, toks: Seq<Tok>, not_newline: bool, es: bool) -> bool {
    &&& on_line(c, es)
    &&& c.toks == toks
    &&& es ==> not_newline
    &&& outcome(c, not_newline, es) == document(toks)
    &&& quiet(start(toks).tree, c.tree)
}

/// The first line of the tree of a text ends at `y`, at the `m`-th token.
spec fn first_ends(toks: Seq<Tok>, y: int, m: int) -> bool {
    &&& tiled(toks)
    &&& none_empty(toks)
    &&& line_reaches(document(toks).tree, 0, y)
    &&& 0 <= m <= toks.len()
    &&& tree_text(document(toks).tree.take(y)).len() == end_of(toks, m)
}

/// How much of the text is in the tree.
proof fn lemma_tree_text_end(c: State, es: bool)
    requires
        on_line(c, es),
    ensures
        valid(c),
        c.current is Some ==> tree_text(c.tree).len() == end_of(c.toks, c.pos - 1),
        c.current is None ==> tree_text(c.tree).len() == end_of(c.toks, c.pos),
{
    reveal(on_line);
    lemma_texts_len(c.toks, 0);
    lemma_texts_len(c.toks, c.pos);
    assert(whole_text(c).len() == texts_from(c.toks, 0).len());
    if c.current is Some {
        assert(c.toks[c.pos - 1].start == end_of(c.toks, c.pos - 1));
    }
}

proof fn lemma_in_first_line(c: State, toks: Seq<Tok>, nn: bool, es: bool, y: int, m: int)
    requires
        on_first_line(c, toks, nn, es),
        first_ends(toks, y, m),
    ensures
        c.tree.len() <= y,
        document(toks).tree.take(c.tree.len() as int) == c.tree,
        c.end() <= end_behind(toks, m),
{
    let tree = document(toks).tree;
    lemma_at_start(toks);
    lemma_tree_text_end(c, es);
    lemma_lines_extend(c, nn, es);
    if line_breaks(tree, y) {
        lemma_break_is_later(start(toks).tree, c.tree, tree, y);
    }
    let part = tree.subrange(c.tree.len() as int, y);
    assert(tree.take(y) =~= c.tree + part);
    lemma_open_nodes_add(c.tree, part);
    if c.pos > m + 1 {
        lemma_end_grows(toks, m, c.pos - 1);
        lemma_end_grows(toks, m, c.pos);
    } else if c.pos == m + 1 {
    } else if c.pos < m {
        lemma_end_grows(toks, c.pos, m);
        if m < toks.len() {
            lemma_end_grows(toks, m, m + 1);
        }
    } else if m < toks.len() {
        lemma_end_grows(toks, m, m + 1);
    }
}

/// An error that was met on the first line is one of it.
proof fn lemma_met(c: State, toks: Seq<Tok>, nn: bool, es: bool, y: int, m: int)
    requires
        on_first_line(c, toks, nn, es),
        first_ends(toks, y, m),
        c.errors.len() > 0,
    ensures
        reported(toks, document(toks).errors, m),
{
    lemma_tree_text_end(c, es);
    lemma_in_first_line(c, toks, nn, es, y, m);
    lemma_lines_extend(c, nn, es);
    let errors = document(toks).errors;
    assert(errors[0] == c.errors[0]);
    assert(errors[0].end <= end_behind(toks, m));
}

/// Where a line break is met, the first line ends.
proof fn lemma_break_met(p: State, toks: Seq<Tok>, nn: bool, es: bool, y: int, m: int)
    requires
        on_first_line(p, toks, nn, es),
        first_ends(toks, y, m),
        p.current == Some(SyntaxKind::NEWLINE),
    ensures
        p.pos == m + 1,
{
    let tree = document(toks).tree;
    lemma_in_first_line(p, toks, nn, es, y, m);
    lemma_on_line_close(p, es);
    let e = p.close_entry(es);
    let b = lemma_line_ends(p, nn, es);
    lemma_lines_extend(b, false, false);
    let k = e.tree.len() as int;
    assert(b.tree.take(k) =~= e.tree);
    assert(tree.take(k + 1).take(k) =~= tree.take(k));
    assert(tree[k] == tree.take(k + 1)[k]);
    lemma_tree_text_end(e, false);
    assert(line_breaks(tree, k)) by {
        reveal(on_line);
    }
    lemma_at_start(toks);
    lemma_quiet_trans(start(toks).tree, p.tree, e.tree);
    if line_breaks(tree, y) {
        lemma_break_is_later(start(toks).tree, e.tree, tree, y);
    }
    assert(k >= 1);
    assert(y == k);
    if p.pos - 1 < m {
        lemma_end_grows(toks, p.pos - 1, m);
    } else if m < p.pos - 1 {
        lemma_end_grows(toks, m, p.pos - 1);
    }
}

/// Where the end of the text is met, the first line ends.
proof fn lemma_end_met(p: State, toks: Seq<Tok>, nn: bool, es: bool, y: int, m: int)
    requires
        on_first_line(p, toks, nn, es),
        first_ends(toks, y, m),
        p.current is None,
        p.peek() == p,
        p.pos == toks.len(),
    ensures
        m == toks.len(),
{
    let tree = document(toks).tree;
    let e = p.close_entry(es);
    lemma_on_line_close(p, es);
    lemma_tree_text_end(e, false);
    lemma_text_ends(p, nn, es);
    lemma_at_start(toks);
    lemma_quiet_trans(start(toks).tree, p.tree, tree);
    if line_breaks(tree, y) {
        assert(tree.take(tree.len() as int) =~= tree);
        lemma_break_is_later(start(toks).tree, tree, tree, y);
    }
    assert(tree == e.tree.push(TreeEvent::Close)) by {
        reveal(outcome);
    }
    assert(tree.take(y) =~= e.tree);
    if m < toks.len() {
        lemma_end_grows(toks, m, toks.len() as int);
    }
}

/// Something else stands behind what was read on the line.
proof fn lemma_rest_met(p: State, toks: Seq<Tok>, es: bool, y: int, m: int)
    requires
        on_first_line(p, toks, true, es),
        first_ends(toks, y, m),
        p.current is Some,
        p.current->0 != SyntaxKind::NEWLINE,
    ensures
        reported(toks, document(toks).errors, m),
{
    lemma_in_first_line(p, toks, true, es, y, m);
    let message = "expected new line"@;
    let e = ErrorView { start: p.start, end: p.end(), message };
    let c = p.close_entry(es);
    lemma_on_line_close(p, es);
    lemma_on_line_error(p, es);
    lemma_on_line_error(c, false);
    let bracket = p.current->0 == SyntaxKind::BRACKET_START;
    let r = if bracket {
        c.report(message)
    } else {
        p.report(message)
    };
    let q = if bracket {
        c.error(message)
    } else {
        p.error(message)
    };
    let open = es && !bracket;
    assert(outcome(q, true, open) == document(toks)) by {
        reveal(outcome);
    }
    assert(r.errors.last() == e);
    lemma_tree_text_end(p, es);
    lemma_tree_text_end(c, false);
    lemma_tree_text_end(q, open);
    assert(r.errors.is_prefix_of(q.errors)) by {
        if bracket {
            lemma_error_prefix(c, message);
        } else {
            lemma_error_prefix(p, message);
        }
    }
    lemma_lines_extend(q, true, open);
    let errors = document(toks).errors;
    let k = r.errors.len() - 1;
    assert(q.errors[k] == r.errors[k]);
    assert(errors[k] == q.errors[k]);
    assert(errors[k].end <= end_behind(toks, m));
}

/// What is reported stays reported.
proof fn lemma_error_prefix(s: State, message: Seq<char>)
    requires
        valid(s),
        known_message(message),
    ensures
        s.report(message).errors.is_prefix_of(s.error(message).errors),
{
    lemma_keeps_report(s, message);
    lemma_keeps_token_as(s.report(message), SyntaxKind::ERROR);
}

/// What was read first on the line: the state behind it, and whether an entry
/// is open there.
proof fn lemma_first_read(toks: Seq<Tok>, p: State) -> (r: (State, bool))
    requires
        tiled(toks),
        p == start(toks).peek(),
        p.current is Some,
        p.current->0 != SyntaxKind::NEWLINE,
    ensures
        on_first_line(r.0, toks, true, r.1),
        good(r.0),
        r.0.errors.len() == 0 ==> line(words(toks, toks.len() as int), 0, at(r.0)),
{
    let s = start(toks);
    lemma_at_start(toks);
    lemma_g_peek(s);
    lemma_on_line_peek(s, false);
    lemma_outcome_first(s);
    if p.current->0 == SyntaxKind::BRACKET_START {
        lemma_on_line_header(p);
        lemma_g_header_line(p);
        lemma_quiet_trans(s.tree, p.tree, p.header_line().tree);
        (p.header_line(), false)
    } else {
        lemma_on_line_entry(p);
        lemma_g_entry(p.open(SyntaxKind::ENTRY).allow(SyntaxKind::NEWLINE));
        lemma_quiet_trans(s.tree, p.tree, p.entry_line().tree);
        (p.entry_line(), true)
    }
}

/// The first line of a text is derived, or something on it is reported.
proof fn lemma_bad_first_line(toks: Seq<Tok>, y: int, m: int)
    requires
        first_ends(toks, y, m),
    ensures
        line_derives(toks, m) || reported(toks, document(toks).errors, m),
{
    let s = start(toks);
    let p = s.peek();
    let size = toks.len() as int;
    lemma_at_start(toks);
    lemma_g_peek(s);
    lemma_on_line_peek(s, false);
    lemma_outcome_peek(s, false, false);
    looking_twice_is_looking_once(s);
    lemma_words_prefix(toks, m, size);
    assert(on_first_line(p, toks, false, false));
    if p.errors.len() > 0 {
        lemma_met(p, toks, false, false, y, m);
    } else if p.current is None {
    } else if p.current->0 == SyntaxKind::NEWLINE {
        lemma_break_met(p, toks, false, false, y, m);
    } else {
        let (c, es) = lemma_first_read(toks, p);
        if c.errors.len() > 0 {
            lemma_met(c, toks, true, es, y, m);
        } else {
            let q = c.peek();
            lemma_g_peek(c);
            lemma_on_line_peek(c, es);
            lemma_outcome_peek(c, true, es);
            looking_twice_is_looking_once(c);
            lemma_quiet_trans(s.tree, c.tree, q.tree);
            assert(on_first_line(q, toks, true, es));
            if q.errors.len() > 0 {
                lemma_met(q, toks, true, es, y, m);
            } else if q.current is None {
                lemma_end_met(q, toks, true, es, y, m);
            } else if q.current->0 == SyntaxKind::NEWLINE {
                lemma_break_met(q, toks, true, es, y, m);
            } else {
                lemma_rest_met(q, toks, es, y, m);
            }
        }
    }
}

/// A line that the grammar does not derive is reported, whatever the lines
/// before and behind it are: wherever a line starts, at the start of the text
/// or behind a line break directly under the root, and the tokens from there
/// up to the next such line break or the end of the text are not blank, nor a
/// header or an entry, some error lies in that line or its line break.
pub proof fn bad_lines_are_reported(toks: Seq<Tok>, x: int, n: int, y: int, m: int)
    requires
        tiled(toks),
        none_empty(toks),
        line_starts(toks, x, n),
        line_reaches(document(toks).tree, x, y),
        0 <= m <= toks.len() - n,
        tree_text(document(toks).tree.take(y)).len() == end_of(toks, n + m),
        !line_derives(rest_of(toks, n), m),
    ensures
        exists|i: int|
            0 <= i < document(toks).errors.len() && end_of(toks, n) <= (
            #[trigger] document(toks).errors[i]).start && document(toks).errors[i].end
                <= end_behind(toks, n + m),
{
    let d = end_of(toks, n);
    let rest = rest_of(toks, n);
    let tree = document(toks).tree;
    let part = document(rest).tree;
    let errors = document(toks).errors;
    let later = document(rest).errors;
    lemma_starts_afresh(toks, x, n);
    lemma_moved_tiled(toks, n);
    errors_are_in_text(rest);
    assert(none_empty(rest)) by {
        assert forall|i: int| 0 <= i < rest.len() implies (#[trigger] rest[i]).text.len() > 0 by {
            assert(toks[i + n].text.len() > 0);
        }
    }
    assert(tree.skip(x + 1).len() == part.skip(1).len());
    lemma_same_part(toks, x, n, y - x);
    lemma_rest_end(toks, n, m);
    if m < rest.len() {
        lemma_rest_end(toks, n, m + 1);
    }
    assert forall|k: int| 0 < k < y - x implies !#[trigger] line_breaks(part, k) by {
        lemma_same_part(toks, x, n, k);
        assert(!line_breaks(tree, x + k));
    }
    lemma_bad_first_line(rest, y - x, m);
    let i = choose|i: int|
        0 <= i < later.len() && (#[trigger] later[i]).end <= end_behind(rest, m);
    let before = choose|before: Seq<ErrorView>| #[trigger]
        errors_fit(before, d) && errors == join(before, shifted(later, d));
    assert(shifted(later, d)[i].end <= end_behind(toks, n + m));
    let skipped: int = if errors.len() < before.len() + later.len() {
        1
    } else {
        0
    };
    let k = i + before.len() - skipped;
    assert(errors[k] == shifted(later, d)[i]);
}

} // verus!
