//! What becomes of the tokens of a text in its tree.

use vstd::prelude::*;

use crate::model::{dotted, last_period, Tok};
use crate::syntax::SyntaxKind;
use crate::tree::TreeEvent;

verus! {

/// The tokens of a walk.
pub open spec fn leaves(tree: Seq<TreeEvent>) -> Seq<TreeEvent>
    decreases tree.len(),
{
    if tree.len() == 0 {
        Seq::empty()
    } else if tree.last() is Token {
        leaves(tree.drop_last()).push(tree.last())
    } else {
        leaves(tree.drop_last())
    }
}

/// A token of a text can be of the given kind in the tree: its own one, that
/// of errors, or that of identifiers where it can be a part of a key.
pub open spec fn can_be(tok: Tok, kind: SyntaxKind) -> bool {
    ||| kind == tok.kind
    ||| kind == SyntaxKind::ERROR
    ||| {
        &&& kind == SyntaxKind::IDENT
        &&& {
            ||| tok.kind == SyntaxKind::INTEGER
            ||| tok.kind == SyntaxKind::STRING
            ||| tok.kind == SyntaxKind::STRING_LITERAL
        }
    }
}

/// The leaves that a token of a text becomes: itself, possibly under another
/// kind, or the parts of a float that is a key.
pub open spec fn leaf_of(tok: Tok, ls: Seq<TreeEvent>) -> bool {
    ||| exists|kind: SyntaxKind| #[trigger]
        can_be(tok, kind) && ls == seq![TreeEvent::Token { kind: kind.number(), text: tok.text }]
    ||| tok.kind == SyntaxKind::FLOAT && ls == dotted(tok.text)
}

/// Leaves are those of the first `n` tokens of a text, in their order.
#[verifier::opaque]
pub open spec fn spells(ls: Seq<TreeEvent>, toks: Seq<Tok>, n: int) -> bool
    decreases n,
{
    if n <= 0 {
        ls.len() == 0
    } else {
        exists|k: int|
            0 <= k <= ls.len() && #[trigger] leaf_of(toks[n - 1], ls.skip(k)) && spells(
                ls.take(k),
                toks,
                n - 1,
            )
    }
}

/// Tokens are leaves, and nothing else is.
pub broadcast proof fn lemma_leaves_push(tree: Seq<TreeEvent>, e: TreeEvent)
    ensures
        #[trigger] leaves(tree.push(e)) == (if e is Token {
            leaves(tree).push(e)
        } else {
            leaves(tree)
        }),
{
    assert(tree.push(e).drop_last() =~= tree);
}

/// The parts of a dotted text are leaves.
pub proof fn lemma_leaves_dotted(tree: Seq<TreeEvent>, text: Seq<u8>)
    ensures
        leaves(tree + dotted(text)) == leaves(tree) + dotted(text),
    decreases text.len(),
{
    let at = last_period(text);
    let d = dotted(text);
    if 0 <= at < text.len() {
        let front = dotted(text.take(at));
        lemma_leaves_dotted(tree, text.take(at));
        let period = d[front.len() as int];
        assert(tree + d =~= (tree + front).push(period).push(d.last()));
        lemma_leaves_push(tree + front, period);
        lemma_leaves_push((tree + front).push(period), d.last());
        assert(leaves(tree) + d =~= (leaves(tree) + front).push(period).push(d.last()));
    } else {
        assert(tree + d =~= tree.push(d.last()));
        lemma_leaves_push(tree, d.last());
        assert(leaves(tree) + d =~= leaves(tree).push(d.last()));
    }
}

/// The leaves of one more token.
pub proof fn lemma_spells_add(
    ls: Seq<TreeEvent>,
    toks: Seq<Tok>,
    n: int,
    more: Seq<TreeEvent>,
)
    requires
        0 <= n,
        spells(ls, toks, n),
        leaf_of(toks[n], more),
    ensures
        spells(ls + more, toks, n + 1),
{
    reveal_with_fuel(spells, 2);
    let all = ls + more;
    assert(all.skip(ls.len() as int) =~= more);
    assert(all.take(ls.len() as int) =~= ls);
    assert(leaf_of(toks[n + 1 - 1], all.skip(ls.len() as int)));
}

/// One more token becomes one leaf.
pub proof fn lemma_spells_push(ls: Seq<TreeEvent>, toks: Seq<Tok>, n: int, kind: SyntaxKind)
    requires
        0 <= n,
        spells(ls, toks, n),
        can_be(toks[n], kind),
    ensures
        spells(
            ls.push(TreeEvent::Token { kind: kind.number(), text: toks[n].text }),
            toks,
            n + 1,
        ),
{
    let e = TreeEvent::Token { kind: kind.number(), text: toks[n].text };
    lemma_spells_add(ls, toks, n, seq![e]);
    assert(ls.push(e) =~= ls + seq![e]);
}

} // verus!
