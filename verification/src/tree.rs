//! Building green trees with `rowan`, and what a tree holds.

use rowan::cursor;
use rowan::GreenNode;
use rowan::GreenNodeBuilder;
use vstd::prelude::*;
use vstd::string::StringSliceAdditionalSpecFns;

verus! {

/// One step of a walk through a tree, from the left to the right and from
/// the top to the bottom. Kinds are given by their numbers, texts as UTF-8.
#[verifier::ext_equal]
pub enum TreeEvent {
    Open { kind: u16 },
    Token { kind: u16, text: Seq<u8> },
    Close,
}

/// The text of the tokens in a walk, one after the other.
pub open spec fn tree_text(events: Seq<TreeEvent>) -> Seq<u8>
    decreases events.len(),
{
    if events.len() == 0 {
        Seq::empty()
    } else {
        tree_text(events.drop_last()) + match events.last() {
            TreeEvent::Token { text, .. } => text,
            _ => Seq::empty(),
        }
    }
}

/// How many nodes a walk has entered and not left yet.
pub open spec fn open_nodes(events: Seq<TreeEvent>) -> int
    decreases events.len(),
{
    if events.len() == 0 {
        0
    } else {
        open_nodes(events.drop_last()) + match events.last() {
            TreeEvent::Open { .. } => 1int,
            TreeEvent::Token { .. } => 0int,
            TreeEvent::Close => -1int,
        }
    }
}

/// The events are the walk through one node: they enter it first, leave it
/// last, and are inside of it in between.
pub open spec fn is_one_node(events: Seq<TreeEvent>) -> bool {
    &&& events.len() > 0 && events.first() is Open
    &&& open_nodes(events) == 0
    &&& forall|i: int| 0 < i < events.len() ==> #[trigger] open_nodes(events.take(i)) > 0
}

/// `rowan::GreenNodeBuilder`, which collects nodes and tokens from the left
/// to the right.
#[verifier::external_type_specification]
#[verifier::external_body]
pub struct ExGreenNodeBuilder<'cache>(GreenNodeBuilder<'cache>);

/// `rowan::GreenNode`, an immutable tree.
#[verifier::external_type_specification]
#[verifier::external_body]
pub struct ExGreenNode(GreenNode);

/// `rowan::cursor::SyntaxNode`, a node of a tree that knows its parent.
#[verifier::external_type_specification]
#[verifier::external_body]
pub struct ExCursorSyntaxNode(cursor::SyntaxNode);

/// The walk through what a builder has been given so far.
pub uninterp spec fn builder_events(builder: GreenNodeBuilder<'static>) -> Seq<TreeEvent>;

/// The walk through a green node.
pub uninterp spec fn green_events(node: GreenNode) -> Seq<TreeEvent>;

/// The walk through a syntax node.
pub uninterp spec fn syntax_events(node: cursor::SyntaxNode) -> Seq<TreeEvent>;

/// `cursor::SyntaxNode::parent` gives a node: this one stands inside of another.
pub uninterp spec fn has_parent(node: cursor::SyntaxNode) -> bool;

/// `GreenNodeBuilder::new`: the builder has been given nothing.
#[verifier::external_body]
pub(crate) fn new_builder() -> (builder: GreenNodeBuilder<'static>)
    ensures
        builder_events(builder) == Seq::<TreeEvent>::empty(),
{
    GreenNodeBuilder::new()
}

/// `GreenNodeBuilder::start_node`: a node is entered.
#[verifier::external_body]
pub(crate) fn start_node(builder: &mut GreenNodeBuilder<'static>, kind: u16)
    ensures
        builder_events(*final(builder)) == builder_events(*old(builder)).push(
            TreeEvent::Open { kind },
        ),
{
    builder.start_node(rowan::SyntaxKind(kind))
}

/// `GreenNodeBuilder::token`: a token is added to the node that was entered last.
#[verifier::external_body]
pub(crate) fn add_token(builder: &mut GreenNodeBuilder<'static>, kind: u16, text: &str)
    ensures
        builder_events(*final(builder)) == builder_events(*old(builder)).push(
            TreeEvent::Token { kind, text: text.spec_bytes() },
        ),
{
    builder.token(rowan::SyntaxKind(kind), text.into())
}

/// `GreenNodeBuilder::finish_node`: the node that was entered last is left.
///
/// The call panics where no node is open. It adds up the lengths of the
/// texts in the node as `u32`, so their sum has to fit.
#[verifier::external_body]
pub(crate) fn finish_node(builder: &mut GreenNodeBuilder<'static>)
    requires
        open_nodes(builder_events(*old(builder))) > 0,
        tree_text(builder_events(*old(builder))).len() <= u32::MAX,
    ensures
        builder_events(*final(builder)) == builder_events(*old(builder)).push(TreeEvent::Close),
{
    builder.finish_node()
}

/// `GreenNodeBuilder::finish`: the one node that was built.
///
/// The call panics unless the builder holds exactly one node.
#[verifier::external_body]
pub(crate) fn finish(builder: GreenNodeBuilder<'static>) -> (node: GreenNode)
    requires
        is_one_node(builder_events(builder)),
    ensures
        green_events(node) == builder_events(builder),
{
    builder.finish()
}

/// `GreenNode::clone`: a node that shares what the other one holds.
#[verifier::external_body]
pub(crate) fn clone_green(node: &GreenNode) -> (copy: GreenNode)
    ensures
        green_events(copy) == green_events(*node),
{
    node.clone()
}

/// `cursor::SyntaxNode::new_root`: a syntax node over the whole green node,
/// which has no parent.
#[verifier::external_body]
pub(crate) fn new_root(green: GreenNode) -> (node: cursor::SyntaxNode)
    ensures
        syntax_events(node) == green_events(green),
        !has_parent(node),
{
    cursor::SyntaxNode::new_root(green)
}

} // verus!
