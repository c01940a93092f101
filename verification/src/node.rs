//! The accessibility node type of `accesskit`, as the tree builder uses it.
//!
//! A node is kept opaque; what the builder reads of it is the ordered list of
//! its children's IDs (`node_children`). Node IDs are carried as the `u64`
//! that `accesskit::NodeId` wraps.
use vstd::prelude::*;

verus! {

#[verifier::external_type_specification]
#[verifier::external_body]
pub struct ExNode(accesskit::Node);

#[verifier::external_type_specification]
#[verifier::external_body]
pub struct ExRect(accesskit::Rect);

/// The IDs of a node's direct children, in order (`accesskit::Node::children`).
pub uninterp spec fn node_children(node: accesskit::Node) -> Seq<u64>;

/// The node that `accesskit::Node::push_child` leaves behind when it appends `child`.
pub uninterp spec fn node_with_child(node: accesskit::Node, child: u64) -> accesskit::Node;

/// The node that `accesskit::Node::set_children` leaves behind.
pub uninterp spec fn node_with_children(node: accesskit::Node, children: Seq<u64>) -> accesskit::Node;

/// The node that `accesskit::Node::set_bounds` leaves behind.
pub uninterp spec fn node_with_bounds(node: accesskit::Node, bounds: accesskit::Rect) -> accesskit::Node;

/// The roles that the library gives to the nodes it creates itself.
#[derive(Clone, Copy, Debug, PartialEq, Eq)]
pub enum NodeRole {
    /// The root of a window's tree (`accesskit::Role::Window`).
    Window,
}

/// The node that `accesskit::Node::new` creates for `role`.
pub uninterp spec fn node_for_role(role: NodeRole) -> accesskit::Node;

/// `accesskit::Node::new`: a fresh node with the given role and no other property
/// set, so in particular no children.
#[verifier::external_body]
pub(crate) fn new_node(role: NodeRole) -> (node: accesskit::Node)
    ensures
        node == node_for_role(role),
        node_children(node) == Seq::<u64>::empty(),
{
    accesskit::Node::new(match role {
        NodeRole::Window => accesskit::Role::Window,
    })
}

/// `accesskit::Node::children`, with each `NodeId` given as its `u64`.
#[verifier::external_body]
pub(crate) fn children_of(node: &accesskit::Node) -> (children: Vec<u64>)
    ensures
        children@ == node_children(*node),
{
    node.children().iter().map(|child| child.0).collect()
}

/// `accesskit::Node::push_child`: appends `child` to the node's children and
/// leaves every other property as it was.
#[verifier::external_body]
pub(crate) fn push_child(node: &mut accesskit::Node, child: u64)
    ensures
        *final(node) == node_with_child(*old(node), child),
        node_children(*final(node)) == node_children(*old(node)).push(child),
{
    node.push_child(accesskit::NodeId(child));
}

/// `accesskit::Node::set_children`: replaces the node's children and leaves every
/// other property as it was.
#[verifier::external_body]
pub(crate) fn set_children(node: &mut accesskit::Node, children: Vec<u64>)
    ensures
        *final(node) == node_with_children(*old(node), children@),
        node_children(*final(node)) == children@,
{
    node.set_children(children.into_iter().map(accesskit::NodeId).collect::<Vec<_>>());
}

/// `accesskit::Node::set_bounds`: sets the node's bounding box; its children stay
/// as they were.
#[verifier::external_body]
pub(crate) fn set_bounds(node: &mut accesskit::Node, bounds: accesskit::Rect)
    ensures
        *final(node) == node_with_bounds(*old(node), bounds),
        node_children(*final(node)) == node_children(*old(node)),
{
    node.set_bounds(bounds);
}

/// `Clone` for `accesskit::Node` copies every field, so the copy equals the node it was made from.
pub assume_specification[ <accesskit::Node as Clone>::clone ](node: &accesskit::Node) -> (copy: accesskit::Node)
    ensures
        copy == *node,
;

} // verus!
