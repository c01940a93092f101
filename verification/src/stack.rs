//! The builder's stack of open nodes, held in a `smallvec::SmallVec`.
use vstd::prelude::*;
use smallvec::SmallVec;
use crate::node::node_children;

verus! {

/// One open node: its ID, the node itself, and whether it has been suppressed.
pub struct StackEntry {
    pub id: u64,
    pub node: accesskit::Node,
    pub suppressed: bool,
}

/// An open node as the contracts see it: its ID, the node, the node's children in
/// order, and whether it has been suppressed.
pub struct OpenNode {
    pub id: u64,
    pub node: accesskit::Node,
    pub children: Seq<u64>,
    pub suppressed: bool,
}

impl View for StackEntry {
    type V = OpenNode;

    open spec fn view(&self) -> OpenNode {
        OpenNode { id: self.id, node: self.node, children: node_children(self.node), suppressed: self.suppressed }
    }
}

impl Clone for StackEntry {
    fn clone(&self) -> (copy: Self)
        ensures
            copy == *self,
    {
        StackEntry { id: self.id, node: self.node.clone(), suppressed: self.suppressed }
    }
}

/// The stack of open nodes, bottom first, kept in a `SmallVec` with room for
/// sixteen entries inline so that the usual nesting depth needs no allocation.
/// Its contents are read through `stack_entries`.
#[verifier::external_body]
pub struct NodeStack {
    entries: SmallVec<[StackEntry; 16]>,
}

/// The entries of a stack, bottom first.
pub uninterp spec fn stack_entries(stack: NodeStack) -> Seq<StackEntry>;

/// `SmallVec::new`: an empty stack.
#[verifier::external_body]
pub(crate) fn stack_new() -> (stack: NodeStack)
    ensures
        stack_entries(stack) == Seq::<StackEntry>::empty(),
{
    NodeStack { entries: SmallVec::new() }
}

/// `SmallVec::len`.
#[verifier::external_body]
pub(crate) fn stack_len(stack: &NodeStack) -> (len: usize)
    ensures
        len == stack_entries(*stack).len(),
{
    stack.entries.len()
}

/// `SmallVec::push`: appends an entry. Growing beyond what memory can hold panics
/// or aborts in the allocator; like `Vec::push` in vstd, the contract does not
/// bound the length for that.
#[verifier::external_body]
pub(crate) fn stack_push(stack: &mut NodeStack, entry: StackEntry)
    ensures
        stack_entries(*final(stack)) == stack_entries(*old(stack)).push(entry),
{
    stack.entries.push(entry);
}

/// `SmallVec::pop`: removes and returns the last entry, if any.
#[verifier::external_body]
pub(crate) fn stack_pop(stack: &mut NodeStack) -> (top: Option<StackEntry>)
    ensures
        stack_entries(*old(stack)).len() == 0 ==> top is None && stack_entries(*final(stack))
            == stack_entries(*old(stack)),
        stack_entries(*old(stack)).len() > 0 ==> top == Some(stack_entries(*old(stack)).last())
            && stack_entries(*final(stack)) == stack_entries(*old(stack)).drop_last(),
{
    stack.entries.pop()
}

/// `SmallVec::index`: the entry at position `i`.
#[verifier::external_body]
pub(crate) fn stack_get(stack: &NodeStack, i: usize) -> (entry: &StackEntry)
    requires
        i < stack_entries(*stack).len(),
    ensures
        *entry == stack_entries(*stack)[i as int],
{
    &stack.entries[i]
}

/// `SmallVec::index_mut`: a mutable borrow of the entry at position `i`.
#[verifier::external_body]
pub(crate) fn stack_get_mut(stack: &mut NodeStack, i: usize) -> (entry: &mut StackEntry)
    requires
        i < stack_entries(*old(stack)).len(),
    ensures
        *entry == stack_entries(*old(stack))[i as int],
        stack_entries(*final(stack)) == stack_entries(*old(stack)).update(i as int, *final(entry)),
{
    &mut stack.entries[i]
}

/// `SmallVec::clear`: removes every entry.
#[verifier::external_body]
pub(crate) fn stack_clear(stack: &mut NodeStack)
    ensures
        stack_entries(*final(stack)) == Seq::<StackEntry>::empty(),
{
    stack.entries.clear();
}

/// `Clone` for `SmallVec`: a stack holding a clone of each entry. An entry's clone
/// equals the entry (see `StackEntry::clone`), so the entries are the same.
#[verifier::external_body]
pub(crate) fn stack_clone(stack: &NodeStack) -> (copy: NodeStack)
    ensures
        stack_entries(copy) == stack_entries(*stack),
{
    NodeStack { entries: stack.entries.clone() }
}

} // verus!
