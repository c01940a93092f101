//! Builds one frame's accessibility tree from nested push/pop calls, with
//! suppression of subtrees, and finalizes it into a consistent tree update.
use vstd::prelude::*;
use std::collections::{HashMap, HashSet};
use crate::node::{children_of, new_node, node_children, node_for_role, node_with_child, node_with_children, node_with_bounds, push_child, set_bounds, set_children, NodeRole};
use crate::shape::{
    is_rooted_tree, lemma_bounds_keep_shape, lemma_finalize_gives_rooted_tree, lemma_frame_start_keeps_shape, lemma_pop_keeps_shape,
    lemma_push_keeps_shape, lemma_shape_ignores_suppression_depth_and_focus, lemma_suppress_keeps_shape, tree_invariant,
};
use crate::stack::{NodeStack, OpenNode, StackEntry, stack_clear, stack_clone, stack_entries, stack_get, stack_get_mut, stack_len, stack_new, stack_pop, stack_push};

verus! {

broadcast use vstd::std_specs::hash::group_hash_axioms;

/// The fixed node ID of the root of every window's accessibility tree.
pub const ROOT_NODE_ID: u64 = 0;

/// A closed node as the contracts see it: its ID, the node, and the node's
/// children in order.
pub struct TreeNode {
    pub id: u64,
    pub node: accesskit::Node,
    pub children: Seq<u64>,
}

/// How the contracts see a closed node held as an `(id, node)` pair.
pub open spec fn tree_node(p: (u64, accesskit::Node)) -> TreeNode {
    TreeNode { id: p.0, node: p.1, children: node_children(p.1) }
}

/// How the contracts see a list of `(id, node)` pairs.
pub open spec fn tree_nodes(s: Seq<(u64, accesskit::Node)>) -> Seq<TreeNode> {
    s.map_values(|p: (u64, accesskit::Node)| tree_node(p))
}

/// How the contracts see a list of stack entries.
pub open spec fn open_nodes(s: Seq<StackEntry>) -> Seq<OpenNode> {
    s.map_values(|e: StackEntry| e@)
}

/// The abstract state of a builder.
pub struct BuilderState {
    /// Open nodes, outermost first.
    pub stack: Seq<OpenNode>,
    /// How many `begin_suppressing_descendants` calls are still open.
    pub ambient: nat,
    /// Closed nodes, in the order they were closed.
    pub emitted: Seq<TreeNode>,
    /// IDs that are currently in use in this frame.
    pub seen: Set<u64>,
    /// The node that has keyboard focus.
    pub focus: u64,
    /// Whether the focus has been set since the frame began.
    pub focus_set: bool,
}

/// A frame's finished tree: its nodes and the focused node.
pub struct A11yTreeUpdate {
    pub nodes: Vec<(u64, accesskit::Node)>,
    pub focus: u64,
}

/// The abstract content of a tree update.
pub struct TreeUpdateView {
    pub nodes: Seq<TreeNode>,
    pub focus: u64,
}

impl View for A11yTreeUpdate {
    type V = TreeUpdateView;

    open spec fn view(&self) -> TreeUpdateView {
        TreeUpdateView { nodes: tree_nodes(self.nodes@), focus: self.focus }
    }
}

/// Whether pushes are currently refused: inside an ambient suppression, or while
/// the innermost open node is suppressed.
pub open spec fn is_suppressed_spec(v: BuilderState) -> bool {
    v.ambient > 0 || (v.stack.len() > 0 && v.stack.last().suppressed)
}

/// The state and result of `push(id, node)`.
pub open spec fn push_spec(v: BuilderState, id: u64, node: accesskit::Node) -> (BuilderState, bool) {
    if is_suppressed_spec(v) || v.seen.contains(id) {
        (v, false)
    } else {
        (
            BuilderState {
                stack: v.stack.push(OpenNode { id, node, children: node_children(node), suppressed: false }),
                seen: v.seen.insert(id),
                ..v
            },
            true,
        )
    }
}

/// The state after closing the innermost open node: a suppressed node is dropped;
/// any other node is recorded as emitted and, unless its parent is suppressed,
/// appended to its parent's children.
pub open spec fn pop_spec(v: BuilderState) -> BuilderState {
    if v.stack.len() == 0 {
        v
    } else {
        let top = v.stack.last();
        let rest = v.stack.drop_last();
        if top.suppressed {
            BuilderState { stack: rest, ..v }
        } else {
            let stack = if rest.len() > 0 && !rest.last().suppressed {
                rest.update(
                    rest.len() - 1,
                    OpenNode {
                        node: node_with_child(rest.last().node, top.id),
                        children: rest.last().children.push(top.id),
                        ..rest.last()
                    },
                )
            } else {
                rest
            };
            BuilderState {
                stack,
                emitted: v.emitted.push(TreeNode { id: top.id, node: top.node, children: top.children }),
                ..v
            }
        }
    }
}

/// The state after closing every open node.
pub open spec fn pop_all_spec(v: BuilderState) -> BuilderState
    decreases v.stack.len(),
{
    if v.stack.len() == 0 {
        v
    } else {
        pop_all_spec(pop_spec(v))
    }
}

/// The emitted nodes by ID; where an ID was emitted twice, the later node.
pub open spec fn emitted_map(e: Seq<TreeNode>) -> Map<u64, TreeNode>
    decreases e.len(),
{
    if e.len() == 0 {
        Map::empty()
    } else {
        emitted_map(e.drop_last()).insert(e.last().id, e.last())
    }
}

/// `c` is a child of the emitted node `x`, and `x` is not the subtree's root.
pub open spec fn is_child_in(m: Map<u64, TreeNode>, root: u64, x: u64, c: u64) -> bool {
    x != root && m.contains_key(x) && m[x].children.contains(c)
}

/// `s` holds `root` and the `seeds`, and with every non-root member known in `m`
/// also that member's children.
pub open spec fn closed_with_seeds(m: Map<u64, TreeNode>, root: u64, seeds: Seq<u64>, s: Set<u64>) -> bool {
    &&& s.contains(root)
    &&& forall|i: int| 0 <= i < seeds.len() ==> s.contains(#[trigger] seeds[i])
    &&& forall|x: u64, c: u64| #[trigger] s.contains(x) && #[trigger] is_child_in(m, root, x, c) ==> s.contains(c)
}

/// The smallest set closed in the sense of `closed_with_seeds`: `root`, the seeds,
/// and everything reachable from the seeds through the children of known nodes.
pub open spec fn subtree_ids(m: Map<u64, TreeNode>, root: u64, seeds: Seq<u64>) -> Set<u64> {
    Set::new(|x: u64| forall|s: Set<u64>| #[trigger] closed_with_seeds(m, root, seeds, s) ==> s.contains(x))
}

/// The children of the innermost open node, if there is one.
pub open spec fn top_children(v: BuilderState) -> Seq<u64> {
    if v.stack.len() > 0 {
        v.stack.last().children
    } else {
        Seq::empty()
    }
}

/// The IDs removed when the innermost open node `id` is suppressed: `id` and every
/// already emitted node below it.
pub open spec fn pruned_ids(v: BuilderState, id: u64) -> Set<u64> {
    subtree_ids(emitted_map(v.emitted), id, top_children(v))
}

/// `s` without the IDs in `p`, order kept.
pub open spec fn remove_ids(s: Seq<u64>, p: Set<u64>) -> Seq<u64>
    decreases s.len(),
{
    if s.len() == 0 {
        s
    } else if p.contains(s.last()) {
        remove_ids(s.drop_last(), p)
    } else {
        remove_ids(s.drop_last(), p).push(s.last())
    }
}

/// Whether some member of `children` is in `p`.
pub open spec fn has_child_in(children: Seq<u64>, p: Set<u64>) -> bool {
    exists|i: int| 0 <= i < children.len() && p.contains(#[trigger] children[i])
}

/// `node`, whose children are `children`, with the children in `p` removed;
/// `node` itself when it has none of them.
pub open spec fn strip_node(node: accesskit::Node, children: Seq<u64>, p: Set<u64>) -> accesskit::Node {
    if has_child_in(children, p) {
        node_with_children(node, remove_ids(children, p))
    } else {
        node
    }
}

/// Every open node with the references to `p` removed.
pub open spec fn strip_stack(s: Seq<OpenNode>, p: Set<u64>) -> Seq<OpenNode> {
    Seq::new(
        s.len(),
        |i: int| OpenNode { node: strip_node(s[i].node, s[i].children, p), children: remove_ids(s[i].children, p), ..s[i] },
    )
}

/// The emitted nodes outside `p`, each with the references to `p` removed.
pub open spec fn prune_emitted(e: Seq<TreeNode>, p: Set<u64>) -> Seq<TreeNode>
    decreases e.len(),
{
    if e.len() == 0 {
        e
    } else if p.contains(e.last().id) {
        prune_emitted(e.drop_last(), p)
    } else {
        prune_emitted(e.drop_last(), p).push(
            TreeNode {
                node: strip_node(e.last().node, e.last().children, p),
                children: remove_ids(e.last().children, p),
                ..e.last()
            },
        )
    }
}

/// The state after removing the subtree `p` from the emitted nodes and from every
/// reference to it.
pub open spec fn prune_spec(v: BuilderState, p: Set<u64>) -> BuilderState {
    BuilderState {
        stack: strip_stack(v.stack, p),
        emitted: prune_emitted(v.emitted, p),
        seen: v.seen.difference(p),
        focus: if p.contains(v.focus) { ROOT_NODE_ID } else { v.focus },
        ..v
    }
}

/// No node of `e` is in `p` or refers to a member of `p`.
pub open spec fn clear_of(e: Seq<TreeNode>, p: Set<u64>) -> bool {
    forall|j: int| 0 <= j < e.len() ==> !p.contains(#[trigger] e[j].id) && !has_child_in(e[j].children, p)
}

/// No trace of `p` is left: no ID in use, no emitted node, no child reference, and
/// not the focus.
pub open spec fn is_pruned_away(v: BuilderState, p: Set<u64>) -> bool {
    &&& forall|x: u64| p.contains(x) ==> !#[trigger] v.seen.contains(x)
    &&& clear_of(v.emitted, p)
    &&& forall|j: int| 0 <= j < v.stack.len() ==> !has_child_in(#[trigger] v.stack[j].children, p)
    &&& !p.contains(v.focus) || v.focus == ROOT_NODE_ID
}

/// The state and result of `suppress_current_node(id)`.
pub open spec fn suppress_spec(v: BuilderState, id: u64) -> (BuilderState, bool) {
    if v.stack.len() <= 1 || v.stack.last().id != id || v.stack.last().suppressed {
        (v, false)
    } else {
        let marked = BuilderState {
            stack: v.stack.update(v.stack.len() - 1, OpenNode { suppressed: true, ..v.stack.last() }),
            ..v
        };
        (prune_spec(marked, pruned_ids(marked, id)), true)
    }
}

/// The state and result of `update_current_node_bounds(id, bounds)`.
pub open spec fn update_bounds_spec(v: BuilderState, id: u64, bounds: accesskit::Rect) -> (BuilderState, bool) {
    if v.stack.len() <= 1 || v.stack.last().id != id || v.stack.last().suppressed {
        (v, false)
    } else {
        (
            BuilderState {
                stack: v.stack.update(
                    v.stack.len() - 1,
                    OpenNode { node: node_with_bounds(v.stack.last().node, bounds), ..v.stack.last() },
                ),
                ..v
            },
            true,
        )
    }
}

/// The IDs of a list of nodes.
pub open spec fn ids_of(e: Seq<TreeNode>) -> Set<u64> {
    Set::new(|x: u64| exists|i: int| 0 <= i < e.len() && #[trigger] e[i].id == x)
}

/// Whether some child of `n` is outside `ids`.
pub open spec fn has_child_outside(n: TreeNode, ids: Set<u64>) -> bool {
    exists|i: int| 0 <= i < n.children.len() && !ids.contains(#[trigger] n.children[i])
}

/// `n` with the children outside `ids` removed; its node is unchanged when it has
/// none.
pub open spec fn keep_valid_children(n: TreeNode, ids: Set<u64>) -> TreeNode {
    TreeNode {
        node: if has_child_outside(n, ids) {
            node_with_children(n.node, remove_ids(n.children, ids.complement()))
        } else {
            n.node
        },
        children: remove_ids(n.children, ids.complement()),
        ..n
    }
}

/// The nodes of a tree update after dropping references to nodes not in it.
pub open spec fn repair_nodes(e: Seq<TreeNode>) -> Seq<TreeNode> {
    Seq::new(e.len(), |i: int| keep_valid_children(e[i], ids_of(e)))
}

/// The focus of a tree update: the root unless the focused node is in it.
pub open spec fn repair_focus(e: Seq<TreeNode>, focus: u64) -> u64 {
    if ids_of(e).contains(focus) {
        focus
    } else {
        ROOT_NODE_ID
    }
}

/// The builder state after `finalize`, before the emitted nodes are handed out.
pub open spec fn finalize_closed(v: BuilderState) -> BuilderState {
    pop_all_spec(BuilderState { ambient: 0, ..v })
}

/// The state of a new builder: nothing open, nothing emitted, focus on the root.
pub open spec fn empty_builder_state() -> BuilderState {
    BuilderState {
        stack: Seq::empty(),
        ambient: 0,
        emitted: Seq::empty(),
        seen: Set::empty(),
        focus: ROOT_NODE_ID,
        focus_set: false,
    }
}

/// The state at the start of a frame: only the root is open, a fresh window node
/// with no children.
pub open spec fn is_frame_start(v: BuilderState) -> bool {
    &&& v.stack.len() == 1
    &&& v.stack[0].id == ROOT_NODE_ID
    &&& !v.stack[0].suppressed
    &&& v.stack[0].node == node_for_role(NodeRole::Window)
    &&& v.stack[0].children == Seq::<u64>::empty()
    &&& v.ambient == 0
    &&& v.emitted == Seq::<TreeNode>::empty()
    &&& v.seen == Set::<u64>::empty().insert(ROOT_NODE_ID)
    &&& v.focus == ROOT_NODE_ID
    &&& !v.focus_set
}

/// Builds one frame's accessibility tree.
pub struct A11yNodeBuilder {
    stack: NodeStack,
    ambient_suppression_depth: usize,
    all_nodes: Vec<(u64, accesskit::Node)>,
    seen_ids: HashSet<u64>,
    focus: u64,
    has_set_focus: bool,
}

/// A copy of a builder's state, taken before prepaint and restored if prepaint's
/// work is discarded.
pub struct A11yNodeBuilderPrepaintSnapshot {
    stack: NodeStack,
    ambient_suppression_depth: usize,
    all_nodes: Vec<(u64, accesskit::Node)>,
    seen_ids: HashSet<u64>,
    focus: u64,
    has_set_focus: bool,
}

impl View for A11yNodeBuilder {
    type V = BuilderState;

    closed spec fn view(&self) -> BuilderState {
        BuilderState {
            stack: open_nodes(stack_entries(self.stack)),
            ambient: self.ambient_suppression_depth as nat,
            emitted: tree_nodes(self.all_nodes@),
            seen: self.seen_ids@,
            focus: self.focus,
            focus_set: self.has_set_focus,
        }
    }
}

impl View for A11yNodeBuilderPrepaintSnapshot {
    type V = BuilderState;

    closed spec fn view(&self) -> BuilderState {
        BuilderState {
            stack: open_nodes(stack_entries(self.stack)),
            ambient: self.ambient_suppression_depth as nat,
            emitted: tree_nodes(self.all_nodes@),
            seen: self.seen_ids@,
            focus: self.focus,
            focus_set: self.has_set_focus,
        }
    }
}


/// `Clone` for `HashSet`: a set with the same members.
#[verifier::external_body]
fn clone_id_set(set: &HashSet<u64>) -> (copy: HashSet<u64>)
    ensures
        copy@ == set@,
{
    set.clone()
}

/// A copy of a list of emitted nodes.
fn clone_emitted(nodes: &Vec<(u64, accesskit::Node)>) -> (copy: Vec<(u64, accesskit::Node)>)
    ensures
        copy@ == nodes@,
{
    let mut copy: Vec<(u64, accesskit::Node)> = Vec::new();
    let n = nodes.len();
    for i in 0..n
        invariant
            n == nodes@.len(),
            copy@ == nodes@.take(i as int),
    {
        let entry = &nodes[i];
        copy.push((entry.0, entry.1.clone()));
        assert(copy@ =~= nodes@.take(i + 1));
    }
    assert(nodes@.take(n as int) =~= nodes@);
    copy
}

impl A11yNodeBuilder {
    /// An empty builder; `begin_frame` opens the root node.
    pub fn new() -> (builder: Self)
        ensures
            builder@ == empty_builder_state(),
    {
        let builder = A11yNodeBuilder {
            stack: stack_new(),
            ambient_suppression_depth: 0,
            all_nodes: Vec::new(),
            seen_ids: HashSet::new(),
            focus: ROOT_NODE_ID,
            has_set_focus: false,
        };
        assert(open_nodes(stack_entries(builder.stack)) =~= Seq::<OpenNode>::empty());
        assert(tree_nodes(builder.all_nodes@) =~= Seq::<TreeNode>::empty());
        builder
    }

    /// Opens a node under the innermost open node. Refused (returning `false`, state
    /// unchanged) while pushes are suppressed or when `id` is already in use.
    pub fn push(&mut self, id: u64, node: accesskit::Node) -> (pushed: bool)
        ensures
            (final(self)@, pushed) == push_spec(old(self)@, id, node),
            tree_invariant(old(self)@) && node_children(node) == Seq::<u64>::empty() ==> tree_invariant(final(self)@),
    {
        proof {
            if tree_invariant(self@) && node_children(node) == Seq::<u64>::empty() {
                lemma_push_keeps_shape(self@, id, node);
            }
        }
        if self.is_suppressed() {
            return false;
        }
        let ghost before = self.seen_ids@;
        if !self.seen_ids.insert(id) {
            assert(self.seen_ids@ =~= before);
            return false;
        }
        let ghost entries = stack_entries(self.stack);
        let entry = StackEntry { id, node, suppressed: false };
        stack_push(&mut self.stack, entry);
        assert(open_nodes(stack_entries(self.stack)) =~= open_nodes(entries).push(entry@));
        true
    }

    /// Closes the innermost open node.
    pub fn pop(&mut self)
        ensures
            final(self)@ == pop_spec(old(self)@),
            tree_invariant(old(self)@) && old(self)@.stack.len() > 1 ==> tree_invariant(final(self)@),
    {
        proof {
            if tree_invariant(self@) && self@.stack.len() > 1 {
                lemma_pop_keeps_shape(self@);
            }
        }
        self.pop_any();
    }

    /// Starts a new frame: everything is cleared and only the root window node is open.
    pub fn begin_frame(&mut self)
        ensures
            is_frame_start(final(self)@),
            tree_invariant(final(self)@),
    {
        self.all_nodes.clear();
        stack_clear(&mut self.stack);
        self.ambient_suppression_depth = 0;
        self.seen_ids.clear();
        self.seen_ids.insert(ROOT_NODE_ID);
        let root = StackEntry { id: ROOT_NODE_ID, node: new_node(NodeRole::Window), suppressed: false };
        stack_push(&mut self.stack, root);
        self.focus = ROOT_NODE_ID;
        self.has_set_focus = false;
        assert(self.seen_ids@ =~= Set::<u64>::empty().insert(ROOT_NODE_ID));
        assert(tree_nodes(self.all_nodes@) =~= Seq::<TreeNode>::empty());
        assert(open_nodes(stack_entries(self.stack)) =~= seq![root@]);
        proof {
            lemma_frame_start_keeps_shape(self@);
        }
    }

    /// Whether `id` is the root or in use in this frame.
    pub fn has_node(&self, id: u64) -> (found: bool)
        ensures
            found == (id == ROOT_NODE_ID || self@.seen.contains(id)),
    {
        id == ROOT_NODE_ID || self.seen_ids.contains(&id)
    }

    /// Whether `id` is the innermost open node and pushes are not suppressed.
    pub fn has_current_node(&self, id: u64) -> (current: bool)
        ensures
            current == (self@.stack.len() > 0 && self@.stack.last().id == id && !is_suppressed_spec(self@)),
    {
        let len = stack_len(&self.stack);
        if len == 0 {
            return false;
        }
        stack_get(&self.stack, len - 1).id == id && !self.is_suppressed()
    }

    /// Sets the node that has keyboard focus. It may be set once per frame.
    pub fn set_focus(&mut self, id: u64)
        requires
            !old(self)@.focus_set,
        ensures
            final(self)@ == (BuilderState { focus: id, focus_set: true, ..old(self)@ }),
            tree_invariant(old(self)@) ==> tree_invariant(final(self)@),
    {
        proof {
            if tree_invariant(self@) {
                lemma_shape_ignores_suppression_depth_and_focus(self@, self@.ambient, id, true);
            }
        }
        self.has_set_focus = true;
        self.focus = id;
    }

    /// A copy of the builder's state.
    pub fn prepaint_snapshot(&self) -> (snapshot: A11yNodeBuilderPrepaintSnapshot)
        ensures
            snapshot@ == self@,
    {
        A11yNodeBuilderPrepaintSnapshot {
            stack: stack_clone(&self.stack),
            ambient_suppression_depth: self.ambient_suppression_depth,
            all_nodes: clone_emitted(&self.all_nodes),
            seen_ids: clone_id_set(&self.seen_ids),
            focus: self.focus,
            has_set_focus: self.has_set_focus,
        }
    }

    /// Puts back the state that `snapshot` holds.
    pub fn restore_prepaint_snapshot(&mut self, snapshot: A11yNodeBuilderPrepaintSnapshot)
        ensures
            final(self)@ == snapshot@,
    {
        self.stack = snapshot.stack;
        self.ambient_suppression_depth = snapshot.ambient_suppression_depth;
        self.all_nodes = snapshot.all_nodes;
        self.seen_ids = snapshot.seen_ids;
        self.focus = snapshot.focus;
        self.has_set_focus = snapshot.has_set_focus;
    }

    /// Sets the bounds of the innermost open node if it is `id`, is not the root's
    /// place at the bottom of the stack, and is not suppressed.
    pub fn update_current_node_bounds(&mut self, id: u64, bounds: accesskit::Rect) -> (updated: bool)
        ensures
            (final(self)@, updated) == update_bounds_spec(old(self)@, id, bounds),
            tree_invariant(old(self)@) ==> tree_invariant(final(self)@),
    {
        proof {
            if tree_invariant(self@) {
                lemma_bounds_keep_shape(self@, id, bounds);
            }
        }
        match self.current_node_mut(id) {
            Some(node) => {
                set_bounds(node, bounds);
                assert(open_nodes(stack_entries(self.stack)) =~= update_bounds_spec(old(self)@, id, bounds).0.stack);
                true
            },
            None => false,
        }
    }

    /// The innermost open node, if it is `id`, is above the bottom of the stack, and
    /// is not suppressed.
    fn current_node_mut(&mut self, id: u64) -> (node: Option<&mut accesskit::Node>)
        ensures
            match node {
                Some(n) => {
                    &&& old(self)@.stack.len() > 1
                    &&& old(self)@.stack.last().id == id
                    &&& !old(self)@.stack.last().suppressed
                    &&& *n == old(self)@.stack.last().node
                    &&& stack_entries(final(self).stack) == stack_entries(old(self).stack).update(
                        stack_entries(old(self).stack).len() - 1,
                        StackEntry { node: *final(n), ..stack_entries(old(self).stack).last() },
                    )
                    &&& final(self).all_nodes == old(self).all_nodes
                    &&& final(self).seen_ids == old(self).seen_ids
                    &&& final(self).focus == old(self).focus
                    &&& final(self).has_set_focus == old(self).has_set_focus
                    &&& final(self).ambient_suppression_depth == old(self).ambient_suppression_depth
                },
                None => {
                    &&& (old(self)@.stack.len() <= 1 || old(self)@.stack.last().id != id
                        || old(self)@.stack.last().suppressed)
                    &&& final(self)@ == old(self)@
                },
            },
    {
        let len = stack_len(&self.stack);
        if len <= 1 {
            return None;
        }
        let current = stack_get(&self.stack, len - 1);
        if current.id != id || current.suppressed {
            return None;
        }
        let top = stack_get_mut(&mut self.stack, len - 1);
        Some(&mut top.node)
    }

    /// Starts suppressing every push until the matching `end_suppressing_descendants`.
    pub fn begin_suppressing_descendants(&mut self)
        requires
            old(self)@.ambient < usize::MAX,
        ensures
            final(self)@ == (BuilderState { ambient: old(self)@.ambient + 1, ..old(self)@ }),
            tree_invariant(old(self)@) ==> tree_invariant(final(self)@),
    {
        proof {
            if tree_invariant(self@) {
                lemma_shape_ignores_suppression_depth_and_focus(self@, self@.ambient + 1, self@.focus, self@.focus_set);
            }
        }
        self.ambient_suppression_depth = self.ambient_suppression_depth + 1;
    }

    /// Ends one level of ambient suppression; at depth zero nothing changes.
    pub fn end_suppressing_descendants(&mut self)
        ensures
            final(self)@ == (BuilderState {
                ambient: if old(self)@.ambient > 0 { (old(self)@.ambient - 1) as nat } else { 0 },
                ..old(self)@
            }),
            tree_invariant(old(self)@) ==> tree_invariant(final(self)@),
    {
        proof {
            if tree_invariant(self@) {
                let a: nat = if self@.ambient > 0 { (self@.ambient - 1) as nat } else { 0 };
                lemma_shape_ignores_suppression_depth_and_focus(self@, a, self@.focus, self@.focus_set);
            }
        }
        self.ambient_suppression_depth = self.ambient_suppression_depth.saturating_sub(1);
    }

    fn is_suppressed(&self) -> (suppressed: bool)
        ensures
            suppressed == is_suppressed_spec(self@),
    {
        if self.ambient_suppression_depth > 0 {
            return true;
        }
        let len = stack_len(&self.stack);
        len > 0 && stack_get(&self.stack, len - 1).suppressed
    }

    fn pop_any(&mut self)
        ensures
            final(self)@ == pop_spec(old(self)@),
    {
        let ghost v = self@;
        match stack_pop(&mut self.stack) {
            None => {},
            Some(top) => {
                if top.suppressed {
                    assert(self@.stack =~= pop_spec(v).stack);
                    return;
                }
                let len = stack_len(&self.stack);
                if len > 0 {
                    let parent = stack_get_mut(&mut self.stack, len - 1);
                    if !parent.suppressed {
                        push_child(&mut parent.node, top.id);
                    }
                }
                let ghost emitted_before = self.all_nodes@;
                self.all_nodes.push((top.id, top.node));
                assert(tree_nodes(self.all_nodes@) =~= tree_nodes(emitted_before).push(tree_node((top.id, top.node))));
                assert(self@.stack =~= pop_spec(v).stack);
            },
        }
    }
}


/// Membership in a sequence after a push.
pub proof fn lemma_push_contains(s: Seq<u64>, a: u64, x: u64)
    ensures
        s.push(a).contains(x) <==> s.contains(x) || x == a,
{
    if s.contains(x) {
        let k = choose|k: int| 0 <= k < s.len() && s[k] == x;
        assert(s.push(a)[k] == x);
    }
    if x == a {
        assert(s.push(a)[s.len() as int] == x);
    }
    if s.push(a).contains(x) {
        let k = choose|k: int| 0 <= k < s.len() + 1 && s.push(a)[k] == x;
        if k < s.len() {
            assert(s[k] == x);
        }
    }
}

proof fn lemma_remove_ids_step(s: Seq<u64>, p: Set<u64>, i: int)
    requires
        0 <= i < s.len(),
    ensures
        remove_ids(s.take(i + 1), p) == if p.contains(s[i]) {
            remove_ids(s.take(i), p)
        } else {
            remove_ids(s.take(i), p).push(s[i])
        },
{
    assert(s.take(i + 1).drop_last() =~= s.take(i));
}

/// Removing IDs that do not occur changes nothing.
pub proof fn lemma_remove_ids_none(s: Seq<u64>, p: Set<u64>)
    requires
        !has_child_in(s, p),
    ensures
        remove_ids(s, p) == s,
    decreases s.len(),
{
    if s.len() > 0 {
        assert(!p.contains(s[s.len() - 1]));
        assert forall|i: int| 0 <= i < s.drop_last().len() implies !p.contains(#[trigger] s.drop_last()[i]) by {
            assert(s.drop_last()[i] == s[i]);
        }
        lemma_remove_ids_none(s.drop_last(), p);
        assert(s.drop_last().push(s.last()) =~= s);
    }
}

proof fn lemma_prune_emitted_step(e: Seq<TreeNode>, p: Set<u64>, i: int)
    requires
        0 <= i < e.len(),
    ensures
        prune_emitted(e.take(i + 1), p) == if p.contains(e[i].id) {
            prune_emitted(e.take(i), p)
        } else {
            prune_emitted(e.take(i), p).push(
                TreeNode {
                    node: strip_node(e[i].node, e[i].children, p),
                    children: remove_ids(e[i].children, p),
                    ..e[i]
                },
            )
        },
{
    assert(e.take(i + 1).drop_last() =~= e.take(i));
}

proof fn lemma_emitted_map_step(e: Seq<TreeNode>, i: int)
    requires
        0 <= i < e.len(),
    ensures
        emitted_map(e.take(i + 1)) == emitted_map(e.take(i)).insert(e[i].id, e[i]),
{
    assert(e.take(i + 1).drop_last() =~= e.take(i));
}

/// The children of `node` that are not in `removed`, and whether any child is in it.
fn children_outside(node: &accesskit::Node, removed: &HashSet<u64>) -> (res: (Vec<u64>, bool))
    ensures
        res.0@ == remove_ids(node_children(*node), removed@),
        res.1 == has_child_in(node_children(*node), removed@),
{
    let children = children_of(node);
    let n = children.len();
    let mut kept: Vec<u64> = Vec::new();
    let mut any = false;
    for i in 0..n
        invariant
            n == children@.len(),
            children@ == node_children(*node),
            kept@ == remove_ids(children@.take(i as int), removed@),
            any == exists|k: int| 0 <= k < i && removed@.contains(#[trigger] children@[k]),
    {
        let c = children[i];
        proof {
            lemma_remove_ids_step(children@, removed@, i as int);
        }
        if removed.contains(&c) {
            any = true;
        } else {
            kept.push(c);
        }
    }
    assert(children@.take(n as int) =~= children@);
    (kept, any)
}

/// The children of `node` that are in `ids`, and whether some child is not in it.
fn children_inside(node: &accesskit::Node, ids: &HashSet<u64>) -> (res: (Vec<u64>, bool))
    ensures
        res.0@ == remove_ids(node_children(*node), ids@.complement()),
        res.1 == has_child_in(node_children(*node), ids@.complement()),
{
    let children = children_of(node);
    let n = children.len();
    let mut kept: Vec<u64> = Vec::new();
    let mut any = false;
    for i in 0..n
        invariant
            n == children@.len(),
            children@ == node_children(*node),
            kept@ == remove_ids(children@.take(i as int), ids@.complement()),
            any == exists|k: int| 0 <= k < i && ids@.complement().contains(#[trigger] children@[k]),
    {
        let c = children[i];
        proof {
            lemma_remove_ids_step(children@, ids@.complement(), i as int);
        }
        if ids.contains(&c) {
            kept.push(c);
        } else {
            any = true;
        }
    }
    assert(children@.take(n as int) =~= children@);
    (kept, any)
}

/// The nodes outside `removed`, each without references to `removed`.
fn prune_emitted_nodes(nodes: Vec<(u64, accesskit::Node)>, removed: &HashSet<u64>) -> (kept: Vec<(u64, accesskit::Node)>)
    ensures
        tree_nodes(kept@) == prune_emitted(tree_nodes(nodes@), removed@),
        clear_of(tree_nodes(kept@), removed@),
{
    let ghost p = removed@;
    let ghost e = tree_nodes(nodes@);
    let n = nodes.len();
    let mut kept: Vec<(u64, accesskit::Node)> = Vec::new();
    let mut i: usize = 0;
    while i < n
        invariant
            n == nodes@.len(),
            e == tree_nodes(nodes@),
            i <= n,
            removed@ == p,
            tree_nodes(kept@) == prune_emitted(e.take(i as int), p),
            clear_of(tree_nodes(kept@), p),
        decreases n - i,
    {
        proof {
            lemma_prune_emitted_step(e, p, i as int);
        }
        let entry = &nodes[i];
        assert(e[i as int] == tree_node(nodes@[i as int]));
        if !removed.contains(&entry.0) {
            let mut node = entry.1.clone();
            remove_child_refs(&mut node, removed);
            let ghost kept_before = kept@;
            kept.push((entry.0, node));
            proof {
                assert(tree_nodes(kept@) =~= tree_nodes(kept_before).push(tree_node((entry.0, node))));
                assert forall|j: int| 0 <= j < tree_nodes(kept@).len() implies !p.contains(#[trigger] tree_nodes(kept@)[j].id)
                    && !has_child_in(tree_nodes(kept@)[j].children, p) by {
                    if j < kept_before.len() {
                        assert(tree_nodes(kept@)[j] == tree_nodes(kept_before)[j]);
                    }
                }
            }
        }
        i = i + 1;
    }
    assert(e.take(n as int) =~= e);
    kept
}

/// Removes from `node`'s children every ID in `removed`.
fn remove_child_refs(node: &mut accesskit::Node, removed: &HashSet<u64>)
    ensures
        *final(node) == strip_node(*old(node), node_children(*old(node)), removed@),
        node_children(*final(node)) == remove_ids(node_children(*old(node)), removed@),
        !has_child_in(node_children(*final(node)), removed@),
{
    let (kept, any) = children_outside(node, removed);
    if any {
        proof {
            lemma_remove_ids_members(node_children(*node), removed@);
        }
        set_children(node, kept);
    } else {
        proof {
            lemma_remove_ids_none(node_children(*node), removed@);
        }
    }
}

impl A11yNodeBuilder {
    /// For each emitted ID, the position of the last node emitted with it.
    fn emitted_index(&self) -> (index: HashMap<u64, usize>)
        ensures
            forall|k: u64| #[trigger] index@.contains_key(k) <==> emitted_map(self@.emitted).contains_key(k),
            forall|k: u64| #[trigger] index@.contains_key(k) ==> index@[k] < self@.emitted.len()
                && self@.emitted[index@[k] as int] == emitted_map(self@.emitted)[k],
    {
        let ghost e = self@.emitted;
        let mut index: HashMap<u64, usize> = HashMap::new();
        let n = self.all_nodes.len();
        for i in 0..n
            invariant
                n == self.all_nodes@.len(),
                e == tree_nodes(self.all_nodes@),
                forall|k: u64| #[trigger] index@.contains_key(k) <==> emitted_map(e.take(i as int)).contains_key(k),
                forall|k: u64| #[trigger] index@.contains_key(k) ==> index@[k] < i
                    && e[index@[k] as int] == emitted_map(e.take(i as int))[k],
        {
            proof {
                lemma_emitted_map_step(e, i as int);
            }
            assert(e[i as int].id == self.all_nodes@[i as int].0);
            index.insert(self.all_nodes[i].0, i);
        }
        assert(e.take(n as int) =~= e);
        index
    }

    /// Removes the subtree below the innermost open node `id` from the emitted
    /// nodes, from the IDs in use, from the focus and from every child list.
    fn prune_emitted_subtree(&mut self, id: u64)
        ensures
            final(self)@ == prune_spec(old(self)@, pruned_ids(old(self)@, id)),
            is_pruned_away(final(self)@, pruned_ids(old(self)@, id)),
    {
        let ghost v = self@;
        let ghost raw_stack = stack_entries(self.stack);
        let ghost raw_nodes = self.all_nodes@;
        let ghost m = emitted_map(v.emitted);
        let ghost seeds = top_children(v);
        let ghost target = pruned_ids(v, id);
        let mut pruned: HashSet<u64> = HashSet::new();
        let mut pruned_list: Vec<u64> = Vec::new();
        pruned.insert(id);
        pruned_list.push(id);
        proof {
            lemma_push_contains(Seq::<u64>::empty(), id, id);
            assert(pruned_list@ =~= Seq::<u64>::empty().push(id));
            assert forall|x: u64| #[trigger] pruned@.contains(x) <==> pruned_list@.contains(x) by {
                lemma_push_contains(Seq::<u64>::empty(), id, x);
            }
        }
        let len = stack_len(&self.stack);
        let mut pending: Vec<u64> = if len > 0 {
            assert(v.stack[len - 1] == raw_stack[len - 1]@);
            children_of(&stack_get(&self.stack, len - 1).node)
        } else {
            Vec::new()
        };
        assert(pending@ == seeds);
        proof {
            assert forall|s: Set<u64>| #[trigger] closed_with_seeds(m, id, seeds, s) implies s.contains(id) by {}
            assert(target.contains(id));
            assert forall|i: int| 0 <= i < pending.len() implies target.contains(#[trigger] pending@[i]) by {
                assert forall|s: Set<u64>| #[trigger] closed_with_seeds(m, id, seeds, s) implies s.contains(pending@[i]) by {}
            }
        }
        if pending.len() > 0 {
            let index = self.emitted_index();
            while pending.len() > 0
                invariant
                    self@ == v,
                    self.all_nodes@ == raw_nodes,
                    v.emitted == tree_nodes(raw_nodes),
                    m == emitted_map(v.emitted),
                    seeds == top_children(v),
                    target == subtree_ids(m, id, seeds),
                    forall|k: u64| #[trigger] index@.contains_key(k) <==> m.contains_key(k),
                    forall|k: u64| #[trigger] index@.contains_key(k) ==> index@[k] < v.emitted.len()
                        && v.emitted[index@[k] as int] == m[k],
                    pruned@.contains(id),
                    forall|x: u64| #[trigger] pruned@.contains(x) <==> pruned_list@.contains(x),
                    forall|x: u64| #[trigger] pruned@.contains(x) ==> target.contains(x),
                    forall|i: int| 0 <= i < pending.len() ==> target.contains(#[trigger] pending@[i]),
                    forall|i: int| 0 <= i < seeds.len() ==> pruned@.contains(#[trigger] seeds[i]) || pending@.contains(seeds[i]),
                    forall|x: u64, c: u64| #[trigger] pruned@.contains(x) && #[trigger] is_child_in(m, id, x, c)
                        ==> pruned@.contains(c) || pending@.contains(c),
                decreases usize::MAX - pruned_list.len(), pending.len(),
            {
                let ghost before = pending@;
                let ghost pruned_before = pruned@;
                let child = pending.pop().unwrap();
                assert(before == pending@.push(child));
                assert(target.contains(child)) by {
                    assert(before[before.len() - 1] == child);
                }
                if !pruned.insert(child) {
                    assert(pruned@ =~= pruned_before);
                    proof {
                        assert forall|c: u64| #[trigger] before.contains(c) implies pruned@.contains(c) || pending@.contains(c) by {
                            let k = choose|k: int| 0 <= k < before.len() && before[k] == c;
                            if k < before.len() - 1 {
                                assert(pending@[k] == c);
                            }
                        }
                    }
                    continue;
                }
                let ghost list_before = pruned_list@;
                pruned_list.push(child);
                proof {
                    assert forall|x: u64| #[trigger] pruned@.contains(x) <==> pruned_list@.contains(x) by {
                        lemma_push_contains(list_before, child, x);
                    }
                }
                let ghost mid = pending@;
                match index.get(&child) {
                    Some(idx) => {
                        assert(v.emitted[*idx as int] == tree_node(raw_nodes[*idx as int]));
                        let grand = children_of(&self.all_nodes[*idx].1);
                        assert(grand@ == m[child].children);
                        let g = grand.len();
                        for j in 0..g
                            invariant
                                g == grand@.len(),
                                pending@ == mid + grand@.take(j as int),
                        {
                            pending.push(grand[j]);
                            assert(pending@ =~= mid + grand@.take(j + 1));
                        }
                        assert(grand@.take(g as int) =~= grand@);
                        proof {
                            assert(child != id);
                            assert forall|i: int| 0 <= i < grand@.len() implies target.contains(#[trigger] grand@[i]) by {
                                assert forall|s: Set<u64>| #[trigger] closed_with_seeds(m, id, seeds, s) implies s.contains(grand@[i]) by {
                                    assert(s.contains(child));
                                    assert(m[child].children.contains(grand@[i]));
                                    assert(is_child_in(m, id, child, grand@[i]));
                                }
                            }
                            assert forall|c: u64| #[trigger] is_child_in(m, id, child, c) implies pending@.contains(c) by {
                                let k = choose|k: int| 0 <= k < grand@.len() && grand@[k] == c;
                                assert(pending@[mid.len() + k] == c);
                            }
                        }
                    },
                    None => {
                        assert(!m.contains_key(child));
                    },
                }
                proof {
                    assert forall|c: u64| #[trigger] before.contains(c) implies pruned@.contains(c) || pending@.contains(c) by {
                        let k = choose|k: int| 0 <= k < before.len() && before[k] == c;
                        if k < before.len() - 1 {
                            assert(mid[k] == c);
                            assert(pending@[k] == c);
                        }
                    }
                    assert forall|i: int| 0 <= i < pending.len() implies target.contains(#[trigger] pending@[i]) by {
                        if i < mid.len() {
                            assert(pending@[i] == before[i]);
                        }
                    }
                }
            }
        }
        proof {
            assert(closed_with_seeds(m, id, seeds, pruned@));
            assert(pruned@ =~= target);
        }
        let ghost p = target;

        // The IDs in use.
        let k = pruned_list.len();
        for i in 0..k
            invariant
                k == pruned_list@.len(),
                forall|x: u64| #[trigger] pruned@.contains(x) <==> pruned_list@.contains(x),
                pruned@ == p,
                stack_entries(self.stack) == raw_stack,
                self.all_nodes@ == raw_nodes,
                self.focus == v.focus,
                self.has_set_focus == v.focus_set,
                self.ambient_suppression_depth == v.ambient,
                forall|x: u64| #[trigger] self.seen_ids@.contains(x) <==> v.seen.contains(x)
                    && !pruned_list@.take(i as int).contains(x),
        {
            self.seen_ids.remove(&pruned_list[i]);
            proof {
                assert(pruned_list@.take(i + 1) =~= pruned_list@.take(i as int).push(pruned_list@[i as int]));
                assert forall|x: u64| #[trigger] self.seen_ids@.contains(x) <==> v.seen.contains(x)
                    && !pruned_list@.take(i + 1).contains(x) by {
                    lemma_push_contains(pruned_list@.take(i as int), pruned_list@[i as int], x);
                }
            }
        }
        assert(pruned_list@.take(k as int) =~= pruned_list@);
        assert(self.seen_ids@ =~= v.seen.difference(p));

        // The focus.
        if pruned.contains(&self.focus) {
            self.focus = ROOT_NODE_ID;
        }

        // The emitted nodes.
        let mut old_nodes: Vec<(u64, accesskit::Node)> = Vec::new();
        std::mem::swap(&mut old_nodes, &mut self.all_nodes);
        self.all_nodes = prune_emitted_nodes(old_nodes, &pruned);

        // The open nodes.
        let len = stack_len(&self.stack);
        for i in 0..len
            invariant
                len == raw_stack.len(),
                v.stack == open_nodes(raw_stack),
                pruned@ == p,
                tree_nodes(self.all_nodes@) == prune_emitted(v.emitted, p),
                clear_of(tree_nodes(self.all_nodes@), p),
                self.seen_ids@ == v.seen.difference(p),
                self.focus == (if p.contains(v.focus) { ROOT_NODE_ID } else { v.focus }),
                self.has_set_focus == v.focus_set,
                self.ambient_suppression_depth == v.ambient,
                stack_entries(self.stack).len() == len,
                forall|j: int| 0 <= j < i ==> #[trigger] stack_entries(self.stack)[j]
                    == (StackEntry { node: strip_node(raw_stack[j].node, node_children(raw_stack[j].node), p), ..raw_stack[j] })
                    && node_children(stack_entries(self.stack)[j].node) == remove_ids(node_children(raw_stack[j].node), p)
                    && !has_child_in(node_children(stack_entries(self.stack)[j].node), p),
                forall|j: int| i <= j < len ==> #[trigger] stack_entries(self.stack)[j] == raw_stack[j],
        {
            let entry = stack_get_mut(&mut self.stack, i);
            remove_child_refs(&mut entry.node, &pruned);
        }
        proof {
            let now = open_nodes(stack_entries(self.stack));
            let want = strip_stack(v.stack, p);
            assert forall|j: int| 0 <= j < len implies #[trigger] now[j] == want[j] by {
                assert(now[j] == stack_entries(self.stack)[j]@);
                assert(v.stack[j] == raw_stack[j]@);
            }
            assert(now =~= want);
            assert forall|j: int| 0 <= j < self@.stack.len() implies !has_child_in(#[trigger] self@.stack[j].children, p) by {
                assert(now[j] == stack_entries(self.stack)[j]@);
            }
        }
        assert(forall|x: u64| p.contains(x) ==> !#[trigger] self@.seen.contains(x));
        assert(clear_of(self@.emitted, p));
        assert(!p.contains(self@.focus) || self@.focus == ROOT_NODE_ID);
    }
}

proof fn lemma_ids_of_step(e: Seq<TreeNode>, i: int)
    requires
        0 <= i < e.len(),
    ensures
        ids_of(e.take(i + 1)) == ids_of(e.take(i)).insert(e[i].id),
{
    let a = ids_of(e.take(i + 1));
    let b = ids_of(e.take(i)).insert(e[i].id);
    assert forall|x: u64| a.contains(x) <==> b.contains(x) by {
        if a.contains(x) {
            let k = choose|k: int| 0 <= k < i + 1 && #[trigger] e.take(i + 1)[k].id == x;
            if k < i {
                assert(e.take(i)[k].id == x);
            }
        }
        if ids_of(e.take(i)).contains(x) {
            let k = choose|k: int| 0 <= k < i && #[trigger] e.take(i)[k].id == x;
            assert(e.take(i + 1)[k].id == x);
        }
        if x == e[i].id {
            assert(e.take(i + 1)[i].id == x);
        }
    }
    assert(a =~= b);
}

/// Every member of `remove_ids(s, p)` is a member of `s` outside `p`.
pub proof fn lemma_remove_ids_members(s: Seq<u64>, p: Set<u64>)
    ensures
        forall|i: int| 0 <= i < remove_ids(s, p).len() ==> !p.contains(#[trigger] remove_ids(s, p)[i])
            && s.contains(remove_ids(s, p)[i]),
    decreases s.len(),
{
    if s.len() > 0 {
        lemma_remove_ids_members(s.drop_last(), p);
        let r = remove_ids(s.drop_last(), p);
        assert forall|i: int| 0 <= i < remove_ids(s, p).len() implies !p.contains(#[trigger] remove_ids(s, p)[i])
            && s.contains(remove_ids(s, p)[i]) by {
            if i < r.len() {
                assert(remove_ids(s, p)[i] == r[i]);
                let k = choose|k: int| 0 <= k < s.drop_last().len() && s.drop_last()[k] == r[i];
                assert(s[k] == r[i]);
            } else {
                assert(remove_ids(s, p)[i] == s.last());
                assert(s[s.len() - 1] == s.last());
            }
        }
    }
}

/// Every child reference in `e` names a node of `e`, and `focus` is a node of `e`
/// or the root.
pub open spec fn is_consistent_tree(e: Seq<TreeNode>, focus: u64) -> bool {
    &&& forall|j: int, c: int| 0 <= j < e.len() && 0 <= c < e[j].children.len()
        ==> ids_of(e).contains(#[trigger] e[j].children[c])
    &&& (focus == ROOT_NODE_ID || ids_of(e).contains(focus))
}

proof fn lemma_repair_keeps_ids(e: Seq<TreeNode>)
    ensures
        ids_of(repair_nodes(e)) == ids_of(e),
{
    let r = repair_nodes(e);
    assert forall|x: u64| ids_of(r).contains(x) <==> ids_of(e).contains(x) by {
        if ids_of(e).contains(x) {
            let k = choose|k: int| 0 <= k < e.len() && #[trigger] e[k].id == x;
            assert(r[k].id == x);
        }
        if ids_of(r).contains(x) {
            let k = choose|k: int| 0 <= k < r.len() && #[trigger] r[k].id == x;
            assert(e[k].id == x);
        }
    }
    assert(ids_of(r) =~= ids_of(e));
}

proof fn lemma_pop_all_empties(v: BuilderState)
    ensures
        pop_all_spec(v).stack.len() == 0,
        pop_all_spec(v).ambient == v.ambient,
    decreases v.stack.len(),
{
    if v.stack.len() > 0 {
        lemma_pop_all_empties(pop_spec(v));
    }
}

impl A11yNodeBuilder {
    /// Suppresses the innermost open node `id`: it and every node already emitted
    /// below it leave the tree, and nothing is pushed under it. Refused (returning
    /// `false`, state unchanged) for the root's place, for a node that is not
    /// innermost, and for a node already suppressed.
    pub fn suppress_current_node(&mut self, id: u64) -> (suppressed: bool)
        ensures
            (final(self)@, suppressed) == suppress_spec(old(self)@, id),
            tree_invariant(old(self)@) ==> tree_invariant(final(self)@),
            suppressed ==> {
                &&& pruned_ids(old(self)@, id).contains(id)
                &&& is_pruned_away(final(self)@, pruned_ids(old(self)@, id))
                &&& final(self)@.stack.len() == old(self)@.stack.len()
                &&& final(self)@.stack.last().id == id
                &&& final(self)@.stack.last().suppressed
            },
    {
        proof {
            if tree_invariant(self@) {
                lemma_suppress_keeps_shape(self@, id);
            }
        }
        let len = stack_len(&self.stack);
        if len <= 1 {
            return false;
        }
        let current = stack_get(&self.stack, len - 1);
        if current.id != id || current.suppressed {
            return false;
        }
        let ghost v = self@;
        let top = stack_get_mut(&mut self.stack, len - 1);
        top.suppressed = true;
        proof {
            let marked = BuilderState {
                stack: v.stack.update(v.stack.len() - 1, OpenNode { suppressed: true, ..v.stack.last() }),
                ..v
            };
            assert(self@.stack =~= marked.stack);
            assert(self@ == marked);
            assert(pruned_ids(marked, id) == pruned_ids(v, id));
            assert forall|s: Set<u64>| #[trigger] closed_with_seeds(emitted_map(v.emitted), id, top_children(v), s)
                implies s.contains(id) by {}
        }
        self.prune_emitted_subtree(id);
        true
    }

    /// Drops references to nodes missing from the update, and falls back to the
    /// root as focus when the focused node is missing.
    pub fn repair_tree_update(update: A11yTreeUpdate) -> (repaired: A11yTreeUpdate)
        ensures
            repaired@.nodes == repair_nodes(update@.nodes),
            repaired@.focus == repair_focus(update@.nodes, update@.focus),
            is_consistent_tree(repaired@.nodes, repaired@.focus),
    {
        let mut update = update;
        let ghost raw = update.nodes@;
        let ghost e = tree_nodes(raw);
        let n = update.nodes.len();
        let mut ids: HashSet<u64> = HashSet::new();
        for i in 0..n
            invariant
                n == e.len(),
                update.nodes@ == raw,
                e == tree_nodes(raw),
                ids@ == ids_of(e.take(i as int)),
        {
            proof {
                lemma_ids_of_step(e, i as int);
            }
            assert(e[i as int].id == raw[i as int].0);
            ids.insert(update.nodes[i].0);
        }
        assert(e.take(n as int) =~= e);
        if !ids.contains(&update.focus) {
            update.focus = ROOT_NODE_ID;
        }
        let ghost focus = update.focus;
        for i in 0..n
            invariant
                n == e.len(),
                e == tree_nodes(raw),
                raw.len() == n,
                ids@ == ids_of(e),
                update.focus == focus,
                update.nodes@.len() == n,
                forall|j: int| 0 <= j < i ==> #[trigger] tree_node(update.nodes@[j]) == keep_valid_children(e[j], ids_of(e)),
                forall|j: int| i <= j < n ==> #[trigger] update.nodes@[j] == raw[j],
                forall|j: int, c: int| 0 <= j < i && 0 <= c < node_children(update.nodes@[j].1).len()
                    ==> ids_of(e).contains(#[trigger] node_children(#[trigger] update.nodes@[j].1)[c]),
        {
            assert(e[i as int] == tree_node(raw[i as int]));
            let entry = &mut update.nodes[i];
            let (kept, any) = children_inside(&entry.1, &ids);
            if any {
                proof {
                    lemma_remove_ids_members(node_children(entry.1), ids@.complement());
                }
                set_children(&mut entry.1, kept);
            } else {
                proof {
                    lemma_remove_ids_none(node_children(entry.1), ids@.complement());
                }
            }
        }
        proof {
            let now = tree_nodes(update.nodes@);
            assert forall|j: int| 0 <= j < n implies #[trigger] now[j] == repair_nodes(e)[j] by {
                assert(now[j] == tree_node(update.nodes@[j]));
            }
            assert(now =~= repair_nodes(e));
            lemma_repair_keeps_ids(e);
            assert forall|j: int, c: int| 0 <= j < now.len() && 0 <= c < now[j].children.len()
                implies ids_of(now).contains(#[trigger] now[j].children[c]) by {
                assert(now[j] == tree_node(update.nodes@[j]));
                assert(ids_of(e).contains(node_children(update.nodes@[j].1)[c]));
            }
        }
        update
    }

    /// Closes every open node and hands out the frame's tree. The emitted nodes are
    /// taken out of the builder; child references to nodes not in the tree are
    /// dropped, and a focus outside the tree falls back to the root.
    pub fn finalize(&mut self) -> (update: A11yTreeUpdate)
        ensures
            update@.nodes == repair_nodes(finalize_closed(old(self)@).emitted),
            update@.focus == repair_focus(finalize_closed(old(self)@).emitted, finalize_closed(old(self)@).focus),
            final(self)@ == (BuilderState { emitted: Seq::<TreeNode>::empty(), ..finalize_closed(old(self)@) }),
            final(self)@.stack.len() == 0,
            final(self)@.ambient == 0,
            is_consistent_tree(update@.nodes, update@.focus),
            tree_invariant(old(self)@) ==> is_rooted_tree(update@.nodes)
                && update@.nodes == finalize_closed(old(self)@).emitted,
    {
        let (update, _report) = self.finalize_with_report();
        update
    }

    /// `finalize`, together with what it found wrong with the frame: nodes still
    /// open besides the root, ambient suppression still open, a focus outside the
    /// tree, and child references to nodes outside it.
    pub fn finalize_with_report(&mut self) -> (result: (A11yTreeUpdate, FinalizeReport))
        ensures
            result.0@.nodes == repair_nodes(finalize_closed(old(self)@).emitted),
            result.0@.focus == repair_focus(finalize_closed(old(self)@).emitted, finalize_closed(old(self)@).focus),
            final(self)@ == (BuilderState { emitted: Seq::<TreeNode>::empty(), ..finalize_closed(old(self)@) }),
            final(self)@.stack.len() == 0,
            final(self)@.ambient == 0,
            is_consistent_tree(result.0@.nodes, result.0@.focus),
            tree_invariant(old(self)@) ==> is_rooted_tree(result.0@.nodes)
                && result.0@.nodes == finalize_closed(old(self)@).emitted,
            result.1.open_nodes == old(self)@.stack.len(),
            result.1.ambient_depth == old(self)@.ambient,
            result.1.repair.missing_focus == (if ids_of(finalize_closed(old(self)@).emitted).contains(finalize_closed(old(self)@).focus) {
                None
            } else {
                Some(finalize_closed(old(self)@).focus)
            }),
            result.1.repair.dropped_children@.len() == finalize_closed(old(self)@).emitted.len(),
            forall|j: int| 0 <= j < finalize_closed(old(self)@).emitted.len() ==> #[trigger] result.1.repair.dropped_children@[j]
                == dropped_children(finalize_closed(old(self)@).emitted[j], ids_of(finalize_closed(old(self)@).emitted)),
    {
        proof {
            if tree_invariant(old(self)@) {
                lemma_finalize_gives_rooted_tree(old(self)@);
            }
        }
        let open_nodes = stack_len(&self.stack);
        let ambient_depth = self.ambient_suppression_depth;
        if self.ambient_suppression_depth != 0 {
            self.ambient_suppression_depth = 0;
        }
        let ghost target = finalize_closed(old(self)@);
        assert(self@ == BuilderState { ambient: 0, ..old(self)@ });
        while stack_len(&self.stack) > 0
            invariant
                pop_all_spec(self@) == target,
            decreases self@.stack.len(),
        {
            self.pop_any();
        }
        proof {
            lemma_pop_all_empties(BuilderState { ambient: 0, ..old(self)@ });
        }
        let mut nodes: Vec<(u64, accesskit::Node)> = Vec::new();
        std::mem::swap(&mut nodes, &mut self.all_nodes);
        assert(tree_nodes(self.all_nodes@) =~= Seq::<TreeNode>::empty());
        let update = A11yTreeUpdate { nodes, focus: self.focus };
        let repair = repair_report(&update);
        (Self::repair_tree_update(update), FinalizeReport { open_nodes, ambient_depth, repair })
    }
}

/// The node IDs of a finished tree, as a set.
pub(crate) fn update_ids(update: &A11yTreeUpdate) -> (ids: HashSet<u64>)
    ensures
        ids@ == ids_of(update@.nodes),
{
    let mut ids: HashSet<u64> = HashSet::new();
    let n = update.nodes.len();
    let mut i: usize = 0;
    while i < n
        invariant
            n == update.nodes@.len(),
            i <= n,
            forall|x: u64| #[trigger] ids@.contains(x) <==> exists|j: int| 0 <= j < i && #[trigger] update@.nodes[j].id == x,
        decreases n - i,
    {
        assert(update@.nodes[i as int].id == update.nodes@[i as int].0);
        ids.insert(update.nodes[i].0);
        proof {
            assert forall|x: u64| #[trigger] ids@.contains(x) <==> exists|j: int| 0 <= j < i + 1 && #[trigger] update@.nodes[j].id == x by {
                if x == update@.nodes[i as int].id {
                    assert(update@.nodes[i as int].id == x);
                }
            }
        }
        i = i + 1;
    }
    assert(ids@ =~= ids_of(update@.nodes));
    ids
}

/// How many children of `n` name nodes outside `ids`.
pub open spec fn dropped_children(n: TreeNode, ids: Set<u64>) -> int {
    n.children.len() - remove_ids(n.children, ids.complement()).len()
}

/// What repairing an update changes: the focus, if it names no node of the
/// update, and for each node, how many of its child references are dropped.
pub struct RepairReport {
    pub missing_focus: Option<u64>,
    pub dropped_children: Vec<usize>,
}

/// What `finalize` found: how many nodes were still open and how deep ambient
/// suppression still was (a balanced frame leaves only the root open, at depth
/// zero), and what the repair of the closed tree changed.
pub struct FinalizeReport {
    pub open_nodes: usize,
    pub ambient_depth: usize,
    pub repair: RepairReport,
}

/// The number of children of `node` outside `ids`.
fn count_missing_children(node: &accesskit::Node, ids: &HashSet<u64>) -> (count: usize)
    ensures
        count == node_children(*node).len() - remove_ids(node_children(*node), ids@.complement()).len(),
{
    let children = children_of(node);
    let n = children.len();
    let mut count: usize = 0;
    for i in 0..n
        invariant
            n == children@.len(),
            children@ == node_children(*node),
            count == i - remove_ids(children@.take(i as int), ids@.complement()).len(),
            count <= i,
    {
        proof {
            lemma_remove_ids_step(children@, ids@.complement(), i as int);
        }
        if !ids.contains(&children[i]) {
            count = count + 1;
        }
    }
    assert(children@.take(n as int) =~= children@);
    count
}

/// What `repair_tree_update` would change in `update`.
pub fn repair_report(update: &A11yTreeUpdate) -> (report: RepairReport)
    ensures
        report.missing_focus == (if ids_of(update@.nodes).contains(update.focus) { None } else { Some(update.focus) }),
        report.dropped_children@.len() == update@.nodes.len(),
        forall|j: int| 0 <= j < update@.nodes.len() ==> #[trigger] report.dropped_children@[j]
            == dropped_children(update@.nodes[j], ids_of(update@.nodes)),
{
    let ids = update_ids(update);
    let missing_focus = if ids.contains(&update.focus) { None } else { Some(update.focus) };
    let mut dropped: Vec<usize> = Vec::new();
    let n = update.nodes.len();
    for i in 0..n
        invariant
            n == update.nodes@.len(),
            ids@ == ids_of(update@.nodes),
            dropped@.len() == i,
            forall|j: int| 0 <= j < i ==> #[trigger] dropped@[j] == dropped_children(update@.nodes[j], ids_of(update@.nodes)),
    {
        assert(update@.nodes[i as int] == tree_node(update.nodes@[i as int]));
        dropped.push(count_missing_children(&update.nodes[i].1, &ids));
    }
    RepairReport { missing_focus, dropped_children: dropped }
}

/// Whether the update holds a node with ID `id`.
pub fn has_update_node(update: &A11yTreeUpdate, id: u64) -> (found: bool)
    ensures
        found == ids_of(update@.nodes).contains(id),
{
    let n = update.nodes.len();
    let mut i: usize = 0;
    while i < n
        invariant
            n == update.nodes@.len(),
            i <= n,
            forall|j: int| 0 <= j < i ==> #[trigger] update@.nodes[j].id != id,
        decreases n - i,
    {
        assert(update@.nodes[i as int].id == update.nodes@[i as int].0);
        if update.nodes[i].0 == id {
            return true;
        }
        i = i + 1;
    }
    false
}

/// The first node of the update with ID `id`.
pub fn node(update: &A11yTreeUpdate, id: u64) -> (found: &accesskit::Node)
    requires
        ids_of(update@.nodes).contains(id),
    ensures
        exists|i: int| 0 <= i < update@.nodes.len() && update@.nodes[i].id == id
            && *found == update@.nodes[i].node && node_children(*found) == update@.nodes[i].children
            && forall|j: int| 0 <= j < i ==> #[trigger] update@.nodes[j].id != id,
{
    let n = update.nodes.len();
    let mut i: usize = 0;
    while i < n
        invariant
            n == update.nodes@.len(),
            i <= n,
            ids_of(update@.nodes).contains(id),
            forall|j: int| 0 <= j < i ==> #[trigger] update@.nodes[j].id != id,
        decreases n - i,
    {
        assert(update@.nodes[i as int] == tree_node(update.nodes@[i as int]));
        if update.nodes[i].0 == id {
            return &update.nodes[i].1;
        }
        i = i + 1;
    }
    proof {
        let k = choose|k: int| 0 <= k < update@.nodes.len() && #[trigger] update@.nodes[k].id == id;
        assert(update@.nodes[k].id != id);
    }
    &update.nodes[0].1
}

/// Once `suppress_current_node` has succeeded, nothing can be pushed under the
/// suppressed node: every push is refused and leaves the state as it is.
pub proof fn lemma_suppressed_node_refuses_children(v: BuilderState, id: u64, child: u64, node: accesskit::Node)
    requires
        suppress_spec(v, id).1,
    ensures
        push_spec(suppress_spec(v, id).0, child, node) == (suppress_spec(v, id).0, false),
{
}

/// Closing a suppressed node emits nothing and changes no child list.
pub proof fn lemma_pop_of_suppressed_node_emits_nothing(v: BuilderState)
    requires
        v.stack.len() > 0,
        v.stack.last().suppressed,
    ensures
        pop_spec(v).emitted == v.emitted,
        pop_spec(v).stack == v.stack.drop_last(),
{
}

/// Ambient suppression nests: after `begin_suppressing_descendants` the matching
/// `end_suppressing_descendants` gives back the state from before.
pub proof fn lemma_ambient_suppression_round_trip(v: BuilderState)
    ensures
        ({
            let begun = BuilderState { ambient: v.ambient + 1, ..v };
            let ended = BuilderState {
                ambient: if begun.ambient > 0 { (begun.ambient - 1) as nat } else { 0 },
                ..begun
            };
            ended == v && is_suppressed_spec(begun)
        }),
{
}

/// Repairing a tree update twice gives what repairing it once gave: the nodes,
/// their children and the focus are left as they are.
pub proof fn lemma_repair_is_idempotent(e: Seq<TreeNode>, focus: u64)
    ensures
        repair_nodes(repair_nodes(e)) == repair_nodes(e),
        repair_focus(repair_nodes(e), repair_focus(e, focus)) == repair_focus(e, focus),
{
    let r = repair_nodes(e);
    lemma_repair_keeps_ids(e);
    let ids = ids_of(e);
    assert forall|j: int| 0 <= j < r.len() implies #[trigger] repair_nodes(r)[j] == r[j] by {
        let c = remove_ids(e[j].children, ids.complement());
        lemma_remove_ids_members(e[j].children, ids.complement());
        assert(!has_child_in(c, ids.complement()));
        lemma_remove_ids_none(c, ids.complement());
        assert(!has_child_outside(r[j], ids));
    }
    assert(repair_nodes(r) =~= r);
}

/// Repair leaves alone an update that needs none: when every child reference
/// names a node of the update and the focus is one of its nodes or the root, the
/// nodes and the focus stay as they are.
pub proof fn lemma_repair_keeps_consistent_update(e: Seq<TreeNode>, focus: u64)
    requires
        is_consistent_tree(e, focus),
    ensures
        repair_nodes(e) == e,
        repair_focus(e, focus) == focus,
{
    let ids = ids_of(e);
    assert forall|j: int| 0 <= j < e.len() implies #[trigger] repair_nodes(e)[j] == e[j] by {
        assert forall|i: int| 0 <= i < e[j].children.len() implies !ids.complement().contains(#[trigger] e[j].children[i]) by {
            assert(ids.contains(e[j].children[i]));
        }
        assert(!has_child_in(e[j].children, ids.complement()));
        lemma_remove_ids_none(e[j].children, ids.complement());
        assert(!has_child_outside(e[j], ids));
    }
    assert(repair_nodes(e) =~= e);
}

/// A push succeeds exactly when no ambient suppression is open, the innermost
/// open node is not suppressed, and the ID is not in use, however many nodes are
/// open. A successful push opens the node on top of the others with its own
/// children and marks its ID as in use; a refused push changes nothing.
pub proof fn lemma_push_outcome(v: BuilderState, id: u64, node: accesskit::Node)
    ensures
        push_spec(v, id, node).1 == (v.ambient == 0 && !(v.stack.len() > 0 && v.stack.last().suppressed)
            && !v.seen.contains(id)),
        push_spec(v, id, node).1 ==> {
            let w = push_spec(v, id, node).0;
            &&& w.stack.len() == v.stack.len() + 1
            &&& w.stack.drop_last() == v.stack
            &&& w.stack.last().id == id && w.stack.last().node == node
            &&& w.stack.last().children == node_children(node) && !w.stack.last().suppressed
            &&& w.seen == v.seen.insert(id)
            &&& w.emitted == v.emitted && w.focus == v.focus && w.ambient == v.ambient
        },
        !push_spec(v, id, node).1 ==> push_spec(v, id, node).0 == v,
{
    if push_spec(v, id, node).1 {
        assert(push_spec(v, id, node).0.stack.drop_last() =~= v.stack);
    }
}

/// Closing a node: the stack loses its top. A suppressed top leaves nothing
/// behind. Any other top is emitted as it stood and, when its parent is open and
/// not suppressed, its ID is appended to the parent's children. The IDs in use,
/// the focus and ambient suppression are unchanged.
pub proof fn lemma_pop_outcome(v: BuilderState)
    requires
        v.stack.len() > 0,
    ensures
        pop_spec(v).stack.len() == v.stack.len() - 1,
        pop_spec(v).seen == v.seen && pop_spec(v).focus == v.focus && pop_spec(v).ambient == v.ambient,
        v.stack.last().suppressed ==> pop_spec(v).emitted == v.emitted && pop_spec(v).stack == v.stack.drop_last(),
        !v.stack.last().suppressed ==> pop_spec(v).emitted == v.emitted.push(
            TreeNode { id: v.stack.last().id, node: v.stack.last().node, children: v.stack.last().children },
        ),
        !v.stack.last().suppressed && v.stack.len() > 1 && !v.stack[v.stack.len() - 2].suppressed ==> {
            &&& pop_spec(v).stack.last().id == v.stack[v.stack.len() - 2].id
            &&& pop_spec(v).stack.last().children == v.stack[v.stack.len() - 2].children.push(v.stack.last().id)
            &&& pop_spec(v).stack.drop_last() == v.stack.drop_last().drop_last()
        },
{
    let n = v.stack.len();
    if !v.stack.last().suppressed && n > 1 && !v.stack[n - 2].suppressed {
        assert(pop_spec(v).stack.drop_last() =~= v.stack.drop_last().drop_last());
    }
}

/// After a successful suppression the focus is the root if it was on a pruned
/// node, and stays where it was otherwise: suppression never moves the focus to
/// any node but the root.
pub proof fn lemma_suppress_focus(v: BuilderState, id: u64)
    requires
        suppress_spec(v, id).1,
    ensures
        pruned_ids(v, id).contains(v.focus) ==> suppress_spec(v, id).0.focus == ROOT_NODE_ID,
        !pruned_ids(v, id).contains(v.focus) ==> suppress_spec(v, id).0.focus == v.focus,
        suppress_spec(v, id).0.focus == v.focus || suppress_spec(v, id).0.focus == ROOT_NODE_ID,
        pruned_ids(v, id).contains(id),
        suppress_spec(v, id).0.seen == v.seen.difference(pruned_ids(v, id)),
{
    let n = v.stack.len();
    let marked = BuilderState { stack: v.stack.update(n - 1, OpenNode { suppressed: true, ..v.stack.last() }), ..v };
    assert(top_children(marked) == top_children(v));
    assert(pruned_ids(marked, id) == pruned_ids(v, id));
    assert forall|s: Set<u64>| #[trigger] closed_with_seeds(emitted_map(v.emitted), id, top_children(v), s)
        implies s.contains(id) by {}
}

/// Setting bounds succeeds exactly when more than the root is open and the
/// innermost open node is `id` and not suppressed; ambient suppression plays no
/// part. On success only the innermost node changes: it gets the bounds and keeps
/// its ID, children and suppression.
pub proof fn lemma_bounds_outcome(v: BuilderState, id: u64, bounds: accesskit::Rect, ambient: nat)
    ensures
        update_bounds_spec(v, id, bounds).1 == (v.stack.len() > 1 && v.stack.last().id == id && !v.stack.last().suppressed),
        update_bounds_spec(BuilderState { ambient, ..v }, id, bounds).1 == update_bounds_spec(v, id, bounds).1,
        update_bounds_spec(v, id, bounds).1 ==> {
            let w = update_bounds_spec(v, id, bounds).0;
            &&& w.stack.len() == v.stack.len()
            &&& w.stack.drop_last() == v.stack.drop_last()
            &&& w.stack.last().node == node_with_bounds(v.stack.last().node, bounds)
            &&& w.stack.last().id == id && w.stack.last().children == v.stack.last().children
            &&& !w.stack.last().suppressed
            &&& w.emitted == v.emitted && w.seen == v.seen && w.focus == v.focus && w.ambient == v.ambient
        },
        !update_bounds_spec(v, id, bounds).1 ==> update_bounds_spec(v, id, bounds).0 == v,
{
    if update_bounds_spec(v, id, bounds).1 {
        assert(update_bounds_spec(v, id, bounds).0.stack.drop_last() =~= v.stack.drop_last());
    }
}

/// What suppressing the innermost open node `id` removes: `id` itself, every
/// child of `id`, and every child of an already emitted node it removes; and
/// nothing else, since any set of IDs with those three properties holds all of it.
pub proof fn lemma_pruned_ids_meaning(v: BuilderState, id: u64)
    ensures
        pruned_ids(v, id).contains(id),
        forall|i: int| 0 <= i < top_children(v).len() ==> pruned_ids(v, id).contains(#[trigger] top_children(v)[i]),
        forall|j: int, c: int| 0 <= j < v.emitted.len() && v.emitted[j].id != id
            && emitted_map(v.emitted)[v.emitted[j].id] == v.emitted[j]
            && pruned_ids(v, id).contains(v.emitted[j].id) && 0 <= c < v.emitted[j].children.len()
            ==> pruned_ids(v, id).contains(#[trigger] v.emitted[j].children[c]),
        forall|s: Set<u64>| s.contains(id)
            && (forall|i: int| 0 <= i < top_children(v).len() ==> s.contains(#[trigger] top_children(v)[i]))
            && (forall|x: u64, c: u64| x != id && #[trigger] s.contains(x) && emitted_map(v.emitted).contains_key(x)
                && #[trigger] emitted_map(v.emitted)[x].children.contains(c) ==> s.contains(c))
            ==> pruned_ids(v, id).subset_of(s),
{
    let m = emitted_map(v.emitted);
    let seeds = top_children(v);
    let p = pruned_ids(v, id);
    assert forall|t: Set<u64>| #[trigger] closed_with_seeds(m, id, seeds, t) implies t.contains(id) by {}
    assert forall|i: int| 0 <= i < seeds.len() implies p.contains(#[trigger] seeds[i]) by {
        assert forall|t: Set<u64>| #[trigger] closed_with_seeds(m, id, seeds, t) implies t.contains(seeds[i]) by {}
    }
    assert forall|j: int, c: int| 0 <= j < v.emitted.len() && v.emitted[j].id != id
        && m[v.emitted[j].id] == v.emitted[j] && p.contains(v.emitted[j].id) && 0 <= c < v.emitted[j].children.len()
        implies p.contains(#[trigger] v.emitted[j].children[c]) by {
        let x = v.emitted[j].id;
        let k = v.emitted[j].children[c];
        assert(m.contains_key(x)) by {
            lemma_emitted_map_has(v.emitted, j);
        }
        assert(m[x].children.contains(k));
        assert forall|t: Set<u64>| #[trigger] closed_with_seeds(m, id, seeds, t) implies t.contains(k) by {
            assert(t.contains(x));
            assert(is_child_in(m, id, x, k));
        }
    }
    assert forall|s: Set<u64>| s.contains(id)
        && (forall|i: int| 0 <= i < seeds.len() ==> s.contains(#[trigger] seeds[i]))
        && (forall|x: u64, c: u64| x != id && #[trigger] s.contains(x) && m.contains_key(x)
            && #[trigger] m[x].children.contains(c) ==> s.contains(c))
        implies p.subset_of(s) by {
        assert(closed_with_seeds(m, id, seeds, s)) by {
            assert forall|x: u64, c: u64| #[trigger] s.contains(x) && #[trigger] is_child_in(m, id, x, c)
                implies s.contains(c) by {}
        }
    }
}

proof fn lemma_emitted_map_has(e: Seq<TreeNode>, j: int)
    requires
        0 <= j < e.len(),
    ensures
        emitted_map(e).contains_key(e[j].id),
    decreases e.len(),
{
    if j < e.len() - 1 {
        assert(e.drop_last()[j] == e[j]);
        lemma_emitted_map_has(e.drop_last(), j);
    }
}

/// What repair keeps: every node, with its ID and in its place, and of each
/// node's children exactly those that name nodes of the update, in their order;
/// the focus stays if it names a node of the update and is the root otherwise.
pub proof fn lemma_repair_meaning(e: Seq<TreeNode>)
    ensures
        repair_nodes(e).len() == e.len(),
        ids_of(repair_nodes(e)) == ids_of(e),
        forall|j: int| 0 <= j < e.len() ==> (#[trigger] repair_nodes(e)[j]).id == e[j].id,
        forall|j: int, c: u64| 0 <= j < e.len() ==> (#[trigger] repair_nodes(e)[j].children.contains(c)
            <==> e[j].children.contains(c) && ids_of(e).contains(c)),
        forall|j: int| 0 <= j < e.len() ==> (#[trigger] repair_nodes(e)[j]).children.len() <= e[j].children.len(),
        forall|f: u64| ids_of(e).contains(f) ==> #[trigger] repair_focus(e, f) == f,
        forall|f: u64| !ids_of(e).contains(f) ==> #[trigger] repair_focus(e, f) == ROOT_NODE_ID,
{
    lemma_repair_keeps_ids(e);
    let ids = ids_of(e);
    assert forall|j: int, c: u64| 0 <= j < e.len() implies (#[trigger] repair_nodes(e)[j].children.contains(c)
        <==> e[j].children.contains(c) && ids.contains(c)) by {
        lemma_remove_ids_members(e[j].children, ids.complement());
        lemma_remove_ids_complete(e[j].children, ids.complement());
        if repair_nodes(e)[j].children.contains(c) {
            let i = choose|i: int| 0 <= i < repair_nodes(e)[j].children.len() && repair_nodes(e)[j].children[i] == c;
            assert(!ids.complement().contains(repair_nodes(e)[j].children[i]));
        }
    }
    assert forall|j: int| 0 <= j < e.len() implies (#[trigger] repair_nodes(e)[j]).children.len() <= e[j].children.len() by {
        lemma_remove_ids_len(e[j].children, ids.complement());
    }
}

proof fn lemma_remove_ids_len(s: Seq<u64>, p: Set<u64>)
    ensures
        remove_ids(s, p).len() <= s.len(),
    decreases s.len(),
{
    if s.len() > 0 {
        lemma_remove_ids_len(s.drop_last(), p);
    }
}

/// Every member of `s` outside `p` is kept by `remove_ids`.
pub proof fn lemma_remove_ids_complete(s: Seq<u64>, p: Set<u64>)
    ensures
        forall|c: u64| s.contains(c) && !p.contains(c) ==> #[trigger] remove_ids(s, p).contains(c),
    decreases s.len(),
{
    if s.len() > 0 {
        lemma_remove_ids_complete(s.drop_last(), p);
        let r = remove_ids(s.drop_last(), p);
        assert forall|c: u64| s.contains(c) && !p.contains(c) implies #[trigger] remove_ids(s, p).contains(c) by {
            let i = choose|i: int| 0 <= i < s.len() && s[i] == c;
            if i < s.len() - 1 {
                assert(s.drop_last()[i] == c);
                assert(r.contains(c));
                if !p.contains(s.last()) {
                    let k = choose|k: int| 0 <= k < r.len() && r[k] == c;
                    assert(r.push(s.last())[k] == c);
                }
            } else {
                assert(remove_ids(s, p)[r.len() as int] == c);
            }
        }
    }
}

proof fn lemma_prune_emitted_clear(e: Seq<TreeNode>, p: Set<u64>)
    ensures
        clear_of(prune_emitted(e, p), p),
        forall|j: int| 0 <= j < e.len() && !p.contains(#[trigger] e[j].id) ==> ids_of(prune_emitted(e, p)).contains(e[j].id),
    decreases e.len(),
{
    if e.len() > 0 {
        let d = e.drop_last();
        lemma_prune_emitted_clear(d, p);
        let r = prune_emitted(d, p);
        let last = e[e.len() - 1];
        assert(e.last() == last);
        if !p.contains(last.id) {
            let x = TreeNode { node: strip_node(last.node, last.children, p), children: remove_ids(last.children, p), ..last };
            let q = r.push(x);
            assert(prune_emitted(e, p) == q);
            lemma_remove_ids_members(last.children, p);
            assert forall|j: int| 0 <= j < q.len() implies !p.contains(#[trigger] q[j].id) && !has_child_in(q[j].children, p) by {
                if j < r.len() {
                    assert(q[j] == r[j]);
                }
            }
            assert forall|j: int| 0 <= j < e.len() && !p.contains(#[trigger] e[j].id) implies ids_of(q).contains(e[j].id) by {
                if j < e.len() - 1 {
                    assert(d[j] == e[j]);
                    let a = choose|a: int| 0 <= a < r.len() && #[trigger] r[a].id == e[j].id;
                    assert(q[a] == r[a]);
                } else {
                    assert(q[r.len() as int].id == e[j].id);
                }
            }
        } else {
            assert forall|j: int| 0 <= j < e.len() && !p.contains(#[trigger] e[j].id) implies ids_of(r).contains(e[j].id) by {
                assert(d[j] == e[j]);
            }
        }
    }
}

/// What a successful suppression leaves: none of the removed IDs is in use, is
/// an emitted node, or is named as a child by any open or emitted node; every
/// emitted node outside them is still emitted; the innermost node is still `id`,
/// now suppressed and with no children; and every other open node keeps its ID.
pub proof fn lemma_suppress_clears_subtree(v: BuilderState, id: u64)
    requires
        suppress_spec(v, id).1,
    ensures
        ({
            let w = suppress_spec(v, id).0;
            let p = pruned_ids(v, id);
            &&& forall|x: u64| p.contains(x) ==> !#[trigger] w.seen.contains(x)
            &&& forall|j: int| 0 <= j < w.emitted.len() ==> !p.contains(#[trigger] w.emitted[j].id)
                && !has_child_in(w.emitted[j].children, p)
            &&& forall|k: int| 0 <= k < w.stack.len() ==> !has_child_in(#[trigger] w.stack[k].children, p)
                && w.stack[k].id == v.stack[k].id
            &&& forall|j: int| 0 <= j < v.emitted.len() && !p.contains(#[trigger] v.emitted[j].id)
                ==> ids_of(w.emitted).contains(v.emitted[j].id)
            &&& w.stack.len() == v.stack.len()
            &&& w.stack.last().id == id && w.stack.last().suppressed
            &&& w.stack.last().children.len() == 0
        }),
{
    let n = v.stack.len();
    let marked = BuilderState { stack: v.stack.update(n - 1, OpenNode { suppressed: true, ..v.stack.last() }), ..v };
    assert(top_children(marked) == top_children(v));
    assert(pruned_ids(marked, id) == pruned_ids(v, id));
    let p = pruned_ids(v, id);
    let w = suppress_spec(v, id).0;
    lemma_pruned_ids_meaning(v, id);
    lemma_prune_emitted_clear(v.emitted, p);
    assert forall|k: int| 0 <= k < w.stack.len() implies !has_child_in(#[trigger] w.stack[k].children, p)
        && w.stack[k].id == v.stack[k].id by {
        lemma_remove_ids_members(marked.stack[k].children, p);
    }
    let t = v.stack.last().children;
    assert(t == top_children(v));
    assert(w.stack[n - 1].children == remove_ids(t, p));
    lemma_remove_ids_len(t, p);
    lemma_remove_ids_members(t, p);
    if remove_ids(t, p).len() > 0 {
        let c = remove_ids(t, p)[0];
        let i = choose|i: int| 0 <= i < t.len() && t[i] == c;
        assert(p.contains(t[i]));
    }
}

} // verus!
