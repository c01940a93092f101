//! Per-window accessibility state: stable node IDs for elements, the frame's
//! tree builder, and the per-node maps that live as long as their nodes.
use vstd::prelude::*;
use std::collections::{HashMap, HashSet};
use std::sync::Arc;
use crate::shape::{is_rooted_tree, tree_invariant};
use std::sync::atomic::AtomicBool;
use crate::builder::{empty_builder_state, is_frame_start, A11yNodeBuilder, A11yNodeBuilderPrepaintSnapshot, A11yTreeUpdate, BuilderState, ROOT_NODE_ID, update_ids, finalize_closed, ids_of, is_consistent_tree, lemma_push_contains, repair_focus, repair_nodes, TreeNode};

verus! {

broadcast use vstd::std_specs::hash::group_hash_axioms;

/// The IDs of `map` as a list.
fn keys_of<V>(map: &HashMap<u64, V>) -> (keys: Vec<u64>)
    ensures
        keys@.to_set() == map@.dom(),
{
    let mut keys: Vec<u64> = Vec::new();
    for k in it: map.keys()
        invariant
            keys@ == it.seq().take(it.index() as int).unref(),
            it.seq().unref().to_set() == map@.dom(),
            it.index() == it.seq().len() ==> keys@.to_set() == map@.dom(),
    {
        keys.push(*k);
        proof {
            assert(keys@ =~= it.seq().take(it.index() + 1).unref());
            assert(it.index() + 1 == it.seq().len() ==> it.seq().take(it.index() + 1) =~= it.seq());
        }
    }
    keys
}


/// Keeps the entries of `map` whose ID is in `live`.
fn retain_live<V>(map: &mut HashMap<u64, V>, live: &HashSet<u64>)
    ensures
        final(map)@ == old(map)@.restrict(live@),
{
    let ghost start = map@;
    let keys = keys_of(map);
    let n = keys.len();
    for i in 0..n
        invariant
            n == keys@.len(),
            keys@.to_set() == start.dom(),
            forall|k: u64| #[trigger] map@.contains_key(k) <==> start.contains_key(k)
                && (live@.contains(k) || !keys@.take(i as int).contains(k)),
            forall|k: u64| #[trigger] map@.contains_key(k) ==> map@[k] == start[k],
    {
        let k = keys[i];
        if !live.contains(&k) {
            map.remove(&k);
        }
        proof {
            assert(keys@.take(i + 1) =~= keys@.take(i as int).push(k));
            assert forall|x: u64| #[trigger] map@.contains_key(x) <==> start.contains_key(x)
                && (live@.contains(x) || !keys@.take(i + 1).contains(x)) by {
                lemma_push_contains(keys@.take(i as int), k, x);
            }
        }
    }
    proof {
        assert(keys@.take(n as int) =~= keys@);
        assert forall|k: u64| start.contains_key(k) implies keys@.contains(k) by {
            assert(keys@.to_set().contains(k));
        }
    }
    assert(map@ =~= start.restrict(live@));
}


/// The identity of an element across frames: the path of element IDs from the
/// window's root element down to it.
pub struct GlobalElementId(pub Vec<String>);

impl View for GlobalElementId {
    type V = Seq<Seq<char>>;

    open spec fn view(&self) -> Seq<Seq<char>> {
        self.0@.map_values(|s: String| s@)
    }
}

impl Clone for GlobalElementId {
    fn clone(&self) -> (copy: Self)
        ensures
            copy@ == self@,
    {
        let mut path: Vec<String> = Vec::new();
        let n = self.0.len();
        for i in 0..n
            invariant
                n == self.0@.len(),
                path@.len() == i,
                forall|j: int| 0 <= j < i ==> #[trigger] path@[j]@ == self.0@[j]@,
        {
            path.push(self.0[i].clone());
        }
        let copy = GlobalElementId(path);
        assert(copy@ =~= self@);
        copy
    }
}

/// Whether two element paths are equal.
fn same_global_id(a: &GlobalElementId, b: &GlobalElementId) -> (same: bool)
    ensures
        same == (a@ == b@),
{
    let n = a.0.len();
    if n != b.0.len() {
        assert(a@.len() != b@.len());
        return false;
    }
    for i in 0..n
        invariant
            n == a.0@.len(),
            n == b.0@.len(),
            forall|j: int| 0 <= j < i ==> #[trigger] a.0@[j]@ == b.0@[j]@,
    {
        if a.0[i] != b.0[i] {
            assert(a@[i as int] != b@[i as int]);
            return false;
        }
    }
    assert(a@ =~= b@);
    true
}

/// The element-to-node assignment held as a list of pairs.
pub open spec fn id_map(l: Seq<(GlobalElementId, u64)>) -> Map<Seq<Seq<char>>, u64> {
    Map::new(
        |k: Seq<Seq<char>>| exists|i: int| 0 <= i < l.len() && #[trigger] l[i].0@ == k,
        |k: Seq<Seq<char>>| l[choose|i: int| 0 <= i < l.len() && #[trigger] l[i].0@ == k].1,
    )
}

/// A list of element paths as a set.
pub open spec fn path_set(l: Seq<GlobalElementId>) -> Set<Seq<Seq<char>>> {
    Set::new(|k: Seq<Seq<char>>| exists|i: int| 0 <= i < l.len() && #[trigger] l[i]@ == k)
}

/// The pairs name each element once, no two elements share a node ID, and every
/// node ID lies in `1..next`: never the root's, and below the next fresh one.
pub open spec fn ids_well_formed(l: Seq<(GlobalElementId, u64)>, next: u64) -> bool {
    &&& forall|i: int, j: int| 0 <= i < l.len() && 0 <= j < l.len() && i != j ==> #[trigger] l[i].0@ != #[trigger] l[j].0@
    &&& forall|i: int, j: int| 0 <= i < l.len() && 0 <= j < l.len() && i != j ==> #[trigger] l[i].1 != #[trigger] l[j].1
    &&& forall|i: int| 0 <= i < l.len() ==> ROOT_NODE_ID < #[trigger] l[i].1 && l[i].1 < next
    &&& ROOT_NODE_ID < next
}

proof fn lemma_id_map_lookup(l: Seq<(GlobalElementId, u64)>, next: u64, i: int)
    requires
        ids_well_formed(l, next),
        0 <= i < l.len(),
    ensures
        id_map(l).contains_key(l[i].0@),
        id_map(l)[l[i].0@] == l[i].1,
{
    let k = l[i].0@;
    assert(id_map(l).contains_key(k));
    let j = choose|j: int| 0 <= j < l.len() && #[trigger] l[j].0@ == k;
    assert(j == i);
}

/// The abstract per-window state.
pub struct A11yState<F, B, L> {
    pub nodes: BuilderState,
    pub force_disabled: bool,
    pub active_flag: Arc<AtomicBool>,
    pub active: bool,
    pub node_ids: Map<Seq<Seq<char>>, u64>,
    pub visited: Set<Seq<Seq<char>>>,
    pub next_node_id: u64,
    pub focus_ids: Map<u64, F>,
    pub node_bounds: Map<u64, B>,
    pub action_listeners: Map<u64, L>,
}

/// Per-window accessibility state. `F` is what the window records as a node's
/// focus handle, `B` a node's bounds, `L` a node's action listeners.
pub struct A11y<F, B, L> {
    force_disabled: bool,
    active_flag: Arc<AtomicBool>,
    active_this_frame: bool,
    node_ids: Vec<(GlobalElementId, u64)>,
    visited_global_ids: Vec<GlobalElementId>,
    next_node_id: u64,
    nodes: A11yNodeBuilder,
    focus_ids: HashMap<u64, F>,
    node_bounds: HashMap<u64, B>,
    action_listeners: HashMap<u64, L>,
}

/// What a prepaint pass may change, copied so that it can be rolled back.
pub struct A11yPrepaintSnapshot<F, B> {
    nodes: A11yNodeBuilderPrepaintSnapshot,
    node_ids: Vec<(GlobalElementId, u64)>,
    visited_global_ids: Vec<GlobalElementId>,
    next_node_id: u64,
    focus_ids: HashMap<u64, F>,
    node_bounds: HashMap<u64, B>,
}

/// The abstract content of a prepaint snapshot.
pub struct A11ySnapshotState<F, B> {
    pub nodes: BuilderState,
    pub node_ids: Map<Seq<Seq<char>>, u64>,
    pub visited: Set<Seq<Seq<char>>>,
    pub next_node_id: u64,
    pub focus_ids: Map<u64, F>,
    pub node_bounds: Map<u64, B>,
}

impl<F, B, L> View for A11y<F, B, L> {
    type V = A11yState<F, B, L>;

    closed spec fn view(&self) -> A11yState<F, B, L> {
        A11yState {
            nodes: self.nodes@,
            force_disabled: self.force_disabled,
            active_flag: self.active_flag,
            active: self.active_this_frame,
            node_ids: id_map(self.node_ids@),
            visited: path_set(self.visited_global_ids@),
            next_node_id: self.next_node_id,
            focus_ids: self.focus_ids@,
            node_bounds: self.node_bounds@,
            action_listeners: self.action_listeners@,
        }
    }
}

impl<F, B> View for A11yPrepaintSnapshot<F, B> {
    type V = A11ySnapshotState<F, B>;

    closed spec fn view(&self) -> A11ySnapshotState<F, B> {
        A11ySnapshotState {
            nodes: self.nodes@,
            node_ids: id_map(self.node_ids@),
            visited: path_set(self.visited_global_ids@),
            next_node_id: self.next_node_id,
            focus_ids: self.focus_ids@,
            node_bounds: self.node_bounds@,
        }
    }
}

impl<F, B> A11yPrepaintSnapshot<F, B> {
    /// The snapshot's node-ID assignment is well formed.
    pub closed spec fn wf(&self) -> bool {
        ids_well_formed(self.node_ids@, self.next_node_id)
    }
}

/// State `v` after reading `flag` from the shared flag: accessibility is active
/// this frame only if the flag is set and it is not force-disabled.
pub open spec fn activity_from_flag<F, B, L>(v: A11yState<F, B, L>, flag: bool) -> A11yState<F, B, L> {
    A11yState { active: !v.force_disabled && flag, ..v }
}

/// The state and result of `node_id_for` for the element `g`: the element is
/// marked visited; it keeps the node ID it has, or gets the next fresh one.
pub open spec fn node_id_for_spec<F, B, L>(v: A11yState<F, B, L>, g: Seq<Seq<char>>) -> (A11yState<F, B, L>, u64) {
    if v.node_ids.contains_key(g) {
        (A11yState { visited: v.visited.insert(g), ..v }, v.node_ids[g])
    } else {
        (
            A11yState {
                visited: v.visited.insert(g),
                node_ids: v.node_ids.insert(g, v.next_node_id),
                next_node_id: (v.next_node_id + 1) as u64,
                ..v
            },
            v.next_node_id,
        )
    }
}

/// No two elements share a node ID, and every assigned ID lies strictly between
/// the root's and the next fresh one.
pub open spec fn node_ids_valid<F, B, L>(v: A11yState<F, B, L>) -> bool {
    &&& forall|a: Seq<Seq<char>>, b: Seq<Seq<char>>| #[trigger] v.node_ids.contains_key(a)
        && #[trigger] v.node_ids.contains_key(b) && a != b ==> v.node_ids[a] != v.node_ids[b]
    &&& forall|a: Seq<Seq<char>>| #[trigger] v.node_ids.contains_key(a) ==> ROOT_NODE_ID < v.node_ids[a]
        && v.node_ids[a] < v.next_node_id
    &&& ROOT_NODE_ID < v.next_node_id
}

/// Node IDs are stable and unique per element: asking for `a` and then for `b`
/// gives the same ID exactly when `a` and `b` are the same element, neither ID is
/// the root's, and the assignment stays valid.
pub proof fn lemma_node_ids_distinct_per_element<F, B, L>(v: A11yState<F, B, L>, a: Seq<Seq<char>>, b: Seq<Seq<char>>)
    requires
        node_ids_valid(v),
        v.node_ids.contains_key(a) || v.next_node_id < u64::MAX,
        node_id_for_spec(v, a).0.node_ids.contains_key(b) || node_id_for_spec(v, a).0.next_node_id < u64::MAX,
    ensures
        ({
            let (v1, x) = node_id_for_spec(v, a);
            let (v2, y) = node_id_for_spec(v1, b);
            &&& (x == y <==> a == b)
            &&& x != ROOT_NODE_ID
            &&& y != ROOT_NODE_ID
            &&& node_ids_valid(v1)
            &&& node_ids_valid(v2)
        }),
{
    let (v1, x) = node_id_for_spec(v, a);
    assert(v1.node_ids.contains_key(a) && v1.node_ids[a] == x);
    assert(node_ids_valid(v1));
    let (v2, y) = node_id_for_spec(v1, b);
    assert(v2.node_ids.contains_key(b) && v2.node_ids[b] == y);
    assert(v2.node_ids.contains_key(a) && v2.node_ids[a] == x);
    assert(node_ids_valid(v2));
}

/// Whether accessibility is active changes only when the shared flag is read:
/// reading a value `flag` makes it `flag` unless accessibility is force-disabled,
/// in which case it stays off; handing out node IDs and rolling back a prepaint
/// pass keep it, whatever the flag holds meanwhile. (The methods that change the
/// maps, the tree builder or the frame keep it too, as their contracts say.)
pub proof fn lemma_activity_changes_only_on_read<F, B, L>(
    v: A11yState<F, B, L>,
    flag: bool,
    g: Seq<Seq<char>>,
    s: A11ySnapshotState<F, B>,
)
    ensures
        activity_from_flag(v, flag).active == (!v.force_disabled && flag),
        v.force_disabled ==> !activity_from_flag(v, flag).active,
        node_id_for_spec(v, g).0.active == v.active,
        restored_state(v, s).active == v.active,
        activity_from_flag(v, flag).force_disabled == v.force_disabled,
{
}

/// What asking for an element's node ID does: an element that has an ID gets it
/// again and only its visit is recorded; a new element gets the next fresh ID,
/// which is then assigned to it, and the next fresh ID goes up by exactly one.
/// Nothing else changes.
pub proof fn lemma_node_id_for_outcome<F, B, L>(v: A11yState<F, B, L>, g: Seq<Seq<char>>)
    ensures
        ({
            let (w, x) = node_id_for_spec(v, g);
            &&& w.visited == v.visited.insert(g)
            &&& w.nodes == v.nodes && w.focus_ids == v.focus_ids && w.node_bounds == v.node_bounds
            &&& w.action_listeners == v.action_listeners && w.active == v.active
            &&& v.node_ids.contains_key(g) ==> x == v.node_ids[g] && w.node_ids == v.node_ids
                && w.next_node_id == v.next_node_id
            &&& !v.node_ids.contains_key(g) ==> x == v.next_node_id && w.node_ids == v.node_ids.insert(g, x)
            &&& !v.node_ids.contains_key(g) && v.next_node_id < u64::MAX ==> w.next_node_id == v.next_node_id + 1
        }),
        v.next_node_id < u64::MAX || v.node_ids.contains_key(g) ==> node_id_for_spec(v, g).0.node_ids.contains_key(g)
            && node_id_for_spec(v, g).0.node_ids[g] == node_id_for_spec(v, g).1,
{
}

/// What a prepaint snapshot of state `v` holds.
pub open spec fn snapshot_state<F, B, L>(v: A11yState<F, B, L>) -> A11ySnapshotState<F, B> {
    A11ySnapshotState {
        nodes: v.nodes,
        node_ids: v.node_ids,
        visited: v.visited,
        next_node_id: v.next_node_id,
        focus_ids: v.focus_ids,
        node_bounds: v.node_bounds,
    }
}

/// State `v` after restoring snapshot `s`.
pub open spec fn restored_state<F, B, L>(v: A11yState<F, B, L>, s: A11ySnapshotState<F, B>) -> A11yState<F, B, L> {
    A11yState {
        nodes: s.nodes,
        node_ids: s.node_ids,
        visited: s.visited,
        next_node_id: s.next_node_id,
        focus_ids: s.focus_ids,
        node_bounds: s.node_bounds,
        ..v
    }
}

/// Rolling back a prepaint pass: whatever state `during` the pass left, restoring
/// the snapshot taken of `before` brings back all of `before` except the action
/// listeners and the activity state, which keep their values from `during`.
pub proof fn lemma_prepaint_rollback<F, B, L>(before: A11yState<F, B, L>, during: A11yState<F, B, L>)
    ensures
        restored_state(during, snapshot_state(before)) == (A11yState {
            action_listeners: during.action_listeners,
            force_disabled: during.force_disabled,
            active_flag: during.active_flag,
            active: during.active,
            ..before
        }),
{
}

/// A copy of the element-to-node pairs.
fn clone_pairs(l: &Vec<(GlobalElementId, u64)>) -> (copy: Vec<(GlobalElementId, u64)>)
    ensures
        copy@.len() == l@.len(),
        forall|i: int| #![trigger copy@[i]] 0 <= i < l@.len() ==> copy@[i].0@ == l@[i].0@ && copy@[i].1 == l@[i].1,
{
    let mut copy: Vec<(GlobalElementId, u64)> = Vec::new();
    let n = l.len();
    for i in 0..n
        invariant
            n == l@.len(),
            copy@.len() == i,
            forall|j: int| #![trigger copy@[j]] 0 <= j < i ==> copy@[j].0@ == l@[j].0@ && copy@[j].1 == l@[j].1,
    {
        let g = l[i].0.clone();
        copy.push((g, l[i].1));
    }
    copy
}

/// A copy of a list of element paths.
fn clone_paths(l: &Vec<GlobalElementId>) -> (copy: Vec<GlobalElementId>)
    ensures
        copy@.len() == l@.len(),
        forall|i: int| 0 <= i < l@.len() ==> #[trigger] copy@[i]@ == l@[i]@,
{
    let mut copy: Vec<GlobalElementId> = Vec::new();
    let n = l.len();
    for i in 0..n
        invariant
            n == l@.len(),
            copy@.len() == i,
            forall|j: int| 0 <= j < i ==> #[trigger] copy@[j]@ == l@[j]@,
    {
        copy.push(l[i].clone());
    }
    copy
}

proof fn lemma_pairs_same_view(a: Seq<(GlobalElementId, u64)>, b: Seq<(GlobalElementId, u64)>, next: u64)
    requires
        a.len() == b.len(),
        forall|i: int| #![trigger a[i]] #![trigger b[i]] 0 <= i < a.len() ==> a[i].0@ == b[i].0@ && a[i].1 == b[i].1,
        ids_well_formed(a, next),
    ensures
        id_map(a) == id_map(b),
        ids_well_formed(b, next),
{
    assert forall|i: int, j: int| 0 <= i < b.len() && 0 <= j < b.len() && i != j implies #[trigger] b[i].0@ != #[trigger] b[j].0@ by {
        assert(a[i].0@ != a[j].0@);
    }
    assert forall|i: int, j: int| 0 <= i < b.len() && 0 <= j < b.len() && i != j implies #[trigger] b[i].1 != #[trigger] b[j].1 by {
        assert(a[i].1 != a[j].1);
    }
    assert forall|i: int| 0 <= i < b.len() implies ROOT_NODE_ID < #[trigger] b[i].1 && b[i].1 < next by {
        assert(a[i].1 == b[i].1);
    }
    assert forall|k: Seq<Seq<char>>| id_map(a).contains_key(k) <==> id_map(b).contains_key(k) by {
        if id_map(a).contains_key(k) {
            let i = choose|i: int| 0 <= i < a.len() && #[trigger] a[i].0@ == k;
            assert(b[i].0@ == k);
        }
        if id_map(b).contains_key(k) {
            let i = choose|i: int| 0 <= i < b.len() && #[trigger] b[i].0@ == k;
            assert(a[i].0@ == k);
        }
    }
    assert forall|k: Seq<Seq<char>>| id_map(a).contains_key(k) implies id_map(a)[k] == id_map(b)[k] by {
        let i = choose|i: int| 0 <= i < a.len() && #[trigger] a[i].0@ == k;
        lemma_id_map_lookup(a, next, i);
        lemma_id_map_lookup(b, next, i);
    }
    assert(id_map(a) =~= id_map(b));
}

proof fn lemma_paths_same_view(a: Seq<GlobalElementId>, b: Seq<GlobalElementId>)
    requires
        a.len() == b.len(),
        forall|i: int| 0 <= i < a.len() ==> #[trigger] a[i]@ == b[i]@,
    ensures
        path_set(a) == path_set(b),
{
    assert forall|k: Seq<Seq<char>>| path_set(a).contains(k) <==> path_set(b).contains(k) by {
        if path_set(a).contains(k) {
            let i = choose|i: int| 0 <= i < a.len() && #[trigger] a[i]@ == k;
            assert(b[i]@ == k);
        }
        if path_set(b).contains(k) {
            let i = choose|i: int| 0 <= i < b.len() && #[trigger] b[i]@ == k;
            assert(a[i]@ == k);
        }
    }
    assert(path_set(a) =~= path_set(b));
}


/// The position of `g` in a list of paths, if it is there.
fn path_position(l: &Vec<GlobalElementId>, g: &GlobalElementId) -> (pos: Option<usize>)
    ensures
        match pos {
            Some(i) => i < l@.len() && l@[i as int]@ == g@,
            None => !path_set(l@).contains(g@),
        },
{
    let n = l.len();
    for i in 0..n
        invariant
            n == l@.len(),
            forall|j: int| 0 <= j < i ==> #[trigger] l@[j]@ != g@,
    {
        if same_global_id(&l[i], g) {
            return Some(i);
        }
    }
    None
}

/// The position of the pair for `g`, if there is one.
fn pair_position(l: &Vec<(GlobalElementId, u64)>, g: &GlobalElementId) -> (pos: Option<usize>)
    ensures
        match pos {
            Some(i) => i < l@.len() && l@[i as int].0@ == g@,
            None => !id_map(l@).contains_key(g@),
        },
{
    let n = l.len();
    for i in 0..n
        invariant
            n == l@.len(),
            forall|j: int| 0 <= j < i ==> #[trigger] l@[j].0@ != g@,
    {
        if same_global_id(&l[i].0, g) {
            return Some(i);
        }
    }
    None
}

/// The pairs whose element is in `visited`, order kept.
fn retain_visited(pairs: &Vec<(GlobalElementId, u64)>, visited: &Vec<GlobalElementId>, next: Ghost<u64>) -> (kept: Vec<(GlobalElementId, u64)>)
    requires
        ids_well_formed(pairs@, next@),
    ensures
        ids_well_formed(kept@, next@),
        id_map(kept@) == id_map(pairs@).restrict(path_set(visited@)),
{
    let ghost l = pairs@;
    let n = pairs.len();
    let mut kept: Vec<(GlobalElementId, u64)> = Vec::new();
    let ghost mut idx: Seq<int> = Seq::empty();
    let mut i: usize = 0;
    while i < n
        invariant
            n == l.len(),
            l == pairs@,
            ids_well_formed(l, next@),
            i <= n,
            kept@.len() == idx.len(),
            forall|j: int, k: int| 0 <= j < k < idx.len() ==> idx[j] < idx[k],
            forall|j: int| #![trigger idx[j]] 0 <= j < idx.len() ==> 0 <= idx[j] < i,
            forall|j: int| #![trigger kept@[j]] 0 <= j < kept@.len() ==> kept@[j].0@ == l[idx[j]].0@
                && kept@[j].1 == l[idx[j]].1 && path_set(visited@).contains(l[idx[j]].0@),
            forall|t: int| #![trigger l[t]] 0 <= t < i && path_set(visited@).contains(l[t].0@)
                ==> exists|j: int| 0 <= j < idx.len() && idx[j] == t,
        decreases n - i,
    {
        let pos = path_position(visited, &pairs[i].0);
        if pos.is_some() {
            let g = pairs[i].0.clone();
            kept.push((g, pairs[i].1));
            proof {
                let old_idx = idx;
                idx = idx.push(i as int);
                assert(kept@[kept@.len() - 1].0@ == l[i as int].0@);
                assert forall|t: int| #![trigger l[t]] 0 <= t < i + 1 && path_set(visited@).contains(l[t].0@)
                    implies exists|j: int| 0 <= j < idx.len() && idx[j] == t by {
                    if t == i {
                        assert(idx[idx.len() - 1] == t);
                    } else {
                        let j = choose|j: int| 0 <= j < old_idx.len() && old_idx[j] == t;
                        assert(idx[j] == t);
                    }
                }
            }
        } else {
            proof {
                assert forall|t: int| #![trigger l[t]] 0 <= t < i + 1 && path_set(visited@).contains(l[t].0@)
                    implies exists|j: int| 0 <= j < idx.len() && idx[j] == t by {
                    if t == i {
                        assert(!path_set(visited@).contains(l[t].0@));
                    }
                }
            }
        }
        i = i + 1;
    }
    let ghost k = kept@;
    proof {
        assert forall|a: int, b: int| 0 <= a < k.len() && 0 <= b < k.len() && a != b implies #[trigger] k[a].0@ != #[trigger] k[b].0@ by {
            assert(idx[a] != idx[b]);
            assert(k[a].0@ == l[idx[a]].0@);
            assert(k[b].0@ == l[idx[b]].0@);
        }
        assert forall|a: int, b: int| 0 <= a < k.len() && 0 <= b < k.len() && a != b implies #[trigger] k[a].1 != #[trigger] k[b].1 by {
            assert(idx[a] != idx[b]);
            assert(k[a].1 == l[idx[a]].1);
            assert(k[b].1 == l[idx[b]].1);
        }
        assert forall|a: int| 0 <= a < k.len() implies ROOT_NODE_ID < #[trigger] k[a].1 && k[a].1 < next@ by {
            assert(k[a].1 == l[idx[a]].1);
        }
        let want = id_map(l).restrict(path_set(visited@));
        assert forall|key: Seq<Seq<char>>| id_map(k).contains_key(key) <==> want.contains_key(key) by {
            if id_map(k).contains_key(key) {
                let a = choose|a: int| 0 <= a < k.len() && #[trigger] k[a].0@ == key;
                assert(k[a].0@ == l[idx[a]].0@);
                assert(l[idx[a]].0@ == key);
            }
            if want.contains_key(key) {
                let t = choose|t: int| 0 <= t < l.len() && #[trigger] l[t].0@ == key;
                assert(path_set(visited@).contains(l[t].0@));
                let a = choose|a: int| 0 <= a < idx.len() && idx[a] == t;
                assert(k[a].0@ == key);
            }
        }
        assert forall|key: Seq<Seq<char>>| id_map(k).contains_key(key) implies id_map(k)[key] == want[key] by {
            let a = choose|a: int| 0 <= a < k.len() && #[trigger] k[a].0@ == key;
            lemma_id_map_lookup(k, next@, a);
            assert(k[a].0@ == l[idx[a]].0@);
            lemma_id_map_lookup(l, next@, idx[a]);
        }
        assert(id_map(k) =~= want);
    }
    kept
}

impl<F, B, L> A11y<F, B, L> {
    /// The node-ID assignment is well formed.
    pub closed spec fn wf(&self) -> bool {
        ids_well_formed(self.node_ids@, self.next_node_id)
    }

    /// Node IDs are unique and never the root's: two different elements never
    /// share a node ID, and every assigned ID lies strictly between the root's and
    /// the next fresh one.
    pub proof fn lemma_node_ids_unique(&self)
        requires
            self.wf(),
        ensures
            node_ids_valid(self@),
    {
        let l = self.node_ids@;
        assert forall|a: Seq<Seq<char>>, b: Seq<Seq<char>>| #[trigger] self@.node_ids.contains_key(a)
            && #[trigger] self@.node_ids.contains_key(b) && a != b implies self@.node_ids[a] != self@.node_ids[b] by {
            let i = choose|i: int| 0 <= i < l.len() && #[trigger] l[i].0@ == a;
            let j = choose|j: int| 0 <= j < l.len() && #[trigger] l[j].0@ == b;
            lemma_id_map_lookup(l, self.next_node_id, i);
            lemma_id_map_lookup(l, self.next_node_id, j);
        }
        assert forall|a: Seq<Seq<char>>| #[trigger] self@.node_ids.contains_key(a) implies ROOT_NODE_ID < self@.node_ids[a]
            && self@.node_ids[a] < self@.next_node_id by {
            let i = choose|i: int| 0 <= i < l.len() && #[trigger] l[i].0@ == a;
            lemma_id_map_lookup(l, self.next_node_id, i);
        }
    }

    /// Accessibility state for a window. Nothing is assigned yet; the first node
    /// ID handed out is the one after the root's.
    pub fn new(active_flag: Arc<AtomicBool>, force_disabled: bool) -> (a11y: Self)
        ensures
            a11y.wf(),
            a11y@ == (A11yState::<F, B, L> {
                nodes: empty_builder_state(),
                force_disabled,
                active_flag,
                active: false,
                node_ids: Map::empty(),
                visited: Set::empty(),
                next_node_id: (ROOT_NODE_ID + 1) as u64,
                focus_ids: Map::empty(),
                node_bounds: Map::empty(),
                action_listeners: Map::empty(),
            }),
    {
        let a11y = A11y {
            force_disabled,
            active_flag,
            active_this_frame: false,
            node_ids: Vec::new(),
            visited_global_ids: Vec::new(),
            next_node_id: ROOT_NODE_ID + 1,
            nodes: A11yNodeBuilder::new(),
            focus_ids: HashMap::new(),
            node_bounds: HashMap::new(),
            action_listeners: HashMap::new(),
        };
        assert(id_map(a11y.node_ids@) =~= Map::empty());
        assert(path_set(a11y.visited_global_ids@) =~= Set::empty());
        a11y
    }

    /// Records the value read from the shared flag: accessibility is active this
    /// frame only if the flag is set and it is not force-disabled.
    pub fn set_active_from_flag(&mut self, flag: bool)
        ensures
            final(self)@ == activity_from_flag(old(self)@, flag),
            final(self).wf() == old(self).wf(),
    {
        self.active_this_frame = !self.force_disabled && flag;
    }

    /// Reads the shared flag that a platform adapter sets and records it with
    /// `set_active_from_flag`. Other threads may write the flag at any time, so
    /// what is promised holds of whatever value was read.
    pub fn sync_active_flag(&mut self)
        ensures
            exists|flag: bool| final(self)@ == #[trigger] activity_from_flag(old(self)@, flag),
            final(self).wf() == old(self).wf(),
    {
        let flag = self.active_flag.load(std::sync::atomic::Ordering::SeqCst);
        self.set_active_from_flag(flag);
    }

    /// Whether accessibility is active this frame.
    pub fn is_active(&self) -> (active: bool)
        ensures
            active == self@.active,
    {
        self.active_this_frame
    }

    /// Sets the shared flag and re-reads it, for tests that have no platform
    /// adapter. Another thread may write the flag in between, so what is promised
    /// holds of whatever value was read back.
    pub fn set_active_for_test(&mut self, active: bool)
        ensures
            exists|flag: bool| final(self)@ == #[trigger] activity_from_flag(old(self)@, flag),
            final(self).wf() == old(self).wf(),
    {
        self.active_flag.store(active, std::sync::atomic::Ordering::SeqCst);
        self.sync_active_flag();
    }

    /// The frame's tree builder.
    pub fn nodes(&self) -> (nodes: &A11yNodeBuilder)
        ensures
            nodes@ == self@.nodes,
    {
        &self.nodes
    }

    /// The frame's tree builder, to add the frame's nodes to.
    pub fn nodes_mut(&mut self) -> (nodes: &mut A11yNodeBuilder)
        ensures
            nodes@ == old(self)@.nodes,
            final(self)@ == (A11yState { nodes: final(nodes)@, ..old(self)@ }),
            final(self).wf() == old(self).wf(),
    {
        &mut self.nodes
    }

    /// The focus handle recorded for each node this frame.
    pub fn focus_ids(&self) -> (focus_ids: &HashMap<u64, F>)
        ensures
            focus_ids@ == self@.focus_ids,
    {
        &self.focus_ids
    }

    /// The focus handles, to record a node's handle in.
    pub fn focus_ids_mut(&mut self) -> (focus_ids: &mut HashMap<u64, F>)
        ensures
            focus_ids@ == old(self)@.focus_ids,
            final(self)@ == (A11yState { focus_ids: final(focus_ids)@, ..old(self)@ }),
            final(self).wf() == old(self).wf(),
    {
        &mut self.focus_ids
    }

    /// The bounds recorded for each node this frame.
    pub fn node_bounds(&self) -> (node_bounds: &HashMap<u64, B>)
        ensures
            node_bounds@ == self@.node_bounds,
    {
        &self.node_bounds
    }

    /// The node bounds, to record a node's bounds in.
    pub fn node_bounds_mut(&mut self) -> (node_bounds: &mut HashMap<u64, B>)
        ensures
            node_bounds@ == old(self)@.node_bounds,
            final(self)@ == (A11yState { node_bounds: final(node_bounds)@, ..old(self)@ }),
            final(self).wf() == old(self).wf(),
    {
        &mut self.node_bounds
    }

    /// The action listeners registered for each node this frame.
    pub fn action_listeners(&self) -> (action_listeners: &HashMap<u64, L>)
        ensures
            action_listeners@ == self@.action_listeners,
    {
        &self.action_listeners
    }

    /// The action listeners, to register a node's listeners in.
    pub fn action_listeners_mut(&mut self) -> (action_listeners: &mut HashMap<u64, L>)
        ensures
            action_listeners@ == old(self)@.action_listeners,
            final(self)@ == (A11yState { action_listeners: final(action_listeners)@, ..old(self)@ }),
            final(self).wf() == old(self).wf(),
    {
        &mut self.action_listeners
    }

    /// Starts a frame: the per-node maps and the visited elements are cleared and
    /// the tree builder opens the root node. Node IDs stay assigned.
    pub fn begin_frame(&mut self)
        requires
            old(self).wf(),
        ensures
            final(self).wf(),
            final(self)@ == (A11yState {
                visited: Set::empty(),
                focus_ids: Map::empty(),
                node_bounds: Map::empty(),
                action_listeners: Map::empty(),
                nodes: final(self)@.nodes,
                ..old(self)@
            }),
            is_frame_start(final(self)@.nodes),
            tree_invariant(final(self)@.nodes),
    {
        self.focus_ids.clear();
        self.node_bounds.clear();
        self.action_listeners.clear();
        self.visited_global_ids.clear();
        self.nodes.begin_frame();
        assert(path_set(self.visited_global_ids@) =~= Set::empty());
    }

    /// The node ID for an element, marking the element visited this frame. An
    /// element keeps the ID it was given; a new element gets the next fresh ID.
    pub fn node_id_for(&mut self, global_id: &GlobalElementId) -> (node_id: u64)
        requires
            old(self).wf(),
            old(self)@.node_ids.contains_key(global_id@) || old(self)@.next_node_id < u64::MAX,
        ensures
            final(self).wf(),
            node_id != ROOT_NODE_ID,
            (final(self)@, node_id) == node_id_for_spec(old(self)@, global_id@),
    {
        let ghost before = self.visited_global_ids@;
        if path_position(&self.visited_global_ids, global_id).is_none() {
            self.visited_global_ids.push(global_id.clone());
            proof {
                assert forall|k: Seq<Seq<char>>| path_set(self.visited_global_ids@).contains(k)
                    <==> path_set(before).insert(global_id@).contains(k) by {
                    if path_set(before).contains(k) {
                        let i = choose|i: int| 0 <= i < before.len() && #[trigger] before[i]@ == k;
                        assert(self.visited_global_ids@[i]@ == k);
                    }
                    if path_set(self.visited_global_ids@).contains(k) {
                        let i = choose|i: int| 0 <= i < self.visited_global_ids@.len() && #[trigger] self.visited_global_ids@[i]@ == k;
                        if i < before.len() {
                            assert(before[i]@ == k);
                        }
                    }
                    if k == global_id@ {
                        assert(self.visited_global_ids@[before.len() as int]@ == k);
                    }
                }
                assert(path_set(self.visited_global_ids@) =~= path_set(before).insert(global_id@));
            }
        } else {
            assert(path_set(before).insert(global_id@) =~= path_set(before));
        }

        match pair_position(&self.node_ids, global_id) {
            Some(i) => {
                proof {
                    lemma_id_map_lookup(self.node_ids@, self.next_node_id, i as int);
                }
                return self.node_ids[i].1;
            },
            None => {},
        }
        let node_id = self.next_node_id;
        self.next_node_id = self.next_node_id + 1;
        let ghost pairs_before = self.node_ids@;
        self.node_ids.push((global_id.clone(), node_id));
        proof {
            let l = self.node_ids@;
            let last = pairs_before.len() as int;
            assert(l[last].0@ == global_id@);
            assert forall|a: int, b: int| 0 <= a < l.len() && 0 <= b < l.len() && a != b implies #[trigger] l[a].0@ != #[trigger] l[b].0@ by {
                if a == last {
                    assert(l[b] == pairs_before[b]);
                    assert(id_map(pairs_before).contains_key(l[b].0@));
                } else if b == last {
                    assert(l[a] == pairs_before[a]);
                    assert(id_map(pairs_before).contains_key(l[a].0@));
                } else {
                    assert(l[a] == pairs_before[a]);
                    assert(l[b] == pairs_before[b]);
                }
            }
            assert forall|a: int, b: int| 0 <= a < l.len() && 0 <= b < l.len() && a != b implies #[trigger] l[a].1 != #[trigger] l[b].1 by {
                if a < last {
                    assert(l[a] == pairs_before[a]);
                }
                if b < last {
                    assert(l[b] == pairs_before[b]);
                }
            }
            assert forall|a: int| 0 <= a < l.len() implies ROOT_NODE_ID < #[trigger] l[a].1 && l[a].1 < self.next_node_id by {
                if a < last {
                    assert(l[a] == pairs_before[a]);
                }
            }
            let want = id_map(pairs_before).insert(global_id@, node_id);
            assert forall|k: Seq<Seq<char>>| id_map(l).contains_key(k) <==> want.contains_key(k) by {
                if id_map(pairs_before).contains_key(k) {
                    let a = choose|a: int| 0 <= a < pairs_before.len() && #[trigger] pairs_before[a].0@ == k;
                    assert(l[a].0@ == k);
                }
                if id_map(l).contains_key(k) {
                    let a = choose|a: int| 0 <= a < l.len() && #[trigger] l[a].0@ == k;
                    if a < last {
                        assert(pairs_before[a].0@ == k);
                    }
                }
            }
            assert forall|k: Seq<Seq<char>>| id_map(l).contains_key(k) implies id_map(l)[k] == want[k] by {
                let a = choose|a: int| 0 <= a < l.len() && #[trigger] l[a].0@ == k;
                lemma_id_map_lookup(l, self.next_node_id, a);
                if a < last {
                    assert(l[a] == pairs_before[a]);
                    lemma_id_map_lookup(pairs_before, node_id, a);
                }
            }
            assert(id_map(l) =~= want);
        }
        node_id
    }

    /// The node ID already assigned to an element, if any.
    pub fn node_id_for_existing(&self, global_id: &GlobalElementId) -> (node_id: Option<u64>)
        requires
            self.wf(),
        ensures
            node_id == (if self@.node_ids.contains_key(global_id@) {
                Some(self@.node_ids[global_id@])
            } else {
                None
            }),
    {
        match pair_position(&self.node_ids, global_id) {
            Some(i) => {
                proof {
                    lemma_id_map_lookup(self.node_ids@, self.next_node_id, i as int);
                }
                Some(self.node_ids[i].1)
            },
            None => None,
        }
    }

    /// Finishes the frame's tree. Elements not visited this frame lose their node
    /// IDs; the per-node maps keep only the nodes that are in the finished tree.
    pub fn end_frame(&mut self) -> (update: A11yTreeUpdate)
        requires
            old(self).wf(),
        ensures
            final(self).wf(),
            update@.nodes == repair_nodes(finalize_closed(old(self)@.nodes).emitted),
            update@.focus == repair_focus(finalize_closed(old(self)@.nodes).emitted, finalize_closed(old(self)@.nodes).focus),
            is_consistent_tree(update@.nodes, update@.focus),
            tree_invariant(old(self)@.nodes) ==> is_rooted_tree(update@.nodes)
                && update@.nodes == finalize_closed(old(self)@.nodes).emitted,
            final(self)@.nodes == (BuilderState {
                emitted: Seq::<TreeNode>::empty(),
                ..finalize_closed(old(self)@.nodes)
            }),
            final(self)@ == (A11yState {
                nodes: final(self)@.nodes,
                node_ids: old(self)@.node_ids.restrict(old(self)@.visited),
                focus_ids: old(self)@.focus_ids.restrict(ids_of(update@.nodes)),
                node_bounds: old(self)@.node_bounds.restrict(ids_of(update@.nodes)),
                action_listeners: old(self)@.action_listeners.restrict(ids_of(update@.nodes)),
                ..old(self)@
            }),
    {
        let update = self.nodes.finalize();
        let live = update_ids(&update);
        let kept = retain_visited(&self.node_ids, &self.visited_global_ids, Ghost(self.next_node_id));
        self.node_ids = kept;
        retain_live(&mut self.focus_ids, &live);
        retain_live(&mut self.node_bounds, &live);
        retain_live(&mut self.action_listeners, &live);
        update
    }
}

impl<F: Clone, B: Clone, L> A11y<F, B, L> {
    /// A copy of everything a prepaint pass may change: the tree builder, the
    /// node-ID assignment, the visited elements, the focus handles and the bounds.
    pub fn prepaint_snapshot(&self) -> (snapshot: A11yPrepaintSnapshot<F, B>)
        requires
            self.wf(),
        ensures
            snapshot.wf(),
            snapshot@ == snapshot_state(self@),
    {
        let node_ids = clone_pairs(&self.node_ids);
        let visited = clone_paths(&self.visited_global_ids);
        proof {
            lemma_pairs_same_view(self.node_ids@, node_ids@, self.next_node_id);
            lemma_paths_same_view(self.visited_global_ids@, visited@);
        }
        A11yPrepaintSnapshot {
            nodes: self.nodes.prepaint_snapshot(),
            node_ids,
            visited_global_ids: visited,
            next_node_id: self.next_node_id,
            focus_ids: self.focus_ids.clone(),
            node_bounds: self.node_bounds.clone(),
        }
    }
}

impl<F, B, L> A11y<F, B, L> {
    /// Rolls back what a discarded prepaint pass changed. Action listeners are
    /// registered during paint and are kept as they are.
    pub fn restore_prepaint_snapshot(&mut self, snapshot: A11yPrepaintSnapshot<F, B>)
        requires
            snapshot.wf(),
        ensures
            final(self).wf(),
            final(self)@ == restored_state(old(self)@, snapshot@),
    {
        self.nodes.restore_prepaint_snapshot(snapshot.nodes);
        self.node_ids = snapshot.node_ids;
        self.visited_global_ids = snapshot.visited_global_ids;
        self.next_node_id = snapshot.next_node_id;
        self.focus_ids = snapshot.focus_ids;
        self.node_bounds = snapshot.node_bounds;
    }
}

} // verus!
