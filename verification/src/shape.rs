//! The shape of the tree a frame builds: open and emitted nodes form a forest
//! hanging off the open nodes, and `finalize` turns it into one tree rooted at the
//! window's root node.
use vstd::prelude::*;
use crate::builder::{
    BuilderState,
    ROOT_NODE_ID,
    TreeNode,
    closed_with_seeds,
    emitted_map,
    finalize_closed,
    has_child_in,
    has_child_outside,
    ids_of,
    is_child_in,
    is_frame_start,
    lemma_remove_ids_complete,
    lemma_remove_ids_members,
    lemma_remove_ids_none,
    pop_all_spec,
    pop_spec,
    prune_emitted,
    prune_spec,
    pruned_ids,
    push_spec,
    remove_ids,
    repair_nodes,
    strip_node,
    subtree_ids,
    suppress_spec,
    top_children,
    update_bounds_spec,
};
use crate::node::node_children;
use crate::stack::OpenNode;

verus! {

/// The IDs of a list of open nodes.
pub open spec fn open_ids(s: Seq<OpenNode>) -> Set<u64> {
    Set::new(|x: u64| exists|k: int| 0 <= k < s.len() && #[trigger] s[k].id == x)
}

/// The open nodes' IDs are distinct, as are the emitted nodes' IDs, and no ID is
/// both open and emitted.
pub open spec fn ids_distinct(s: Seq<OpenNode>, e: Seq<TreeNode>) -> bool {
    &&& forall|a: int, b: int| 0 <= a < s.len() && 0 <= b < s.len() && a != b ==> #[trigger] s[a].id != #[trigger] s[b].id
    &&& forall|a: int, b: int| 0 <= a < e.len() && 0 <= b < e.len() && a != b ==> #[trigger] e[a].id != #[trigger] e[b].id
    &&& forall|a: int, b: int| 0 <= a < s.len() && 0 <= b < e.len() ==> #[trigger] s[a].id != #[trigger] e[b].id
}

/// The children of every open and emitted node, by ID.
pub open spec fn child_map(s: Seq<OpenNode>, e: Seq<TreeNode>) -> Map<u64, Seq<u64>> {
    Map::new(
        |x: u64| open_ids(s).contains(x) || ids_of(e).contains(x),
        |x: u64|
            if open_ids(s).contains(x) {
                s[choose|k: int| 0 <= k < s.len() && #[trigger] s[k].id == x].children
            } else {
                e[choose|j: int| 0 <= j < e.len() && #[trigger] e[j].id == x].children
            },
    )
}

/// Every child is one of `nodes`; no child list names a node twice, and no node is
/// named in two child lists.
pub open spec fn children_disciplined(g: Map<u64, Seq<u64>>, nodes: Set<u64>) -> bool {
    &&& forall|x: u64, c: int| g.contains_key(x) && 0 <= c < g[x].len() ==> nodes.contains(#[trigger] g[x][c])
    &&& forall|x: u64| #[trigger] g.contains_key(x) ==> g[x].no_duplicates()
    &&& forall|x: u64, y: u64, c: u64| g.contains_key(x) && g.contains_key(y) && x != y && #[trigger] g[x].contains(c)
        ==> !#[trigger] g[y].contains(c)
}

/// `s` holds the `roots` and, with every node it holds, that node's children.
pub open spec fn closed_under(g: Map<u64, Seq<u64>>, roots: Set<u64>, s: Set<u64>) -> bool {
    &&& forall|x: u64| roots.contains(x) ==> #[trigger] s.contains(x)
    &&& forall|x: u64, c: u64| #[trigger] s.contains(x) && g.contains_key(x) && #[trigger] g[x].contains(c) ==> s.contains(c)
}

/// The nodes reachable from the `roots` through child links.
pub open spec fn reachable(g: Map<u64, Seq<u64>>, roots: Set<u64>) -> Set<u64> {
    Set::new(|x: u64| forall|s: Set<u64>| #[trigger] closed_under(g, roots, s) ==> s.contains(x))
}

/// What every state of a frame keeps: the root stays at the bottom of the stack;
/// only the innermost open node may be suppressed, and then it has no children;
/// IDs are distinct; children are emitted nodes, each named once; every ID in use
/// is recorded as seen (a suppressed innermost node aside); and every emitted node
/// hangs below an open node.
pub open spec fn tree_invariant(v: BuilderState) -> bool {
    &&& v.stack.len() >= 1
    &&& v.stack[0].id == ROOT_NODE_ID
    &&& !v.stack[0].suppressed
    &&& forall|k: int| 0 <= k < v.stack.len() - 1 ==> !(#[trigger] v.stack[k]).suppressed
    &&& v.stack.last().suppressed ==> v.stack.last().children.len() == 0
    &&& ids_distinct(v.stack, v.emitted)
    &&& children_disciplined(child_map(v.stack, v.emitted), ids_of(v.emitted))
    &&& forall|j: int| 0 <= j < v.emitted.len() ==> v.seen.contains(#[trigger] v.emitted[j].id)
    &&& forall|k: int| 0 <= k < v.stack.len() && (k < v.stack.len() - 1 || !v.stack[k].suppressed)
        ==> v.seen.contains(#[trigger] v.stack[k].id)
    &&& forall|x: u64| #[trigger] ids_of(v.emitted).contains(x) ==> reachable(child_map(v.stack, v.emitted), open_ids(v.stack)).contains(x)
}

proof fn lemma_child_map_lookup(s: Seq<OpenNode>, e: Seq<TreeNode>)
    requires
        ids_distinct(s, e),
    ensures
        forall|k: int| 0 <= k < s.len() ==> #[trigger] child_map(s, e).contains_key(s[k].id)
            && child_map(s, e)[s[k].id] == s[k].children,
        forall|j: int| 0 <= j < e.len() ==> #[trigger] child_map(s, e).contains_key(e[j].id)
            && child_map(s, e)[e[j].id] == e[j].children,
        forall|x: u64| #[trigger] child_map(s, e).contains_key(x) <==> open_ids(s).contains(x) || ids_of(e).contains(x),
{
    let g = child_map(s, e);
    assert forall|k: int| 0 <= k < s.len() implies #[trigger] g.contains_key(s[k].id) && g[s[k].id] == s[k].children by {
        let x = s[k].id;
        assert(open_ids(s).contains(x));
        let k2 = choose|k2: int| 0 <= k2 < s.len() && #[trigger] s[k2].id == x;
        assert(k2 == k);
    }
    assert forall|j: int| 0 <= j < e.len() implies #[trigger] g.contains_key(e[j].id) && g[e[j].id] == e[j].children by {
        let x = e[j].id;
        assert(ids_of(e).contains(x));
        if open_ids(s).contains(x) {
            let k = choose|k: int| 0 <= k < s.len() && #[trigger] s[k].id == x;
            assert(s[k].id != e[j].id);
        }
        let j2 = choose|j2: int| 0 <= j2 < e.len() && #[trigger] e[j2].id == x;
        assert(j2 == j);
    }
}

/// A frame starts in a state that keeps the tree invariant.
pub proof fn lemma_frame_start_keeps_shape(v: BuilderState)
    requires
        is_frame_start(v),
    ensures
        tree_invariant(v),
{
    lemma_child_map_lookup(v.stack, v.emitted);
    let g = child_map(v.stack, v.emitted);
    assert forall|x: u64| #[trigger] g.contains_key(x) implies x == ROOT_NODE_ID && g[x] == Seq::<u64>::empty() by {
        if open_ids(v.stack).contains(x) {
            let k = choose|k: int| 0 <= k < v.stack.len() && #[trigger] v.stack[k].id == x;
            assert(k == 0);
        } else {
            let j = choose|j: int| 0 <= j < v.emitted.len() && #[trigger] v.emitted[j].id == x;
        }
    }
    assert(v.seen.contains(ROOT_NODE_ID));
}

proof fn lemma_reach_transfer(
    g: Map<u64, Seq<u64>>,
    roots: Set<u64>,
    g2: Map<u64, Seq<u64>>,
    roots2: Set<u64>,
    extra: Set<u64>,
    x: u64,
)
    requires
        forall|s: Set<u64>| #[trigger] closed_under(g2, roots2, s) ==> closed_under(g, roots, s.union(extra)),
        reachable(g, roots).contains(x),
        !extra.contains(x),
    ensures
        reachable(g2, roots2).contains(x),
{
    assert forall|s: Set<u64>| #[trigger] closed_under(g2, roots2, s) implies s.contains(x) by {
        assert(closed_under(g, roots, s.union(extra)));
    }
}

/// Pushing a node that has no children of its own keeps the tree invariant.
pub proof fn lemma_push_keeps_shape(v: BuilderState, id: u64, node: accesskit::Node)
    requires
        tree_invariant(v),
        node_children(node) == Seq::<u64>::empty(),
    ensures
        tree_invariant(push_spec(v, id, node).0),
{
    let (w, ok) = push_spec(v, id, node);
    if ok {
        lemma_child_map_lookup(v.stack, v.emitted);
        let n = v.stack.len() as int;
        assert(!v.stack[n - 1].suppressed);
        assert forall|k: int| 0 <= k < n implies #[trigger] v.stack[k].id != id by {
            assert(v.seen.contains(v.stack[k].id));
        }
        assert forall|j: int| 0 <= j < v.emitted.len() implies #[trigger] v.emitted[j].id != id by {
            assert(v.seen.contains(v.emitted[j].id));
        }
        assert(w.stack[n].id == id);
        assert forall|a: int| 0 <= a < n implies #[trigger] w.stack[a] == v.stack[a] by {}
        assert(ids_distinct(w.stack, w.emitted));
        lemma_child_map_lookup(w.stack, w.emitted);
        let g = child_map(v.stack, v.emitted);
        let g2 = child_map(w.stack, w.emitted);
        assert(!g.contains_key(id)) by {
            if open_ids(v.stack).contains(id) {
                let k = choose|k: int| 0 <= k < v.stack.len() && #[trigger] v.stack[k].id == id;
            }
            if ids_of(v.emitted).contains(id) {
                let j = choose|j: int| 0 <= j < v.emitted.len() && #[trigger] v.emitted[j].id == id;
            }
        }
        assert forall|x: u64| #[trigger] g2.contains_key(x) implies (x == id && g2[x] == Seq::<u64>::empty())
            || (g.contains_key(x) && g2[x] == g[x]) by {
            if open_ids(w.stack).contains(x) {
                let k = choose|k: int| 0 <= k < w.stack.len() && #[trigger] w.stack[k].id == x;
                if k < n {
                    assert(v.stack[k].id == x);
                }
            } else {
                let j = choose|j: int| 0 <= j < w.emitted.len() && #[trigger] w.emitted[j].id == x;
            }
        }
        assert forall|x: u64| #[trigger] g.contains_key(x) implies g2.contains_key(x) by {
            if open_ids(v.stack).contains(x) {
                let k = choose|k: int| 0 <= k < v.stack.len() && #[trigger] v.stack[k].id == x;
                assert(w.stack[k].id == x);
            } else {
                let j = choose|j: int| 0 <= j < v.emitted.len() && #[trigger] v.emitted[j].id == x;
                assert(w.emitted[j].id == x);
            }
        }
        assert(children_disciplined(g2, ids_of(w.emitted))) by {
            assert forall|x: u64, y: u64, c: u64| g2.contains_key(x) && g2.contains_key(y) && x != y
                && #[trigger] g2[x].contains(c) implies !#[trigger] g2[y].contains(c) by {
                if x != id && y != id {
                    assert(g[x].contains(c));
                }
            }
        }
        assert forall|x: u64| #[trigger] ids_of(w.emitted).contains(x) implies reachable(g2, open_ids(w.stack)).contains(x) by {
            assert forall|s: Set<u64>| #[trigger] closed_under(g2, open_ids(w.stack), s)
                implies closed_under(g, open_ids(v.stack), s.union(Set::empty())) by {
                assert forall|y: u64| open_ids(v.stack).contains(y) implies #[trigger] s.union(Set::empty()).contains(y) by {
                    let k = choose|k: int| 0 <= k < v.stack.len() && #[trigger] v.stack[k].id == y;
                    assert(w.stack[k].id == y);
                    assert(open_ids(w.stack).contains(y));
                }
                assert forall|y: u64, c: u64| #[trigger] s.union(Set::empty()).contains(y) && g.contains_key(y)
                    && #[trigger] g[y].contains(c) implies s.union(Set::empty()).contains(c) by {
                    assert(s.contains(y));
                    assert(g2[y] == g[y]);
                }
            }
            lemma_reach_transfer(g, open_ids(v.stack), g2, open_ids(w.stack), Set::empty(), x);
        }
    }
}

/// Closing a node while more than the root is open keeps the tree invariant.
pub proof fn lemma_pop_keeps_shape(v: BuilderState)
    requires
        tree_invariant(v),
        v.stack.len() > 1,
    ensures
        tree_invariant(pop_spec(v)),
{
    let w = pop_spec(v);
    let n = v.stack.len() as int;
    let t = v.stack[n - 1];
    let par = v.stack[n - 2];
    lemma_child_map_lookup(v.stack, v.emitted);
    let g = child_map(v.stack, v.emitted);
    assert(!par.suppressed);
    assert forall|j: int| 0 <= j < v.emitted.len() implies #[trigger] v.emitted[j].id != t.id by {
        assert(v.stack[n - 1].id != v.emitted[j].id);
    }
    assert(!ids_of(v.emitted).contains(t.id)) by {
        if ids_of(v.emitted).contains(t.id) {
            let j = choose|j: int| 0 <= j < v.emitted.len() && #[trigger] v.emitted[j].id == t.id;
        }
    }
    // No child list names the closed node: children are emitted nodes.
    assert forall|x: u64| #[trigger] g.contains_key(x) implies !g[x].contains(t.id) by {
        if g[x].contains(t.id) {
            let c = choose|c: int| 0 <= c < g[x].len() && g[x][c] == t.id;
            assert(ids_of(v.emitted).contains(g[x][c]));
        }
    }
    assert forall|a: int| 0 <= a < n - 2 implies #[trigger] w.stack[a] == v.stack[a] by {}
    if t.suppressed {
        assert(w.stack =~= v.stack.drop_last());
        assert(w.emitted == v.emitted);
        assert(ids_distinct(w.stack, w.emitted));
        lemma_child_map_lookup(w.stack, w.emitted);
        let g2 = child_map(w.stack, w.emitted);
        assert forall|x: u64| #[trigger] g2.contains_key(x) implies g.contains_key(x) && g2[x] == g[x] && x != t.id by {
            if open_ids(w.stack).contains(x) {
                let k = choose|k: int| 0 <= k < w.stack.len() && #[trigger] w.stack[k].id == x;
                assert(v.stack[k].id == x);
                assert(v.stack[k].id != v.stack[n - 1].id);
            } else {
                let j = choose|j: int| 0 <= j < w.emitted.len() && #[trigger] w.emitted[j].id == x;
            }
        }
        assert forall|x: u64| #[trigger] g.contains_key(x) && x != t.id implies g2.contains_key(x) by {
            if open_ids(v.stack).contains(x) {
                let k = choose|k: int| 0 <= k < v.stack.len() && #[trigger] v.stack[k].id == x;
                assert(k != n - 1);
                assert(w.stack[k].id == x);
            } else {
                let j = choose|j: int| 0 <= j < v.emitted.len() && #[trigger] v.emitted[j].id == x;
                assert(w.emitted[j].id == x);
            }
        }
        assert(children_disciplined(g2, ids_of(w.emitted))) by {
            assert forall|x: u64, y: u64, c: u64| g2.contains_key(x) && g2.contains_key(y) && x != y
                && #[trigger] g2[x].contains(c) implies !#[trigger] g2[y].contains(c) by {
                assert(g[x].contains(c));
            }
        }
        let extra = Set::<u64>::empty().insert(t.id);
        assert forall|x: u64| #[trigger] ids_of(w.emitted).contains(x) implies reachable(g2, open_ids(w.stack)).contains(x) by {
            assert forall|s: Set<u64>| #[trigger] closed_under(g2, open_ids(w.stack), s)
                implies closed_under(g, open_ids(v.stack), s.union(extra)) by {
                assert forall|y: u64| open_ids(v.stack).contains(y) implies #[trigger] s.union(extra).contains(y) by {
                    let k = choose|k: int| 0 <= k < v.stack.len() && #[trigger] v.stack[k].id == y;
                    if k < n - 1 {
                        assert(w.stack[k].id == y);
                        assert(open_ids(w.stack).contains(y));
                    }
                }
                assert forall|y: u64, c: u64| #[trigger] s.union(extra).contains(y) && g.contains_key(y)
                    && #[trigger] g[y].contains(c) implies s.union(extra).contains(c) by {
                    if y == t.id {
                        assert(g[y] == t.children);
                        assert(t.children.len() == 0);
                    } else {
                        assert(s.contains(y));
                        assert(g2[y] == g[y]);
                    }
                }
            }
            lemma_reach_transfer(g, open_ids(v.stack), g2, open_ids(w.stack), extra, x);
        }
    } else {
        let par2 = OpenNode { node: crate::node::node_with_child(par.node, t.id), children: par.children.push(t.id), ..par };
        assert(w.stack =~= v.stack.drop_last().update(n - 2, par2));
        let tn = TreeNode { id: t.id, node: t.node, children: t.children };
        assert(w.emitted =~= v.emitted.push(tn));
        assert forall|a: int, b: int| 0 <= a < w.stack.len() && 0 <= b < w.emitted.len()
            implies #[trigger] w.stack[a].id != #[trigger] w.emitted[b].id by {
            assert(w.stack[a].id == v.stack[a].id);
            if b < v.emitted.len() {
                assert(w.emitted[b] == v.emitted[b]);
            }
        }
        assert forall|a: int, b: int| 0 <= a < w.emitted.len() && 0 <= b < w.emitted.len() && a != b
            implies #[trigger] w.emitted[a].id != #[trigger] w.emitted[b].id by {
            if a < v.emitted.len() {
                assert(w.emitted[a] == v.emitted[a]);
            }
            if b < v.emitted.len() {
                assert(w.emitted[b] == v.emitted[b]);
            }
        }
        assert forall|a: int, b: int| 0 <= a < w.stack.len() && 0 <= b < w.stack.len() && a != b
            implies #[trigger] w.stack[a].id != #[trigger] w.stack[b].id by {
            assert(w.stack[a].id == v.stack[a].id);
            assert(w.stack[b].id == v.stack[b].id);
        }
        assert(ids_distinct(w.stack, w.emitted));
        lemma_child_map_lookup(w.stack, w.emitted);
        let g2 = child_map(w.stack, w.emitted);
        assert forall|j: int| 0 <= j < v.emitted.len() implies #[trigger] w.emitted[j] == v.emitted[j] by {}
        assert(ids_of(w.emitted) =~= ids_of(v.emitted).insert(t.id)) by {
            assert forall|x: u64| #[trigger] ids_of(w.emitted).contains(x) <==> ids_of(v.emitted).insert(t.id).contains(x) by {
                if ids_of(w.emitted).contains(x) {
                    let j = choose|j: int| 0 <= j < w.emitted.len() && #[trigger] w.emitted[j].id == x;
                    if j < v.emitted.len() {
                        assert(v.emitted[j].id == x);
                    }
                }
                if ids_of(v.emitted).contains(x) {
                    let j = choose|j: int| 0 <= j < v.emitted.len() && #[trigger] v.emitted[j].id == x;
                    assert(w.emitted[j].id == x);
                }
                if x == t.id {
                    assert(w.emitted[v.emitted.len() as int].id == x);
                }
            }
        }
        // The child map changes only at the parent, which gains the closed node.
        assert forall|x: u64| #[trigger] g2.contains_key(x) <==> g.contains_key(x) by {
            if g2.contains_key(x) && open_ids(w.stack).contains(x) {
                let k = choose|k: int| 0 <= k < w.stack.len() && #[trigger] w.stack[k].id == x;
                assert(v.stack[k].id == x);
            }
            if g.contains_key(x) && open_ids(v.stack).contains(x) {
                let k = choose|k: int| 0 <= k < v.stack.len() && #[trigger] v.stack[k].id == x;
                if k < n - 1 {
                    assert(w.stack[k].id == x);
                }
            }
        }
        assert forall|x: u64| #[trigger] g2.contains_key(x) implies g2[x] == (if x == par.id { par.children.push(t.id) } else { g[x] }) by {
            if open_ids(w.stack).contains(x) {
                let k = choose|k: int| 0 <= k < w.stack.len() && #[trigger] w.stack[k].id == x;
                if k < n - 2 {
                    assert(v.stack[k].id == x);
                    assert(v.stack[k].id != v.stack[n - 2].id);
                }
            } else {
                let j = choose|j: int| 0 <= j < w.emitted.len() && #[trigger] w.emitted[j].id == x;
                if j < v.emitted.len() {
                    assert(v.emitted[j].id == x);
                    assert(v.emitted[j].id != v.stack[n - 2].id);
                } else {
                    assert(x == t.id);
                    assert(v.stack[n - 1].id != v.stack[n - 2].id);
                }
            }
        }
        assert(g2.contains_key(par.id) && g.contains_key(par.id));
        assert(children_disciplined(g2, ids_of(w.emitted))) by {
            assert forall|x: u64, c: int| g2.contains_key(x) && 0 <= c < g2[x].len() implies ids_of(w.emitted).contains(#[trigger] g2[x][c]) by {
                if x == par.id && c == par.children.len() {
                } else {
                    assert(ids_of(v.emitted).contains(g[x][c]));
                }
            }
            assert forall|x: u64| #[trigger] g2.contains_key(x) implies g2[x].no_duplicates() by {
                if x == par.id {
                    assert(g[x].no_duplicates());
                    assert forall|a: int, b: int| 0 <= a < g2[x].len() && 0 <= b < g2[x].len() && a != b
                        implies g2[x][a] != g2[x][b] by {
                        if a < par.children.len() && b < par.children.len() {
                        } else if a < par.children.len() {
                            assert(g[x].contains(g2[x][a]));
                        } else {
                            assert(g[x].contains(g2[x][b]));
                        }
                    }
                }
            }
            assert forall|x: u64, y: u64, c: u64| g2.contains_key(x) && g2.contains_key(y) && x != y
                && #[trigger] g2[x].contains(c) implies !#[trigger] g2[y].contains(c) by {
                if c == t.id {
                    if x != par.id {
                        assert(g[x].contains(t.id));
                    }
                    if y != par.id {
                        assert(!g[y].contains(t.id));
                    }
                } else {
                    if x == par.id {
                        let i = choose|i: int| 0 <= i < g2[x].len() && g2[x][i] == c;
                        assert(g[x].contains(c)) by { assert(g[x][i] == c); }
                    } else {
                        assert(g[x].contains(c));
                    }
                    if y == par.id && g2[y].contains(c) {
                        let i = choose|i: int| 0 <= i < g2[y].len() && g2[y][i] == c;
                        assert(g[y].contains(c)) by { assert(g[y][i] == c); }
                    }
                }
            }
        }
        assert(g2[par.id].contains(t.id)) by {
            assert(g2[par.id][par.children.len() as int] == t.id);
        }
        assert forall|x: u64| #[trigger] ids_of(w.emitted).contains(x) implies reachable(g2, open_ids(w.stack)).contains(x) by {
            assert forall|s: Set<u64>| #[trigger] closed_under(g2, open_ids(w.stack), s)
                implies closed_under(g, open_ids(v.stack), s.union(Set::empty())) by {
                assert(open_ids(w.stack).contains(par.id)) by {
                    assert(w.stack[n - 2].id == par.id);
                }
                assert(s.contains(par.id));
                assert(g2[par.id].contains(t.id));
                assert(s.contains(t.id));
                assert forall|y: u64| open_ids(v.stack).contains(y) implies #[trigger] s.union(Set::empty()).contains(y) by {
                    let k = choose|k: int| 0 <= k < v.stack.len() && #[trigger] v.stack[k].id == y;
                    if k < n - 1 {
                        assert(w.stack[k].id == y);
                        assert(open_ids(w.stack).contains(y));
                    }
                }
                assert forall|y: u64, c: u64| #[trigger] s.union(Set::empty()).contains(y) && g.contains_key(y)
                    && #[trigger] g[y].contains(c) implies s.union(Set::empty()).contains(c) by {
                    assert(s.contains(y));
                    if y == par.id {
                        let i = choose|i: int| 0 <= i < g[y].len() && g[y][i] == c;
                        assert(g2[y][i] == c);
                    }
                    assert(g2[y].contains(c));
                }
            }
            if x != t.id {
                lemma_reach_transfer(g, open_ids(v.stack), g2, open_ids(w.stack), Set::empty(), x);
            } else {
                assert forall|s: Set<u64>| #[trigger] closed_under(g2, open_ids(w.stack), s) implies s.contains(x) by {
                    assert(open_ids(w.stack).contains(par.id)) by {
                        assert(w.stack[n - 2].id == par.id);
                    }
                    assert(s.contains(par.id));
                    assert(g2[par.id].contains(t.id));
                }
            }
        }
        assert(v.seen.contains(t.id));
    }
}

proof fn lemma_remove_ids_no_duplicates(s: Seq<u64>, p: Set<u64>)
    requires
        s.no_duplicates(),
    ensures
        remove_ids(s, p).no_duplicates(),
    decreases s.len(),
{
    if s.len() > 0 {
        let d = s.drop_last();
        assert(d.no_duplicates()) by {
            assert forall|a: int, b: int| 0 <= a < d.len() && 0 <= b < d.len() && a != b implies d[a] != d[b] by {
                assert(d[a] == s[a] && d[b] == s[b]);
            }
        }
        lemma_remove_ids_no_duplicates(d, p);
        lemma_remove_ids_members(d, p);
        let r = remove_ids(d, p);
        if !p.contains(s.last()) {
            assert forall|a: int, b: int| 0 <= a < r.len() + 1 && 0 <= b < r.len() + 1 && a != b
                implies r.push(s.last())[a] != r.push(s.last())[b] by {
                if a < r.len() && b == r.len() {
                    let k = choose|k: int| 0 <= k < d.len() && d[k] == r[a];
                    assert(s[k] == r[a]);
                    assert(s[s.len() - 1] == s.last());
                } else if b < r.len() && a == r.len() {
                    let k = choose|k: int| 0 <= k < d.len() && d[k] == r[b];
                    assert(s[k] == r[b]);
                    assert(s[s.len() - 1] == s.last());
                }
            }
        }
    }
}

proof fn lemma_remove_ids_all_removed(s: Seq<u64>, p: Set<u64>)
    requires
        forall|i: int| 0 <= i < s.len() ==> p.contains(#[trigger] s[i]),
    ensures
        remove_ids(s, p).len() == 0,
    decreases s.len(),
{
    if s.len() > 0 {
        assert(p.contains(s[s.len() - 1]));
        assert forall|i: int| 0 <= i < s.drop_last().len() implies p.contains(#[trigger] s.drop_last()[i]) by {
            assert(s.drop_last()[i] == s[i]);
        }
        lemma_remove_ids_all_removed(s.drop_last(), p);
    }
}

/// No two nodes of `e` share an ID.
pub open spec fn emitted_distinct(e: Seq<TreeNode>) -> bool {
    forall|a: int, b: int| 0 <= a < e.len() && 0 <= b < e.len() && a != b ==> #[trigger] e[a].id != #[trigger] e[b].id
}

proof fn lemma_emitted_map_distinct(e: Seq<TreeNode>)
    requires
        emitted_distinct(e),
    ensures
        forall|j: int| 0 <= j < e.len() ==> #[trigger] emitted_map(e).contains_key(e[j].id)
            && emitted_map(e)[e[j].id] == e[j],
    decreases e.len(),
{
    if e.len() > 0 {
        let d = e.drop_last();
        assert forall|a: int, b: int| 0 <= a < d.len() && 0 <= b < d.len() && a != b implies #[trigger] d[a].id != #[trigger] d[b].id by {
            assert(d[a] == e[a] && d[b] == e[b]);
        }
        lemma_emitted_map_distinct(d);
        assert forall|j: int| 0 <= j < e.len() implies #[trigger] emitted_map(e).contains_key(e[j].id)
            && emitted_map(e)[e[j].id] == e[j] by {
            assert(e.last() == e[e.len() - 1]);
            if j < e.len() - 1 {
                assert(d[j] == e[j]);
                assert(emitted_map(d).contains_key(d[j].id));
                assert(e[j].id != e[e.len() - 1].id);
            }
        }
    }
}

/// `x` is what pruning `p` left of some node of `e`.
pub open spec fn pruned_from(e: Seq<TreeNode>, p: Set<u64>, x: TreeNode) -> bool {
    exists|j: int| 0 <= j < e.len() && #[trigger] e[j].id == x.id && !p.contains(x.id) && x.children == remove_ids(e[j].children, p)
}

proof fn lemma_prune_emitted_facts(e: Seq<TreeNode>, p: Set<u64>)
    requires
        emitted_distinct(e),
    ensures
        emitted_distinct(prune_emitted(e, p)),
        forall|a: int| 0 <= a < prune_emitted(e, p).len() ==> pruned_from(e, p, #[trigger] prune_emitted(e, p)[a]),
        forall|j: int| 0 <= j < e.len() && !p.contains(#[trigger] e[j].id) ==> ids_of(prune_emitted(e, p)).contains(e[j].id),
    decreases e.len(),
{
    if e.len() > 0 {
        let d = e.drop_last();
        assert forall|a: int, b: int| 0 <= a < d.len() && 0 <= b < d.len() && a != b implies #[trigger] d[a].id != #[trigger] d[b].id by {
            assert(d[a] == e[a] && d[b] == e[b]);
        }
        lemma_prune_emitted_facts(d, p);
        let r = prune_emitted(d, p);
        let last = e[e.len() - 1];
        assert(e.last() == last);
        assert forall|a: int| 0 <= a < r.len() implies pruned_from(e, p, #[trigger] r[a]) && r[a].id != last.id by {
            assert(pruned_from(d, p, r[a]));
            let j = choose|j: int| 0 <= j < d.len() && #[trigger] d[j].id == r[a].id && !p.contains(r[a].id)
                && r[a].children == remove_ids(d[j].children, p);
            assert(d[j] == e[j]);
        }
        if p.contains(last.id) {
            assert(prune_emitted(e, p) == r);
            assert forall|j: int| 0 <= j < e.len() && !p.contains(#[trigger] e[j].id) implies ids_of(r).contains(e[j].id) by {
                assert(j < e.len() - 1);
                assert(d[j] == e[j]);
            }
        } else {
            let x = TreeNode {
                node: strip_node(last.node, last.children, p),
                children: remove_ids(last.children, p),
                ..last
            };
            let q = r.push(x);
            assert(prune_emitted(e, p) == q);
            assert forall|a: int, b: int| 0 <= a < q.len() && 0 <= b < q.len() && a != b implies #[trigger] q[a].id != #[trigger] q[b].id by {
                if a < r.len() && b < r.len() {
                    assert(q[a] == r[a] && q[b] == r[b]);
                } else if a < r.len() {
                    assert(q[a] == r[a]);
                } else {
                    assert(q[b] == r[b]);
                }
            }
            assert forall|a: int| 0 <= a < q.len() implies pruned_from(e, p, #[trigger] q[a]) by {
                if a < r.len() {
                    assert(q[a] == r[a]);
                } else {
                    assert(e[e.len() - 1].id == q[a].id);
                }
            }
            assert forall|j: int| 0 <= j < e.len() && !p.contains(#[trigger] e[j].id) implies ids_of(q).contains(e[j].id) by {
                if j < e.len() - 1 {
                    assert(d[j] == e[j]);
                    let a = choose|a: int| 0 <= a < r.len() && #[trigger] r[a].id == e[j].id;
                    assert(q[a] == r[a]);
                } else {
                    assert(q[r.len() as int].id == e[j].id);
                }
            }
        }
    }
}

/// Suppressing the innermost open node keeps the tree invariant.
pub proof fn lemma_suppress_keeps_shape(v: BuilderState, id: u64)
    requires
        tree_invariant(v),
    ensures
        tree_invariant(suppress_spec(v, id).0),
{
    let (w, ok) = suppress_spec(v, id);
    if !ok {
        return;
    }
    let n = v.stack.len() as int;
    let top = v.stack[n - 1];
    let e = v.emitted;
    let marked = BuilderState { stack: v.stack.update(n - 1, OpenNode { suppressed: true, ..top }), ..v };
    let m = emitted_map(e);
    let seeds = top.children;
    let p = pruned_ids(marked, id);
    assert(top_children(marked) == seeds);
    assert(p == subtree_ids(m, id, seeds));
    assert(w == prune_spec(marked, p));
    lemma_child_map_lookup(v.stack, e);
    let g = child_map(v.stack, e);
    assert(g[top.id] == seeds);
    assert(emitted_distinct(e));
    lemma_emitted_map_distinct(e);
    lemma_prune_emitted_facts(e, p);
    // What `p` holds.
    assert(p.contains(id)) by {
        assert forall|t: Set<u64>| #[trigger] closed_with_seeds(m, id, seeds, t) implies t.contains(id) by {}
    }
    assert forall|i: int| 0 <= i < seeds.len() implies p.contains(#[trigger] seeds[i]) by {
        assert forall|t: Set<u64>| #[trigger] closed_with_seeds(m, id, seeds, t) implies t.contains(seeds[i]) by {}
    }
    assert forall|x: u64, c: u64| p.contains(x) && #[trigger] is_child_in(m, id, x, c) implies p.contains(c) by {
        assert forall|t: Set<u64>| #[trigger] closed_with_seeds(m, id, seeds, t) implies t.contains(c) by {
            assert(t.contains(x));
        }
    }
    let s0 = ids_of(e).insert(id);
    assert(closed_with_seeds(m, id, seeds, s0)) by {
        assert forall|i: int| 0 <= i < seeds.len() implies s0.contains(#[trigger] seeds[i]) by {
            assert(ids_of(e).contains(g[top.id][i]));
        }
        assert forall|x: u64, c: u64| #[trigger] s0.contains(x) && #[trigger] is_child_in(m, id, x, c) implies s0.contains(c) by {
            let j = choose|j: int| 0 <= j < e.len() && #[trigger] e[j].id == x;
            assert(m[x] == e[j]);
            let i = choose|i: int| 0 <= i < m[x].children.len() && m[x].children[i] == c;
            assert(g[e[j].id] == e[j].children);
            assert(ids_of(e).contains(g[x][i]));
        }
    }
    assert forall|x: u64| #[trigger] p.contains(x) implies x == id || ids_of(e).contains(x) by {
        assert(s0.contains(x));
    }
    // The open nodes below the innermost are untouched by `p`.
    assert forall|k: int| 0 <= k < n - 1 implies !p.contains(#[trigger] v.stack[k].id) by {
        assert(v.stack[k].id != v.stack[n - 1].id);
        if ids_of(e).contains(v.stack[k].id) {
            let j = choose|j: int| 0 <= j < e.len() && #[trigger] e[j].id == v.stack[k].id;
        }
    }
    // The new state.
    assert forall|k: int| 0 <= k < n implies #[trigger] w.stack[k].id == v.stack[k].id
        && w.stack[k].children == remove_ids(v.stack[k].children, p)
        && w.stack[k].suppressed == (k == n - 1 || v.stack[k].suppressed) by {}
    assert(w.stack.len() == n);
    assert(w.emitted == prune_emitted(e, p));
    lemma_remove_ids_all_removed(seeds, p);
    assert(w.stack[n - 1].children.len() == 0);
    assert forall|a: int, b: int| 0 <= a < w.stack.len() && 0 <= b < w.emitted.len()
        implies #[trigger] w.stack[a].id != #[trigger] w.emitted[b].id by {
        assert(pruned_from(e, p, w.emitted[b]));
        let j = choose|j: int| 0 <= j < e.len() && #[trigger] e[j].id == w.emitted[b].id && !p.contains(w.emitted[b].id)
            && w.emitted[b].children == remove_ids(e[j].children, p);
        assert(v.stack[a].id != e[j].id);
    }
    assert forall|a: int, b: int| 0 <= a < w.stack.len() && 0 <= b < w.stack.len() && a != b
        implies #[trigger] w.stack[a].id != #[trigger] w.stack[b].id by {
        assert(v.stack[a].id != v.stack[b].id);
    }
    assert(ids_distinct(w.stack, w.emitted));
    lemma_child_map_lookup(w.stack, w.emitted);
    let g2 = child_map(w.stack, w.emitted);
    assert(open_ids(w.stack) =~= open_ids(v.stack)) by {
        assert forall|x: u64| open_ids(w.stack).contains(x) <==> open_ids(v.stack).contains(x) by {
            if open_ids(w.stack).contains(x) {
                let k = choose|k: int| 0 <= k < w.stack.len() && #[trigger] w.stack[k].id == x;
                assert(v.stack[k].id == x);
            }
            if open_ids(v.stack).contains(x) {
                let k = choose|k: int| 0 <= k < v.stack.len() && #[trigger] v.stack[k].id == x;
                assert(w.stack[k].id == x);
            }
        }
    }
    // Each remaining node keeps its children outside `p`.
    assert forall|x: u64| #[trigger] g2.contains_key(x) implies g.contains_key(x) && g2[x] == remove_ids(g[x], p)
        && (x == id || !p.contains(x)) by {
        if open_ids(w.stack).contains(x) {
            let k = choose|k: int| 0 <= k < w.stack.len() && #[trigger] w.stack[k].id == x;
            assert(v.stack[k].id == x);
            assert(g[v.stack[k].id] == v.stack[k].children);
            if k < n - 1 {
                assert(!p.contains(v.stack[k].id));
            }
        } else {
            let a = choose|a: int| 0 <= a < w.emitted.len() && #[trigger] w.emitted[a].id == x;
            assert(pruned_from(e, p, w.emitted[a]));
            let j = choose|j: int| 0 <= j < e.len() && #[trigger] e[j].id == w.emitted[a].id && !p.contains(w.emitted[a].id)
                && w.emitted[a].children == remove_ids(e[j].children, p);
            assert(g[e[j].id] == e[j].children);
            assert(g2[w.emitted[a].id] == w.emitted[a].children);
        }
    }
    assert forall|x: u64| #[trigger] g.contains_key(x) && !p.contains(x) implies g2.contains_key(x) by {
        if open_ids(v.stack).contains(x) {
        } else {
            let j = choose|j: int| 0 <= j < e.len() && #[trigger] e[j].id == x;
            assert(ids_of(w.emitted).contains(e[j].id));
        }
    }
    assert(children_disciplined(g2, ids_of(w.emitted))) by {
        assert forall|x: u64, c: int| g2.contains_key(x) && 0 <= c < g2[x].len() implies ids_of(w.emitted).contains(#[trigger] g2[x][c]) by {
            lemma_remove_ids_members(g[x], p);
            let y = g2[x][c];
            assert(!p.contains(y) && g[x].contains(y));
            let i = choose|i: int| 0 <= i < g[x].len() && g[x][i] == y;
            assert(ids_of(e).contains(g[x][i]));
            let j = choose|j: int| 0 <= j < e.len() && #[trigger] e[j].id == y;
        }
        assert forall|x: u64| #[trigger] g2.contains_key(x) implies g2[x].no_duplicates() by {
            lemma_remove_ids_no_duplicates(g[x], p);
        }
        assert forall|x: u64, y: u64, c: u64| g2.contains_key(x) && g2.contains_key(y) && x != y
            && #[trigger] g2[x].contains(c) implies !#[trigger] g2[y].contains(c) by {
            lemma_remove_ids_members(g[x], p);
            lemma_remove_ids_members(g[y], p);
            let i = choose|i: int| 0 <= i < g2[x].len() && g2[x][i] == c;
            assert(g[x].contains(c));
            if g2[y].contains(c) {
                let i2 = choose|i2: int| 0 <= i2 < g2[y].len() && g2[y][i2] == c;
                assert(g[y].contains(c));
            }
        }
    }
    assert forall|j: int| 0 <= j < w.emitted.len() implies w.seen.contains(#[trigger] w.emitted[j].id) by {
        assert(pruned_from(e, p, w.emitted[j]));
        let i = choose|i: int| 0 <= i < e.len() && #[trigger] e[i].id == w.emitted[j].id && !p.contains(w.emitted[j].id)
            && w.emitted[j].children == remove_ids(e[i].children, p);
        assert(v.seen.contains(e[i].id));
    }
    assert forall|k: int| 0 <= k < w.stack.len() && (k < w.stack.len() - 1 || !w.stack[k].suppressed)
        implies w.seen.contains(#[trigger] w.stack[k].id) by {
        assert(k < n - 1);
        assert(v.seen.contains(v.stack[k].id));
        assert(!p.contains(v.stack[k].id));
    }
    assert forall|k: int| 0 <= k < w.stack.len() - 1 implies !(#[trigger] w.stack[k]).suppressed by {
        assert(!v.stack[k].suppressed);
    }
    // Every remaining emitted node still hangs below an open node.
    assert forall|x: u64| #[trigger] ids_of(w.emitted).contains(x) implies reachable(g2, open_ids(w.stack)).contains(x) by {
        let a = choose|a: int| 0 <= a < w.emitted.len() && #[trigger] w.emitted[a].id == x;
        assert(pruned_from(e, p, w.emitted[a]));
        let j = choose|j: int| 0 <= j < e.len() && #[trigger] e[j].id == w.emitted[a].id && !p.contains(w.emitted[a].id)
            && w.emitted[a].children == remove_ids(e[j].children, p);
        assert(ids_of(e).contains(x));
        assert forall|t: Set<u64>| #[trigger] closed_under(g2, open_ids(w.stack), t)
            implies closed_under(g, open_ids(v.stack), t.union(p)) by {
            assert forall|y: u64| open_ids(v.stack).contains(y) implies #[trigger] t.union(p).contains(y) by {
                assert(open_ids(w.stack).contains(y));
            }
            assert forall|y: u64, c: u64| #[trigger] t.union(p).contains(y) && g.contains_key(y)
                && #[trigger] g[y].contains(c) implies t.union(p).contains(c) by {
                if p.contains(y) {
                    if y == id {
                        let i = choose|i: int| 0 <= i < g[y].len() && g[y][i] == c;
                        assert(seeds[i] == c);
                    } else {
                        assert(ids_of(e).contains(y));
                        let j2 = choose|j2: int| 0 <= j2 < e.len() && #[trigger] e[j2].id == y;
                        assert(m.contains_key(e[j2].id));
                        assert(m[y] == e[j2]);
                        assert(g[e[j2].id] == e[j2].children);
                        assert(is_child_in(m, id, y, c));
                    }
                } else {
                    assert(t.contains(y));
                    assert(g2.contains_key(y));
                    lemma_remove_ids_complete(g[y], p);
                    if !p.contains(c) {
                        assert(remove_ids(g[y], p).contains(c));
                        assert(g2[y].contains(c));
                    }
                }
            }
        }
        lemma_reach_transfer(g, open_ids(v.stack), g2, open_ids(w.stack), p, x);
    }
}

proof fn lemma_same_skeleton(v: BuilderState, w: BuilderState)
    requires
        tree_invariant(v),
        w.stack.len() == v.stack.len(),
        forall|k: int| 0 <= k < v.stack.len() ==> (#[trigger] w.stack[k]).id == v.stack[k].id
            && w.stack[k].children == v.stack[k].children && w.stack[k].suppressed == v.stack[k].suppressed,
        w.emitted == v.emitted,
        w.seen == v.seen,
    ensures
        tree_invariant(w),
{
    let n = v.stack.len() as int;
    assert(w.stack[0].id == v.stack[0].id);
    assert(w.stack[n - 1] == w.stack.last() && v.stack[n - 1] == v.stack.last());
    assert forall|a: int, b: int| 0 <= a < w.stack.len() && 0 <= b < w.stack.len() && a != b
        implies #[trigger] w.stack[a].id != #[trigger] w.stack[b].id by {
        assert(v.stack[a].id != v.stack[b].id);
    }
    assert forall|a: int, b: int| 0 <= a < w.stack.len() && 0 <= b < w.emitted.len()
        implies #[trigger] w.stack[a].id != #[trigger] w.emitted[b].id by {
        assert(v.stack[a].id != v.emitted[b].id);
    }
    lemma_child_map_lookup(v.stack, v.emitted);
    lemma_child_map_lookup(w.stack, w.emitted);
    assert(open_ids(w.stack) =~= open_ids(v.stack)) by {
        assert forall|x: u64| open_ids(w.stack).contains(x) <==> open_ids(v.stack).contains(x) by {
            if open_ids(w.stack).contains(x) {
                let k = choose|k: int| 0 <= k < w.stack.len() && #[trigger] w.stack[k].id == x;
                assert(v.stack[k].id == x);
            }
            if open_ids(v.stack).contains(x) {
                let k = choose|k: int| 0 <= k < v.stack.len() && #[trigger] v.stack[k].id == x;
                assert(w.stack[k].id == x);
            }
        }
    }
    let g = child_map(v.stack, v.emitted);
    let g2 = child_map(w.stack, w.emitted);
    assert(g2 =~= g) by {
        assert forall|x: u64| #[trigger] g2.contains_key(x) implies g2[x] == g[x] by {
            if open_ids(w.stack).contains(x) {
                let k = choose|k: int| 0 <= k < w.stack.len() && #[trigger] w.stack[k].id == x;
                assert(v.stack[k].id == x);
            } else {
                let j = choose|j: int| 0 <= j < w.emitted.len() && #[trigger] w.emitted[j].id == x;
            }
        }
    }
    assert forall|k: int| 0 <= k < w.stack.len() - 1 implies !(#[trigger] w.stack[k]).suppressed by {
        assert(!v.stack[k].suppressed);
    }
    assert forall|k: int| 0 <= k < w.stack.len() && (k < w.stack.len() - 1 || !w.stack[k].suppressed)
        implies w.seen.contains(#[trigger] w.stack[k].id) by {
        assert(v.seen.contains(v.stack[k].id));
    }
}

/// Setting the bounds of the innermost open node keeps the tree invariant.
pub proof fn lemma_bounds_keep_shape(v: BuilderState, id: u64, bounds: accesskit::Rect)
    requires
        tree_invariant(v),
    ensures
        tree_invariant(update_bounds_spec(v, id, bounds).0),
{
    let w = update_bounds_spec(v, id, bounds).0;
    assert forall|k: int| 0 <= k < v.stack.len() implies (#[trigger] w.stack[k]).id == v.stack[k].id
        && w.stack[k].children == v.stack[k].children && w.stack[k].suppressed == v.stack[k].suppressed by {}
    lemma_same_skeleton(v, w);
}

/// The tree invariant does not depend on ambient suppression or on the focus.
pub proof fn lemma_shape_ignores_suppression_depth_and_focus(v: BuilderState, ambient: nat, focus: u64, focus_set: bool)
    requires
        tree_invariant(v),
    ensures
        tree_invariant(BuilderState { ambient, focus, focus_set, ..v }),
{
}

/// A finished tree: IDs are distinct; the root is in it and is nobody's child;
/// every child reference names a node of the tree and no node is named as a child
/// twice; every node but the root is some node's child; and every node is
/// reachable from the root.
pub open spec fn is_rooted_tree(e: Seq<TreeNode>) -> bool {
    &&& emitted_distinct(e)
    &&& ids_of(e).contains(ROOT_NODE_ID)
    &&& children_disciplined(child_map(Seq::empty(), e), ids_of(e))
    &&& forall|j: int, c: int| 0 <= j < e.len() && 0 <= c < e[j].children.len() ==> #[trigger] e[j].children[c] != ROOT_NODE_ID
    &&& forall|j: int| 0 <= j < e.len() && #[trigger] e[j].id != ROOT_NODE_ID ==> exists|i: int, c: int|
        0 <= i < e.len() && 0 <= c < e[i].children.len() && #[trigger] e[i].children[c] == e[j].id
    &&& forall|x: u64| #[trigger] ids_of(e).contains(x) ==> reachable(child_map(Seq::empty(), e), Set::empty().insert(ROOT_NODE_ID)).contains(x)
}

proof fn lemma_last_pop_gives_tree(v: BuilderState)
    requires
        tree_invariant(v),
        v.stack.len() == 1,
    ensures
        is_rooted_tree(pop_spec(v).emitted),
{
    let root = v.stack[0];
    let e = v.emitted;
    let e2 = pop_spec(v).emitted;
    let rn = TreeNode { id: root.id, node: root.node, children: root.children };
    assert(v.stack.last() == root);
    assert(e2 == e.push(rn));
    let empty = Seq::<OpenNode>::empty();
    lemma_child_map_lookup(v.stack, e);
    let g = child_map(v.stack, e);
    assert forall|j: int| 0 <= j < e.len() implies #[trigger] e[j].id != ROOT_NODE_ID by {
        assert(v.stack[0].id != e[j].id);
    }
    assert forall|j: int| 0 <= j < e.len() implies #[trigger] e2[j] == e[j] by {}
    assert(e2[e.len() as int] == rn);
    assert(emitted_distinct(e2)) by {
        assert forall|a: int, b: int| 0 <= a < e2.len() && 0 <= b < e2.len() && a != b implies #[trigger] e2[a].id != #[trigger] e2[b].id by {
            if a < e.len() && b < e.len() {
                assert(e[a].id != e[b].id);
            } else if a < e.len() {
                assert(e[a].id != ROOT_NODE_ID);
            } else {
                assert(e[b].id != ROOT_NODE_ID);
            }
        }
    }
    assert(ids_distinct(empty, e2));
    lemma_child_map_lookup(empty, e2);
    let g2 = child_map(empty, e2);
    assert(ids_of(e2).contains(ROOT_NODE_ID)) by {
        assert(e2[e.len() as int].id == ROOT_NODE_ID);
    }
    assert(open_ids(v.stack) =~= Set::<u64>::empty().insert(ROOT_NODE_ID)) by {
        assert forall|x: u64| open_ids(v.stack).contains(x) <==> x == ROOT_NODE_ID by {
            if x == ROOT_NODE_ID {
                assert(v.stack[0].id == x);
            }
        }
    }
    assert(ids_of(e2) =~= ids_of(e).insert(ROOT_NODE_ID)) by {
        assert forall|x: u64| #[trigger] ids_of(e2).contains(x) <==> ids_of(e).insert(ROOT_NODE_ID).contains(x) by {
            if ids_of(e2).contains(x) {
                let j = choose|j: int| 0 <= j < e2.len() && #[trigger] e2[j].id == x;
                if j < e.len() {
                    assert(e[j].id == x);
                }
            }
            if ids_of(e).contains(x) {
                let j = choose|j: int| 0 <= j < e.len() && #[trigger] e[j].id == x;
                assert(e2[j].id == x);
            }
        }
    }
    assert(!ids_of(e).contains(ROOT_NODE_ID)) by {
        if ids_of(e).contains(ROOT_NODE_ID) {
            let j = choose|j: int| 0 <= j < e.len() && #[trigger] e[j].id == ROOT_NODE_ID;
        }
    }
    // The children of the finished tree are those the frame recorded.
    assert(g2 =~= g) by {
        assert forall|x: u64| #[trigger] g2.contains_key(x) <==> g.contains_key(x) by {}
        assert forall|x: u64| #[trigger] g2.contains_key(x) implies g2[x] == g[x] by {
            let j = choose|j: int| 0 <= j < e2.len() && #[trigger] e2[j].id == x;
            if j == e.len() {
                assert(g[v.stack[0].id] == root.children);
            } else {
                assert(g[e[j].id] == e[j].children);
            }
        }
    }
    assert(children_disciplined(g2, ids_of(e2))) by {
        assert forall|x: u64, c: int| g2.contains_key(x) && 0 <= c < g2[x].len() implies ids_of(e2).contains(#[trigger] g2[x][c]) by {
            assert(ids_of(e).contains(g[x][c]));
        }
    }
    assert forall|j: int, c: int| 0 <= j < e2.len() && 0 <= c < e2[j].children.len()
        implies #[trigger] e2[j].children[c] != ROOT_NODE_ID by {
        assert(g2[e2[j].id] == e2[j].children);
        assert(ids_of(e).contains(g[e2[j].id][c]));
    }
    let roots = Set::<u64>::empty().insert(ROOT_NODE_ID);
    assert forall|x: u64| #[trigger] ids_of(e2).contains(x) implies reachable(g2, roots).contains(x) by {
        assert forall|t: Set<u64>| #[trigger] closed_under(g2, roots, t) implies t.contains(x) by {
            assert(t.contains(ROOT_NODE_ID));
            if x != ROOT_NODE_ID {
                assert(ids_of(e).contains(x));
                assert(reachable(g, open_ids(v.stack)).contains(x));
                assert(closed_under(g, open_ids(v.stack), t));
            }
        }
    }
    assert forall|j: int| 0 <= j < e2.len() && #[trigger] e2[j].id != ROOT_NODE_ID implies exists|i: int, c: int|
        0 <= i < e2.len() && 0 <= c < e2[i].children.len() && #[trigger] e2[i].children[c] == e2[j].id by {
        let x = e2[j].id;
        if !exists|i: int, c: int| 0 <= i < e2.len() && 0 <= c < e2[i].children.len() && #[trigger] e2[i].children[c] == x {
            let t = Set::<u64>::new(|y: u64| y != x);
            assert(closed_under(g2, roots, t)) by {
                assert forall|y: u64, c: u64| #[trigger] t.contains(y) && g2.contains_key(y) && #[trigger] g2[y].contains(c)
                    implies t.contains(c) by {
                    let i = choose|i: int| 0 <= i < e2.len() && #[trigger] e2[i].id == y;
                    assert(g2[e2[i].id] == e2[i].children);
                    let k = choose|k: int| 0 <= k < g2[y].len() && g2[y][k] == c;
                    assert(e2[i].children[k] == c);
                }
            }
            assert(ids_of(e2).contains(x));
            assert(reachable(g2, roots).contains(x));
        }
    }
}

proof fn lemma_pop_all_gives_tree(v: BuilderState)
    requires
        tree_invariant(v),
    ensures
        is_rooted_tree(pop_all_spec(v).emitted),
    decreases v.stack.len(),
{
    if v.stack.len() > 1 {
        lemma_pop_keeps_shape(v);
        lemma_pop_all_gives_tree(pop_spec(v));
    } else {
        lemma_last_pop_gives_tree(v);
        assert(pop_spec(v).stack.len() == 0);
        assert(pop_all_spec(pop_spec(v)) == pop_spec(v));
    }
}

/// A finished tree needs no repair: every child reference names a node of it.
proof fn lemma_rooted_tree_needs_no_repair(e: Seq<TreeNode>)
    requires
        is_rooted_tree(e),
    ensures
        repair_nodes(e) == e,
{
    let ids = ids_of(e);
    assert(ids_distinct(Seq::<OpenNode>::empty(), e));
    lemma_child_map_lookup(Seq::<OpenNode>::empty(), e);
    let g = child_map(Seq::<OpenNode>::empty(), e);
    assert forall|j: int| 0 <= j < e.len() implies #[trigger] repair_nodes(e)[j] == e[j] by {
        assert(g[e[j].id] == e[j].children);
        assert forall|i: int| 0 <= i < e[j].children.len() implies ids.contains(#[trigger] e[j].children[i]) by {
            assert(ids.contains(g[e[j].id][i]));
        }
        assert(!has_child_in(e[j].children, ids.complement()));
        lemma_remove_ids_none(e[j].children, ids.complement());
        assert(!has_child_outside(e[j], ids));
    }
    assert(repair_nodes(e) =~= e);
}

/// `finalize` hands out a proper tree. From any state that keeps the tree
/// invariant (every state of a frame that began with `begin_frame`, pushed only
/// nodes without children of their own, and popped only while more than the root
/// was open), the nodes that `finalize` hands out form one tree rooted at the
/// window's root: distinct IDs, one parent for every node but the root, and every
/// node reachable from the root. Nothing in it needs repair.
pub proof fn lemma_finalize_gives_rooted_tree(v: BuilderState)
    requires
        tree_invariant(v),
    ensures
        is_rooted_tree(finalize_closed(v).emitted),
        repair_nodes(finalize_closed(v).emitted) == finalize_closed(v).emitted,
{
    let v0 = BuilderState { ambient: 0, ..v };
    lemma_shape_ignores_suppression_depth_and_focus(v, 0, v.focus, v.focus_set);
    assert(v0 == BuilderState { ambient: 0, focus: v.focus, focus_set: v.focus_set, ..v });
    lemma_pop_all_gives_tree(v0);
    lemma_rooted_tree_needs_no_repair(finalize_closed(v).emitted);
}

} // verus!
