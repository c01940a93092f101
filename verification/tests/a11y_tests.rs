use std::sync::atomic::AtomicBool;
use std::sync::Arc;

use accesskit::{Action, NodeId, Rect, Role};
use gpui::a11y::{A11y, GlobalElementId};
use gpui::builder::{has_update_node, node, A11yNodeBuilder, ROOT_NODE_ID};

/// The node bounds that a window computes from logical bounds and a scale factor.
fn scaled_rect(x: f32, y: f32, width: f32, height: f32, scale: f32) -> Rect {
    Rect {
        x0: (x * scale) as f64,
        y0: (y * scale) as f64,
        x1: ((x + width) * scale) as f64,
        y1: ((y + height) * scale) as f64,
    }
}

fn started() -> A11yNodeBuilder {
    let mut builder = A11yNodeBuilder::new();
    builder.begin_frame();
    builder
}

/// Logical bounds: origin and size.
#[derive(Clone, Copy, Debug, PartialEq)]
struct TestBounds {
    x: f32,
    y: f32,
    width: f32,
    height: f32,
}

fn bounds(x: f32, y: f32, width: f32, height: f32) -> TestBounds {
    TestBounds { x, y, width, height }
}

type Listeners = Vec<(Action, Box<dyn FnMut()>)>;
type TestA11y = A11y<u64, TestBounds, Listeners>;

fn global_id(id: &str) -> GlobalElementId {
    GlobalElementId(vec![id.to_string()])
}

fn new_a11y() -> TestA11y {
    A11y::new(Arc::new(AtomicBool::new(false)), false)
}

#[test]
fn a11y_preserves_unsuppressed_tree_shape() {
    let mut builder = started();

    assert!(builder.push(1, accesskit::Node::new(Role::Button)));
    assert!(builder.push(2, accesskit::Node::new(Role::Label)));
    builder.pop();
    builder.pop();

    let update = builder.finalize();
    assert_eq!(node(&update, ROOT_NODE_ID).children(), &[NodeId(1)]);
    assert_eq!(node(&update, 1).children(), &[NodeId(2)]);
    assert_eq!(node(&update, 2).children(), &[]);
}

#[test]
fn a11y_updates_current_non_root_node_bounds() {
    let mut builder = started();

    assert!(builder.push(1, accesskit::Node::new(Role::Button)));
    assert!(builder.update_current_node_bounds(1, scaled_rect(2., 3., 4., 5., 2.)));
    builder.pop();

    let update = builder.finalize();
    assert_eq!(
        node(&update, 1).bounds(),
        Some(Rect {
            x0: 4.,
            y0: 6.,
            x1: 12.,
            y1: 16.,
        })
    );
}

#[test]
fn a11y_suppresses_current_node_before_finalization() {
    let mut builder = started();

    assert!(builder.push(1, accesskit::Node::new(Role::Button)));
    assert!(builder.suppress_current_node(1));
    assert!(!builder.has_node(1));
    builder.pop();

    let update = builder.finalize();
    assert_eq!(update.nodes.len(), 1);
    assert_eq!(node(&update, ROOT_NODE_ID).children(), &[]);
}

#[test]
fn a11y_skips_descendants_while_current_node_is_suppressed() {
    let mut builder = started();

    assert!(builder.push(1, accesskit::Node::new(Role::Button)));
    assert!(builder.suppress_current_node(1));
    assert!(!builder.push(2, accesskit::Node::new(Role::Label)));
    builder.pop();

    assert!(builder.push(2, accesskit::Node::new(Role::Label)));
    builder.pop();

    let update = builder.finalize();
    assert_eq!(update.nodes.len(), 2);
    assert_eq!(node(&update, ROOT_NODE_ID).children(), &[NodeId(2)]);
    assert_eq!(node(&update, 2).children(), &[]);
}

#[test]
fn a11y_ambient_descendant_suppression_under_root_skips_child_push_without_suppressing_root() {
    let mut builder = started();

    builder.begin_suppressing_descendants();
    assert!(!builder.push(1, accesskit::Node::new(Role::Button)));
    builder.end_suppressing_descendants();

    assert!(builder.has_node(ROOT_NODE_ID));
    assert!(builder.push(1, accesskit::Node::new(Role::Button)));
    builder.pop();

    let update = builder.finalize();
    assert_eq!(update.nodes.len(), 2);
    assert_eq!(node(&update, ROOT_NODE_ID).children(), &[NodeId(1)]);
}

#[test]
fn a11y_id_specific_update_requires_current_node() {
    let mut builder = started();

    assert!(builder.push(1, accesskit::Node::new(Role::Button)));
    assert!(!builder.update_current_node_bounds(2, scaled_rect(2., 3., 4., 5., 2.)));
    builder.pop();

    let update = builder.finalize();
    assert_eq!(node(&update, 1).bounds(), None);
}

#[test]
fn a11y_id_specific_suppress_requires_current_node() {
    let mut builder = started();

    assert!(builder.push(1, accesskit::Node::new(Role::Button)));
    assert!(!builder.suppress_current_node(2));
    assert!(builder.has_node(1));
    assert!(builder.push(2, accesskit::Node::new(Role::Label)));
    builder.pop();
    builder.pop();

    let update = builder.finalize();
    assert_eq!(update.nodes.len(), 3);
    assert_eq!(node(&update, ROOT_NODE_ID).children(), &[NodeId(1)]);
    assert_eq!(node(&update, 1).children(), &[NodeId(2)]);
}

#[test]
fn a11y_suppressing_focused_current_node_removes_focus_from_tree() {
    let mut builder = started();

    assert!(builder.push(1, accesskit::Node::new(Role::Button)));
    builder.set_focus(1);
    assert!(builder.suppress_current_node(1));
    builder.pop();

    let update = builder.finalize();
    assert_eq!(update.focus, ROOT_NODE_ID);
    assert_eq!(update.nodes.len(), 1);
}

#[test]
fn a11y_suppressing_current_node_prunes_already_emitted_descendants() {
    let mut builder = started();

    assert!(builder.push(1, accesskit::Node::new(Role::Button)));
    assert!(builder.push(2, accesskit::Node::new(Role::Label)));
    assert!(builder.push(3, accesskit::Node::new(Role::TextInput)));
    builder.set_focus(3);
    builder.pop();
    builder.pop();

    assert!(builder.suppress_current_node(1));
    assert!(!builder.has_node(1));
    assert!(!builder.has_node(2));
    assert!(!builder.has_node(3));
    builder.pop();

    let update = builder.finalize();
    assert_eq!(update.nodes.len(), 1);
    assert_eq!(update.focus, ROOT_NODE_ID);
    assert_eq!(node(&update, ROOT_NODE_ID).children(), &[]);
    assert!(!has_update_node(&update, 1));
    assert!(!has_update_node(&update, 2));
    assert!(!has_update_node(&update, 3));
}

#[test]
fn a11y_parent_children_do_not_reference_suppressed_descendants() {
    let mut builder = started();

    assert!(builder.push(1, accesskit::Node::new(Role::Button)));
    assert!(builder.push(2, accesskit::Node::new(Role::Label)));
    assert!(builder.suppress_current_node(2));
    builder.pop();

    assert!(builder.push(3, accesskit::Node::new(Role::Label)));
    builder.pop();
    builder.pop();

    let update = builder.finalize();
    assert_eq!(update.nodes.len(), 3);
    assert_eq!(node(&update, ROOT_NODE_ID).children(), &[NodeId(1)]);
    assert_eq!(node(&update, 1).children(), &[NodeId(3)]);
}

#[test]
fn a11y_restores_prepaint_snapshot_for_builder_state() {
    let mut builder = started();

    assert!(builder.push(1, accesskit::Node::new(Role::Button)));
    let snapshot = builder.prepaint_snapshot();

    assert!(builder.push(2, accesskit::Node::new(Role::Label)));
    builder.pop();
    builder.begin_suppressing_descendants();
    assert!(!builder.push(3, accesskit::Node::new(Role::Label)));
    builder.set_focus(1);

    builder.restore_prepaint_snapshot(snapshot);

    assert!(builder.push(2, accesskit::Node::new(Role::Label)));
    builder.set_focus(2);
    builder.pop();
    builder.pop();

    let update = builder.finalize();
    assert_eq!(update.nodes.len(), 3);
    assert_eq!(update.focus, 2);
    assert_eq!(node(&update, ROOT_NODE_ID).children(), &[NodeId(1)]);
    assert_eq!(node(&update, 1).children(), &[NodeId(2)]);
}

#[test]
fn restores_prepaint_snapshot_for_a11y_maps() {
    let mut a11y = new_a11y();
    a11y.begin_frame();

    let focus_id: u64 = 1;
    let first_bounds = bounds(1., 2., 3., 4.);
    a11y.focus_ids_mut().insert(1, focus_id);
    a11y.node_bounds_mut().insert(1, first_bounds);
    let snapshot = a11y.prepaint_snapshot();

    a11y.focus_ids_mut().remove(&1);
    a11y.focus_ids_mut().insert(2, 2);
    a11y.node_bounds_mut().insert(1, bounds(5., 6., 7., 8.));
    a11y.node_bounds_mut().insert(2, bounds(9., 10., 11., 12.));

    a11y.restore_prepaint_snapshot(snapshot);

    assert_eq!(a11y.focus_ids().len(), 1);
    assert_eq!(a11y.focus_ids().get(&1), Some(&focus_id));
    assert_eq!(a11y.node_bounds().len(), 1);
    assert_eq!(a11y.node_bounds().get(&1), Some(&first_bounds));
}

#[test]
fn allocates_stable_unique_node_ids_for_global_element_ids() {
    let mut a11y = new_a11y();
    let first_id = global_id("first");
    let second_id = global_id("second");

    let first_node_id = a11y.node_id_for(&first_id);
    let second_node_id = a11y.node_id_for(&second_id);
    a11y.begin_frame();

    assert_ne!(first_node_id, ROOT_NODE_ID);
    assert_ne!(second_node_id, ROOT_NODE_ID);
    assert_ne!(first_node_id, second_node_id);
    assert_eq!(a11y.node_id_for(&first_id), first_node_id);
    assert_eq!(a11y.node_id_for_existing(&second_id), Some(second_node_id));
    assert_eq!(a11y.node_id_for_existing(&global_id("missing")), None);
}

#[test]
fn retains_visited_suppressed_node_id_and_sweeps_omitted_node_id() {
    let mut a11y = new_a11y();
    let hidden_id = global_id("hidden");

    a11y.begin_frame();
    let hidden_node_id = a11y.node_id_for(&hidden_id);
    assert!(a11y.nodes_mut().push(hidden_node_id, accesskit::Node::new(Role::Button)));
    assert!(a11y.nodes_mut().suppress_current_node(hidden_node_id));
    a11y.nodes_mut().pop();
    let update = a11y.end_frame();

    assert!(!has_update_node(&update, hidden_node_id));
    assert_eq!(a11y.node_id_for_existing(&hidden_id), Some(hidden_node_id));

    a11y.begin_frame();
    a11y.end_frame();

    assert_eq!(a11y.node_id_for_existing(&hidden_id), None);
}

#[test]
fn sweeps_per_node_maps_by_live_emitted_nodes_after_end_frame() {
    let mut a11y = new_a11y();
    let live_bounds = bounds(1., 2., 3., 4.);
    let stale_bounds = bounds(5., 6., 7., 8.);
    let live_focus: u64 = 1;
    let stale_focus: u64 = 2;

    a11y.begin_frame();
    assert!(a11y.nodes_mut().push(1, accesskit::Node::new(Role::Button)));
    a11y.nodes_mut().pop();
    a11y.focus_ids_mut().insert(1, live_focus);
    a11y.focus_ids_mut().insert(2, stale_focus);
    a11y.node_bounds_mut().insert(1, live_bounds);
    a11y.node_bounds_mut().insert(2, stale_bounds);
    a11y.action_listeners_mut().insert(1, vec![(Action::Click, Box::new(|| {}))]);
    a11y.action_listeners_mut().insert(2, vec![(Action::Focus, Box::new(|| {}))]);

    let update = a11y.end_frame();

    assert!(has_update_node(&update, 1));
    assert!(!has_update_node(&update, 2));
    assert_eq!(a11y.focus_ids().len(), 1);
    assert_eq!(a11y.focus_ids().get(&1), Some(&live_focus));
    assert_eq!(a11y.node_bounds().len(), 1);
    assert_eq!(a11y.node_bounds().get(&1), Some(&live_bounds));
    assert_eq!(a11y.action_listeners().len(), 1);
    assert!(a11y.action_listeners().contains_key(&1));
}

#[test]
fn restores_prepaint_snapshot_for_node_id_allocator() {
    let mut a11y = new_a11y();
    let accepted_id = global_id("accepted");
    let rejected_id = global_id("rejected");
    let next_id = global_id("next");

    let accepted_node_id = a11y.node_id_for(&accepted_id);
    let snapshot = a11y.prepaint_snapshot();
    let rejected_node_id = a11y.node_id_for(&rejected_id);

    a11y.restore_prepaint_snapshot(snapshot);
    let next_node_id = a11y.node_id_for(&next_id);

    assert_eq!(a11y.node_id_for_existing(&accepted_id), Some(accepted_node_id));
    assert_eq!(a11y.node_id_for_existing(&rejected_id), None);
    assert_eq!(next_node_id, rejected_node_id);
}

#[test]
fn restores_prepaint_snapshot_for_visited_globals() {
    let mut a11y = new_a11y();
    let accepted_id = global_id("accepted");
    let rejected_id = global_id("rejected");

    a11y.begin_frame();
    let accepted_node_id = a11y.node_id_for(&accepted_id);
    let snapshot = a11y.prepaint_snapshot();
    let rejected_node_id = a11y.node_id_for(&rejected_id);
    assert!(a11y.nodes_mut().push(accepted_node_id, accesskit::Node::new(Role::Button)));
    a11y.nodes_mut().pop();

    a11y.restore_prepaint_snapshot(snapshot);
    let update = a11y.end_frame();

    assert!(!has_update_node(&update, accepted_node_id));
    assert!(!has_update_node(&update, rejected_node_id));
    assert_eq!(a11y.node_id_for_existing(&accepted_id), Some(accepted_node_id));
    assert_eq!(a11y.node_id_for_existing(&rejected_id), None);
}
