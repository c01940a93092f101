use accesskit::{NodeId, Rect, Role};
use gpui::builder::{has_update_node, node, A11yNodeBuilder, ROOT_NODE_ID};

/// The node bounds that a window computes from logical bounds and a scale factor.
fn scaled_rect(x: f32, y: f32, width: f32, height: f32, scale: f32) -> Rect {
    Rect {
        x0: (x * scale) as f64,
        y0: (y * scale) as f64,
        x1: ((x + width) * scale) as f64,
        y1: ((y + height) * scale) as f64,
    }
}

fn started() -> A11yNodeBuilder {
    let mut builder = A11yNodeBuilder::new();
    builder.begin_frame();
    builder
}

#[test]
fn builder_tests_preserves_unsuppressed_tree_shape() {
    let mut builder = started();

    assert!(builder.push(1, accesskit::Node::new(Role::Button)));
    assert!(builder.push(2, accesskit::Node::new(Role::Label)));
    builder.pop();
    builder.pop();

    let update = builder.finalize();
    assert_eq!(node(&update, ROOT_NODE_ID).children(), &[NodeId(1)]);
    assert_eq!(node(&update, 1).children(), &[NodeId(2)]);
    assert_eq!(node(&update, 2).children(), &[]);
}

#[test]
fn builder_tests_updates_current_non_root_node_bounds() {
    let mut builder = started();

    assert!(builder.push(1, accesskit::Node::new(Role::Button)));
    assert!(builder.update_current_node_bounds(1, scaled_rect(2., 3., 4., 5., 2.)));
    builder.pop();

    let update = builder.finalize();
    assert_eq!(
        node(&update, 1).bounds(),
        Some(Rect {
            x0: 4.,
            y0: 6.,
            x1: 12.,
            y1: 16.,
        })
    );
}

#[test]
fn builder_tests_suppresses_current_node_before_finalization() {
    let mut builder = started();

    assert!(builder.push(1, accesskit::Node::new(Role::Button)));
    assert!(builder.suppress_current_node(1));
    assert!(!builder.has_node(1));
    builder.pop();

    let update = builder.finalize();
    assert_eq!(update.nodes.len(), 1);
    assert_eq!(node(&update, ROOT_NODE_ID).children(), &[]);
}

#[test]
fn builder_tests_skips_descendants_while_current_node_is_suppressed() {
    let mut builder = started();

    assert!(builder.push(1, accesskit::Node::new(Role::Button)));
    assert!(builder.suppress_current_node(1));
    assert!(!builder.push(2, accesskit::Node::new(Role::Label)));
    builder.pop();

    assert!(builder.push(2, accesskit::Node::new(Role::Label)));
    builder.pop();

    let update = builder.finalize();
    assert_eq!(update.nodes.len(), 2);
    assert_eq!(node(&update, ROOT_NODE_ID).children(), &[NodeId(2)]);
    assert_eq!(node(&update, 2).children(), &[]);
}

#[test]
fn builder_tests_ambient_descendant_suppression_under_root_skips_child_push_without_suppressing_root() {
    let mut builder = started();

    builder.begin_suppressing_descendants();
    assert!(!builder.push(1, accesskit::Node::new(Role::Button)));
    builder.end_suppressing_descendants();

    assert!(builder.has_node(ROOT_NODE_ID));
    assert!(builder.push(1, accesskit::Node::new(Role::Button)));
    builder.pop();

    let update = builder.finalize();
    assert_eq!(update.nodes.len(), 2);
    assert_eq!(node(&update, ROOT_NODE_ID).children(), &[NodeId(1)]);
}

#[test]
fn builder_tests_id_specific_update_requires_current_node() {
    let mut builder = started();

    assert!(builder.push(1, accesskit::Node::new(Role::Button)));
    assert!(!builder.update_current_node_bounds(2, scaled_rect(2., 3., 4., 5., 2.)));
    builder.pop();

    let update = builder.finalize();
    assert_eq!(node(&update, 1).bounds(), None);
}

#[test]
fn builder_tests_id_specific_suppress_requires_current_node() {
    let mut builder = started();

    assert!(builder.push(1, accesskit::Node::new(Role::Button)));
    assert!(!builder.suppress_current_node(2));
    assert!(builder.has_node(1));
    assert!(builder.push(2, accesskit::Node::new(Role::Label)));
    builder.pop();
    builder.pop();

    let update = builder.finalize();
    assert_eq!(update.nodes.len(), 3);
    assert_eq!(node(&update, ROOT_NODE_ID).children(), &[NodeId(1)]);
    assert_eq!(node(&update, 1).children(), &[NodeId(2)]);
}

#[test]
fn builder_tests_suppressing_focused_current_node_removes_focus_from_tree() {
    let mut builder = started();

    assert!(builder.push(1, accesskit::Node::new(Role::Button)));
    builder.set_focus(1);
    assert!(builder.suppress_current_node(1));
    builder.pop();

    let update = builder.finalize();
    assert_eq!(update.focus, ROOT_NODE_ID);
    assert_eq!(update.nodes.len(), 1);
}

#[test]
fn builder_tests_suppressing_current_node_prunes_already_emitted_descendants() {
    let mut builder = started();

    assert!(builder.push(1, accesskit::Node::new(Role::Button)));
    assert!(builder.push(2, accesskit::Node::new(Role::Label)));
    assert!(builder.push(3, accesskit::Node::new(Role::TextInput)));
    builder.set_focus(3);
    builder.pop();
    builder.pop();

    assert!(builder.suppress_current_node(1));
    assert!(!builder.has_node(1));
    assert!(!builder.has_node(2));
    assert!(!builder.has_node(3));
    builder.pop();

    let update = builder.finalize();
    assert_eq!(update.nodes.len(), 1);
    assert_eq!(update.focus, ROOT_NODE_ID);
    assert_eq!(node(&update, ROOT_NODE_ID).children(), &[]);
    assert!(!has_update_node(&update, 1));
    assert!(!has_update_node(&update, 2));
    assert!(!has_update_node(&update, 3));
}

#[test]
fn builder_tests_parent_children_do_not_reference_suppressed_descendants() {
    let mut builder = started();

    assert!(builder.push(1, accesskit::Node::new(Role::Button)));
    assert!(builder.push(2, accesskit::Node::new(Role::Label)));
    assert!(builder.suppress_current_node(2));
    builder.pop();

    assert!(builder.push(3, accesskit::Node::new(Role::Label)));
    builder.pop();
    builder.pop();

    let update = builder.finalize();
    assert_eq!(update.nodes.len(), 3);
    assert_eq!(node(&update, ROOT_NODE_ID).children(), &[NodeId(1)]);
    assert_eq!(node(&update, 1).children(), &[NodeId(3)]);
}

#[test]
fn builder_tests_restores_prepaint_snapshot_for_builder_state() {
    let mut builder = started();

    assert!(builder.push(1, accesskit::Node::new(Role::Button)));
    let snapshot = builder.prepaint_snapshot();

    assert!(builder.push(2, accesskit::Node::new(Role::Label)));
    builder.pop();
    builder.begin_suppressing_descendants();
    assert!(!builder.push(3, accesskit::Node::new(Role::Label)));
    builder.set_focus(1);

    builder.restore_prepaint_snapshot(snapshot);

    assert!(builder.push(2, accesskit::Node::new(Role::Label)));
    builder.set_focus(2);
    builder.pop();
    builder.pop();

    let update = builder.finalize();
    assert_eq!(update.nodes.len(), 3);
    assert_eq!(update.focus, 2);
    assert_eq!(node(&update, ROOT_NODE_ID).children(), &[NodeId(1)]);
    assert_eq!(node(&update, 1).children(), &[NodeId(2)]);
}

#[test]
fn restored_snapshot_keeps_emitted_node_index_consistent() {
    let mut builder = started();

    assert!(builder.push(1, accesskit::Node::new(Role::Button)));
    assert!(builder.push(2, accesskit::Node::new(Role::Label)));
    assert!(builder.push(3, accesskit::Node::new(Role::Label)));
    builder.pop();
    builder.pop();
    let snapshot = builder.prepaint_snapshot();

    assert!(builder.push(4, accesskit::Node::new(Role::Label)));
    builder.pop();
    builder.restore_prepaint_snapshot(snapshot);

    assert!(builder.suppress_current_node(1));
    builder.pop();

    let update = builder.finalize();
    assert_eq!(update.nodes.len(), 1);
    assert_eq!(node(&update, ROOT_NODE_ID).children(), &[]);
    assert!(!has_update_node(&update, 1));
    assert!(!has_update_node(&update, 2));
    assert!(!has_update_node(&update, 3));
    assert!(!has_update_node(&update, 4));
}
