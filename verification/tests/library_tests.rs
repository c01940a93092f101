use std::sync::atomic::AtomicBool;
use std::sync::Arc;

use accesskit::{NodeId, Role};
use gpui::a11y::{A11y, GlobalElementId};
use gpui::adapter::{
    adapter_priority_order, adapter_rank, select_adapter, AdapterSelectionError, AdapterSummary, Backend, CompositorGpuHint, DeviceType,
};
use gpui::builder::{has_update_node, node, repair_report, A11yNodeBuilder, A11yTreeUpdate, ROOT_NODE_ID};
use gpui::pci::{parse_pci_id, PciIdError};

fn started() -> A11yNodeBuilder {
    let mut builder = A11yNodeBuilder::new();
    builder.begin_frame();
    builder
}

fn adapter(vendor: u32, device: u32, device_type: DeviceType, backend: Backend) -> AdapterSummary {
    AdapterSummary { vendor, device, device_type, backend }
}

fn global_id(path: &[&str]) -> GlobalElementId {
    GlobalElementId(path.iter().map(|s| s.to_string()).collect())
}

type TestA11y = A11y<u64, u64, u64>;

#[test]
fn pci_id_values_are_hexadecimal() {
    assert_eq!(parse_pci_id("  0x1A2b \t"), Ok(0x1A2B));
    assert_eq!(parse_pci_id("0XFFFF"), Ok(0xFFFF));
    assert_eq!(parse_pci_id("0000"), Ok(0));
    assert_eq!(parse_pci_id("\n10de\u{3000}"), Ok(0x10DE));
}

#[test]
fn pci_id_rejects_other_shapes() {
    assert_eq!(parse_pci_id(""), Err(PciIdError::NotFourHexDigits));
    assert_eq!(parse_pci_id("0x"), Err(PciIdError::NotFourHexDigits));
    assert_eq!(parse_pci_id("12345"), Err(PciIdError::NotFourHexDigits));
    assert_eq!(parse_pci_id("12G4"), Err(PciIdError::NotFourHexDigits));
    assert_eq!(parse_pci_id("0x0x12"), Err(PciIdError::NotFourHexDigits));
    assert_eq!(parse_pci_id("12 34"), Err(PciIdError::NotFourHexDigits));
    assert_eq!(parse_pci_id("x1234"), Err(PciIdError::NotFourHexDigits));
}

#[test]
fn adapter_selection_needs_an_adapter() {
    assert_eq!(select_adapter(&Vec::new(), None, None), Err(AdapterSelectionError::NoAdapters));
}

#[test]
fn adapter_rank_orders_by_override_compositor_type_and_backend() {
    let hint = CompositorGpuHint { vendor_id: 0x8086, device_id: 0x46a6 };
    let info = adapter(0x8086, 0x46a6, DeviceType::IntegratedGpu, Backend::Gl);
    assert_eq!(adapter_rank(&info, Some(0x46a6), Some(hint)), (0, 0, 1, 1));
    assert_eq!(adapter_rank(&info, Some(0x1234), None), (1, 1, 1, 1));
    let unknown = adapter(0x8086, 0, DeviceType::Cpu, Backend::Vulkan);
    assert_eq!(adapter_rank(&unknown, Some(0), Some(CompositorGpuHint { vendor_id: 0x8086, device_id: 0 })), (1, 1, 4, 0));
    let other = adapter(1, 2, DeviceType::Other, Backend::Metal);
    assert_eq!(adapter_rank(&other, None, None), (1, 1, 2, 0));
    let virt = adapter(1, 2, DeviceType::VirtualGpu, Backend::Dx12);
    assert_eq!(adapter_rank(&virt, None, None), (1, 1, 3, 0));
}

#[test]
fn adapter_selection_prefers_discrete_then_backend_and_keeps_order_on_ties() {
    let adapters = vec![
        adapter(1, 10, DeviceType::IntegratedGpu, Backend::Vulkan),
        adapter(2, 20, DeviceType::DiscreteGpu, Backend::Gl),
        adapter(3, 30, DeviceType::DiscreteGpu, Backend::Vulkan),
        adapter(4, 40, DeviceType::DiscreteGpu, Backend::Vulkan),
    ];
    assert_eq!(select_adapter(&adapters, None, None), Ok(2));
}

#[test]
fn adapter_selection_honours_override_then_compositor() {
    let adapters = vec![
        adapter(1, 10, DeviceType::DiscreteGpu, Backend::Vulkan),
        adapter(2, 20, DeviceType::Cpu, Backend::Gl),
        adapter(3, 30, DeviceType::IntegratedGpu, Backend::Vulkan),
    ];
    let hint = CompositorGpuHint { vendor_id: 3, device_id: 30 };
    assert_eq!(select_adapter(&adapters, None, Some(hint)), Ok(2));
    assert_eq!(select_adapter(&adapters, Some(20), Some(hint)), Ok(1));
    assert_eq!(select_adapter(&adapters, Some(99), None), Ok(0));
}

#[test]
fn push_of_a_used_id_is_refused() {
    let mut builder = started();
    assert!(builder.push(1, accesskit::Node::new(Role::Button)));
    builder.pop();
    assert!(!builder.push(1, accesskit::Node::new(Role::Label)));
    assert!(!builder.push(ROOT_NODE_ID, accesskit::Node::new(Role::Label)));
    let update = builder.finalize();
    assert_eq!(update.nodes.len(), 2);
    assert_eq!(node(&update, 1).role(), Role::Button);
}

#[test]
fn nested_ambient_suppression_needs_matching_ends() {
    let mut builder = started();
    builder.begin_suppressing_descendants();
    builder.begin_suppressing_descendants();
    builder.end_suppressing_descendants();
    assert!(!builder.push(1, accesskit::Node::new(Role::Button)));
    builder.end_suppressing_descendants();
    builder.end_suppressing_descendants();
    assert!(builder.push(1, accesskit::Node::new(Role::Button)));
    builder.pop();
    let update = builder.finalize();
    assert_eq!(node(&update, ROOT_NODE_ID).children(), &[NodeId(1)]);
}

#[test]
fn finalize_closes_nodes_left_open_and_resets_ambient_suppression() {
    let mut builder = started();
    assert!(builder.push(1, accesskit::Node::new(Role::Group)));
    assert!(builder.push(2, accesskit::Node::new(Role::Button)));
    builder.begin_suppressing_descendants();
    let update = builder.finalize();
    assert_eq!(update.nodes.len(), 3);
    assert_eq!(node(&update, ROOT_NODE_ID).children(), &[NodeId(1)]);
    assert_eq!(node(&update, 1).children(), &[NodeId(2)]);
    assert!(!builder.has_current_node(ROOT_NODE_ID));
    let again = builder.finalize();
    assert_eq!(again.nodes.len(), 0);
}

#[test]
fn focus_on_a_node_outside_the_tree_falls_back_to_root() {
    let mut builder = started();
    assert!(builder.push(1, accesskit::Node::new(Role::Button)));
    builder.pop();
    builder.set_focus(42);
    let update = builder.finalize();
    assert_eq!(update.focus, ROOT_NODE_ID);

    let mut builder = started();
    assert!(builder.push(7, accesskit::Node::new(Role::Button)));
    builder.set_focus(7);
    builder.pop();
    let update = builder.finalize();
    assert_eq!(update.focus, 7);
}

#[test]
fn child_references_outside_the_tree_are_dropped() {
    let mut builder = started();
    let mut parent = accesskit::Node::new(Role::Group);
    parent.set_children(vec![NodeId(99)]);
    assert!(builder.push(1, parent));
    assert!(builder.push(2, accesskit::Node::new(Role::Button)));
    builder.pop();
    builder.pop();
    let update = builder.finalize();
    assert_eq!(node(&update, 1).children(), &[NodeId(2)]);
}

#[test]
fn root_cannot_be_suppressed_or_given_bounds() {
    let mut builder = started();
    assert!(!builder.suppress_current_node(ROOT_NODE_ID));
    let rect = accesskit::Rect { x0: 0., y0: 0., x1: 1., y1: 1. };
    assert!(!builder.update_current_node_bounds(ROOT_NODE_ID, rect));
    assert!(builder.has_current_node(ROOT_NODE_ID));
    assert!(builder.push(1, accesskit::Node::new(Role::Button)));
    assert!(builder.suppress_current_node(1));
    assert!(!builder.suppress_current_node(1));
    assert!(!builder.has_current_node(1));
    assert!(!builder.update_current_node_bounds(1, rect));
}

#[test]
fn suppression_prunes_the_whole_emitted_subtree() {
    let mut builder = started();
    assert!(builder.push(1, accesskit::Node::new(Role::Group)));
    assert!(builder.push(2, accesskit::Node::new(Role::Group)));
    assert!(builder.push(3, accesskit::Node::new(Role::Button)));
    builder.pop();
    builder.pop();
    assert!(builder.push(4, accesskit::Node::new(Role::Button)));
    builder.pop();
    builder.pop();
    assert!(builder.push(5, accesskit::Node::new(Role::Group)));
    assert!(builder.push(6, accesskit::Node::new(Role::Button)));
    builder.pop();
    assert!(builder.suppress_current_node(5));
    builder.pop();
    let update = builder.finalize();
    assert_eq!(update.nodes.len(), 5);
    assert!(!has_update_node(&update, 5));
    assert!(!has_update_node(&update, 6));
    assert_eq!(node(&update, ROOT_NODE_ID).children(), &[NodeId(1)]);
    assert_eq!(node(&update, 1).children(), &[NodeId(2), NodeId(4)]);
    assert_eq!(node(&update, 2).children(), &[NodeId(3)]);
}

#[test]
fn push_before_begin_frame_has_no_parent() {
    let mut builder = A11yNodeBuilder::new();
    assert!(builder.push(3, accesskit::Node::new(Role::Button)));
    builder.pop();
    let update = builder.finalize();
    assert_eq!(update.nodes.len(), 1);
    assert!(has_update_node(&update, 3));
    assert!(!has_update_node(&update, ROOT_NODE_ID));
}

#[test]
fn node_ids_stay_with_visited_elements_and_keep_counting() {
    let mut a11y: TestA11y = A11y::new(Arc::new(AtomicBool::new(false)), false);
    let a = global_id(&["window", "a"]);
    let b = global_id(&["window", "b"]);
    a11y.begin_frame();
    let a_id = a11y.node_id_for(&a);
    let b_id = a11y.node_id_for(&b);
    assert_eq!((a_id, b_id), (1, 2));
    a11y.end_frame();
    a11y.begin_frame();
    assert_eq!(a11y.node_id_for(&b), b_id);
    a11y.end_frame();
    assert_eq!(a11y.node_id_for_existing(&a), None);
    assert_eq!(a11y.node_id_for_existing(&b), Some(b_id));
    a11y.begin_frame();
    assert_eq!(a11y.node_id_for(&a), 3);
    assert_eq!(a11y.node_id_for_existing(&global_id(&["window"])), None);
}

#[test]
fn activity_follows_the_shared_flag_unless_force_disabled() {
    let flag = Arc::new(AtomicBool::new(true));
    let mut a11y: TestA11y = A11y::new(flag.clone(), false);
    assert!(!a11y.is_active());
    a11y.sync_active_flag();
    assert!(a11y.is_active());
    a11y.set_active_for_test(false);
    assert!(!a11y.is_active());

    let mut disabled: TestA11y = A11y::new(flag, true);
    disabled.set_active_for_test(true);
    assert!(!disabled.is_active());
}

#[test]
fn restoring_a_snapshot_keeps_action_listeners() {
    let mut a11y: TestA11y = A11y::new(Arc::new(AtomicBool::new(false)), false);
    a11y.begin_frame();
    a11y.node_bounds_mut().insert(1, 10);
    let snapshot = a11y.prepaint_snapshot();
    a11y.node_bounds_mut().insert(2, 20);
    a11y.action_listeners_mut().insert(2, 200);
    assert!(a11y.nodes_mut().push(2, accesskit::Node::new(Role::Button)));
    a11y.restore_prepaint_snapshot(snapshot);
    assert_eq!(a11y.node_bounds().len(), 1);
    assert_eq!(a11y.action_listeners().get(&2), Some(&200));
    assert!(a11y.nodes().has_current_node(ROOT_NODE_ID));
    assert!(!a11y.nodes().has_node(2));
}

#[test]
fn the_value_read_from_the_shared_flag_decides_activity() {
    let mut a11y: TestA11y = A11y::new(Arc::new(AtomicBool::new(false)), false);
    a11y.set_active_from_flag(true);
    assert!(a11y.is_active());
    a11y.set_active_from_flag(false);
    assert!(!a11y.is_active());

    let mut disabled: TestA11y = A11y::new(Arc::new(AtomicBool::new(true)), true);
    disabled.set_active_from_flag(true);
    assert!(!disabled.is_active());
}

#[test]
fn focus_may_be_set_again_after_a_new_frame_begins() {
    let mut builder = started();
    assert!(builder.push(1, accesskit::Node::new(Role::Button)));
    builder.set_focus(1);
    builder.pop();
    builder.begin_frame();
    assert!(builder.push(2, accesskit::Node::new(Role::Button)));
    builder.set_focus(2);
    builder.pop();
    let update = builder.finalize();
    assert_eq!(update.focus, 2);
    assert_eq!(node(&update, ROOT_NODE_ID).children(), &[NodeId(2)]);
}

#[test]
fn a_pop_appends_the_closed_node_to_its_parent_in_order() {
    let mut builder = started();
    assert!(builder.push(1, accesskit::Node::new(Role::Group)));
    assert!(builder.push(2, accesskit::Node::new(Role::Button)));
    builder.pop();
    assert!(builder.push(3, accesskit::Node::new(Role::Button)));
    builder.pop();
    builder.pop();
    let update = builder.finalize();
    assert_eq!(update.nodes.len(), 4);
    assert_eq!(node(&update, 1).children(), &[NodeId(2), NodeId(3)]);
    assert_eq!(node(&update, ROOT_NODE_ID).children(), &[NodeId(1)]);
    assert_eq!(node(&update, 2).children(), &[]);
}

#[test]
fn distinct_elements_get_distinct_node_ids_and_keep_them() {
    let mut a11y: TestA11y = A11y::new(Arc::new(AtomicBool::new(false)), false);
    a11y.begin_frame();
    let a = a11y.node_id_for(&global_id(&["root", "a"]));
    let b = a11y.node_id_for(&global_id(&["root", "b"]));
    let a_again = a11y.node_id_for(&global_id(&["root", "a"]));
    assert_ne!(a, b);
    assert_eq!(a, a_again);
    assert_ne!(a, ROOT_NODE_ID);
    assert_ne!(b, ROOT_NODE_ID);
}

#[test]
fn a_finished_frame_is_one_tree_rooted_at_the_window() {
    let mut builder = started();
    assert!(builder.push(1, accesskit::Node::new(Role::Group)));
    assert!(builder.push(2, accesskit::Node::new(Role::Button)));
    builder.pop();
    assert!(builder.push(3, accesskit::Node::new(Role::Group)));
    assert!(builder.push(4, accesskit::Node::new(Role::Label)));
    builder.pop();
    assert!(builder.suppress_current_node(3));
    builder.pop();
    assert!(builder.push(5, accesskit::Node::new(Role::Label)));
    builder.pop();
    builder.pop();
    let update = builder.finalize();

    let ids: Vec<u64> = update.nodes.iter().map(|(id, _)| *id).collect();
    let mut sorted = ids.clone();
    sorted.sort();
    sorted.dedup();
    assert_eq!(sorted.len(), ids.len());
    assert_eq!(sorted, vec![0, 1, 2, 5]);

    for id in &ids {
        let parents = update
            .nodes
            .iter()
            .filter(|(_, n)| n.children().contains(&NodeId(*id)))
            .count();
        if *id == ROOT_NODE_ID {
            assert_eq!(parents, 0);
        } else {
            assert_eq!(parents, 1);
        }
    }

    let mut reached = vec![ROOT_NODE_ID];
    let mut i = 0;
    while i < reached.len() {
        for child in node(&update, reached[i]).children() {
            reached.push(child.0);
        }
        i += 1;
    }
    reached.sort();
    assert_eq!(reached, sorted);
}

#[test]
fn adapters_are_listed_in_a_stable_priority_order() {
    let adapters = vec![
        adapter(1, 10, DeviceType::Cpu, Backend::Vulkan),
        adapter(1, 11, DeviceType::DiscreteGpu, Backend::Gl),
        adapter(1, 12, DeviceType::IntegratedGpu, Backend::Vulkan),
        adapter(1, 13, DeviceType::DiscreteGpu, Backend::Vulkan),
        adapter(1, 14, DeviceType::DiscreteGpu, Backend::Vulkan),
    ];
    assert_eq!(adapter_priority_order(&adapters, None, None), vec![3, 4, 1, 2, 0]);
    assert_eq!(adapter_priority_order(&adapters, Some(12), None), vec![2, 3, 4, 1, 0]);
    let order = adapter_priority_order(&adapters, None, None);
    assert_eq!(Ok(order[0]), select_adapter(&adapters, None, None));
    assert!(adapter_priority_order(&[].to_vec(), None, None).is_empty());
}

#[test]
fn an_empty_frame_finalizes_to_a_bare_window_root() {
    let mut builder = started();
    let update = builder.finalize();
    assert_eq!(update.nodes.len(), 1);
    assert_eq!(update.nodes[0].0, ROOT_NODE_ID);
    assert_eq!(update.nodes[0].1.role(), Role::Window);
    assert_eq!(update.nodes[0].1.children(), &[]);
    assert_eq!(update.focus, ROOT_NODE_ID);
}

#[test]
fn finalize_reports_an_unbalanced_frame() {
    let mut builder = started();
    assert!(builder.push(1, accesskit::Node::new(Role::Button)));
    builder.begin_suppressing_descendants();
    builder.set_focus(42);
    let (update, report) = builder.finalize_with_report();
    assert_eq!(report.open_nodes, 2);
    assert_eq!(report.ambient_depth, 1);
    assert_eq!(report.repair.missing_focus, Some(42));
    assert_eq!(report.repair.dropped_children, vec![0, 0]);
    assert_eq!(update.focus, ROOT_NODE_ID);
    assert_eq!(node(&update, ROOT_NODE_ID).children(), &[NodeId(1)]);

    let mut balanced = started();
    let (_, report) = balanced.finalize_with_report();
    assert_eq!((report.open_nodes, report.ambient_depth, report.repair.missing_focus), (1, 0, None));
}

#[test]
fn repair_drops_missing_children_once_and_then_changes_nothing() {
    let mut root = accesskit::Node::new(Role::Window);
    root.set_children(vec![NodeId(1), NodeId(7), NodeId(8)]);
    let update = A11yTreeUpdate {
        nodes: vec![(1, accesskit::Node::new(Role::Button)), (ROOT_NODE_ID, root)],
        focus: 9,
    };
    let report = repair_report(&update);
    assert_eq!(report.missing_focus, Some(9));
    assert_eq!(report.dropped_children, vec![0, 2]);

    let repaired = A11yNodeBuilder::repair_tree_update(update);
    assert_eq!(repaired.focus, ROOT_NODE_ID);
    assert_eq!(node(&repaired, ROOT_NODE_ID).children(), &[NodeId(1)]);
    let report = repair_report(&repaired);
    assert_eq!(report.missing_focus, None);
    assert_eq!(report.dropped_children, vec![0, 0]);

    let again = A11yNodeBuilder::repair_tree_update(repaired);
    assert_eq!(again.focus, ROOT_NODE_ID);
    assert_eq!(again.nodes.len(), 2);
    assert_eq!(node(&again, ROOT_NODE_ID).children(), &[NodeId(1)]);
    assert_eq!(node(&again, 1).children(), &[]);
}

#[test]
fn pci_ids_read_back_from_their_hexadecimal_form() {
    let mut v: u32 = 0;
    loop {
        assert_eq!(parse_pci_id(&format!("{:04x}", v)), Ok(v));
        assert_eq!(parse_pci_id(&format!("{:04X}", v)), Ok(v));
        assert_eq!(parse_pci_id(&format!("{:#06x}", v)), Ok(v));
        assert_eq!(parse_pci_id(&format!(" {:04x}\n", v)), Ok(v));
        if v == 0xFFFF {
            break;
        }
        v = (v + 0x0123).min(0xFFFF);
    }
}
