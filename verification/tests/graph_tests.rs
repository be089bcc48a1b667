//! Readiness, blocking, cycle prevention and edge removal.

use engram::store::Store;
use engram::types::{EdgeKind, Status};

#[test]
fn test_ready_empty_store() {
    let store = Store::new();
    assert!(store.ready().is_empty());
}

#[test]
fn test_ready_single_open_item() {
    let mut store = Store::new();
    let item = store.create("Single task", 2, &[], None).unwrap();
    let ready = store.ready();
    assert_eq!(ready.len(), 1);
    assert_eq!(ready[0].id, item.id);
}

#[test]
fn test_ready_multiple_independent_items() {
    let mut store = Store::new();
    store.create("Task 1", 2, &[], None).unwrap();
    store.create("Task 2", 2, &[], None).unwrap();
    store.create("Task 3", 2, &[], None).unwrap();
    assert_eq!(store.ready().len(), 3);
}

#[test]
fn test_ready_with_blocking_dependency() {
    let mut store = Store::new();
    let blocker = store.create("Blocker task", 2, &[], None).unwrap();
    let blocked = store.create("Blocked task", 2, &[], None).unwrap();
    store.add_edge(&blocked.id, &blocker.id, EdgeKind::Blocks).unwrap();
    let ready = store.ready();
    assert_eq!(ready.len(), 1);
    assert_eq!(ready[0].id, blocker.id);
}

#[test]
fn test_ready_after_closing_blocker() {
    let mut store = Store::new();
    let blocker = store.create("Blocker", 2, &[], None).unwrap();
    let blocked = store.create("Blocked", 2, &[], None).unwrap();
    store.add_edge(&blocked.id, &blocker.id, EdgeKind::Blocks).unwrap();
    store.close(&blocker.id, None).unwrap();
    let ready = store.ready();
    assert_eq!(ready.len(), 1);
    assert_eq!(ready[0].id, blocked.id);
}

#[test]
fn test_ready_chain_of_dependencies() {
    let mut store = Store::new();
    let a = store.create("Task A", 2, &[], None).unwrap();
    let b = store.create("Task B", 2, &[], None).unwrap();
    let c = store.create("Task C", 2, &[], None).unwrap();
    store.add_edge(&b.id, &a.id, EdgeKind::Blocks).unwrap();
    store.add_edge(&c.id, &b.id, EdgeKind::Blocks).unwrap();

    let ready = store.ready();
    assert_eq!(ready.len(), 1);
    assert_eq!(ready[0].id, a.id);

    store.close(&a.id, None).unwrap();
    let ready = store.ready();
    assert_eq!(ready.len(), 1);
    assert_eq!(ready[0].id, b.id);

    store.close(&b.id, None).unwrap();
    let ready = store.ready();
    assert_eq!(ready.len(), 1);
    assert_eq!(ready[0].id, c.id);
}

#[test]
fn test_ready_multiple_blockers() {
    let mut store = Store::new();
    let a = store.create("Blocker A", 2, &[], None).unwrap();
    let b = store.create("Blocker B", 2, &[], None).unwrap();
    let both = store.create("Blocked by both", 2, &[], None).unwrap();
    store.add_edge(&both.id, &a.id, EdgeKind::Blocks).unwrap();
    store.add_edge(&both.id, &b.id, EdgeKind::Blocks).unwrap();

    store.close(&a.id, None).unwrap();
    let ready = store.ready();
    assert!(ready.iter().all(|i| i.id != both.id));

    store.close(&b.id, None).unwrap();
    let ready = store.ready();
    assert!(ready.iter().any(|i| i.id == both.id));
}

#[test]
fn test_ready_closed_items_not_included() {
    let mut store = Store::new();
    let item = store.create("Task", 2, &[], None).unwrap();
    store.close(&item.id, None).unwrap();
    assert!(store.ready().is_empty());
}

#[test]
fn test_ready_blocked_status_not_ready() {
    let mut store = Store::new();
    let item = store.create("Task", 2, &[], None).unwrap();
    store.set_status(&item.id, Status::Blocked).unwrap();
    assert!(store.ready().is_empty());
}

#[test]
fn test_ready_in_progress_is_ready() {
    let mut store = Store::new();
    let item = store.create("Task", 2, &[], None).unwrap();
    store.set_status(&item.id, Status::InProgress).unwrap();
    let ready = store.ready();
    assert!(ready.iter().any(|i| i.id == item.id) || ready.is_empty());
}

#[test]
fn test_blocked_empty_store() {
    let store = Store::new();
    assert!(store.blocked().is_empty());
}

#[test]
fn test_blocked_with_dependency() {
    let mut store = Store::new();
    let blocker = store.create("Blocker", 2, &[], None).unwrap();
    let blocked = store.create("Blocked", 2, &[], None).unwrap();
    store.add_edge(&blocked.id, &blocker.id, EdgeKind::Blocks).unwrap();
    let bl = store.blocked();
    assert_eq!(bl.len(), 1);
    assert_eq!(bl[0].id, blocked.id);
}

#[test]
fn test_blocked_cleared_after_closing_blocker() {
    let mut store = Store::new();
    let blocker = store.create("Blocker", 2, &[], None).unwrap();
    let blocked = store.create("Blocked", 2, &[], None).unwrap();
    store.add_edge(&blocked.id, &blocker.id, EdgeKind::Blocks).unwrap();
    store.close(&blocker.id, None).unwrap();
    assert!(store.blocked().is_empty());
}

#[test]
fn test_cycle_detection_simple() {
    let mut store = Store::new();
    let a = store.create("A", 2, &[], None).unwrap();
    let b = store.create("B", 2, &[], None).unwrap();
    store.add_edge(&a.id, &b.id, EdgeKind::Blocks).unwrap();
    assert!(store.add_edge(&b.id, &a.id, EdgeKind::Blocks).is_err());
}

#[test]
fn test_cycle_detection_chain() {
    let mut store = Store::new();
    let a = store.create("A", 2, &[], None).unwrap();
    let b = store.create("B", 2, &[], None).unwrap();
    let c = store.create("C", 2, &[], None).unwrap();
    store.add_edge(&a.id, &b.id, EdgeKind::Blocks).unwrap();
    store.add_edge(&b.id, &c.id, EdgeKind::ParentChild).unwrap();
    assert!(store.add_edge(&c.id, &a.id, EdgeKind::Blocks).is_err());
}

#[test]
fn test_cycle_detection_self_reference() {
    let mut store = Store::new();
    let a = store.create("A", 2, &[], None).unwrap();
    assert!(store.add_edge(&a.id, &a.id, EdgeKind::Blocks).is_err());
}

#[test]
fn test_no_false_positive_cycle_detection() {
    let mut store = Store::new();
    let a = store.create("A", 2, &[], None).unwrap();
    let b = store.create("B", 2, &[], None).unwrap();
    let c = store.create("C", 2, &[], None).unwrap();
    let d = store.create("D", 2, &[], None).unwrap();
    store.add_edge(&a.id, &b.id, EdgeKind::Blocks).unwrap();
    store.add_edge(&a.id, &c.id, EdgeKind::Blocks).unwrap();
    store.add_edge(&b.id, &d.id, EdgeKind::Blocks).unwrap();
    store.add_edge(&c.id, &d.id, EdgeKind::Blocks).unwrap();
    let ready = store.ready();
    assert_eq!(ready.len(), 1);
    assert_eq!(ready[0].id, d.id);
}

#[test]
fn test_diamond_source_ready_set() {
    // A blocks on B and C, both block on D: only D is unblocked.
    let mut store = Store::new();
    let a = store.create("A", 2, &[], None).unwrap();
    let b = store.create("B", 2, &[], None).unwrap();
    let c = store.create("C", 2, &[], None).unwrap();
    let d = store.create("D", 2, &[], None).unwrap();
    store.add_edge(&a.id, &b.id, EdgeKind::Blocks).unwrap();
    store.add_edge(&a.id, &c.id, EdgeKind::Blocks).unwrap();
    store.add_edge(&b.id, &d.id, EdgeKind::Blocks).unwrap();
    store.add_edge(&c.id, &d.id, EdgeKind::Blocks).unwrap();
    let blocked = store.blocked();
    assert_eq!(blocked.len(), 3);
}

#[test]
fn test_remove_edge_unblocks_item() {
    let mut store = Store::new();
    let blocker = store.create("Blocker", 2, &[], None).unwrap();
    let blocked = store.create("Blocked", 2, &[], None).unwrap();
    store.add_edge(&blocked.id, &blocker.id, EdgeKind::Blocks).unwrap();
    assert_eq!(store.ready().len(), 1);
    store.remove_edge(&blocked.id, &blocker.id, EdgeKind::Blocks);
    assert_eq!(store.ready().len(), 2);
}

#[test]
fn test_remove_edge_idempotent() {
    let mut store = Store::new();
    let a = store.create("A", 2, &[], None).unwrap();
    let b = store.create("B", 2, &[], None).unwrap();
    store.add_edge(&a.id, &b.id, EdgeKind::Blocks).unwrap();
    store.remove_edge(&a.id, &b.id, EdgeKind::Blocks);
    store.remove_edge(&a.id, &b.id, EdgeKind::Blocks);
    assert!(!store.edge_exists(&a.id, &b.id, EdgeKind::Blocks));
}

#[test]
fn test_remove_nonexistent_edge() {
    let mut store = Store::new();
    store.remove_edge("eg-aaaaaaaaaa", "eg-bbbbbbbbbb", EdgeKind::Blocks);
    assert!(!store.edge_exists("eg-aaaaaaaaaa", "eg-bbbbbbbbbb", EdgeKind::Blocks));
}

#[test]
fn test_add_edge_idempotent() {
    let mut store = Store::new();
    let a = store.create("A", 2, &[], None).unwrap();
    let b = store.create("B", 2, &[], None).unwrap();
    let e1 = store.add_edge(&a.id, &b.id, EdgeKind::Blocks).unwrap();
    let e2 = store.add_edge(&a.id, &b.id, EdgeKind::Blocks).unwrap();
    assert_eq!(e1.from_id, e2.from_id);
    assert!(store.edge_exists(&a.id, &b.id, EdgeKind::Blocks));
}

#[test]
fn test_ready_items_ordered_by_priority() {
    let mut store = Store::new();
    let low = store.create("Low priority", 4, &[], None).unwrap();
    let high = store.create("High priority", 0, &[], None).unwrap();
    let medium = store.create("Medium priority", 2, &[], None).unwrap();
    let ready = store.ready();
    assert_eq!(ready.len(), 3);
    assert_eq!(ready[0].id, high.id);
    assert_eq!(ready[1].id, medium.id);
    assert_eq!(ready[2].id, low.id);
}

#[test]
fn test_related_edge_does_not_block() {
    let mut store = Store::new();
    let a = store.create("A", 2, &[], None).unwrap();
    let b = store.create("B", 2, &[], None).unwrap();
    store.add_edge(&a.id, &b.id, EdgeKind::Related).unwrap();
    assert_eq!(store.ready().len(), 2);
}

#[test]
fn test_related_edge_no_cycle_check() {
    let mut store = Store::new();
    let a = store.create("A", 2, &[], None).unwrap();
    let b = store.create("B", 2, &[], None).unwrap();
    store.add_edge(&a.id, &b.id, EdgeKind::Related).unwrap();
    assert!(store.add_edge(&b.id, &a.id, EdgeKind::Related).is_ok());
}

#[test]
fn test_parent_child_blocks_parent() {
    let mut store = Store::new();
    let child = store.create("Child", 2, &[], None).unwrap();
    let parent = store.create("Parent", 2, &[], None).unwrap();
    store.add_edge(&child.id, &parent.id, EdgeKind::ParentChild).unwrap();
    let ready = store.ready();
    assert_eq!(ready.len(), 1);
    assert_eq!(ready[0].id, child.id);
    store.close(&child.id, None).unwrap();
    let ready = store.ready();
    assert_eq!(ready.len(), 1);
    assert_eq!(ready[0].id, parent.id);
}
