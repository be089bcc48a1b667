//! The store API: create, read, update, close, edges.

use engram::store::Store;
use engram::types::{EdgeKind, Status};

#[test]
fn test_create_and_get() {
    let mut store = Store::new();

    let item = store
        .create("Test task", 2, &["test", "example"], Some("A description"))
        .unwrap();

    assert!(item.id.starts_with("eg-"));
    assert_eq!(item.title, "Test task");
    assert_eq!(item.priority, 2);
    assert_eq!(item.labels, vec!["test", "example"]);
    assert_eq!(item.status, Status::Open);

    let retrieved = store.get(&item.id);
    assert!(retrieved.is_some());
    assert_eq!(retrieved.unwrap().title, "Test task");
}

#[test]
fn test_update() {
    let mut store = Store::new();

    let item = store.create("Original", 2, &[], None).unwrap();
    let updated = store
        .update(
            &item.id,
            Some("Updated title"),
            Some(Some("New description")),
            Some(1),
            Some(&["new-label"]),
        )
        .unwrap();

    assert_eq!(updated.title, "Updated title");
    assert_eq!(updated.description, Some("New description".to_string()));
    assert_eq!(updated.priority, 1);
    assert_eq!(updated.labels, vec!["new-label"]);
}

#[test]
fn test_close() {
    let mut store = Store::new();

    let item = store.create("Task to close", 2, &[], None).unwrap();
    let closed = store.close(&item.id, Some("Completed")).unwrap();

    assert_eq!(closed.status, Status::Closed);
    assert!(closed.closed_at.is_some());
    assert_eq!(closed.close_reason, Some("Completed".to_string()));
}

#[test]
fn test_invalid_status_transition() {
    let mut store = Store::new();

    let item = store.create("Task", 2, &[], None).unwrap();
    let closed = store.close(&item.id, None).unwrap();

    let result = store.set_status(&closed.id, Status::InProgress);
    assert!(result.is_err());
}

#[test]
fn test_ready_with_blocking() {
    let mut store = Store::new();

    let blocker = store.create("Blocker task", 0, &[], None).unwrap();
    let blocked = store.create("Blocked task", 1, &[], None).unwrap();

    store.add_edge(&blocked.id, &blocker.id, EdgeKind::Blocks).unwrap();

    let ready = store.ready();
    assert_eq!(ready.len(), 1);
    assert_eq!(ready[0].id, blocker.id);

    store.close(&blocker.id, None).unwrap();

    let ready = store.ready();
    assert_eq!(ready.len(), 1);
    assert_eq!(ready[0].id, blocked.id);
}

#[test]
fn test_self_referential_edge_rejected() {
    let mut store = Store::new();

    let item = store.create("Task", 2, &[], None).unwrap();
    let result = store.add_edge(&item.id, &item.id, EdgeKind::Blocks);

    assert!(result.is_err());
}

#[test]
fn test_cycle_detection() {
    let mut store = Store::new();

    let a = store.create("Task A", 2, &[], None).unwrap();
    let b = store.create("Task B", 2, &[], None).unwrap();
    let c = store.create("Task C", 2, &[], None).unwrap();

    store.add_edge(&a.id, &b.id, EdgeKind::Blocks).unwrap();
    store.add_edge(&b.id, &c.id, EdgeKind::Blocks).unwrap();

    let result = store.add_edge(&c.id, &a.id, EdgeKind::Blocks);
    assert!(result.is_err());
}

#[test]
fn test_edge_idempotent() {
    let mut store = Store::new();

    let a = store.create("Task A", 2, &[], None).unwrap();
    let b = store.create("Task B", 2, &[], None).unwrap();

    store.add_edge(&a.id, &b.id, EdgeKind::Blocks).unwrap();
    store.add_edge(&a.id, &b.id, EdgeKind::Blocks).unwrap();

    let ready = store.ready();
    assert_eq!(ready.len(), 1);

    // Exactly one line per appended record: the second add appended none.
    let mut st2 = Store::new();
    let x = st2.create("X", 2, &[], None).unwrap();
    let y = st2.create("Y", 2, &[], None).unwrap();
    let _ = st2.take_pending();
    st2.add_edge(&x.id, &y.id, EdgeKind::Blocks).unwrap();
    st2.add_edge(&x.id, &y.id, EdgeKind::Blocks).unwrap();
    assert_eq!(st2.take_pending().len(), 1);
}

#[test]
fn test_get_nonexistent_item_returns_none() {
    let store = Store::new();
    assert!(store.get("eg-nonexistent").is_none());
}

#[test]
fn test_update_nonexistent_item_fails() {
    let mut store = Store::new();
    assert!(store.update("eg-nonexistent", Some("title"), None, None, None).is_err());
}

#[test]
fn test_close_nonexistent_item_fails() {
    let mut store = Store::new();
    assert!(store.close("eg-nonexistent", None).is_err());
}

#[test]
fn test_set_status_nonexistent_item_fails() {
    let mut store = Store::new();
    assert!(store.set_status("eg-nonexistent", Status::InProgress).is_err());
}

#[test]
fn test_add_edge_from_nonexistent_fails() {
    let mut store = Store::new();
    let real = store.create("Real item", 2, &[], None).unwrap();
    assert!(store.add_edge("eg-nonexistent", &real.id, EdgeKind::Blocks).is_err());
}

#[test]
fn test_add_edge_to_nonexistent_fails() {
    let mut store = Store::new();
    let real = store.create("Real item", 2, &[], None).unwrap();
    assert!(store.add_edge(&real.id, "eg-nonexistent", EdgeKind::Blocks).is_err());
}

#[test]
fn test_create_empty_title_fails() {
    let mut store = Store::new();
    assert!(store.create("", 2, &[], None).is_err());
}

#[test]
fn test_create_whitespace_only_title_succeeds() {
    let mut store = Store::new();
    store.create("   ", 2, &[], None).unwrap();
}

#[test]
fn test_create_title_too_long_fails() {
    let mut store = Store::new();
    let title = "x".repeat(501);
    assert!(store.create(&title, 2, &[], None).is_err());
}

#[test]
fn test_create_invalid_priority_fails() {
    let mut store = Store::new();
    assert!(store.create("Task", 5, &[], None).is_err());
}

#[test]
fn test_create_control_chars_in_title_fails() {
    let mut store = Store::new();
    assert!(store.create("Title\nwith\nnewlines", 2, &[], None).is_err());
}

#[test]
fn test_create_control_chars_in_label_fails() {
    let mut store = Store::new();
    assert!(store.create("Task", 2, &["bad\nlabel"], None).is_err());
}

#[test]
fn test_invalid_transition_closed_to_in_progress() {
    let mut store = Store::new();
    let item = store.create("Task", 2, &[], None).unwrap();
    store.close(&item.id, None).unwrap();
    assert!(store.set_status(&item.id, Status::InProgress).is_err());
}

#[test]
fn test_valid_transition_closed_to_open_reopen() {
    let mut store = Store::new();
    let item = store.create("Task", 2, &[], None).unwrap();
    store.close(&item.id, None).unwrap();
    let reopened = store.set_status(&item.id, Status::Open).unwrap();
    assert_eq!(reopened.status, Status::Open);
    assert!(reopened.closed_at.is_none());
}

#[test]
fn test_invalid_transition_closed_to_blocked() {
    let mut store = Store::new();
    let item = store.create("Task", 2, &[], None).unwrap();
    store.close(&item.id, None).unwrap();
    assert!(store.set_status(&item.id, Status::Blocked).is_err());
}

#[test]
fn test_valid_transition_open_to_in_progress() {
    let mut store = Store::new();
    let item = store.create("Task", 2, &[], None).unwrap();
    let updated = store.set_status(&item.id, Status::InProgress).unwrap();
    assert_eq!(updated.status, Status::InProgress);
    assert_eq!(store.get(&item.id).unwrap().status, Status::InProgress);
}

#[test]
fn test_valid_transition_open_to_blocked() {
    let mut store = Store::new();
    let item = store.create("Task", 2, &[], None).unwrap();
    let updated = store.set_status(&item.id, Status::Blocked).unwrap();
    assert_eq!(updated.status, Status::Blocked);
    assert_eq!(store.get(&item.id).unwrap().status, Status::Blocked);
}

#[test]
fn test_valid_transition_blocked_to_open() {
    let mut store = Store::new();
    let item = store.create("Task", 2, &[], None).unwrap();
    store.set_status(&item.id, Status::Blocked).unwrap();
    let updated = store.set_status(&item.id, Status::Open).unwrap();
    assert_eq!(updated.status, Status::Open);
    assert_eq!(store.get(&item.id).unwrap().status, Status::Open);
}

#[test]
fn test_valid_transition_in_progress_to_closed() {
    let mut store = Store::new();
    let item = store.create("Task", 2, &[], None).unwrap();
    store.set_status(&item.id, Status::InProgress).unwrap();
    let closed = store.close(&item.id, Some("Done")).unwrap();
    assert_eq!(closed.status, Status::Closed);
    assert_eq!(closed.close_reason, Some("Done".to_string()));
}

#[test]
fn test_update_to_empty_title_fails() {
    let mut store = Store::new();
    let item = store.create("Original", 2, &[], None).unwrap();
    assert!(store.update(&item.id, Some(""), None, None, None).is_err());
}

#[test]
fn test_update_to_invalid_priority_fails() {
    let mut store = Store::new();
    let item = store.create("Original", 2, &[], None).unwrap();
    assert!(store.update(&item.id, None, None, Some(9), None).is_err());
}

#[test]
fn test_update_with_invalid_label_fails() {
    let mut store = Store::new();
    let item = store.create("Original", 2, &[], None).unwrap();
    assert!(store.update(&item.id, None, None, None, Some(&["bad\nlabel"])).is_err());
}
