//! Replay and recovery: the cache is a function of the logs.

use engram::store::Store;
use engram::types::{EdgeKind, Status};

fn sample_logs() -> (Vec<String>, Vec<String>) {
    let mut store = Store::new();
    let a = store.create("Task A", 1, &["x"], Some("first")).unwrap();
    let b = store.create("Task B", 0, &[], None).unwrap();
    store.add_edge(&a.id, &b.id, EdgeKind::Blocks).unwrap();
    store.update(&a.id, Some("Task A2"), None, Some(3), None).unwrap();
    store.close(&b.id, Some("done")).unwrap();
    store.remove_edge(&a.id, &b.id, EdgeKind::Blocks);
    let lines = store.take_pending();
    let mut items = Vec::new();
    let mut edges = Vec::new();
    for l in lines {
        if l.starts_with("{\"id\":") {
            items.push(l);
        } else {
            edges.push(l);
        }
    }
    (items, edges)
}

#[test]
fn test_rebuild_matches_live_state() {
    let (items, edges) = sample_logs();
    let rebuilt = Store::rebuild(&items, &edges);
    let all = rebuilt.list(None);
    assert_eq!(all.len(), 2);
    let a = all.iter().find(|i| i.title == "Task A2").unwrap();
    assert_eq!(a.priority, 3);
    assert_eq!(a.description, Some("first".to_string()));
    let b = all.iter().find(|i| i.title == "Task B").unwrap();
    assert_eq!(b.status, Status::Closed);
    assert!(rebuilt.ready().iter().any(|i| i.title == "Task A2"));
    let (il, el) = rebuilt.line_counts();
    assert_eq!(il, items.len() as u64);
    assert_eq!(el, edges.len() as u64);
}

#[test]
fn test_rebuild_twice_identical() {
    let (items, edges) = sample_logs();
    let r1 = Store::rebuild(&items, &edges);
    let r2 = Store::rebuild(&items, &edges);
    let l1 = r1.list(None);
    let l2 = r2.list(None);
    assert_eq!(l1, l2);
    assert_eq!(r1.line_counts(), r2.line_counts());
}

#[test]
fn test_recovery_from_corrupt_trailing_line() {
    let (mut items, edges) = sample_logs();
    let before = Store::rebuild(&items, &edges).list(None);
    items.push("{ this is not a valid record line".to_string());
    let after_store = Store::rebuild(&items, &edges);
    let after = after_store.list(None);
    assert_eq!(before, after);
    let (il, _) = after_store.line_counts();
    assert_eq!(il, items.len() as u64);
}

#[test]
fn test_rebuild_last_record_wins() {
    let (items, edges) = sample_logs();
    let rebuilt = Store::rebuild(&items, &edges);
    let a = rebuilt.list(None).into_iter().find(|i| i.title == "Task A2").unwrap();
    assert_eq!(a.title, "Task A2");
    assert_eq!(a.priority, 3);
}

#[test]
fn test_rebuild_tombstone_removes_edge() {
    let (items, edges) = sample_logs();
    let rebuilt = Store::rebuild(&items, &edges);
    let a = rebuilt.list(None).into_iter().find(|i| i.title == "Task A2").unwrap();
    let b = rebuilt.list(None).into_iter().find(|i| i.title == "Task B").unwrap();
    assert!(!rebuilt.edge_exists(&a.id, &b.id, EdgeKind::Blocks));
}

#[test]
fn test_needs_rebuild_on_count_mismatch() {
    let (items, edges) = sample_logs();
    let st = Store::rebuild(&items, &edges);
    assert!(!st.needs_rebuild(items.len() as u64, edges.len() as u64));
    assert!(st.needs_rebuild(items.len() as u64 + 1, edges.len() as u64));
    assert!(st.needs_rebuild(items.len() as u64, edges.len() as u64 + 1));
}

#[test]
fn test_log_cache_equivalence() {
    // With the writer quiesced, replaying the produced record lines yields
    // every query result exactly.
    let mut live = Store::new();
    let a = live.create("Alpha", 2, &["one"], Some("da")).unwrap();
    let b = live.create("Beta", 0, &[], None).unwrap();
    let c = live.create("Gamma", 4, &[], Some("dc")).unwrap();
    live.add_edge(&a.id, &b.id, EdgeKind::Blocks).unwrap();
    live.add_edge(&c.id, &a.id, EdgeKind::ParentChild).unwrap();
    live.set_status(&b.id, Status::InProgress).unwrap();
    live.close(&b.id, Some("fine")).unwrap();
    live.remove_edge(&c.id, &a.id, EdgeKind::ParentChild);

    let mut live2 = live;
    let lines = live2.take_pending();
    let mut items = Vec::new();
    let mut edges = Vec::new();
    for l in lines {
        if l.starts_with("{\"id\":") {
            items.push(l);
        } else {
            edges.push(l);
        }
    }
    let replayed = Store::rebuild(&items, &edges);
    assert_eq!(live2.list(None), replayed.list(None));
    assert_eq!(live2.ready(), replayed.ready());
    assert_eq!(live2.blocked(), replayed.blocked());
}
