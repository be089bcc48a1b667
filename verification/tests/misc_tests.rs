//! Configuration surfaces, the request dispatch and batch sweeps.

use engram::batch::CreateSpec;
use engram::compact::CompactConfig;
use engram::daemon::DaemonConfig;
use engram::protocol::{handle_request, Request, Response};
use engram::store::Store;
use engram::types::Status;

#[test]
fn test_daemon_config() {
    let config = DaemonConfig::new("/test/path");
    assert_eq!(config.socket_path(), "/test/path/.engram/daemon.sock");
    assert_eq!(config.pid_path(), "/test/path/.engram/daemon.pid");
}

#[test]
fn test_compact_config_builder() {
    let config = CompactConfig::new().older_than_days(14).max_description_len(Some(100));

    assert_eq!(config.older_than_days, 14);
    assert_eq!(config.max_description_len, Some(100));
}

#[test]
fn test_compact_no_eligible_items() {
    let mut store = Store::new();
    let item = store.create("Test task", 2, &[], Some("A description")).unwrap();
    store.close(&item.id, None).unwrap();
    let config = CompactConfig::new().older_than_days(1);
    let result = store.compact(&config);
    assert_eq!(result.compacted_count, 0);
}

#[test]
fn test_get_compactable_items_empty() {
    let store = Store::new();
    let items = store.get_compactable_items(7);
    assert!(items.is_empty());
}

#[test]
fn test_compact_removes_old_descriptions() {
    let mut store = Store::new();
    let item = store.create("Old task", 2, &[], Some("A long-lived description")).unwrap();
    store.close(&item.id, None).unwrap();
    // A cutoff in the future makes the just-closed item eligible.
    let eligible = store.get_compactable_items_before("9999-12-31T23:59:59+00:00");
    assert_eq!(eligible.len(), 1);
}

#[test]
fn test_batch_create() {
    let mut store = Store::new();

    let specs = vec![
        CreateSpec::new("Task 1").with_priority(1),
        CreateSpec::new("Task 2").with_labels(vec!["test".to_string()]),
        CreateSpec::new("Task 3").with_description("A description"),
    ];

    let result = store.batch_create(specs);

    assert_eq!(result.created.len(), 3);
    assert!(result.errors.is_empty());
    assert_eq!(result.created[0].title, "Task 1");
    assert_eq!(result.created[0].priority, 1);
    assert_eq!(result.created[1].labels, vec!["test"]);
    assert_eq!(result.created[2].description, Some("A description".to_string()));
}

#[test]
fn test_batch_close() {
    let mut store = Store::new();

    let item1 = store.create("Task 1", 2, &[], None).unwrap();
    let item2 = store.create("Task 2", 2, &[], None).unwrap();

    let result = store.batch_close(&[&item1.id, &item2.id, "nonexistent"], Some("Done"));

    assert_eq!(result.closed.len(), 2);
    assert_eq!(result.not_found, vec!["nonexistent"]);
    assert!(result.errors.is_empty());
}

#[test]
fn test_batch_set_status() {
    let mut store = Store::new();

    let item1 = store.create("Task 1", 2, &[], None).unwrap();
    let item2 = store.create("Task 2", 2, &[], None).unwrap();

    let updated = store
        .batch_set_status(&[&item1.id, &item2.id], Status::InProgress)
        .unwrap();

    assert_eq!(updated.len(), 2);
    assert_eq!(updated[0].status, Status::InProgress);
    assert_eq!(updated[1].status, Status::InProgress);
}

#[test]
fn test_dispatch_create_and_get() {
    let mut store = Store::new();
    let resp = handle_request(
        &mut store,
        Request::Create {
            title: "Test".to_string(),
            priority: 2,
            labels: vec!["test".to_string()],
            description: None,
        },
    );
    let id = match resp {
        Response::Item { item } => {
            assert_eq!(item.title, "Test");
            item.id
        }
        _ => panic!("expected an item response"),
    };
    match handle_request(&mut store, Request::Get { id: id.clone() }) {
        Response::Item { item } => assert_eq!(item.id, id),
        _ => panic!("expected an item response"),
    }
    match handle_request(&mut store, Request::Get { id: "eg-nonexistent".to_string() }) {
        Response::NotFound { id } => assert_eq!(id, "eg-nonexistent"),
        _ => panic!("expected a not-found response"),
    }
}

#[test]
fn test_dispatch_ping_flush_shutdown() {
    let mut store = Store::new();
    assert!(matches!(handle_request(&mut store, Request::Ping), Response::Pong));
    assert!(matches!(handle_request(&mut store, Request::Flush), Response::Done));
    assert!(matches!(handle_request(&mut store, Request::Shutdown), Response::Done));
}

#[test]
fn test_dispatch_error_response() {
    let mut store = Store::new();
    let resp = handle_request(
        &mut store,
        Request::Create {
            title: String::new(),
            priority: 2,
            labels: vec![],
            description: None,
        },
    );
    match resp {
        Response::Error { message } => assert!(message.contains("title")),
        _ => panic!("expected an error response"),
    }
}

#[test]
fn test_store_error_messages() {
    let mut store = Store::new();
    let e = store.close("eg-nonexistent", None).unwrap_err();
    assert!(e.message().contains("not found"));
    let e = store.create("", 2, &[], None).unwrap_err();
    assert!(e.message().contains("title cannot be empty"));
}

#[test]
fn test_pending_lines_parse_back() {
    let mut store = Store::new();
    let item = store.create("Task", 2, &["a"], Some("d")).unwrap();
    let lines = store.take_pending();
    assert_eq!(lines.len(), 1);
    let parsed = engram::codec::parse_item_line(&lines[0]).unwrap();
    assert_eq!(parsed, item);
    assert!(store.take_pending().is_empty());
}

#[test]
fn test_timestamps_look_like_rfc3339() {
    let mut store = Store::new();
    let item = store.create("Task", 2, &[], None).unwrap();
    assert!(item.created_at.contains('T'));
    assert!(item.created_at.contains("+00:00"));
    assert_eq!(item.created_at, item.updated_at);
}

#[test]
fn test_closing_one_item_keeps_others_ready() {
    let mut store = Store::new();
    let a = store.create("A", 2, &[], None).unwrap();
    let b = store.create("B", 2, &[], None).unwrap();
    let c = store.create("C", 2, &[], None).unwrap();
    store.add_edge(&c.id, &b.id, engram::types::EdgeKind::Blocks).unwrap();
    let before: Vec<String> = store.ready().into_iter().map(|i| i.id).collect();
    assert!(before.contains(&a.id));
    store.close(&b.id, None).unwrap();
    let after: Vec<String> = store.ready().into_iter().map(|i| i.id).collect();
    for id in before {
        if id != b.id {
            assert!(after.contains(&id));
        }
    }
}

#[test]
fn test_create_read_consistency() {
    let mut store = Store::new();
    let item = store.create("Stable task", 1, &["tag"], Some("text")).unwrap();
    let other = store.create("Other", 3, &[], None).unwrap();
    assert_eq!(store.get(&item.id).unwrap(), item);
    store.close(&other.id, None).unwrap();
    assert_eq!(store.get(&item.id).unwrap(), item);
    store.update(&item.id, Some("Renamed"), None, None, None).unwrap();
    assert_eq!(store.get(&item.id).unwrap().title, "Renamed");
}

#[test]
fn test_compact_with_explicit_cutoff() {
    let mut store = Store::new();
    let a = store.create("Old A", 2, &[], Some("a description to drop")).unwrap();
    let b = store.create("Old B", 2, &[], Some("a description to shorten down")).unwrap();
    let keep = store.create("Untouched", 2, &[], Some("stays")).unwrap();
    store.close(&a.id, None).unwrap();
    store.close(&b.id, None).unwrap();

    // A cutoff after every closure makes both closed items eligible.
    let r = store.compact_with(
        engram::clock::now_rfc3339(),
        "9999-12-31T23:59:59+00:00",
        None,
    );
    assert_eq!(r.compacted_count, 2);
    assert!(r.compacted_ids.contains(&a.id));
    assert!(r.compacted_ids.contains(&b.id));
    assert!(store.get(&a.id).unwrap().description.is_none());
    assert!(store.get(&b.id).unwrap().description.is_none());
    assert_eq!(store.get(&keep.id).unwrap().description, Some("stays".to_string()));
}

#[test]
fn test_compact_with_truncation() {
    let mut store = Store::new();
    let a = store.create("Wordy", 2, &[], Some("0123456789")).unwrap();
    store.close(&a.id, None).unwrap();
    let r = store.compact_with(
        engram::clock::now_rfc3339(),
        "9999-12-31T23:59:59+00:00",
        Some(8),
    );
    assert_eq!(r.compacted_count, 1);
    assert_eq!(store.get(&a.id).unwrap().description, Some("01234...".to_string()));

    // A short enough description is left alone.
    let b = store.create("Terse", 2, &[], Some("brief")).unwrap();
    store.close(&b.id, None).unwrap();
    let r = store.compact_with(
        engram::clock::now_rfc3339(),
        "9999-12-31T23:59:59+00:00",
        Some(8),
    );
    assert_eq!(r.compacted_count, 0);
    assert_eq!(store.get(&b.id).unwrap().description, Some("brief".to_string()));
}

#[test]
fn test_batch_create_reports_failing_indices() {
    let mut store = Store::new();
    let specs = vec![
        CreateSpec::new("Fine"),
        CreateSpec::new(""),
        CreateSpec::new("Also fine"),
        CreateSpec::new("Bad priority").with_priority(9),
    ];
    let r = store.batch_create(specs);
    assert_eq!(r.created.len(), 2);
    assert_eq!(r.created[0].title, "Fine");
    assert_eq!(r.created[1].title, "Also fine");
    let idx: Vec<usize> = r.errors.iter().map(|e| e.0).collect();
    assert_eq!(idx, vec![1, 3]);
}
