//! Boundary behaviors: unicode, lengths, priorities, labels, descriptions.

use engram::store::Store;
use engram::types::Status;

#[test]
fn test_empty_store_ready() {
    let store = Store::new();
    assert!(store.ready().is_empty());
}

#[test]
fn test_empty_store_blocked() {
    let store = Store::new();
    assert!(store.blocked().is_empty());
}

#[test]
fn test_empty_store_list() {
    let store = Store::new();
    assert!(store.list(None).is_empty());
}

#[test]
fn test_empty_store_list_by_status() {
    let store = Store::new();
    assert!(store.list(Some(Status::Open)).is_empty());
    assert!(store.list(Some(Status::Closed)).is_empty());
}

#[test]
fn test_unicode_title_emoji() {
    let mut store = Store::new();
    let item = store.create("Task with emoji: \u{1F680}", 2, &[], None).unwrap();
    assert_eq!(item.title, "Task with emoji: \u{1F680}");
    assert_eq!(store.get(&item.id).unwrap().title, "Task with emoji: \u{1F680}");
}

#[test]
fn test_unicode_title_chinese() {
    let mut store = Store::new();
    let item = store.create("\u{4E2D}\u{6587}\u{4EFB}\u{52A1}", 2, &[], None).unwrap();
    assert_eq!(item.title, "\u{4E2D}\u{6587}\u{4EFB}\u{52A1}");
    assert!(item.id.starts_with("eg-"));
}

#[test]
fn test_unicode_title_arabic() {
    let mut store = Store::new();
    let item = store.create("\u{0645}\u{0647}\u{0645}\u{0629}", 2, &[], None).unwrap();
    assert_eq!(item.title, "\u{0645}\u{0647}\u{0645}\u{0629}");
}

#[test]
fn test_unicode_description() {
    let mut store = Store::new();
    let item = store.create("Task", 2, &[], Some("Description with \u{1F4DD} emoji")).unwrap();
    assert_eq!(item.description, Some("Description with \u{1F4DD} emoji".to_string()));
}

#[test]
fn test_priority_zero_critical() {
    let mut store = Store::new();
    let item = store.create("Critical task", 0, &[], None).unwrap();
    assert_eq!(item.priority, 0);
}

#[test]
fn test_priority_four_low() {
    let mut store = Store::new();
    let item = store.create("Low priority task", 4, &[], None).unwrap();
    assert_eq!(item.priority, 4);
}

#[test]
fn test_priority_all_valid_values() {
    let mut store = Store::new();
    for p in 0..=4u8 {
        let title = format!("Priority {}", p);
        assert!(store.create(&title, p, &[], None).is_ok());
    }
}

#[test]
fn test_title_length_one_char() {
    let mut store = Store::new();
    assert!(store.create("x", 2, &[], None).is_ok());
}

#[test]
fn test_title_length_max_valid() {
    let mut store = Store::new();
    let title = "x".repeat(500);
    assert!(store.create(&title, 2, &[], None).is_ok());
}

#[test]
fn test_title_length_just_over_max() {
    let mut store = Store::new();
    let title = "x".repeat(501);
    assert!(store.create(&title, 2, &[], None).is_err());
}

#[test]
fn test_description_very_long() {
    let mut store = Store::new();
    let desc = "d".repeat(10000);
    let item = store.create("Task", 2, &[], Some(&desc)).unwrap();
    assert_eq!(item.description.unwrap().len(), 10000);
}

#[test]
fn test_description_empty_string() {
    let mut store = Store::new();
    let item = store.create("Task", 2, &[], Some("")).unwrap();
    assert_eq!(item.description, Some(String::new()));
}

#[test]
fn test_description_with_newlines() {
    let mut store = Store::new();
    let item = store.create("Task", 2, &[], Some("Line 1\nLine 2\nLine 3")).unwrap();
    assert_eq!(item.description, Some("Line 1\nLine 2\nLine 3".to_string()));
}

#[test]
fn test_description_removal() {
    let mut store = Store::new();
    let item = store.create("Task", 2, &[], Some("Original description")).unwrap();
    let updated = store.update(&item.id, None, Some(None), None, None).unwrap();
    assert!(updated.description.is_none());
    assert!(store.get(&item.id).unwrap().description.is_none());
}

#[test]
fn test_many_labels() {
    let mut store = Store::new();
    let labels: Vec<String> = (0..50).map(|i| format!("label{}", i)).collect();
    let refs: Vec<&str> = labels.iter().map(|s| s.as_str()).collect();
    let item = store.create("Task", 2, &refs, None).unwrap();
    assert_eq!(item.labels.len(), 50);
}

#[test]
fn test_empty_labels_list() {
    let mut store = Store::new();
    let item = store.create("Task", 2, &[], None).unwrap();
    assert!(item.labels.is_empty());
}

#[test]
fn test_label_with_hyphen() {
    let mut store = Store::new();
    let item = store.create("Task", 2, &["my-label"], None).unwrap();
    assert_eq!(item.labels, vec!["my-label"]);
}

#[test]
fn test_label_with_underscore() {
    let mut store = Store::new();
    let item = store.create("Task", 2, &["my_label"], None).unwrap();
    assert_eq!(item.labels, vec!["my_label"]);
}

#[test]
fn test_id_format() {
    let mut store = Store::new();
    let item = store.create("Test task", 2, &[], None).unwrap();
    assert!(item.id.starts_with("eg-"));
    assert_eq!(item.id.len(), 13);
}

#[test]
fn test_unique_ids_for_same_title() {
    let mut store = Store::new();
    let mut ids = std::collections::HashSet::new();
    for _ in 0..10 {
        let item = store.create("Same title", 2, &[], None).unwrap();
        ids.insert(item.id);
    }
    assert_eq!(ids.len(), 10);
}

#[test]
fn test_close_with_empty_reason() {
    let mut store = Store::new();
    let item = store.create("Task", 2, &[], None).unwrap();
    let closed = store.close(&item.id, Some("")).unwrap();
    assert_eq!(closed.close_reason, Some(String::new()));
}

#[test]
fn test_close_with_long_reason() {
    let mut store = Store::new();
    let item = store.create("Task", 2, &[], None).unwrap();
    let reason = "r".repeat(1000);
    let closed = store.close(&item.id, Some(&reason)).unwrap();
    assert_eq!(closed.close_reason.unwrap().len(), 1000);
}

#[test]
fn test_close_with_no_reason() {
    let mut store = Store::new();
    let item = store.create("Task", 2, &[], None).unwrap();
    let closed = store.close(&item.id, None).unwrap();
    assert!(closed.close_reason.is_none());
}

#[test]
fn test_generate_id_format() {
    let id = engram::id::generate_id("Test title");
    assert!(id.starts_with("eg-"));
    assert_eq!(id.len(), 13);
}

#[test]
fn test_generate_id_uniqueness() {
    let id1 = engram::id::generate_id("Same title");
    let id2 = engram::id::generate_id("Same title");
    assert_ne!(id1, id2);
}

#[test]
fn test_generate_id_different_titles() {
    let id1 = engram::id::generate_id("Title one");
    let id2 = engram::id::generate_id("Title two");
    assert_ne!(id1, id2);
}
