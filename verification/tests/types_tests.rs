//! Validation, status lifecycle and edge-kind behavior.

use engram::store::Store;
use engram::types::{Item, Status, EdgeKind, ValidationError};

fn make_item(title: &str) -> Item {
    let now = "2026-01-02T03:04:05.000000006+00:00".to_string();
    Item {
        id: "eg-test123456".to_string(),
        title: title.to_string(),
        description: None,
        status: Status::Open,
        priority: 2,
        labels: vec![],
        created_at: now.clone(),
        updated_at: now,
        closed_at: None,
        close_reason: None,
    }
}

#[test]
fn test_item_validation_valid() {
    let item = make_item("Valid title");
    assert!(item.validate().is_ok());
}

#[test]
fn test_item_validation_empty_title() {
    let item = make_item("");
    assert_eq!(item.validate(), Err(ValidationError::EmptyTitle));
}

#[test]
fn test_item_validation_title_too_long() {
    let item = make_item(&"x".repeat(501));
    assert_eq!(item.validate(), Err(ValidationError::TitleTooLong));
}

#[test]
fn test_item_validation_control_chars() {
    let item = make_item("Title\x00with null");
    assert_eq!(item.validate(), Err(ValidationError::InvalidCharacters));
}

#[test]
fn test_item_validation_invalid_priority() {
    let mut item = make_item("Valid title");
    item.priority = 5;
    assert_eq!(item.validate(), Err(ValidationError::InvalidPriority));
}

#[test]
fn test_item_validation_invalid_label() {
    let mut item = make_item("Valid title");
    item.labels = vec!["valid-label".to_string(), "invalid label".to_string()];
    assert_eq!(
        item.validate(),
        Err(ValidationError::InvalidLabel("invalid label".to_string()))
    );
}

#[test]
fn test_item_validation_closed_at_without_closed_status() {
    let mut item = make_item("Valid title");
    item.closed_at = Some("2026-01-02T03:04:06+00:00".to_string());
    assert_eq!(item.validate(), Err(ValidationError::ClosedAtWithoutClosedStatus));
}

#[test]
fn test_item_validation_updated_before_created() {
    let mut item = make_item("Valid title");
    item.updated_at = "2025-01-01T00:00:00+00:00".to_string();
    assert_eq!(item.validate(), Err(ValidationError::InvalidTimestamp));
}

#[test]
fn test_status_transitions() {
    assert!(Status::Open.can_transition_to(&Status::InProgress));
    assert!(Status::Open.can_transition_to(&Status::Blocked));
    assert!(Status::Open.can_transition_to(&Status::Closed));

    assert!(Status::InProgress.can_transition_to(&Status::Open));
    assert!(Status::InProgress.can_transition_to(&Status::Blocked));
    assert!(Status::InProgress.can_transition_to(&Status::Closed));

    assert!(Status::Blocked.can_transition_to(&Status::Open));
    assert!(Status::Blocked.can_transition_to(&Status::InProgress));
    assert!(Status::Blocked.can_transition_to(&Status::Closed));

    assert!(Status::Closed.can_transition_to(&Status::Open));

    assert!(!Status::Closed.can_transition_to(&Status::InProgress));
    assert!(!Status::Closed.can_transition_to(&Status::Blocked));

    assert!(Status::Open.can_transition_to(&Status::Open));
    assert!(Status::Closed.can_transition_to(&Status::Closed));
}

#[test]
fn test_edge_kind_is_blocking() {
    assert!(EdgeKind::Blocks.is_blocking());
    assert!(EdgeKind::ParentChild.is_blocking());
    assert!(!EdgeKind::Related.is_blocking());
}

#[test]
fn test_unicode_label_rejected() {
    let mut store = Store::new();
    let result = store.create("Task", 2, &["\u{1F3F7}\u{FE0F}tag"], None);
    assert!(result.is_err());
}

#[test]
fn test_empty_label_rejected() {
    let mut store = Store::new();
    let result = store.create("Task", 2, &[""], None);
    assert!(result.is_err());
}
