//! The record line format: exact shapes and round trips.

use engram::codec::{parse_edge_line, parse_item_line, serialize_edge, serialize_item};
use engram::types::{Edge, EdgeKind, Item, Status};

fn sample_item() -> Item {
    Item {
        id: "eg-0123456789".to_string(),
        title: "Test item".to_string(),
        description: Some("A test description".to_string()),
        status: Status::Open,
        priority: 2,
        labels: vec!["test".to_string(), "example".to_string()],
        created_at: "2026-01-02T03:04:05+00:00".to_string(),
        updated_at: "2026-01-02T03:04:05+00:00".to_string(),
        closed_at: None,
        close_reason: None,
    }
}

#[test]
fn test_item_serialization_roundtrip() {
    let item = sample_item();
    let json = serialize_item(&item);
    let deserialized: Item = parse_item_line(&json).unwrap();
    assert_eq!(item, deserialized);
}

#[test]
fn test_edge_serialization_roundtrip() {
    let edge = Edge {
        from_id: "eg-child00001".to_string(),
        to_id: "eg-parent0001".to_string(),
        kind: EdgeKind::Blocks,
        created_at: "2026-01-02T03:04:05+00:00".to_string(),
        deleted: false,
    };
    let json = serialize_edge(&edge);
    let deserialized: Edge = parse_edge_line(&json).unwrap();
    assert_eq!(edge, deserialized);
}

#[test]
fn test_item_line_exact_shape() {
    let mut item = sample_item();
    item.description = None;
    item.labels = vec![];
    let json = serialize_item(&item);
    assert_eq!(
        json,
        "{\"id\":\"eg-0123456789\",\"title\":\"Test item\",\"status\":\"open\",\"priority\":2,\"created_at\":\"2026-01-02T03:04:05+00:00\",\"updated_at\":\"2026-01-02T03:04:05+00:00\"}"
    );
}

#[test]
fn test_item_line_full_shape() {
    let mut item = sample_item();
    item.status = Status::Closed;
    item.closed_at = Some("2026-01-03T00:00:00+00:00".to_string());
    item.close_reason = Some("done".to_string());
    let json = serialize_item(&item);
    assert_eq!(
        json,
        "{\"id\":\"eg-0123456789\",\"title\":\"Test item\",\"description\":\"A test description\",\"status\":\"closed\",\"priority\":2,\"labels\":[\"test\",\"example\"],\"created_at\":\"2026-01-02T03:04:05+00:00\",\"updated_at\":\"2026-01-02T03:04:05+00:00\",\"closed_at\":\"2026-01-03T00:00:00+00:00\",\"close_reason\":\"done\"}"
    );
}

#[test]
fn test_edge_tombstone_shape() {
    let edge = Edge {
        from_id: "eg-aaaaaaaaaa".to_string(),
        to_id: "eg-bbbbbbbbbb".to_string(),
        kind: EdgeKind::ParentChild,
        created_at: "2026-01-02T03:04:05+00:00".to_string(),
        deleted: true,
    };
    let json = serialize_edge(&edge);
    assert_eq!(
        json,
        "{\"from_id\":\"eg-aaaaaaaaaa\",\"to_id\":\"eg-bbbbbbbbbb\",\"kind\":\"parent_child\",\"created_at\":\"2026-01-02T03:04:05+00:00\",\"deleted\":true}"
    );
}

#[test]
fn test_escapes_roundtrip() {
    let mut item = sample_item();
    item.title = "quote \" backslash \\ and more".to_string();
    item.description = Some("line1\nline2\ttabbed \u{1F680} unicode".to_string());
    item.close_reason = None;
    let json = serialize_item(&item);
    assert!(!json.contains('\n'));
    let back = parse_item_line(&json).unwrap();
    assert_eq!(item, back);
}

#[test]
fn test_corrupt_lines_rejected() {
    assert!(parse_item_line("not json at all").is_none());
    assert!(parse_item_line("").is_none());
    assert!(parse_item_line("{\"id\":\"eg-0123456789\"}").is_none());
    assert!(parse_edge_line("{\"from_id\":\"x\"").is_none());
    let item = sample_item();
    let mut json = serialize_item(&item);
    json.pop();
    assert!(parse_item_line(&json).is_none());
}

#[test]
fn test_roundtrip_laws() {
    let item = sample_item();
    let back = engram::laws::decode_of_encode_item(&item).unwrap();
    assert_eq!(item, back);
    let edge = Edge {
        from_id: "eg-1111111111".to_string(),
        to_id: "eg-2222222222".to_string(),
        kind: EdgeKind::Related,
        created_at: "2026-02-03T04:05:06+00:00".to_string(),
        deleted: false,
    };
    let back = engram::laws::decode_of_encode_edge(&edge).unwrap();
    assert_eq!(edge, back);
}

#[test]
fn test_noncanonical_lines_rejected() {
    // The store accepts exactly the lines it writes: reordered keys, extra
    // whitespace or an explicit empty label array are treated as corrupt.
    assert!(parse_item_line(
        "{\"title\":\"T\",\"id\":\"eg-0123456789\",\"status\":\"open\",\"priority\":2,\"created_at\":\"a\",\"updated_at\":\"a\"}"
    )
    .is_none());
    assert!(parse_item_line(
        "{ \"id\":\"eg-0123456789\",\"title\":\"T\",\"status\":\"open\",\"priority\":2,\"created_at\":\"a\",\"updated_at\":\"a\"}"
    )
    .is_none());
    assert!(parse_item_line(
        "{\"id\":\"eg-0123456789\",\"title\":\"T\",\"status\":\"open\",\"priority\":2,\"labels\":[],\"created_at\":\"a\",\"updated_at\":\"a\"}"
    )
    .is_none());
    assert!(parse_item_line(
        "{\"id\":\"eg-0123456789\",\"title\":\"T\",\"status\":\"open\",\"priority\":02,\"created_at\":\"a\",\"updated_at\":\"a\"}"
    )
    .is_none());
}
