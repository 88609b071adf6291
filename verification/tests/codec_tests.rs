use photocatalog::asset::{parse_tags, Metadata, MetadataUpdateRequest};
use photocatalog::codec::{apply_update, meta_from_json, meta_to_json};

fn record(created_at: i64, tags: &str, description: &str) -> Metadata {
    Metadata {
        creator_email: "user@example.com".to_string(),
        created_at,
        tags: parse_tags(tags),
        description: description.to_string(),
    }
}

#[test]
fn serialization_has_the_canonical_shape() {
    let m = record(255, "b, a", "dusk");
    let expected = "{\"createdAt\":\"00000000000000ff\",\"creatorEmail\":\"user@example.com\",\"description\":\"dusk\",\"tags\":[\"a\",\"b\"]}";
    assert_eq!(meta_to_json(&m), expected);
}

#[test]
fn empty_tag_set_serializes_to_an_empty_array() {
    let m = record(0, "", "");
    let expected = "{\"createdAt\":\"0000000000000000\",\"creatorEmail\":\"user@example.com\",\"description\":\"\",\"tags\":[]}";
    assert_eq!(meta_to_json(&m), expected);
}

#[test]
fn documents_round_trip() {
    let m = record(1_700_000_123, "sea, sky", "sunset over the bay");
    let body = meta_to_json(&m);
    let back = meta_from_json(body.as_str()).expect("canonical documents parse");
    assert_eq!(back.creator_email, m.creator_email);
    assert_eq!(back.created_at, m.created_at);
    assert_eq!(back.tags, m.tags);
    assert_eq!(back.description, m.description);
}

#[test]
fn quotes_and_backslashes_round_trip_escaped() {
    let m = record(7, "odd", "a \"quoted\" back\\slash");
    let body = meta_to_json(&m);
    assert!(body.contains("a \\\"quoted\\\" back\\\\slash"));
    let back = meta_from_json(body.as_str()).unwrap();
    assert_eq!(back.description, "a \"quoted\" back\\slash");
}

#[test]
fn malformed_documents_are_refused() {
    assert!(meta_from_json("").is_none());
    assert!(meta_from_json("{}").is_none());
    assert!(meta_from_json("not even json").is_none());
    assert!(meta_from_json("{\"createdAt\":\"xyz\"}").is_none());
    // unterminated string
    assert!(meta_from_json(
        "{\"createdAt\":\"0000000000000001\",\"creatorEmail\":\"a"
    )
    .is_none());
    // trailing garbage after the closing brace
    let ok = meta_to_json(&record(1, "", ""));
    let mut with_garbage = ok.clone();
    with_garbage.push('x');
    assert!(meta_from_json(ok.as_str()).is_some());
    assert!(meta_from_json(with_garbage.as_str()).is_none());
}

#[test]
fn parsed_tags_collapse_into_a_sorted_set() {
    let body = "{\"createdAt\":\"0000000000000001\",\"creatorEmail\":\"u@example.com\",\"description\":\"\",\"tags\":[\"b\",\"a\",\"b\"]}";
    let m = meta_from_json(body).unwrap();
    assert_eq!(m.tags, vec!["a".to_string(), "b".to_string()]);
}

#[test]
fn update_rewrites_tags_and_description_only() {
    let stored = meta_to_json(&record(42, "old", "before"));
    let req = MetadataUpdateRequest {
        tags: "new, second".to_string(),
        description: "after".to_string(),
    };
    let (updated, body) = apply_update(stored.as_str(), req).expect("stored document parses");
    assert_eq!(updated.creator_email, "user@example.com");
    assert_eq!(updated.created_at, 42);
    assert_eq!(updated.tags, vec!["new".to_string(), "second".to_string()]);
    assert_eq!(updated.description, "after");
    let back = meta_from_json(body.as_str()).unwrap();
    assert_eq!(back.created_at, 42);
    assert_eq!(back.description, "after");
}

#[test]
fn update_of_unparsable_document_yields_nothing() {
    let req = MetadataUpdateRequest { tags: String::new(), description: String::new() };
    assert!(apply_update("garbage", req).is_none());
}
