use photocatalog::asset::{
    key_metadata, key_photo, name_of_key, parse_tags, Metadata, MetadataCreationRequest,
    MetadataUpdateRequest,
};

#[test]
fn parse_tags_trims_collapses_and_sorts() {
    let tags = parse_tags("a, b, b, c");
    assert_eq!(tags, vec!["a".to_string(), "b".to_string(), "c".to_string()]);
}

#[test]
fn parse_tags_drops_empty_segments() {
    let tags = parse_tags(" , x ,, y ,");
    assert_eq!(tags, vec!["x".to_string(), "y".to_string()]);
}

#[test]
fn parse_tags_of_empty_string_is_empty() {
    assert_eq!(parse_tags(""), Vec::<String>::new());
    assert_eq!(parse_tags("   "), Vec::<String>::new());
}

#[test]
fn parse_tags_keeps_inner_whitespace() {
    let tags = parse_tags("red sunset, blue sky");
    assert_eq!(tags, vec!["blue sky".to_string(), "red sunset".to_string()]);
}

#[test]
fn key_scheme_is_fixed() {
    assert_eq!(key_photo("pic1"), "photo/pic1");
    assert_eq!(key_metadata("pic1"), "metadata/pic1.json");
}

#[test]
fn name_of_key_strips_prefix_and_suffix() {
    assert_eq!(name_of_key("metadata/pic1.json"), "pic1");
}

#[test]
fn name_of_key_falls_back_to_the_full_key() {
    assert_eq!(name_of_key("metadata/pic1"), "metadata/pic1");
    assert_eq!(name_of_key("pic1.json"), "pic1");
    assert_eq!(name_of_key("other/pic1"), "other/pic1");
}

#[test]
fn create_fixes_creator_and_instant() {
    let req = MetadataCreationRequest {
        tags: "a, b, b, c".to_string(),
        description: "three tags".to_string(),
    };
    let m = req.create("user@example.com".to_string(), 1_700_000_000);
    assert_eq!(m.creator_email, "user@example.com");
    assert_eq!(m.created_at, 1_700_000_000);
    assert_eq!(m.tags, vec!["a".to_string(), "b".to_string(), "c".to_string()]);
    assert_eq!(m.description, "three tags");
}

#[test]
fn update_preserves_creator_and_instant() {
    let current = Metadata {
        creator_email: "owner@example.com".to_string(),
        created_at: 1_600_000_000,
        tags: parse_tags("old"),
        description: "before".to_string(),
    };
    let req = MetadataUpdateRequest {
        tags: "new, tags".to_string(),
        description: "after".to_string(),
    };
    let m = req.update(current);
    assert_eq!(m.creator_email, "owner@example.com");
    assert_eq!(m.created_at, 1_600_000_000);
    assert_eq!(m.tags, vec!["new".to_string(), "tags".to_string()]);
    assert_eq!(m.description, "after");
}
