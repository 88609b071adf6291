use photocatalog::asset::{parse_tags, Metadata, MetadataWithName};
use photocatalog::search::{build_index, search_text};
use simsearch::SearchOptions;

fn entry(name: &str, description: &str, tags: &str) -> MetadataWithName {
    MetadataWithName {
        metadata: Metadata {
            creator_email: "user@example.com".to_string(),
            created_at: 1,
            tags: parse_tags(tags),
            description: description.to_string(),
        },
        name: name.to_string(),
    }
}

fn options() -> SearchOptions {
    SearchOptions::new()
        .stop_words(vec!["-".to_string(), "_".to_string(), ".".to_string()])
        .threshold(0.6)
}

#[test]
fn searchable_text_joins_name_description_and_tags() {
    let e = entry("pic1", "a fine view", "sea, sky");
    assert_eq!(search_text(&e), "pic1\na fine view\nsea\nsky");
    let bare = entry("pic2", "", "");
    assert_eq!(search_text(&bare), "pic2\n\n");
}

#[test]
fn search_surfaces_matching_descriptions() {
    let entries = vec![
        entry("one", "sunset over the bay", ""),
        entry("two", "a gray owl", ""),
    ];
    let hits = build_index(options(), entries).search("sunset");
    assert!(hits.iter().any(|e| e.name == "one"));
}

#[test]
fn entries_below_the_threshold_are_excluded() {
    let entries = vec![
        entry("one", "sunset over the bay", ""),
        entry("two", "zzzz qqqq", ""),
    ];
    let hits = build_index(options(), entries).search("sunset");
    assert!(!hits.iter().any(|e| e.name == "two"));
}

#[test]
fn tags_are_searchable() {
    let entries = vec![entry("one", "", "mountain"), entry("two", "", "harbor")];
    let hits = build_index(options(), entries).search("mountain");
    assert!(hits.iter().any(|e| e.name == "one"));
    assert!(!hits.iter().any(|e| e.name == "two"));
}

#[test]
fn results_never_exceed_thirty() {
    let mut entries = Vec::new();
    for i in 0..40 {
        entries.push(entry(&format!("pic{}", i), "sunset over the bay", ""));
    }
    let hits = build_index(options(), entries).search("sunset");
    assert!(hits.len() <= 30);
    assert!(hits.len() > 0);
}

#[test]
fn no_match_means_no_results() {
    let entries = vec![entry("one", "sunset over the bay", "")];
    let hits = build_index(options(), entries).search("xylophone");
    assert!(hits.is_empty());
}
