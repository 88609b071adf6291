use photocatalog::asset::{parse_tags, Metadata, MetadataWithName};
use photocatalog::catalog::{
    build_catalog, catalog_entries, entries_by_tag, entries_by_tag_newest_first,
    reverse_entries, sort_entries_asc, sort_samples_by_tag, tags_with_sample, RawObject,
};
use photocatalog::codec::meta_to_json;

fn entry(name: &str, created_at: i64, tags: &str, description: &str) -> MetadataWithName {
    MetadataWithName {
        metadata: Metadata {
            creator_email: "user@example.com".to_string(),
            created_at,
            tags: parse_tags(tags),
            description: description.to_string(),
        },
        name: name.to_string(),
    }
}

fn names(entries: &[MetadataWithName]) -> Vec<String> {
    entries.iter().map(|e| e.name.clone()).collect()
}

#[test]
fn listing_sorts_oldest_first() {
    let sorted = sort_entries_asc(vec![
        entry("old", 10, "a", ""),
        entry("new", 30, "a", ""),
        entry("mid", 20, "a", ""),
    ]);
    assert_eq!(names(&sorted), vec!["old", "mid", "new"]);
}

#[test]
fn listing_breaks_ties_by_name() {
    let sorted = sort_entries_asc(vec![
        entry("alpha", 10, "", ""),
        entry("gamma", 10, "", ""),
        entry("beta", 10, "", ""),
    ]);
    assert_eq!(names(&sorted), vec!["alpha", "beta", "gamma"]);
}

#[test]
fn served_views_reverse_the_listing() {
    let sorted = sort_entries_asc(vec![entry("old", 10, "a", ""), entry("new", 30, "a", "")]);
    let served = reverse_entries(sorted);
    assert_eq!(names(&served), vec!["new", "old"]);
}

#[test]
fn filter_keeps_exactly_the_tagged_entries_in_order() {
    let input = vec![
        entry("one", 30, "sea, sky", ""),
        entry("two", 20, "sky", ""),
        entry("three", 10, "sea", ""),
    ];
    let hits = entries_by_tag(&input, "sea");
    assert_eq!(names(&hits), vec!["one", "three"]);
    let misses = entries_by_tag(&input, "land");
    assert!(misses.is_empty());
}

#[test]
fn served_by_tag_view_is_most_recent_first() {
    let listing = sort_entries_asc(vec![
        entry("one", 30, "sea", ""),
        entry("two", 20, "sky", ""),
        entry("three", 10, "sea", ""),
    ]);
    let hits = entries_by_tag_newest_first(&listing, "sea");
    assert_eq!(names(&hits), vec!["one", "three"]);
}

#[test]
fn filter_matches_tags_exactly() {
    let input = vec![entry("one", 1, "Sea", "")];
    assert!(entries_by_tag(&input, "sea").is_empty());
    assert_eq!(names(&entries_by_tag(&input, "Sea")), vec!["one"]);
}

#[test]
fn aggregation_keeps_one_most_recent_representative_per_tag() {
    let samples = tags_with_sample(&vec![
        entry("old", 10, "sea, sky", ""),
        entry("new", 30, "sea", ""),
        entry("mid", 20, "sky, sun", ""),
    ]);
    let mut found = samples
        .iter()
        .map(|s| (s.tag.clone(), s.sample.name.clone()))
        .collect::<Vec<_>>();
    found.sort();
    assert_eq!(
        found,
        vec![
            ("sea".to_string(), "new".to_string()),
            ("sky".to_string(), "mid".to_string()),
            ("sun".to_string(), "mid".to_string()),
        ]
    );
}

#[test]
fn aggregation_is_order_independent() {
    let a = vec![
        entry("old", 10, "sea, sky", ""),
        entry("new", 30, "sea", ""),
        entry("mid", 20, "sky, sun", ""),
    ];
    let b = vec![a[2].duplicate(), a[0].duplicate(), a[1].duplicate()];
    let collect = |v: &Vec<photocatalog::catalog::TagSample>| {
        let mut out = v
            .iter()
            .map(|s| (s.tag.clone(), s.sample.name.clone(), s.sample.metadata.created_at))
            .collect::<Vec<_>>();
        out.sort();
        out
    };
    assert_eq!(collect(&tags_with_sample(&a)), collect(&tags_with_sample(&b)));
}

#[test]
fn aggregation_breaks_created_at_ties_by_name() {
    let samples = tags_with_sample(&vec![
        entry("alpha", 10, "sea", ""),
        entry("beta", 10, "sea", ""),
    ]);
    assert_eq!(samples.len(), 1);
    assert_eq!(samples[0].tag, "sea");
    assert_eq!(samples[0].sample.name, "beta");
}

#[test]
fn aggregation_serves_in_ascending_tag_order() {
    let samples = sort_samples_by_tag(tags_with_sample(&vec![
        entry("one", 1, "zebra, apple, mango", ""),
    ]));
    let tags: Vec<String> = samples.iter().map(|s| s.tag.clone()).collect();
    assert_eq!(tags, vec!["apple".to_string(), "mango".to_string(), "zebra".to_string()]);
}

#[test]
fn listing_skips_unparsable_objects_silently() {
    let good = Metadata {
        creator_email: "user@example.com".to_string(),
        created_at: 5,
        tags: parse_tags("a"),
        description: "fine".to_string(),
    };
    let objects = vec![
        RawObject {
            key: "metadata/x.json".to_string(),
            body: "this is not a metadata document".to_string(),
        },
        RawObject { key: "metadata/y.json".to_string(), body: meta_to_json(&good) },
    ];
    let catalog = build_catalog(&objects);
    assert_eq!(names(&catalog), vec!["y"]);
    assert_eq!(catalog[0].metadata.description, "fine");
}

#[test]
fn catalog_entries_come_back_in_listing_order() {
    let early = Metadata {
        creator_email: "user@example.com".to_string(),
        created_at: 1,
        tags: parse_tags("a"),
        description: String::new(),
    };
    let late = Metadata {
        creator_email: "user@example.com".to_string(),
        created_at: 9,
        tags: parse_tags("a"),
        description: String::new(),
    };
    let objects = vec![
        RawObject { key: "metadata/early.json".to_string(), body: meta_to_json(&early) },
        RawObject { key: "metadata/late.json".to_string(), body: meta_to_json(&late) },
    ];
    let catalog = catalog_entries(&objects);
    assert_eq!(names(&catalog), vec!["early", "late"]);
    let served = reverse_entries(catalog);
    assert_eq!(names(&served), vec!["late", "early"]);
}
