//! The catalog's data model: photo metadata, the object-store key scheme,
//! and tag parsing.
//!
//! A photo's tags form a set: parsing collapses duplicates and trims
//! whitespace, and the set is stored as a strictly sorted vector.

use vstd::prelude::*;

use crate::text::{
    concat_str, insert_sorted, lex_lt, str_ends_with, str_set, str_starts_with, strictly_sorted,
    trim_segment, trim_spec,
};

verus! {

/// The mathematical value of a metadata record: plain sequences, an
/// unordered tag set, and an unbounded integer timestamp.
#[verifier::ext_equal]
pub ghost struct MetadataView {
    pub creator_email: Seq<char>,
    pub created_at: int,
    pub tags: Set<Seq<char>>,
    pub description: Seq<char>,
}

/// The mathematical value of a named catalog entry.
#[verifier::ext_equal]
pub ghost struct EntryView {
    pub metadata: MetadataView,
    pub name: Seq<char>,
}

impl EntryView {
    /// Strict ordering of catalog entries: by creation time, ties broken
    /// by name.
    pub open spec fn lt(self, other: Self) -> bool {
        self.metadata.created_at < other.metadata.created_at
            || (self.metadata.created_at == other.metadata.created_at && lex_lt(
            self.name,
            other.name,
        ))
    }
}

/// One photo's metadata. `created_at` is the authoritative ordering key,
/// set once at creation and preserved by updates.
pub struct Metadata {
    pub creator_email: String,
    pub created_at: i64,
    pub tags: Vec<String>,
    pub description: String,
}

impl View for Metadata {
    type V = MetadataView;

    open spec fn view(&self) -> MetadataView {
        MetadataView {
            creator_email: self.creator_email@,
            created_at: self.created_at as int,
            tags: str_set(self.tags@),
            description: self.description@,
        }
    }
}

impl DeepView for Metadata {
    type V = MetadataView;

    open spec fn deep_view(&self) -> MetadataView {
        self.view()
    }
}

/// A metadata record's internal invariant: the tag vector is strictly
/// sorted, so it represents a set.
impl Metadata {
    pub open spec fn wf(&self) -> bool {
        strictly_sorted(self.tags@)
    }

    /// Attaches the catalog-unique name derived from the object key.
    pub fn with_name(self, name: String) -> (r: MetadataWithName)
        ensures
            r.metadata == self,
            r.name == name,
    {
        MetadataWithName { metadata: self, name }
    }

    /// An equal copy of this record.
    pub fn duplicate(&self) -> (r: Self)
        ensures
            r@ == self@,
            r.tags@ == self.tags@,
            r.created_at == self.created_at,
            r.creator_email == self.creator_email,
            r.description == self.description,
    {
        let r = Metadata {
            creator_email: self.creator_email.clone(),
            created_at: self.created_at,
            tags: clone_strings(&self.tags),
            description: self.description.clone(),
        };
        proof {
            assert(r@ =~= self@);
        }
        r
    }
}

/// Metadata together with the photo's catalog-unique name. The pair
/// `(created_at, name)` orders entries totally.
pub struct MetadataWithName {
    pub metadata: Metadata,
    pub name: String,
}

impl View for MetadataWithName {
    type V = EntryView;

    open spec fn view(&self) -> EntryView {
        EntryView { metadata: self.metadata@, name: self.name@ }
    }
}

impl DeepView for MetadataWithName {
    type V = EntryView;

    open spec fn deep_view(&self) -> EntryView {
        self.view()
    }
}

impl MetadataWithName {
    pub open spec fn wf(&self) -> bool {
        self.metadata.wf()
    }

    /// An equal copy of this entry.
    pub fn duplicate(&self) -> (r: Self)
        ensures
            r@ == self@,
            r.metadata.tags@ == self.metadata.tags@,
            r.name@ == self.name@,
    {
        let r = MetadataWithName {
            metadata: self.metadata.duplicate(),
            name: self.name.clone(),
        };
        proof {
            assert(r@ =~= self@);
        }
        r
    }
}

/// An equal copy of a vector of strings.
fn clone_strings(v: &Vec<String>) -> (r: Vec<String>)
    ensures
        r@ == v@,
{
    let mut r: Vec<String> = Vec::new();
    let mut i: usize = 0;
    while i < v.len()
        invariant
            0 <= i <= v@.len(),
            r@ == v@.subrange(0, i as int),
        decreases v@.len() - i,
    {
        r.push(v[i].clone());
        proof {
            assert(r@ =~= v@.subrange(0, i + 1));
        }
        i = i + 1;
    }
    proof {
        assert(r@ =~= v@);
    }
    r
}

/// The object key holding a photo's bytes.
pub open spec fn photo_key_spec(name: Seq<char>) -> Seq<char> {
    "photo/"@ + name
}

/// The object key holding a photo's metadata document.
pub open spec fn metadata_key_spec(name: Seq<char>) -> Seq<char> {
    "metadata/"@ + name + ".json"@
}

pub fn key_photo(name: &str) -> (r: String)
    ensures
        r@ == photo_key_spec(name@),
{
    concat_str("photo/", name)
}

pub fn key_metadata(name: &str) -> (r: String)
    ensures
        r@ == metadata_key_spec(name@),
{
    let head = concat_str("metadata/", name);
    let r = concat_str(head.as_str(), ".json");
    proof {
        assert(r@ =~= metadata_key_spec(name@));
    }
    r
}

/// The photo name a metadata object key denotes: the key with the
/// `metadata/` prefix and the `.json` suffix stripped. A key missing
/// either part falls back to the full key.
pub open spec fn name_of_key_spec(k: Seq<char>) -> Seq<char> {
    let p = "metadata/"@;
    let x = ".json"@;
    let stripped = if k.len() >= p.len() && k.subrange(0, p.len() as int) == p {
        k.skip(p.len() as int)
    } else {
        k
    };
    if stripped.len() >= x.len() && stripped.subrange(
        stripped.len() - x.len(),
        stripped.len() as int,
    ) == x {
        stripped.take(stripped.len() - x.len())
    } else {
        k
    }
}

pub fn name_of_key(key: &str) -> (r: String)
    ensures
        r@ == name_of_key_spec(key@),
{
    let lk = key.unicode_len();
    let lp = "metadata/".unicode_len();
    let stripped: &str = if str_starts_with(key, "metadata/") {
        key.substring_char(lp, lk)
    } else {
        key
    };
    proof {
        reveal_strlit("metadata/");
    }
    let lx = ".json".unicode_len();
    let ls = stripped.unicode_len();
    let r: String = if str_ends_with(stripped, ".json") {
        stripped.substring_char(0, ls - lx).to_owned()
    } else {
        key.to_owned()
    };
    proof {
        reveal_strlit(".json");
        assert(r@ =~= name_of_key_spec(key@));
    }
    r
}

/// The tag a segment of the raw tag string contributes: its trimmed text,
/// unless trimming leaves nothing.
pub open spec fn seg_tag(s: Seq<char>, a: int, b: int) -> Set<Seq<char>> {
    let t = trim_spec(s.subrange(a, b));
    if t.len() == 0 {
        Set::empty()
    } else {
        Set::empty().insert(t)
    }
}

/// The tags contributed by the rest of `s` from position `i`, where the
/// current comma-separated segment started at `seg`.
pub open spec fn tags_from(s: Seq<char>, i: int, seg: int) -> Set<Seq<char>>
    decreases s.len() - i,
{
    if i >= s.len() {
        seg_tag(s, seg, s.len() as int)
    } else if s[i] == ',' {
        seg_tag(s, seg, i).union(tags_from(s, i + 1, i + 1))
    } else {
        tags_from(s, i + 1, seg)
    }
}

/// The set of tags a raw comma-separated tag string denotes: each segment
/// trimmed, empty segments dropped, duplicates collapsed.
pub open spec fn tags_of(s: Seq<char>) -> Set<Seq<char>> {
    tags_from(s, 0, 0)
}

/// Parses a raw comma-separated tag string into the strictly sorted
/// vector representing its tag set.
pub fn parse_tags(tags: &str) -> (r: Vec<String>)
    ensures
        strictly_sorted(r@),
        str_set(r@) == tags_of(tags@),
{
    let len = tags.unicode_len();
    let mut acc: Vec<String> = Vec::new();
    let mut seg: usize = 0;
    let mut i: usize = 0;
    proof {
        assert(str_set(acc@) =~= Set::<Seq<char>>::empty());
        assert(tags_of(tags@) =~= str_set(acc@).union(tags_from(tags@, 0, 0)));
    }
    while i < len
        invariant
            0 <= seg <= i <= len,
            len == tags@.len(),
            strictly_sorted(acc@),
            tags_of(tags@) == str_set(acc@).union(tags_from(tags@, i as int, seg as int)),
        decreases len - i,
    {
        let c = tags.get_char(i);
        if c == ',' {
            let ghost pre = acc@;
            let t = trim_segment(tags, seg, i);
            if t.as_str().unicode_len() > 0 {
                insert_sorted(&mut acc, t);
            }
            proof {
                assert(str_set(acc@).union(tags_from(tags@, i + 1, i + 1)) =~= str_set(
                    pre,
                ).union(tags_from(tags@, i as int, seg as int)));
            }
            seg = i + 1;
        }
        i = i + 1;
    }
    let ghost pre = acc@;
    let t = trim_segment(tags, seg, len);
    if t.as_str().unicode_len() > 0 {
        insert_sorted(&mut acc, t);
    }
    proof {
        assert(str_set(acc@) =~= str_set(pre).union(tags_from(tags@, len as int, seg as int)));
    }
    acc
}

/// The request that creates a photo: raw tags and a description.
pub struct MetadataCreationRequest {
    pub tags: String,
    pub description: String,
}

impl MetadataCreationRequest {
    /// Builds the stored metadata for a new photo: the creator and the
    /// creation instant are fixed here, and the raw tag string becomes a
    /// tag set.
    pub fn create(self, creator_email: String, now: i64) -> (m: Metadata)
        ensures
            m.wf(),
            m.creator_email == creator_email,
            m.created_at == now,
            m@.tags == tags_of(self.tags@),
            m.description == self.description,
    {
        let MetadataCreationRequest { tags, description } = self;
        let tags = parse_tags(tags.as_str());
        Metadata { creator_email, created_at: now, tags, description }
    }
}

/// The request that updates a photo's metadata: raw tags and a
/// description.
pub struct MetadataUpdateRequest {
    pub tags: String,
    pub description: String,
}

impl MetadataUpdateRequest {
    /// Applies an update to an existing record: tags and description are
    /// replaced, while the original creator and creation instant are
    /// preserved.
    pub fn update(self, current: Metadata) -> (m: Metadata)
        ensures
            m.wf(),
            m.creator_email == current.creator_email,
            m.created_at == current.created_at,
            m@.tags == tags_of(self.tags@),
            m.description == self.description,
    {
        let MetadataUpdateRequest { tags, description } = self;
        let tags = parse_tags(tags.as_str());
        Metadata {
            creator_email: current.creator_email,
            created_at: current.created_at,
            tags,
            description,
        }
    }
}

} // verus!
