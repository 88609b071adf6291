//! The catalog projection: the views served to clients, derived afresh on
//! every read from the metadata records found in the object store.
//!
//! The listing itself iterates ascending by (`created_at`, name), as the
//! store's ordered key set does; the served views reverse it to most
//! recent first. Tag aggregation keeps, for every tag, the most recent
//! entry carrying it.

use vstd::prelude::*;

use crate::asset::{EntryView, MetadataWithName};
use crate::text::{lex_lt, str_eq, str_lex_lt};

verus! {

broadcast use vstd::seq_lib::group_to_multiset_ensures;

/// Descending recency order: no entry is strictly greater than an earlier
/// one.
pub open spec fn sorted_desc(s: Seq<EntryView>) -> bool {
    forall|i: int, j: int| 0 <= i < j < s.len() ==> !(#[trigger] s[i]).lt(#[trigger] s[j])
}

/// The entry order is transitive.
pub proof fn lemma_entry_lt_transitive(a: EntryView, b: EntryView, c: EntryView)
    requires
        a.lt(b),
        b.lt(c),
    ensures
        a.lt(c),
{
    if a.metadata.created_at == b.metadata.created_at && b.metadata.created_at
        == c.metadata.created_at {
        crate::text::lemma_lex_transitive(a.name, b.name, c.name);
    }
}

/// The entry order is irreflexive.
pub proof fn lemma_entry_lt_irreflexive(a: EntryView)
    ensures
        !a.lt(a),
{
    crate::text::lemma_lex_connected(a.name, a.name);
}

/// Two entries neither of which precedes the other share the ordering
/// key: the same creation time and the same name.
pub proof fn lemma_entry_key_connected(a: EntryView, b: EntryView)
    requires
        !a.lt(b),
        !b.lt(a),
    ensures
        a.metadata.created_at == b.metadata.created_at,
        a.name == b.name,
{
    crate::text::lemma_lex_connected(a.name, b.name);
}

/// Decides the strict entry order.
pub fn entry_lt(a: &MetadataWithName, b: &MetadataWithName) -> (r: bool)
    ensures
        r == a@.lt(b@),
{
    if a.metadata.created_at < b.metadata.created_at {
        true
    } else if a.metadata.created_at == b.metadata.created_at {
        str_lex_lt(a.name.as_str(), b.name.as_str())
    } else {
        false
    }
}

/// Ascending recency order: no entry is strictly less than an earlier
/// one. This is the order the store listing itself iterates in.
pub open spec fn sorted_asc(s: Seq<EntryView>) -> bool {
    forall|i: int, j: int| 0 <= i < j < s.len() ==> !(#[trigger] s[j]).lt(#[trigger] s[i])
}

/// Inserts an entry into an ascending-sorted vector, keeping the order.
fn insert_asc(r: &mut Vec<MetadataWithName>, e: MetadataWithName)
    requires
        sorted_asc(old(r).deep_view()),
    ensures
        sorted_asc(final(r).deep_view()),
        final(r).deep_view().to_multiset() == old(r).deep_view().to_multiset().insert(
            e.deep_view(),
        ),
{
    let ghost oldv = r.deep_view();
    let mut i: usize = 0;
    while i < r.len() && entry_lt(&r[i], &e)
        invariant
            0 <= i <= r.len(),
            r.deep_view() == oldv,
            forall|k: int| 0 <= k < i ==> (#[trigger] oldv[k]).lt(e@),
        decreases r.len() - i,
    {
        i = i + 1;
    }
    assert(i < r.len() ==> !oldv[i as int].lt(e@));
    r.insert(i, e);
    proof {
        assert(r.deep_view() =~= oldv.insert(i as int, e@));
        assert forall|p: int, q: int|
            0 <= p < q < r.deep_view().len() implies !(#[trigger] r.deep_view()[q]).lt(
            #[trigger] r.deep_view()[p],
        ) by {
            let s = r.deep_view();
            if q < i {
            } else if q == i {
                // e stands after what it exceeds
                assert(s[p] == oldv[p]);
                assert(oldv[p].lt(e@));
                if e@.lt(oldv[p]) {
                    lemma_entry_lt_transitive(oldv[p], e@, oldv[p]);
                    lemma_entry_lt_irreflexive(oldv[p]);
                }
            } else if p == i {
                // nothing after e falls below it
                assert(s[q] == oldv[q - 1]);
                if q - 1 == i {
                    assert(!oldv[i as int].lt(e@));
                } else if oldv[q - 1].lt(e@) {
                    if oldv[i as int].lt(oldv[q - 1]) {
                        lemma_entry_lt_transitive(oldv[i as int], oldv[q - 1], e@);
                    } else {
                        // neither precedes the other: same ordering key,
                        // so both relate to e alike
                        lemma_entry_key_connected(oldv[q - 1], oldv[i as int]);
                    }
                    assert(false);
                }
            } else if p > i {
                assert(s[p] == oldv[p - 1] && s[q] == oldv[q - 1]);
            } else {
                // p < i < q
                assert(s[p] == oldv[p] && s[q] == oldv[q - 1]);
            }
        }
        vstd::seq_lib::to_multiset_insert(oldv, i as int, e@);
    }
}

/// Sorts catalog entries into the listing order: oldest first, names
/// breaking ties. The result holds exactly the given entries.
pub fn sort_entries_asc(entries: Vec<MetadataWithName>) -> (r: Vec<MetadataWithName>)
    ensures
        sorted_asc(r.deep_view()),
        r.deep_view().to_multiset() == entries.deep_view().to_multiset(),
{
    let mut rest = entries;
    let mut out: Vec<MetadataWithName> = Vec::new();
    proof {
        assert(out.deep_view() =~= Seq::<EntryView>::empty());
    }
    while rest.len() > 0
        invariant
            sorted_asc(out.deep_view()),
            out.deep_view().to_multiset().add(rest.deep_view().to_multiset())
                == entries.deep_view().to_multiset(),
        decreases rest.len(),
    {
        let ghost pre_rest = rest.deep_view();
        let e = match rest.pop() {
            Some(e) => e,
            None => {
                proof {
                    assert(false);
                }
                vstd::pervasive::unreached()
            },
        };
        insert_asc(&mut out, e);
        proof {
            assert(pre_rest.drop_last().push(e@) =~= pre_rest);
            assert(rest.deep_view() =~= pre_rest.drop_last());
            assert(out.deep_view().to_multiset().add(rest.deep_view().to_multiset())
                =~= entries.deep_view().to_multiset());
        }
    }
    proof {
        assert(rest.deep_view() =~= Seq::<EntryView>::empty());
        assert(out.deep_view().to_multiset() =~= entries.deep_view().to_multiset());
    }
    out
}

/// Reverses a sequence of entries, as the served views turn the
/// ascending listing into most-recent-first.
pub fn reverse_entries(entries: Vec<MetadataWithName>) -> (r: Vec<MetadataWithName>)
    ensures
        r.deep_view() == entries.deep_view().reverse(),
{
    let ghost orig = entries.deep_view();
    let mut rest = entries;
    let mut out: Vec<MetadataWithName> = Vec::new();
    proof {
        assert(out.deep_view() =~= orig.skip(orig.len() as int).reverse());
    }
    while rest.len() > 0
        invariant
            rest.deep_view() == orig.take(rest@.len() as int),
            rest@.len() <= orig.len(),
            out.deep_view() == orig.skip(rest@.len() as int).reverse(),
        decreases rest.len(),
    {
        let ghost pre_rest = rest.deep_view();
        let ghost pre_out = out.deep_view();
        let ghost pre_len = rest@.len() as int;
        let e = match rest.pop() {
            Some(e) => e,
            None => {
                proof {
                    assert(false);
                }
                vstd::pervasive::unreached()
            },
        };
        out.push(e);
        proof {
            let k = pre_len - 1;
            assert(pre_rest == orig.take(pre_len));
            assert(rest.deep_view() =~= pre_rest.drop_last());
            assert(orig.take(pre_len).drop_last() =~= orig.take(k));
            assert(rest@.len() as int == k);
            assert(e@ == pre_rest.last());
            assert(pre_rest.last() == orig[k]);
            assert(e@ == orig[k]);
            assert(out.deep_view() =~= orig.skip(k).reverse()) by {
                assert(pre_out == orig.skip(pre_len).reverse());
                assert(orig.skip(pre_len).len() == orig.len() - pre_len);
                assert(orig.skip(k).len() == orig.len() - k);
                assert(out.deep_view() =~= pre_out.push(e@));
                assert(forall|j: int|
                    0 <= j < orig.len() - pre_len ==> #[trigger] orig.skip(
                        pre_len,
                    ).reverse()[j] == orig.skip(pre_len)[orig.len() - pre_len - 1 - j]);
                assert(forall|j: int|
                    0 <= j < orig.len() - pre_len ==> #[trigger] orig.skip(pre_len)[j]
                        == orig[pre_len + j]);
                assert(forall|j: int|
                    0 <= j < orig.len() - k ==> #[trigger] orig.skip(k).reverse()[j]
                        == orig.skip(k)[orig.len() - k - 1 - j]);
                assert(forall|j: int|
                    0 <= j < orig.len() - k ==> #[trigger] orig.skip(k)[j] == orig[k + j]);
            }
        }
    }
    proof {
        assert(rest.deep_view() =~= Seq::<EntryView>::empty());
        assert(orig.take(rest@.len() as int).len() == 0);
        assert(rest@.len() == 0);
        assert(out.deep_view() =~= orig.reverse());
    }
    out
}

/// Reversing an ascending listing gives the served, most-recent-first
/// order.
pub proof fn lemma_reverse_desc(s: Seq<EntryView>)
    requires
        sorted_asc(s),
    ensures
        sorted_desc(s.reverse()),
{
    assert forall|i: int, j: int|
        0 <= i < j < s.reverse().len() implies !(#[trigger] s.reverse()[i]).lt(
        #[trigger] s.reverse()[j],
    ) by {
        assert(s.reverse()[i] == s[s.len() - 1 - i]);
        assert(s.reverse()[j] == s[s.len() - 1 - j]);
    }
}

/// Whether an entry carries the given tag, by exact string match.
pub fn entry_has_tag(e: &MetadataWithName, tag: &str) -> (r: bool)
    ensures
        r == e@.metadata.tags.contains(tag@),
{
    let mut i: usize = 0;
    while i < e.metadata.tags.len()
        invariant
            0 <= i <= e.metadata.tags@.len(),
            forall|k: int| 0 <= k < i ==> e.metadata.tags@[k]@ != tag@,
        decreases e.metadata.tags@.len() - i,
    {
        if str_eq(e.metadata.tags[i].as_str(), tag) {
            assert(crate::text::str_set(e.metadata.tags@).contains(tag@));
            return true;
        }
        i = i + 1;
    }
    assert(!crate::text::str_set(e.metadata.tags@).contains(tag@));
    false
}

/// The subsequence of `s` whose entries carry the tag `t`, in the order
/// of `s`.
pub open spec fn filter_by_tag(s: Seq<EntryView>, t: Seq<char>) -> Seq<EntryView>
    decreases s.len(),
{
    if s.len() == 0 {
        Seq::empty()
    } else {
        let rest = filter_by_tag(s.drop_last(), t);
        if s.last().metadata.tags.contains(t) {
            rest.push(s.last())
        } else {
            rest
        }
    }
}

/// What the tag filter holds: exactly the entries of `s` carrying `t`.
pub proof fn lemma_filter_by_tag_characterized(s: Seq<EntryView>, t: Seq<char>)
    ensures
        forall|k: int|
            0 <= k < filter_by_tag(s, t).len() ==> (#[trigger] filter_by_tag(s, t)[k])
                .metadata.tags.contains(t) && s.contains(filter_by_tag(s, t)[k]),
        forall|e: EntryView|
            s.contains(e) && e.metadata.tags.contains(t) ==> filter_by_tag(s, t).contains(e),
    decreases s.len(),
{
    if s.len() > 0 {
        lemma_filter_by_tag_characterized(s.drop_last(), t);
        assert(forall|j: int| 0 <= j < s.len() - 1 ==> s[j] == #[trigger] s.drop_last()[j]);
        assert forall|e: EntryView|
            s.contains(e) && e.metadata.tags.contains(t) implies filter_by_tag(
            s,
            t,
        ).contains(e) by {
            let j = choose|j: int| 0 <= j < s.len() && s[j] == e;
            if j < s.len() - 1 {
                assert(s.drop_last()[j] == e);
                assert(s.drop_last().contains(e));
                let k = choose|k: int|
                    0 <= k < filter_by_tag(s.drop_last(), t).len() && filter_by_tag(
                        s.drop_last(),
                        t,
                    )[k] == e;
                assert(filter_by_tag(s, t)[k] == e);
            } else {
                assert(filter_by_tag(s, t).last() == e);
            }
        }
        assert forall|k: int|
            0 <= k < filter_by_tag(s, t).len() implies (#[trigger] filter_by_tag(s, t)[k])
                .metadata.tags.contains(t) && s.contains(filter_by_tag(s, t)[k]) by {
            let f = filter_by_tag(s, t);
            let fr = filter_by_tag(s.drop_last(), t);
            if k < fr.len() {
                assert(f[k] == fr[k]);
                assert(s.drop_last().contains(fr[k]));
                let j = choose|j: int|
                    0 <= j < s.drop_last().len() && s.drop_last()[j] == fr[k];
                assert(s[j] == fr[k]);
            } else {
                assert(f[k] == s.last());
            }
        }
    }
}

/// All entries whose tag set contains `tag`, by exact string match, in
/// their given order: a subsequence, so a sorted input stays sorted.
pub fn entries_by_tag(entries: &Vec<MetadataWithName>, tag: &str) -> (r: Vec<MetadataWithName>)
    ensures
        r.deep_view() == filter_by_tag(entries.deep_view(), tag@),
        sorted_asc(entries.deep_view()) ==> sorted_asc(r.deep_view()),
{
    let ghost s = entries.deep_view();
    let mut out: Vec<MetadataWithName> = Vec::new();
    let mut i: usize = 0;
    proof {
        assert(out.deep_view() =~= Seq::<EntryView>::empty());
        assert(s.take(0) =~= Seq::<EntryView>::empty());
    }
    while i < entries.len()
        invariant
            0 <= i <= s.len(),
            s == entries.deep_view(),
            out.deep_view() == filter_by_tag(s.take(i as int), tag@),
            forall|k: int|
                0 <= k < out.deep_view().len() ==> exists|j: int|
                    0 <= j < i && #[trigger] out.deep_view()[k] == s[j],
            sorted_asc(s) ==> sorted_asc(out.deep_view()),
        decreases s.len() - i,
    {
        let ghost pre = out.deep_view();
        if entry_has_tag(&entries[i], tag) {
            out.push(entries[i].duplicate());
            proof {
                assert(out.deep_view() =~= pre.push(s[i as int]));
                assert forall|k: int|
                    0 <= k < out.deep_view().len() implies exists|j: int|
                        0 <= j < i + 1 && #[trigger] out.deep_view()[k] == s[j] by {
                    if k < pre.len() {
                        let j = choose|j: int| 0 <= j < i && pre[k] == s[j];
                        assert(out.deep_view()[k] == s[j]);
                    } else {
                        assert(out.deep_view()[k] == s[i as int]);
                    }
                }
                if sorted_asc(s) {
                    assert forall|p: int, q: int|
                        0 <= p < q < out.deep_view().len() implies !(#[trigger] out.deep_view()[q])
                            .lt(#[trigger] out.deep_view()[p]) by {
                        if q == out.deep_view().len() - 1 {
                            let j = choose|j: int| 0 <= j < i && pre[p] == s[j];
                            assert(!s[i as int].lt(s[j]));
                        }
                    }
                }
            }
        }
        proof {
            assert(s.take(i + 1).drop_last() =~= s.take(i as int));
            assert(s.take(i + 1).last() == s[i as int]);
            assert(out.deep_view() =~= filter_by_tag(s.take(i + 1), tag@));
        }
        i = i + 1;
    }
    proof {
        assert(s.take(s.len() as int) =~= s);
    }
    out
}

/// The served by-tag view: the entries carrying `tag`, most recent
/// first — the ascending filter result, reversed.
pub fn entries_by_tag_newest_first(entries: &Vec<MetadataWithName>, tag: &str) -> (r: Vec<
    MetadataWithName,
>)
    ensures
        r.deep_view() == filter_by_tag(entries.deep_view(), tag@).reverse(),
        sorted_asc(entries.deep_view()) ==> sorted_desc(r.deep_view()),
{
    let hits = entries_by_tag(entries, tag);
    let ghost filtered = hits.deep_view();
    let r = reverse_entries(hits);
    proof {
        if sorted_asc(entries.deep_view()) {
            lemma_reverse_desc(filtered);
        }
    }
    r
}

/// A tag together with its representative entry, as served by the tag
/// aggregation view.
pub struct TagSample {
    pub tag: String,
    pub sample: MetadataWithName,
}

/// The mathematical value of a tag-sample pair.
#[verifier::ext_equal]
pub ghost struct TagSampleView {
    pub tag: Seq<char>,
    pub sample: EntryView,
}

impl View for TagSample {
    type V = TagSampleView;

    open spec fn view(&self) -> TagSampleView {
        TagSampleView { tag: self.tag@, sample: self.sample@ }
    }
}

impl DeepView for TagSample {
    type V = TagSampleView;

    open spec fn deep_view(&self) -> TagSampleView {
        self.view()
    }
}

/// The tags of an aggregation are pairwise distinct: it is a mapping.
pub open spec fn keys_unique(m: Seq<TagSampleView>) -> bool {
    forall|p: int, q: int| 0 <= p < q < m.len() ==> m[p].tag != m[q].tag
}

/// Whether the aggregation has an element for tag `t`.
pub open spec fn has_key(m: Seq<TagSampleView>, t: Seq<char>) -> bool {
    exists|k: int| 0 <= k < m.len() && m[k].tag == t
}

/// `e` is a valid representative of tag `t` among the entries `s`: an
/// entry of `s` carrying `t` that no other entry carrying `t` exceeds in
/// the recency order.
pub open spec fn rep_ok(s: Seq<EntryView>, t: Seq<char>, e: EntryView) -> bool {
    &&& s.contains(e)
    &&& e.metadata.tags.contains(t)
    &&& forall|j: int|
        0 <= j < s.len() && (#[trigger] s[j]).metadata.tags.contains(t) ==> !e.lt(s[j])
}

/// Any two representatives of the same tag share the ordering key: the
/// representative's creation time (and name) is determined by the tag.
pub proof fn lemma_rep_determined(s: Seq<EntryView>, t: Seq<char>, e1: EntryView, e2: EntryView)
    requires
        rep_ok(s, t, e1),
        rep_ok(s, t, e2),
    ensures
        e1.metadata.created_at == e2.metadata.created_at,
        e1.name == e2.name,
{
    let j1 = choose|j: int| 0 <= j < s.len() && s[j] == e1;
    let j2 = choose|j: int| 0 <= j < s.len() && s[j] == e2;
    assert(!e1.lt(s[j2]));
    assert(!e2.lt(s[j1]));
    lemma_entry_key_connected(e1, e2);
}

/// With pairwise-distinct ordering keys — the store guarantees distinct
/// names — any two representatives of a tag are the same entry: the
/// whole aggregation mapping is determined by the set of entries.
pub proof fn lemma_rep_unique_for_distinct_keys(
    s: Seq<EntryView>,
    t: Seq<char>,
    e1: EntryView,
    e2: EntryView,
)
    requires
        rep_ok(s, t, e1),
        rep_ok(s, t, e2),
        forall|i: int, j: int|
            0 <= i < j < s.len() ==> !((#[trigger] s[i]).metadata.created_at == (
            #[trigger] s[j]).metadata.created_at && s[i].name == s[j].name),
    ensures
        e1 == e2,
{
    lemma_rep_determined(s, t, e1, e2);
    let i1 = choose|i: int| 0 <= i < s.len() && s[i] == e1;
    let i2 = choose|i: int| 0 <= i < s.len() && s[i] == e2;
    if i1 != i2 {
        assert(s[i1].metadata.created_at == s[i2].metadata.created_at && s[i1].name
            == s[i2].name);
        assert(false);
    }
}

/// Being a representative depends only on which entries are present, not
/// on their order: tag aggregation is order-independent.
pub proof fn lemma_rep_order_independent(
    s1: Seq<EntryView>,
    s2: Seq<EntryView>,
    t: Seq<char>,
    e: EntryView,
)
    requires
        s1.to_multiset() == s2.to_multiset(),
        rep_ok(s1, t, e),
    ensures
        rep_ok(s2, t, e),
{
    assert(s1.to_multiset().contains(e));
    assert(s2.contains(e));
    assert forall|j: int|
        0 <= j < s2.len() && (#[trigger] s2[j]).metadata.tags.contains(t) implies !e.lt(
        s2[j],
    ) by {
        assert(s2.to_multiset().contains(s2[j]));
        assert(s1.contains(s2[j]));
        let i = choose|i: int| 0 <= i < s1.len() && s1[i] == s2[j];
        assert(!e.lt(s1[i]));
    }
}

/// Builds the tag aggregation: one element per distinct tag occurring in
/// `entries`, whose sample is a most recent entry carrying that tag,
/// whichever order the entries come in.
pub fn tags_with_sample(entries: &Vec<MetadataWithName>) -> (r: Vec<TagSample>)
    ensures
        keys_unique(r.deep_view()),
        forall|t: Seq<char>|
            #[trigger] has_key(r.deep_view(), t) <==> exists|j: int|
                0 <= j < entries.deep_view().len() && (#[trigger] entries.deep_view()[j])
                    .metadata.tags.contains(t),
        forall|k: int|
            0 <= k < r.deep_view().len() ==> rep_ok(
                entries.deep_view(),
                (#[trigger] r.deep_view()[k]).tag,
                r.deep_view()[k].sample,
            ),
{
    let ghost s = entries.deep_view();
    let mut out: Vec<TagSample> = Vec::new();
    let mut i: usize = 0;
    proof {
        assert(out.deep_view() =~= Seq::<TagSampleView>::empty());
    }
    while i < entries.len()
        invariant
            0 <= i <= s.len(),
            s == entries.deep_view(),
            keys_unique(out.deep_view()),
            forall|t: Seq<char>|
                #[trigger] has_key(out.deep_view(), t) <==> exists|j: int|
                    0 <= j < i && (#[trigger] s[j]).metadata.tags.contains(t),
            forall|k: int|
                0 <= k < out.deep_view().len() ==> exists|j: int|
                    0 <= j < i && (#[trigger] out.deep_view()[k]).sample == s[j],
            forall|k: int|
                0 <= k < out.deep_view().len() ==> (#[trigger] out.deep_view()[k])
                    .sample.metadata.tags.contains(out.deep_view()[k].tag),
            forall|k: int, j: int|
                0 <= k < out.deep_view().len() && 0 <= j < i && (#[trigger] s[j])
                    .metadata.tags.contains((#[trigger] out.deep_view()[k]).tag) ==> !out
                    .deep_view()[k].sample.lt(s[j]),
        decreases s.len() - i,
    {
        let e = entries[i].duplicate();
        assert(e@ == s[i as int]);
        let ghost tags_all = e.metadata.tags@;
        let mut j: usize = 0;
        proof {
            assert(crate::text::str_set(tags_all.take(0)) =~= Set::<Seq<char>>::empty());
        }
        while j < e.metadata.tags.len()
            invariant
                0 <= j <= tags_all.len(),
                tags_all == e.metadata.tags@,
                e@ == s[i as int],
                0 <= i < s.len(),
                s == entries.deep_view(),
                keys_unique(out.deep_view()),
                forall|t: Seq<char>|
                    #[trigger] has_key(out.deep_view(), t) <==> (exists|j2: int|
                        0 <= j2 < i && (#[trigger] s[j2]).metadata.tags.contains(t))
                        || crate::text::str_set(tags_all.take(j as int)).contains(t),
                forall|k: int|
                    0 <= k < out.deep_view().len() ==> (exists|j2: int|
                        0 <= j2 < i && (#[trigger] out.deep_view()[k]).sample == s[j2]) || out
                        .deep_view()[k].sample == s[i as int],
                forall|k: int|
                    0 <= k < out.deep_view().len() ==> (#[trigger] out.deep_view()[k])
                        .sample.metadata.tags.contains(out.deep_view()[k].tag),
                forall|k: int, j2: int|
                    0 <= k < out.deep_view().len() && 0 <= j2 < i && (#[trigger] s[j2])
                        .metadata.tags.contains((#[trigger] out.deep_view()[k]).tag) ==> !out
                        .deep_view()[k].sample.lt(s[j2]),
                forall|k: int|
                    0 <= k < out.deep_view().len() && crate::text::str_set(
                        tags_all.take(j as int),
                    ).contains((#[trigger] out.deep_view()[k]).tag) ==> !out
                        .deep_view()[k].sample.lt(s[i as int]),
            decreases tags_all.len() - j,
        {
            let ghost pre = out.deep_view();
            let ghost tj = tags_all[j as int]@;
            proof {
                assert(crate::text::str_set(tags_all.take(j + 1)) =~= crate::text::str_set(
                    tags_all.take(j as int),
                ).insert(tj)) by {
                    let a = tags_all.take(j as int);
                    let b = tags_all.take(j + 1);
                    assert forall|t: Seq<char>|
                        crate::text::str_set(b).contains(t) implies crate::text::str_set(
                        a,
                    ).insert(tj).contains(t) by {
                        let k = choose|k: int| 0 <= k < b.len() && b[k]@ == t;
                        if k < j {
                            assert(a[k]@ == t);
                        } else {
                            assert(b[k]@ == tj);
                        }
                    }
                    assert forall|t: Seq<char>|
                        crate::text::str_set(a).insert(tj).contains(t)
                            implies crate::text::str_set(b).contains(t) by {
                        if t == tj {
                            assert(b[j as int]@ == t);
                        } else {
                            let k = choose|k: int| 0 <= k < a.len() && a[k]@ == t;
                            assert(b[k]@ == t);
                        }
                    }
                }
                assert(s[i as int].metadata.tags.contains(tj)) by {
                    assert(tags_all[j as int]@ == tj);
                }
            }
            match find_tag(&out, e.metadata.tags[j].as_str()) {
                None => {
                    let sample = e.duplicate();
                    let tag = e.metadata.tags[j].clone();
                    out.push(TagSample { tag, sample });
                    proof {
                        assert(out.deep_view() =~= pre.push(
                            TagSampleView { tag: tj, sample: s[i as int] },
                        ));
                        assert forall|t: Seq<char>|
                            #[trigger] has_key(out.deep_view(), t) implies (exists|j2: int|
                            0 <= j2 < i && (#[trigger] s[j2]).metadata.tags.contains(t))
                            || crate::text::str_set(tags_all.take(j + 1)).contains(t) by {
                            let k = choose|k: int|
                                0 <= k < out.deep_view().len() && out.deep_view()[k].tag == t;
                            if k < pre.len() {
                                assert(has_key(pre, t));
                            }
                        }
                        assert forall|t: Seq<char>|
                            (exists|j2: int|
                                0 <= j2 < i && (#[trigger] s[j2]).metadata.tags.contains(t))
                                || crate::text::str_set(tags_all.take(j + 1)).contains(t)
                                implies #[trigger] has_key(out.deep_view(), t) by {
                            if t == tj {
                                assert(out.deep_view()[pre.len() as int].tag == t);
                            } else {
                                assert(has_key(pre, t));
                                let k = choose|k: int|
                                    0 <= k < pre.len() && pre[k].tag == t;
                                assert(out.deep_view()[k].tag == t);
                            }
                        }
                        assert(keys_unique(out.deep_view())) by {
                            assert(!has_key(pre, tj));
                            assert forall|p: int, q: int|
                                0 <= p < q < out.deep_view().len() implies out.deep_view()[p].tag
                                != out.deep_view()[q].tag by {
                                if q == pre.len() {
                                    if out.deep_view()[p].tag == tj {
                                        assert(has_key(pre, tj));
                                    }
                                }
                            }
                        }
                        lemma_entry_lt_irreflexive(s[i as int]);
                    }
                },
                Some(k) => {
                    let replace = entry_lt(&out[k].sample, &e);
                    proof {
                        assert(pre[k as int].tag == tj);
                    }
                    if replace {
                        let sample = e.duplicate();
                        let tag = e.metadata.tags[j].clone();
                        let ghost old_sample = out.deep_view()[k as int].sample;
                        out.set(k, TagSample { tag, sample });
                        proof {
                            assert(out.deep_view() =~= pre.update(
                                k as int,
                                TagSampleView { tag: tj, sample: s[i as int] },
                            ));
                            assert forall|t: Seq<char>|
                                #[trigger] has_key(out.deep_view(), t) implies has_key(
                                pre,
                                t,
                            ) by {
                                let k2 = choose|k2: int|
                                    0 <= k2 < out.deep_view().len() && out.deep_view()[k2].tag
                                        == t;
                                assert(pre[k2].tag == t);
                            }
                            assert forall|t: Seq<char>|
                                has_key(pre, t) implies #[trigger] has_key(
                                out.deep_view(),
                                t,
                            ) by {
                                let k2 = choose|k2: int|
                                    0 <= k2 < pre.len() && pre[k2].tag == t;
                                assert(out.deep_view()[k2].tag == t);
                            }
                            assert forall|k2: int, j2: int|
                                0 <= k2 < out.deep_view().len() && 0 <= j2 < i && (
                                #[trigger] s[j2]).metadata.tags.contains(
                                (#[trigger] out.deep_view()[k2]).tag,
                            ) implies !out.deep_view()[k2].sample.lt(s[j2]) by {
                                if k2 == k {
                                    assert(!old_sample.lt(s[j2]));
                                    if s[i as int].lt(s[j2]) {
                                        lemma_entry_lt_transitive(
                                            old_sample,
                                            s[i as int],
                                            s[j2],
                                        );
                                    }
                                }
                            }
                            lemma_entry_lt_irreflexive(s[i as int]);
                        }
                    } else {
                        proof {
                            assert forall|k2: int|
                                0 <= k2 < out.deep_view().len() && crate::text::str_set(
                                    tags_all.take(j + 1),
                                ).contains((#[trigger] out.deep_view()[k2]).tag) implies !out
                                .deep_view()[k2].sample.lt(s[i as int]) by {
                                if out.deep_view()[k2].tag == tj {
                                    if k2 != k {
                                        assert(out.deep_view()[k as int].tag == tj);
                                    }
                                    assert(k2 == k);
                                    assert(!out.deep_view()[k as int].sample.lt(s[i as int]));
                                }
                            }
                        }
                    }
                },
            }
            j = j + 1;
        }
        proof {
            assert(tags_all.take(tags_all.len() as int) =~= tags_all);
            assert(s[i as int].metadata.tags =~= crate::text::str_set(tags_all));
        }
        i = i + 1;
    }
    proof {
        assert forall|k: int|
            0 <= k < out.deep_view().len() implies rep_ok(
            s,
            (#[trigger] out.deep_view()[k]).tag,
            out.deep_view()[k].sample,
        ) by {
            let j = choose|j: int| 0 <= j < i && out.deep_view()[k].sample == s[j];
            assert(s.contains(out.deep_view()[k].sample));
        }
    }
    out
}

/// A raw metadata object as fetched from the store: its full key and
/// its body, decoded as text.
pub struct RawObject {
    pub key: String,
    pub body: String,
}

/// The mathematical value of a raw stored object.
#[verifier::ext_equal]
pub ghost struct RawObjectView {
    pub key: Seq<char>,
    pub body: Seq<char>,
}

impl View for RawObject {
    type V = RawObjectView;

    open spec fn view(&self) -> RawObjectView {
        RawObjectView { key: self.key@, body: self.body@ }
    }
}

impl DeepView for RawObject {
    type V = RawObjectView;

    open spec fn deep_view(&self) -> RawObjectView {
        self.view()
    }
}

/// The catalog entry a stored object denotes: its parsed metadata under
/// the name its key derives. An object whose body does not parse
/// denotes nothing.
pub open spec fn project_object(o: RawObjectView) -> Option<EntryView> {
    match crate::codec::meta_parse(o.body) {
        None => None,
        Some(f) => Some(
            EntryView {
                metadata: crate::asset::MetadataView {
                    creator_email: f.creator,
                    created_at: f.created_at,
                    tags: crate::codec::tag_set_of(f.tags),
                    description: f.description,
                },
                name: crate::asset::name_of_key_spec(o.key),
            },
        ),
    }
}

/// Every entry the stored objects denote, in their order; objects that
/// fail to parse are dropped silently.
pub open spec fn project_objects(objs: Seq<RawObjectView>) -> Seq<EntryView>
    decreases objs.len(),
{
    if objs.len() == 0 {
        Seq::empty()
    } else {
        let rest = project_objects(objs.drop_last());
        match project_object(objs.last()) {
            None => rest,
            Some(e) => rest.push(e),
        }
    }
}

/// Builds the catalog from the fetched metadata objects: each one that
/// parses becomes an entry named after its key; the rest are skipped,
/// never surfaced as errors.
pub fn build_catalog(objects: &Vec<RawObject>) -> (r: Vec<MetadataWithName>)
    ensures
        r.deep_view() == project_objects(objects.deep_view()),
        forall|k: int| 0 <= k < r@.len() ==> (#[trigger] r@[k]).wf(),
{
    let ghost objs = objects.deep_view();
    let mut out: Vec<MetadataWithName> = Vec::new();
    let mut i: usize = 0;
    proof {
        assert(objs.take(0) =~= Seq::<RawObjectView>::empty());
        assert(out.deep_view() =~= Seq::<EntryView>::empty());
    }
    while i < objects.len()
        invariant
            0 <= i <= objs.len(),
            objs == objects.deep_view(),
            out.deep_view() == project_objects(objs.take(i as int)),
            forall|k: int| 0 <= k < out@.len() ==> (#[trigger] out@[k]).wf(),
        decreases objs.len() - i,
    {
        let ghost pre = out.deep_view();
        let name = crate::asset::name_of_key(objects[i].key.as_str());
        match crate::codec::meta_from_json(objects[i].body.as_str()) {
            None => {
                proof {
                    assert(crate::codec::meta_parse(objs[i as int].body) is None);
                }
            },
            Some(m) => {
                let entry = m.with_name(name);
                out.push(entry);
                proof {
                    let f = crate::codec::meta_parse(objs[i as int].body).unwrap();
                    assert(entry@ =~= project_object(objs[i as int]).unwrap());
                    assert(out.deep_view() =~= pre.push(project_object(objs[i as int]).unwrap()));
                }
            },
        }
        proof {
            assert(objs.take(i + 1).drop_last() =~= objs.take(i as int));
            assert(objs.take(i + 1).last() == objs[i as int]);
            assert(out.deep_view() =~= project_objects(objs.take(i + 1)));
        }
        i = i + 1;
    }
    proof {
        assert(objs.take(objs.len() as int) =~= objs);
    }
    out
}

/// The key scheme round-trips: the name derived from a metadata key is
/// the name the key was built for, whatever the name holds.
pub proof fn lemma_key_roundtrip(name: Seq<char>)
    ensures
        crate::asset::name_of_key_spec(crate::asset::metadata_key_spec(name)) == name,
{
    broadcast use vstd::seq_lib::lemma_seq_skip_len;

    reveal_strlit("metadata/");
    reveal_strlit(".json");
    let p = "metadata/"@;
    let x = ".json"@;
    let k = p + name + x;
    assert(k.subrange(0, p.len() as int) =~= p);
    let stripped = k.skip(p.len() as int);
    assert(stripped =~= name + x);
    assert(stripped.subrange(stripped.len() - x.len(), stripped.len() as int) =~= x);
    assert(stripped.take(stripped.len() - x.len()) =~= name);
}

/// Storing a record and reading the store back yields exactly the entry
/// that was stored: the canonical document under the metadata key
/// projects to the record's value under the record's name.
pub proof fn lemma_stored_object_projects_back(
    name: Seq<char>,
    created_at: int,
    creator: Seq<char>,
    description: Seq<char>,
    tags: Seq<Seq<char>>,
)
    requires
        0 <= created_at <= i64::MAX,
    ensures
        project_object(
            RawObjectView {
                key: crate::asset::metadata_key_spec(name),
                body: crate::codec::meta_json(created_at, creator, description, tags),
            },
        ) == Some(
            EntryView {
                metadata: crate::asset::MetadataView {
                    creator_email: creator,
                    created_at,
                    tags: crate::codec::tag_set_of(tags),
                    description,
                },
                name,
            },
        ),
{
    crate::codec::lemma_meta_roundtrip(created_at, creator, description, tags);
    lemma_key_roundtrip(name);
}

/// The catalog read path: the entries the store holds, in the listing
/// order — ascending by (`created_at`, name). Views that serve most
/// recent first reverse this listing.
pub fn catalog_entries(objects: &Vec<RawObject>) -> (r: Vec<MetadataWithName>)
    ensures
        sorted_asc(r.deep_view()),
        r.deep_view().to_multiset() == project_objects(objects.deep_view()).to_multiset(),
{
    let entries = build_catalog(objects);
    sort_entries_asc(entries)
}

/// Ascending tag order over an aggregation, as the mapping is served.
pub open spec fn samples_sorted_by_tag(s: Seq<TagSampleView>) -> bool {
    forall|i: int, j: int|
        0 <= i < j < s.len() ==> !lex_lt((#[trigger] s[j]).tag, (#[trigger] s[i]).tag)
}

/// Inserts a sample into a tag-sorted vector, keeping the order.
fn insert_sample(r: &mut Vec<TagSample>, x: TagSample)
    requires
        samples_sorted_by_tag(old(r).deep_view()),
    ensures
        samples_sorted_by_tag(final(r).deep_view()),
        final(r).deep_view().to_multiset() == old(r).deep_view().to_multiset().insert(
            x.deep_view(),
        ),
{
    let ghost oldv = r.deep_view();
    let mut i: usize = 0;
    while i < r.len() && str_lex_lt(r[i].tag.as_str(), x.tag.as_str())
        invariant
            0 <= i <= r.len(),
            r.deep_view() == oldv,
            forall|k: int| 0 <= k < i ==> lex_lt((#[trigger] oldv[k]).tag, x.tag@),
        decreases r.len() - i,
    {
        i = i + 1;
    }
    assert(i < r.len() ==> !lex_lt(oldv[i as int].tag, x.tag@));
    r.insert(i, x);
    proof {
        assert(r.deep_view() =~= oldv.insert(i as int, x@));
        assert forall|p: int, q: int|
            0 <= p < q < r.deep_view().len() implies !lex_lt(
            (#[trigger] r.deep_view()[q]).tag,
            (#[trigger] r.deep_view()[p]).tag,
        ) by {
            let s = r.deep_view();
            if q < i {
            } else if p == i {
                if q > i {
                    assert(s[q] == oldv[q - 1]);
                    if lex_lt(oldv[q - 1].tag, x.tag@) {
                        crate::text::lemma_lex_connected(oldv[i as int].tag, x.tag@);
                        crate::text::lemma_lex_transitive(
                            oldv[q - 1].tag,
                            x.tag@,
                            oldv[i as int].tag,
                        );
                    }
                }
            } else if q == i {
                assert(s[p] == oldv[p]);
                assert(lex_lt(oldv[p].tag, x.tag@));
                crate::text::lemma_lex_connected(x.tag@, oldv[p].tag);
            } else if p > i {
                assert(s[p] == oldv[p - 1] && s[q] == oldv[q - 1]);
            } else {
                assert(s[p] == oldv[p] && s[q] == oldv[q - 1]);
            }
        }
        vstd::seq_lib::to_multiset_insert(oldv, i as int, x@);
    }
}

/// Orders an aggregation by tag, ascending, as the mapping is served to
/// clients. The elements are exactly those given.
pub fn sort_samples_by_tag(samples: Vec<TagSample>) -> (r: Vec<TagSample>)
    ensures
        samples_sorted_by_tag(r.deep_view()),
        r.deep_view().to_multiset() == samples.deep_view().to_multiset(),
{
    let mut rest = samples;
    let mut out: Vec<TagSample> = Vec::new();
    proof {
        assert(out.deep_view() =~= Seq::<TagSampleView>::empty());
    }
    while rest.len() > 0
        invariant
            samples_sorted_by_tag(out.deep_view()),
            out.deep_view().to_multiset().add(rest.deep_view().to_multiset())
                == samples.deep_view().to_multiset(),
        decreases rest.len(),
    {
        let ghost pre_rest = rest.deep_view();
        let x = match rest.pop() {
            Some(x) => x,
            None => {
                proof {
                    assert(false);
                }
                vstd::pervasive::unreached()
            },
        };
        insert_sample(&mut out, x);
        proof {
            assert(pre_rest.drop_last().push(x@) =~= pre_rest);
            assert(rest.deep_view() =~= pre_rest.drop_last());
            assert(out.deep_view().to_multiset().add(rest.deep_view().to_multiset())
                =~= samples.deep_view().to_multiset());
        }
    }
    proof {
        assert(rest.deep_view() =~= Seq::<TagSampleView>::empty());
        assert(out.deep_view().to_multiset() =~= samples.deep_view().to_multiset());
    }
    out
}

/// Finds the aggregation element for a tag, if one exists.
fn find_tag(m: &Vec<TagSample>, t: &str) -> (r: Option<usize>)
    ensures
        match r {
            Some(k) => 0 <= k < m.deep_view().len() && m.deep_view()[k as int].tag == t@,
            None => !has_key(m.deep_view(), t@),
        },
{
    let mut k: usize = 0;
    while k < m.len()
        invariant
            0 <= k <= m.deep_view().len(),
            forall|p: int| 0 <= p < k ==> (#[trigger] m.deep_view()[p]).tag != t@,
        decreases m.deep_view().len() - k,
    {
        if str_eq(m[k].tag.as_str(), t) {
            return Some(k);
        }
        k = k + 1;
    }
    None
}

} // verus!
