//! Fuzzy free-text search over the catalog: a disposable similarity
//! index is built per request over every entry's searchable text, the
//! engine ranks the query, and the served list is the first thirty of
//! that ranking.
//!
//! The similarity engine is the `simsearch` crate. The library tracks
//! which ids an engine indexes and under which text, and names the set
//! of ids a search matches — that set is a function of the engine and
//! the pattern, while the ranking's order among equal scores is the
//! engine's own. The served result is proved to be the prefix of a
//! duplicate-free ranking whose members are exactly the matched ids.

use vstd::prelude::*;

use simsearch::{SearchOptions, SimSearch};

use crate::asset::{EntryView, MetadataWithName};
use crate::text::push_char;

verus! {

#[verifier::external_type_specification]
#[verifier::external_body]
#[verifier::reject_recursive_types(Id)]
pub struct ExSimSearch<Id: Eq + PartialEq + Clone + std::hash::Hash + Ord>(SimSearch<Id>);

#[verifier::external_type_specification]
#[verifier::external_body]
pub struct ExSearchOptions(SearchOptions);

/// The ids a similarity engine currently indexes.
pub uninterp spec fn engine_ids(engine: SimSearch<u64>) -> Set<u64>;

/// The text each indexed id is searchable by.
pub uninterp spec fn engine_texts(engine: SimSearch<u64>) -> Map<u64, Seq<char>>;

/// The ids a search for `pattern` matches: the engine scores each
/// indexed token against the pattern's tokens, and an id is matched
/// exactly when some of its tokens scores above the engine's threshold.
/// That set depends on the engine and the pattern alone; only the
/// ranking's order among the matched ids is left to the engine.
pub uninterp spec fn matched_ids(engine: SimSearch<u64>, pattern: Seq<char>) -> Set<u64>;

/// Relies on SimSearch::new_with: a freshly built engine indexes
/// nothing, whatever options it was built with.
#[verifier::external_body]
fn sim_new(options: SearchOptions) -> (r: SimSearch<u64>)
    ensures
        engine_ids(r) == Set::<u64>::empty(),
        engine_texts(r).dom() == Set::<u64>::empty(),
{
    SimSearch::new_with(options)
}

/// Relies on SimSearch::insert: it indexes the content under the id;
/// inserting an id again replaces that id's content.
#[verifier::external_body]
fn sim_insert(engine: &mut SimSearch<u64>, id: u64, content: &str)
    ensures
        engine_ids(*final(engine)) == engine_ids(*old(engine)).insert(id),
        engine_texts(*final(engine)) == engine_texts(*old(engine)).insert(id, content@),
{
    engine.insert(id, content)
}

/// Relies on SimSearch::search: the returned ids are exactly the
/// matched ids, each inserted and none returned twice; their order is
/// the engine's ranking.
#[verifier::external_body]
fn sim_search(engine: &SimSearch<u64>, pattern: &str) -> (r: Vec<u64>)
    ensures
        forall|k: int| 0 <= k < r@.len() ==> engine_ids(*engine).contains(#[trigger] r@[k]),
        forall|p: int, q: int| 0 <= p < q < r@.len() ==> r@[p] != r@[q],
        forall|id: u64| r@.contains(id) <==> matched_ids(*engine, pattern@).contains(id),
{
    engine.search(pattern)
}

/// An entry's tags joined by newlines.
pub open spec fn tags_joined(tags: Seq<Seq<char>>) -> Seq<char>
    decreases tags.len(),
{
    if tags.len() == 0 {
        Seq::empty()
    } else if tags.len() == 1 {
        tags[0]
    } else {
        tags_joined(tags.drop_last()) + seq!['\n'] + tags.last()
    }
}

/// The text an entry is searchable by: its name, its description, and
/// its tags, newline-joined.
pub open spec fn search_text_spec(e: EntryView, tags: Seq<Seq<char>>) -> Seq<char> {
    e.name + seq!['\n'] + e.metadata.description + seq!['\n'] + tags_joined(tags)
}

/// Builds an entry's searchable text.
pub fn search_text(e: &MetadataWithName) -> (r: String)
    ensures
        r@ == search_text_spec(e@, e.metadata.tags.deep_view()),
{
    let ghost tags = e.metadata.tags.deep_view();
    let mut out = String::new();
    out.append(e.name.as_str());
    push_char(&mut out, '\n');
    out.append(e.metadata.description.as_str());
    push_char(&mut out, '\n');
    let mut i: usize = 0;
    let ghost head = e.name@ + seq!['\n'] + e.metadata.description@ + seq!['\n'];
    proof {
        assert(out@ =~= head + tags_joined(tags.take(0)));
    }
    while i < e.metadata.tags.len()
        invariant
            0 <= i <= tags.len(),
            tags == e.metadata.tags.deep_view(),
            head == e.name@ + seq!['\n'] + e.metadata.description@ + seq!['\n'],
            out@ == head + tags_joined(tags.take(i as int)),
        decreases tags.len() - i,
    {
        if i > 0 {
            push_char(&mut out, '\n');
        }
        out.append(e.metadata.tags[i].as_str());
        proof {
            assert(tags.take(i + 1).drop_last() =~= tags.take(i as int));
            assert(tags.take(i + 1).last() == tags[i as int]);
            if i == 0 {
                assert(tags.take(1).len() == 1);
                assert(tags_joined(tags.take(1)) == tags[0]);
            }
            assert(out@ =~= head + tags_joined(tags.take(i + 1)));
        }
        i = i + 1;
    }
    proof {
        assert(tags.take(tags.len() as int) =~= tags);
        assert(out@ =~= search_text_spec(e@, tags));
    }
    out
}

/// The entries a list of ids selects, in the list's order.
pub open spec fn select_ids(ids: Seq<u64>, entries: Seq<EntryView>) -> Seq<EntryView>
    decreases ids.len(),
{
    if ids.len() == 0 {
        Seq::empty()
    } else {
        select_ids(ids.drop_last(), entries).push(entries[ids.last() as int])
    }
}

/// The entries a ranking's first (at most) thirty ids select, in the
/// ranking's order.
pub open spec fn hits_prefix(ids: Seq<u64>, entries: Seq<EntryView>) -> Seq<EntryView> {
    select_ids(
        ids.take(
            if ids.len() <= 30 {
                ids.len() as int
            } else {
                30
            },
        ),
        entries,
    )
}

/// Selecting distributes over the list: each position selects its id's
/// entry.
pub proof fn lemma_select_ids_pointwise(ids: Seq<u64>, entries: Seq<EntryView>)
    ensures
        select_ids(ids, entries).len() == ids.len(),
        forall|k: int|
            0 <= k < ids.len() ==> select_ids(ids, entries)[k] == entries[(
            #[trigger] ids[k]) as int],
    decreases ids.len(),
{
    if ids.len() > 0 {
        lemma_select_ids_pointwise(ids.drop_last(), entries);
        assert forall|k: int|
            0 <= k < ids.len() implies select_ids(ids, entries)[k] == entries[(
            #[trigger] ids[k]) as int] by {
            if k < ids.len() - 1 {
                assert(ids.drop_last()[k] == ids[k]);
                assert(select_ids(ids, entries)[k] == select_ids(ids.drop_last(), entries)[k]);
            } else {
                assert(select_ids(ids, entries)[k] == entries[ids.last() as int]);
            }
        }
    }
}

/// Selects the first (at most) thirty ranked entries.
fn take_hits(ids: &Vec<u64>, entries: &Vec<MetadataWithName>) -> (r: Vec<MetadataWithName>)
    requires
        forall|k: int| 0 <= k < ids@.len() ==> (ids@[k] as int) < entries@.len(),
    ensures
        r.deep_view() == hits_prefix(ids@, entries.deep_view()),
{
    let n = entries.len();
    let end: usize = if ids.len() <= 30 {
        ids.len()
    } else {
        30
    };
    let mut out: Vec<MetadataWithName> = Vec::new();
    let mut k: usize = 0;
    proof {
        assert(ids@.take(0) =~= Seq::<u64>::empty());
        assert(out.deep_view() =~= select_ids(ids@.take(0), entries.deep_view()));
    }
    while k < end
        invariant
            0 <= k <= end <= ids@.len(),
            end == (if ids@.len() <= 30 {
                ids@.len() as int
            } else {
                30
            }),
            n == entries@.len(),
            forall|j: int| 0 <= j < ids@.len() ==> (ids@[j] as int) < entries@.len(),
            out.deep_view() == select_ids(ids@.take(k as int), entries.deep_view()),
        decreases end - k,
    {
        let id = ids[k];
        assert((id as int) < entries@.len());
        let idx: usize = id as usize;
        assert(idx as int == id as int);
        out.push(entries[idx].duplicate());
        proof {
            assert(ids@.take(k + 1).drop_last() =~= ids@.take(k as int));
            assert(ids@.take(k + 1).last() == ids@[k as int]);
            assert(out.deep_view() =~= select_ids(ids@.take(k + 1), entries.deep_view()));
        }
        k = k + 1;
    }
    proof {
        assert(ids@.take(end as int) =~= ids@.take(
            if ids@.len() <= 30 {
                ids@.len() as int
            } else {
                30
            },
        ));
        assert(out.deep_view() =~= hits_prefix(ids@, entries.deep_view()));
    }
    out
}

/// A per-request search index over the catalog: a similarity engine
/// holding every entry's searchable text under the entry's position.
pub struct CatalogIndex {
    pub engine: SimSearch<u64>,
    pub entries: Vec<MetadataWithName>,
}

impl CatalogIndex {
    /// The engine indexes exactly the entries, position by position,
    /// each under its searchable text.
    pub open spec fn wf(&self) -> bool {
        &&& forall|id: u64|
            #![trigger engine_ids(self.engine).contains(id)]
            engine_ids(self.engine).contains(id) <==> (id as int) < self.entries@.len()
        &&& forall|id: u64|
            #![trigger engine_texts(self.engine).contains_key(id)]
            (id as int) < self.entries@.len() ==> engine_texts(self.engine).contains_key(id)
                && engine_texts(self.engine)[id] == search_text_spec(
                (self.entries@[id as int])@,
                self.entries@[id as int].metadata.tags.deep_view(),
            )
    }

    /// The ids a query matches against this index.
    pub open spec fn matched(&self, token: Seq<char>) -> Set<u64> {
        matched_ids(self.engine, token)
    }

    /// `ids` is a ranking the served result follows: duplicate-free,
    /// in range, holding exactly the matched ids, and the result is its
    /// first (at most) thirty selections.
    pub open spec fn ranking_of(
        ids: Seq<u64>,
        matched: Set<u64>,
        entries: Seq<EntryView>,
        r: Seq<EntryView>,
    ) -> bool {
        &&& forall|k: int|
            0 <= k < ids.len() ==> ((#[trigger] ids[k]) as int) < entries.len()
        &&& forall|p: int, q: int| 0 <= p < q < ids.len() ==> ids[p] != ids[q]
        &&& forall|id: u64| #[trigger] ids.contains(id) <==> matched.contains(id)
        &&& r == hits_prefix(ids, entries)
    }

    /// Ranks a query and serves at most thirty results: the served list
    /// is the prefix, in the engine's ranking order, of a duplicate-free
    /// id list holding exactly the matched ids — so the matched entries
    /// are served, thirty at most, and nothing else.
    pub fn search(&self, token: &str) -> (r: Vec<MetadataWithName>)
        requires
            self.wf(),
        ensures
            r@.len() <= 30,
            self.matched(token@).is_empty() ==> r@.len() == 0,
            !self.matched(token@).is_empty() ==> r@.len() >= 1,
            exists|ids: Seq<u64>|
                #[trigger] Self::ranking_of(
                    ids,
                    self.matched(token@),
                    self.entries.deep_view(),
                    r.deep_view(),
                ),
    {
        let ids = sim_search(&self.engine, token);
        proof {
            assert forall|k: int|
                0 <= k < ids@.len() implies ((#[trigger] ids@[k]) as int)
                < self.entries@.len() by {
                assert(engine_ids(self.engine).contains(ids@[k]));
            }
            if self.matched(token@).is_empty() && ids@.len() > 0 {
                assert(ids@.contains(ids@[0]));
                assert(self.matched(token@).contains(ids@[0]));
                assert(false);
            }
        }
        let r = take_hits(&ids, &self.entries);
        proof {
            let prefix = ids@.take(
                if ids@.len() <= 30 {
                    ids@.len() as int
                } else {
                    30
                },
            );
            lemma_select_ids_pointwise(prefix, self.entries.deep_view());
            assert(r.deep_view().len() <= 30);
            assert(r@.len() == r.deep_view().len());
            if self.matched(token@).is_empty() {
                assert(ids@.len() == 0);
                assert(prefix.len() == 0);
            } else {
                let w = self.matched(token@).choose();
                assert(self.matched(token@).contains(w));
                assert(ids@.contains(w));
                assert(ids@.len() >= 1);
                assert(prefix.len() >= 1);
            }
            assert(Self::ranking_of(
                ids@,
                self.matched(token@),
                self.entries.deep_view(),
                r.deep_view(),
            ));
        }
        r
    }
}

proof fn probe_cast(i: usize, id: u64)
    requires
        (id as int) < i as int,
    ensures
        id != (i as u64),
{
}

/// Builds the per-request index: every entry's searchable text is
/// inserted under the entry's position in a fresh engine built with the
/// given options.
pub fn build_index(options: SearchOptions, entries: Vec<MetadataWithName>) -> (ix: CatalogIndex)
    ensures
        ix.wf(),
        ix.entries@ == entries@,
{
    let mut engine = sim_new(options);
    let mut i: usize = 0;
    while i < entries.len()
        invariant
            0 <= i <= entries@.len(),
            forall|id: u64|
                #![trigger engine_ids(engine).contains(id)]
                engine_ids(engine).contains(id) <==> (id as int) < i,
            forall|id: u64|
                #![trigger engine_texts(engine).contains_key(id)]
                (id as int) < i ==> engine_texts(engine).contains_key(id) && engine_texts(
                    engine,
                )[id] == search_text_spec(
                    (entries@[id as int])@,
                    entries@[id as int].metadata.tags.deep_view(),
                ),
        decreases entries@.len() - i,
    {
        proof {
            // recall the invariant's map facts while the engine still has
            // this iteration's starting value
            if i > 0 {
                assert((0u64 as int) < i);
                assert(engine_texts(engine).contains_key(0u64));
            }
        }
        let text = search_text(&entries[i]);
        let ghost pre_texts = engine_texts(engine);
        proof {
            assert(pre_texts == engine_texts(engine));
            assert forall|id: u64|
                (id as int) < i implies #[trigger] pre_texts.contains_key(id) && pre_texts[id]
                == search_text_spec(
                (entries@[id as int])@,
                entries@[id as int].metadata.tags.deep_view(),
            ) by {
                assert((id as int) < i as int);
                assert(engine_texts(engine).contains_key(id) && engine_texts(engine)[id]
                    == search_text_spec(
                    (entries@[id as int])@,
                    entries@[id as int].metadata.tags.deep_view(),
                ));
            }
        }
        sim_insert(&mut engine, i as u64, text.as_str());
        proof {
            assert((i as u64) as int == i as int);
            assert forall|id: u64|
                (id as int) < i + 1 implies engine_texts(engine).contains_key(id)
                && engine_texts(engine)[id] == search_text_spec(
                (#[trigger] entries@[id as int])@,
                entries@[id as int].metadata.tags.deep_view(),
            ) by {
                assert(engine_texts(engine) == pre_texts.insert(i as u64, text@));
                if (id as int) < i {
                    assert(id != (i as u64));
                    assert(pre_texts.contains_key(id) && pre_texts[id] == search_text_spec(
                        (entries@[id as int])@,
                        entries@[id as int].metadata.tags.deep_view(),
                    ));
                    assert(engine_texts(engine).contains_key(id));
                    assert(engine_texts(engine)[id] == pre_texts[id]);
                } else {
                    assert(id == (i as u64));
                    assert(engine_texts(engine)[id] == text@);
                }
            }
        }
        i = i + 1;
    }
    CatalogIndex { engine, entries }
}

} // verus!
