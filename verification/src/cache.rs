//! The result cache: every result seen so far, found again by the tags that
//! it was seen under and ranked by how many of a query's tags it shares.

use crate::rank::{is_top, top_indices};
use crate::search::{result_views, FullSearchResultView, SearchResult, SearchResultView};
use crate::tags::{tag_texts, Tag};
use crate::tally::Tally;
use std::collections::hash_map::DefaultHasher;
use std::collections::HashMap;
use std::hash::Hasher;
use vstd::hash_map::StringHashMap;
use vstd::prelude::*;
use vstd::std_specs::hash::DefaultHasherAdditionalSpecFns;

verus! {

/// What a cached result is known by: the fingerprint of its page address.
pub type ResultId = u64;

/// What `<str as Hash>::hash` writes into a hasher for `text`, write by
/// write.
pub uninterp spec fn str_hash_writes(text: Seq<char>) -> Seq<Seq<u8>>;

/// Taken on trust of `<str as Hash>::hash` on a `DefaultHasher`: it adds, to
/// what was written so far, writes that depend on the text alone.
#[verifier::external_body]
fn hash_text(text: &str, state: &mut DefaultHasher)
    ensures
        final(state)@ == old(state)@ + str_hash_writes(text@),
{
    std::hash::Hash::hash(text, state)
}

/// The fingerprint of a page address: what a fresh `DefaultHasher` yields
/// after the address was hashed into it. Equal addresses have equal
/// fingerprints; two different addresses with one fingerprint are taken for
/// one entry.
pub open spec fn fingerprint_of(page: Seq<char>) -> ResultId {
    DefaultHasher::spec_finish(str_hash_writes(page))
}

impl SearchResult {
    /// The fingerprint of the result's page address.
    pub fn id(&self) -> (id: ResultId)
        ensures
            id == fingerprint_of(self@.page),
    {
        let mut state: DefaultHasher = DefaultHasher::new();
        hash_text(self.page.as_str(), &mut state);
        proof {
            assert(Seq::<Seq<u8>>::empty() + str_hash_writes(self.page@) == str_hash_writes(
                self.page@,
            ));
        }
        state.finish()
    }
}

/// How often `tag` occurs in `tags`.
pub open spec fn count_of(tags: Seq<Seq<char>>, tag: Seq<char>) -> nat
    decreases tags.len(),
{
    if tags.len() == 0 {
        0
    } else {
        count_of(tags.drop_last(), tag) + if tags.last() == tag {
            1nat
        } else {
            0nat
        }
    }
}

/// The contents of the cache.
pub struct CacheData {
    /// Every result seen so far, by its fingerprint.
    pub results: Map<ResultId, SearchResultView>,
    /// For each tag, the results that were seen under it, in the order in
    /// which they came.
    pub tags: Map<Seq<char>, Seq<ResultId>>,
}

impl CacheData {
    /// The cache that holds nothing.
    pub open spec fn empty() -> CacheData {
        CacheData { results: Map::empty(), tags: Map::empty() }
    }

    /// What holds of every cache: both maps are finite, every result is
    /// stored under its own fingerprint, and every result that a tag lists is
    /// stored.
    pub open spec fn wf(self) -> bool {
        &&& self.results.dom().finite()
        &&& self.tags.dom().finite()
        &&& forall|id: ResultId| #[trigger]
            self.results.contains_key(id) ==> fingerprint_of(self.results[id].page) == id
        &&& forall|tag: Seq<char>, k: int|
            self.tags.contains_key(tag) && 0 <= k < self.tags[tag].len()
                ==> self.results.contains_key(#[trigger] self.tags[tag][k])
    }

    /// The results listed under `tag`; none for a tag that was never seen.
    pub open spec fn postings(self, tag: Seq<char>) -> Seq<ResultId> {
        if self.tags.contains_key(tag) {
            self.tags[tag]
        } else {
            Seq::empty()
        }
    }

    /// The tag lists after `id` was appended to the list of each of `tags`,
    /// once for each time that the tag occurs; a tag without a list gets one.
    pub open spec fn indexed(self, tags: Seq<Seq<char>>, id: ResultId) -> Map<
        Seq<char>,
        Seq<ResultId>,
    > {
        Map::new(
            |tag: Seq<char>| self.tags.contains_key(tag) || tags.contains(tag),
            |tag: Seq<char>| self.postings(tag) + Seq::new(count_of(tags, tag), |k: int| id),
        )
    }

    /// The cache after `result` was added under `tags`. A result whose
    /// fingerprint is stored already changes nothing: the first one stays.
    /// Otherwise the result is stored, and its fingerprint is appended to the
    /// list of each of `tags`, once for each time that the tag occurs.
    pub open spec fn add(self, tags: Seq<Seq<char>>, result: SearchResultView) -> CacheData {
        let id = fingerprint_of(result.page);
        if self.results.contains_key(id) {
            self
        } else {
            CacheData { results: self.results.insert(id, result), tags: self.indexed(tags, id) }
        }
    }

    /// The overlap count of the result `id` with `query`: the number of the
    /// query's tags, each counted as often as the query names it, that list
    /// the result. A tag that lists the result twice counts once.
    pub open spec fn overlap(self, query: Seq<Seq<char>>, id: ResultId) -> nat
        decreases query.len(),
    {
        if query.len() == 0 {
            0
        } else {
            self.overlap(query.drop_last(), id) + if self.postings(query.last()).contains(id) {
                1nat
            } else {
                0nat
            }
        }
    }

    /// Whether `found` answers `query` within `limit`: it holds stored
    /// results that share a tag with the query, none of them twice and at
    /// most `limit` of them; no result in it has a smaller overlap count than
    /// one that follows it, or than one that was left out; and it is shorter
    /// than `limit` only if every result that shares a tag with the query
    /// is in it. Which of two results with one overlap count comes first, or
    /// is left out, is not said.
    pub open spec fn ranks(
        self,
        query: Seq<Seq<char>>,
        limit: nat,
        found: Seq<SearchResultView>,
    ) -> bool {
        let ids = ids_of(found);
        &&& found.len() <= limit
        &&& ids.no_duplicates()
        &&& forall|k: int|
            0 <= k < found.len() ==> {
                &&& self.overlap(query, #[trigger] ids[k]) > 0
                &&& self.results.contains_key(ids[k])
                &&& self.results[ids[k]] == found[k]
            }
        &&& forall|a: int, b: int|
            0 <= a < b < found.len() ==> self.overlap(query, ids[a]) >= self.overlap(
                query,
                ids[b],
            )
        &&& forall|a: int, id: ResultId|
            0 <= a < found.len() && !ids.contains(id) ==> self.overlap(query, #[trigger] ids[a])
                >= #[trigger] self.overlap(query, id)
        &&& found.len() < limit ==> forall|id: ResultId| #[trigger]
            self.overlap(query, id) > 0 ==> ids.contains(id)
    }

    /// The cache after each of `results` was added under its own tags, one
    /// after the other.
    pub open spec fn add_all(self, results: Seq<FullSearchResultView>) -> CacheData
        decreases results.len(),
    {
        if results.len() == 0 {
            self
        } else {
            self.add_all(results.drop_last()).add(
                results.last().tags,
                results.last().search_result,
            )
        }
    }

    /// The results that share a tag with `query`.
    pub open spec fn candidates(self, query: Seq<Seq<char>>) -> Set<ResultId> {
        Set::new(|id: ResultId| self.overlap(query, id) > 0)
    }
}

/// The fingerprints of a list of results.
pub open spec fn ids_of(found: Seq<SearchResultView>) -> Seq<ResultId> {
    Seq::new(found.len(), |k: int| fingerprint_of(found[k].page))
}

/// A result that shares a tag with the query is stored.
pub proof fn lemma_overlap_stored(data: CacheData, query: Seq<Seq<char>>, id: ResultId)
    requires
        data.wf(),
        data.overlap(query, id) > 0,
    ensures
        data.results.contains_key(id),
    decreases query.len(),
{
    if query.len() > 0 {
        if data.postings(query.last()).contains(id) {
            let list = data.postings(query.last());
            let k = choose|k: int| 0 <= k < list.len() && list[k] == id;
            assert(data.results.contains_key(data.tags[query.last()][k]));
        } else {
            lemma_overlap_stored(data, query.drop_last(), id);
        }
    }
}

/// The tag lists `lists` after `id` was appended to the list of `tag`.
pub open spec fn listed_once(
    lists: Map<Seq<char>, Seq<ResultId>>,
    tag: Seq<char>,
    id: ResultId,
) -> Map<Seq<char>, Seq<ResultId>> {
    lists.insert(
        tag,
        if lists.contains_key(tag) {
            lists[tag].push(id)
        } else {
            seq![id]
        },
    )
}

/// A tag occurs in a list just when its count there is not zero.
pub proof fn lemma_count_of_contains(tags: Seq<Seq<char>>, tag: Seq<char>)
    ensures
        tags.contains(tag) <==> count_of(tags, tag) > 0,
    decreases tags.len(),
{
    if tags.len() > 0 {
        lemma_count_of_contains(tags.drop_last(), tag);
        if tags.last() == tag {
            assert(tags[tags.len() - 1] == tag);
        } else if tags.contains(tag) {
            let k = choose|k: int| 0 <= k < tags.len() && tags[k] == tag;
            assert(tags.drop_last()[k] == tag);
        } else if tags.drop_last().contains(tag) {
            let k = choose|k: int| 0 <= k < tags.drop_last().len() && tags.drop_last()[k] == tag;
            assert(tags[k] == tag);
        }
    }
}

/// Indexing under a list of tags is indexing under all but the last of them,
/// and then under the last.
pub proof fn lemma_indexed_step(data: CacheData, tags: Seq<Seq<char>>, id: ResultId)
    requires
        tags.len() > 0,
    ensures
        data.indexed(tags, id) == listed_once(
            data.indexed(tags.drop_last(), id),
            tags.last(),
            id,
        ),
{
    let head = tags.drop_last();
    let before = data.indexed(head, id);
    let after = listed_once(before, tags.last(), id);
    assert forall|tag: Seq<char>| data.indexed(tags, id).contains_key(tag) == after.contains_key(
        tag,
    ) by {
        lemma_count_of_contains(tags, tag);
        lemma_count_of_contains(head, tag);
    }
    assert forall|tag: Seq<char>| data.indexed(tags, id).contains_key(tag) implies data.indexed(
        tags,
        id,
    )[tag] == after[tag] by {
        lemma_count_of_contains(tags, tag);
        lemma_count_of_contains(head, tag);
        if tag == tags.last() {
            let n = count_of(head, tag);
            assert(Seq::new(n + 1, |k: int| id) == Seq::new(n, |k: int| id).push(id));
            if before.contains_key(tag) {
                assert(data.postings(tag) + Seq::new(n, |k: int| id).push(id) == (data.postings(
                    tag,
                ) + Seq::new(n, |k: int| id)).push(id));
            } else {
                assert(n == 0);
                assert(data.postings(tag) + Seq::new(1, |k: int| id) == seq![id]);
            }
        }
    }
    assert(data.indexed(tags, id) =~= after);
}

/// The cache itself. It only grows: nothing is ever changed or taken out.
///
/// `find` takes the cache shared and `add` takes it exclusively, so a
/// process that shares one cache among its handlers keeps it behind a
/// readers-writer lock and holds the lock for no longer than one call.
pub struct TagBasedCache {
    results: HashMap<ResultId, SearchResult>,
    slots: StringHashMap<usize>,
    lists: Vec<Vec<ResultId>>,
}

impl View for TagBasedCache {
    type V = CacheData;

    closed spec fn view(&self) -> CacheData {
        CacheData {
            results: Map::new(
                |id: ResultId| self.results@.contains_key(id),
                |id: ResultId| self.results@[id]@,
            ),
            tags: Map::new(
                |tag: Seq<char>| self.slots@.contains_key(tag),
                |tag: Seq<char>| self.lists@[self.slots@[tag] as int]@,
            ),
        }
    }
}

impl TagBasedCache {
    /// The cache's invariant: every tag has a list of its own, every result
    /// is stored under its own fingerprint, and every listed result is
    /// stored. `new` establishes it and `add` keeps it.
    pub closed spec fn inv(&self) -> bool {
        &&& self.slots@.dom().finite()
        &&& forall|tag: Seq<char>| #[trigger]
            self.slots@.contains_key(tag) ==> self.slots@[tag] < self.lists.len()
        &&& forall|one: Seq<char>, other: Seq<char>|
            self.slots@.contains_key(one) && self.slots@.contains_key(other) && self.slots@[one]
                == self.slots@[other] ==> one == other
        &&& forall|id: ResultId| #[trigger]
            self.results@.contains_key(id) ==> fingerprint_of(self.results@[id]@.page) == id
        &&& forall|slot: int, k: int|
            0 <= slot < self.lists.len() && 0 <= k < self.lists[slot].len()
                ==> self.results@.contains_key(#[trigger] self.lists[slot][k])
    }

    /// An empty cache.
    pub fn new() -> (cache: TagBasedCache)
        ensures
            cache.inv(),
            cache@ == CacheData::empty(),
    {
        let cache = TagBasedCache {
            results: HashMap::new(),
            slots: StringHashMap::new(),
            lists: Vec::new(),
        };
        proof {
            assert(cache@.results =~= Map::empty());
            assert(cache@.tags =~= Map::empty());
            assert(cache@.tags.dom() =~= Set::empty());
            assert(cache@.results.dom() =~= Set::empty());
        }
        cache
    }

    /// The contents of a cache that meets its invariant are well formed.
    pub proof fn lemma_wf(&self)
        requires
            self.inv(),
        ensures
            self@.wf(),
    {
        assert(self@.results.dom() =~= self.results@.dom());
        assert(self@.tags.dom() =~= self.slots@.dom());
        vstd::std_specs::hash::axiom_hashmap_view_finite_dom(self.results);
    }

    /// Adds `result` under `tags`, unless a result with the same page
    /// fingerprint is stored already: then nothing changes, whatever the new
    /// one's image is.
    pub fn add(&mut self, tags: &[Tag], result: &SearchResult)
        requires
            old(self).inv(),
        ensures
            final(self).inv(),
            final(self)@ == old(self)@.add(tag_texts(tags@), result@),
    {
        let id: ResultId = result.id();
        self.insert(id, tags, result);
    }

    /// Adds `result`, whose page fingerprint is `id`, under `tags`: what
    /// `add` does once it has the fingerprint.
    pub fn insert(&mut self, id: ResultId, tags: &[Tag], result: &SearchResult)
        requires
            old(self).inv(),
            id == fingerprint_of(result@.page),
        ensures
            final(self).inv(),
            final(self)@ == old(self)@.add(tag_texts(tags@), result@),
    {
        if self.results.contains_key(&id) {
            return ;
        }
        let ghost before = self@;
        self.results.insert(id, result.clone());
        proof {
            assert(self@.results =~= before.results.insert(id, result@));
            assert(self@.tags =~= before.tags);
            assert(before.indexed(Seq::empty(), id) =~= before.tags);
        }
        let mut i: usize = 0;
        while i < tags.len()
            invariant
                i <= tags.len(),
                self.inv(),
                self.results@.contains_key(id),
                self@.results == before.results.insert(id, result@),
                self@.tags == before.indexed(tag_texts(tags@).take(i as int), id),
            decreases tags.len() - i,
        {
            let ghost lists_before = self@.tags;
            let ghost now = tag_texts(tags@).take(i + 1);
            proof {
                assert(now.drop_last() == tag_texts(tags@).take(i as int));
                assert(now.last() == tags[i as int]@);
                lemma_indexed_step(before, now, id);
            }
            let tag: &Tag = &tags[i];
            let slot: Option<usize> = match self.slots.get(tag.as_str()) {
                Some(slot) => Some(*slot),
                None => None,
            };
            match slot {
                Some(slot) => {
                    self.lists[slot].push(id);
                },
                None => {
                    let slot: usize = self.lists.len();
                    let mut list: Vec<ResultId> = Vec::new();
                    list.push(id);
                    self.lists.push(list);
                    self.slots.insert(tag.to_string(), slot);
                },
            }
            proof {
                assert(self@.tags =~= listed_once(lists_before, tag@, id));
            }
            i = i + 1;
        }
        proof {
            assert(tag_texts(tags@).take(i as int) == tag_texts(tags@));
        }
    }

    /// The stored results that share a tag with the query, the ones that
    /// share most first, at most `limit` of them. Nothing matching gives an
    /// empty list.
    pub fn find(&self, tags: &[Tag], limit: usize) -> (found: Vec<SearchResult>)
        requires
            self.inv(),
        ensures
            found.len() <= limit,
            self@.ranks(tag_texts(tags@), limit as nat, result_views(found@)),
    {
        let ghost query = tag_texts(tags@);
        let (ids, hits) = self.tally(tags);
        let picks: Vec<usize> = top_indices(&hits, limit);
        let mut found: Vec<SearchResult> = Vec::new();
        let mut k: usize = 0;
        proof {
            self.lemma_wf();
        }
        while k < picks.len()
            invariant
                k <= picks.len(),
                self.inv(),
                self@.wf(),
                ids.len() == hits.len(),
                is_top(hits@, limit as nat, picks@),
                forall|m: int|
                    0 <= m < ids.len() ==> self@.overlap(query, #[trigger] ids[m]) == hits[m],
                forall|id: ResultId| ids@.contains(id) <==> self@.overlap(query, id) > 0,
                found.len() == k,
                forall|n: int|
                    0 <= n < k ==> (#[trigger] found@[n])@ == self@.results[ids@[picks@[n] as int]],
            decreases picks.len() - k,
        {
            let id: ResultId = ids[picks[k]];
            proof {
                assert(ids@.contains(ids[picks[k as int] as int]));
                lemma_overlap_stored(self@, query, id);
                assert(self.results@.contains_key(id));
            }
            match self.results.get(&id) {
                Some(result) => {
                    found.push(result.clone());
                },
                None => {},
            }
            k = k + 1;
        }
        proof {
            let views = result_views(found@);
            let found_ids = ids_of(views);
            assert forall|n: int| 0 <= n < found.len() implies found_ids[n] == ids[picks[n] as int]
                && self@.results.contains_key(found_ids[n]) && self@.results[found_ids[n]]
                == views[n] && self@.overlap(query, found_ids[n]) == hits[picks[n] as int]
                && self@.overlap(query, found_ids[n]) > 0 by {
                assert(found@[n]@ == self@.results[ids@[picks@[n] as int]]);
                assert(ids@.contains(ids[picks[n] as int]));
                lemma_overlap_stored(self@, query, ids[picks[n] as int]);
            }
            assert forall|a: int, b: int|
                0 <= a < found_ids.len() && 0 <= b < found_ids.len() && a != b implies found_ids[a]
                != found_ids[b] by {
                assert(picks[a] != picks[b]);
            }
            assert forall|id: ResultId| ids@.contains(id) && !found_ids.contains(id) implies exists|
                m: usize,
            |
                m < ids.len() && ids[m as int] == id && !picks@.contains(m) by {
                let at = choose|at: int| 0 <= at < ids.len() && ids[at] == id;
                let m = at as usize;
                if picks@.contains(m) {
                    let n = choose|n: int| 0 <= n < picks.len() && picks[n] == m;
                    assert(found_ids[n] == id);
                }
                assert(m < ids.len() && ids[m as int] == id && !picks@.contains(m));
            }
            assert forall|a: int, id: ResultId|
                0 <= a < views.len() && !found_ids.contains(id) implies self@.overlap(
                query,
                #[trigger] found_ids[a],
            ) >= #[trigger] self@.overlap(query, id) by {
                if self@.overlap(query, id) > 0 {
                    assert(ids@.contains(id));
                    let m = choose|m: usize|
                        m < ids.len() && ids[m as int] == id && !picks@.contains(m);
                    assert(hits[picks[a] as int] >= hits[m as int]);
                }
            }
            if views.len() < limit {
                assert forall|id: ResultId| #[trigger]
                    self@.overlap(query, id) > 0 implies found_ids.contains(id) by {
                    assert(ids@.contains(id));
                    let at = choose|at: int| 0 <= at < ids.len() && ids[at] == id;
                    let m = at as usize;
                    assert(picks@.contains(m));
                    let n = choose|n: int| 0 <= n < picks.len() && picks[n] == m;
                    assert(found_ids[n] == id);
                }
            }
        }
        found
    }

    /// The results that share a tag with the query, each once, and beside
    /// each its overlap count.
    fn tally(&self, tags: &[Tag]) -> (counted: (Vec<ResultId>, Vec<usize>))
        requires
            self.inv(),
        ensures
            counted.0.len() == counted.1.len(),
            counted.0@.no_duplicates(),
            forall|id: ResultId|
                counted.0@.contains(id) <==> self@.overlap(tag_texts(tags@), id) > 0,
            forall|m: int|
                0 <= m < counted.0.len() ==> self@.overlap(
                    tag_texts(tags@),
                    #[trigger] counted.0[m],
                ) == counted.1[m],
    {
        let ghost query = tag_texts(tags@);
        let mut tally: Tally = Tally::new();
        let mut i: usize = 0;
        while i < tags.len()
            invariant
                i <= tags.len(),
                self.inv(),
                tally.inv(),
                tally@.round == i,
                query == tag_texts(tags@),
                forall|id: ResultId|
                    tally@.count(id) == #[trigger] self@.overlap(query.take(i as int), id),
            decreases tags.len() - i,
        {
            let ghost base = tally@;
            let ghost now = query.take(i + 1);
            proof {
                assert(now.drop_last() == query.take(i as int));
                assert(now.last() == tags[i as int]@);
            }
            tally.next_round();
            match self.slots.get(tags[i].as_str()) {
                Some(slot) => {
                    let list: &Vec<ResultId> = &self.lists[*slot];
                    let mut j: usize = 0;
                    while j < list.len()
                        invariant
                            j <= list.len(),
                            tally.inv(),
                            tally@.round == i + 1,
                            forall|id: ResultId|
                                list@.take(j as int).contains(id) <==> #[trigger] tally@.touched.contains(id),
                            forall|id: ResultId| #[trigger]
                                tally@.count(id) == base.count(id) + if list@.take(
                                    j as int,
                                ).contains(id) {
                                    1nat
                                } else {
                                    0nat
                                },
                        decreases list.len() - j,
                    {
                        let ghost seen = list@.take(j as int);
                        let ghost grown = list@.take(j + 1);
                        let ghost before = tally@;
                        proof {
                            assert forall|id: ResultId| grown.contains(id) <==> seen.contains(id)
                                || id == list[j as int] by {
                                if seen.contains(id) {
                                    let k = choose|k: int| 0 <= k < seen.len() && seen[k] == id;
                                    assert(grown[k] == id);
                                }
                                if id == list[j as int] {
                                    assert(grown[j as int] == id);
                                }
                                if grown.contains(id) {
                                    let k = choose|k: int| 0 <= k < grown.len() && grown[k] == id;
                                    if k < j {
                                        assert(seen[k] == id);
                                    }
                                }
                            }
                        }
                        tally.hit(list[j]);
                        proof {
                            assert forall|id: ResultId|
                                grown.contains(id) <==> #[trigger] tally@.touched.contains(
                                    id,
                                ) by {
                                assert(seen.contains(id) <==> before.touched.contains(id));
                                assert(seen.contains(list[j as int]) <==> before.touched.contains(
                                    list[j as int],
                                ));
                            }
                            assert forall|id: ResultId| #[trigger]
                                tally@.count(id) == base.count(id) + if grown.contains(id) {
                                    1nat
                                } else {
                                    0nat
                                } by {
                                assert(before.count(id) == base.count(id) + if seen.contains(id) {
                                    1nat
                                } else {
                                    0nat
                                });
                                assert(seen.contains(list[j as int]) <==> before.touched.contains(
                                    list[j as int],
                                ));
                            }
                        }
                        j = j + 1;
                    }
                    proof {
                        assert(list@.take(j as int) == list@);
                        assert(self@.postings(tags[i as int]@) == list@);
                    }
                },
                None => {
                    proof {
                        assert(self@.postings(tags[i as int]@) == Seq::<ResultId>::empty());
                    }
                },
            }
            proof {
                assert forall|id: ResultId|
                    tally@.count(id) == #[trigger] self@.overlap(now, id) by {
                    assert(base.count(id) == self@.overlap(query.take(i as int), id));
                }
            }
            i = i + 1;
        }
        proof {
            assert(query.take(i as int) == query);
            assert forall|id: ResultId|
                tally@.counts.contains_key(id) <==> self@.overlap(query, id) > 0 by {
                tally.lemma_bounded(id);
                assert(tally@.count(id) == self@.overlap(query, id));
            }
        }
        tally.into_counts()
    }
}

} // verus!
