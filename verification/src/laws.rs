//! What holds of the cache whatever is added to it and asked of it.

use crate::cache::{
    fingerprint_of, ids_of, lemma_count_of_contains, lemma_overlap_stored, CacheData, ResultId,
};
use crate::search::{FullSearchResultView, SearchResultView};
use vstd::prelude::*;

verus! {

/// Adding keeps the contents well formed.
pub proof fn lemma_add_wf(data: CacheData, tags: Seq<Seq<char>>, result: SearchResultView)
    requires
        data.wf(),
    ensures
        data.add(tags, result).wf(),
{
    let id = fingerprint_of(result.page);
    let after = data.add(tags, result);
    if !data.results.contains_key(id) {
        assert(after.tags.dom() =~= data.tags.dom().union(tags.to_set()));
        vstd::seq_lib::seq_to_set_is_finite(tags);
        assert forall|tag: Seq<char>, k: int|
            after.tags.contains_key(tag) && 0 <= k < after.tags[tag].len()
                implies after.results.contains_key(#[trigger] after.tags[tag][k]) by {
            if k < data.postings(tag).len() {
                assert(after.tags[tag][k] == data.tags[tag][k]);
            } else {
                assert(after.tags[tag][k] == id);
            }
        }
    }
}

/// Adding one result after the other keeps the contents well formed.
pub proof fn lemma_add_all_wf(data: CacheData, results: Seq<FullSearchResultView>)
    requires
        data.wf(),
    ensures
        data.add_all(results).wf(),
    decreases results.len(),
{
    if results.len() > 0 {
        lemma_add_all_wf(data, results.drop_last());
        lemma_add_wf(
            data.add_all(results.drop_last()),
            results.last().tags,
            results.last().search_result,
        );
    }
}

/// The first result with a page stays: once a result is added, adding
/// another with the same page changes nothing, whatever its image and its
/// tags are.
pub proof fn lemma_first_insert_wins(
    data: CacheData,
    tags: Seq<Seq<char>>,
    result: SearchResultView,
    later_tags: Seq<Seq<char>>,
    later: SearchResultView,
)
    requires
        later.page == result.page,
    ensures
        data.add(tags, result).add(later_tags, later) == data.add(tags, result),
        data.add(tags, result).results.contains_key(fingerprint_of(result.page)),
        !data.results.contains_key(fingerprint_of(result.page)) ==> data.add(
            tags,
            result,
        ).results[fingerprint_of(result.page)] == result,
{
}

/// However many results with one page are added, one after the other, the
/// cache ends as it was after the first of them.
pub proof fn lemma_same_page_inserts(data: CacheData, results: Seq<FullSearchResultView>)
    requires
        results.len() > 0,
        forall|i: int|
            0 <= i < results.len() ==> (#[trigger] results[i]).search_result.page
                == results[0].search_result.page,
    ensures
        data.add_all(results) == data.add(results[0].tags, results[0].search_result),
    decreases results.len(),
{
    if results.len() == 1 {
        assert(results.drop_last().len() == 0);
        assert(data.add_all(results.drop_last()) == data);
    } else {
        let head = results.drop_last();
        assert forall|i: int| 0 <= i < head.len() implies (#[trigger] head[i]).search_result.page
            == head[0].search_result.page by {
            assert(head[i] == results[i]);
            assert(head[0] == results[0]);
        }
        lemma_same_page_inserts(data, head);
        assert(head[0] == results[0]);
        lemma_first_insert_wins(
            data,
            results[0].tags,
            results[0].search_result,
            results.last().tags,
            results.last().search_result,
        );
    }
}

/// No result shares more tags with a query than the query has.
pub proof fn lemma_overlap_bounded(data: CacheData, query: Seq<Seq<char>>, id: ResultId)
    ensures
        data.overlap(query, id) <= query.len(),
    decreases query.len(),
{
    if query.len() > 0 {
        lemma_overlap_bounded(data, query.drop_last(), id);
    }
}

/// A result that every tag of a query lists shares all of the query's tags.
pub proof fn lemma_overlap_full(data: CacheData, query: Seq<Seq<char>>, id: ResultId)
    requires
        forall|i: int| 0 <= i < query.len() ==> data.postings(#[trigger] query[i]).contains(id),
    ensures
        data.overlap(query, id) == query.len(),
    decreases query.len(),
{
    if query.len() > 0 {
        let head = query.drop_last();
        assert forall|i: int| 0 <= i < head.len() implies data.postings(
            #[trigger] head[i],
        ).contains(id) by {
            assert(head[i] == query[i]);
        }
        lemma_overlap_full(data, head, id);
        assert(data.postings(query[query.len() - 1]).contains(id));
    }
}

/// The results that share a tag with a query are finitely many.
pub proof fn lemma_candidates_finite(data: CacheData, query: Seq<Seq<char>>)
    requires
        data.wf(),
    ensures
        data.candidates(query).finite(),
        data.candidates(query).subset_of(data.results.dom()),
        data.candidates(query).len() <= data.results.dom().len(),
{
    assert forall|id: ResultId| data.candidates(query).contains(id) implies data.results.dom().contains(
        id,
    ) by {
        lemma_overlap_stored(data, query, id);
    }
    vstd::set_lib::lemma_len_subset(data.candidates(query), data.results.dom());
}

/// An answer holds as many results as the limit allows: all that share a tag
/// with the query, or `limit` of them where there are more.
pub proof fn lemma_answer_len(
    data: CacheData,
    query: Seq<Seq<char>>,
    limit: nat,
    found: Seq<SearchResultView>,
)
    requires
        data.wf(),
        data.ranks(query, limit, found),
    ensures
        found.len() == if data.candidates(query).len() <= limit {
            data.candidates(query).len()
        } else {
            limit
        },
        found.len() == data.candidates(query).len() ==> ids_of(found).to_set()
            == data.candidates(query),
{
    let ids = ids_of(found);
    let all = data.candidates(query);
    lemma_candidates_finite(data, query);
    ids.unique_seq_to_set();
    assert forall|id: ResultId| ids.to_set().contains(id) implies all.contains(id) by {
        let k = choose|k: int| 0 <= k < ids.len() && ids[k] == id;
        assert(data.overlap(query, ids[k]) > 0);
    }
    vstd::set_lib::lemma_len_subset(ids.to_set(), all);
    if found.len() < limit {
        assert forall|id: ResultId| all.contains(id) implies ids.to_set().contains(id) by {
            assert(data.overlap(query, id) > 0);
        }
        assert(ids.to_set() =~= all);
    }
    if found.len() == all.len() {
        vstd::set_lib::lemma_subset_equality(ids.to_set(), all);
    }
}

/// A result that shares more tags with the query comes first: of two
/// results in an answer, the one with the greater overlap count stands
/// before the other.
pub proof fn lemma_ranking_monotone(
    data: CacheData,
    query: Seq<Seq<char>>,
    limit: nat,
    found: Seq<SearchResultView>,
    a: int,
    b: int,
)
    requires
        data.ranks(query, limit, found),
        0 <= a < found.len(),
        0 <= b < found.len(),
        data.overlap(query, fingerprint_of(found[a].page)) > data.overlap(
            query,
            fingerprint_of(found[b].page),
        ),
    ensures
        a < b,
{
    let ids = ids_of(found);
    assert(ids[a] == fingerprint_of(found[a].page));
    assert(ids[b] == fingerprint_of(found[b].page));
    if b < a {
        assert(data.overlap(query, ids[b]) >= data.overlap(query, ids[a]));
    }
}

/// A result that was left out of an answer shares no more tags with the
/// query than any result in it.
pub proof fn lemma_nothing_better_left_out(
    data: CacheData,
    query: Seq<Seq<char>>,
    limit: nat,
    found: Seq<SearchResultView>,
    a: int,
    id: ResultId,
)
    requires
        data.ranks(query, limit, found),
        0 <= a < found.len(),
        !ids_of(found).contains(id),
    ensures
        data.overlap(query, id) <= data.overlap(query, fingerprint_of(found[a].page)),
{
    let ids = ids_of(found);
    assert(ids[a] == fingerprint_of(found[a].page));
}

/// Adding takes nothing away: a stored result stays stored as it is, and a
/// result that a tag lists stays on that tag's list.
pub proof fn lemma_add_keeps(
    data: CacheData,
    tags: Seq<Seq<char>>,
    result: SearchResultView,
    id: ResultId,
    tag: Seq<char>,
)
    ensures
        data.results.contains_key(id) ==> data.add(tags, result).results.contains_key(id)
            && data.add(tags, result).results[id] == data.results[id],
        data.postings(tag).contains(id) ==> data.add(tags, result).postings(tag).contains(id),
{
    let after = data.add(tags, result);
    if data.postings(tag).contains(id) && !data.results.contains_key(fingerprint_of(result.page)) {
        let list = data.postings(tag);
        let k = choose|k: int| 0 <= k < list.len() && list[k] == id;
        assert(after.postings(tag)[k] == id);
    }
}

/// Whatever is added later, one after the other, a stored result stays
/// stored as it is, and a result that a tag lists stays on that tag's list.
pub proof fn lemma_add_all_keeps(
    data: CacheData,
    results: Seq<FullSearchResultView>,
    id: ResultId,
    tag: Seq<char>,
)
    ensures
        data.results.contains_key(id) ==> data.add_all(results).results.contains_key(id)
            && data.add_all(results).results[id] == data.results[id],
        data.postings(tag).contains(id) ==> data.add_all(results).postings(tag).contains(id),
    decreases results.len(),
{
    if results.len() > 0 {
        lemma_add_all_keeps(data, results.drop_last(), id, tag);
        lemma_add_keeps(
            data.add_all(results.drop_last()),
            results.last().tags,
            results.last().search_result,
            id,
            tag,
        );
    }
}

/// A stored result that every tag of a query lists is in the answer to that
/// query, if only the limit is not smaller than the number of results that
/// share a tag with the query.
pub proof fn lemma_find_listed(
    data: CacheData,
    id: ResultId,
    query: Seq<Seq<char>>,
    limit: nat,
    found: Seq<SearchResultView>,
)
    requires
        data.wf(),
        data.results.contains_key(id),
        query.len() > 0,
        forall|i: int| 0 <= i < query.len() ==> data.postings(#[trigger] query[i]).contains(id),
        data.ranks(query, limit, found),
        limit >= data.candidates(query).len(),
    ensures
        found.contains(data.results[id]),
{
    let ids = ids_of(found);
    lemma_overlap_full(data, query, id);
    assert(data.candidates(query).contains(id));
    lemma_answer_len(data, query, limit, found);
    if found.len() < limit {
        assert(data.overlap(query, id) > 0);
        assert(ids.contains(id));
    } else {
        assert(ids.to_set().contains(id));
    }
    let k = choose|k: int| 0 <= k < ids.len() && ids[k] == id;
    assert(data.results[ids[k]] == found[k]);
}

/// A result that was added under a set of tags is found by any query made of
/// some of these tags, and of no others, if only the limit is not smaller
/// than the number of results that share a tag with the query.
pub proof fn lemma_find_complete(
    data: CacheData,
    tags: Seq<Seq<char>>,
    result: SearchResultView,
    query: Seq<Seq<char>>,
    limit: nat,
    found: Seq<SearchResultView>,
)
    requires
        data.wf(),
        !data.results.contains_key(fingerprint_of(result.page)),
        query.len() > 0,
        forall|i: int| 0 <= i < query.len() ==> tags.contains(#[trigger] query[i]),
        data.add(tags, result).ranks(query, limit, found),
        limit >= data.add(tags, result).candidates(query).len(),
    ensures
        found.contains(result),
{
    assert(data.add_all(Seq::empty()) == data);
    assert(data.add(tags, result).add_all(Seq::empty()) == data.add(tags, result));
    lemma_find_complete_later(data, tags, result, Seq::empty(), query, limit, found);
}

/// A result that was added under a set of tags is found from then on,
/// whatever is added after it: by any query made of some of these tags, and
/// of no others, if only the limit is not smaller than the number of results
/// that share a tag with the query.
pub proof fn lemma_find_complete_later(
    data: CacheData,
    tags: Seq<Seq<char>>,
    result: SearchResultView,
    later: Seq<FullSearchResultView>,
    query: Seq<Seq<char>>,
    limit: nat,
    found: Seq<SearchResultView>,
)
    requires
        data.wf(),
        !data.results.contains_key(fingerprint_of(result.page)),
        query.len() > 0,
        forall|i: int| 0 <= i < query.len() ==> tags.contains(#[trigger] query[i]),
        data.add(tags, result).add_all(later).ranks(query, limit, found),
        limit >= data.add(tags, result).add_all(later).candidates(query).len(),
    ensures
        found.contains(result),
{
    let id = fingerprint_of(result.page);
    let added = data.add(tags, result);
    let now = added.add_all(later);
    lemma_add_wf(data, tags, result);
    lemma_add_all_wf(added, later);
    assert forall|i: int| 0 <= i < query.len() implies now.postings(#[trigger] query[i]).contains(
        id,
    ) by {
        let tag = query[i];
        lemma_count_of_contains(tags, tag);
        let list = added.postings(tag);
        assert(list[data.postings(tag).len() as int] == id);
        lemma_add_all_keeps(added, later, id, tag);
    }
    lemma_add_all_keeps(added, later, id, query[0]);
    lemma_find_listed(now, id, query, limit, found);
}

/// A query that shares no tag with any stored result is answered with
/// nothing.
pub proof fn lemma_no_match_no_answer(
    data: CacheData,
    query: Seq<Seq<char>>,
    limit: nat,
    found: Seq<SearchResultView>,
)
    requires
        data.ranks(query, limit, found),
        forall|id: ResultId| data.overlap(query, id) == 0,
    ensures
        found.len() == 0,
{
    if found.len() > 0 {
        assert(data.overlap(query, ids_of(found)[0]) > 0);
    }
}

} // verus!
