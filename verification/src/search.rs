//! Searching: what a search is asked with, what it answers with, and the
//! steps that decide whether the cache answers or the catalogue is asked.

use crate::cache::{CacheData, TagBasedCache};
use crate::catalog::{request_uri_of, search_request_uri};
use crate::error::{FetchError, QueryError};
use crate::laws::lemma_answer_len;
use crate::tags::{tag_texts, tokens_of, ParseTags, Tag};
use vstd::prelude::*;

verus! {

/// One entry of the catalogue: the page that it lives on, which is what the
/// entry is known by, and the image shown on that page. Both are the
/// serialisations of URLs.
#[derive(Debug, PartialEq, Eq)]
pub struct SearchResult {
    pub image: String,
    pub page: String,
}

/// A search result as contracts see it: the two addresses as texts.
pub struct SearchResultView {
    pub image: Seq<char>,
    pub page: Seq<char>,
}

impl View for SearchResult {
    type V = SearchResultView;

    open spec fn view(&self) -> SearchResultView {
        SearchResultView { image: self.image@, page: self.page@ }
    }
}

impl Clone for SearchResult {
    fn clone(&self) -> (copy: Self)
        ensures
            copy@ == self@,
    {
        SearchResult { image: self.image.clone(), page: self.page.clone() }
    }
}

/// The views of a list of search results.
pub open spec fn result_views(results: Seq<SearchResult>) -> Seq<SearchResultView> {
    Seq::new(results.len(), |i: int| results[i]@)
}

/// A search result together with the tags that the catalogue lists it under,
/// as it comes from a live lookup.
#[derive(Debug, PartialEq, Eq)]
pub struct FullSearchResult {
    pub search_result: SearchResult,
    pub tags: Vec<Tag>,
}

/// A full search result as contracts see it.
pub struct FullSearchResultView {
    pub search_result: SearchResultView,
    pub tags: Seq<Seq<char>>,
}

impl View for FullSearchResult {
    type V = FullSearchResultView;

    open spec fn view(&self) -> FullSearchResultView {
        FullSearchResultView { search_result: self.search_result@, tags: tag_texts(self.tags@) }
    }
}

/// The views of a list of full search results.
pub open spec fn full_views(results: Seq<FullSearchResult>) -> Seq<FullSearchResultView> {
    Seq::new(results.len(), |i: int| results[i]@)
}

/// The search results of a list of full search results, tags left out.
pub open spec fn plain_results(results: Seq<FullSearchResultView>) -> Seq<SearchResultView> {
    Seq::new(results.len(), |i: int| results[i].search_result)
}

/// How many results a search asks the cache for.
pub const SEARCH_LIMIT: usize = 10;

/// Whether the cache knows enough to answer `query` itself: at least half
/// of `SEARCH_LIMIT` of its results share a tag with the query.
pub open spec fn cache_suffices(data: CacheData, query: Seq<Seq<char>>) -> bool {
    data.candidates(query).len() >= SEARCH_LIMIT / 2
}

/// Calls `str::parse::<bool>`. Taken on trust: it reads `true` and `false`,
/// and nothing else.
#[verifier::external_body]
fn parse_bool(text: &str) -> (parsed: Option<bool>)
    ensures
        text@ == "true"@ ==> parsed == Some(true),
        text@ == "false"@ ==> parsed == Some(false),
        text@ != "true"@ && text@ != "false"@ ==> parsed is None,
{
    text.parse::<bool>().ok()
}

/// The settings of a search.
pub struct SearchSettings {
    use_cache: bool,
}

impl SearchSettings {
    /// Whether searches consult and fill the cache.
    pub closed spec fn caching(&self) -> bool {
        self.use_cache
    }

    /// Settings with the cache switched on or off.
    pub fn new(use_cache: bool) -> (settings: SearchSettings)
        ensures
            settings.caching() == use_cache,
    {
        SearchSettings { use_cache }
    }

    /// Settings from the value of the configuration flag: the cache is on
    /// only where the flag is set and reads `true`.
    pub fn from_flag(value: Option<&str>) -> (settings: SearchSettings)
        ensures
            settings.caching() <==> (value matches Some(text) && text@ == "true"@),
    {
        proof {
            reveal_strlit("true");
            reveal_strlit("false");
        }
        let use_cache: bool = match value {
            Some(text) => match parse_bool(text) {
                Some(flag) => flag,
                None => false,
            },
            None => false,
        };
        SearchSettings { use_cache }
    }

    /// Whether searches consult and fill the cache.
    pub fn use_cache(&self) -> (flag: bool)
        ensures
            flag == self.caching(),
    {
        self.use_cache
    }
}

/// A search that the cache did not answer, waiting for the catalogue.
#[derive(Debug)]
pub struct PendingSearch {
    /// The tags to ask the catalogue for.
    pub tags: Vec<Tag>,
    /// Whether what the catalogue answers goes into the cache.
    pub use_cache: bool,
}

/// What a search does next.
#[derive(Debug)]
pub enum SearchStep {
    /// Answer with these results; the catalogue is not asked.
    Respond(Vec<SearchResult>),
    /// Ask the catalogue, and complete the search with what it answers.
    Fetch(PendingSearch),
}

/// Asks the cache for `tags`. Its answer counts only if it holds at least
/// half of `SEARCH_LIMIT` results; a shorter one is no answer at all.
pub fn search_image_in_cache(cache: &TagBasedCache, tags: &[Tag]) -> (answer: Option<
    Vec<SearchResult>,
>)
    requires
        cache.inv(),
    ensures
        answer is Some <==> cache_suffices(cache@, tag_texts(tags@)),
        answer matches Some(found) ==> found.len() >= SEARCH_LIMIT / 2 && cache@.ranks(
            tag_texts(tags@),
            SEARCH_LIMIT as nat,
            result_views(found@),
        ),
{
    let found: Vec<SearchResult> = cache.find(tags, SEARCH_LIMIT);
    proof {
        cache.lemma_wf();
        lemma_answer_len(cache@, tag_texts(tags@), SEARCH_LIMIT as nat, result_views(found@));
    }
    if found.len() < SEARCH_LIMIT / 2 {
        None
    } else {
        Some(found)
    }
}

/// Adds every one of `results` to the cache, under its own tags, in order.
pub fn cache_results(cache: &mut TagBasedCache, results: &[FullSearchResult])
    requires
        old(cache).inv(),
    ensures
        final(cache).inv(),
        final(cache)@ == old(cache)@.add_all(full_views(results@)),
{
    let mut i: usize = 0;
    while i < results.len()
        invariant
            i <= results.len(),
            cache.inv(),
            cache@ == old(cache)@.add_all(full_views(results@).take(i as int)),
        decreases results.len() - i,
    {
        proof {
            let now = full_views(results@).take(i + 1);
            assert(now.drop_last() == full_views(results@).take(i as int));
            assert(now.last() == results[i as int]@);
        }
        cache.add(results[i].tags.as_slice(), &results[i].search_result);
        i = i + 1;
    }
    proof {
        assert(full_views(results@).take(i as int) == full_views(results@));
    }
}

/// A search with the cache switched on: the cache answers if it knows
/// enough, and else the catalogue is asked and its answer will be cached.
pub fn cached_search(cache: &TagBasedCache, tags: Vec<Tag>) -> (step: SearchStep)
    requires
        cache.inv(),
    ensures
        match step {
            SearchStep::Respond(found) => {
                &&& cache_suffices(cache@, tag_texts(tags@))
                &&& found.len() >= SEARCH_LIMIT / 2
                &&& cache@.ranks(tag_texts(tags@), SEARCH_LIMIT as nat, result_views(found@))
            },
            SearchStep::Fetch(pending) => {
                &&& !cache_suffices(cache@, tag_texts(tags@))
                &&& pending.tags == tags
                &&& pending.use_cache
            },
        },
{
    match search_image_in_cache(cache, tags.as_slice()) {
        Some(found) => SearchStep::Respond(found),
        None => SearchStep::Fetch(PendingSearch { tags, use_cache: true }),
    }
}

/// A search with the cache switched off: the catalogue is asked, and the
/// cache is neither read nor filled.
pub fn non_cached_search(tags: Vec<Tag>) -> (step: SearchStep)
    ensures
        step matches SearchStep::Fetch(pending) && pending.tags == tags && !pending.use_cache,
{
    SearchStep::Fetch(PendingSearch { tags, use_cache: false })
}

/// Resolves a request: cuts it into tags and decides what the search does
/// next. A request without a token is refused. With the cache switched on,
/// the cache answers if it knows enough; in every other case the catalogue
/// is to be asked for the request's tags.
pub fn search_image(cache: &TagBasedCache, request: &str, settings: &SearchSettings) -> (step:
    Result<SearchStep, QueryError>)
    requires
        cache.inv(),
    ensures
        match step {
            Err(error) => error == QueryError::EmptyInput && tokens_of(request@).len() == 0,
            Ok(SearchStep::Respond(found)) => {
                &&& tokens_of(request@).len() > 0
                &&& settings.caching()
                &&& cache_suffices(cache@, tokens_of(request@))
                &&& found.len() >= SEARCH_LIMIT / 2
                &&& cache@.ranks(tokens_of(request@), SEARCH_LIMIT as nat, result_views(found@))
            },
            Ok(SearchStep::Fetch(pending)) => {
                &&& tokens_of(request@).len() > 0
                &&& !(settings.caching() && cache_suffices(cache@, tokens_of(request@)))
                &&& tag_texts(pending.tags@) == tokens_of(request@)
                &&& pending.use_cache == settings.caching()
            },
        },
{
    let tags: Vec<Tag> = match request.parse_tags() {
        Ok(tags) => tags,
        Err(_) => {
            return Err(QueryError::EmptyInput);
        },
    };
    if settings.use_cache() {
        Ok(cached_search(cache, tags))
    } else {
        Ok(non_cached_search(tags))
    }
}

impl PendingSearch {
    /// The address to ask the catalogue with.
    pub fn request_uri(&self) -> (uri: String)
        ensures
            uri@ == request_uri_of(tag_texts(self.tags@)),
    {
        search_request_uri(self.tags.as_slice())
    }

    /// Completes the search with what the catalogue answered. A failed
    /// lookup fails the search and leaves the cache as it was. Otherwise the
    /// results are the answer, tags left out; and with the cache switched on
    /// each of them is added to the cache first.
    pub fn complete(
        self,
        cache: &mut TagBasedCache,
        fetched: Result<Vec<FullSearchResult>, FetchError>,
    ) -> (answer: Result<Vec<SearchResult>, QueryError>)
        requires
            old(cache).inv(),
        ensures
            final(cache).inv(),
            match fetched {
                Err(error) => answer == Err::<Vec<SearchResult>, QueryError>(
                    QueryError::Fetch(error),
                ) && final(cache)@ == old(cache)@,
                Ok(results) => {
                    &&& answer matches Ok(found) && result_views(found@) == plain_results(
                        full_views(results@),
                    )
                    &&& final(cache)@ == if self.use_cache {
                        old(cache)@.add_all(full_views(results@))
                    } else {
                        old(cache)@
                    }
                },
            },
    {
        match fetched {
            Err(error) => Err(QueryError::Fetch(error)),
            Ok(results) => {
                if self.use_cache {
                    cache_results(cache, results.as_slice());
                }
                Ok(strip_tags(results))
            },
        }
    }
}

/// The search results of `results`, tags left out.
pub fn strip_tags(results: Vec<FullSearchResult>) -> (plain: Vec<SearchResult>)
    ensures
        result_views(plain@) == plain_results(full_views(results@)),
{
    let mut plain: Vec<SearchResult> = Vec::new();
    let ghost all = results@;
    for full in it: results
        invariant
            it.seq() == all,
            plain.len() == it.index(),
            forall|k: int| 0 <= k < plain.len() ==> (#[trigger] plain@[k])@ == all[k]@.search_result,
    {
        plain.push(full.search_result);
    }
    proof {
        assert(result_views(plain@) =~= plain_results(full_views(all)));
    }
    plain
}

} // verus!
