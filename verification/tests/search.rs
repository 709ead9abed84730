use dilbert::cache::TagBasedCache;
use dilbert::catalog::search_request_uri;
use dilbert::error::{FetchError, QueryError};
use dilbert::search::{
    cache_results, cached_search, non_cached_search, search_image, search_image_in_cache,
    strip_tags, FullSearchResult, SearchResult, SearchSettings, SearchStep, SEARCH_LIMIT,
};
use dilbert::tags::{ParseTags, Tag};

fn tags(text: &str) -> Vec<Tag> {
    text.parse_tags().unwrap()
}

fn result(n: u32) -> SearchResult {
    SearchResult { page: format!("http://x/{}", n), image: format!("http://x/{}.png", n) }
}

fn full(n: u32, under: &str) -> FullSearchResult {
    FullSearchResult { search_result: result(n), tags: tags(under) }
}

fn cache_with(count: u32, under: &str) -> TagBasedCache {
    let mut cache = TagBasedCache::new();
    for n in 0..count {
        cache.add(&tags(under), &result(n));
    }
    cache
}

fn texts(tags: &[Tag]) -> Vec<String> {
    tags.iter().map(|tag| tag.to_string()).collect()
}

#[test]
fn search_limit_is_ten() {
    assert_eq!(SEARCH_LIMIT, 10);
}

#[test]
fn sufficiency_four_results_fall_through_to_a_fetch() {
    let cache = cache_with(4, "x");
    let settings = SearchSettings::new(true);
    match search_image(&cache, "x", &settings) {
        Ok(SearchStep::Fetch(pending)) => {
            assert!(pending.use_cache);
            assert_eq!(texts(&pending.tags), vec!["x"]);
        },
        _ => panic!("four cached results must not answer the search"),
    }
    assert_eq!(search_image_in_cache(&cache, &tags("x")), None);
}

#[test]
fn sufficiency_five_results_answer_from_the_cache() {
    let cache = cache_with(5, "x");
    let settings = SearchSettings::new(true);
    match search_image(&cache, "x", &settings) {
        Ok(SearchStep::Respond(found)) => {
            assert_eq!(found, vec![result(0), result(1), result(2), result(3), result(4)]);
        },
        _ => panic!("five cached results must answer the search"),
    }
}

#[test]
fn sufficiency_more_results_than_the_limit_answer_with_the_limit() {
    let cache = cache_with(25, "x");
    match search_image_in_cache(&cache, &tags("x")) {
        Some(found) => assert_eq!(found.len(), 10),
        None => panic!("a full cache must answer"),
    }
}

#[test]
fn search_without_cache_always_fetches() {
    let cache = cache_with(8, "x");
    let settings = SearchSettings::new(false);
    match search_image(&cache, "x", &settings) {
        Ok(SearchStep::Fetch(pending)) => {
            assert!(!pending.use_cache);
            assert_eq!(texts(&pending.tags), vec!["x"]);
        },
        _ => panic!("with the cache switched off the catalogue is asked"),
    }
}

#[test]
fn search_of_blank_request_is_empty_input() {
    let cache = TagBasedCache::new();
    for use_cache in [true, false] {
        let settings = SearchSettings::new(use_cache);
        match search_image(&cache, " 12 !! ", &settings) {
            Err(error) => assert_eq!(error, QueryError::EmptyInput),
            Ok(_) => panic!("a request without a token must be refused"),
        }
    }
}

#[test]
fn cached_search_decides_by_the_cache() {
    match cached_search(&cache_with(5, "boss"), tags("boss")) {
        SearchStep::Respond(found) => assert_eq!(found.len(), 5),
        SearchStep::Fetch(_) => panic!("the cache knows enough"),
    }
    match cached_search(&cache_with(5, "boss"), tags("wally")) {
        SearchStep::Respond(_) => panic!("the cache knows nothing of this"),
        SearchStep::Fetch(pending) => assert!(pending.use_cache),
    }
}

#[test]
fn non_cached_search_fetches_without_caching() {
    match non_cached_search(tags("boss meeting")) {
        SearchStep::Fetch(pending) => {
            assert!(!pending.use_cache);
            assert_eq!(texts(&pending.tags), vec!["boss", "meeting"]);
        },
        SearchStep::Respond(_) => panic!("nothing to respond with"),
    }
}

#[test]
fn request_uri_joins_tags_with_plus() {
    assert_eq!(
        search_request_uri(&tags("Pointy haired BOSS")),
        "https://dilbert.com/search_results?terms=pointy+haired+boss"
    );
    assert_eq!(search_request_uri(&tags("boss")), "https://dilbert.com/search_results?terms=boss");
    assert_eq!(search_request_uri(&[]), "https://dilbert.com/search_results?terms=");
}

#[test]
fn pending_search_asks_for_its_tags() {
    let cache = TagBasedCache::new();
    let settings = SearchSettings::new(true);
    match search_image(&cache, "Dilbert's Boss!!", &settings) {
        Ok(SearchStep::Fetch(pending)) => {
            assert_eq!(
                pending.request_uri(),
                "https://dilbert.com/search_results?terms=dilbert+s+boss"
            );
        },
        _ => panic!("an empty cache cannot answer"),
    }
}

#[test]
fn complete_with_cache_fills_the_cache() {
    let mut cache = TagBasedCache::new();
    let pending = match non_cached_search(tags("boss")) {
        SearchStep::Fetch(mut pending) => {
            pending.use_cache = true;
            pending
        },
        SearchStep::Respond(_) => panic!("nothing to respond with"),
    };
    let fetched = vec![full(1, "boss meeting"), full(2, "boss"), full(3, "coffee")];
    let answer = pending.complete(&mut cache, Ok(fetched));
    assert_eq!(answer, Ok(vec![result(1), result(2), result(3)]));
    assert_eq!(cache.find(&tags("boss"), 10), vec![result(1), result(2)]);
    assert_eq!(cache.find(&tags("coffee"), 10), vec![result(3)]);
}

#[test]
fn complete_without_cache_leaves_the_cache_alone() {
    let mut cache = TagBasedCache::new();
    let pending = match non_cached_search(tags("boss")) {
        SearchStep::Fetch(pending) => pending,
        SearchStep::Respond(_) => panic!("nothing to respond with"),
    };
    let answer = pending.complete(&mut cache, Ok(vec![full(1, "boss")]));
    assert_eq!(answer, Ok(vec![result(1)]));
    assert_eq!(cache.find(&tags("boss"), 10), Vec::<SearchResult>::new());
}

#[test]
fn complete_with_empty_answer_is_an_empty_result() {
    let mut cache = TagBasedCache::new();
    let pending = match cached_search(&cache, tags("boss")) {
        SearchStep::Fetch(pending) => pending,
        SearchStep::Respond(_) => panic!("an empty cache cannot answer"),
    };
    assert_eq!(pending.complete(&mut cache, Ok(Vec::new())), Ok(Vec::new()));
}

#[test]
fn complete_passes_a_failed_fetch_on() {
    for error in [FetchError::Network, FetchError::Status(503), FetchError::Decode, FetchError::Selector] {
        let mut cache = cache_with(2, "boss");
        let pending = match cached_search(&cache, tags("boss")) {
            SearchStep::Fetch(pending) => pending,
            SearchStep::Respond(_) => panic!("two results are too few"),
        };
        assert_eq!(pending.complete(&mut cache, Err(error)), Err(QueryError::Fetch(error)));
        assert_eq!(cache.find(&tags("boss"), 10), vec![result(0), result(1)]);
    }
}

#[test]
fn a_search_is_answered_from_the_cache_once_it_was_filled() {
    let mut cache = TagBasedCache::new();
    let settings = SearchSettings::new(true);
    let pending = match search_image(&cache, "boss", &settings) {
        Ok(SearchStep::Fetch(pending)) => pending,
        _ => panic!("an empty cache cannot answer"),
    };
    let fetched: Vec<FullSearchResult> = (0..6).map(|n| full(n, "boss")).collect();
    let first = pending.complete(&mut cache, Ok(fetched)).unwrap();
    match search_image(&cache, "boss", &settings) {
        Ok(SearchStep::Respond(found)) => assert_eq!(found, first),
        _ => panic!("a filled cache must answer"),
    }
}

#[test]
fn cache_results_adds_each_under_its_own_tags() {
    let mut cache = TagBasedCache::new();
    cache_results(&mut cache, &[full(1, "boss"), full(2, "wally"), full(1, "wally")]);
    assert_eq!(cache.find(&tags("boss"), 10), vec![result(1)]);
    assert_eq!(cache.find(&tags("wally"), 10), vec![result(2)]);
}

#[test]
fn strip_tags_keeps_order() {
    assert_eq!(strip_tags(vec![full(2, "a"), full(1, "b")]), vec![result(2), result(1)]);
    assert_eq!(strip_tags(Vec::new()), Vec::<SearchResult>::new());
}

#[test]
fn settings_from_flag() {
    assert!(SearchSettings::from_flag(Some("true")).use_cache());
    assert!(!SearchSettings::from_flag(Some("false")).use_cache());
    assert!(!SearchSettings::from_flag(Some("TRUE")).use_cache());
    assert!(!SearchSettings::from_flag(Some("1")).use_cache());
    assert!(!SearchSettings::from_flag(Some("")).use_cache());
    assert!(!SearchSettings::from_flag(Some(" true")).use_cache());
    assert!(!SearchSettings::from_flag(None).use_cache());
}

#[test]
fn settings_new() {
    assert!(SearchSettings::new(true).use_cache());
    assert!(!SearchSettings::new(false).use_cache());
}
