use dilbert::cache::TagBasedCache;
use dilbert::rank::top_indices;
use dilbert::search::SearchResult;
use dilbert::tags::{ParseTags, Tag};
use dilbert::tally::Tally;

fn tags(text: &str) -> Vec<Tag> {
    text.parse_tags().unwrap()
}

fn result(n: u32) -> SearchResult {
    SearchResult { page: format!("http://x/{}", n), image: format!("http://x/{}.png", n) }
}

#[test]
fn end_to_end_insert_then_find() {
    let mut cache = TagBasedCache::new();
    let only = SearchResult {
        page: "http://x/1".to_string(),
        image: "http://x/1.png".to_string(),
    };
    cache.add(&tags("boss meeting"), &only);
    assert_eq!(cache.find(&tags("boss"), 10), vec![only.clone()]);
    assert_eq!(cache.find(&tags("nothing"), 10), Vec::<SearchResult>::new());
}

#[test]
fn find_in_empty_cache_is_empty() {
    let cache = TagBasedCache::new();
    assert_eq!(cache.find(&tags("boss"), 10), Vec::<SearchResult>::new());
}

#[test]
fn find_with_no_tags_is_empty() {
    let mut cache = TagBasedCache::new();
    cache.add(&tags("boss"), &result(1));
    assert_eq!(cache.find(&[], 10), Vec::<SearchResult>::new());
}

#[test]
fn dedup_first_insert_wins() {
    let mut cache = TagBasedCache::new();
    let first = SearchResult { page: "http://x/1".to_string(), image: "http://x/a.png".to_string() };
    let second = SearchResult { page: "http://x/1".to_string(), image: "http://x/b.png".to_string() };
    let third = SearchResult { page: "http://x/1".to_string(), image: "http://x/c.png".to_string() };
    cache.add(&tags("boss"), &first);
    cache.add(&tags("boss"), &second);
    cache.add(&tags("wally"), &third);
    assert_eq!(cache.find(&tags("boss"), 10), vec![first.clone()]);
    assert_eq!(cache.find(&tags("wally"), 10), Vec::<SearchResult>::new());
    assert_eq!(cache.find(&tags("boss wally"), 10), vec![first]);
}

#[test]
fn completeness_every_subset_of_the_tags_finds_the_result() {
    let mut cache = TagBasedCache::new();
    let wanted = result(7);
    cache.add(&tags("boss"), &result(1));
    cache.add(&tags("meeting"), &result(2));
    cache.add(&tags("boss meeting coffee"), &wanted);
    for query in ["boss", "meeting", "coffee", "boss meeting", "coffee boss", "boss meeting coffee"] {
        let found = cache.find(&tags(query), 10);
        assert!(found.contains(&wanted));
    }
}

#[test]
fn ranking_most_shared_tags_first() {
    let mut cache = TagBasedCache::new();
    cache.add(&tags("boss"), &result(1));
    cache.add(&tags("boss meeting"), &result(2));
    cache.add(&tags("boss meeting coffee"), &result(3));
    cache.add(&tags("dogbert"), &result(4));
    let found = cache.find(&tags("boss meeting coffee"), 10);
    assert_eq!(found, vec![result(3), result(2), result(1)]);
}

#[test]
fn ranking_takes_the_best_when_the_limit_cuts() {
    let mut cache = TagBasedCache::new();
    cache.add(&tags("boss"), &result(1));
    cache.add(&tags("boss meeting"), &result(2));
    cache.add(&tags("boss meeting coffee"), &result(3));
    assert_eq!(cache.find(&tags("boss meeting coffee"), 1), vec![result(3)]);
    assert_eq!(cache.find(&tags("boss meeting coffee"), 2), vec![result(3), result(2)]);
}

#[test]
fn ranking_ties_keep_the_order_of_first_sight() {
    let mut cache = TagBasedCache::new();
    cache.add(&tags("boss"), &result(1));
    cache.add(&tags("boss"), &result(2));
    cache.add(&tags("meeting"), &result(3));
    assert_eq!(cache.find(&tags("meeting boss"), 10), vec![result(3), result(1), result(2)]);
}

#[test]
fn limit_is_respected() {
    let mut cache = TagBasedCache::new();
    for n in 0..20 {
        cache.add(&tags("boss"), &result(n));
    }
    for limit in [0usize, 1, 5, 19, 20, 21, 1000] {
        let found = cache.find(&tags("boss"), limit);
        assert_eq!(found.len(), limit.min(20));
    }
    assert_eq!(cache.find(&tags("boss"), 0), Vec::<SearchResult>::new());
}

#[test]
fn find_returns_each_result_once() {
    let mut cache = TagBasedCache::new();
    cache.add(&tags("boss meeting"), &result(1));
    assert_eq!(cache.find(&tags("boss meeting"), 10), vec![result(1)]);
}

#[test]
fn a_tag_named_twice_in_the_query_counts_twice() {
    let mut cache = TagBasedCache::new();
    cache.add(&tags("meeting coffee"), &result(1));
    cache.add(&tags("boss"), &result(2));
    let found = cache.find(&tags("meeting coffee boss boss boss"), 10);
    assert_eq!(found, vec![result(2), result(1)]);
}

#[test]
fn a_result_listed_twice_under_a_tag_counts_once() {
    let mut cache = TagBasedCache::new();
    cache.add(&tags("boss boss boss"), &result(1));
    cache.add(&tags("boss meeting"), &result(2));
    let found = cache.find(&tags("boss meeting"), 10);
    assert_eq!(found, vec![result(2), result(1)]);
}

#[test]
fn add_without_tags_stores_but_is_never_found() {
    let mut cache = TagBasedCache::new();
    cache.add(&[], &result(1));
    assert_eq!(cache.find(&tags("boss"), 10), Vec::<SearchResult>::new());
    cache.add(&tags("boss"), &result(1));
    assert_eq!(cache.find(&tags("boss"), 10), Vec::<SearchResult>::new());
}

#[test]
fn fingerprint_depends_on_the_page_alone() {
    let one = SearchResult { page: "http://x/1".to_string(), image: "http://x/a.png".to_string() };
    let other = SearchResult { page: "http://x/1".to_string(), image: "http://x/b.png".to_string() };
    assert_eq!(one.id(), other.id());
    assert_ne!(one.id(), result(2).id());
    assert_ne!(result(2).id(), result(3).id());
}

#[test]
fn search_result_clone_is_equal() {
    let one = result(1);
    assert_eq!(one.clone(), one);
}

#[test]
fn top_indices_best_first() {
    assert_eq!(top_indices(&vec![1, 5, 3, 5, 2], 3), vec![1, 3, 2]);
    assert_eq!(top_indices(&vec![1, 5, 3, 5, 2], 10), vec![1, 3, 2, 4, 0]);
    assert_eq!(top_indices(&vec![1, 5, 3], 0), Vec::<usize>::new());
    assert_eq!(top_indices(&Vec::new(), 4), Vec::<usize>::new());
}

#[test]
fn tally_counts_a_key_once_a_round() {
    let mut tally = Tally::new();
    tally.next_round();
    tally.hit(7);
    tally.hit(7);
    tally.hit(9);
    tally.next_round();
    tally.hit(7);
    tally.next_round();
    tally.hit(3);
    tally.hit(7);
    let (keys, hits) = tally.into_counts();
    assert_eq!(keys, vec![7, 9, 3]);
    assert_eq!(hits, vec![3, 1, 1]);
}

#[test]
fn tally_without_hits_is_empty() {
    let mut tally = Tally::new();
    tally.next_round();
    let (keys, hits) = tally.into_counts();
    assert_eq!(keys, Vec::<u64>::new());
    assert_eq!(hits, Vec::<usize>::new());
}

#[test]
fn insert_with_the_fingerprint_is_add() {
    let mut cache = TagBasedCache::new();
    let one = result(1);
    cache.insert(one.id(), &tags("boss"), &one);
    cache.insert(one.id(), &tags("wally"), &one);
    assert_eq!(cache.find(&tags("boss"), 10), vec![result(1)]);
    assert_eq!(cache.find(&tags("wally"), 10), Vec::<SearchResult>::new());
}
