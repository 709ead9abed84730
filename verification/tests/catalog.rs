use dilbert::catalog::{
    process_search_image_response, read_comic, read_comics, scrape_comics, ComicSelectors,
    RawComic,
};
use dilbert::error::FetchError;
use dilbert::search::{FullSearchResult, SearchResult};
use dilbert::tags::{ParseTags, Tag};

fn tags(text: &str) -> Vec<Tag> {
    text.parse_tags().unwrap()
}

fn comic(link: &str, image: &str, tag_links: &str) -> String {
    format!(
        "<div class=\"img-comic-container\">{}{}<p class=\"comic-tags\">{}</p></div>",
        link, image, tag_links
    )
}

fn page(comics: &[String]) -> String {
    format!("<html><body>{}</body></html>", comics.concat())
}

fn good(n: u32, tag_links: &str) -> String {
    comic(
        &format!("<a class=\"img-comic-link\" href=\"https://dilbert.com/strip/{}\">x</a>", n),
        &format!("<img class=\"img-comic\" src=\"https://assets.example.com/{}.png\">", n),
        tag_links,
    )
}

fn strip(n: u32, under: &str) -> FullSearchResult {
    FullSearchResult {
        search_result: SearchResult {
            page: format!("https://dilbert.com/strip/{}", n),
            image: format!("https://assets.example.com/{}.png", n),
        },
        tags: tags(under),
    }
}

#[test]
fn selectors_can_be_built() {
    assert!(ComicSelectors::build().is_ok());
}

#[test]
fn response_with_two_comics() {
    let body = page(&[
        good(1, "<a href=\"/t/boss\">#Boss</a><a href=\"/t/m\">#pointy haired</a>"),
        good(2, "<a>#Wally</a>"),
    ]);
    assert_eq!(
        process_search_image_response(&body),
        Ok(vec![strip(1, "boss pointy haired"), strip(2, "wally")])
    );
}

#[test]
fn response_without_comics_is_empty() {
    assert_eq!(process_search_image_response("<html><body><p>nothing</p></body></html>"), Ok(Vec::new()));
    assert_eq!(process_search_image_response(""), Ok(Vec::new()));
    assert_eq!(process_search_image_response("not html at all"), Ok(Vec::new()));
}

#[test]
fn response_drops_comic_without_link() {
    let body = page(&[
        comic("", "<img class=\"img-comic\" src=\"https://assets.example.com/1.png\">", "<a>boss</a>"),
        good(2, "<a>boss</a>"),
    ]);
    assert_eq!(process_search_image_response(&body), Ok(vec![strip(2, "boss")]));
}

#[test]
fn response_drops_comic_without_href() {
    let body = page(&[
        comic(
            "<a class=\"img-comic-link\">x</a>",
            "<img class=\"img-comic\" src=\"https://assets.example.com/1.png\">",
            "<a>boss</a>",
        ),
        good(2, "<a>boss</a>"),
    ]);
    assert_eq!(process_search_image_response(&body), Ok(vec![strip(2, "boss")]));
}

#[test]
fn response_drops_comic_with_relative_page_address() {
    let body = page(&[
        comic(
            "<a class=\"img-comic-link\" href=\"/strip/1\">x</a>",
            "<img class=\"img-comic\" src=\"https://assets.example.com/1.png\">",
            "<a>boss</a>",
        ),
        good(2, "<a>boss</a>"),
    ]);
    assert_eq!(process_search_image_response(&body), Ok(vec![strip(2, "boss")]));
}

#[test]
fn response_drops_comic_without_image() {
    let body = page(&[
        comic("<a class=\"img-comic-link\" href=\"https://dilbert.com/strip/1\">x</a>", "", "<a>boss</a>"),
        good(2, "<a>boss</a>"),
    ]);
    assert_eq!(process_search_image_response(&body), Ok(vec![strip(2, "boss")]));
}

#[test]
fn response_drops_comic_with_bad_image_address() {
    let body = page(&[
        comic(
            "<a class=\"img-comic-link\" href=\"https://dilbert.com/strip/1\">x</a>",
            "<img class=\"img-comic\" src=\"not a url\">",
            "<a>boss</a>",
        ),
        good(2, "<a>boss</a>"),
    ]);
    assert_eq!(process_search_image_response(&body), Ok(vec![strip(2, "boss")]));
}

#[test]
fn response_drops_comic_without_tags() {
    let body = page(&[good(1, ""), good(2, "<a>123</a><a>!!</a>"), good(3, "<a>boss</a>")]);
    assert_eq!(process_search_image_response(&body), Ok(vec![strip(3, "boss")]));
}

#[test]
fn response_takes_the_first_link_and_image() {
    let body = page(&[comic(
        "<a class=\"img-comic-link\" href=\"https://dilbert.com/strip/1\">x</a>\
         <a class=\"img-comic-link\" href=\"https://dilbert.com/strip/9\">y</a>",
        "<img class=\"img-comic\" src=\"https://assets.example.com/1.png\">\
         <img class=\"img-comic\" src=\"https://assets.example.com/9.png\">",
        "<a>boss</a>",
    )]);
    assert_eq!(process_search_image_response(&body), Ok(vec![strip(1, "boss")]));
}

#[test]
fn response_only_reads_tag_links_that_are_children() {
    let body = page(&[good(1, "<a>boss</a><span><a>hidden</a></span>")]);
    assert_eq!(process_search_image_response(&body), Ok(vec![strip(1, "boss")]));
}

#[test]
fn response_addresses_are_serialised_urls() {
    let body = page(&[comic(
        "<a class=\"img-comic-link\" href=\"HTTPS://Dilbert.COM\">x</a>",
        "<img class=\"img-comic\" src=\"https://assets.example.com/a b.png\">",
        "<a>boss</a>",
    )]);
    let expected = FullSearchResult {
        search_result: SearchResult {
            page: "https://dilbert.com/".to_string(),
            image: "https://assets.example.com/a%20b.png".to_string(),
        },
        tags: tags("boss"),
    };
    assert_eq!(process_search_image_response(&body), Ok(vec![expected]));
}

#[test]
fn scrape_reads_raw_comics() {
    let body = page(&[
        good(1, "<a>#Boss</a><a>2020</a>"),
        comic("<a class=\"img-comic-link\" href=\"/relative\">x</a>", "", ""),
    ]);
    let expected = vec![
        RawComic {
            page_href: Some("https://dilbert.com/strip/1".to_string()),
            image_src: Some("https://assets.example.com/1.png".to_string()),
            tag_texts: vec!["#Boss".to_string(), "2020".to_string()],
        },
        RawComic { page_href: Some("/relative".to_string()), image_src: None, tag_texts: Vec::new() },
    ];
    assert_eq!(scrape_comics(&body), Ok(expected));
}

#[test]
fn read_comic_checks_addresses_and_tags() {
    let whole = RawComic {
        page_href: Some("https://dilbert.com/strip/1".to_string()),
        image_src: Some("https://assets.example.com/1.png".to_string()),
        tag_texts: vec!["#Boss".to_string(), "2020".to_string(), "pointy-haired".to_string()],
    };
    assert_eq!(read_comic(&whole), Some(strip(1, "boss pointy haired")));
    let no_page = RawComic { page_href: None, ..clone_raw(&whole) };
    assert_eq!(read_comic(&no_page), None);
    let bad_page = RawComic { page_href: Some("strip/1".to_string()), ..clone_raw(&whole) };
    assert_eq!(read_comic(&bad_page), None);
    let no_image = RawComic { image_src: None, ..clone_raw(&whole) };
    assert_eq!(read_comic(&no_image), None);
    let no_tags = RawComic { tag_texts: vec!["2020".to_string()], ..clone_raw(&whole) };
    assert_eq!(read_comic(&no_tags), None);
}

fn clone_raw(comic: &RawComic) -> RawComic {
    RawComic {
        page_href: comic.page_href.clone(),
        image_src: comic.image_src.clone(),
        tag_texts: comic.tag_texts.clone(),
    }
}

#[test]
fn read_comics_keeps_page_order() {
    let raw = |n: u32, tag: &str| RawComic {
        page_href: Some(format!("https://dilbert.com/strip/{}", n)),
        image_src: Some(format!("https://assets.example.com/{}.png", n)),
        tag_texts: vec![tag.to_string()],
    };
    let comics = vec![raw(3, "boss"), raw(1, "42"), raw(2, "wally")];
    assert_eq!(read_comics(&comics), vec![strip(3, "boss"), strip(2, "wally")]);
    assert_eq!(read_comics(&Vec::new()), Vec::<FullSearchResult>::new());
}

#[test]
fn assemble_needs_both_addresses_and_a_tag() {
    let page = || Some("https://dilbert.com/strip/1".to_string());
    let image = || Some("https://assets.example.com/1.png".to_string());
    assert_eq!(dilbert::catalog::assemble(page(), image(), tags("boss")), Some(strip(1, "boss")));
    assert_eq!(dilbert::catalog::assemble(None, image(), tags("boss")), None);
    assert_eq!(dilbert::catalog::assemble(page(), None, tags("boss")), None);
    assert_eq!(dilbert::catalog::assemble(page(), image(), Vec::new()), None);
}

#[test]
fn keyword_request_uri_joins_keywords_with_plus() {
    assert_eq!(
        dilbert::catalog::keyword_request_uri("  Pointy-haired   boss "),
        Some("https://dilbert.com/search_results?terms=Pointy-haired+boss".to_string())
    );
    assert_eq!(
        dilbert::catalog::keyword_request_uri("boss"),
        Some("https://dilbert.com/search_results?terms=boss".to_string())
    );
    assert_eq!(dilbert::catalog::keyword_request_uri(" \t\n"), None);
    assert_eq!(dilbert::catalog::keyword_request_uri(""), None);
}

#[test]
fn scrape_reads_the_attribute_of_the_first_match_only() {
    let body = page(&[comic(
        "<a class=\"img-comic-link\">x</a>\
         <a class=\"img-comic-link\" href=\"https://dilbert.com/strip/9\">y</a>",
        "<img class=\"img-comic\" src=\"https://assets.example.com/1.png\">",
        "<a>boss</a><a>wally</a>",
    )]);
    let expected = vec![RawComic {
        page_href: None,
        image_src: Some("https://assets.example.com/1.png".to_string()),
        tag_texts: vec!["boss".to_string(), "wally".to_string()],
    }];
    assert_eq!(scrape_comics(&body), Ok(expected));
    assert_eq!(process_search_image_response(&body), Ok(Vec::new()));
}

#[test]
fn check_status_passes_successes_only() {
    assert_eq!(dilbert::catalog::check_status(200), Ok(()));
    assert_eq!(dilbert::catalog::check_status(204), Ok(()));
    assert_eq!(dilbert::catalog::check_status(299), Ok(()));
    assert_eq!(dilbert::catalog::check_status(199), Err(FetchError::Status(199)));
    assert_eq!(dilbert::catalog::check_status(300), Err(FetchError::Status(300)));
    assert_eq!(dilbert::catalog::check_status(404), Err(FetchError::Status(404)));
    assert_eq!(dilbert::catalog::check_status(503), Err(FetchError::Status(503)));
    assert_eq!(dilbert::catalog::check_status(0), Err(FetchError::Status(0)));
}

#[test]
fn request_uri_joins_terms_with_plus() {
    assert_eq!(
        dilbert::catalog::request_uri(&["a", "b", "c"]),
        "https://dilbert.com/search_results?terms=a+b+c"
    );
    assert_eq!(dilbert::catalog::request_uri(&[]), "https://dilbert.com/search_results?terms=");
}
