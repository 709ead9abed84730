//! The remote catalogue: how it is asked, and how its answer is read.

use crate::error::FetchError;
use crate::html::{
    element_attributes, element_inner_html, parse_url, parsed_document, parsed_selector,
    select_in_document, select_in_element, selected_in, selected_in_document, selector_parses,
    url_serialization,
};
use crate::search::{full_views, FullSearchResult, FullSearchResultView, SearchResult, SearchResultView};
use crate::tags::{
    get_keywords, is_token, lemma_tokens_are_tokens, tag_texts, texts_of, tokens_of, words, ParseTags,
    Tag, WordKind,
};
use vstd::prelude::*;
use vstd::string::StringExecFns;

verus! {

/// The address that a search is sent to, up to the terms.
pub const SEARCH_URL: &'static str = "https://dilbert.com/search_results?terms=";

/// `parts` written one after the other with `separator` between them.
pub open spec fn joined(parts: Seq<Seq<char>>, separator: char) -> Seq<char>
    decreases parts.len(),
{
    if parts.len() == 0 {
        Seq::empty()
    } else if parts.len() == 1 {
        parts[0]
    } else {
        joined(parts.drop_last(), separator).push(separator) + parts.last()
    }
}

/// The address that asks the catalogue for `tags`: the search address
/// followed by the tags with `+` between them.
pub open spec fn request_uri_of(tags: Seq<Seq<char>>) -> Seq<char> {
    SEARCH_URL@ + joined(tags, '+')
}

/// Builds the address that asks the catalogue for `terms`.
pub fn request_uri(terms: &[&str]) -> (uri: String)
    ensures
        uri@ == request_uri_of(texts_of(terms@)),
{
    let mut uri: String = String::from_str(SEARCH_URL);
    let mut i: usize = 0;
    while i < terms.len()
        invariant
            i <= terms.len(),
            uri@ == SEARCH_URL@ + joined(texts_of(terms@).take(i as int), '+'),
        decreases terms.len() - i,
    {
        proof {
            reveal_strlit("+");
            let now = texts_of(terms@).take(i + 1);
            assert(now.drop_last() == texts_of(terms@).take(i as int));
            assert(now.last() == terms[i as int]@);
            assert("+"@ == seq!['+']);
        }
        if i > 0 {
            uri.append("+");
        }
        uri.append(terms[i]);
        i = i + 1;
    }
    proof {
        assert(texts_of(terms@).take(i as int) == texts_of(terms@));
    }
    uri
}

/// Builds the address that asks the catalogue for `tags`.
pub fn search_request_uri(tags: &[Tag]) -> (uri: String)
    ensures
        uri@ == request_uri_of(tag_texts(tags@)),
{
    let mut terms: Vec<&str> = Vec::new();
    let mut i: usize = 0;
    while i < tags.len()
        invariant
            i <= tags.len(),
            terms.len() == i,
            forall|k: int| 0 <= k < i ==> (#[trigger] terms@[k])@ == tags@[k]@,
        decreases tags.len() - i,
    {
        terms.push(tags[i].as_str());
        i = i + 1;
    }
    proof {
        assert(texts_of(terms@) =~= tag_texts(tags@));
    }
    request_uri(terms.as_slice())
}

/// Builds the address that asks the catalogue for the keywords of `raw`, or
/// nothing where `raw` holds no keyword: then there is nothing to ask, and
/// the answer is empty.
pub fn keyword_request_uri(raw: &str) -> (uri: Option<String>)
    ensures
        match uri {
            Some(uri) => words(raw@, WordKind::Spaced).len() > 0 && uri@ == request_uri_of(
                words(raw@, WordKind::Spaced),
            ),
            None => words(raw@, WordKind::Spaced).len() == 0,
        },
{
    let keywords: Vec<&str> = get_keywords(raw);
    if keywords.len() == 0 {
        None
    } else {
        Some(request_uri(keywords.as_slice()))
    }
}

/// Whether the catalogue's answer may be read: a status that is a success,
/// one from 200 to 299, lets it pass, and every other status fails the
/// lookup.
pub fn check_status(status: u16) -> (checked: Result<(), FetchError>)
    ensures
        checked is Ok <==> 200 <= status <= 299,
        checked matches Err(error) ==> error == FetchError::Status(status),
{
    if 200 <= status && status <= 299 {
        Ok(())
    } else {
        Err(FetchError::Status(status))
    }
}

/// What is read off one comic of a catalogue page before any of it is
/// checked: the address that its link points to, the address of its image,
/// and the texts of its tag links.
#[derive(Debug, PartialEq, Eq)]
pub struct RawComic {
    pub page_href: Option<String>,
    pub image_src: Option<String>,
    pub tag_texts: Vec<String>,
}

/// A raw comic as contracts see it.
pub struct RawComicView {
    pub page_href: Option<Seq<char>>,
    pub image_src: Option<Seq<char>>,
    pub tag_texts: Seq<Seq<char>>,
}

/// The text of an attribute that may be missing.
pub open spec fn attribute_text(attribute: Option<String>) -> Option<Seq<char>> {
    match attribute {
        Some(text) => Some(text@),
        None => None,
    }
}

/// The texts of a list of strings.
pub open spec fn string_texts(strings: Seq<String>) -> Seq<Seq<char>> {
    Seq::new(strings.len(), |i: int| strings[i]@)
}

impl View for RawComic {
    type V = RawComicView;

    open spec fn view(&self) -> RawComicView {
        RawComicView {
            page_href: attribute_text(self.page_href),
            image_src: attribute_text(self.image_src),
            tag_texts: string_texts(self.tag_texts@),
        }
    }
}

/// The views of a list of raw comics.
pub open spec fn raw_views(comics: Seq<RawComic>) -> Seq<RawComicView> {
    Seq::new(comics.len(), |i: int| comics[i]@)
}

/// The URL that an attribute holds: none where the attribute is missing or
/// its value is no absolute URL.
pub open spec fn address_of(attribute: Option<Seq<char>>) -> Option<Seq<char>> {
    match attribute {
        Some(text) => url_serialization(text),
        None => None,
    }
}

/// The tokens of all of `texts`, in order. A text without a token adds
/// nothing.
pub open spec fn all_tokens(texts: Seq<Seq<char>>) -> Seq<Seq<char>>
    decreases texts.len(),
{
    if texts.len() == 0 {
        Seq::empty()
    } else {
        all_tokens(texts.drop_last()) + tokens_of(texts.last())
    }
}

/// The search result that a raw comic stands for. It has one only if its
/// page address and its image address are both URLs and it has at least one
/// tag.
pub open spec fn comic_result(comic: RawComicView) -> Option<FullSearchResultView> {
    let page = address_of(comic.page_href);
    let image = address_of(comic.image_src);
    let tags = all_tokens(comic.tag_texts);
    if page is Some && image is Some && tags.len() > 0 {
        Some(
            FullSearchResultView {
                search_result: SearchResultView { image: image->0, page: page->0 },
                tags,
            },
        )
    } else {
        None
    }
}

/// The search results that raw comics stand for, in the comics' order;
/// the comics that stand for none are left out.
pub open spec fn comic_results(comics: Seq<RawComicView>) -> Seq<FullSearchResultView>
    decreases comics.len(),
{
    if comics.len() == 0 {
        Seq::empty()
    } else {
        let before = comic_results(comics.drop_last());
        match comic_result(comics.last()) {
            Some(result) => before.push(result),
            None => before,
        }
    }
}

/// Reads the URL that an attribute holds, if it holds one.
fn read_address(attribute: &Option<String>) -> (address: Option<String>)
    ensures
        match address {
            Some(text) => address_of(attribute_text(*attribute)) == Some(text@),
            None => address_of(attribute_text(*attribute)) is None,
        },
{
    match attribute {
        Some(text) => match parse_url(text.as_str()) {
            Ok(address) => Some(address),
            Err(_) => None,
        },
        None => None,
    }
}

/// Cuts the texts of a comic's tag links into tags. A text without a token
/// adds nothing.
fn read_tags(texts: &Vec<String>) -> (tags: Vec<Tag>)
    ensures
        tag_texts(tags@) == all_tokens(string_texts(texts@)),
{
    let mut tags: Vec<Tag> = Vec::new();
    let mut i: usize = 0;
    while i < texts.len()
        invariant
            i <= texts.len(),
            tag_texts(tags@) == all_tokens(string_texts(texts@).take(i as int)),
        decreases texts.len() - i,
    {
        proof {
            let now = string_texts(texts@).take(i + 1);
            assert(now.drop_last() == string_texts(texts@).take(i as int));
            assert(now.last() == texts[i as int]@);
        }
        let text: &str = texts[i].as_str();
        match text.parse_tags() {
            Ok(mut found) => {
                proof {
                    assert(tag_texts(tags@ + found@) == tag_texts(tags@) + tag_texts(found@));
                }
                tags.append(&mut found);
            },
            Err(_) => {
                proof {
                    assert(tokens_of(text@) == Seq::<Seq<char>>::empty());
                    assert(tag_texts(tags@) + Seq::<Seq<char>>::empty() == tag_texts(tags@));
                }
            },
        }
        i = i + 1;
    }
    proof {
        assert(string_texts(texts@).take(i as int) == string_texts(texts@));
    }
    tags
}

/// Turns one raw comic into the search result that it stands for, if it
/// stands for one.
pub fn read_comic(comic: &RawComic) -> (result: Option<FullSearchResult>)
    ensures
        match result {
            Some(full) => comic_result(comic@) == Some(full@),
            None => comic_result(comic@) is None,
        },
{
    let page: Option<String> = read_address(&comic.page_href);
    let image: Option<String> = read_address(&comic.image_src);
    let tags: Vec<Tag> = read_tags(&comic.tag_texts);
    assemble(page, image, tags)
}

/// The search result of a comic whose addresses and tags were read: there is
/// one only if the page address and the image address were both found and
/// the comic has at least one tag.
pub fn assemble(page: Option<String>, image: Option<String>, tags: Vec<Tag>) -> (result: Option<
    FullSearchResult,
>)
    ensures
        result is Some <==> page is Some && image is Some && tags.len() > 0,
        result matches Some(full) ==> full.search_result.page == page->0
            && full.search_result.image == image->0 && full.tags == tags,
{
    match (page, image) {
        (Some(page), Some(image)) => {
            if tags.is_empty() {
                None
            } else {
                Some(FullSearchResult { search_result: SearchResult { image, page }, tags })
            }
        },
        _ => None,
    }
}

/// Turns raw comics into search results, in the comics' order; the
/// comics that stand for none are dropped.
pub fn read_comics(comics: &Vec<RawComic>) -> (results: Vec<FullSearchResult>)
    ensures
        full_views(results@) == comic_results(raw_views(comics@)),
{
    let mut results: Vec<FullSearchResult> = Vec::new();
    let mut i: usize = 0;
    while i < comics.len()
        invariant
            i <= comics.len(),
            full_views(results@) == comic_results(raw_views(comics@).take(i as int)),
        decreases comics.len() - i,
    {
        proof {
            let now = raw_views(comics@).take(i + 1);
            assert(now.drop_last() == raw_views(comics@).take(i as int));
            assert(now.last() == comics[i as int]@);
        }
        match read_comic(&comics[i]) {
            Some(full) => {
                proof {
                    assert(full_views(results@.push(full)) == full_views(results@).push(full@));
                }
                results.push(full);
            },
            None => {},
        }
        i = i + 1;
    }
    proof {
        assert(raw_views(comics@).take(i as int) == raw_views(comics@));
    }
    results
}

/// Selects the comics of a catalogue page.
pub const COMIC_CSS: &'static str = ".img-comic-container";

/// Selects, inside a comic, the link to the comic's own page.
pub const COMIC_LINK_CSS: &'static str = ".img-comic-link";

/// Selects, inside a comic, the comic's image.
pub const COMIC_IMAGE_CSS: &'static str = ".img-comic";

/// Selects, inside a comic, the links to its tags.
pub const COMIC_TAGS_CSS: &'static str = ".comic-tags > a";

/// Whether the four selectors that a page is read with can be built.
pub open spec fn selectors_parse() -> bool {
    &&& selector_parses(COMIC_CSS@)
    &&& selector_parses(COMIC_LINK_CSS@)
    &&& selector_parses(COMIC_IMAGE_CSS@)
    &&& selector_parses(COMIC_TAGS_CSS@)
}

/// The selectors that a catalogue page is read with.
pub struct ComicSelectors {
    /// Selects the comics of a page.
    pub comic: scraper::Selector,
    /// Selects, inside a comic, the link to the comic's own page.
    pub link: scraper::Selector,
    /// Selects, inside a comic, the comic's image.
    pub image: scraper::Selector,
    /// Selects, inside a comic, the links to its tags.
    pub tags: scraper::Selector,
}

/// The selectors that every page is read with: each built from its own
/// text.
pub open spec fn standard_selectors() -> ComicSelectors {
    ComicSelectors {
        comic: parsed_selector(COMIC_CSS@),
        link: parsed_selector(COMIC_LINK_CSS@),
        image: parsed_selector(COMIC_IMAGE_CSS@),
        tags: parsed_selector(COMIC_TAGS_CSS@),
    }
}

/// Builds one selector.
fn build_selector(css: &str) -> (built: Result<scraper::Selector, FetchError>)
    ensures
        built is Ok <==> selector_parses(css@),
        built matches Ok(selector) ==> selector == parsed_selector(css@),
        built matches Err(error) ==> error == FetchError::Selector,
{
    match scraper::Selector::parse(css) {
        Ok(selector) => Ok(selector),
        Err(_) => Err(FetchError::Selector),
    }
}

impl ComicSelectors {
    /// Builds the four selectors, or reports that one of them cannot be
    /// built.
    pub fn build() -> (built: Result<ComicSelectors, FetchError>)
        ensures
            built is Ok <==> selectors_parse(),
            built matches Ok(selectors) ==> selectors == standard_selectors(),
            built matches Err(error) ==> error == FetchError::Selector,
    {
        let comic = build_selector(COMIC_CSS)?;
        let link = build_selector(COMIC_LINK_CSS)?;
        let image = build_selector(COMIC_IMAGE_CSS)?;
        let tags = build_selector(COMIC_TAGS_CSS)?;
        Ok(ComicSelectors { comic, link, image, tags })
    }
}

/// The value that the first descendant matching `selector` has for the
/// attribute `name`, if there is such a descendant and it has the attribute.
fn first_attribute(
    element: &scraper::ElementRef,
    selector: &scraper::Selector,
    name: &str,
) -> (value: Option<String>)
    ensures
        attribute_text(value) == first_attribute_of(*element, *selector, name@),
{
    let found: Vec<scraper::ElementRef> = select_in_element(element, selector);
    if found.len() == 0 {
        None
    } else {
        match found[0].attr(name) {
            Some(text) => Some(String::from_str(text)),
            None => None,
        }
    }
}

/// Reads one comic off the page: where its link points, where its image
/// lies, and what its tag links say.
fn scrape_comic(element: &scraper::ElementRef, selectors: &ComicSelectors) -> (comic: RawComic)
    ensures
        comic@ == raw_comic_of(*element, *selectors),
{
    let page_href: Option<String> = first_attribute(element, &selectors.link, "href");
    let image_src: Option<String> = first_attribute(element, &selectors.image, "src");
    let links: Vec<scraper::ElementRef> = select_in_element(element, &selectors.tags);
    let mut tag_texts: Vec<String> = Vec::new();
    let mut i: usize = 0;
    while i < links.len()
        invariant
            i <= links.len(),
            tag_texts.len() == i,
            forall|k: int| 0 <= k < i ==> (#[trigger] tag_texts@[k])@ == element_inner_html(links@[k]),
        decreases links.len() - i,
    {
        tag_texts.push(links[i].inner_html());
        i = i + 1;
    }
    proof {
        assert(string_texts(tag_texts@) =~= inner_texts(links@));
    }
    RawComic { page_href, image_src, tag_texts }
}

/// The value that `element` has for the attribute `name`, if it has that
/// attribute.
pub open spec fn attribute_of(element: scraper::ElementRef, name: Seq<char>) -> Option<Seq<char>> {
    if element_attributes(element).contains_key(name) {
        Some(element_attributes(element)[name])
    } else {
        None
    }
}

/// The value that the first descendant of `element` matching `selector` has
/// for the attribute `name`: none where nothing matches, and none where the
/// first match has no such attribute, whatever later matches have.
pub open spec fn first_attribute_of(
    element: scraper::ElementRef,
    selector: scraper::Selector,
    name: Seq<char>,
) -> Option<Seq<char>> {
    let found = selected_in(element, selector);
    if found.len() == 0 {
        None
    } else {
        attribute_of(found[0], name)
    }
}

/// What each of `elements` contains, as text, in order.
pub open spec fn inner_texts(elements: Seq<scraper::ElementRef>) -> Seq<Seq<char>> {
    Seq::new(elements.len(), |k: int| element_inner_html(elements[k]))
}

/// What is read off the comic `element`: the `href` of the first link in it,
/// the `src` of the first image in it, and what each of its tag links
/// contains, in document order.
pub open spec fn raw_comic_of(
    element: scraper::ElementRef,
    selectors: ComicSelectors,
) -> RawComicView {
    RawComicView {
        page_href: first_attribute_of(element, selectors.link, "href"@),
        image_src: first_attribute_of(element, selectors.image, "src"@),
        tag_texts: inner_texts(selected_in(element, selectors.tags)),
    }
}

/// What is read off the page `body`: one raw comic for each element that
/// the comic selector finds in the document made from `body`, in the order in
/// which the document hands them out.
pub open spec fn page_comics(body: Seq<char>) -> Seq<RawComicView> {
    let elements = selected_in_document(&parsed_document(body), standard_selectors().comic);
    Seq::new(elements.len(), |k: int| raw_comic_of(elements[k], standard_selectors()))
}

/// Reads the comics off a catalogue page, in the order in which the
/// document hands them out. It fails only if a selector cannot be built.
pub fn scrape_comics(body: &str) -> (scraped: Result<Vec<RawComic>, FetchError>)
    ensures
        scraped is Ok <==> selectors_parse(),
        scraped matches Ok(comics) ==> raw_views(comics@) == page_comics(body@),
        scraped matches Err(error) ==> error == FetchError::Selector,
{
    let selectors: ComicSelectors = ComicSelectors::build()?;
    let document: scraper::Html = scraper::Html::parse_document(body);
    let elements: Vec<scraper::ElementRef> = select_in_document(&document, &selectors.comic);
    let mut comics: Vec<RawComic> = Vec::new();
    let mut i: usize = 0;
    while i < elements.len()
        invariant
            i <= elements.len(),
            comics.len() == i,
            forall|k: int| 0 <= k < i ==> (#[trigger] comics@[k])@ == raw_comic_of(elements@[k], selectors),
        decreases elements.len() - i,
    {
        comics.push(scrape_comic(&elements[i], &selectors));
        i = i + 1;
    }
    proof {
        assert(raw_views(comics@) =~= page_comics(body@));
    }
    Ok(comics)
}

/// Reads the search results off the body of the catalogue's answer: one for
/// each comic on the page whose first link has an address and whose first
/// image has an address which are URLs, and whose tag links hold at least
/// one tag. The results stand in the order of their comics; the other comics
/// are dropped without a word, and a page without such a comic gives an
/// empty list. It fails only if a selector cannot be built.
pub fn process_search_image_response(body: &str) -> (processed: Result<
    Vec<FullSearchResult>,
    FetchError,
>)
    ensures
        processed is Ok <==> selectors_parse(),
        processed matches Ok(results) ==> full_views(results@) == comic_results(
            page_comics(body@),
        ),
        processed matches Err(error) ==> error == FetchError::Selector,
{
    match scrape_comics(body) {
        Ok(comics) => {
            let results: Vec<FullSearchResult> = read_comics(&comics);
            Ok(results)
        },
        Err(error) => Err(error),
    }
}

/// Whether `address` is the serialisation of a URL.
pub open spec fn is_address(address: Seq<char>) -> bool {
    exists|text: Seq<char>| url_serialization(text) == Some(address)
}

/// All the tokens of a list of texts are tokens.
pub proof fn lemma_all_tokens_are_tokens(texts: Seq<Seq<char>>)
    ensures
        forall|k: int| 0 <= k < all_tokens(texts).len() ==> is_token(#[trigger] all_tokens(texts)[k]),
    decreases texts.len(),
{
    if texts.len() > 0 {
        lemma_all_tokens_are_tokens(texts.drop_last());
        lemma_tokens_are_tokens(texts.last());
        let before = all_tokens(texts.drop_last());
        assert forall|k: int| 0 <= k < all_tokens(texts).len() implies is_token(
            #[trigger] all_tokens(texts)[k],
        ) by {
            if k < before.len() {
                assert(all_tokens(texts)[k] == before[k]);
            } else {
                assert(all_tokens(texts)[k] == tokens_of(texts.last())[k - before.len()]);
            }
        }
    }
}

/// Whatever the page held, every search result read off it has a page
/// address and an image address that are URLs, and at least one tag, and
/// its tags are tokens.
pub proof fn lemma_results_are_whole(comics: Seq<RawComicView>)
    ensures
        forall|k: int|
            0 <= k < comic_results(comics).len() ==> {
                let result = #[trigger] comic_results(comics)[k];
                &&& is_address(result.search_result.page)
                &&& is_address(result.search_result.image)
                &&& result.tags.len() > 0
                &&& forall|t: int| 0 <= t < result.tags.len() ==> is_token(#[trigger] result.tags[t])
            },
        comic_results(comics).len() <= comics.len(),
    decreases comics.len(),
{
    if comics.len() > 0 {
        lemma_results_are_whole(comics.drop_last());
        let before = comic_results(comics.drop_last());
        let last = comics.last();
        lemma_all_tokens_are_tokens(last.tag_texts);
        assert forall|k: int| 0 <= k < comic_results(comics).len() implies {
            let result = #[trigger] comic_results(comics)[k];
            &&& is_address(result.search_result.page)
            &&& is_address(result.search_result.image)
            &&& result.tags.len() > 0
            &&& forall|t: int| 0 <= t < result.tags.len() ==> is_token(#[trigger] result.tags[t])
        } by {
            if k < before.len() {
                assert(comic_results(comics)[k] == before[k]);
            } else {
                assert(comic_results(comics)[k] == comic_result(last)->0);
                assert(url_serialization(last.page_href->0) == Some(
                    comic_results(comics)[k].search_result.page,
                ));
                assert(url_serialization(last.image_src->0) == Some(
                    comic_results(comics)[k].search_result.image,
                ));
            }
        }
    }
}

/// The places, in rising order, of the comics that stand for a search
/// result.
pub open spec fn qualifying(comics: Seq<RawComicView>) -> Seq<int>
    decreases comics.len(),
{
    if comics.len() == 0 {
        Seq::empty()
    } else if comic_result(comics.last()) is Some {
        qualifying(comics.drop_last()).push(comics.len() - 1)
    } else {
        qualifying(comics.drop_last())
    }
}

/// The search results are those of the comics that stand for one, one for
/// each and in the comics' order: nothing is added, dropped, doubled or moved.
pub proof fn lemma_results_follow_comics(comics: Seq<RawComicView>)
    ensures
        comic_results(comics).len() == qualifying(comics).len(),
        forall|k: int|
            0 <= k < qualifying(comics).len() ==> {
                let place = #[trigger] qualifying(comics)[k];
                &&& 0 <= place < comics.len()
                &&& comic_result(comics[place]) == Some(comic_results(comics)[k])
            },
        forall|a: int, b: int|
            0 <= a < b < qualifying(comics).len() ==> qualifying(comics)[a] < qualifying(comics)[b],
        forall|place: int|
            0 <= place < comics.len() && comic_result(#[trigger] comics[place]) is Some
                ==> qualifying(comics).contains(place),
    decreases comics.len(),
{
    if comics.len() > 0 {
        let head = comics.drop_last();
        lemma_results_follow_comics(head);
        let places = qualifying(comics);
        let before = qualifying(head);
        assert forall|k: int| 0 <= k < places.len() implies {
            let place = #[trigger] places[k];
            &&& 0 <= place < comics.len()
            &&& comic_result(comics[place]) == Some(comic_results(comics)[k])
        } by {
            if k < before.len() {
                assert(places[k] == before[k]);
                assert(head[before[k]] == comics[before[k]]);
                assert(comic_results(comics)[k] == comic_results(head)[k]);
            }
        }
        assert forall|a: int, b: int| 0 <= a < b < places.len() implies places[a] < places[b] by {
            assert(places[a] == before[a]);
            if b < before.len() {
                assert(places[b] == before[b]);
            }
        }
        assert forall|place: int|
            0 <= place < comics.len() && comic_result(#[trigger] comics[place]) is Some
                implies places.contains(place) by {
            if place < comics.len() - 1 {
                assert(head[place] == comics[place]);
                let k = choose|k: int| 0 <= k < before.len() && before[k] == place;
                assert(places[k] == place);
            } else {
                assert(places[places.len() - 1] == place);
            }
        }
    }
}

/// A page on which no comic stands for a search result gives no result.
pub proof fn lemma_no_comic_no_result(comics: Seq<RawComicView>)
    requires
        forall|place: int| 0 <= place < comics.len() ==> comic_result(#[trigger] comics[place]) is None,
    ensures
        comic_results(comics).len() == 0,
    decreases comics.len(),
{
    if comics.len() > 0 {
        let head = comics.drop_last();
        assert forall|place: int| 0 <= place < head.len() implies comic_result(
            #[trigger] head[place],
        ) is None by {
            assert(head[place] == comics[place]);
        }
        lemma_no_comic_no_result(head);
        assert(comic_result(comics[comics.len() - 1]) is None);
    }
}

} // verus!
