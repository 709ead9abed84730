//! The two outside libraries that a catalogue page is read with: `scraper`
//! for the document and its elements, `url` for the addresses found in it.
//!
//! Documents, selectors and elements are carried through as they are; nothing
//! in this crate looks inside one.

use vstd::prelude::*;

verus! {

/// A parsed HTML document.
#[verifier::external_type_specification]
#[verifier::external_body]
pub struct ExHtml(scraper::Html);

/// A parsed group of CSS selectors.
#[verifier::external_type_specification]
#[verifier::external_body]
pub struct ExSelector(scraper::Selector);

/// A reference to one element of a document.
#[verifier::external_type_specification]
#[verifier::external_body]
pub struct ExElementRef<'a>(scraper::ElementRef<'a>);

/// Why a selector could not be parsed.
#[verifier::external_type_specification]
#[verifier::external_body]
pub struct ExSelectorErrorKind(scraper::error::SelectorErrorKind);

/// Why a text is not an absolute URL.
#[verifier::external_type_specification]
#[verifier::external_body]
pub struct ExParseError(url::ParseError);

/// Whether `scraper::Selector::parse` accepts `css`.
pub uninterp spec fn selector_parses(css: Seq<char>) -> bool;

/// What `url::Url::parse` makes of `text`: the serialisation of the URL that
/// it reads, or `None` where it reads none.
pub uninterp spec fn url_serialization(text: Seq<char>) -> Option<Seq<char>>;

/// The document that `scraper::Html::parse_document` builds from `text`.
pub uninterp spec fn parsed_document(text: Seq<char>) -> scraper::Html;

/// The selector that `scraper::Selector::parse` builds from `css`, where it
/// builds one.
pub uninterp spec fn parsed_selector(css: Seq<char>) -> scraper::Selector;

/// The elements of `html` that match `selector`, in the order in which the
/// document's nodes were made: what `scraper::Html::select` walks through.
pub uninterp spec fn selected_in_document(
    html: &scraper::Html,
    selector: scraper::Selector,
) -> Seq<scraper::ElementRef>;

/// The attributes of `element` that stand in no namespace: for each of their
/// names, the value. It is what `scraper::ElementRef::attr` looks up in.
pub uninterp spec fn element_attributes(element: scraper::ElementRef) -> Map<Seq<char>, Seq<char>>;

/// The text that `scraper::ElementRef::inner_html` serialises of what
/// `element` contains.
pub uninterp spec fn element_inner_html(element: scraper::ElementRef) -> Seq<char>;

/// The descendants of `element` that match `selector`, in document order:
/// what `scraper::ElementRef::select` walks through.
pub uninterp spec fn selected_in(
    element: scraper::ElementRef,
    selector: scraper::Selector,
) -> Seq<scraper::ElementRef>;

/// Taken on trust of `scraper::Html::parse_document`: it builds a document
/// from any text, and which document depends on the text alone. What the
/// document holds is not claimed.
pub assume_specification[ scraper::Html::parse_document ](document: &str) -> (html: scraper::Html)
    ensures
        html == parsed_document(document@),
;

/// Taken on trust of `scraper::Selector::parse`: it either builds a selector
/// or reports why it cannot; which of the two, and which selector, depends
/// on the text alone.
pub assume_specification[ scraper::Selector::parse ](selectors: &str) -> (parsed: Result<
    scraper::Selector,
    scraper::error::SelectorErrorKind,
>)
    ensures
        parsed is Ok <==> selector_parses(selectors@),
        parsed matches Ok(selector) ==> selector == parsed_selector(selectors@),
;

/// Taken on trust of `scraper::ElementRef::attr`: it looks the name up among
/// the element's attributes that stand in no namespace, and hands back the
/// value found there, or nothing where the element has no such attribute.
/// What attributes an element has is not claimed.
pub assume_specification<'a>[ scraper::ElementRef::<'a>::attr ](
    element: &scraper::ElementRef<'a>,
    attr: &str,
) -> (value: Option<&'a str>)
    ensures
        match value {
            Some(text) => element_attributes(*element).contains_key(attr@) && element_attributes(
                *element,
            )[attr@] == text@,
            None => !element_attributes(*element).contains_key(attr@),
        },
;

/// Taken on trust of `scraper::ElementRef::inner_html`: the text that it
/// serialises depends on the element alone. What the text is is not
/// claimed.
pub assume_specification<'a>[ scraper::ElementRef::<'a>::inner_html ](
    element: &scraper::ElementRef<'a>,
) -> (inner: String)
    ensures
        inner@ == element_inner_html(*element),
;

/// Calls `scraper::Html::select` and walks the iterator to its end: the
/// elements of the document that match, in the order in which the
/// document's nodes were made. Taken on trust: which they are depends on
/// the document and the selector alone. Which elements match is not
/// claimed.
#[verifier::external_body]
pub(crate) fn select_in_document<'a>(
    html: &'a scraper::Html,
    selector: &scraper::Selector,
) -> (found: Vec<scraper::ElementRef<'a>>)
    ensures
        found@ == selected_in_document(html, *selector),
{
    html.select(selector).collect()
}

/// Calls `scraper::ElementRef::select` and walks the iterator to its end:
/// the descendants of the element that match, in document order. Taken on
/// trust: which they are depends on the element and the selector alone.
/// Which elements match is not claimed.
#[verifier::external_body]
pub(crate) fn select_in_element<'a>(
    element: &scraper::ElementRef<'a>,
    selector: &scraper::Selector,
) -> (found: Vec<scraper::ElementRef<'a>>)
    ensures
        found@ == selected_in(*element, *selector),
{
    element.select(selector).collect()
}

/// Calls `url::Url::parse` and hands the URL back as its serialisation.
/// Taken on trust: whether a text parses, and to what, depends on the text
/// alone; `url_serialization` names the answer.
#[verifier::external_body]
pub(crate) fn parse_url(text: &str) -> (parsed: Result<String, url::ParseError>)
    ensures
        match parsed {
            Ok(address) => url_serialization(text@) == Some(address@),
            Err(_) => url_serialization(text@) is None,
        },
{
    url::Url::parse(text).map(String::from)
}

} // verus!
