//! The boundary to the `url` and `scraper` crates.
//!
//! URLs travel through this library as strings.  Every function here takes
//! strings, hands them to the outside parser, and returns strings again.  None
//! of the contracts below is proved: each names the value the outside call
//! produces, so that the rest of the library can be exact about what it does
//! with that value.

use vstd::prelude::*;

verus! {

/// The reason the `url` crate gives for rejecting its input.
#[verifier::external_type_specification]
#[verifier::external_body]
pub struct ExParseError(url::ParseError);

/// Serialisation of the URL that `url::Url::parse` reads from `input`; `None`
/// where it rejects the input.
pub uninterp spec fn url_parse(input: Seq<char>) -> Option<Seq<char>>;

/// What `url::Url::domain` reports for the URL parsed from `input`; `None`
/// where the input is rejected or its host is not a domain name.
pub uninterp spec fn url_domain(input: Seq<char>) -> Option<Seq<char>>;

/// Serialisation of the URL parsed from `input` after
/// `url::Url::set_fragment(None)`.
pub uninterp spec fn url_without_fragment(input: Seq<char>) -> Option<Seq<char>>;

/// Serialisation of the URL parsed from `input` after
/// `url::Url::set_query(None)`.
pub uninterp spec fn url_without_query(input: Seq<char>) -> Option<Seq<char>>;

/// The decoded key/value pairs that `url::Url::query_pairs` yields for the URL
/// parsed from `input`, in order.
pub uninterp spec fn url_query_pairs(input: Seq<char>) -> Option<Seq<(Seq<char>, Seq<char>)>>;

/// Serialisation of the URL parsed from `input` after its query was cleared
/// and refilled with `pairs` through `url::Url::query_pairs_mut`.
pub uninterp spec fn url_with_query_pairs(
    input: Seq<char>,
    pairs: Seq<(Seq<char>, Seq<char>)>,
) -> Option<Seq<char>>;

/// Serialisation of `reference` resolved by `url::Url::join` against the URL
/// parsed from `base`.
pub uninterp spec fn url_join(base: Seq<char>, reference: Seq<char>) -> Option<Seq<char>>;

/// For each element of the document `html` that matches the CSS selector
/// `selector`, in document order, the value of its attribute `attr` as
/// `scraper` reports it; `None` where the selector itself is rejected.
pub uninterp spec fn html_select_attr(
    html: Seq<char>,
    selector: Seq<char>,
    attr: Seq<char>,
) -> Option<Seq<Option<Seq<char>>>>;

/// Contents of a successful string result.
pub open spec fn ok_text(r: Result<String, url::ParseError>) -> Option<Seq<char>> {
    match r {
        Ok(s) => Some(s@),
        Err(_) => None,
    }
}

/// Contents of an optional string.
pub open spec fn opt_text(o: Option<String>) -> Option<Seq<char>> {
    match o {
        Some(s) => Some(s@),
        None => None,
    }
}

/// Contents of a list of key/value pairs.
pub open spec fn pair_texts(v: Seq<(String, String)>) -> Seq<(Seq<char>, Seq<char>)> {
    Seq::new(v.len(), |i: int| (v[i].0@, v[i].1@))
}

/// Contents of a list of optional strings.
pub open spec fn opt_texts(v: Seq<Option<String>>) -> Seq<Option<Seq<char>>> {
    Seq::new(v.len(), |i: int| opt_text(v[i]))
}

/// Calls `url::Url::parse` and returns the serialisation of the URL it read.
/// Trusted: the result is what `url_parse` names.
#[verifier::external_body]
pub(crate) fn parse_url(input: &str) -> (r: Result<String, url::ParseError>)
    ensures
        ok_text(r) == url_parse(input@),
{
    url::Url::parse(input).map(String::from)
}

/// Parses `input` and calls `url::Url::domain` on the URL.  Trusted: the call
/// fails exactly where parsing does, and the domain is what `url_domain` names.
#[verifier::external_body]
pub(crate) fn domain_of(input: &str) -> (r: Result<Option<String>, url::ParseError>)
    ensures
        r is Ok <==> url_parse(input@) is Some,
        match r {
            Ok(d) => opt_text(d) == url_domain(input@),
            Err(_) => url_domain(input@) is None,
        },
{
    let parsed = url::Url::parse(input)?;
    Ok(parsed.domain().map(String::from))
}

/// Parses `input` and calls `url::Url::set_fragment(None)` on the URL.
/// Trusted: the call fails exactly where parsing does, and the result is what
/// `url_without_fragment` names.
#[verifier::external_body]
pub(crate) fn without_fragment(input: &str) -> (r: Result<String, url::ParseError>)
    ensures
        r is Ok <==> url_parse(input@) is Some,
        ok_text(r) == url_without_fragment(input@),
{
    let mut parsed = url::Url::parse(input)?;
    parsed.set_fragment(None);
    Ok(String::from(parsed))
}

/// Parses `input` and calls `url::Url::set_query(None)` on the URL.  Trusted:
/// the call fails exactly where parsing does, and the result is what
/// `url_without_query` names.
#[verifier::external_body]
pub(crate) fn without_query(input: &str) -> (r: Result<String, url::ParseError>)
    ensures
        r is Ok <==> url_parse(input@) is Some,
        ok_text(r) == url_without_query(input@),
{
    let mut parsed = url::Url::parse(input)?;
    parsed.set_query(None);
    Ok(String::from(parsed))
}

/// Parses `input` and collects what `url::Url::query_pairs` yields.  Trusted:
/// the call fails exactly where parsing does, and the pairs are what
/// `url_query_pairs` names.
#[verifier::external_body]
pub(crate) fn query_pairs_of(input: &str) -> (r: Result<Vec<(String, String)>, url::ParseError>)
    ensures
        r is Ok <==> url_parse(input@) is Some,
        match r {
            Ok(pairs) => url_query_pairs(input@) == Some(pair_texts(pairs@)),
            Err(_) => url_query_pairs(input@) is None,
        },
{
    let parsed = url::Url::parse(input)?;
    Ok(parsed.query_pairs().map(|(k, v)| (k.into_owned(), v.into_owned())).collect())
}

/// Parses `input`, then clears the URL's query and writes `pairs` into it
/// through `url::Url::query_pairs_mut`.  Trusted: the call fails exactly where
/// parsing does, and the result is what `url_with_query_pairs` names.
#[verifier::external_body]
pub(crate) fn with_query_pairs(input: &str, pairs: &Vec<(String, String)>) -> (r: Result<
    String,
    url::ParseError,
>)
    ensures
        r is Ok <==> url_parse(input@) is Some,
        ok_text(r) == url_with_query_pairs(input@, pair_texts(pairs@)),
{
    let mut parsed = url::Url::parse(input)?;
    parsed.query_pairs_mut().clear().extend_pairs(pairs);
    Ok(String::from(parsed))
}

/// Parses `base` and calls `url::Url::join` with `reference`.  Trusted: the
/// result is what `url_join` names, and there is none unless `base` parses.
#[verifier::external_body]
pub(crate) fn join(base: &str, reference: &str) -> (r: Result<String, url::ParseError>)
    ensures
        r is Ok ==> url_parse(base@) is Some,
        ok_text(r) == url_join(base@, reference@),
{
    url::Url::parse(base)?.join(reference).map(String::from)
}

/// Parses `html` with `scraper::Html::parse_document`, selects with
/// `scraper::Selector::parse(selector)` and reads `attr` from every match.
/// Trusted: the result is what `html_select_attr` names.
#[verifier::external_body]
pub(crate) fn select_attr(html: &str, selector: &str, attr: &str) -> (r: Option<
    Vec<Option<String>>,
>)
    ensures
        match r {
            Some(values) => html_select_attr(html@, selector@, attr@) == Some(opt_texts(values@)),
            None => html_select_attr(html@, selector@, attr@) is None,
        },
{
    let parsed = scraper::Selector::parse(selector).ok()?;
    let document = scraper::Html::parse_document(html);
    Some(document.select(&parsed).map(|e| e.value().attr(attr).map(String::from)).collect())
}

} // verus!
