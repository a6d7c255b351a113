//! Classification of what came back for one requested page.

use crate::links::{extract_links, page_links};
use crate::text::{starts_with, texts};
use crate::web::opt_text;
use vstd::prelude::*;

verus! {

/// Why a page yielded no links.
#[derive(Debug, Clone, Copy, PartialEq, Eq, Structural)]
pub enum FailureReason {
    /// The server answered with a status outside 200..=299.
    HttpStatus(u16),
    /// The content type is missing or does not begin with `text/html`.
    NotHtml,
    /// No response arrived: connection failure or timeout.
    TransportError,
    /// The response arrived but its body could not be read.
    BodyReadError,
}

/// The result of fetching one page.
#[derive(Debug, Clone)]
pub enum FetchOutcome {
    /// The page was read as HTML; these are the absolute URLs it links to.
    Success(Vec<String>),
    /// The page could not be used.
    Failure(FailureReason),
}

/// What the transport layer hands over for one request.
#[derive(Debug, Clone)]
pub enum Reply {
    /// The request produced no response at all.
    NoResponse,
    /// A response arrived.  `body` is `None` where reading it failed.
    Response { status: u16, content_type: Option<String>, body: Option<String> },
}

/// Whether `status` is in the success range.
pub open spec fn status_ok(status: u16) -> bool {
    200 <= status <= 299
}

/// Whether a content type announces an HTML document.
pub open spec fn announces_html(content_type: Option<Seq<char>>) -> bool {
    match content_type {
        Some(value) => "text/html"@.is_prefix_of(value),
        None => false,
    }
}

/// The failure that status line and headers alone determine, if any.  The
/// status is judged before the content type.
pub open spec fn head_failure(status: u16, content_type: Option<Seq<char>>) -> Option<
    FailureReason,
> {
    if !status_ok(status) {
        Some(FailureReason::HttpStatus(status))
    } else if !announces_html(content_type) {
        Some(FailureReason::NotHtml)
    } else {
        None
    }
}

/// The failure with which `reply` ends the fetch, if any.
pub open spec fn reply_failure(reply: Reply) -> Option<FailureReason> {
    match reply {
        Reply::NoResponse => Some(FailureReason::TransportError),
        Reply::Response { status, content_type, body } => match head_failure(
            status,
            opt_text(content_type),
        ) {
            Some(reason) => Some(reason),
            None => if body is None {
                Some(FailureReason::BodyReadError)
            } else {
                None
            },
        },
    }
}

/// Judges status and content type of a response before its body is read.
/// `None` means the body is wanted.
pub fn check_head(status: u16, content_type: &Option<String>) -> (r: Option<FailureReason>)
    ensures
        r == head_failure(status, opt_text(*content_type)),
{
    if status < 200 || status > 299 {
        return Some(FailureReason::HttpStatus(status));
    }
    match content_type {
        Some(value) => {
            if starts_with(value.as_str(), "text/html") {
                None
            } else {
                Some(FailureReason::NotHtml)
            }
        },
        None => Some(FailureReason::NotHtml),
    }
}

/// Turns the reply to a request for `url` into the outcome of the fetch: the
/// failure that the reply carries, or else the links of the page.
pub fn outcome_of(url: &str, reply: Reply) -> (r: FetchOutcome)
    ensures
        match reply_failure(reply) {
            Some(reason) => r == FetchOutcome::Failure(reason),
            None => r matches FetchOutcome::Success(links) && reply matches Reply::Response {
                body: Some(html),
                ..
            } && texts(links@) == page_links(html@, url@),
        },
{
    match reply {
        Reply::NoResponse => FetchOutcome::Failure(FailureReason::TransportError),
        Reply::Response { status, content_type, body } => {
            match check_head(status, &content_type) {
                Some(reason) => FetchOutcome::Failure(reason),
                None => match body {
                    Some(html) => FetchOutcome::Success(extract_links(html.as_str(), url)),
                    None => FetchOutcome::Failure(FailureReason::BodyReadError),
                },
            }
        },
    }
}

} // verus!
