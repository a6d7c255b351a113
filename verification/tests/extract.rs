use sitecrawl::fetch::{check_head, outcome_of, FailureReason, FetchOutcome, Reply};
use sitecrawl::links::{extract_links, resolve_all, resolve_link};
use sitecrawl::text::{contains_text, position_of, starts_with};

fn html_reply(status: u16, content_type: Option<&str>, body: Option<&str>) -> Reply {
    Reply::Response {
        status,
        content_type: content_type.map(|s| s.to_string()),
        body: body.map(|s| s.to_string()),
    }
}

fn failure(outcome: FetchOutcome) -> FailureReason {
    match outcome {
        FetchOutcome::Failure(reason) => reason,
        FetchOutcome::Success(links) => panic!("expected a failure, got {:?}", links),
    }
}

#[test]
fn links_follow_document_order_and_keep_repeats() {
    let html = r#"<html><body>
        <a href="/b">b</a>
        <a href="a.html">a</a>
        <a href="/b">b again</a>
        <a href="https://other.org/x?y=1">other</a>
    </body></html>"#;
    assert_eq!(
        extract_links(html, "https://example.com/dir/page"),
        vec![
            "https://example.com/b",
            "https://example.com/dir/a.html",
            "https://example.com/b",
            "https://other.org/x?y=1",
        ]
    );
}

#[test]
fn fragments_are_stripped_from_links() {
    let html = "<a href=\"/a#top\">a</a><a href=\"#here\">self</a>";
    assert_eq!(
        extract_links(html, "https://example.com/p?q=1"),
        vec!["https://example.com/a", "https://example.com/p?q=1"]
    );
}

#[test]
fn anchors_without_href_and_unresolvable_values_are_skipped() {
    let html = "<a name=\"x\">no link</a><a href=\"http://[bad\">bad</a><a href=\"/ok\">ok</a>";
    assert_eq!(extract_links(html, "https://example.com/"), vec!["https://example.com/ok"]);
}

#[test]
fn malformed_markup_degrades_gracefully() {
    let html = "<div><a href='/one'>one<p><a href=\"/two\"<b>two</div></span><a href=/three>";
    let links = extract_links(html, "https://example.com/");
    assert!(links.contains(&"https://example.com/one".to_string()));
    assert!(links.contains(&"https://example.com/three".to_string()));
    assert_eq!(extract_links("", "https://example.com/"), Vec::<String>::new());
    assert_eq!(extract_links("<<<>>>", "https://example.com/"), Vec::<String>::new());
}

#[test]
fn invalid_base_yields_no_links() {
    assert_eq!(extract_links("<a href=\"/a\">a</a>", "not a url"), Vec::<String>::new());
}

#[test]
fn resolve_link_joins_and_strips() {
    assert_eq!(
        resolve_link("https://example.com/a/b", "../c#frag"),
        Some("https://example.com/c".to_string())
    );
    assert_eq!(
        resolve_link("https://example.com/a", "//eve.com/b"),
        Some("https://eve.com/b".to_string())
    );
    assert_eq!(resolve_link("nonsense", "/x"), None);
    assert_eq!(resolve_link("https://example.com/", "http://[::1"), None);
}

#[test]
fn resolve_all_skips_absent_values() {
    let hrefs = vec![Some("/a".to_string()), None, Some("b".to_string())];
    assert_eq!(
        resolve_all(&hrefs, "https://example.com/x/"),
        vec!["https://example.com/a", "https://example.com/x/b"]
    );
}

#[test]
fn head_is_judged_by_status_then_content_type() {
    let html = Some("text/html; charset=utf-8".to_string());
    assert_eq!(check_head(200, &html), None);
    assert_eq!(check_head(299, &html), None);
    assert_eq!(check_head(199, &html), Some(FailureReason::HttpStatus(199)));
    assert_eq!(check_head(300, &html), Some(FailureReason::HttpStatus(300)));
    assert_eq!(check_head(500, &None), Some(FailureReason::HttpStatus(500)));
    assert_eq!(check_head(200, &None), Some(FailureReason::NotHtml));
    assert_eq!(check_head(200, &Some("application/json".to_string())), Some(FailureReason::NotHtml));
    assert_eq!(check_head(200, &Some("text/htm".to_string())), Some(FailureReason::NotHtml));
    assert_eq!(
        check_head(200, &Some("application/xhtml; text/html".to_string())),
        Some(FailureReason::NotHtml)
    );
    assert_eq!(check_head(200, &Some("text/html".to_string())), None);
}

#[test]
fn every_failure_reason_has_its_reply() {
    let url = "https://example.com/";
    assert_eq!(failure(outcome_of(url, Reply::NoResponse)), FailureReason::TransportError);
    assert_eq!(
        failure(outcome_of(url, html_reply(404, Some("text/html"), Some("<a href=\"/a\">")))),
        FailureReason::HttpStatus(404)
    );
    assert_eq!(
        failure(outcome_of(url, html_reply(200, Some("image/png"), Some("<a href=\"/a\">")))),
        FailureReason::NotHtml
    );
    assert_eq!(failure(outcome_of(url, html_reply(200, None, None))), FailureReason::NotHtml);
    assert_eq!(
        failure(outcome_of(url, html_reply(200, Some("text/html"), None))),
        FailureReason::BodyReadError
    );
}

#[test]
fn successful_reply_yields_the_page_links() {
    let reply = html_reply(200, Some("text/html"), Some("<a href=\"a\">a</a><a href=\"/b#x\">b</a>"));
    match outcome_of("https://example.com/dir/", reply) {
        FetchOutcome::Success(links) => {
            assert_eq!(links, vec!["https://example.com/dir/a", "https://example.com/b"]);
        }
        FetchOutcome::Failure(reason) => panic!("unexpected failure {:?}", reason),
    }
}

#[test]
fn prefix_test_on_strings() {
    assert!(starts_with("text/html; charset=utf-8", "text/html"));
    assert!(starts_with("abc", ""));
    assert!(starts_with("abc", "abc"));
    assert!(!starts_with("ab", "abc"));
    assert!(!starts_with("xabc", "abc"));
    assert!(starts_with("héllo", "hé"));
    assert!(!starts_with("héllo", "he"));
}

#[test]
fn search_in_string_lists() {
    let v = vec!["a".to_string(), "b".to_string(), "a".to_string()];
    assert_eq!(position_of(&v, &"a".to_string()), Some(0));
    assert_eq!(position_of(&v, &"b".to_string()), Some(1));
    assert_eq!(position_of(&v, &"c".to_string()), None);
    assert!(contains_text(&v, &"b".to_string()));
    assert!(!contains_text(&v, &"".to_string()));
    assert!(!contains_text(&Vec::new(), &"a".to_string()));
}
