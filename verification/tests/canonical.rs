use sitecrawl::canon::{canonicalize, retain_pairs, CrawlError};

fn params(names: &[&str]) -> Vec<String> {
    names.iter().map(|n| n.to_string()).collect()
}

fn canon(url: &str, names: &[&str]) -> String {
    canonicalize(url, &params(names)).unwrap()
}

#[test]
fn strips_listed_parameter_and_keeps_the_rest() {
    let p = ["sid"];
    assert_eq!(canon("http://a.com/x?sid=1&y=2", &p), "http://a.com/x?y=2");
    assert_eq!(canon("http://a.com/x?y=2", &p), "http://a.com/x?y=2");
    assert_eq!(
        canon("http://a.com/x?sid=1&y=2", &p),
        canon("http://a.com/x?y=2", &p)
    );
}

#[test]
fn canonical_form_is_a_fixed_point() {
    let p = ["sid", "phpsessid"];
    for url in [
        "http://a.com/x?sid=1&y=2",
        "https://example.com",
        "https://example.com/a/b?phpsessid=7#top",
        "https://example.com/s?q=a%20b&sid=3",
        "https://example.com/?",
    ] {
        let once = canon(url, &p);
        let twice = canon(&once, &p);
        assert_eq!(once, twice);
    }
}

#[test]
fn fragment_does_not_matter() {
    let p = ["sid"];
    for url in ["http://a.com/x?sid=1&y=2", "https://example.com/", "https://example.com/a?b=c"] {
        let with_fragment = format!("{}#frag", url);
        assert_eq!(canon(&with_fragment, &p), canon(url, &p));
    }
    assert_eq!(canon("https://example.com/a#section", &[]), "https://example.com/a");
}

#[test]
fn empty_query_is_omitted() {
    assert_eq!(canon("http://a.com/a?sid=1", &["sid"]), "http://a.com/a");
    assert_eq!(canon("http://a.com/a?sid=1", &["sid"]), canon("http://a.com/a", &["sid"]));
    assert_eq!(canon("http://a.com/a?", &[]), "http://a.com/a");
    assert_eq!(canon("http://a.com/a?sid=1&sid=2", &["sid"]), "http://a.com/a");
}

#[test]
fn remaining_parameters_keep_their_order() {
    assert_eq!(
        canon("http://a.com/x?z=1&sid=5&a=2&m=3", &["sid"]),
        "http://a.com/x?z=1&a=2&m=3"
    );
}

#[test]
fn parameter_match_is_exact_and_case_sensitive() {
    assert_eq!(canon("http://a.com/x?SID=1&sidx=2&sid=3", &["sid"]), "http://a.com/x?SID=1&sidx=2");
}

#[test]
fn empty_parameter_list_keeps_every_pair() {
    assert_eq!(canon("http://a.com/x?sid=1&y=2", &[]), "http://a.com/x?sid=1&y=2");
}

#[test]
fn kept_pairs_are_written_form_encoded() {
    assert_eq!(canon("http://a.com/x?q=a%20b&sid=1", &["sid"]), "http://a.com/x?q=a+b");
}

#[test]
fn input_is_normalised_by_the_parser() {
    assert_eq!(canon("HTTPS://Example.COM", &[]), "https://example.com/");
}

#[test]
fn invalid_url_is_rejected() {
    assert_eq!(canonicalize("not a url", &params(&["sid"])), Err(CrawlError::InvalidUrl));
    assert_eq!(canonicalize("/relative/path", &params(&[])), Err(CrawlError::InvalidUrl));
    assert_eq!(canonicalize("", &params(&[])), Err(CrawlError::InvalidUrl));
}

#[test]
fn same_input_gives_same_output() {
    let p = params(&["sid"]);
    let a = canonicalize("http://a.com/x?sid=1&y=2#f", &p);
    let b = canonicalize("http://a.com/x?sid=1&y=2#f", &p);
    assert_eq!(a, b);
}

#[test]
fn retain_pairs_filters_by_key() {
    let pairs = vec![
        ("a".to_string(), "1".to_string()),
        ("sid".to_string(), "2".to_string()),
        ("b".to_string(), "sid".to_string()),
        ("sid".to_string(), "".to_string()),
    ];
    let kept = retain_pairs(pairs, &params(&["sid"]));
    assert_eq!(
        kept,
        vec![("a".to_string(), "1".to_string()), ("b".to_string(), "sid".to_string())]
    );
    let again = retain_pairs(kept.clone(), &params(&["sid"]));
    assert_eq!(again, kept);
    assert_eq!(retain_pairs(Vec::new(), &params(&["sid"])), Vec::new());
}

#[test]
fn error_messages() {
    assert_eq!(CrawlError::InvalidUrl.message(), "invalid URL");
    assert_eq!(CrawlError::NoDomain.message(), "seed URL has no domain");
}
