use sitecrawl::canon::CrawlError;
use sitecrawl::engine::{Engine, DEFAULT_CONCURRENCY};
use sitecrawl::fetch::{outcome_of, FailureReason, FetchOutcome, Reply};
use std::collections::{HashMap, HashSet};

/// A site served from memory: canonical URL to reply.
struct Site {
    pages: HashMap<String, Reply>,
}

impl Site {
    fn new() -> Site {
        Site { pages: HashMap::new() }
    }

    fn page(mut self, url: &str, hrefs: &[&str]) -> Site {
        let body: String = hrefs.iter().map(|h| format!("<a href=\"{}\">x</a>", h)).collect();
        self.pages.insert(
            url.to_string(),
            Reply::Response {
                status: 200,
                content_type: Some("text/html; charset=utf-8".to_string()),
                body: Some(format!("<html><body>{}</body></html>", body)),
            },
        );
        self
    }

    fn reply(mut self, url: &str, reply: Reply) -> Site {
        self.pages.insert(url.to_string(), reply);
        self
    }

    fn fetch(&self, url: &str) -> FetchOutcome {
        let reply = match self.pages.get(url) {
            Some(r) => r.clone(),
            None => Reply::Response { status: 404, content_type: None, body: None },
        };
        outcome_of(url, reply)
    }
}

struct Run {
    fetched: Vec<String>,
    largest_batch: usize,
    engine: Engine,
}

fn params(names: &[&str]) -> Vec<String> {
    names.iter().map(|n| n.to_string()).collect()
}

fn crawl(site: &Site, seed: &str, names: &[&str], limit: usize) -> Run {
    let mut engine = Engine::new(seed, params(names), limit).unwrap();
    let mut fetched = Vec::new();
    let mut largest_batch = 0;
    let mut rounds = 0;
    loop {
        let batch = engine.next_batch();
        if batch.is_empty() {
            break;
        }
        rounds += 1;
        assert!(rounds < 10_000);
        assert!(batch.len() <= limit);
        assert_eq!(engine.in_flight(), &batch);
        largest_batch = largest_batch.max(batch.len());
        for url in batch.iter().rev() {
            fetched.push(url.clone());
            assert!(engine.complete(url, site.fetch(url)));
        }
        let visited: HashSet<&String> = engine.visited().iter().collect();
        assert_eq!(visited.len(), engine.visited().len());
        assert!(engine.in_flight().is_empty());
    }
    assert!(engine.is_done());
    Run { fetched, largest_batch, engine }
}

fn set(urls: &[&str]) -> HashSet<String> {
    urls.iter().map(|u| u.to_string()).collect()
}

fn visited(run: &Run) -> HashSet<String> {
    run.engine.visited().iter().cloned().collect()
}

fn example_site() -> Site {
    Site::new()
        .page("https://example.com/", &["/a", "/b?sid=9"])
        .page("https://example.com/a", &["/"])
        .page("https://example.com/b", &[])
}

/// Twelve pages in a ring with chords, links given in several spellings.
fn ring_site() -> Site {
    let mut site = Site::new();
    for i in 0..12 {
        let next = (i + 1) % 12;
        let across = (i + 5) % 12;
        let hrefs = [
            format!("/p{}", next),
            format!("https://ring.test/p{}?sid={}#frag", across, i),
            format!("p{}", i),
            format!("/p{}?sid=1", next),
        ];
        let refs: Vec<&str> = hrefs.iter().map(|h| h.as_str()).collect();
        site = site.page(&format!("https://ring.test/p{}", i), &refs);
    }
    site
}

#[test]
fn three_page_site_with_session_parameter() {
    let run = crawl(&example_site(), "https://example.com/", &["sid"], 20);
    assert_eq!(
        visited(&run),
        set(&["https://example.com/", "https://example.com/a", "https://example.com/b"])
    );
    assert_eq!(run.engine.visited().len(), 3);
    assert_eq!(run.fetched.len(), 3);
    assert!(run.engine.failures().is_empty());
    assert_eq!(&run.engine.succeeded(), run.engine.visited());
}

#[test]
fn each_page_is_fetched_once_at_any_limit() {
    for limit in [1usize, 5, 20, 1000] {
        let run = crawl(&ring_site(), "https://ring.test/p0", &["sid"], limit);
        assert_eq!(run.fetched.len(), 12, "limit {}", limit);
        let distinct: HashSet<&String> = run.fetched.iter().collect();
        assert_eq!(distinct.len(), 12);
        assert_eq!(visited(&run).len(), 12);
        assert!(run.largest_batch <= limit);
    }
}

#[test]
fn round_size_is_bounded_by_the_limit() {
    let mut hrefs = Vec::new();
    for i in 0..9 {
        hrefs.push(format!("/leaf{}", i));
    }
    let refs: Vec<&str> = hrefs.iter().map(|h| h.as_str()).collect();
    let mut site = Site::new().page("https://fan.test/", &refs);
    for i in 0..9 {
        site = site.page(&format!("https://fan.test/leaf{}", i), &[]);
    }
    let mut engine = Engine::new("https://fan.test/", Vec::new(), 4).unwrap();
    let first = engine.next_batch();
    assert_eq!(first, vec!["https://fan.test/"]);
    assert!(engine.complete(&first[0], site.fetch(&first[0])));
    assert_eq!(engine.frontier_len(), 9);
    let second = engine.next_batch();
    assert_eq!(
        second,
        vec![
            "https://fan.test/leaf0",
            "https://fan.test/leaf1",
            "https://fan.test/leaf2",
            "https://fan.test/leaf3"
        ]
    );
    assert_eq!(engine.frontier_len(), 5);
    assert_eq!(engine.in_flight().len(), 4);
    assert!(!engine.is_done());
}

#[test]
fn other_domains_are_never_fetched() {
    let site = Site::new()
        .page(
            "https://example.com/",
            &["https://other.org/", "/in", "https://sub.example.com/", "http://93.184.216.34/"],
        )
        .page("https://example.com/in", &["https://other.org/deep", "mailto:a@example.com"])
        .page("https://other.org/", &["https://example.com/hidden"])
        .page("https://sub.example.com/", &[]);
    let run = crawl(&site, "https://example.com/", &[], 20);
    assert_eq!(visited(&run), set(&["https://example.com/", "https://example.com/in"]));
    assert_eq!(run.fetched.len(), 2);
    for url in &run.fetched {
        assert!(url.starts_with("https://example.com/"));
    }
}

#[test]
fn crawl_of_a_cyclic_site_ends_with_the_reachable_pages() {
    let site = Site::new()
        .page("https://loop.test/", &["/a", "/"])
        .page("https://loop.test/a", &["/b", "/a", "/"])
        .page("https://loop.test/b", &["/a", "/c#x"])
        .page("https://loop.test/c", &["/", "/b"])
        .page("https://loop.test/island", &["/"]);
    for limit in [1usize, 2, 20] {
        let run = crawl(&site, "https://loop.test/", &[], limit);
        assert_eq!(
            visited(&run),
            set(&[
                "https://loop.test/",
                "https://loop.test/a",
                "https://loop.test/b",
                "https://loop.test/c"
            ])
        );
        assert_eq!(run.engine.frontier_len(), 0);
    }
}

#[test]
fn failed_page_is_visited_but_not_expanded() {
    let site = Site::new()
        .page("https://example.com/", &["/broken", "/fine"])
        .reply(
            "https://example.com/broken",
            Reply::Response {
                status: 500,
                content_type: Some("text/html".to_string()),
                body: Some("<a href=\"/secret\">s</a>".to_string()),
            },
        )
        .page("https://example.com/fine", &["/leaf", "/broken"])
        .page("https://example.com/leaf", &[])
        .page("https://example.com/secret", &[]);
    let run = crawl(&site, "https://example.com/", &[], 1);
    assert_eq!(
        visited(&run),
        set(&[
            "https://example.com/",
            "https://example.com/broken",
            "https://example.com/fine",
            "https://example.com/leaf"
        ])
    );
    assert_eq!(run.fetched.iter().filter(|u| u.as_str() == "https://example.com/broken").count(), 1);
    assert!(!run.fetched.contains(&"https://example.com/secret".to_string()));
    let failures = run.engine.failures();
    assert_eq!(failures.len(), 1);
    assert_eq!(failures[0].url, "https://example.com/broken");
    assert_eq!(failures[0].reason, FailureReason::HttpStatus(500));
    assert!(run.engine.has_failed(&"https://example.com/broken".to_string()));
    assert!(!run.engine.has_failed(&"https://example.com/fine".to_string()));
    let pages: HashSet<String> = run.engine.succeeded().into_iter().collect();
    assert_eq!(
        pages,
        set(&["https://example.com/", "https://example.com/fine", "https://example.com/leaf"])
    );
}

#[test]
fn every_kind_of_failure_is_recorded() {
    let site = Site::new()
        .page("https://example.com/", &["/gone", "/pdf", "/cut", "/down"])
        .reply(
            "https://example.com/pdf",
            Reply::Response {
                status: 200,
                content_type: Some("application/pdf".to_string()),
                body: Some(String::new()),
            },
        )
        .reply(
            "https://example.com/cut",
            Reply::Response { status: 200, content_type: Some("text/html".to_string()), body: None },
        )
        .reply("https://example.com/down", Reply::NoResponse);
    let run = crawl(&site, "https://example.com/", &[], 20);
    assert_eq!(run.engine.visited().len(), 5);
    let mut reasons: Vec<(String, FailureReason)> =
        run.engine.failures().iter().map(|f| (f.url.clone(), f.reason)).collect();
    reasons.sort_by(|a, b| a.0.cmp(&b.0));
    assert_eq!(
        reasons,
        vec![
            ("https://example.com/cut".to_string(), FailureReason::BodyReadError),
            ("https://example.com/down".to_string(), FailureReason::TransportError),
            ("https://example.com/gone".to_string(), FailureReason::HttpStatus(404)),
            ("https://example.com/pdf".to_string(), FailureReason::NotHtml),
        ]
    );
}

#[test]
fn seed_is_normalised_and_sets_the_domain() {
    let mut engine = Engine::new("HTTPS://Example.com", params(&["sid"]), 20).unwrap();
    assert_eq!(engine.base_domain(), "example.com");
    assert_eq!(engine.limit(), 20);
    assert_eq!(engine.frontier_len(), 1);
    assert!(engine.visited().is_empty());
    assert!(engine.in_flight().is_empty());
    assert!(!engine.is_done());
    assert_eq!(engine.next_batch(), vec!["https://example.com/"]);
}

#[test]
fn seed_must_be_a_url_with_a_domain() {
    assert!(matches!(Engine::new("no url here", Vec::new(), 20), Err(CrawlError::InvalidUrl)));
    assert!(matches!(Engine::new("", Vec::new(), 20), Err(CrawlError::InvalidUrl)));
    assert!(matches!(Engine::new("https://127.0.0.1/", Vec::new(), 20), Err(CrawlError::NoDomain)));
    assert!(matches!(
        Engine::new("mailto:rms@example.net", Vec::new(), 20),
        Err(CrawlError::NoDomain)
    ));
}

#[test]
fn completion_of_an_unknown_url_changes_nothing() {
    let mut engine = Engine::new("https://example.com/", Vec::new(), 20).unwrap();
    let stray = "https://example.com/stray".to_string();
    assert!(!engine.complete(&stray, FetchOutcome::Success(vec!["https://example.com/x".to_string()])));
    assert_eq!(engine.frontier_len(), 1);
    assert!(engine.visited().is_empty());
    let batch = engine.next_batch();
    assert!(engine.complete(&batch[0], FetchOutcome::Success(Vec::new())));
    assert!(!engine.complete(&batch[0], FetchOutcome::Success(Vec::new())));
    assert_eq!(engine.visited(), &batch);
    assert!(engine.is_done());
}

#[test]
fn known_links_do_not_rejoin_the_frontier() {
    let mut engine = Engine::new("https://example.com/", Vec::new(), 20).unwrap();
    let batch = engine.next_batch();
    let links = vec![
        "https://example.com/".to_string(),
        "https://example.com/a".to_string(),
        "https://elsewhere.net/".to_string(),
        "https://example.com/a".to_string(),
    ];
    assert!(engine.complete(&batch[0], FetchOutcome::Success(links)));
    assert_eq!(engine.frontier_len(), 2);
    assert_eq!(engine.next_batch(), vec!["https://example.com/a"]);
    assert_eq!(engine.frontier_len(), 0);
}

#[test]
fn zero_limit_dispatches_nothing() {
    let mut engine = Engine::new("https://example.com/", Vec::new(), 0).unwrap();
    assert!(engine.next_batch().is_empty());
    assert_eq!(engine.frontier_len(), 1);
}

#[test]
fn default_concurrency_is_twenty() {
    assert_eq!(DEFAULT_CONCURRENCY, 20);
    let engine = Engine::new("https://example.com/", Vec::new(), DEFAULT_CONCURRENCY).unwrap();
    assert_eq!(engine.limit(), 20);
}
