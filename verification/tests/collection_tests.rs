//! The frontier, the scheduler's admission and completion decisions, and
//! the resumable journal.

use open_finder::CONCURRENT_REQUESTS;
use open_finder::collection::Admission;
use open_finder::collection::Page;
use open_finder::collection::UrlCollection;
use open_finder::collection::skip_url;
use open_finder::content::Content;
use open_finder::link::Url;

fn url(s: &str) -> Url {
    Url::parse(s).unwrap()
}

fn page_with_body(u: &str, status: u16, body: &str) -> Page {
    let link = url(u);
    let content = Content::new(body.as_bytes().to_vec(), link.get_file_name());
    Page::from_fetch(link, status, Some(content))
}

#[test]
fn added_urls_become_known() {
    let mut c = UrlCollection::new();
    assert_eq!(c.get_links_count(), 0);
    c.add_url_to_fetch(url("https://a.insa-rouen.fr/x"));
    assert_eq!(c.get_links_count(), 1);
    c.add_url_to_fetch(url("https://a.insa-rouen.fr/y"));
    assert_eq!(c.get_links_count(), 2);
}

#[test]
fn duplicate_urls_are_admitted_once() {
    let mut c = UrlCollection::new();
    c.add_url_to_fetch(url("https://a.insa-rouen.fr/x"));
    c.add_url_to_fetch(url("https://a.insa-rouen.fr/x"));
    c.add_url_to_fetch_with_referer(
        url("https://a.insa-rouen.fr"),
        url("https://a.insa-rouen.fr/x"),
        200,
    );
    assert_eq!(c.get_links_count(), 1);
    match c.next_admission() {
        Admission::Dispatched(u) => assert_eq!(u.to_string(), "https://a.insa-rouen.fr/x"),
        other => panic!("expected a dispatch, got {:?}", other),
    }
    match c.next_admission() {
        Admission::Exhausted => {}
        other => panic!("expected exhaustion, got {:?}", other),
    }
}

#[test]
fn in_flight_never_exceeds_the_cap() {
    let mut c = UrlCollection::new();
    for i in 0..25 {
        c.add_url_to_fetch(url(&format!("https://a.insa-rouen.fr/p{}", i)));
    }
    let mut dispatched = 0;
    loop {
        match c.next_admission() {
            Admission::Dispatched(_) => dispatched += 1,
            Admission::AtCapacity => break,
            other => panic!("unexpected admission {:?}", other),
        }
    }
    assert_eq!(dispatched, CONCURRENT_REQUESTS);
    assert_eq!(c.in_flight_count(), CONCURRENT_REQUESTS);
    c.record_failure();
    assert_eq!(c.in_flight_count(), CONCURRENT_REQUESTS - 1);
    match c.next_admission() {
        Admission::Dispatched(_) => {}
        other => panic!("expected a dispatch, got {:?}", other),
    }
}

#[test]
fn seed_and_one_hop() {
    let mut c = UrlCollection::new();
    c.add_url_to_fetch(url("https://a.insa-rouen.fr/"));
    let seed = match c.next_admission() {
        Admission::Dispatched(u) => u,
        other => panic!("expected a dispatch, got {:?}", other),
    };
    assert_eq!(seed.to_string(), "https://a.insa-rouen.fr");
    let page = page_with_body(
        "https://a.insa-rouen.fr",
        200,
        r#"<a href="/b">next</a>"#,
    );
    c.record_completion(page);
    let hop = match c.next_admission() {
        Admission::Dispatched(u) => u,
        other => panic!("expected a dispatch, got {:?}", other),
    };
    assert_eq!(hop.to_string(), "https://a.insa-rouen.fr/b");
    c.record_completion(Page::from_fetch(hop, 200, None));
    assert!(matches!(c.next_admission(), Admission::Exhausted));
    let (fetcheds, to_fetch) = c.save_graph();
    assert_eq!(
        fetcheds,
        "200;https://a.insa-rouen.fr\n200;https://a.insa-rouen.fr/b\n"
    );
    assert_eq!(to_fetch, "\n");
}

#[test]
fn discovered_duplicates_dispatch_once() {
    let mut c = UrlCollection::new();
    c.add_url_to_fetch(url("https://a.insa-rouen.fr/"));
    let seed = match c.next_admission() {
        Admission::Dispatched(u) => u,
        other => panic!("expected a dispatch, got {:?}", other),
    };
    let body = r#"<a href="/x">one</a><a href="/x">two</a><a href="https://a.insa-rouen.fr/x">three</a>"#;
    let page = Page::from_fetch(
        seed,
        200,
        Some(Content::new(body.as_bytes().to_vec(), String::new())),
    );
    c.record_completion(page);
    let mut x_dispatches = 0;
    loop {
        match c.next_admission() {
            Admission::Dispatched(u) => {
                assert_eq!(u.to_string(), "https://a.insa-rouen.fr/x");
                x_dispatches += 1;
                c.record_completion(Page::from_fetch(u, 200, None));
            }
            Admission::Exhausted => break,
            other => panic!("unexpected admission {:?}", other),
        }
    }
    assert_eq!(x_dispatches, 1);
}

#[test]
fn skip_filter_records_status_zero() {
    let mut c = UrlCollection::new();
    c.add_url_to_fetch(url("https://a.insa-rouen.fr/"));
    let seed = match c.next_admission() {
        Admission::Dispatched(u) => u,
        other => panic!("expected a dispatch, got {:?}", other),
    };
    let body = r#"<a href="/img.png">pic</a><a href="mailto:foo@bar">mail</a>"#;
    let page = Page::from_fetch(
        seed,
        200,
        Some(Content::new(body.as_bytes().to_vec(), String::new())),
    );
    c.record_completion(page);
    let mut skipped = Vec::new();
    loop {
        match c.next_admission() {
            Admission::Skipped(u) => skipped.push(u.to_string()),
            Admission::Exhausted => break,
            other => panic!("unexpected admission {:?}", other),
        }
    }
    assert_eq!(skipped.len(), 2);
    assert!(skipped.contains(&"https://a.insa-rouen.fr/img.png".to_string()));
    let (fetcheds, _) = c.save_graph();
    assert_eq!(fetcheds.matches("\n0;").count() + usize::from(fetcheds.starts_with("0;")), 2);
    assert!(fetcheds.contains("0;https://a.insa-rouen.fr/img.png"));
}

#[test]
fn skip_filter_rules() {
    assert!(skip_url(&url("https://a.insa-rouen.fr/logo.png")));
    assert!(skip_url(&url("https://outside.example/page")));
    assert!(skip_url(&url(
        "https://catalogue.insa-rouen.fr/cgi-bin/koha/opac-search.pl?q=x"
    )));
    assert!(skip_url(&url("https://a.insa-rouen.fr/account/logout")));
    assert!(skip_url(&url("https://a.insa-rouen.frmailto:foo")));
    assert!(!skip_url(&url("https://a.insa-rouen.fr/page.html")));
    // A media extension under a non-web scheme is not skipped for its
    // extension alone.
    assert!(!skip_url(&url("ftp://a.insa-rouen.fr/file.zip")));
}

#[test]
fn flush_threshold_is_three_hundred() {
    let mut c = UrlCollection::new();
    for i in 0..301 {
        c.add_url_to_fetch(url(&format!("https://a.insa-rouen.fr/n{}.png", i)));
    }
    let mut seen = 0;
    loop {
        if c.needs_flush() {
            break;
        }
        match c.next_admission() {
            Admission::Skipped(_) => seen += 1,
            Admission::Exhausted => panic!("queue drained before the threshold"),
            other => panic!("unexpected admission {:?}", other),
        }
    }
    assert_eq!(seen, 301);
}

#[test]
fn resume_dispatches_pending_but_not_seen() {
    let mut c = UrlCollection::new();
    c.load_graph(
        "url\nhttps://a.insa-rouen.fr/pending\n",
        "status;label\n200;https://a.insa-rouen.fr/seen\n",
    );
    // The journaled fetch stays fetched.
    c.add_url_to_fetch(url("https://a.insa-rouen.fr/seen"));
    let dispatched = match c.next_admission() {
        Admission::Dispatched(u) => u,
        other => panic!("expected a dispatch, got {:?}", other),
    };
    assert_eq!(dispatched.to_string(), "https://a.insa-rouen.fr/pending");
    c.record_completion(Page::from_fetch(dispatched, 200, None));
    assert!(matches!(c.next_admission(), Admission::Exhausted));
}

#[test]
fn resume_after_completion_restarts_empty() {
    let mut c = UrlCollection::new();
    c.add_url_to_fetch(url("https://a.insa-rouen.fr/"));
    let seed = match c.next_admission() {
        Admission::Dispatched(u) => u,
        other => panic!("expected a dispatch, got {:?}", other),
    };
    c.record_completion(Page::from_fetch(seed, 200, None));
    assert!(matches!(c.next_admission(), Admission::Exhausted));
    let (fetched_rows, to_fetch_rows) = c.save_graph();

    let fetcheds_file = format!("status;label\n{}", fetched_rows);
    let to_fetch_file = format!("url\n{}", to_fetch_rows);
    let mut fresh = UrlCollection::new();
    fresh.load_graph(&to_fetch_file, &fetcheds_file);
    // Nothing is pending, and the fetched URL is not dispatched again.
    assert!(matches!(fresh.next_admission(), Admission::Exhausted));
    fresh.add_url_to_fetch(url("https://a.insa-rouen.fr/"));
    assert!(matches!(fresh.next_admission(), Admission::Exhausted));
}

#[test]
fn journal_rows_reload_identically() {
    let mut c = UrlCollection::new();
    c.add_url_to_fetch(url("https://a.insa-rouen.fr/one"));
    c.add_url_to_fetch(url("https://a.insa-rouen.fr/two%3Bx"));
    let (_, to_fetch_rows) = c.save_graph();
    assert_eq!(
        to_fetch_rows,
        "https://a.insa-rouen.fr/one\nhttps://a.insa-rouen.fr/two%3Bx\n"
    );
    let mut replayed = UrlCollection::new();
    replayed.load_graph(&format!("url\n{}", to_fetch_rows), "");
    let mut urls = Vec::new();
    loop {
        match replayed.next_admission() {
            Admission::Dispatched(u) => {
                urls.push(u.to_string());
                replayed.record_completion(Page::from_fetch(u, 200, None));
            }
            Admission::Exhausted => break,
            other => panic!("unexpected admission {:?}", other),
        }
    }
    assert_eq!(
        urls,
        vec![
            "https://a.insa-rouen.fr/one".to_string(),
            "https://a.insa-rouen.fr/two%3Bx".to_string()
        ]
    );
}

#[test]
fn pages_carry_status_and_links() {
    let page = page_with_body(
        "https://a.insa-rouen.fr/start",
        301,
        r#"<a href="https://a.insa-rouen.fr/start">self</a><a href="/other">other</a>"#,
    );
    assert_eq!(page.get_status(), 301);
    assert_eq!(page.get_url().to_string(), "https://a.insa-rouen.fr/start");
    let links: Vec<String> = page.get_links().iter().map(|u| u.to_string()).collect();
    // The self-loop is removed.
    assert_eq!(links, vec!["https://a.insa-rouen.fr/other".to_string()]);
    assert!(page.get_content().is_some());
}
