//! The two-bucket link store.

use open_finder::link::Url;
use open_finder::manager::LinkCollection;

fn url(s: &str) -> Url {
    Url::parse(s).unwrap()
}

#[test]
fn buckets_hold_their_links() {
    let mut store = LinkCollection::new();
    store.add_insa_link(url("https://a.insa-rouen.fr/x"));
    store.add_other_link(url("https://elsewhere.example/y"));
    assert!(store.contains(url("https://a.insa-rouen.fr/x")));
    assert!(store.contains(url("https://elsewhere.example/y")));
    assert!(!store.contains(url("https://a.insa-rouen.fr/z")));
}

#[test]
fn buckets_deduplicate() {
    let mut store = LinkCollection::new();
    store.add_insa_link(url("https://a.insa-rouen.fr/x"));
    store.add_insa_link(url("https://a.insa-rouen.fr/x"));
    store.add_insa_link(url("https://a.insa-rouen.fr/y"));
    let urls: Vec<String> = store
        .get_insa_urls()
        .iter()
        .map(|u| u.to_string())
        .collect();
    assert_eq!(
        urls,
        vec![
            "https://a.insa-rouen.fr/x".to_string(),
            "https://a.insa-rouen.fr/y".to_string()
        ]
    );
}
