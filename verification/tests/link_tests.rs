//! URL parsing, its round-trip laws, and the link extractor.

use open_finder::link::Url;
use open_finder::link::UrlError;
use open_finder::link::get_links;
use open_finder::link::is_url_permissive;
use open_finder::link::HackTraitVecUrlString;
use open_finder::protocols::UriScheme;

#[test]
fn test_url() {
    let url = Url::parse("https://www.google.com").unwrap();

    assert_eq!(url.to_string(), "https://www.google.com");
    assert_eq!(url.get_host(), "www.google.com");

    let url = Url::parse("https://www.youtube.com/watch?v=dQw4w9WgXcQ").unwrap();
    assert_eq!(url.get_host(), "www.youtube.com");

    assert!(Url::parse("www.google.com").is_err());
    assert!(Url::parse("http:/www.google.com").is_err());
    assert!(Url::parse("http://www.rust-lang.org/").is_ok());

    assert!(Url::parse("://www.rust-lang.org/").is_err());

    assert_eq!(
        Url::parse("https://www.google.com").unwrap(),
        Url::parse("https://www.google.com/").unwrap()
    );

    assert_eq!(
        get_links(
            "https://sentry.io}",
            Url::parse("https://sentry.io").unwrap()
        )
        .iter()
        .next()
        .unwrap()
        .to_string(),
        Url::parse("https://sentry.io").unwrap().to_string()
    );
}

#[test]
fn test_get_uri_scheme() {
    assert_eq!(
        Url::parse("https://www.youtube.com/watch?v=dQw4w9WgXcQ")
            .unwrap()
            .get_uri_scheme(),
        UriScheme::Https
    );
    assert_eq!(
        Url::parse("ftp://example.com").unwrap().get_uri_scheme(),
        UriScheme::Ftp
    );
    assert_eq!(
        Url::parse("Sftp://example.com").unwrap().get_uri_scheme(),
        UriScheme::Sftp
    );
}

#[test]
fn test_get_links() {
    let content = r#"<a href="https://www.google.com">Google</a>"#;
    let links = get_links(content, Url::parse("https://www.google.com").unwrap());
    assert_eq!(links.len(), 1);
    assert!(links.contains(&Url::parse("https://www.google.com").unwrap()));

    // Check mutliple links
    let content = r#"<a href="https://www.google.com">Google</a><a href="https://www.youtube.com">Youtube</a>"#;
    let links = get_links(content, Url::parse("https://www.google.com").unwrap());
    assert_eq!(links.len(), 2);
    assert!(links.contains(&Url::parse("https://www.google.com").unwrap()));
    assert!(links.contains(&Url::parse("https://www.youtube.com").unwrap()));

    // No links
    let content = r#"<a href="/">Google</a>"#;
    let links = get_links(content, Url::parse("https://www.google.com").unwrap());
    assert_eq!(links.len(), 1);

    // Multiple protocols http, https, ftp
    let content = r#"<a href="https://www.google.com">Google</a><a href="http://www.youtube.com">Youtube</a><a href="ftp://www.rust-lang.org">Rust</a>"#;
    let links = get_links(content, Url::parse("https://www.google.com").unwrap());
    assert_eq!(links.len(), 3);
    assert!(links.contains(&Url::parse("https://www.google.com").unwrap()));
    assert!(links.contains(&Url::parse("http://www.youtube.com").unwrap()));
    assert!(links.contains(&Url::parse("ftp://www.rust-lang.org").unwrap()));

    // Multiple links with special characters
    let content =
        r#""https://www.google.com", "https://www.youtube.com", "ftp://www.rust-lang.org""#;
    let links = get_links(content, Url::parse("https://www.google.com").unwrap());
    assert_eq!(links.len(), 3);
    assert!(links.contains(&Url::parse("https://www.google.com").unwrap()));
    assert!(links.contains(&Url::parse("https://www.youtube.com").unwrap()));
    assert!(links.contains(&Url::parse("ftp://www.rust-lang.org").unwrap()));

    // Test href with an url as get parameter
    let content = r#"<a href="?link=https://www.youtube.com">Google</a>"#;
    let links = get_links(content, Url::parse("https://www.google.com").unwrap());
    println!("{:?}", links);
    assert_eq!(links.len(), 1);
    assert!(links
        .contains(&Url::parse("https://www.google.com?link=https://www.youtube.com").unwrap()));
}

#[test]
fn test_link_as_absolute_path() {
    let content = r#"<a href="/path/to/file">Google</a>"#;
    let links = get_links(content, Url::parse("https://www.google.com").unwrap());
    assert_eq!(links.len(), 1);
    println!("{:?}", links);
    assert!(links.contains(&Url::parse("https://www.google.com/path/to/file").unwrap()));

    let content = r#"<a href="/path/to/file?a?b">Google</a>"#;
    let links = get_links(content, Url::parse("https://www.google.com").unwrap());
    assert_eq!(links.len(), 1);
    println!("{:?}", links);
    assert!(links.contains(&Url::parse("https://www.google.com/path/to/file?a").unwrap()));
}

#[test]
fn parse_round_trip_is_idempotent() {
    let corpus = [
        "https://www.google.com",
        "https://www.google.com/",
        "https://a.insa-rouen.fr/x;y",
        "https://a.insa-rouen.fr/path/#frag",
        "ftp://www.rust-lang.org//",
        "https://host.example/a?b=c&d=e",
    ];
    for s in corpus {
        let once = Url::parse(s).unwrap().to_string();
        let twice = Url::parse(&once).unwrap().to_string();
        assert_eq!(once, twice);
    }
}

#[test]
fn parse_rejects_missing_protocol() {
    assert_eq!(Url::parse("www.google.com").unwrap_err(), UrlError::NoProtocol);
    assert_eq!(Url::parse("").unwrap_err(), UrlError::NoProtocol);
    assert_eq!(Url::parse("http:/half").unwrap_err(), UrlError::NoProtocol);
}

#[test]
fn parse_rejects_empty_scheme() {
    assert_eq!(
        Url::parse("://example.com").unwrap_err(),
        UrlError::NotValidUrl
    );
}

#[test]
fn semicolon_survives_as_percent_3b() {
    let url = Url::parse("https://a.insa-rouen.fr/x;y").unwrap();
    assert_eq!(url.to_string(), "https://a.insa-rouen.fr/x%3By");
    assert!(!url.to_string().contains(';'));
}

#[test]
fn parse_truncates_and_trims() {
    assert_eq!(
        Url::parse("https://host/path<script>").unwrap().to_string(),
        "https://host/path"
    );
    assert_eq!(
        Url::parse("https://host/path///").unwrap().to_string(),
        "https://host/path"
    );
    assert_eq!(
        Url::parse("https://host/path#frag").unwrap().to_string(),
        "https://host/path"
    );
}

#[test]
fn extraction_yields_a_set() {
    let content = r#"<a href="/x">one</a><a href="/x">two</a><a href="https://a.insa-rouen.fr/x">three</a>"#;
    let base = Url::parse("https://a.insa-rouen.fr").unwrap();
    let first = get_links(content, base.clone());
    let second = get_links(content, base);
    assert_eq!(first.len(), 1);
    assert_eq!(first, second);
}

#[test]
fn classifiers_read_the_url() {
    let media = Url::parse("https://a.insa-rouen.fr/logo.PNG").unwrap();
    assert!(media.is_media());
    let page = Url::parse("https://a.insa-rouen.fr/index.html").unwrap();
    assert!(!page.is_media());
    assert!(page.is_allowed());
    assert!(page.is_insa());
    assert!(!Url::parse("https://elsewhere.example").unwrap().is_allowed());
    assert!(Url::parse("https://cas.insa-rouen.fr/cas/login").unwrap().is_cas());
    assert!(!page.is_cas());
    assert!(Url::parse("https://qualite.insa-rouen.fr/x").unwrap().is_black_listed());
    assert!(!page.is_black_listed());
}

#[test]
fn url_parts() {
    let url = Url::parse("https://www.google.com/path/to/file.txt").unwrap();
    assert_eq!(url.get_root(), "https://www.google.com/");
    assert_eq!(url.get_file_name(), "file.txt");
    assert_eq!(url.get_host(), "www.google.com");
    let bare = Url::parse("git://host").unwrap();
    assert_eq!(bare.get_root(), "git://host/");
    assert_eq!(bare.get_file_name(), "host");
}

#[test]
fn hash_is_stable_per_string() {
    let a = Url::parse("https://a.insa-rouen.fr/x").unwrap();
    let b = Url::parse("https://a.insa-rouen.fr/x").unwrap();
    let c = Url::parse("https://a.insa-rouen.fr/y").unwrap();
    assert_eq!(a.get_hash(), b.get_hash());
    assert_ne!(a.get_hash(), c.get_hash());
}

#[test]
fn permissive_set_matches_the_scanner() {
    for b in [b'a', b'Z', b'0', b'.', b'/', b'%', b'?', b':', b'=', b'-', b'_', b'&'] {
        assert!(is_url_permissive(b));
    }
    for b in [b' ', b'"', b'<', b'>', b';', b'#', b'\\', b'@'] {
        assert!(!is_url_permissive(b));
    }
}

#[test]
fn non_ascii_characters_terminate_spans() {
    let content = "voil\u{e0} https://a.insa-rouen.fr/\u{e9}-page suite";
    let links = get_links(content, Url::parse("https://a.insa-rouen.fr").unwrap());
    assert_eq!(links.len(), 1);
    assert_eq!(links[0].to_string(), "https://a.insa-rouen.fr");
}

#[test]
fn unknown_schemes_keep_their_spelling() {
    assert_eq!(
        Url::parse("Weird://host").unwrap().get_uri_scheme(),
        UriScheme::Unknown("Weird".to_string())
    );
    assert_eq!(
        Url::parse("chrome://settings").unwrap().get_uri_scheme(),
        UriScheme::Chrome
    );
}

#[test]
fn url_list_to_string() {
    let urls = vec![
        Url::parse("https://a.insa-rouen.fr").unwrap(),
        Url::parse("https://b.insa-rouen.fr").unwrap(),
    ];
    assert_eq!(
        HackTraitVecUrlString::to_string(&urls),
        " https://a.insa-rouen.fr; https://b.insa-rouen.fr;"
    );
}
