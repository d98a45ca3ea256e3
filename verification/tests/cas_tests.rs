//! The CAS handshake's scraping, form assembly, and login verdict.

use open_finder::cas::cas_form_fields;
use open_finder::cas::cas_headers;
use open_finder::cas::extract_execution;
use open_finder::cas::login_outcome;
use open_finder::collection::PageError;
use open_finder::link::Url;

#[test]
fn nonce_is_scraped_from_the_login_page() {
    let body = r#"<form><input type="hidden" name="execution" value="e1s1-abc"/><input name="submit"/></form>"#;
    assert_eq!(extract_execution(body).unwrap(), "e1s1-abc");
}

#[test]
fn first_nonce_wins() {
    let body = r#"name="execution" value="first" ... name="execution" value="second""#;
    assert_eq!(extract_execution(body).unwrap(), "first");
}

#[test]
fn missing_nonce_is_an_error() {
    let body = "<form>nothing here</form>";
    assert_eq!(
        extract_execution(body).unwrap_err(),
        PageError::NoExecutionNonce
    );
}

#[test]
fn form_fields_echo_the_nonce() {
    let fields = cas_form_fields("user", "pw", "e1s1-abc");
    let pairs: Vec<(&str, &str)> = fields
        .iter()
        .map(|(k, v)| (k.as_str(), v.as_str()))
        .collect();
    assert_eq!(
        pairs,
        vec![
            ("username", "user"),
            ("password", "pw"),
            ("execution", "e1s1-abc"),
            ("_eventId", "submit"),
            ("geolocation", ""),
            ("submit", "Login"),
        ]
    );
}

#[test]
fn headers_carry_the_encoded_referer() {
    let url = Url::parse("https://cas.insa-rouen.fr/cas/login").unwrap();
    let headers = cas_headers(&url);
    assert_eq!(headers.len(), 14);
    let referer = headers
        .iter()
        .find(|(k, _)| k == "Referer")
        .map(|(_, v)| v.as_str())
        .unwrap();
    assert_eq!(referer, "https%3A%2F%2Fcas.insa-rouen.fr%2Fcas%2Flogin");
    let origin = headers
        .iter()
        .find(|(k, _)| k == "Origin")
        .map(|(_, v)| v.as_str())
        .unwrap();
    assert_eq!(origin, "https://cas.insa-rouen.fr");
}

#[test]
fn login_outcome_follows_the_status() {
    assert!(login_outcome(200).is_ok());
    assert!(login_outcome(204).is_ok());
    assert_eq!(login_outcome(302).unwrap_err(), PageError::LoginRejected);
    assert_eq!(login_outcome(401).unwrap_err(), PageError::LoginRejected);
    assert_eq!(login_outcome(500).unwrap_err(), PageError::LoginRejected);
}

#[test]
fn cas_urls_are_detected() {
    assert!(Url::parse("https://intranet.insa-rouen.fr/x")
        .map(|u| !u.is_cas())
        .unwrap());
    assert!(Url::parse("https://cas.insa-rouen.fr/cas/login?service=x")
        .unwrap()
        .is_cas());
}
