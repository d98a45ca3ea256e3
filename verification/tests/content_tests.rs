//! Classification, text extraction, and the search-sink documents.

use open_finder::content::Content;
use open_finder::content::ContentType;
use open_finder::content::Document;
use open_finder::link::Url;

#[test]
fn classification_by_extension() {
    let empty: Vec<u8> = Vec::new();
    assert_eq!(ContentType::from("page.html", &empty), ContentType::Html);
    assert_eq!(ContentType::from("page.HTM", &empty), ContentType::Html);
    assert_eq!(ContentType::from("doc.pdf", &empty), ContentType::Pdf);
    assert_eq!(ContentType::from("pic.jpeg", &empty), ContentType::Image);
    assert_eq!(ContentType::from("style.css", &empty), ContentType::Css);
    assert_eq!(ContentType::from("app.js", &empty), ContentType::Js);
    assert_eq!(ContentType::from("data.json", &empty), ContentType::Json);
    assert_eq!(ContentType::from("feed.xml", &empty), ContentType::Xml);
    assert_eq!(ContentType::from("readme", &empty), ContentType::Other);
}

#[test]
fn classification_strips_queries_and_sniffs() {
    let empty: Vec<u8> = Vec::new();
    assert_eq!(
        ContentType::from("page.html?version=2", &empty),
        ContentType::Html
    );
    let doctype = b"<!DOCTYPE html><html></html>".to_vec();
    assert_eq!(ContentType::from("mystery", &doctype), ContentType::Html);
    let plain = b"just bytes".to_vec();
    assert_eq!(ContentType::from("mystery", &plain), ContentType::Other);
}

#[test]
fn html_bodies_render_to_text() {
    let body = b"<html><body><p>hello crawler</p></body></html>".to_vec();
    let content = Content::new(body, "page.html".to_string());
    assert_eq!(content.get_kind(), ContentType::Html);
    let text = content.to_text().expect("html should have text");
    assert!(text.contains("hello crawler"));
    // The markup itself is gone: this is rendered text, not the input body.
    assert!(!text.contains("<p>"));
}

#[test]
fn only_html_has_library_side_text() {
    let content = Content::new(b"body".to_vec(), "data.json".to_string());
    assert!(content.to_text().is_none());
    let pdf = Content::new(b"%PDF-1.4".to_vec(), "doc.pdf".to_string());
    assert!(pdf.to_text().is_none());
}

#[test]
fn pdf_bodies_yield_no_links() {
    let content = Content::new(
        b"https://a.insa-rouen.fr/inside".to_vec(),
        "doc.pdf".to_string(),
    );
    let links = content.get_links(Url::parse("https://a.insa-rouen.fr").unwrap());
    assert!(links.is_empty());
}

#[test]
fn invalid_utf8_bodies_yield_no_links() {
    let content = Content::new(
        vec![0xff, 0xfe, 0x80, b'h'],
        "page.html".to_string(),
    );
    let links = content.get_links(Url::parse("https://a.insa-rouen.fr").unwrap());
    assert!(links.is_empty());
}

#[test]
fn bodies_surface_their_links() {
    let body = br#"<a href="https://a.insa-rouen.fr/next">n</a>"#.to_vec();
    let content = Content::new(body.clone(), "page.html".to_string());
    assert_eq!(content.get_bytes(), &body);
    let links = content.get_links(Url::parse("https://a.insa-rouen.fr").unwrap());
    assert_eq!(links.len(), 1);
    assert_eq!(links[0].to_string(), "https://a.insa-rouen.fr/next");
}

#[test]
fn documents_are_keyed_by_the_url_digest() {
    let url = Url::parse("https://a.insa-rouen.fr").unwrap();
    let doc = Document::new(url, "text".to_string(), ContentType::Html);
    assert_eq!(doc.get_hash(), "c8cabc4a3362fea84324207b751ee1aa");
    assert_eq!(doc.get_content(), "text");
    assert_eq!(doc.get_kind(), ContentType::Html);
    assert_eq!(doc.get_url().to_string(), "https://a.insa-rouen.fr");

    let google = Url::parse("https://www.google.com").unwrap();
    let doc2 = Document::new(google, String::new(), ContentType::Other);
    assert_eq!(doc2.get_hash(), "8ffdefbdec956b595d257f0aaeefd623");
}

#[test]
fn to_document_carries_the_html_text() {
    let body = b"<p>indexed words</p>".to_vec();
    let content = Content::new(body, "page.html".to_string());
    let doc = content.to_document(Url::parse("https://a.insa-rouen.fr/p.html").unwrap());
    assert!(doc.get_content().contains("indexed words"));
    assert_eq!(doc.get_kind(), ContentType::Html);
}
