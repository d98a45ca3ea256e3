//! Fetched content: classification by file-name extension with a sniffing
//! fallback, link extraction from the body, text extraction for HTML, and
//! the documents shipped to the search sink.

use vstd::prelude::*;
use vstd::string::*;
use vstd::utf8::decode_utf8;
use vstd::utf8::valid_utf8;

use crate::link::Url;
use crate::link::ext_start;
use crate::link::get_links;
use crate::link::link_seq;
use crate::link::root_of;
use crate::link::views_of;
use crate::text::find_char_from;
use crate::text::find_char_from_exec;
use crate::text::lower_seq;
use crate::text::range_lower_eq;

verus! {

#[derive(Debug, Clone, Copy, PartialEq, Eq)]
pub enum ContentType {
    Html,
    Css,
    Js,
    Pdf,
    Image,
    Json,
    Xml,
    Other,
}

/// The extension segment that classification looks at: after the last dot,
/// cut at the first `?`, folded to lower case.
pub open spec fn ext_seg(name: Seq<char>) -> Seq<char> {
    let s = ext_start(name);
    let e = find_char_from(name, '?', s);
    lower_seq(name.subrange(s, e))
}

/// The bytes of `<!DOCTYPE html>`.
pub open spec fn doctype_bytes() -> Seq<u8> {
    seq![
        '<' as u8,
        '!' as u8,
        'D' as u8,
        'O' as u8,
        'C' as u8,
        'T' as u8,
        'Y' as u8,
        'P' as u8,
        'E' as u8,
        ' ' as u8,
        'h' as u8,
        't' as u8,
        'm' as u8,
        'l' as u8,
        '>' as u8,
    ]
}

/// Does the body open with an HTML doctype?
pub open spec fn starts_doctype(b: Seq<u8>) -> bool {
    b.len() >= 15 && b.subrange(0, 15) == doctype_bytes()
}

/// The kind a file name and body are classified as.
pub open spec fn kind_of(name: Seq<char>, body: Seq<u8>) -> ContentType {
    let e = ext_seg(name);
    if e == "html"@ || e == "htm"@ {
        ContentType::Html
    } else if e == "pdf"@ {
        ContentType::Pdf
    } else if e == "png"@ || e == "jpg"@ || e == "jpeg"@ || e == "gif"@ || e == "svg"@ || e
        == "ico"@ || e == "webp"@ || e == "bmp"@ || e == "tiff"@ || e == "tif"@ || e == "psd"@ || e
        == "raw"@ {
        ContentType::Image
    } else if e == "css"@ {
        ContentType::Css
    } else if e == "js"@ {
        ContentType::Js
    } else if e == "json"@ {
        ContentType::Json
    } else if e == "xml"@ {
        ContentType::Xml
    } else if starts_doctype(body) {
        ContentType::Html
    } else {
        ContentType::Other
    }
}

impl ContentType {
    /// Classify a body by its file name's extension, else by sniffing for a
    /// doctype.
    pub fn from(name: &str, body: &Vec<u8>) -> (r: ContentType)
        ensures
            r == kind_of(name@, body@),
    {
        let n = name.unicode_len();
        let start: usize = match crate::text::find_last_char(name, '.') {
            Some(i) => {
                proof {
                    crate::link::lemma_ext_start(name@, i as int);
                }
                i + 1
            },
            None => {
                proof {
                    crate::link::lemma_ext_start_none(name@);
                }
                0
            },
        };
        let end = find_char_from_exec(name, '?', start);
        let s = name;
        if range_lower_eq(s, start, end, "html") || range_lower_eq(s, start, end, "htm") {
            ContentType::Html
        } else if range_lower_eq(s, start, end, "pdf") {
            ContentType::Pdf
        } else if range_lower_eq(s, start, end, "png") || range_lower_eq(s, start, end, "jpg")
            || range_lower_eq(s, start, end, "jpeg") || range_lower_eq(s, start, end, "gif")
            || range_lower_eq(s, start, end, "svg") || range_lower_eq(s, start, end, "ico")
            || range_lower_eq(s, start, end, "webp") || range_lower_eq(s, start, end, "bmp")
            || range_lower_eq(s, start, end, "tiff") || range_lower_eq(s, start, end, "tif")
            || range_lower_eq(s, start, end, "psd") || range_lower_eq(s, start, end, "raw") {
            ContentType::Image
        } else if range_lower_eq(s, start, end, "css") {
            ContentType::Css
        } else if range_lower_eq(s, start, end, "js") {
            ContentType::Js
        } else if range_lower_eq(s, start, end, "json") {
            ContentType::Json
        } else if range_lower_eq(s, start, end, "xml") {
            ContentType::Xml
        } else if starts_with_doctype(body) {
            ContentType::Html
        } else {
            ContentType::Other
        }
    }
}

/// Does the body open with `<!DOCTYPE html>`?
fn starts_with_doctype(b: &Vec<u8>) -> (r: bool)
    ensures
        r == starts_doctype(b@),
{
    let r = b.len() >= 15 && b[0] == '<' as u8 && b[1] == '!' as u8 && b[2] == 'D' as u8 && b[3]
        == 'O' as u8 && b[4] == 'C' as u8 && b[5] == 'T' as u8 && b[6] == 'Y' as u8 && b[7]
        == 'P' as u8 && b[8] == 'E' as u8 && b[9] == ' ' as u8 && b[10] == 'h' as u8 && b[11]
        == 't' as u8 && b[12] == 'm' as u8 && b[13] == 'l' as u8 && b[14] == '>' as u8;
    proof {
        if b@.len() >= 15 {
            assert(starts_doctype(b@) ==> r) by {
                if starts_doctype(b@) {
                    assert(forall|j: int|
                        0 <= j < 15 ==> b@.subrange(0, 15)[j] == #[trigger] doctype_bytes()[j]);
                }
            }
            if r {
                assert(b@.subrange(0, 15) =~= doctype_bytes());
            }
        }
    }
    r
}

/// The characters a byte buffer reads as: its UTF-8 decoding when it is
/// valid, and nothing otherwise.
pub open spec fn chars_of_bytes(b: Seq<u8>) -> Seq<char> {
    if valid_utf8(b) {
        decode_utf8(b)
    } else {
        Seq::empty()
    }
}

/// Relies on `String::from_utf8`: valid UTF-8 bytes decode to exactly their
/// characters, and anything else falls back to the empty string.
#[verifier::external_body]
fn bytes_to_string(b: &Vec<u8>) -> (r: String)
    ensures
        valid_utf8(b@) ==> r@ == decode_utf8(b@),
        !valid_utf8(b@) ==> r@ == Seq::<char>::empty(),
{
    String::from_utf8(b.clone()).unwrap_or_default()
}

/// What `html2text` renders a byte buffer as.
pub uninterp spec fn html_text_of(b: Seq<u8>) -> Seq<char>;

/// Relies on `html2text::from_read`: the rendered text is a function of the
/// input bytes (at the fixed width used here) alone; a rendering error
/// yields empty text.
#[verifier::external_body]
fn html_to_text(b: &Vec<u8>) -> (r: String)
    ensures
        r@ == html_text_of(b@),
{
    html2text::from_read(b.as_slice(), 1000).unwrap_or_default()
}

/// The 32 hex digits `md5` prints for a digest of the characters `s`.
pub uninterp spec fn md5_hex_of(s: Seq<char>) -> Seq<char>;

/// Relies on `md5::compute` and the crate's `LowerHex` rendering: the
/// digest is a function of the input bytes alone, printed as lower-case
/// hex, two digits per digest byte.
#[verifier::external_body]
fn md5_hex(s: &str) -> (r: String)
    ensures
        r@ == md5_hex_of(s@),
{
    format!("{:x}", md5::compute(s.as_bytes()))
}

/// Mathematical image of a [`Content`].
pub struct ContentV {
    pub bytes: Seq<u8>,
    pub kind: ContentType,
}

/// A fetched body with its classified kind.
#[derive(Debug)]
pub struct Content {
    bytes: Vec<u8>,
    kind: ContentType,
}

impl View for Content {
    type V = ContentV;

    closed spec fn view(&self) -> ContentV {
        ContentV { bytes: self.bytes@, kind: self.kind }
    }
}

impl Content {
    /// Wrap a body, classifying it under its file name.
    pub fn new(bytes: Vec<u8>, name: String) -> (r: Content)
        ensures
            r@.bytes == bytes@,
            r@.kind == kind_of(name@, bytes@),
    {
        let kind = ContentType::from(name.as_str(), &bytes);
        Content { bytes, kind }
    }

    /// The classified kind.
    pub fn get_kind(&self) -> (r: ContentType)
        ensures
            r == self@.kind,
    {
        self.kind
    }

    /// The raw body.
    pub fn get_bytes(&self) -> (r: &Vec<u8>)
        ensures
            r@ == self@.bytes,
    {
        &self.bytes
    }

    /// Extract the URLs the body mentions; a PDF body yields none here.
    pub fn get_links(&self, url: Url) -> (r: Vec<Url>)
        ensures
            self@.kind == ContentType::Pdf ==> r@.len() == 0,
            self@.kind != ContentType::Pdf ==> views_of(r@) == link_seq(
                chars_of_bytes(self@.bytes),
                root_of(url@),
                url@,
            ),
    {
        match self.kind {
            ContentType::Pdf => Vec::new(),
            _ => {
                let text = bytes_to_string(&self.bytes);
                get_links(text.as_str(), url)
            },
        }
    }

    /// The plain text of an HTML body; PDF conversion runs outside the
    /// library, behind its fault barrier, and every other kind has no text.
    pub fn to_text(&self) -> (r: Option<String>)
        ensures
            match r {
                Some(t) => self@.kind == ContentType::Html && t@ == html_text_of(self@.bytes),
                None => self@.kind != ContentType::Html,
            },
    {
        match self.kind {
            ContentType::Html => Some(html_to_text(&self.bytes)),
            _ => None,
        }
    }

    /// The document for the search sink: the HTML text under the URL's
    /// stable digest; kinds without library-side text give an empty body.
    pub fn to_document(&self, url: Url) -> (r: Document)
        ensures
            r@.url == url@,
            r@.kind == self@.kind,
            self@.kind == ContentType::Html ==> r@.content == html_text_of(self@.bytes),
            self@.kind != ContentType::Html ==> r@.content == Seq::<char>::empty(),
            r@.hash == md5_hex_of(url@),
    {
        let content = match self.to_text() {
            Some(t) => t,
            None => String::new(),
        };
        Document::new(url, content, self.kind)
    }
}

/// Mathematical image of a [`Document`].
pub struct DocumentV {
    pub url: Seq<char>,
    pub content: Seq<char>,
    pub kind: ContentType,
    pub hash: Seq<char>,
}

/// What the search sink receives: a URL, its extracted text, its kind, and
/// the URL's digest as the sink's primary key.
#[derive(Debug)]
pub struct Document {
    url: Url,
    content: String,
    kind: ContentType,
    hash: String,
}

impl View for Document {
    type V = DocumentV;

    closed spec fn view(&self) -> DocumentV {
        DocumentV { url: self.url@, content: self.content@, kind: self.kind, hash: self.hash@ }
    }
}

impl Document {
    /// Build a document keyed by the digest of its URL.
    pub fn new(url: Url, content: String, kind: ContentType) -> (r: Document)
        ensures
            r@.url == url@,
            r@.content == content@,
            r@.kind == kind,
            r@.hash == md5_hex_of(url@),
    {
        let hash = md5_hex(url.to_string().as_str());
        Document { url, content, kind, hash }
    }

    /// The document's URL.
    pub fn get_url(&self) -> (r: &Url)
        ensures
            r@ == self@.url,
    {
        &self.url
    }

    /// The extracted text.
    pub fn get_content(&self) -> (r: &str)
        ensures
            r@ == self@.content,
    {
        self.content.as_str()
    }

    /// The classified kind.
    pub fn get_kind(&self) -> (r: ContentType)
        ensures
            r == self@.kind,
    {
        self.kind
    }

    /// The sink's primary key: the URL's digest.
    pub fn get_hash(&self) -> (r: &str)
        ensures
            r@ == self@.hash,
    {
        self.hash.as_str()
    }
}

} // verus!
