//! The URI scheme that precedes the `://` marker of a URL, recognized
//! case-insensitively; unrecognized schemes are kept verbatim.

use vstd::prelude::*;
use vstd::string::*;

use crate::text::lower_seq;
use crate::text::range_lower_eq;

verus! {

#[derive(Debug, PartialEq, Eq, Clone)]
pub enum UriScheme {
    Http,
    Https,
    Ftp,
    Sftp,
    Ssh,
    Chrome,
    File,
    Facetime,
    Git,
    Unknown(String),
}

/// Mathematical image of a [`UriScheme`]: the unrecognized case carries the
/// scheme's characters.
pub enum SchemeView {
    Http,
    Https,
    Ftp,
    Sftp,
    Ssh,
    Chrome,
    File,
    Facetime,
    Git,
    Unknown(Seq<char>),
}

impl View for UriScheme {
    type V = SchemeView;

    open spec fn view(&self) -> SchemeView {
        match self {
            UriScheme::Http => SchemeView::Http,
            UriScheme::Https => SchemeView::Https,
            UriScheme::Ftp => SchemeView::Ftp,
            UriScheme::Sftp => SchemeView::Sftp,
            UriScheme::Ssh => SchemeView::Ssh,
            UriScheme::Chrome => SchemeView::Chrome,
            UriScheme::File => SchemeView::File,
            UriScheme::Facetime => SchemeView::Facetime,
            UriScheme::Git => SchemeView::Git,
            UriScheme::Unknown(s) => SchemeView::Unknown(s@),
        }
    }
}

/// The scheme denoted by the characters `s`, folded to lower case.
pub open spec fn scheme_spec(s: Seq<char>) -> SchemeView {
    let l = lower_seq(s);
    if l == "http"@ {
        SchemeView::Http
    } else if l == "https"@ {
        SchemeView::Https
    } else if l == "ftp"@ {
        SchemeView::Ftp
    } else if l == "sftp"@ {
        SchemeView::Sftp
    } else if l == "ssh"@ {
        SchemeView::Ssh
    } else if l == "chrome"@ {
        SchemeView::Chrome
    } else if l == "file"@ {
        SchemeView::File
    } else if l == "facetime"@ {
        SchemeView::Facetime
    } else if l == "git"@ {
        SchemeView::Git
    } else {
        SchemeView::Unknown(s)
    }
}

impl UriScheme {
    /// Classify the scheme named by `s`.
    pub fn from_name(s: &str) -> (r: UriScheme)
        ensures
            r@ == scheme_spec(s@),
    {
        let n = s.unicode_len();
        proof {
            lemma_full_lower(s@);
        }
        if range_lower_eq(s, 0, n, "http") {
            UriScheme::Http
        } else if range_lower_eq(s, 0, n, "https") {
            UriScheme::Https
        } else if range_lower_eq(s, 0, n, "ftp") {
            UriScheme::Ftp
        } else if range_lower_eq(s, 0, n, "sftp") {
            UriScheme::Sftp
        } else if range_lower_eq(s, 0, n, "ssh") {
            UriScheme::Ssh
        } else if range_lower_eq(s, 0, n, "chrome") {
            UriScheme::Chrome
        } else if range_lower_eq(s, 0, n, "file") {
            UriScheme::File
        } else if range_lower_eq(s, 0, n, "facetime") {
            UriScheme::Facetime
        } else if range_lower_eq(s, 0, n, "git") {
            UriScheme::Git
        } else {
            UriScheme::Unknown(s.to_owned())
        }
    }

    /// Is the scheme HTTP or HTTPS?
    pub fn is_web(&self) -> (r: bool)
        ensures
            r == (self@ == SchemeView::Http || self@ == SchemeView::Https),
    {
        match self {
            UriScheme::Http => true,
            UriScheme::Https => true,
            _ => false,
        }
    }
}

/// Folding the whole of `s` is folding the subrange that covers it.
proof fn lemma_full_lower(s: Seq<char>)
    ensures
        lower_seq(s.subrange(0, s.len() as int)) == lower_seq(s),
{
    assert(s.subrange(0, s.len() as int) =~= s);
}

} // verus!
