//! The Central Authentication Service handshake's decision logic: scraping
//! the execution nonce out of the login page, assembling the credential
//! form and the browser-mimicking headers, and judging the login response.
//! The HTTP requests themselves run outside the library.

use vstd::prelude::*;
use vstd::string::*;

use crate::collection::PageError;
use crate::link::Url;
use crate::text::contains_seq;
use crate::text::find_char_from;
use crate::text::find_char_from_exec;
use crate::text::matches_at;
use crate::text::str_find;

verus! {

/// The literal that announces the execution nonce in the CAS login form.
pub open spec fn nonce_marker() -> Seq<char> {
    "name=\"execution\" value=\""@
}

/// `t` is the nonce scraped from `s`: the characters after the first
/// occurrence of the marker, up to the next double quote.
pub open spec fn nonce_extracted(s: Seq<char>, t: Seq<char>) -> bool {
    exists|i: int|
        {
            &&& #[trigger] matches_at(s, i, nonce_marker())
            &&& forall|j: int| 0 <= j < i ==> !matches_at(s, j, nonce_marker())
            &&& t == s.subrange(
                i + nonce_marker().len(),
                find_char_from(s, '"', i + nonce_marker().len()),
            )
        }
}

/// Scrape the opaque execution token out of the login page's body.
pub fn extract_execution(body: &str) -> (r: Result<String, PageError>)
    ensures
        match r {
            Ok(t) => contains_seq(body@, nonce_marker()) && nonce_extracted(body@, t@),
            Err(e) => e == PageError::NoExecutionNonce && !contains_seq(body@, nonce_marker()),
        },
{
    let n = body.unicode_len();
    match str_find(body, "name=\"execution\" value=\"") {
        None => Err(PageError::NoExecutionNonce),
        Some(i) => {
            let m = "name=\"execution\" value=\"".unicode_len();
            proof {
                assert(i + m <= n);
            }
            let start = i + m;
            let e = find_char_from_exec(body, '"', start);
            let token = body.substring_char(start, e).to_owned();
            proof {
                assert(matches_at(body@, i as int, nonce_marker()));
                assert(token@ == body@.subrange(
                    i + nonce_marker().len(),
                    find_char_from(body@, '"', i + nonce_marker().len()),
                ));
            }
            Ok(token)
        },
    }
}

/// The `application/x-www-form-urlencoded` fields of the credential POST.
pub fn cas_form_fields(username: &str, password: &str, execution: &str) -> (r: Vec<
    (String, String),
>)
    ensures
        r@.len() == 6,
        r@[0].0@ == "username"@ && r@[0].1@ == username@,
        r@[1].0@ == "password"@ && r@[1].1@ == password@,
        r@[2].0@ == "execution"@ && r@[2].1@ == execution@,
        r@[3].0@ == "_eventId"@ && r@[3].1@ == "submit"@,
        r@[4].0@ == "geolocation"@ && r@[4].1@.len() == 0,
        r@[5].0@ == "submit"@ && r@[5].1@ == "Login"@,
{
    let mut fields: Vec<(String, String)> = Vec::new();
    fields.push(("username".to_owned(), username.to_owned()));
    fields.push(("password".to_owned(), password.to_owned()));
    fields.push(("execution".to_owned(), execution.to_owned()));
    fields.push(("_eventId".to_owned(), "submit".to_owned()));
    fields.push(("geolocation".to_owned(), String::new()));
    fields.push(("submit".to_owned(), "Login".to_owned()));
    fields
}

/// What `urlencoding` percent-encodes the characters of `s` into.
pub uninterp spec fn url_encoded_of(s: Seq<char>) -> Seq<char>;

/// Relies on `urlencoding::encode`: every byte outside alphanumerics and
/// `-`, `_`, `.`, `~` is percent-encoded, a function of the input alone.
#[verifier::external_body]
fn url_encode(s: &str) -> (r: String)
    ensures
        r@ == url_encoded_of(s@),
{
    urlencoding::encode(s).into_owned()
}

/// The headers of the credential POST: a browser-mimicking profile with the
/// URL-encoded login URL as referer and the CAS origin.
pub fn cas_headers(login_url: &Url) -> (r: Vec<(String, String)>)
    ensures
        r@.len() == 14,
        r@[0].0@ == "User-Agent"@ && r@[0].1@
            == "Mozilla/5.0 (X11; Linux x86_64) AppleWebKit/537.36 (KHTML, like Gecko) Chrome/116.0.0.0 Safari/537.36"@,
        r@[1].0@ == "Accept"@ && r@[1].1@
            == "text/html,application/xhtml+xml,application/xml;q=0.9,image/avif,image/webp,*/*;q=0.8"@,
        r@[2].0@ == "Accept-Language"@ && r@[2].1@ == "en-US,en;q=0.5"@,
        r@[3].0@ == "Accept-Encoding"@ && r@[3].1@ == "gzip, deflate, br"@,
        r@[4].0@ == "Content-Type"@ && r@[4].1@ == "application/x-www-form-urlencoded"@,
        r@[5].0@ == "Origin"@ && r@[5].1@ == "https://cas.insa-rouen.fr"@,
        r@[6].0@ == "Connection"@ && r@[6].1@ == "keep-alive"@,
        r@[7].0@ == "Referer"@ && r@[7].1@ == url_encoded_of(login_url@),
        r@[8].0@ == "Cookie"@ && r@[8].1@
            == "org.springframework.web.servlet.i18n.CookieLocaleResolver.LOCALE=en-US"@,
        r@[9].0@ == "Upgrade-Insecure-Requests"@ && r@[9].1@ == "1"@,
        r@[10].0@ == "Sec-Fetch-Dest"@ && r@[10].1@ == "document"@,
        r@[11].0@ == "Sec-Fetch-Mode"@ && r@[11].1@ == "navigate"@,
        r@[12].0@ == "Sec-Fetch-Site"@ && r@[12].1@ == "same-origin"@,
        r@[13].0@ == "Sec-Fetch-User"@ && r@[13].1@ == "?1"@,
{
    let referer = url_encode(login_url.to_string().as_str());
    let mut headers: Vec<(String, String)> = Vec::new();
    headers.push(
        (
            "User-Agent".to_owned(),
            "Mozilla/5.0 (X11; Linux x86_64) AppleWebKit/537.36 (KHTML, like Gecko) Chrome/116.0.0.0 Safari/537.36".to_owned(),
        ),
    );
    headers.push(
        (
            "Accept".to_owned(),
            "text/html,application/xhtml+xml,application/xml;q=0.9,image/avif,image/webp,*/*;q=0.8".to_owned(),
        ),
    );
    headers.push(("Accept-Language".to_owned(), "en-US,en;q=0.5".to_owned()));
    headers.push(("Accept-Encoding".to_owned(), "gzip, deflate, br".to_owned()));
    headers.push(
        ("Content-Type".to_owned(), "application/x-www-form-urlencoded".to_owned()),
    );
    headers.push(("Origin".to_owned(), "https://cas.insa-rouen.fr".to_owned()));
    headers.push(("Connection".to_owned(), "keep-alive".to_owned()));
    headers.push(("Referer".to_owned(), referer));
    headers.push(
        (
            "Cookie".to_owned(),
            "org.springframework.web.servlet.i18n.CookieLocaleResolver.LOCALE=en-US".to_owned(),
        ),
    );
    headers.push(("Upgrade-Insecure-Requests".to_owned(), "1".to_owned()));
    headers.push(("Sec-Fetch-Dest".to_owned(), "document".to_owned()));
    headers.push(("Sec-Fetch-Mode".to_owned(), "navigate".to_owned()));
    headers.push(("Sec-Fetch-Site".to_owned(), "same-origin".to_owned()));
    headers.push(("Sec-Fetch-User".to_owned(), "?1".to_owned()));
    headers
}

/// Judge the credential POST's status: any 2xx answer means the cookie jar
/// now holds the session; anything else is a rejected login.
pub fn login_outcome(status: u16) -> (r: Result<(), PageError>)
    ensures
        match r {
            Ok(_) => 200 <= status < 300,
            Err(e) => e == PageError::LoginRejected && !(200 <= status < 300),
        },
{
    if 200 <= status && status < 300 {
        Ok(())
    } else {
        Err(PageError::LoginRejected)
    }
}

} // verus!
