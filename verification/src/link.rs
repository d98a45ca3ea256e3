//! URL values and the permissive link extractor.
//!
//! A [`Url`] wraps a normalized absolute URL string: parsing truncates the
//! input at the first character outside a permissive set, strips trailing
//! slashes, percent-encodes `;` as `%3B`, and demands a `://` marker with a
//! nonempty scheme in front of it.

use vstd::prelude::*;
use vstd::string::*;

use crate::protocols::SchemeView;
use crate::protocols::UriScheme;
use crate::protocols::scheme_spec;
use crate::text::contains_seq;
use crate::text::find_last_char;
use crate::text::lower_seq;
use crate::text::matches_at;
use crate::text::range_lower_eq;
use crate::text::str_contains;
use crate::text::str_ends_with;
use crate::text::str_find;
use crate::text::str_matches_at;
use crate::text::str_starts_with;

verus! {

/// A normalized absolute URL, together with the cached position of its
/// `://` marker.
#[derive(Debug)]
pub struct Url {
    url: String,
    marker_pos: usize,
}

impl Clone for Url {
    fn clone(&self) -> (res: Url)
        ensures
            res@ == self@,
    {
        proof {
            use_type_invariant(self);
        }
        Url { url: self.url.clone(), marker_pos: self.marker_pos }
    }
}

#[derive(Debug, Clone, PartialEq, Eq)]
pub enum UrlError {
    NotValidUrl,
    NoProtocol,
}

impl View for Url {
    type V = Seq<char>;

    closed spec fn view(&self) -> Seq<char> {
        self.url@
    }
}

impl Url {
    /// Every URL value is well formed and knows where its marker sits.
    #[verifier::type_invariant]
    pub closed spec fn inv(&self) -> bool {
        wf_url(self@) && self.marker_pos == find_marker(self@)
    }

    /// The invariant includes well-formedness of the URL string.
    pub proof fn lemma_inv_wf(&self)
        requires
            self.inv(),
        ensures
            wf_url(self@),
    {
    }
}

impl PartialEq for Url {
    fn eq(&self, other: &Url) -> (r: bool) {
        self.url.eq(&other.url)
    }
}

impl vstd::std_specs::cmp::PartialEqSpecImpl for Url {
    open spec fn obeys_eq_spec() -> bool {
        true
    }

    open spec fn eq_spec(&self, other: &Url) -> bool {
        self@ == other@
    }
}

impl Eq for Url {}

/// Characters a URL may consist of; anything else ends the URL.
pub open spec fn is_permissive(c: char) -> bool {
    ('a' <= c && c <= 'z') || ('A' <= c && c <= 'Z') || ('0' <= c && c <= '9') || c == '.' || c
        == '/' || c == '%' || c == '?' || c == ':' || c == '=' || c == '-' || c == '_' || c == '&'
}

/// Characters kept while scanning an input: the permissive set plus `;`,
/// which parsing percent-encodes rather than truncates at.
pub open spec fn is_keepable(c: char) -> bool {
    is_permissive(c) || c == ';'
}

/// Is the byte, read as a character, in the permissive URL set?
pub fn is_url_permissive(c: u8) -> (r: bool)
    ensures
        r == is_permissive(c as char),
{
    permissive_char(c as char)
}

/// Is the character in the permissive URL set?
pub(crate) fn permissive_char(c: char) -> (r: bool)
    ensures
        r == is_permissive(c),
{
    ('a' <= c && c <= 'z') || ('A' <= c && c <= 'Z') || ('0' <= c && c <= '9') || c == '.' || c
        == '/' || c == '%' || c == '?' || c == ':' || c == '=' || c == '-' || c == '_' || c == '&'
}

/// Longest prefix of keepable characters.
pub open spec fn truncate_keepable(s: Seq<char>) -> Seq<char>
    decreases s.len(),
{
    if s.len() == 0 {
        s
    } else if is_keepable(s[0]) {
        seq![s[0]] + truncate_keepable(s.drop_first())
    } else {
        Seq::empty()
    }
}

/// `s` without its trailing slashes.
pub open spec fn trim_slash(s: Seq<char>) -> Seq<char>
    decreases s.len(),
{
    if s.len() > 0 && s.last() == '/' {
        trim_slash(s.drop_last())
    } else {
        s
    }
}

/// `s` with every `;` replaced by `%3B`.
pub open spec fn encode_semi(s: Seq<char>) -> Seq<char>
    decreases s.len(),
{
    if s.len() == 0 {
        s
    } else if s[0] == ';' {
        seq!['%', '3', 'B'] + encode_semi(s.drop_first())
    } else {
        seq![s[0]] + encode_semi(s.drop_first())
    }
}

/// The `://` marker.
pub open spec fn marker() -> Seq<char> {
    seq![':', '/', '/']
}

/// Index of the first `://` in `s`, or -1 if there is none.
pub open spec fn find_marker(s: Seq<char>) -> int
    decreases s.len(),
{
    if s.len() < 3 {
        -1
    } else if s[0] == ':' && s[1] == '/' && s[2] == '/' {
        0
    } else {
        let r = find_marker(s.drop_first());
        if r < 0 {
            -1
        } else {
            r + 1
        }
    }
}

/// The normal form that parsing an input reduces it to.
pub open spec fn canon_of(s: Seq<char>) -> Seq<char> {
    encode_semi(trim_slash(truncate_keepable(s)))
}

/// What parsing yields on the characters `s`.
pub open spec fn parse_spec(s: Seq<char>) -> Result<Seq<char>, UrlError> {
    let v = canon_of(s);
    if find_marker(v) < 0 {
        Err(UrlError::NoProtocol)
    } else if find_marker(v) == 0 {
        Err(UrlError::NotValidUrl)
    } else {
        Ok(v)
    }
}

/// Well-formedness of a stored URL string: nonempty, made of permissive
/// characters only, holding a `://` marker with a nonempty scheme before it,
/// and not ending in a slash.
pub open spec fn wf_url(v: Seq<char>) -> bool {
    &&& v.len() > 0
    &&& forall|j: int| 0 <= j < v.len() ==> is_permissive(#[trigger] v[j])
    &&& find_marker(v) >= 1
    &&& v.last() != '/'
}

// ------------------------------------------------------------------
// Lemmas on the parsing pipeline.
// ------------------------------------------------------------------
/// The truncation of `s` is its prefix up to the first unkeepable character.
proof fn lemma_truncate_prefix(s: Seq<char>, i: int)
    requires
        0 <= i <= s.len(),
        forall|j: int| 0 <= j < i ==> is_keepable(#[trigger] s[j]),
        i < s.len() ==> !is_keepable(s[i]),
    ensures
        truncate_keepable(s) == s.subrange(0, i),
    decreases s.len(),
{
    if s.len() == 0 {
        assert(s.subrange(0, 0) =~= s);
    } else if i == 0 {
        if !is_keepable(s[0]) {
            assert(truncate_keepable(s) =~= s.subrange(0, 0));
        } else {
            // i == 0 < s.len() and s[0] keepable contradicts the requirement.
            assert(false);
        }
    } else {
        lemma_truncate_prefix(s.drop_first(), i - 1);
        assert(seq![s[0]] + s.drop_first().subrange(0, i - 1) =~= s.subrange(0, i));
    }
}

/// Trimming removes exactly the trailing run of slashes.
proof fn lemma_trim_suffix(s: Seq<char>, j: int)
    requires
        0 <= j <= s.len(),
        forall|k: int| j <= k < s.len() ==> #[trigger] s[k] == '/',
        j > 0 ==> s[j - 1] != '/',
    ensures
        trim_slash(s) == s.subrange(0, j),
    decreases s.len(),
{
    if j == s.len() {
        if s.len() > 0 {
            assert(s.last() != '/');
        }
        assert(s.subrange(0, j) =~= s);
    } else {
        assert(s.last() == '/');
        lemma_trim_suffix(s.drop_last(), j);
        assert(s.drop_last().subrange(0, j) =~= s.subrange(0, j));
    }
}

/// Encoding distributes over concatenation.
proof fn lemma_encode_concat(a: Seq<char>, b: Seq<char>)
    ensures
        encode_semi(a + b) == encode_semi(a) + encode_semi(b),
    decreases a.len(),
{
    if a.len() == 0 {
        assert(a + b =~= b);
        assert(encode_semi(a) + encode_semi(b) =~= encode_semi(b));
    } else {
        lemma_encode_concat(a.drop_first(), b);
        assert((a + b).drop_first() =~= a.drop_first() + b);
        assert((a + b)[0] == a[0]);
        if a[0] == ';' {
            assert(encode_semi(a + b) =~= encode_semi(a) + encode_semi(b));
        } else {
            assert(encode_semi(a + b) =~= encode_semi(a) + encode_semi(b));
        }
    }
}

/// On keepable input, encoding yields permissive characters and keeps the
/// last character unless it was a `;`.
proof fn lemma_encode_props(a: Seq<char>)
    requires
        forall|j: int| 0 <= j < a.len() ==> is_keepable(#[trigger] a[j]),
    ensures
        forall|j: int| 0 <= j < encode_semi(a).len() ==> is_permissive(#[trigger] encode_semi(a)[j]),
        (encode_semi(a).len() == 0) == (a.len() == 0),
        a.len() > 0 ==> encode_semi(a).last() == (if a.last() == ';' {
            'B'
        } else {
            a.last()
        }),
    decreases a.len(),
{
    if a.len() > 0 {
        lemma_encode_props(a.drop_first());
        let head = if a[0] == ';' {
            seq!['%', '3', 'B']
        } else {
            seq![a[0]]
        };
        assert(encode_semi(a) == head + encode_semi(a.drop_first()));
        assert(forall|j: int| 0 <= j < head.len() ==> is_permissive(#[trigger] head[j]));
        if a.len() == 1 {
            assert(a.drop_first().len() == 0);
            assert(encode_semi(a).last() == head.last());
            assert(a.last() == a[0]);
        } else {
            assert(a.drop_first().len() > 0);
            assert(encode_semi(a).last() == encode_semi(a.drop_first()).last());
            assert(a.drop_first().last() == a.last());
        }
    }
}

/// Encoding a `;`-free sequence is the identity.
proof fn lemma_encode_clean(a: Seq<char>)
    requires
        forall|j: int| 0 <= j < a.len() ==> #[trigger] a[j] != ';',
    ensures
        encode_semi(a) == a,
    decreases a.len(),
{
    if a.len() > 0 {
        lemma_encode_clean(a.drop_first());
        assert(seq![a[0]] + a.drop_first() =~= a);
    }
}

/// Exec parsing of one URL string.
impl Url {
    /// Parse `v` into a normalized URL.
    pub fn parse(v: &str) -> (r: Result<Url, UrlError>)
        ensures
            match r {
                Ok(u) => parse_spec(v@) == Ok::<Seq<char>, UrlError>(u@) && wf_url(u@),
                Err(e) => parse_spec(v@) == Err::<Seq<char>, UrlError>(e),
            },
    {
        let n = v.unicode_len();
        // Truncate at the first character that is neither permissive nor `;`.
        let mut i: usize = 0;
        let mut stop = false;
        while i < n && !stop
            invariant
                n == v@.len(),
                0 <= i <= n,
                forall|j: int| 0 <= j < i ==> is_keepable(#[trigger] v@[j]),
                stop ==> i < n && !is_keepable(v@[i as int]),
            decreases n - i + if stop {
                0int
            } else {
                1int
            },
        {
            let c = v.get_char(i);
            if permissive_char(c) || c == ';' {
                i += 1;
            } else {
                stop = true;
            }
        }
        proof {
            lemma_truncate_prefix(v@, i as int);
        }
        let t = v.substring_char(0, i);
        assert(t@ == truncate_keepable(v@));

        // Strip trailing slashes.
        let mut j: usize = i;
        while j > 0 && t.get_char(j - 1) == '/'
            invariant
                t@.len() == i,
                0 <= j <= i,
                forall|k: int| j <= k < t@.len() ==> #[trigger] t@[k] == '/',
            decreases j,
        {
            j -= 1;
        }
        proof {
            lemma_trim_suffix(t@, j as int);
        }
        let u = t.substring_char(0, j);
        assert(u@ == trim_slash(truncate_keepable(v@)));

        // Percent-encode `;`.
        let m = j;
        let mut out = String::new();
        let mut chunk: usize = 0;
        let mut k: usize = 0;
        proof {
            reveal_strlit("%3B");
        }
        while k < m
            invariant
                m == u@.len(),
                0 <= chunk <= k <= m,
                out@ == encode_semi(u@.subrange(0, chunk as int)),
                forall|t2: int| chunk <= t2 < k ==> #[trigger] u@[t2] != ';',
                "%3B"@ == seq!['%', '3', 'B'],
            decreases m - k,
        {
            if u.get_char(k) == ';' {
                let piece = u.substring_char(chunk, k);
                out.append(piece);
                out.append("%3B");
                proof {
                    let a = u@.subrange(0, chunk as int);
                    let b = u@.subrange(chunk as int, k as int);
                    lemma_encode_concat(a, b);
                    lemma_encode_clean(b);
                    lemma_encode_concat(a + b, seq![';']);
                    assert(a + b =~= u@.subrange(0, k as int));
                    assert(u@.subrange(0, k as int) + seq![';'] =~= u@.subrange(0, k + 1));
                    assert(seq![';'].drop_first() =~= Seq::<char>::empty());
                    assert(encode_semi(Seq::<char>::empty()) =~= Seq::<char>::empty());
                    assert(encode_semi(seq![';']) =~= seq!['%', '3', 'B']);
                }
                chunk = k + 1;
            }
            k += 1;
        }
        let piece = u.substring_char(chunk, m);
        out.append(piece);
        proof {
            let a = u@.subrange(0, chunk as int);
            let b = u@.subrange(chunk as int, m as int);
            lemma_encode_concat(a, b);
            lemma_encode_clean(b);
            assert(a + b =~= u@);
        }
        assert(out@ == canon_of(v@));
        proof {
            assert forall|q: int| 0 <= q < u@.len() implies is_keepable(#[trigger] u@[q]) by {
                assert(u@[q] == t@[q]);
                assert(t@[q] == v@[q]);
            }
            lemma_encode_props(u@);
        }

        // Demand a marker with a nonempty scheme.
        proof {
            reveal_strlit("://");
            assert("://"@ =~= marker());
        }
        match str_find(out.as_str(), "://") {
            None => {
                proof {
                    lemma_find_marker_none(out@);
                }
                Err(UrlError::NoProtocol)
            },
            Some(p) => {
                proof {
                    lemma_find_marker_first(out@, p as int);
                }
                if p == 0 {
                    Err(UrlError::NotValidUrl)
                } else {
                    proof {
                        assert(out@.len() >= 3);
                        assert(u@.len() > 0);
                        assert(out@.last() != '/');
                    }
                    Ok(Url { url: out, marker_pos: p })
                }
            },
        }
    }
}

/// First index at or after `i` holding a slash, or the length if none does.
pub open spec fn find_slash_from(s: Seq<char>, i: int) -> int
    decreases s.len() - i,
        when 0 <= i <= s.len()
{
    if i >= s.len() {
        i
    } else if s[i] == '/' {
        i
    } else {
        find_slash_from(s, i + 1)
    }
}

/// End of the host segment: the first slash after the marker.
pub open spec fn host_end(v: Seq<char>) -> int {
    find_slash_from(v, find_marker(v) + 3)
}

/// The scheme characters, in front of the marker.
pub open spec fn scheme_of(v: Seq<char>) -> Seq<char> {
    v.subrange(0, find_marker(v))
}

/// The host characters, between the marker and the next slash.
pub open spec fn host_of(v: Seq<char>) -> Seq<char> {
    v.subrange(find_marker(v) + 3, host_end(v))
}

/// `scheme://host/`.
pub open spec fn root_of(v: Seq<char>) -> Seq<char> {
    v.subrange(0, host_end(v)) + seq!['/']
}

/// Index after the last slash; the whole string counts as a file name when
/// it has no slash.
pub open spec fn file_start(v: Seq<char>) -> int
    decreases v.len(),
{
    if v.len() == 0 {
        0
    } else if v.last() == '/' {
        v.len() as int
    } else {
        file_start(v.drop_last())
    }
}

/// The terminal path segment of the URL.
pub open spec fn file_name_of(v: Seq<char>) -> Seq<char> {
    v.subrange(file_start(v), v.len() as int)
}

/// One step of the 64-bit FNV-1a fold.
pub open spec fn fnv_step(h: u64, c: char) -> u64 {
    (((h ^ (c as u64)) as nat * 0x100000001b3) % 0x1_0000_0000_0000_0000) as u64
}

/// 64-bit FNV-1a over the characters of `s`, starting from `h`.
pub open spec fn fnv_from(h: u64, s: Seq<char>) -> u64
    decreases s.len(),
{
    if s.len() == 0 {
        h
    } else {
        fnv_from(fnv_step(h, s[0]), s.drop_first())
    }
}

/// The stable 64-bit hash of a URL string.
pub open spec fn hash_of(v: Seq<char>) -> u64 {
    fnv_from(0xcbf29ce484222325, v)
}

/// Does `s` start with `p`?
pub open spec fn starts_with_seq(s: Seq<char>, p: Seq<char>) -> bool {
    p.len() <= s.len() && s.subrange(0, p.len() as int) == p
}

/// Does `s` end with `p`?
pub open spec fn ends_with_seq(s: Seq<char>, p: Seq<char>) -> bool {
    p.len() <= s.len() && s.subrange(s.len() - p.len(), s.len() as int) == p
}

/// The extension after the last dot, folded to lower case; the whole string
/// when there is no dot.
pub open spec fn ext_of(v: Seq<char>) -> Seq<char> {
    lower_seq(v.subrange(ext_start(v), v.len() as int))
}

/// Index after the last dot, or zero without one.
pub open spec fn ext_start(v: Seq<char>) -> int
    decreases v.len(),
{
    if v.len() == 0 {
        0
    } else if v.last() == '.' {
        v.len() as int
    } else {
        ext_start(v.drop_last())
    }
}

/// Extensions that name media, styles, scripts or archives: such URLs are
/// recorded but never fetched.
pub open spec fn is_media_ext(e: Seq<char>) -> bool {
    ||| e == "png"@
    ||| e == "jpg"@
    ||| e == "jpeg"@
    ||| e == "gif"@
    ||| e == "svg"@
    ||| e == "ico"@
    ||| e == "webp"@
    ||| e == "bmp"@
    ||| e == "tiff"@
    ||| e == "tif"@
    ||| e == "psd"@
    ||| e == "raw"@
    ||| e == "css"@
    ||| e == "js"@
    ||| e == "zip"@
    ||| e == "tar"@
    ||| e == "jar"@
    ||| e == "webm"@
}

/// Segment starting at the suffix position `p`: the characters after the
/// last occurrence of `c`, as exec search reports it, agree with the
/// recursive suffix spec.
proof fn lemma_suffix_start(v: Seq<char>, c: char, p: int, i: int)
    requires
        0 <= i < v.len(),
        v[i] == c,
        forall|j: int| i < j < v.len() ==> v[j] != c,
        p == i + 1,
    ensures
        c == '/' ==> file_start(v) == p,
        c == '.' ==> ext_start(v) == p,
    decreases v.len(),
{
    if i == v.len() - 1 {
        assert(v.last() == c);
    } else {
        assert(v.last() != c);
        lemma_suffix_start(v.drop_last(), c, p, i);
    }
}

/// Without an occurrence of `c`, the suffix specs report position zero.
proof fn lemma_suffix_none(v: Seq<char>, c: char)
    requires
        forall|j: int| 0 <= j < v.len() ==> v[j] != c,
    ensures
        c == '/' ==> file_start(v) == 0,
        c == '.' ==> ext_start(v) == 0,
    decreases v.len(),
{
    if v.len() > 0 {
        lemma_suffix_none(v.drop_last(), c);
    }
}

/// The last dot of `v` at `i` puts the extension start right after it.
pub proof fn lemma_ext_start(v: Seq<char>, i: int)
    requires
        0 <= i < v.len(),
        v[i] == '.',
        forall|j: int| i < j < v.len() ==> v[j] != '.',
    ensures
        ext_start(v) == i + 1,
{
    lemma_suffix_start(v, '.', i + 1, i);
}

/// Without a dot, the whole of `v` counts as its extension.
pub proof fn lemma_ext_start_none(v: Seq<char>)
    requires
        forall|j: int| 0 <= j < v.len() ==> v[j] != '.',
    ensures
        ext_start(v) == 0,
{
    lemma_suffix_none(v, '.');
}

/// A nonnegative `find_marker` result is a real marker occurrence.
proof fn lemma_find_marker_matches(s: Seq<char>)
    requires
        find_marker(s) >= 0,
    ensures
        find_marker(s) + 3 <= s.len(),
        s[find_marker(s)] == ':',
        s[find_marker(s) + 1] == '/',
        s[find_marker(s) + 2] == '/',
    decreases s.len(),
{
    if s.len() >= 3 && !(s[0] == ':' && s[1] == '/' && s[2] == '/') {
        lemma_find_marker_matches(s.drop_first());
    }
}

/// `find_slash_from` stays in range and finds the first slash.
proof fn lemma_find_slash_props(s: Seq<char>, i: int)
    requires
        0 <= i <= s.len(),
    ensures
        i <= find_slash_from(s, i) <= s.len(),
        find_slash_from(s, i) < s.len() ==> s[find_slash_from(s, i)] == '/',
        forall|j: int| i <= j < find_slash_from(s, i) ==> s[j] != '/',
    decreases s.len() - i,
{
    if i < s.len() && s[i] != '/' {
        lemma_find_slash_props(s, i + 1);
    }
}

impl Url {
    /// The normalized URL string.
    pub fn to_string(&self) -> (r: String)
        ensures
            r@ == self@,
    {
        self.url.clone()
    }

    /// The stable 64-bit hash of the URL string.
    pub fn get_hash(&self) -> (r: u64)
        ensures
            r == hash_of(self@),
    {
        let n = self.url.as_str().unicode_len();
        let mut h: u64 = 0xcbf29ce484222325;
        proof {
            assert(self@.subrange(0, n as int) =~= self@);
        }
        let mut i: usize = 0;
        while i < n
            invariant
                n == self@.len(),
                0 <= i <= n,
                fnv_from(h, self@.subrange(i as int, n as int)) == hash_of(self@),
            decreases n - i,
        {
            let c = self.url.as_str().get_char(i);
            proof {
                let rest = self@.subrange(i as int, n as int);
                assert(rest[0] == self@[i as int]);
                assert(rest.drop_first() =~= self@.subrange(i + 1, n as int));
            }
            h = (h ^ (c as u64)).wrapping_mul(0x100000001b3);
            i += 1;
        }
        proof {
            assert(self@.subrange(n as int, n as int) =~= Seq::<char>::empty());
        }
        h
    }

    /// Is the URL on the operator's black list?
    pub fn is_black_listed(&self) -> (r: bool)
        ensures
            r == (starts_with_seq(
                self@,
                "https://catalogue.insa-rouen.fr/cgi-bin/koha/opac-search.pl"@,
            ) || starts_with_seq(self@, "https://qualite.insa-rouen.fr"@)),
    {
        str_starts_with(
            self.url.as_str(),
            "https://catalogue.insa-rouen.fr/cgi-bin/koha/opac-search.pl",
        ) || str_starts_with(self.url.as_str(), "https://qualite.insa-rouen.fr")
    }

    /// Does the extension after the last dot name a media file?
    pub fn is_media(&self) -> (r: bool)
        ensures
            r == is_media_ext(ext_of(self@)),
    {
        let n = self.url.as_str().unicode_len();
        let start: usize = match find_last_char(self.url.as_str(), '.') {
            Some(i) => {
                proof {
                    lemma_suffix_start(self@, '.', i + 1, i as int);
                }
                i + 1
            },
            None => {
                proof {
                    lemma_suffix_none(self@, '.');
                }
                0
            },
        };
        range_lower_eq(self.url.as_str(), start, n, "png") || range_lower_eq(
            self.url.as_str(),
            start,
            n,
            "jpg",
        ) || range_lower_eq(self.url.as_str(), start, n, "jpeg") || range_lower_eq(
            self.url.as_str(),
            start,
            n,
            "gif",
        ) || range_lower_eq(self.url.as_str(), start, n, "svg") || range_lower_eq(
            self.url.as_str(),
            start,
            n,
            "ico",
        ) || range_lower_eq(self.url.as_str(), start, n, "webp") || range_lower_eq(
            self.url.as_str(),
            start,
            n,
            "bmp",
        ) || range_lower_eq(self.url.as_str(), start, n, "tiff") || range_lower_eq(
            self.url.as_str(),
            start,
            n,
            "tif",
        ) || range_lower_eq(self.url.as_str(), start, n, "psd") || range_lower_eq(
            self.url.as_str(),
            start,
            n,
            "raw",
        ) || range_lower_eq(self.url.as_str(), start, n, "css") || range_lower_eq(
            self.url.as_str(),
            start,
            n,
            "js",
        ) || range_lower_eq(self.url.as_str(), start, n, "zip") || range_lower_eq(
            self.url.as_str(),
            start,
            n,
            "tar",
        ) || range_lower_eq(self.url.as_str(), start, n, "jar") || range_lower_eq(
            self.url.as_str(),
            start,
            n,
            "webm",
        )
    }

    /// Is the URL on the crawl's allowed host?
    pub fn is_allowed(&self) -> (r: bool)
        ensures
            r == contains_seq(self@, "insa-rouen.fr"@),
    {
        str_contains(self.url.as_str(), "insa-rouen.fr")
    }

    /// Same test under the name the older prototype used.
    pub fn is_insa(&self) -> (r: bool)
        ensures
            r == contains_seq(self@, "insa-rouen.fr"@),
    {
        self.is_allowed()
    }

    /// Does the URL point at the Central Authentication Service?
    pub fn is_cas(&self) -> (r: bool)
        ensures
            r == contains_seq(self@, "://cas.insa-rouen.fr"@),
    {
        str_contains(self.url.as_str(), "://cas.insa-rouen.fr")
    }

    /// The scheme in front of the `://` marker.
    pub fn get_uri_scheme(&self) -> (r: UriScheme)
        ensures
            r@ == scheme_spec(scheme_of(self@)),
    {
        proof {
            use_type_invariant(&*self);
            lemma_find_marker_matches(self@);
        }
        let scheme = self.url.as_str().substring_char(0, self.marker_pos);
        UriScheme::from_name(scheme)
    }

    /// The host between the marker and the following slash.
    pub fn get_host(&self) -> (r: &str)
        ensures
            r@ == host_of(self@),
    {
        proof {
            use_type_invariant(&*self);
            lemma_find_marker_matches(self@);
            lemma_find_slash_props(self@, self.marker_pos + 3);
        }
        let n = self.url.as_str().unicode_len();
        let mut e: usize = self.marker_pos + 3;
        while e < n && self.url.as_str().get_char(e) != '/'
            invariant
                n == self@.len(),
                self.marker_pos + 3 <= e <= n,
                forall|j: int| self.marker_pos + 3 <= j < e ==> self@[j] != '/',
                e == self@.len() || self@[e as int] == '/' || e < n,
            decreases n - e,
        {
            e += 1;
        }
        proof {
            lemma_find_slash_first(self@, self.marker_pos + 3, e as int);
        }
        self.url.as_str().substring_char(self.marker_pos + 3, e)
    }

    /// `scheme://host/`.
    pub fn get_root(&self) -> (r: String)
        ensures
            r@ == root_of(self@),
    {
        proof {
            use_type_invariant(&*self);
            lemma_find_marker_matches(self@);
            lemma_find_slash_props(self@, self.marker_pos + 3);
        }
        let n = self.url.as_str().unicode_len();
        let mut e: usize = self.marker_pos + 3;
        while e < n && self.url.as_str().get_char(e) != '/'
            invariant
                n == self@.len(),
                self.marker_pos + 3 <= e <= n,
                forall|j: int| self.marker_pos + 3 <= j < e ==> self@[j] != '/',
            decreases n - e,
        {
            e += 1;
        }
        proof {
            lemma_find_slash_first(self@, self.marker_pos + 3, e as int);
            reveal_strlit("/");
        }
        let mut r = self.url.as_str().substring_char(0, e).to_owned();
        r.append("/");
        proof {
            assert("/"@ =~= seq!['/']);
        }
        r
    }

    /// Does the URL string contain `pat`?
    pub fn contains(&self, pat: &str) -> (r: bool)
        ensures
            r == contains_seq(self@, pat@),
    {
        str_contains(self.url.as_str(), pat)
    }

    /// Does the URL string end with `pat`?
    pub fn ends_with(&self, pat: &str) -> (r: bool)
        ensures
            r == ends_with_seq(self@, pat@),
    {
        str_ends_with(self.url.as_str(), pat)
    }

    /// The terminal path segment, as a file name hint.
    pub fn get_file_name(&self) -> (r: String)
        ensures
            r@ == file_name_of(self@),
    {
        let n = self.url.as_str().unicode_len();
        let start: usize = match find_last_char(self.url.as_str(), '/') {
            Some(i) => {
                proof {
                    lemma_suffix_start(self@, '/', i + 1, i as int);
                }
                i + 1
            },
            None => {
                proof {
                    lemma_suffix_none(self@, '/');
                }
                0
            },
        };
        self.url.as_str().substring_char(start, n).to_owned()
    }
}

/// Rendering of a list of URL views: each one as ` url;`.
pub open spec fn urls_string(s: Seq<Seq<char>>) -> Seq<char>
    decreases s.len(),
{
    if s.len() == 0 {
        Seq::empty()
    } else {
        urls_string(s.drop_last()) + seq![' '] + s.last() + seq![';']
    }
}

/// Rendering a collection of URLs into one string.
pub trait HackTraitVecUrlString {
    /// The views of the URLs held.
    spec fn url_views(&self) -> Seq<Seq<char>>;

    /// Render every URL as ` url;`, concatenated.
    fn to_string(&self) -> (r: String)
        ensures
            r@ == urls_string(self.url_views()),
    ;
}

impl HackTraitVecUrlString for Vec<Url> {
    open spec fn url_views(&self) -> Seq<Seq<char>> {
        views_of(self@)
    }

    fn to_string(&self) -> (r: String)
        ensures
            r@ == urls_string(views_of(self@)),
    {
        let mut out = String::new();
        proof {
            reveal_strlit(" ");
            reveal_strlit(";");
            assert(views_of(self@).take(0) =~= Seq::<Seq<char>>::empty());
        }
        let mut k: usize = 0;
        while k < self.len()
            invariant
                0 <= k <= self@.len(),
                " "@ == seq![' '],
                ";"@ == seq![';'],
                out@ == urls_string(views_of(self@).take(k as int)),
            decreases self@.len() - k,
        {
            out.append(" ");
            let piece = self[k].to_string();
            out.append(piece.as_str());
            out.append(";");
            proof {
                let vs = views_of(self@);
                assert(vs.take(k + 1).drop_last() =~= vs.take(k as int));
                assert(vs.take(k + 1).last() == vs[k as int]);
                assert(out@ =~= urls_string(vs.take(k as int)) + seq![' '] + vs[k as int] + seq![
                    ';',
                ]);
            }
            k += 1;
        }
        proof {
            assert(views_of(self@).take(self@.len() as int) =~= views_of(self@));
        }
        out
    }
}

// ------------------------------------------------------------------
// Laws of parsing.
// ------------------------------------------------------------------
/// Truncation keeps only keepable characters and is a prefix of its input.
proof fn lemma_truncate_chars(s: Seq<char>)
    ensures
        truncate_keepable(s).len() <= s.len(),
        forall|j: int| 0 <= j < truncate_keepable(s).len() ==> #[trigger] truncate_keepable(s)[j]
            == s[j] && is_keepable(s[j]),
    decreases s.len(),
{
    if s.len() > 0 && is_keepable(s[0]) {
        lemma_truncate_chars(s.drop_first());
    }
}

/// Trimming is a prefix of its input and leaves no trailing slash.
proof fn lemma_trim_chars(t: Seq<char>)
    ensures
        trim_slash(t).len() <= t.len(),
        forall|j: int| 0 <= j < trim_slash(t).len() ==> #[trigger] trim_slash(t)[j] == t[j],
        trim_slash(t).len() > 0 ==> trim_slash(t).last() != '/',
    decreases t.len(),
{
    if t.len() > 0 && t.last() == '/' {
        lemma_trim_chars(t.drop_last());
    }
}

/// A parse that succeeds yields a well-formed URL string.
pub proof fn lemma_canon_wf(s: Seq<char>)
    requires
        parse_spec(s) is Ok,
    ensures
        wf_url(canon_of(s)),
{
    let t = truncate_keepable(s);
    let u = trim_slash(t);
    let v = canon_of(s);
    lemma_truncate_chars(s);
    lemma_trim_chars(t);
    assert(forall|j: int| 0 <= j < u.len() ==> is_keepable(#[trigger] u[j]));
    lemma_encode_props(u);
    lemma_find_marker_matches(v);
    if u.len() > 0 {
        assert(v.last() != '/');
    }
}

/// The canon of a well-formed URL string is the string itself: parsing what
/// a URL prints returns the same URL.
pub proof fn lemma_wf_parse_identity(v: Seq<char>)
    requires
        wf_url(v),
    ensures
        parse_spec(v) == Ok::<Seq<char>, UrlError>(v),
{
    assert(forall|j: int| 0 <= j < v.len() ==> is_keepable(#[trigger] v[j]));
    lemma_truncate_prefix(v, v.len() as int);
    assert(v.subrange(0, v.len() as int) =~= v);
    lemma_trim_suffix(v, v.len() as int);
    assert(forall|j: int| 0 <= j < v.len() ==> #[trigger] v[j] != ';');
    lemma_encode_clean(v);
}

/// Re-parsing the string a successful parse produced yields it unchanged.
pub proof fn lemma_parse_idempotent(s: Seq<char>)
    requires
        parse_spec(s) is Ok,
    ensures
        parse_spec(parse_spec(s)->Ok_0) == parse_spec(s),
{
    lemma_canon_wf(s);
    lemma_wf_parse_identity(canon_of(s));
}

/// The head of an encoded sequence.
proof fn lemma_encode_head(a: Seq<char>)
    ensures
        (encode_semi(a).len() == 0) == (a.len() == 0),
        a.len() > 0 ==> encode_semi(a)[0] == (if a[0] == ';' {
            '%'
        } else {
            a[0]
        }),
{
    if a.len() > 0 {
        if a[0] == ';' {
            assert(encode_semi(a) == seq!['%', '3', 'B'] + encode_semi(a.drop_first()));
        } else {
            assert(encode_semi(a) == seq![a[0]] + encode_semi(a.drop_first()));
        }
    }
}

/// Encoding cannot conjure a `://` marker out of a marker-free sequence.
proof fn lemma_encode_no_marker(a: Seq<char>)
    requires
        forall|j: int| !matches_at(a, j, marker()),
    ensures
        forall|j: int| !matches_at(encode_semi(a), j, marker()),
    decreases a.len(),
{
    if a.len() == 0 {
        return ;
    }
    let e = encode_semi(a);
    let a1 = a.drop_first();
    assert forall|j: int| !matches_at(a1, j, marker()) by {
        if matches_at(a1, j, marker()) {
            assert(a1.subrange(j, j + 3) =~= a.subrange(j + 1, j + 4));
            assert(matches_at(a, j + 1, marker()));
        }
    }
    lemma_encode_no_marker(a1);
    let e1 = encode_semi(a1);
    let head = if a[0] == ';' {
        seq!['%', '3', 'B']
    } else {
        seq![a[0]]
    };
    assert(e == head + e1);
    assert forall|j: int| !matches_at(e, j, marker()) by {
        if matches_at(e, j, marker()) {
            assert(e.subrange(j, j + 3)[0] == e[j]);
            assert(e.subrange(j, j + 3)[1] == e[j + 1]);
            assert(e.subrange(j, j + 3)[2] == e[j + 2]);
            assert(e[j] == ':' && e[j + 1] == '/' && e[j + 2] == '/');
            if a[0] == ';' {
                // The three inserted characters are not marker characters,
                // so the match sits wholly inside the encoded tail.
                assert(j >= 3);
                assert(e1.subrange(j - 3, j) =~= e.subrange(j, j + 3));
                assert(matches_at(e1, j - 3, marker()));
            } else {
                if j == 0 {
                    // The match would need the unencoded sequence to start `://`.
                    assert(a[0] == ':');
                    assert(e1.len() >= 2);
                    lemma_encode_head(a1);
                    assert(e[1] == e1[0]);
                    assert(a1.len() > 0);
                    assert(a1[0] == '/');
                    let a2 = a1.drop_first();
                    let e2 = encode_semi(a2);
                    assert(e1 == seq![a1[0]] + e2);
                    assert(e[2] == e1[1]);
                    assert(e1[1] == e2[0]);
                    lemma_encode_head(a2);
                    assert(a2.len() > 0);
                    assert(a2[0] == '/');
                    assert(a.subrange(0, 3) =~= marker());
                    assert(matches_at(a, 0, marker()));
                } else {
                    assert(e1.subrange(j - 1, j + 2) =~= e.subrange(j, j + 3));
                    assert(matches_at(e1, j - 1, marker()));
                }
            }
        }
    }
}

/// An input without `://` is rejected as having no protocol.
pub proof fn lemma_no_protocol(s: Seq<char>)
    requires
        !contains_seq(s, marker()),
    ensures
        parse_spec(s) == Err::<Seq<char>, UrlError>(UrlError::NoProtocol),
{
    let t = truncate_keepable(s);
    let u = trim_slash(t);
    let v = canon_of(s);
    lemma_truncate_chars(s);
    lemma_trim_chars(t);
    assert forall|j: int| !matches_at(u, j, marker()) by {
        if matches_at(u, j, marker()) {
            assert(u.subrange(j, j + 3)[0] == u[j]);
            assert(u.subrange(j, j + 3)[1] == u[j + 1]);
            assert(u.subrange(j, j + 3)[2] == u[j + 2]);
            assert(s[j] == ':' && s[j + 1] == '/' && s[j + 2] == '/');
            assert(s.subrange(j, j + 3) =~= marker());
            assert(matches_at(s, j, marker()));
        }
    }
    lemma_encode_no_marker(u);
    lemma_find_marker_none(v);
}

/// An input that opens with `://` never parses successfully; when enough of
/// it survives truncation and trimming, the verdict is an invalid URL with
/// an empty scheme.
pub proof fn lemma_empty_scheme_rejected(s: Seq<char>)
    requires
        starts_with_seq(s, marker()),
    ensures
        parse_spec(s) is Err,
        trim_slash(truncate_keepable(s)).len() >= 3 ==> parse_spec(s) == Err::<
            Seq<char>,
            UrlError,
        >(UrlError::NotValidUrl),
{
    let t = truncate_keepable(s);
    let u = trim_slash(t);
    let v = canon_of(s);
    assert(s.subrange(0, 3)[0] == s[0]);
    assert(s.subrange(0, 3)[1] == s[1]);
    assert(s.subrange(0, 3)[2] == s[2]);
    lemma_truncate_chars(s);
    lemma_trim_chars(t);
    assert(is_keepable(s[0]) && is_keepable(s[1]) && is_keepable(s[2]));
    lemma_truncate_prefix_min(s);
    if u.len() >= 3 {
        assert(u[0] == ':' && u[1] == '/' && u[2] == '/');
        let u1 = u.drop_first();
        let u2 = u1.drop_first();
        assert(u1[0] == u[1] && u1.len() == u.len() - 1);
        assert(u2[0] == u[2] && u2.len() == u.len() - 2);
        assert(encode_semi(u) == seq![u[0]] + encode_semi(u1));
        assert(encode_semi(u1) == seq![u1[0]] + encode_semi(u2));
        assert(encode_semi(u2) == seq![u2[0]] + encode_semi(u2.drop_first()));
        assert(v[0] == ':' && v[1] == '/' && v[2] == '/');
        assert(find_marker(v) == 0);
    } else {
        // At most two characters survive; no marker fits in them.
        assert(forall|j: int| 0 <= j < u.len() ==> #[trigger] u[j] != ';');
        lemma_encode_clean(u);
        assert(v.len() < 3);
        assert(find_marker(v) == -1);
    }
}

/// When an input starts with three keepable characters, at least three
/// survive truncation.
proof fn lemma_truncate_prefix_min(s: Seq<char>)
    requires
        s.len() >= 3,
        is_keepable(s[0]),
        is_keepable(s[1]),
        is_keepable(s[2]),
    ensures
        truncate_keepable(s).len() >= 3 || truncate_keepable(s).len() == s.len(),
{
    let s1 = s.drop_first();
    let s2 = s1.drop_first();
    assert(truncate_keepable(s) == seq![s[0]] + truncate_keepable(s1));
    assert(s1[0] == s[1] && s2[0] == s[2]);
    assert(truncate_keepable(s1) == seq![s1[0]] + truncate_keepable(s2));
    assert(truncate_keepable(s2) == seq![s2[0]] + truncate_keepable(s2.drop_first()));
}

/// A `;` that survives truncation and trimming shows up percent-encoded in
/// the parsed URL, which itself holds no `;` at all.
pub proof fn lemma_semicolon_encoded(s: Seq<char>, i: int)
    requires
        parse_spec(s) is Ok,
        0 <= i < trim_slash(truncate_keepable(s)).len(),
        trim_slash(truncate_keepable(s))[i] == ';',
    ensures
        contains_seq(parse_spec(s)->Ok_0, seq!['%', '3', 'B']),
        forall|j: int| 0 <= j < (parse_spec(s)->Ok_0).len() ==> (parse_spec(s)->Ok_0)[j] != ';',
{
    let u = trim_slash(truncate_keepable(s));
    lemma_canon_wf(s);
    lemma_encode_semi_present(u, i);
}

/// Encoding a sequence holding `;` at `i` produces an occurrence of `%3B`.
proof fn lemma_encode_semi_present(a: Seq<char>, i: int)
    requires
        0 <= i < a.len(),
        a[i] == ';',
    ensures
        contains_seq(encode_semi(a), seq!['%', '3', 'B']),
    decreases a.len(),
{
    let e = encode_semi(a);
    if i == 0 {
        assert(e == seq!['%', '3', 'B'] + encode_semi(a.drop_first()));
        assert(e.subrange(0, 3) =~= seq!['%', '3', 'B']);
        assert(matches_at(e, 0, seq!['%', '3', 'B']));
    } else {
        let a1 = a.drop_first();
        lemma_encode_semi_present(a1, i - 1);
        let e1 = encode_semi(a1);
        let j = choose|j: int| matches_at(e1, j, seq!['%', '3', 'B']);
        let head = if a[0] == ';' {
            seq!['%', '3', 'B']
        } else {
            seq![a[0]]
        };
        assert(e == head + e1);
        let h = head.len() as int;
        assert(e.subrange(j + h, j + h + 3) =~= e1.subrange(j, j + 3));
        assert(matches_at(e, j + h, seq!['%', '3', 'B']));
    }
}

/// An exec search that stopped at `e` found `find_slash_from(s, i)`.
proof fn lemma_find_slash_first(s: Seq<char>, i: int, e: int)
    requires
        0 <= i <= e <= s.len(),
        forall|j: int| i <= j < e ==> s[j] != '/',
        e < s.len() ==> s[e] == '/',
    ensures
        find_slash_from(s, i) == e,
    decreases e - i,
{
    if i < e {
        lemma_find_slash_first(s, i + 1, e);
    }
}

// ------------------------------------------------------------------
// The link extractor.
// ------------------------------------------------------------------
/// The views of a sequence of URLs.
pub open spec fn views_of(s: Seq<Url>) -> Seq<Seq<char>> {
    s.map_values(|u: Url| u@)
}

/// State of the linear scan: the start of the candidate span, whether the
/// span holds a `://` marker and where, whether it already holds a `?`, and
/// the URLs emitted so far.
pub struct ScanState {
    pub start: int,
    pub pm: bool,
    pub pm_pos: int,
    pub hgp: bool,
    pub links: Seq<Seq<char>>,
}

/// Append `u` unless it is already present.
pub open spec fn insert_link(links: Seq<Seq<char>>, u: Seq<char>) -> Seq<Seq<char>> {
    if links.contains(u) {
        links
    } else {
        links.push(u)
    }
}

/// Is the span starting at `start` introduced by `src="` or `href="`?
pub open spec fn attr_prefixed(c: Seq<char>, start: int) -> bool {
    ||| (start >= 5 && c.subrange(start - 5, start) == "src=\""@)
    ||| (start >= 6 && c.subrange(start - 6, start) == "href=\""@)
}

/// Should the candidate be resolved against the base URL: an attribute
/// prefix introduces it and any marker sits well inside the span.
pub open spec fn attr_ok(c: Seq<char>, start: int, pm: bool, pm_pos: int) -> bool {
    attr_prefixed(c, start) && (pm_pos >= start + 6 || !pm)
}

/// One scan step over the character at position `i`.
pub open spec fn scan_step(
    c: Seq<char>,
    root: Seq<char>,
    full: Seq<char>,
    i: int,
    st: ScanState,
) -> ScanState {
    let ch = c[i];
    if is_permissive(ch) && !(ch == '?' && st.hgp) {
        let hgp2 = if ch == '?' {
            true
        } else {
            st.hgp
        };
        if !st.pm && i >= 2 && c.subrange(i - 2, i + 1) == marker() {
            ScanState { pm: true, pm_pos: i - 2, hgp: hgp2, ..st }
        } else {
            ScanState { hgp: hgp2, ..st }
        }
    } else {
        let e = if ch == '?' {
            if i >= 1 {
                i - 1
            } else {
                0
            }
        } else {
            i
        };
        let ok = st.start <= e;
        let rewrite = ok && attr_ok(c, st.start, st.pm, st.pm_pos);
        let raw = c.subrange(st.start, e + 1);
        let cand = if rewrite {
            if raw[0] == '/' {
                root + raw.drop_first()
            } else {
                full + raw
            }
        } else {
            raw
        };
        let links2 = if ok && (st.pm || rewrite) && parse_spec(cand) is Ok {
            insert_link(st.links, parse_spec(cand)->Ok_0)
        } else {
            st.links
        };
        ScanState { start: e + 1, pm: false, pm_pos: st.pm_pos, hgp: false, links: links2 }
    }
}

/// The scan state after the first `i` characters.
pub open spec fn scan(c: Seq<char>, root: Seq<char>, full: Seq<char>, i: int) -> ScanState
    decreases i,
        when i >= 0
{
    if i <= 0 {
        ScanState { start: 0, pm: false, pm_pos: 0, hgp: false, links: Seq::empty() }
    } else {
        scan_step(c, root, full, i - 1, scan(c, root, full, i - 1))
    }
}

/// Every URL the scan of `c` against the base with root `root` and full
/// form `full` emits, in emission order and without duplicates.
pub open spec fn link_seq(c: Seq<char>, root: Seq<char>, full: Seq<char>) -> Seq<Seq<char>> {
    scan(c, root, full, c.len() as int).links
}

/// Is a URL with the view `u` among `v`?
fn contains_url(v: &Vec<Url>, u: &Url) -> (r: bool)
    ensures
        r == views_of(v@).contains(u@),
{
    let mut k: usize = 0;
    while k < v.len()
        invariant
            0 <= k <= v@.len(),
            forall|t: int| 0 <= t < k ==> views_of(v@)[t] != u@,
        decreases v@.len() - k,
    {
        if u.eq(&v[k]) {
            assert(views_of(v@)[k as int] == u@);
            return true;
        }
        k += 1;
    }
    false
}

/// Scan `content` for URLs, absolute or attribute-introduced relative ones,
/// resolving the latter against `url`.
pub fn get_links(content: &str, url: Url) -> (r: Vec<Url>)
    ensures
        views_of(r@) == link_seq(content@, root_of(url@), url@),
{
    let root = url.get_root();
    let full = url.to_string();
    let n = content.unicode_len();
    let mut links: Vec<Url> = Vec::new();
    let mut start: usize = 0;
    let mut pm: bool = false;
    let mut pm_pos: usize = 0;
    let mut hgp: bool = false;
    proof {
        reveal_strlit("://");
        reveal_strlit("src=\"");
        reveal_strlit("href=\"");
        assert("://"@ =~= marker());
        assert(views_of(links@) =~= Seq::<Seq<char>>::empty());
    }
    let mut i: usize = 0;
    while i < n
        invariant
            n == content@.len(),
            root@ == root_of(url@),
            full@ == url@,
            0 <= i <= n,
            start <= i,
            "://"@ == marker(),
            "src=\""@.len() == 5,
            "href=\""@.len() == 6,
            scan(content@, root@, full@, i as int) == (ScanState {
                start: start as int,
                pm: pm,
                pm_pos: pm_pos as int,
                hgp: hgp,
                links: views_of(links@),
            }),
        decreases n - i,
    {
        let ghost pre = ScanState {
            start: start as int,
            pm: pm,
            pm_pos: pm_pos as int,
            hgp: hgp,
            links: views_of(links@),
        };
        proof {
            assert(scan(content@, root@, full@, i + 1) == scan_step(
                content@,
                root@,
                full@,
                i as int,
                pre,
            ));
        }
        let c = content.get_char(i);
        if permissive_char(c) && !(c == '?' && hgp) {
            if c == '?' {
                hgp = true;
            }
            if !pm && i >= 2 {
                if str_matches_at(content, i - 2, "://") {
                    pm = true;
                    pm_pos = i - 2;
                    assert(content@.subrange(i - 2, i + 1) == marker());
                } else {
                    assert(content@.subrange(i - 2, i + 1) != marker());
                }
            }
        } else {
            let e: usize = if c == '?' {
                if i >= 1 {
                    i - 1
                } else {
                    0
                }
            } else {
                i
            };
            if start <= e {
                let src_ok = start >= 5 && str_matches_at(content, start - 5, "src=\"");
                let href_ok = start >= 6 && str_matches_at(content, start - 6, "href=\"");
                let pos_ok = (pm_pos >= 6 && pm_pos - 6 >= start) || !pm;
                let rewrite = (src_ok || href_ok) && pos_ok;
                assert(rewrite == attr_ok(content@, start as int, pm, pm_pos as int));
                if pm || rewrite {
                    let ghost raw = content@.subrange(start as int, e + 1);
                    let cand: String = if rewrite {
                        if content.get_char(start) == '/' {
                            let mut t = root.clone();
                            t.append(content.substring_char(start + 1, e + 1));
                            proof {
                                assert(raw.drop_first() =~= content@.subrange(start + 1, e + 1));
                            }
                            t
                        } else {
                            let mut t = full.clone();
                            t.append(content.substring_char(start, e + 1));
                            t
                        }
                    } else {
                        content.substring_char(start, e + 1).to_owned()
                    };
                    match Url::parse(cand.as_str()) {
                        Ok(u) => {
                            if !contains_url(&links, &u) {
                                let ghost old_links = links@;
                                links.push(u);
                                proof {
                                    assert(views_of(links@) =~= views_of(old_links).push(
                                        links@.last()@,
                                    ));
                                }
                            }
                        },
                        Err(_) => {},
                    }
                }
            }
            start = e + 1;
            pm = false;
            hgp = false;
        }
        i += 1;
        proof {
            assert(scan(content@, root@, full@, i as int) == (ScanState {
                start: start as int,
                pm: pm,
                pm_pos: pm_pos as int,
                hgp: hgp,
                links: views_of(links@),
            }));
        }
    }
    links
}

/// No two URLs the extractor emits are equal: link extraction produces a
/// set, and as a function of its input it yields the same set on every scan
/// of the same buffer.
pub proof fn lemma_links_distinct(c: Seq<char>, root: Seq<char>, full: Seq<char>)
    ensures
        forall|i: int, j: int|
            0 <= i < j < link_seq(c, root, full).len() ==> link_seq(c, root, full)[i] != link_seq(
                c,
                root,
                full,
            )[j],
{
    lemma_scan_distinct(c, root, full, c.len() as int);
}

/// Distinctness of the emitted links, over every scan prefix.
proof fn lemma_scan_distinct(c: Seq<char>, root: Seq<char>, full: Seq<char>, i: int)
    requires
        i >= 0,
    ensures
        forall|p: int, q: int|
            0 <= p < q < scan(c, root, full, i).links.len() ==> scan(c, root, full, i).links[p]
                != scan(c, root, full, i).links[q],
    decreases i,
{
    if i > 0 {
        lemma_scan_distinct(c, root, full, i - 1);
        let prev = scan(c, root, full, i - 1).links;
        let cur = scan(c, root, full, i).links;
        assert forall|p: int, q: int| 0 <= p < q < cur.len() implies cur[p] != cur[q] by {
            if cur != prev {
                // The step appended one absent element.
                assert(cur.len() == prev.len() + 1 ==> !prev.contains(cur.last()));
                if q == cur.len() - 1 && cur.len() == prev.len() + 1 {
                    assert(prev[p] == cur[p]);
                    assert(!prev.contains(cur[q]));
                }
            }
        }
    }
}

/// Without any occurrence of the marker, `find_marker` reports none.
proof fn lemma_find_marker_none(s: Seq<char>)
    requires
        forall|j: int| !matches_at(s, j, marker()),
    ensures
        find_marker(s) == -1,
    decreases s.len(),
{
    if s.len() >= 3 {
        if s[0] == ':' && s[1] == '/' && s[2] == '/' {
            assert(s.subrange(0, 3) =~= marker());
            assert(matches_at(s, 0, marker()));
        }
        assert forall|j: int| !matches_at(s.drop_first(), j, marker()) by {
            if matches_at(s.drop_first(), j, marker()) {
                assert(s.drop_first().subrange(j, j + 3) =~= s.subrange(j + 1, j + 4));
                assert(matches_at(s, j + 1, marker()));
            }
        }
        lemma_find_marker_none(s.drop_first());
    }
}

/// The first occurrence of the marker is what `find_marker` reports.
proof fn lemma_find_marker_first(s: Seq<char>, i: int)
    requires
        matches_at(s, i, marker()),
        forall|j: int| 0 <= j < i ==> !matches_at(s, j, marker()),
    ensures
        find_marker(s) == i,
    decreases s.len(),
{
    assert(s.subrange(i, i + 3)[0] == s[i]);
    assert(s.subrange(i, i + 3)[1] == s[i + 1]);
    assert(s.subrange(i, i + 3)[2] == s[i + 2]);
    if i == 0 {
        assert(find_marker(s) == 0);
    } else {
        if s[0] == ':' && s[1] == '/' && s[2] == '/' {
            assert(s.subrange(0, 3) =~= marker());
            assert(matches_at(s, 0, marker()));
        }
        assert(!(s[0] == ':' && s[1] == '/' && s[2] == '/'));
        assert(matches_at(s.drop_first(), i - 1, marker())) by {
            assert(s.drop_first().subrange(i - 1, i + 2) =~= s.subrange(i, i + 3));
        }
        assert forall|j: int| 0 <= j < i - 1 implies !matches_at(s.drop_first(), j, marker()) by {
            if matches_at(s.drop_first(), j, marker()) {
                assert(s.drop_first().subrange(j, j + 3) =~= s.subrange(j + 1, j + 4));
                assert(matches_at(s, j + 1, marker()));
            }
        }
        lemma_find_marker_first(s.drop_first(), i - 1);
    }
}

} // verus!
