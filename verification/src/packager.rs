//! The artifact packager's decisions: the monotonically increasing package
//! index, the rotation thresholds, the derived directory and archive names,
//! and the artifact file path a page's text is saved under.

use vstd::prelude::*;
use vstd::string::*;

use crate::link::Url;
use crate::text::dec_digits;
use crate::text::u64_to_string;

verus! {

/// Rotate once the directory passes 512 MiB or 1000 files.
pub const PACKAGE_MAX_BYTES: u64 = 536870912;

pub const PACKAGE_MAX_FILES: u64 = 1000;

/// The package directory for index `i`: `data/package-{i}`.
pub open spec fn package_dir_spec(i: int) -> Seq<char> {
    "data/package-"@ + dec_digits(i)
}

/// The archive a completed package is rolled into: `data/package-{i}.7z`.
pub open spec fn package_archive_spec(i: int) -> Seq<char> {
    package_dir_spec(i) + ".7z"@
}

/// The background packager's state: the index of the directory that
/// currently receives artifacts. Indices only ever grow, so a directory
/// that was rolled up is never written again.
pub struct Packager {
    index: u32,
}

impl View for Packager {
    type V = int;

    closed spec fn view(&self) -> int {
        self.index as int
    }
}

impl Packager {
    /// Start at package one.
    pub fn new() -> (r: Packager)
        ensures
            r@ == 1,
    {
        Packager { index: 1 }
    }

    /// The current package index.
    pub fn current_index(&self) -> (r: u32)
        ensures
            r == self@,
    {
        self.index
    }

    /// The directory new artifacts land in.
    pub fn current_dir(&self) -> (r: String)
        ensures
            r@ == package_dir_spec(self@),
    {
        package_dir_name(self.index)
    }

    /// Move to the next package; the index never decreases.
    pub fn rotate(&mut self)
        requires
            old(self)@ < u32::MAX,
        ensures
            final(self)@ == old(self)@ + 1,
    {
        self.index = self.index + 1;
    }
}

/// Must the current directory be rolled up: is it over the size or the
/// file-count threshold?
pub fn should_rotate(files: u64, bytes: u64) -> (r: bool)
    ensures
        r == (bytes > PACKAGE_MAX_BYTES || files > PACKAGE_MAX_FILES),
{
    bytes > PACKAGE_MAX_BYTES || files > PACKAGE_MAX_FILES
}

/// The directory name for package `i`.
pub fn package_dir_name(i: u32) -> (r: String)
    ensures
        r@ == package_dir_spec(i as int),
{
    let mut out = "data/package-".to_owned();
    let digits = u64_to_string(i as u64);
    out.append(digits.as_str());
    out
}

/// The archive name for package `i`.
pub fn package_archive_name(i: u32) -> (r: String)
    ensures
        r@ == package_archive_spec(i as int),
{
    let mut out = package_dir_name(i);
    out.append(".7z");
    out
}

/// `s` with every slash replaced by an underscore.
pub open spec fn underscored(s: Seq<char>) -> Seq<char>
    decreases s.len(),
{
    if s.len() == 0 {
        s
    } else if s[0] == '/' {
        seq!['_'] + underscored(s.drop_first())
    } else {
        seq![s[0]] + underscored(s.drop_first())
    }
}

/// `s` cut to at most 255 characters.
pub open spec fn truncate255(s: Seq<char>) -> Seq<char> {
    if s.len() <= 255 {
        s
    } else {
        s.subrange(0, 255)
    }
}

/// The file an artifact is saved under: `{dir}/{url with / as _}.txt`, cut
/// to the file system's 255-byte name budget.
pub open spec fn artifact_path_spec(dir: Seq<char>, v: Seq<char>) -> Seq<char> {
    truncate255(dir + seq!['/'] + underscored(v) + ".txt"@)
}

/// Replacing slashes distributes over concatenation.
proof fn lemma_underscored_concat(a: Seq<char>, b: Seq<char>)
    ensures
        underscored(a + b) == underscored(a) + underscored(b),
    decreases a.len(),
{
    if a.len() == 0 {
        assert(a + b =~= b);
        assert(underscored(a) + underscored(b) =~= underscored(b));
    } else {
        lemma_underscored_concat(a.drop_first(), b);
        assert((a + b).drop_first() =~= a.drop_first() + b);
        assert((a + b)[0] == a[0]);
        if a[0] == '/' {
            assert(underscored(a + b) =~= underscored(a) + underscored(b));
        } else {
            assert(underscored(a + b) =~= underscored(a) + underscored(b));
        }
    }
}

/// Replacing slashes in a slash-free sequence changes nothing.
proof fn lemma_underscored_clean(a: Seq<char>)
    requires
        forall|j: int| 0 <= j < a.len() ==> #[trigger] a[j] != '/',
    ensures
        underscored(a) == a,
    decreases a.len(),
{
    if a.len() > 0 {
        lemma_underscored_clean(a.drop_first());
        assert(seq![a[0]] + a.drop_first() =~= a);
    }
}

/// The artifact path for `url` under the directory `dir`; never longer
/// than 255 characters.
pub fn artifact_path(dir: &str, url: &Url) -> (r: String)
    ensures
        r@ == artifact_path_spec(dir@, url@),
        r@.len() <= 255,
{
    let mut out = dir.to_owned();
    out.append("/");
    proof {
        reveal_strlit("/");
        reveal_strlit("_");
        assert("/"@ =~= seq!['/']);
        assert("_"@ =~= seq!['_']);
    }
    let ghost base = dir@ + seq!['/'];
    let us = url.to_string();
    let s = us.as_str();
    let n = s.unicode_len();
    let mut chunk: usize = 0;
    let mut k: usize = 0;
    while k < n
        invariant
            n == s@.len(),
            0 <= chunk <= k <= n,
            "/"@ == seq!['/'],
            "_"@ == seq!['_'],
            out@ == base + underscored(s@.subrange(0, chunk as int)),
            forall|t: int| chunk <= t < k ==> #[trigger] s@[t] != '/',
            base == dir@ + seq!['/'],
        decreases n - k,
    {
        if s.get_char(k) == '/' {
            let piece = s.substring_char(chunk, k);
            out.append(piece);
            out.append("_");
            proof {
                let a = s@.subrange(0, chunk as int);
                let b = s@.subrange(chunk as int, k as int);
                lemma_underscored_concat(a, b);
                lemma_underscored_clean(b);
                lemma_underscored_concat(a + b, seq!['/']);
                assert(a + b =~= s@.subrange(0, k as int));
                assert(s@.subrange(0, k as int) + seq!['/'] =~= s@.subrange(0, k + 1));
                assert(seq!['/'].drop_first() =~= Seq::<char>::empty());
                assert(underscored(Seq::<char>::empty()) =~= Seq::<char>::empty());
                assert(underscored(seq!['/']) =~= seq!['_']);
            }
            chunk = k + 1;
        }
        k += 1;
    }
    let piece = s.substring_char(chunk, n);
    out.append(piece);
    proof {
        let a = s@.subrange(0, chunk as int);
        let b = s@.subrange(chunk as int, n as int);
        lemma_underscored_concat(a, b);
        lemma_underscored_clean(b);
        assert(a + b =~= s@);
    }
    out.append(".txt");
    assert(out@ == dir@ + seq!['/'] + underscored(url@) + ".txt"@);
    let total = out.as_str().unicode_len();
    if total > 255 {
        let cut = out.as_str().substring_char(0, 255);
        cut.to_owned()
    } else {
        out
    }
}

} // verus!
