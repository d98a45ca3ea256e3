//! The URL frontier and the scheduler's decision logic.
//!
//! A [`UrlCollection`] holds the deduplicated FIFO queue of URLs awaiting
//! dispatch, the set of 64-bit hashes of every URL ever admitted, the buffer
//! of `(url, status)` rows awaiting a journal flush, and the number of
//! fetches in flight. Admission, completion and the journal renderings are
//! verified here; the surrounding HTTP and file I/O run outside the library
//! and hand results back as plain values.

use std::collections::HashSet;
use std::collections::VecDeque;

use vstd::prelude::*;
use vstd::string::*;

use crate::CONCURRENT_REQUESTS;
use crate::content::Content;
use crate::content::ContentV;
use crate::link::Url;
use crate::link::ends_with_seq;
use crate::link::ext_of;
use crate::link::hash_of;
use crate::link::is_media_ext;
use crate::link::link_seq;
use crate::link::parse_spec;
use crate::link::root_of;
use crate::link::scheme_of;
use crate::link::starts_with_seq;
use crate::link::views_of;
use crate::link::wf_url;
use crate::protocols::SchemeView;
use crate::protocols::scheme_spec;
use crate::text::contains_seq;
use crate::text::dec_digits;
use crate::text::find_char_from;
use crate::text::find_char_from_exec;
use crate::text::u64_to_string;

verus! {

broadcast use vstd::std_specs::hash::group_hash_axioms;

/// Why one URL's fetch failed; one URL dying never tears down the run.
#[derive(Debug, Clone, PartialEq, Eq)]
pub enum PageError {
    /// The HTTP transfer failed or timed out.
    TransportError,
    /// The redirect target did not parse as a URL.
    InvalidFinalUrl,
    /// The CAS login page lacked its execution nonce.
    NoExecutionNonce,
    /// The CAS credential POST was answered with a non-success status.
    LoginRejected,
}

/// Mathematical image of a [`Page`].
pub struct PageV {
    pub url: Seq<char>,
    pub status: u16,
    pub content: Option<ContentV>,
    pub links: Seq<Seq<char>>,
}

/// What one completed fetch produced: the origin URL, the final HTTP
/// status, the classified body if one was read, and the extracted links
/// with the self-loop removed.
#[derive(Debug)]
pub struct Page {
    url: Url,
    status: u16,
    content: Option<Content>,
    links: Vec<Url>,
}

impl View for Page {
    type V = PageV;

    closed spec fn view(&self) -> PageV {
        PageV {
            url: self.url@,
            status: self.status,
            content: match self.content {
                Some(ref c) => Some(c@),
                None => None,
            },
            links: views_of(self.links@),
        }
    }
}

/// `s` without every occurrence of `u`, order kept.
pub open spec fn remove_url(s: Seq<Seq<char>>, u: Seq<char>) -> Seq<Seq<char>>
    decreases s.len(),
{
    if s.len() == 0 {
        s
    } else {
        let rest = remove_url(s.drop_last(), u);
        if s.last() != u {
            rest.push(s.last())
        } else {
            rest
        }
    }
}

/// The links a page at `url` carries, given the optional body: every URL
/// the extractor finds, minus the page's own URL.
pub open spec fn page_links(content: Option<ContentV>, url: Seq<char>) -> Seq<Seq<char>> {
    match content {
        None => Seq::empty(),
        Some(c) => {
            let all = if c.kind == crate::content::ContentType::Pdf {
                Seq::<Seq<char>>::empty()
            } else {
                link_seq(crate::content::chars_of_bytes(c.bytes), root_of(url), url)
            };
            remove_url(all, url)
        },
    }
}

impl Page {
    /// Assemble the page a completed fetch produced: extract the links of
    /// the body and drop the self-loop.
    pub fn from_fetch(url: Url, status: u16, content: Option<Content>) -> (r: Page)
        ensures
            r@.url == url@,
            r@.status == status,
            r@.links == page_links(
                match content {
                    Some(c) => Some(c@),
                    None => None::<ContentV>,
                },
                url@,
            ),
    {
        let links: Vec<Url> = match content {
            Some(ref c) => {
                let all = c.get_links(url.clone());
                let mut kept: Vec<Url> = Vec::new();
                let ghost all_views = views_of(all@);
                proof {
                    assert(all_views.take(0) =~= Seq::<Seq<char>>::empty());
                    assert(views_of(kept@) =~= Seq::<Seq<char>>::empty());
                }
                let mut k: usize = 0;
                while k < all.len()
                    invariant
                        0 <= k <= all@.len(),
                        all_views == views_of(all@),
                        views_of(kept@) == remove_url(all_views.take(k as int), url@),
                    decreases all@.len() - k,
                {
                    let candidate = &all[k];
                    proof {
                        assert(all_views.take(k + 1).drop_last() =~= all_views.take(k as int));
                        assert(all_views.take(k + 1).last() == all_views[k as int]);
                    }
                    if !candidate.eq(&url) {
                        let ghost pre = kept@;
                        kept.push(candidate.clone());
                        proof {
                            assert(views_of(kept@) =~= views_of(pre).push(all_views[k as int]));
                        }
                    }
                    k += 1;
                }
                proof {
                    assert(all_views.take(all@.len() as int) =~= all_views);
                }
                kept
            },
            None => {
                let empty: Vec<Url> = Vec::new();
                proof {
                    assert(views_of(empty@) =~= Seq::<Seq<char>>::empty());
                }
                empty
            },
        };
        Page { url, status, content, links }
    }

    /// The final HTTP status.
    pub fn get_status(&self) -> (r: u16)
        ensures
            r == self@.status,
    {
        self.status
    }

    /// The page's own URL.
    pub fn get_url(&self) -> (r: &Url)
        ensures
            r@ == self@.url,
    {
        &self.url
    }

    /// The classified body, if one was read.
    pub fn get_content(&self) -> (r: Option<&Content>)
        ensures
            match r {
                Some(c) => self@.content == Some(c@),
                None => self@.content is None,
            },
    {
        self.content.as_ref()
    }

    /// The extracted links, without the self-loop.
    pub fn get_links(&self) -> (r: &Vec<Url>)
        ensures
            views_of(r@) == self@.links,
    {
        &self.links
    }
}

/// Should a URL be recorded but never fetched: a media URL under HTTP or
/// HTTPS, a URL off the allowed host, a blacklisted one, one mentioning
/// `mailto`, or one ending in `logout`.
pub open spec fn skip_spec(v: Seq<char>) -> bool {
    ||| ((scheme_spec(scheme_of(v)) == SchemeView::Http || scheme_spec(scheme_of(v))
        == SchemeView::Https) && is_media_ext(ext_of(v)))
    ||| !contains_seq(v, "insa-rouen.fr"@)
    ||| starts_with_seq(v, "https://catalogue.insa-rouen.fr/cgi-bin/koha/opac-search.pl"@)
    ||| starts_with_seq(v, "https://qualite.insa-rouen.fr"@)
    ||| contains_seq(v, "mailto"@)
    ||| ends_with_seq(v, "logout"@)
}

/// Does the skip filter apply to `u`?
pub fn skip_url(u: &Url) -> (r: bool)
    ensures
        r == skip_spec(u@),
{
    (u.get_uri_scheme().is_web() && u.is_media()) || !u.is_allowed() || u.is_black_listed()
        || u.contains("mailto") || u.ends_with("logout")
}

/// Mathematical image of a [`UrlCollection`].
pub struct CollectionV {
    pub to_fetch: Seq<Seq<char>>,
    pub known: Set<u64>,
    pub to_save: Seq<(Seq<char>, u16)>,
    pub in_flight: int,
    pub dispatched: Set<u64>,
}

/// The invariants the frontier maintains: the hash of every queued URL is
/// known and not yet dispatched, no two queued URLs share a hash, every
/// queued URL is well formed, and at most [`CONCURRENT_REQUESTS`] fetches
/// are in flight.
pub open spec fn collection_wf(c: CollectionV) -> bool {
    &&& 0 <= c.in_flight <= CONCURRENT_REQUESTS
    &&& c.dispatched.subset_of(c.known)
    &&& forall|i: int| 0 <= i < c.to_fetch.len() ==> wf_url(#[trigger] c.to_fetch[i])
    &&& forall|i: int|
        0 <= i < c.to_fetch.len() ==> c.known.contains(hash_of(#[trigger] c.to_fetch[i]))
    &&& forall|i: int|
        0 <= i < c.to_fetch.len() ==> !c.dispatched.contains(hash_of(#[trigger] c.to_fetch[i]))
    &&& forall|i: int, j: int|
        0 <= i < j < c.to_fetch.len() ==> hash_of(c.to_fetch[i]) != hash_of(c.to_fetch[j])
    &&& forall|i: int| 0 <= i < c.to_save.len() ==> wf_url((#[trigger] c.to_save[i]).0)
}

/// Admitting `u`: when its hash is new, the hash becomes known and the URL
/// joins the queue; otherwise nothing changes.
pub open spec fn add_spec(c: CollectionV, u: Seq<char>) -> CollectionV {
    if c.known.contains(hash_of(u)) {
        c
    } else {
        CollectionV { to_fetch: c.to_fetch.push(u), known: c.known.insert(hash_of(u)), ..c }
    }
}

/// Admitting a batch of URLs, first first.
pub open spec fn add_all_spec(c: CollectionV, links: Seq<Seq<char>>) -> CollectionV
    decreases links.len(),
{
    if links.len() == 0 {
        c
    } else {
        add_all_spec(add_spec(c, links[0]), links.drop_first())
    }
}

/// What one admission round decides.
#[derive(Debug)]
pub enum Admission {
    /// The in-flight cap is reached; wait for a completion.
    AtCapacity,
    /// The queue is empty; nothing to admit.
    Exhausted,
    /// The front URL fell to the skip filter and was recorded with status 0.
    Skipped(Url),
    /// The front URL is handed out for fetching.
    Dispatched(Url),
}

/// The deduplicated, resumable frontier with its scheduler bookkeeping.
pub struct UrlCollection {
    to_fetch: VecDeque<Url>,
    known_url_hash: HashSet<u64>,
    to_save: Vec<(Url, u16)>,
    in_flight: usize,
    dispatched: Ghost<Set<u64>>,
}

impl View for UrlCollection {
    type V = CollectionV;

    closed spec fn view(&self) -> CollectionV {
        CollectionV {
            to_fetch: self.to_fetch@.map_values(|u: Url| u@),
            known: self.known_url_hash@,
            to_save: self.to_save@.map_values(|p: (Url, u16)| (p.0@, p.1)),
            in_flight: self.in_flight as int,
            dispatched: self.dispatched@,
        }
    }
}

impl Default for UrlCollection {
    fn default() -> (r: UrlCollection)
        ensures
            r@.to_fetch == Seq::<Seq<char>>::empty(),
            r@.known == Set::<u64>::empty(),
            r@.to_save == Seq::<(Seq<char>, u16)>::empty(),
            r@.in_flight == 0,
            r@.dispatched == Set::<u64>::empty(),
            collection_wf(r@),
    {
        UrlCollection::new()
    }
}

impl UrlCollection {
    /// An empty frontier, pre-sized for millions of URLs.
    pub fn new() -> (r: UrlCollection)
        ensures
            r@.to_fetch == Seq::<Seq<char>>::empty(),
            r@.known == Set::<u64>::empty(),
            r@.to_save == Seq::<(Seq<char>, u16)>::empty(),
            r@.in_flight == 0,
            r@.dispatched == Set::<u64>::empty(),
            collection_wf(r@),
    {
        let r = UrlCollection {
            to_fetch: VecDeque::with_capacity(2 * 1024 * 1024),
            known_url_hash: HashSet::with_capacity(7 * 1024 * 1024),
            to_save: Vec::new(),
            in_flight: 0,
            dispatched: Ghost(Set::empty()),
        };
        proof {
            assert(r@.to_fetch =~= Seq::<Seq<char>>::empty());
            assert(r@.to_save =~= Seq::<(Seq<char>, u16)>::empty());
        }
        r
    }

    /// Admit one URL.
    pub fn add_url_to_fetch(&mut self, url: Url)
        requires
            collection_wf(old(self)@),
        ensures
            final(self)@ == add_spec(old(self)@, url@),
            old(self)@.known.subset_of(final(self)@.known),
            collection_wf(final(self)@),
    {
        proof {
            use_type_invariant(&url);
            url.lemma_inv_wf();
        }
        let h = url.get_hash();
        if !self.known_url_hash.contains(&h) {
            self.known_url_hash.insert(h);
            let ghost pre = self.to_fetch@.map_values(|u: Url| u@);
            self.to_fetch.push_back(url);
            proof {
                assert(self.to_fetch@.map_values(|u: Url| u@) =~= pre.push(url@));
            }
        }
        proof {
            assert(final(self)@ == add_spec(old(self)@, url@));
        }
    }

    /// Admit one URL discovered on the page `_from`; the referer and status
    /// are accepted for interface compatibility and the edge journal,
    /// which this build does not keep.
    pub fn add_url_to_fetch_with_referer(&mut self, _from: Url, to: Url, _status: u16)
        requires
            collection_wf(old(self)@),
        ensures
            final(self)@ == add_spec(old(self)@, to@),
            old(self)@.known.subset_of(final(self)@.known),
            collection_wf(final(self)@),
    {
        self.add_url_to_fetch(to);
    }

    /// How many URLs have ever been admitted.
    pub fn get_links_count(&self) -> (r: usize)
        ensures
            r == self@.known.len(),
    {
        self.known_url_hash.len()
    }

    /// How many fetches are in flight; never above [`CONCURRENT_REQUESTS`]
    /// in a well-formed collection.
    pub fn in_flight_count(&self) -> (r: usize)
        requires
            collection_wf(self@),
        ensures
            r == self@.in_flight,
            r <= CONCURRENT_REQUESTS,
    {
        self.in_flight
    }

    /// Decide the next admission: wait at the cap, stop on an empty queue,
    /// record a skipped URL with status 0, or dispatch the front URL. A
    /// dispatched URL's hash was never dispatched before and is known.
    pub fn next_admission(&mut self) -> (r: Admission)
        requires
            collection_wf(old(self)@),
        ensures
            collection_wf(final(self)@),
            match r {
                Admission::AtCapacity => final(self)@ == old(self)@ && old(self)@.in_flight
                    >= CONCURRENT_REQUESTS,
                Admission::Exhausted => final(self)@ == old(self)@ && old(self)@.in_flight
                    < CONCURRENT_REQUESTS && old(self)@.to_fetch.len() == 0,
                Admission::Skipped(u) => {
                    &&& old(self)@.in_flight < CONCURRENT_REQUESTS
                    &&& old(self)@.to_fetch.len() > 0
                    &&& u@ == old(self)@.to_fetch[0]
                    &&& skip_spec(u@)
                    &&& final(self)@ == (CollectionV {
                        to_fetch: old(self)@.to_fetch.drop_first(),
                        to_save: old(self)@.to_save.push((u@, 0u16)),
                        ..old(self)@
                    })
                },
                Admission::Dispatched(u) => {
                    &&& old(self)@.in_flight < CONCURRENT_REQUESTS
                    &&& old(self)@.to_fetch.len() > 0
                    &&& u@ == old(self)@.to_fetch[0]
                    &&& !skip_spec(u@)
                    &&& old(self)@.known.contains(hash_of(u@))
                    &&& !old(self)@.dispatched.contains(hash_of(u@))
                    &&& final(self)@ == (CollectionV {
                        to_fetch: old(self)@.to_fetch.drop_first(),
                        in_flight: old(self)@.in_flight + 1,
                        dispatched: old(self)@.dispatched.insert(hash_of(u@)),
                        ..old(self)@
                    })
                },
            },
    {
        if self.in_flight >= CONCURRENT_REQUESTS {
            return Admission::AtCapacity;
        }
        let ghost pre = self.to_fetch@.map_values(|u: Url| u@);
        match self.to_fetch.pop_front() {
            None => {
                proof {
                    assert(pre.len() == 0);
                }
                Admission::Exhausted
            },
            Some(url) => {
                proof {
                    use_type_invariant(&url); url.lemma_inv_wf();
                    assert(self.to_fetch@.map_values(|u: Url| u@) =~= pre.drop_first());
                    assert(pre[0] == url@);
                }
                if skip_url(&url) {
                    let out = url.clone();
                    let ghost presave = self.to_save@.map_values(|p: (Url, u16)| (p.0@, p.1));
                    self.to_save.push((url, 0));
                    proof {
                        assert(self.to_save@.map_values(|p: (Url, u16)| (p.0@, p.1)) =~= presave
                            .push((out@, 0u16)));
                    }
                    Admission::Skipped(out)
                } else {
                    self.in_flight = self.in_flight + 1;
                    proof {
                        self.dispatched@ = self.dispatched@.insert(hash_of(url@));
                    }
                    Admission::Dispatched(url)
                }
            },
        }
    }

    /// Fold a completed page back in: admit every link it discovered,
    /// record its `(url, status)` row, and release its in-flight slot.
    pub fn record_completion(&mut self, page: Page)
        requires
            collection_wf(old(self)@),
            old(self)@.in_flight >= 1,
        ensures
            collection_wf(final(self)@),
            final(self)@.to_fetch == add_all_spec(old(self)@, page@.links).to_fetch,
            final(self)@.known == add_all_spec(old(self)@, page@.links).known,
            final(self)@.to_save == old(self)@.to_save.push((page@.url, page@.status)),
            final(self)@.in_flight == old(self)@.in_flight - 1,
            final(self)@.dispatched == old(self)@.dispatched,
            old(self)@.known.subset_of(final(self)@.known),
    {
        proof {
            use_type_invariant(&page.url);
            page.url.lemma_inv_wf();
        }
        let Page { url, status, content: _, links } = page;
        let mut links = links;
        let ghost all = views_of(links@);
        let ghost c0 = self@;
        while links.len() > 0
            invariant
                add_all_spec(c0, all) == add_all_spec(self@, views_of(links@)),
                c0.known.subset_of(self@.known),
                self@.to_save == c0.to_save,
                self@.in_flight == c0.in_flight,
                self@.dispatched == c0.dispatched,
                collection_wf(self@),
            decreases links@.len(),
        {
            let ghost prev_views = views_of(links@);
            let u = links.remove(0);
            proof {
                assert(views_of(links@) =~= prev_views.drop_first());
                assert(prev_views[0] == u@);
            }
            let ghost before = self@;
            self.add_url_to_fetch(u);
            proof {
                lemma_add_known_grows(before, u@);
            }
        }
        proof {
            assert(views_of(links@) =~= Seq::<Seq<char>>::empty());
        }
        let ghost cend = self@;
        self.in_flight = self.in_flight - 1;
        let ghost presave = self.to_save@.map_values(|p: (Url, u16)| (p.0@, p.1));
        self.to_save.push((url, status));
        proof {
            assert(self.to_save@.map_values(|p: (Url, u16)| (p.0@, p.1)) =~= presave.push(
                (url@, status),
            ));
            assert(presave == c0.to_save);
            assert(url@ == page@.url && status == page@.status);
            assert(wf_url(url@));
            let cfin = self@;
            assert(cfin.to_fetch == cend.to_fetch);
            assert(cfin.known == cend.known);
            assert(cfin.dispatched == cend.dispatched);
            assert forall|i: int| 0 <= i < cfin.to_fetch.len() implies wf_url(
                #[trigger] cfin.to_fetch[i],
            ) && cfin.known.contains(hash_of(cfin.to_fetch[i])) && !cfin.dispatched.contains(
                hash_of(cfin.to_fetch[i]),
            ) by {
                assert(wf_url(cend.to_fetch[i]));
            }
            assert forall|i: int| 0 <= i < cfin.to_save.len() implies wf_url(
                (#[trigger] cfin.to_save[i]).0,
            ) by {
                if i < presave.len() {
                    assert(cfin.to_save[i] == c0.to_save[i]);
                } else {
                    assert(cfin.to_save[i].0 == url@);
                }
            }
            assert(collection_wf(cfin));
        }
    }

    /// Release the in-flight slot of a fetch that failed: the URL is
    /// dropped and nothing else changes.
    pub fn record_failure(&mut self)
        requires
            old(self)@.in_flight >= 1,
        ensures
            final(self)@ == (CollectionV { in_flight: old(self)@.in_flight - 1, ..old(self)@ }),
    {
        self.in_flight = self.in_flight - 1;
    }

    /// Is the save buffer over the flush threshold?
    pub fn needs_flush(&self) -> (r: bool)
        ensures
            r == (self@.to_save.len() > 300),
    {
        self.to_save.len() > 300
    }
}

// ------------------------------------------------------------------
// The journal: append-only CSV renderings and their resumable replay.
// ------------------------------------------------------------------
/// One fetched row: `status;url`.
pub open spec fn fetched_row(u: Seq<char>, st: u16) -> Seq<char> {
    dec_digits(st as int) + seq![';'] + u
}

/// Fetched rows joined by newlines.
pub open spec fn fetched_rows(s: Seq<(Seq<char>, u16)>) -> Seq<char>
    decreases s.len(),
{
    if s.len() == 0 {
        Seq::empty()
    } else if s.len() == 1 {
        fetched_row(s[0].0, s[0].1)
    } else {
        fetched_rows(s.drop_last()) + seq!['\n'] + fetched_row(s.last().0, s.last().1)
    }
}

/// The flushed contents for `fetcheds.csv`: the joined rows and a final
/// newline, which is a bare newline when there are no rows.
pub open spec fn fetcheds_csv(s: Seq<(Seq<char>, u16)>) -> Seq<char> {
    fetched_rows(s) + seq!['\n']
}

/// Queued URLs joined by newlines.
pub open spec fn queue_rows(s: Seq<Seq<char>>) -> Seq<char>
    decreases s.len(),
{
    if s.len() == 0 {
        Seq::empty()
    } else if s.len() == 1 {
        s[0]
    } else {
        queue_rows(s.drop_last()) + seq!['\n'] + s.last()
    }
}

/// The rewritten contents for `to_fetch.csv` below its header.
pub open spec fn to_fetch_csv(s: Seq<Seq<char>>) -> Seq<char> {
    queue_rows(s) + seq!['\n']
}

/// A line without its trailing carriage return, so that the journals read
/// back the same whether they were written with LF or CRLF endings.
pub open spec fn strip_cr(l: Seq<char>) -> Seq<char> {
    if l.len() > 0 && l.last() == '\r' {
        l.drop_last()
    } else {
        l
    }
}

/// The lines of a file's characters, as Rust's `lines` reads them.
pub open spec fn lines_of(s: Seq<char>) -> Seq<Seq<char>>
    decreases s.len(),
        via lines_of_decreases
{
    if s.len() == 0 {
        Seq::empty()
    } else {
        let e = find_char_from(s, '\n', 0);
        if e >= s.len() {
            seq![strip_cr(s)]
        } else {
            seq![strip_cr(s.subrange(0, e))] + lines_of(s.subrange(e + 1, s.len() as int))
        }
    }
}

#[via_fn]
proof fn lines_of_decreases(s: Seq<char>) {
    if s.len() > 0 {
        crate::text::lemma_find_char_bounds(s, '\n', 0);
    }
}

/// A file's lines below its header line.
pub open spec fn body_lines(s: Seq<char>) -> Seq<Seq<char>> {
    if lines_of(s).len() == 0 {
        Seq::empty()
    } else {
        lines_of(s).drop_first()
    }
}

/// Replaying one `to_fetch.csv` line: a line that parses is admitted.
pub open spec fn load_queue_line(c: CollectionV, l: Seq<char>) -> CollectionV {
    match parse_spec(l) {
        Ok(v) => add_spec(c, v),
        Err(_) => c,
    }
}

/// Replaying the `to_fetch.csv` body, first line first.
pub open spec fn load_queue_lines(c: CollectionV, ls: Seq<Seq<char>>) -> CollectionV
    decreases ls.len(),
{
    if ls.len() == 0 {
        c
    } else {
        load_queue_lines(load_queue_line(c, ls[0]), ls.drop_first())
    }
}

/// Replaying one `fetcheds.csv` line: the URL between the first and second
/// `;` has its hash marked known, so it is never fetched again; malformed
/// lines are passed over.
pub open spec fn load_fetched_line(c: CollectionV, l: Seq<char>) -> CollectionV {
    let k = find_char_from(l, ';', 0);
    if k >= l.len() {
        c
    } else {
        let k2 = find_char_from(l, ';', k + 1);
        match parse_spec(l.subrange(k + 1, k2)) {
            Ok(v) => CollectionV { known: c.known.insert(hash_of(v)), ..c },
            Err(_) => c,
        }
    }
}

/// Replaying the `fetcheds.csv` body, first line first.
pub open spec fn load_fetched_lines(c: CollectionV, ls: Seq<Seq<char>>) -> CollectionV
    decreases ls.len(),
{
    if ls.len() == 0 {
        c
    } else {
        load_fetched_lines(load_fetched_line(c, ls[0]), ls.drop_first())
    }
}

/// Read the line starting at `pos`, stripped of a trailing carriage
/// return, and the position after its newline.
fn read_line<'a>(s: &'a str, pos: usize) -> (r: (&'a str, usize))
    requires
        pos < s@.len(),
    ensures
        pos < r.1 <= s@.len(),
        lines_of(s@.subrange(pos as int, s@.len() as int)) == seq![r.0@] + lines_of(
            s@.subrange(r.1 as int, s@.len() as int),
        ),
{
    let n = s.unicode_len();
    let e = find_char_from_exec(s, '\n', pos);
    let stripped_end: usize = if e > pos && s.get_char(e - 1) == '\r' {
        e - 1
    } else {
        e
    };
    let line = s.substring_char(pos, stripped_end);
    let next: usize = if e < n {
        e + 1
    } else {
        n
    };
    proof {
        crate::text::lemma_find_char_bounds(s@, '\n', pos as int);
        let t = s@.subrange(pos as int, n as int);
        assert(t.len() > 0);
        assert forall|j: int| 0 <= j < e - pos implies t[j] != '\n' by {
            assert(t[j] == s@[pos + j]);
        }
        if e < n {
            assert(t[e - pos] == s@[e as int]);
        }
        crate::text::lemma_find_char_first(t, '\n', 0, e - pos);
        if e == n {
            assert(next == n);
            assert(s@.subrange(n as int, n as int) =~= Seq::<char>::empty());
            assert(lines_of(s@.subrange(next as int, n as int)) =~= Seq::<Seq<char>>::empty());
            if stripped_end < e {
                assert(t.last() == '\r');
                assert(strip_cr(t) =~= s@.subrange(pos as int, stripped_end as int));
            } else {
                assert(t.len() > 0 ==> t.last() == s@[n - 1]);
                assert(strip_cr(t) =~= t);
                assert(line@ =~= t);
            }
            assert(lines_of(t) =~= seq![line@] + lines_of(
                s@.subrange(next as int, n as int),
            ));
        } else {
            let head = t.subrange(0, e - pos);
            assert(head =~= s@.subrange(pos as int, e as int));
            if stripped_end < e {
                assert(head.last() == s@[e - 1]);
                assert(strip_cr(head) =~= s@.subrange(pos as int, stripped_end as int));
            } else {
                assert(strip_cr(head) =~= head);
            }
            assert(line@ == strip_cr(head));
            assert(t.subrange(e - pos + 1, t.len() as int) =~= s@.subrange(
                next as int,
                n as int,
            ));
            assert(lines_of(t) =~= seq![line@] + lines_of(s@.subrange(next as int, n as int)));
        }
    }
    (line, next)
}

impl UrlCollection {
    /// Mark the hash of `url` as fetched, without queueing it.
    fn note_fetched(&mut self, url: &Url)
        requires
            collection_wf(old(self)@),
        ensures
            final(self)@ == (CollectionV {
                known: old(self)@.known.insert(hash_of(url@)),
                ..old(self)@
            }),
            collection_wf(final(self)@),
    {
        let h = url.get_hash();
        self.known_url_hash.insert(h);
    }

    /// Render the journal flush: the new rows for `fetcheds.csv` and the
    /// full rewritten body of `to_fetch.csv`, clearing the save buffer.
    pub fn save_graph(&mut self) -> (r: (String, String))
        requires
            collection_wf(old(self)@),
        ensures
            r.0@ == fetcheds_csv(old(self)@.to_save),
            r.1@ == to_fetch_csv(old(self)@.to_fetch),
            final(self)@ == (CollectionV {
                to_save: Seq::<(Seq<char>, u16)>::empty(),
                ..old(self)@
            }),
            collection_wf(final(self)@),
    {
        proof {
            reveal_strlit(";");
            reveal_strlit("\n");
        }
        let ghost saves = self@.to_save;
        let ghost queue = self@.to_fetch;
        let mut fetcheds = String::new();
        proof {
            assert(saves.take(0) =~= Seq::<(Seq<char>, u16)>::empty());
        }
        let mut k: usize = 0;
        while k < self.to_save.len()
            invariant
                self@.to_save == saves,
                self@.to_save.len() == self.to_save@.len(),
                ";"@ == seq![';'],
                "\n"@ == seq!['\n'],
                0 <= k <= saves.len(),
                fetcheds@ == fetched_rows(saves.take(k as int)),
            decreases saves.len() - k,
        {
            if k > 0 {
                fetcheds.append("\n");
            }
            let pair = &self.to_save[k];
            let num = u64_to_string(pair.1 as u64);
            fetcheds.append(num.as_str());
            fetcheds.append(";");
            let us = pair.0.to_string();
            fetcheds.append(us.as_str());
            proof {
                assert(saves[k as int] == (pair.0@, pair.1));
                assert(saves.take(k + 1).drop_last() =~= saves.take(k as int));
                assert(saves.take(k + 1).last() == saves[k as int]);
                if k == 0 {
                    assert(fetcheds@ =~= fetched_row(saves[0].0, saves[0].1));
                    assert(saves.take(1)[0] == saves[0]);
                } else {
                    assert(fetcheds@ =~= fetched_rows(saves.take(k as int)) + seq!['\n']
                        + fetched_row(saves[k as int].0, saves[k as int].1));
                }
            }
            k += 1;
        }
        proof {
            assert(saves.take(saves.len() as int) =~= saves);
        }
        fetcheds.append("\n");
        let mut tof = String::new();
        proof {
            assert(queue.take(0) =~= Seq::<Seq<char>>::empty());
        }
        let mut q: usize = 0;
        while q < self.to_fetch.len()
            invariant
                self@.to_fetch == queue,
                self@.to_fetch.len() == self.to_fetch@.len(),
                "\n"@ == seq!['\n'],
                0 <= q <= queue.len(),
                tof@ == queue_rows(queue.take(q as int)),
            decreases queue.len() - q,
        {
            if q > 0 {
                tof.append("\n");
            }
            let us = self.to_fetch[q].to_string();
            tof.append(us.as_str());
            proof {
                assert(queue[q as int] == self.to_fetch@[q as int]@);
                assert(queue.take(q + 1).drop_last() =~= queue.take(q as int));
                assert(queue.take(q + 1).last() == queue[q as int]);
                if q == 0 {
                    assert(queue.take(1)[0] == queue[0]);
                    assert(tof@ =~= queue[0]);
                } else {
                    assert(tof@ =~= queue_rows(queue.take(q as int)) + seq!['\n']
                        + queue[q as int]);
                }
            }
            q += 1;
        }
        proof {
            assert(queue.take(queue.len() as int) =~= queue);
        }
        tof.append("\n");
        self.to_save.clear();
        proof {
            assert(self@.to_save =~= Seq::<(Seq<char>, u16)>::empty());
        }
        (fetcheds, tof)
    }

    /// Replay the two journals: every `to_fetch.csv` row is re-admitted,
    /// and every `fetcheds.csv` row marks its URL's hash as already
    /// fetched. Header lines and malformed rows are passed over.
    pub fn load_graph(&mut self, to_fetch_contents: &str, fetcheds_contents: &str)
        requires
            collection_wf(old(self)@),
        ensures
            final(self)@ == load_fetched_lines(
                load_queue_lines(old(self)@, body_lines(to_fetch_contents@)),
                body_lines(fetcheds_contents@),
            ),
            collection_wf(final(self)@),
            old(self)@.known.subset_of(final(self)@.known),
    {
        let ghost c0 = self@;
        let n1 = to_fetch_contents.unicode_len();
        let mut pos: usize = 0;
        if n1 > 0 {
            proof {
                assert(to_fetch_contents@.subrange(0, n1 as int) =~= to_fetch_contents@);
            }
            let h = read_line(to_fetch_contents, 0);
            pos = h.1;
            proof {
                assert(lines_of(to_fetch_contents@) == seq![h.0@] + lines_of(
                    to_fetch_contents@.subrange(pos as int, n1 as int),
                ));
                assert(body_lines(to_fetch_contents@) =~= lines_of(
                    to_fetch_contents@.subrange(pos as int, n1 as int),
                ));
            }
        } else {
            proof {
                assert(body_lines(to_fetch_contents@) =~= lines_of(
                    to_fetch_contents@.subrange(0, 0),
                ));
            }
        }
        let ghost target1 = load_queue_lines(c0, body_lines(to_fetch_contents@));
        while pos < n1
            invariant
                n1 == to_fetch_contents@.len(),
                0 <= pos <= n1,
                collection_wf(self@),
                target1 == load_queue_lines(
                    self@,
                    lines_of(to_fetch_contents@.subrange(pos as int, n1 as int)),
                ),
                c0.known.subset_of(self@.known),
                self@.to_save == c0.to_save,
                self@.in_flight == c0.in_flight,
                self@.dispatched == c0.dispatched,
            decreases n1 - pos,
        {
            let line_next = read_line(to_fetch_contents, pos);
            let ghost ls = lines_of(to_fetch_contents@.subrange(pos as int, n1 as int));
            let ghost rest = lines_of(
                to_fetch_contents@.subrange(line_next.1 as int, n1 as int),
            );
            proof {
                assert(ls[0] == line_next.0@);
                assert(ls.drop_first() =~= rest);
            }
            let ghost before = self@;
            match Url::parse(line_next.0) {
                Ok(u) => {
                    self.add_url_to_fetch(u);
                },
                Err(_) => {},
            }
            proof {
                assert(self@ == load_queue_line(before, line_next.0@));
            }
            pos = line_next.1;
        }
        proof {
            assert(to_fetch_contents@.subrange(n1 as int, n1 as int) =~= Seq::<char>::empty());
            assert(self@ == target1);
        }

        let n2 = fetcheds_contents.unicode_len();
        let mut pos2: usize = 0;
        if n2 > 0 {
            proof {
                assert(fetcheds_contents@.subrange(0, n2 as int) =~= fetcheds_contents@);
            }
            let h = read_line(fetcheds_contents, 0);
            pos2 = h.1;
            proof {
                assert(body_lines(fetcheds_contents@) =~= lines_of(
                    fetcheds_contents@.subrange(pos2 as int, n2 as int),
                ));
            }
        } else {
            proof {
                assert(body_lines(fetcheds_contents@) =~= lines_of(
                    fetcheds_contents@.subrange(0, 0),
                ));
            }
        }
        let ghost target2 = load_fetched_lines(target1, body_lines(fetcheds_contents@));
        while pos2 < n2
            invariant
                n2 == fetcheds_contents@.len(),
                0 <= pos2 <= n2,
                collection_wf(self@),
                target2 == load_fetched_lines(
                    self@,
                    lines_of(fetcheds_contents@.subrange(pos2 as int, n2 as int)),
                ),
                c0.known.subset_of(self@.known),
                self@.to_save == c0.to_save,
                self@.in_flight == c0.in_flight,
                self@.dispatched == c0.dispatched,
            decreases n2 - pos2,
        {
            let line_next = read_line(fetcheds_contents, pos2);
            let line = line_next.0;
            let ghost ls = lines_of(fetcheds_contents@.subrange(pos2 as int, n2 as int));
            proof {
                assert(ls[0] == line@);
                assert(ls.drop_first() =~= lines_of(
                    fetcheds_contents@.subrange(line_next.1 as int, n2 as int),
                ));
            }
            let ghost before = self@;
            let m = line.unicode_len();
            let k = find_char_from_exec(line, ';', 0);
            if k < m {
                let k2 = find_char_from_exec(line, ';', k + 1);
                let field = line.substring_char(k + 1, k2);
                match Url::parse(field) {
                    Ok(u) => {
                        self.note_fetched(&u);
                    },
                    Err(_) => {},
                }
            }
            proof {
                assert(self@ == load_fetched_line(before, line@));
            }
            pos2 = line_next.1;
        }
        proof {
            assert(fetcheds_contents@.subrange(n2 as int, n2 as int) =~= Seq::<char>::empty());
            assert(self@ == target2);
        }
    }
}

// ------------------------------------------------------------------
// Laws of resuming from the journal.
// ------------------------------------------------------------------
/// Decimal renderings are nonempty and consist of digit characters.
proof fn lemma_dec_digits_props(n: int)
    requires
        n >= 0,
    ensures
        dec_digits(n).len() >= 1,
        forall|j: int| 0 <= j < dec_digits(n).len() ==> '0' <= #[trigger] dec_digits(n)[j]
            && dec_digits(n)[j] <= '9',
    decreases n,
{
    if n >= 10 {
        lemma_dec_digits_props(n / 10);
    }
}

/// Replaying a rendered fetched row marks exactly the row's URL hash known.
proof fn lemma_row_replay(c: CollectionV, u: Seq<char>, st: u16)
    requires
        wf_url(u),
    ensures
        load_fetched_line(c, fetched_row(u, st)) == (CollectionV {
            known: c.known.insert(hash_of(u)),
            ..c
        }),
{
    let l = fetched_row(u, st);
    let d = dec_digits(st as int).len() as int;
    lemma_dec_digits_props(st as int);
    assert forall|j: int| 0 <= j < d implies l[j] != ';' by {
        assert(l[j] == dec_digits(st as int)[j]);
    }
    assert(l[d] == ';');
    crate::text::lemma_find_char_first(l, ';', 0, d);
    assert forall|j: int| d + 1 <= j < l.len() implies l[j] != ';' by {
        assert(l[j] == u[j - d - 1]);
        assert(crate::link::is_permissive(u[j - d - 1]));
    }
    crate::text::lemma_find_char_first(l, ';', d + 1, l.len() as int);
    assert(l.subrange(d + 1, l.len() as int) =~= u);
    crate::link::lemma_wf_parse_identity(u);
}

/// A fetched row holds no newline and does not end in a carriage return.
proof fn lemma_row_chars(u: Seq<char>, st: u16)
    requires
        wf_url(u),
    ensures
        forall|j: int| 0 <= j < fetched_row(u, st).len() ==> #[trigger] fetched_row(u, st)[j]
            != '\n',
        fetched_row(u, st).len() > 0,
        fetched_row(u, st).last() != '\r',
{
    let l = fetched_row(u, st);
    let d = dec_digits(st as int).len() as int;
    lemma_dec_digits_props(st as int);
    assert forall|j: int| 0 <= j < l.len() implies #[trigger] l[j] != '\n' by {
        if j < d {
            assert(l[j] == dec_digits(st as int)[j]);
        } else if j > d {
            assert(l[j] == u[j - d - 1]);
            assert(crate::link::is_permissive(u[j - d - 1]));
        }
    }
    assert(l.last() == u.last());
    assert(crate::link::is_permissive(u.last()));
}

/// Re-associate the row rendering around its first row.
proof fn lemma_rows_left(s: Seq<(Seq<char>, u16)>)
    requires
        s.len() >= 2,
    ensures
        fetched_rows(s) == fetched_row(s[0].0, s[0].1) + seq!['\n'] + fetched_rows(
            s.drop_first(),
        ),
    decreases s.len(),
{
    if s.len() == 2 {
        assert(s.drop_last() =~= seq![s[0]]);
        assert(s.drop_first() =~= seq![s[1]]);
        assert(fetched_rows(seq![s[0]]) == fetched_row(s[0].0, s[0].1));
        assert(fetched_rows(seq![s[1]]) == fetched_row(s[1].0, s[1].1));
    } else {
        lemma_rows_left(s.drop_last());
        assert(s.drop_last().drop_first() =~= s.drop_first().drop_last());
        assert(s.drop_last()[0] == s[0]);
        assert(s.drop_first().last() == s.last());
        assert(fetched_rows(s) == fetched_rows(s.drop_last()) + seq!['\n'] + fetched_row(
            s.last().0,
            s.last().1,
        ));
        assert(fetched_row(s[0].0, s[0].1) + seq!['\n'] + (fetched_rows(s.drop_first().drop_last())
            + seq!['\n'] + fetched_row(s.drop_first().last().0, s.drop_first().last().1)) =~= (
        fetched_row(s[0].0, s[0].1) + seq!['\n'] + fetched_rows(s.drop_first().drop_last()))
            + seq!['\n'] + fetched_row(s.last().0, s.last().1));
    }
}

/// Replaying the whole rendered `fetcheds.csv` body touches nothing but the
/// known set, grows it, and marks every journaled URL's hash known.
proof fn lemma_fetched_replay_all(c: CollectionV, s: Seq<(Seq<char>, u16)>)
    requires
        forall|i: int| 0 <= i < s.len() ==> wf_url((#[trigger] s[i]).0),
    ensures
        ({
            let fin = load_fetched_lines(c, lines_of(fetcheds_csv(s)));
            &&& fin.to_fetch == c.to_fetch
            &&& fin.to_save == c.to_save
            &&& fin.in_flight == c.in_flight
            &&& fin.dispatched == c.dispatched
            &&& c.known.subset_of(fin.known)
            &&& forall|i: int|
                0 <= i < s.len() ==> fin.known.contains(hash_of((#[trigger] s[i]).0))
        }),
    decreases s.len(),
{
    let full = fetcheds_csv(s);
    if s.len() == 0 {
        assert(full =~= seq!['\n']);
        crate::text::lemma_find_char_bounds(full, '\n', 0);
        assert(full[0] == '\n');
        assert(find_char_from(full, '\n', 0) == 0);
        assert(full.subrange(1, 1) =~= Seq::<char>::empty());
        assert(lines_of(Seq::<char>::empty()) =~= Seq::<Seq<char>>::empty());
        assert(lines_of(full) =~= seq![strip_cr(full.subrange(0, 0))] + lines_of(
            full.subrange(1, 1),
        ));
        let l = strip_cr(full.subrange(0, 0));
        assert(l =~= Seq::<char>::empty());
        crate::text::lemma_find_char_bounds(l, ';', 0);
        assert(load_fetched_line(c, l) == c);
        assert(lines_of(full) =~= seq![l]);
        assert(lines_of(full)[0] == l);
        assert(lines_of(full).drop_first() =~= Seq::<Seq<char>>::empty());
        assert(load_fetched_lines(c, Seq::<Seq<char>>::empty()) == c);
        assert(load_fetched_lines(c, lines_of(full)) == c);
    } else {
        let row = fetched_row(s[0].0, s[0].1);
        lemma_row_chars(s[0].0, s[0].1);
        let rest = if s.len() == 1 {
            Seq::<char>::empty()
        } else {
            fetched_rows(s.drop_first()) + seq!['\n']
        };
        if s.len() == 1 {
            assert(full =~= row + seq!['\n'] + rest);
        } else {
            lemma_rows_left(s);
            assert(full =~= row + seq!['\n'] + rest);
        }
        // The first line of the body is the first row.
        let e = row.len() as int;
        assert forall|j: int| 0 <= j < e implies full[j] != '\n' by {
            assert(full[j] == row[j]);
        }
        assert(full[e] == '\n');
        crate::text::lemma_find_char_first(full, '\n', 0, e);
        assert(full.subrange(0, e) =~= row);
        assert(strip_cr(row) =~= row);
        assert(full.subrange(e + 1, full.len() as int) =~= rest);
        assert(lines_of(full) =~= seq![row] + lines_of(rest));
        lemma_row_replay(c, s[0].0, s[0].1);
        let c1 = load_fetched_line(c, row);
        assert(lines_of(full)[0] == row);
        assert(lines_of(full).drop_first() =~= lines_of(rest));
        if s.len() == 1 {
            assert(lines_of(Seq::<char>::empty()) =~= Seq::<Seq<char>>::empty());
            assert(lines_of(rest) =~= Seq::<Seq<char>>::empty());
            assert(load_fetched_lines(c1, Seq::<Seq<char>>::empty()) == c1);
            assert(load_fetched_lines(c, lines_of(full)) == c1);
        } else {
            assert(rest =~= fetcheds_csv(s.drop_first()));
            lemma_fetched_replay_all(c1, s.drop_first());
            assert(load_fetched_lines(c, lines_of(full)) == load_fetched_lines(
                c1,
                lines_of(rest),
            ));
            let fin = load_fetched_lines(c1, lines_of(fetcheds_csv(s.drop_first())));
            assert forall|i: int| 0 <= i < s.len() implies fin.known.contains(
                hash_of((#[trigger] s[i]).0),
            ) by {
                if i == 0 {
                    assert(c1.known.contains(hash_of(s[0].0)));
                } else {
                    assert(s.drop_first()[i - 1] == s[i]);
                }
            }
        }
    }
}

/// A queued URL renders to a line without a newline and without a trailing
/// carriage return.
proof fn lemma_queue_row_chars(u: Seq<char>)
    requires
        wf_url(u),
    ensures
        forall|j: int| 0 <= j < u.len() ==> #[trigger] u[j] != '\n',
        u.len() > 0,
        u.last() != '\r',
{
    assert forall|j: int| 0 <= j < u.len() implies #[trigger] u[j] != '\n' by {
        assert(crate::link::is_permissive(u[j]));
    }
    assert(crate::link::is_permissive(u.last()));
}

/// Re-associate the queue rendering around its first row.
proof fn lemma_queue_rows_left(s: Seq<Seq<char>>)
    requires
        s.len() >= 2,
    ensures
        queue_rows(s) == s[0] + seq!['\n'] + queue_rows(s.drop_first()),
    decreases s.len(),
{
    if s.len() == 2 {
        assert(s.drop_last() =~= seq![s[0]]);
        assert(s.drop_first() =~= seq![s[1]]);
        assert(queue_rows(seq![s[0]]) == s[0]);
        assert(queue_rows(seq![s[1]]) == s[1]);
    } else {
        lemma_queue_rows_left(s.drop_last());
        assert(s.drop_last().drop_first() =~= s.drop_first().drop_last());
        assert(s.drop_last()[0] == s[0]);
        assert(s.drop_first().last() == s.last());
        assert(queue_rows(s) == queue_rows(s.drop_last()) + seq!['\n'] + s.last());
        assert(s[0] + seq!['\n'] + (queue_rows(s.drop_first().drop_last()) + seq!['\n']
            + s.drop_first().last()) =~= (s[0] + seq!['\n'] + queue_rows(
            s.drop_first().drop_last(),
        )) + seq!['\n'] + s.last());
    }
}

/// Replaying the whole rendered `to_fetch.csv` body is exactly re-admitting
/// the queued URLs, in order: the queue journal loses nothing and invents
/// nothing.
pub proof fn lemma_queue_replay_all(c: CollectionV, s: Seq<Seq<char>>)
    requires
        forall|i: int| 0 <= i < s.len() ==> wf_url(#[trigger] s[i]),
    ensures
        load_queue_lines(c, lines_of(to_fetch_csv(s))) == add_all_spec(c, s),
    decreases s.len(),
{
    let full = to_fetch_csv(s);
    if s.len() == 0 {
        assert(full =~= seq!['\n']);
        crate::text::lemma_find_char_bounds(full, '\n', 0);
        assert(full[0] == '\n');
        assert(find_char_from(full, '\n', 0) == 0);
        assert(full.subrange(1, 1) =~= Seq::<char>::empty());
        assert(lines_of(Seq::<char>::empty()) =~= Seq::<Seq<char>>::empty());
        assert(lines_of(full) =~= seq![strip_cr(full.subrange(0, 0))] + lines_of(
            full.subrange(1, 1),
        ));
        let l = strip_cr(full.subrange(0, 0));
        assert(l =~= Seq::<char>::empty());
        assert(crate::link::truncate_keepable(l) =~= Seq::<char>::empty());
        assert(crate::link::trim_slash(Seq::<char>::empty()) =~= Seq::<char>::empty());
        assert(crate::link::encode_semi(Seq::<char>::empty()) =~= Seq::<char>::empty());
        assert(crate::link::canon_of(l) =~= Seq::<char>::empty());
        assert(crate::link::find_marker(Seq::<char>::empty()) == -1);
        assert(parse_spec(l) is Err);
        assert(load_queue_line(c, l) == c);
        assert(lines_of(full) =~= seq![l]);
        assert(lines_of(full)[0] == l);
        assert(lines_of(full).drop_first() =~= Seq::<Seq<char>>::empty());
        assert(load_queue_lines(c, Seq::<Seq<char>>::empty()) == c);
        assert(load_queue_lines(c, lines_of(full)) == c);
    } else {
        let row = s[0];
        lemma_queue_row_chars(row);
        let rest = if s.len() == 1 {
            Seq::<char>::empty()
        } else {
            queue_rows(s.drop_first()) + seq!['\n']
        };
        if s.len() == 1 {
            assert(full =~= row + seq!['\n'] + rest);
        } else {
            lemma_queue_rows_left(s);
            assert(full =~= row + seq!['\n'] + rest);
        }
        let e = row.len() as int;
        assert forall|j: int| 0 <= j < e implies full[j] != '\n' by {
            assert(full[j] == row[j]);
        }
        assert(full[e] == '\n');
        crate::text::lemma_find_char_first(full, '\n', 0, e);
        assert(full.subrange(0, e) =~= row);
        assert(strip_cr(row) =~= row);
        assert(full.subrange(e + 1, full.len() as int) =~= rest);
        assert(lines_of(full) =~= seq![row] + lines_of(rest));
        crate::link::lemma_wf_parse_identity(row);
        let c1 = load_queue_line(c, row);
        assert(c1 == add_spec(c, row));
        assert(lines_of(full)[0] == row);
        assert(lines_of(full).drop_first() =~= lines_of(rest));
        assert(load_queue_lines(c, lines_of(full)) == load_queue_lines(c1, lines_of(rest)));
        assert(add_all_spec(c, s) == add_all_spec(c1, s.drop_first()));
        if s.len() == 1 {
            assert(lines_of(Seq::<char>::empty()) =~= Seq::<Seq<char>>::empty());
            assert(lines_of(rest) =~= Seq::<Seq<char>>::empty());
            assert(load_queue_lines(c1, Seq::<Seq<char>>::empty()) == c1);
            assert(s.drop_first() =~= Seq::<Seq<char>>::empty());
            assert(add_all_spec(c1, Seq::<Seq<char>>::empty()) == c1);
        } else {
            assert(rest =~= to_fetch_csv(s.drop_first()));
            lemma_queue_replay_all(c1, s.drop_first());
        }
    }
}

/// The journal round trip in one statement: loading what a flush rendered,
/// below the headers the journal files carry, re-admits exactly the queued
/// URLs and marks every saved row's URL hash as known.
pub proof fn lemma_journal_round_trip(
    c: CollectionV,
    fresh: CollectionV,
    hdr1: Seq<char>,
    hdr2: Seq<char>,
)
    requires
        collection_wf(c),
        hdr1.len() >= 1,
        hdr1.last() == '\n',
        forall|j: int| 0 <= j < hdr1.len() - 1 ==> #[trigger] hdr1[j] != '\n',
        hdr2.len() >= 1,
        hdr2.last() == '\n',
        forall|j: int| 0 <= j < hdr2.len() - 1 ==> #[trigger] hdr2[j] != '\n',
    ensures
        ({
            let mid = load_queue_lines(fresh, body_lines(hdr1 + to_fetch_csv(c.to_fetch)));
            let fin = load_fetched_lines(mid, body_lines(hdr2 + fetcheds_csv(c.to_save)));
            &&& mid == add_all_spec(fresh, c.to_fetch)
            &&& fin.to_fetch == mid.to_fetch
            &&& mid.known.subset_of(fin.known)
            &&& forall|i: int|
                0 <= i < c.to_save.len() ==> fin.known.contains(
                    hash_of((#[trigger] c.to_save[i]).0),
                )
        }),
{
    lemma_header_lines(hdr1, to_fetch_csv(c.to_fetch));
    lemma_queue_replay_all(fresh, c.to_fetch);
    lemma_header_lines(hdr2, fetcheds_csv(c.to_save));
    let mid = load_queue_lines(fresh, body_lines(hdr1 + to_fetch_csv(c.to_fetch)));
    lemma_fetched_replay_all(mid, c.to_save);
}

/// No two URLs in a well-formed frontier's queue share a hash.
pub proof fn lemma_frontier_deduplicated(c: CollectionV)
    requires
        collection_wf(c),
    ensures
        forall|i: int, j: int|
            0 <= i < j < c.to_fetch.len() ==> hash_of(c.to_fetch[i]) != hash_of(c.to_fetch[j]),
{
}

/// A well-formed scheduler never has more fetches in flight than the cap.
pub proof fn lemma_in_flight_bounded(c: CollectionV)
    requires
        collection_wf(c),
    ensures
        0 <= c.in_flight <= CONCURRENT_REQUESTS,
{
}

/// A header line — characters without a newline, closed by one — drops out
/// of a journal file's body.
pub proof fn lemma_header_lines(h: Seq<char>, rest: Seq<char>)
    requires
        h.len() >= 1,
        h.last() == '\n',
        forall|j: int| 0 <= j < h.len() - 1 ==> #[trigger] h[j] != '\n',
    ensures
        body_lines(h + rest) == lines_of(rest),
{
    let full = h + rest;
    let e = h.len() - 1;
    assert forall|j: int| 0 <= j < e implies full[j] != '\n' by {
        assert(full[j] == h[j]);
    }
    assert(full[e] == '\n');
    crate::text::lemma_find_char_first(full, '\n', 0, e);
    assert(full.subrange(e + 1, full.len() as int) =~= rest);
    assert(lines_of(full) =~= seq![strip_cr(full.subrange(0, e))] + lines_of(rest));
    assert(lines_of(full).drop_first() =~= lines_of(rest));
}

/// Resuming from the journals of a finished run: with the frontier empty at
/// completion, a fresh collection that replays the written journals gets an
/// empty queue, knows the hash of every journaled URL, and admitting any of
/// those URLs again changes nothing — no URL is dispatched twice across the
/// restart.
pub proof fn lemma_resume_after_completion(
    c: CollectionV,
    fresh: CollectionV,
    hdr1: Seq<char>,
    hdr2: Seq<char>,
)
    requires
        collection_wf(c),
        c.to_fetch.len() == 0,
        hdr1.len() >= 1,
        hdr1.last() == '\n',
        forall|j: int| 0 <= j < hdr1.len() - 1 ==> #[trigger] hdr1[j] != '\n',
        hdr2.len() >= 1,
        hdr2.last() == '\n',
        forall|j: int| 0 <= j < hdr2.len() - 1 ==> #[trigger] hdr2[j] != '\n',
    ensures
        ({
            let mid = load_queue_lines(fresh, body_lines(hdr1 + to_fetch_csv(c.to_fetch)));
            let fin = load_fetched_lines(mid, body_lines(hdr2 + fetcheds_csv(c.to_save)));
            &&& fin.to_fetch == fresh.to_fetch
            &&& fresh.known.subset_of(fin.known)
            &&& forall|i: int|
                0 <= i < c.to_save.len() ==> fin.known.contains(
                    hash_of((#[trigger] c.to_save[i]).0),
                )
            &&& forall|u: Seq<char>|
                fin.known.contains(hash_of(u)) ==> #[trigger] add_spec(fin, u) == fin
        }),
{
    lemma_header_lines(hdr1, to_fetch_csv(c.to_fetch));
    let body1 = to_fetch_csv(c.to_fetch);
    assert(body1 =~= seq!['\n']);
    crate::text::lemma_find_char_bounds(body1, '\n', 0);
    assert(body1[0] == '\n');
    assert(find_char_from(body1, '\n', 0) == 0);
    assert(body1.subrange(1, 1) =~= Seq::<char>::empty());
    assert(lines_of(Seq::<char>::empty()) =~= Seq::<Seq<char>>::empty());
    assert(lines_of(body1) =~= seq![strip_cr(body1.subrange(0, 0))] + lines_of(
        body1.subrange(1, 1),
    ));
    let l = strip_cr(body1.subrange(0, 0));
    assert(l =~= Seq::<char>::empty());
    assert(crate::link::truncate_keepable(l) =~= Seq::<char>::empty());
    assert(crate::link::trim_slash(Seq::<char>::empty()) =~= Seq::<char>::empty());
    assert(crate::link::encode_semi(Seq::<char>::empty()) =~= Seq::<char>::empty());
    assert(crate::link::canon_of(l) =~= Seq::<char>::empty());
    assert(crate::link::find_marker(Seq::<char>::empty()) == -1);
    assert(parse_spec(l) is Err);
    assert(load_queue_line(fresh, l) == fresh);
    assert(lines_of(body1) =~= seq![l]);
    assert(lines_of(body1)[0] == l);
    assert(lines_of(body1).drop_first() =~= Seq::<Seq<char>>::empty());
    assert(load_queue_lines(fresh, Seq::<Seq<char>>::empty()) == fresh);
    assert(body_lines(hdr1 + body1) == lines_of(body1));
    let mid = load_queue_lines(fresh, body_lines(hdr1 + body1));
    assert(mid == fresh);
    lemma_header_lines(hdr2, fetcheds_csv(c.to_save));
    lemma_fetched_replay_all(mid, c.to_save);
}

/// Admission only grows the known set, and makes the URL's hash known.
pub proof fn lemma_add_known_grows(c: CollectionV, u: Seq<char>)
    ensures
        c.known.subset_of(add_spec(c, u).known),
        add_spec(c, u).known.contains(hash_of(u)),
{
}

/// A URL whose hash was once dispatched is no longer anywhere in a
/// well-formed frontier's queue: it cannot be dispatched a second time.
pub proof fn lemma_no_redispatch(c: CollectionV, u: Seq<char>)
    requires
        collection_wf(c),
        c.dispatched.contains(hash_of(u)),
    ensures
        forall|i: int| 0 <= i < c.to_fetch.len() ==> c.to_fetch[i] != u,
{
    assert forall|i: int| 0 <= i < c.to_fetch.len() implies c.to_fetch[i] != u by {
        if c.to_fetch[i] == u {
            assert(!c.dispatched.contains(hash_of(c.to_fetch[i])));
        }
    }
}

} // verus!
