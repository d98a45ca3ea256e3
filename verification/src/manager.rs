//! A small two-bucket link store: the allowed host's links on one side and
//! everything else on the other, each kept duplicate-free.

use vstd::prelude::*;

use crate::link::Url;
use crate::link::insert_link;
use crate::link::views_of;

verus! {

/// Mathematical image of a [`LinkCollection`].
pub struct LinkCollectionV {
    pub insa: Seq<Seq<char>>,
    pub others: Seq<Seq<char>>,
}

/// Links on the allowed host and links elsewhere, without duplicates.
pub struct LinkCollection {
    insa_links: Vec<Url>,
    others: Vec<Url>,
}

impl View for LinkCollection {
    type V = LinkCollectionV;

    closed spec fn view(&self) -> LinkCollectionV {
        LinkCollectionV { insa: views_of(self.insa_links@), others: views_of(self.others@) }
    }
}

/// Append `u` to `v` unless an equal URL is already held.
fn push_unique(v: &mut Vec<Url>, u: Url)
    ensures
        views_of(final(v)@) == insert_link(views_of(old(v)@), u@),
{
    let mut k: usize = 0;
    while k < v.len()
        invariant
            0 <= k <= v@.len(),
            forall|t: int| 0 <= t < k ==> views_of(v@)[t] != u@,
        decreases v@.len() - k,
    {
        if v[k].eq(&u) {
            assert(views_of(v@)[k as int] == u@);
            return ;
        }
        k += 1;
    }
    let ghost pre = v@;
    assert(!views_of(v@).contains(u@));
    v.push(u);
    proof {
        assert(views_of(v@) =~= views_of(pre).push(v@.last()@));
    }
}

impl LinkCollection {
    /// An empty store.
    pub fn new() -> (r: LinkCollection)
        ensures
            r@.insa == Seq::<Seq<char>>::empty(),
            r@.others == Seq::<Seq<char>>::empty(),
    {
        let r = LinkCollection { insa_links: Vec::new(), others: Vec::new() };
        proof {
            assert(r@.insa =~= Seq::<Seq<char>>::empty());
            assert(r@.others =~= Seq::<Seq<char>>::empty());
        }
        r
    }

    /// Store a link of the allowed host.
    pub fn add_insa_link(&mut self, url: Url)
        ensures
            final(self)@.insa == insert_link(old(self)@.insa, url@),
            final(self)@.others == old(self)@.others,
    {
        push_unique(&mut self.insa_links, url);
    }

    /// Store a link off the allowed host.
    pub fn add_other_link(&mut self, url: Url)
        ensures
            final(self)@.others == insert_link(old(self)@.others, url@),
            final(self)@.insa == old(self)@.insa,
    {
        push_unique(&mut self.others, url);
    }

    /// Is the URL held in either bucket?
    pub fn contains(&self, url: Url) -> (r: bool)
        ensures
            r == (self@.insa.contains(url@) || self@.others.contains(url@)),
    {
        let mut k: usize = 0;
        while k < self.insa_links.len()
            invariant
                0 <= k <= self.insa_links@.len(),
                forall|t: int| 0 <= t < k ==> views_of(self.insa_links@)[t] != url@,
            decreases self.insa_links@.len() - k,
        {
            if self.insa_links[k].eq(&url) {
                assert(self@.insa[k as int] == url@);
                return true;
            }
            k += 1;
        }
        let mut k2: usize = 0;
        while k2 < self.others.len()
            invariant
                0 <= k2 <= self.others@.len(),
                forall|t: int| 0 <= t < k2 ==> views_of(self.others@)[t] != url@,
            decreases self.others@.len() - k2,
        {
            if self.others[k2].eq(&url) {
                assert(self@.others[k2 as int] == url@);
                return true;
            }
            k2 += 1;
        }
        false
    }

    /// The links of the allowed host.
    pub fn get_insa_urls(&self) -> (r: &Vec<Url>)
        ensures
            views_of(r@) == self@.insa,
    {
        &self.insa_links
    }
}

} // verus!
