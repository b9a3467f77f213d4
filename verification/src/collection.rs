//! The whole collection of links at a point in time: a mapping from url
//! to link, held as a vector whose urls are unique.

use crate::types::{Link, LinkView};
use vstd::pervasive::VecAdditionalExecFns;
use vstd::prelude::*;

verus! {

/// The mapping that a sequence of links denotes: each link keyed by its
/// url, with a later entry overriding an earlier one of the same url.
pub open spec fn map_of(s: Seq<LinkView>) -> Map<Seq<char>, LinkView>
    decreases s.len(),
{
    if s.len() == 0 {
        Map::empty()
    } else {
        map_of(s.drop_last()).insert(s.last().url, s.last())
    }
}

/// No two links of the sequence share a url.
pub open spec fn urls_unique(s: Seq<LinkView>) -> bool {
    forall|i: int, j: int| 0 <= i < j < s.len() ==> s[i].url != s[j].url
}

/// A url is in the domain of `map_of(s)` exactly when some link of `s`
/// carries it.
pub proof fn lemma_map_of_dom(s: Seq<LinkView>)
    ensures
        forall|u: Seq<char>|
            #[trigger] map_of(s).dom().contains(u) <==> exists|i: int|
                0 <= i < s.len() && #[trigger] s[i].url == u,
    decreases s.len(),
{
    if s.len() > 0 {
        lemma_map_of_dom(s.drop_last());
        assert(map_of(s) == map_of(s.drop_last()).insert(s.last().url, s.last()));
        assert forall|u: Seq<char>| #[trigger] map_of(s).dom().contains(u) implies exists|i: int|
            0 <= i < s.len() && #[trigger] s[i].url == u by {
            if u == s.last().url {
                assert(s[s.len() - 1].url == u);
            } else {
                assert(map_of(s.drop_last()).dom().contains(u));
                let i = choose|i: int|
                    0 <= i < s.drop_last().len() && #[trigger] s.drop_last()[i].url == u;
                assert(s.drop_last()[i] == s[i]);
                assert(s[i].url == u);
            }
        }
        assert forall|u: Seq<char>|
            (exists|i: int| 0 <= i < s.len() && #[trigger] s[i].url == u) implies #[trigger] map_of(
            s,
        ).dom().contains(u) by {
            let i = choose|i: int| 0 <= i < s.len() && #[trigger] s[i].url == u;
            if i < s.len() - 1 {
                assert(s.drop_last()[i].url == u);
            }
        }
    }
}

/// Under unique urls, the mapping sends each link's url to that link.
pub proof fn lemma_map_of_get(s: Seq<LinkView>, i: int)
    requires
        urls_unique(s),
        0 <= i < s.len(),
    ensures
        map_of(s).dom().contains(s[i].url),
        map_of(s)[s[i].url] == s[i],
    decreases s.len(),
{
    if i < s.len() - 1 {
        assert(urls_unique(s.drop_last()));
        lemma_map_of_get(s.drop_last(), i);
        assert(s.drop_last()[i] == s[i]);
        assert(s[i].url != s.last().url);
    }
}

/// Under unique urls, the mapping is finite and has one entry per link.
pub proof fn lemma_map_of_len(s: Seq<LinkView>)
    requires
        urls_unique(s),
    ensures
        map_of(s).dom().finite(),
        map_of(s).dom().len() == s.len(),
    decreases s.len(),
{
    if s.len() > 0 {
        assert(urls_unique(s.drop_last()));
        lemma_map_of_len(s.drop_last());
        lemma_map_of_dom(s.drop_last());
        assert(!map_of(s.drop_last()).dom().contains(s.last().url)) by {
            if map_of(s.drop_last()).dom().contains(s.last().url) {
                let i = choose|i: int|
                    0 <= i < s.drop_last().len() && #[trigger] s.drop_last()[i].url
                        == s.last().url;
                assert(s[i].url == s[s.len() - 1].url);
            }
        }
    }
}

/// Replacing the link at `i` by one with the same url updates just that
/// entry of the mapping.
proof fn lemma_map_of_update(s: Seq<LinkView>, i: int, l: LinkView)
    requires
        urls_unique(s),
        0 <= i < s.len(),
        s[i].url == l.url,
    ensures
        map_of(s.update(i, l)) =~= map_of(s).insert(l.url, l),
    decreases s.len(),
{
    if i == s.len() - 1 {
        assert(s.update(i, l).drop_last() =~= s.drop_last());
        assert(s.update(i, l).last() == l);
    } else {
        assert(urls_unique(s.drop_last()));
        assert(s.drop_last()[i] == s[i]);
        lemma_map_of_update(s.drop_last(), i, l);
        assert(s.update(i, l).drop_last() =~= s.drop_last().update(i, l));
        assert(s.update(i, l).last() == s.last());
        assert(s[i].url != s.last().url);
    }
}

/// The full collection of links, keyed by url.
#[derive(Debug)]
pub struct LinkMap {
    entries: Vec<Link>,
}

impl View for LinkMap {
    type V = Map<Seq<char>, LinkView>;

    open spec fn view(&self) -> Map<Seq<char>, LinkView> {
        map_of(self.links_seq())
    }
}

impl LinkMap {
    /// The links in insertion order.
    pub closed spec fn links_seq(&self) -> Seq<LinkView> {
        self.entries.deep_view()
    }

    #[verifier::type_invariant]
    spec fn wf(&self) -> bool {
        urls_unique(self.links_seq())
    }

    /// The empty collection.
    pub fn new() -> (m: LinkMap)
        ensures
            m@ == Map::<Seq<char>, LinkView>::empty(),
            m.links_seq() == Seq::<LinkView>::empty(),
    {
        let m = LinkMap { entries: Vec::new() };
        proof {
            assert(m.links_seq() =~= Seq::<LinkView>::empty());
        }
        m
    }

    /// The position of the link with this url, if any.
    fn find_index(&self, url: &String) -> (r: Option<usize>)
        ensures
            match r {
                Some(i) => i < self.links_seq().len() && self.links_seq()[i as int].url == url@,
                None => forall|j: int|
                    0 <= j < self.links_seq().len() ==> self.links_seq()[j].url != url@,
            },
    {
        let mut i: usize = 0;
        let n = self.entries.len();
        while i < n
            invariant
                0 <= i <= n,
                n == self.links_seq().len(),
                n == self.entries.len(),
                forall|j: int| 0 <= j < i ==> self.links_seq()[j].url != url@,
            decreases n - i,
        {
            proof {
                assert(self.links_seq()[i as int] == self.entries@[i as int]@);
            }
            if self.entries[i].url == *url {
                return Some(i);
            }
            i = i + 1;
        }
        None
    }

    /// Whether a link with this url is present.
    pub fn contains_key(&self, url: &String) -> (b: bool)
        ensures
            b == self@.dom().contains(url@),
    {
        proof {
            lemma_map_of_dom(self.links_seq());
        }
        self.find_index(url).is_some()
    }

    /// The link stored under this url, if any.
    pub fn get(&self, url: &String) -> (r: Option<&Link>)
        ensures
            match r {
                Some(l) => self@.dom().contains(url@) && l@ == self@[url@],
                None => !self@.dom().contains(url@),
            },
    {
        proof {
            use_type_invariant(self);
            lemma_map_of_dom(self.links_seq());
        }
        match self.find_index(url) {
            Some(i) => {
                proof {
                    lemma_map_of_get(self.links_seq(), i as int);
                }
                Some(&self.entries[i])
            },
            None => None,
        }
    }

    /// How many links the collection holds.
    pub fn len(&self) -> (n: usize)
        ensures
            n == self@.dom().len(),
    {
        proof {
            use_type_invariant(self);
            lemma_map_of_len(self.links_seq());
        }
        self.entries.len()
    }

    /// The number of stored links, as the length of the insertion order,
    /// whose urls are always pairwise distinct.
    pub fn num_links(&self) -> (n: usize)
        ensures
            n == self.links_seq().len(),
            urls_unique(self.links_seq()),
    {
        proof {
            use_type_invariant(self);
        }
        self.entries.len()
    }

    /// The link at a position of the insertion order.
    pub fn link_at(&self, i: usize) -> (l: &Link)
        requires
            i < self.links_seq().len(),
        ensures
            l@ == self.links_seq()[i as int],
            self@.dom().contains(l@.url),
            self@[l@.url] == l@,
    {
        proof {
            use_type_invariant(self);
            lemma_map_of_get(self.links_seq(), i as int);
        }
        &self.entries[i]
    }

    /// Stores the link under its url, adding it or replacing the previous
    /// link of the same url.
    pub fn upsert(&mut self, link: Link)
        ensures
            final(self)@ == old(self)@.insert(link@.url, link@),
            !old(self)@.dom().contains(link@.url) ==> final(self).links_seq() == old(
                self,
            ).links_seq().push(link@),
    {
        proof {
            use_type_invariant(&*self);
            lemma_map_of_dom(self.links_seq());
        }
        let ghost old_seq = self.links_seq();
        let idx = self.find_index(&link.url);
        let mut entries: Vec<Link> = Vec::new();
        core::mem::swap(&mut entries, &mut self.entries);
        proof {
            assert(self.links_seq() =~= Seq::<LinkView>::empty());
        }
        match idx {
            None => {
                entries.push(link);
                proof {
                    assert(entries.deep_view() =~= old_seq.push(link@));
                    assert(urls_unique(old_seq.push(link@)));
                    assert(old_seq.push(link@).drop_last() =~= old_seq);
                    assert(!map_of(old_seq).dom().contains(link@.url));
                }
            },
            Some(i) => {
                entries.set(i, link);
                proof {
                    assert(entries.deep_view() =~= old_seq.update(i as int, link@));
                    lemma_map_of_update(old_seq, i as int, link@);
                    assert(urls_unique(old_seq.update(i as int, link@)));
                }
            },
        }
        self.entries = entries;
    }

    /// A copy holding the same links in the same order.
    pub fn duplicate(&self) -> (r: LinkMap)
        ensures
            r@ == self@,
            r.links_seq() == self.links_seq(),
    {
        proof {
            use_type_invariant(self);
        }
        let entries = self.entries.clone();
        proof {
            assert(entries.deep_view() =~= self.entries.deep_view());
        }
        LinkMap { entries }
    }
}

} // verus!
