//! The persistence abstraction: a store holds the whole collection of
//! links and exposes it wholesale.

pub mod local;
pub mod memory;

use crate::collection::LinkMap;
use crate::types::LinkView;
use vstd::prelude::*;

verus! {

/// A store of the full link collection, behind two whole-collection
/// operations: load all, save all.
pub trait DataStore: Sized {
    /// The collection the store currently holds.
    spec fn links_view(&self) -> Map<Seq<char>, LinkView>;

    /// Loads the full current collection.
    fn get_links(&self) -> (r: LinkMap)
        ensures
            r@ == self.links_view(),
    ;

    /// Replaces the whole stored collection with the given one.
    fn set_links(&mut self, links: &LinkMap)
        ensures
            final(self).links_view() == links@,
    ;
}

/// Saving a collection and loading it back yields that collection: the
/// store's round trip, for every verified store.
pub fn set_then_get<T: DataStore>(store: &mut T, links: &LinkMap) -> (r: LinkMap)
    ensures
        r@ == links@,
{
    store.set_links(links);
    store.get_links()
}

} // verus!
