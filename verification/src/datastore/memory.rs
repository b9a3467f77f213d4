//! A store backed by process memory, for tests and ephemeral sessions.

use super::DataStore;
use crate::collection::LinkMap;
use crate::types::LinkView;
use vstd::prelude::*;

verus! {

/// Holds the collection in memory; nothing survives the process.
pub struct MemoryDataStore {
    pub links: LinkMap,
}

impl MemoryDataStore {
    /// An empty store.
    pub fn new() -> (s: Self)
        ensures
            s.links_view() == Map::<Seq<char>, LinkView>::empty(),
    {
        MemoryDataStore { links: LinkMap::new() }
    }
}

impl DataStore for MemoryDataStore {
    open spec fn links_view(&self) -> Map<Seq<char>, LinkView> {
        self.links@
    }

    /// A copy of the current collection, so that the caller cannot reach
    /// the store's own state through it.
    fn get_links(&self) -> (r: LinkMap)
        ensures
            r@ == self.links_view(),
    {
        self.links.duplicate()
    }

    /// Replaces the state with a copy of the given collection.
    fn set_links(&mut self, links: &LinkMap)
        ensures
            final(self).links_view() == links@,
    {
        self.links = links.duplicate();
    }
}

} // verus!
