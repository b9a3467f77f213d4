//! The bookmark record itself.

use crate::text::{clean_tags, split_and_trim};
use vstd::prelude::*;

verus! {

/// A single bookmark: a url (the unique key), a free-text description,
/// and an ordered list of tags.
#[derive(Debug)]
pub struct Link {
    pub url: String,
    pub description: String,
    pub tags: Vec<String>,
}

/// The mathematical value of a `Link`: its three fields as character
/// sequences.
#[verifier::ext_equal]
pub struct LinkView {
    pub url: Seq<char>,
    pub description: Seq<char>,
    pub tags: Seq<Seq<char>>,
}

impl View for Link {
    type V = LinkView;

    open spec fn view(&self) -> LinkView {
        LinkView { url: self.url@, description: self.description@, tags: self.tags.deep_view() }
    }
}

impl DeepView for Link {
    type V = LinkView;

    open spec fn deep_view(&self) -> LinkView {
        self.view()
    }
}

impl Clone for Link {
    /// A clone carries the same value.
    fn clone(&self) -> (r: Self)
        ensures
            r@ == self@,
    {
        let tags = self.tags.clone();
        proof {
            assert(tags.deep_view() =~= self.tags.deep_view());
        }
        Link { url: self.url.clone(), description: self.description.clone(), tags }
    }
}

impl Link {
    /// Builds a link from a url, a description, and the tags as one
    /// comma-separated string; each tag is trimmed of surrounding
    /// whitespace.
    pub fn new(url: &String, description: String, tags: String) -> (r: Link)
        ensures
            r@.url == url@,
            r@.description == description@,
            r@.tags == clean_tags(tags@),
    {
        let cleaned_tags = split_and_trim(tags.as_str());
        Link { url: url.clone(), description, tags: cleaned_tags }
    }
}

} // verus!
