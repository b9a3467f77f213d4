//! The command surface of the tool, as plain data: the command-line
//! front end parses user input into this shape before calling the
//! library.

use vstd::prelude::*;

verus! {

/// The subcommands the tool understands.
pub enum Commands {
    /// Manage links: add one url (with tags and a description), or list
    /// all stored links when no url is given.
    Link { add: Option<String>, tag: Vec<String>, description: Option<String> },
}

} // verus!
