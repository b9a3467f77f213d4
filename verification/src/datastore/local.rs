//! The file-backed store's pure part: resolving the data directory and
//! the path of the backing file.  Creating the directory and reading or
//! writing the file are input/output and live with the caller.

use vstd::prelude::*;

verus! {

/// The data directory of a file-backed store, with `links.jsonl` inside
/// it as the backing file.
pub struct LocalDataStore {
    pub path: String,
}

/// Relies on shellexpand::tilde: input that does not start with `~` comes
/// back unchanged; input that does either comes back unchanged or has the
/// leading `~` replaced by the user's home directory.
#[verifier::external_body]
fn expand_tilde(s: &str) -> (r: String)
    ensures
        s@.len() == 0 || s@[0] != '~' ==> r@ == s@,
        r@ == s@ || (s@.len() >= 1 && s@[0] == '~' && exists|h: Seq<char>| r@ == h + s@.skip(1)),
{
    shellexpand::tilde(s).into_owned()
}

impl LocalDataStore {
    /// Resolves the data directory: the given path if there is one, else
    /// the dotfile directory `~/.mystuff` under the user's home (left as
    /// written when no home directory is known).
    pub fn new(arg_data: Option<String>) -> (s: Self)
        ensures
            match arg_data {
                Some(p) => s.path@ == p@,
                None => s.path@ == "~/.mystuff"@ || (exists|h: Seq<char>|
                    s.path@ == h + "/.mystuff"@),
            },
    {
        let data = match arg_data {
            Some(p) => p,
            None => {
                let expanded = expand_tilde("~/.mystuff");
                proof {
                    reveal_strlit("~/.mystuff");
                    reveal_strlit("/.mystuff");
                    assert("~/.mystuff"@.skip(1) =~= "/.mystuff"@);
                }
                expanded
            },
        };
        LocalDataStore { path: data }
    }

    /// The path of the backing file: `links.jsonl` inside the data
    /// directory.
    pub fn links_file_path(&self) -> (p: String)
        ensures
            p@ == self.path@ + "/links.jsonl"@,
    {
        let mut p = self.path.clone();
        p.append("/links.jsonl");
        p
    }
}

} // verus!
