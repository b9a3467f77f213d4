//! The link service: adding a link unless its url is already stored,
//! listing the stored links, and the tag bookkeeping around both.

use crate::collection::LinkMap;
use crate::datastore::DataStore;
use crate::text::{join_with, lower_of, to_lower, trim_spec, trim_str};
use crate::types::{Link, LinkView};
use vstd::prelude::*;

verus! {

/// Every tag of every link, lowercased and trimmed, in collection order.
pub open spec fn all_tags_lowered(s: Seq<LinkView>) -> Seq<Seq<char>>
    decreases s.len(),
{
    if s.len() == 0 {
        Seq::empty()
    } else {
        all_tags_lowered(s.drop_last()) + s.last().tags.map_values(
            |t: Seq<char>| trim_spec(lower_of(t)),
        )
    }
}

/// The sequence with later repetitions of an element removed.
pub open spec fn dedup_first(s: Seq<Seq<char>>) -> Seq<Seq<char>>
    decreases s.len(),
{
    if s.len() == 0 {
        Seq::empty()
    } else {
        let r = dedup_first(s.drop_last());
        if r.contains(s.last()) {
            r
        } else {
            r.push(s.last())
        }
    }
}

/// Whether the vector holds this exact string.
fn vec_contains_string(v: &Vec<String>, x: &String) -> (b: bool)
    ensures
        b == v.deep_view().contains(x@),
{
    let mut i: usize = 0;
    let n = v.len();
    while i < n
        invariant
            0 <= i <= n,
            n == v.len(),
            forall|j: int| 0 <= j < i ==> v.deep_view()[j] != x@,
        decreases n - i,
    {
        proof {
            assert(v.deep_view()[i as int] == v@[i as int]@);
        }
        if v[i] == *x {
            proof {
                assert(v.deep_view().contains(x@)) by {
                    assert(v.deep_view()[i as int] == x@);
                }
            }
            return true;
        }
        i = i + 1;
    }
    proof {
        assert(!v.deep_view().contains(x@)) by {
            if v.deep_view().contains(x@) {
                let j = choose|j: int| 0 <= j < v.deep_view().len() && v.deep_view()[j] == x@;
            }
        }
    }
    false
}

/// All distinct tags in use across the collection, each lowercased and
/// trimmed, keeping the first occurrence's position.
pub fn get_tags_from_links(links: &LinkMap) -> (r: Vec<String>)
    ensures
        r.deep_view() == dedup_first(all_tags_lowered(links.links_seq())),
{
    let mut out: Vec<String> = Vec::new();
    let n = links.num_links();
    let mut k: usize = 0;
    proof {
        assert(out.deep_view() =~= dedup_first(all_tags_lowered(links.links_seq().take(0))));
    }
    while k < n
        invariant
            0 <= k <= n,
            n == links.links_seq().len(),
            out.deep_view() == dedup_first(all_tags_lowered(links.links_seq().take(k as int))),
        decreases n - k,
    {
        let l = links.link_at(k);
        let m = l.tags.len();
        let mut j: usize = 0;
        let ghost base = all_tags_lowered(links.links_seq().take(k as int));
        let ghost lv = links.links_seq()[k as int];
        proof {
            assert(base + lv.tags.map_values(|t: Seq<char>| trim_spec(lower_of(t))).take(0) =~= base);
        }
        while j < m
            invariant
                0 <= j <= m,
                m == l.tags.len(),
                l@ == lv,
                base == all_tags_lowered(links.links_seq().take(k as int)),
                out.deep_view() == dedup_first(
                    base + lv.tags.map_values(|t: Seq<char>| trim_spec(lower_of(t))).take(j as int),
                ),
            decreases m - j,
        {
            let low = to_lower(l.tags[j].as_str());
            let tag = trim_str(low.as_str());
            let ghost pre = base + lv.tags.map_values(
                |t: Seq<char>| trim_spec(lower_of(t)),
            ).take(j as int);
            proof {
                assert(l.tags.deep_view()[j as int] == l.tags@[j as int]@);
                assert(tag@ == trim_spec(lower_of(lv.tags[j as int])));
                let next = base + lv.tags.map_values(
                    |t: Seq<char>| trim_spec(lower_of(t)),
                ).take(j + 1);
                assert(next =~= pre.push(tag@));
                assert(next.drop_last() =~= pre);
            }
            if !vec_contains_string(&out, &tag) {
                out.push(tag);
                proof {
                    assert(out.deep_view() =~= dedup_first(pre).push(
                        trim_spec(lower_of(lv.tags[j as int])),
                    ));
                }
            }
            j = j + 1;
        }
        proof {
            let full = lv.tags.map_values(|t: Seq<char>| trim_spec(lower_of(t)));
            assert(full.take(m as int) =~= full);
            assert(links.links_seq().take(k + 1).drop_last() =~= links.links_seq().take(k as int));
            assert(links.links_seq().take(k + 1).last() == lv);
            assert(all_tags_lowered(links.links_seq().take(k + 1)) =~= base + full);
        }
        k = k + 1;
    }
    proof {
        assert(links.links_seq().take(n as int) =~= links.links_seq());
    }
    out
}

/// Loads the collection; if the url is new, stores a link built from the
/// given fields (tags trimmed) and saves the whole collection back once;
/// if the url is already present, returns the stored link and changes
/// nothing.
pub fn add_link<T: DataStore>(
    datastore: &mut T,
    url: String,
    tags: Vec<String>,
    description: Option<String>,
) -> (link: Link)
    requires
        old(datastore).links_view().dom().contains(url@) || (description is Some && tags.len()
            > 0),
    ensures
        old(datastore).links_view().dom().contains(url@) ==> link@ == old(
            datastore,
        ).links_view()[url@] && final(datastore).links_view() == old(datastore).links_view(),
        !old(datastore).links_view().dom().contains(url@) ==> link@ == (LinkView {
            url: url@,
            description: description.unwrap()@,
            tags: tags.deep_view().map_values(|t: Seq<char>| trim_spec(t)),
        }) && final(datastore).links_view() == old(datastore).links_view().insert(url@, link@),
{
    let mut links = datastore.get_links();
    if links.contains_key(&url) {
        let stored = links.get(&url);
        stored.unwrap().clone()
    } else {
        let description = description.unwrap();
        let mut trimmed: Vec<String> = Vec::new();
        let m = tags.len();
        let mut j: usize = 0;
        proof {
            assert(trimmed.deep_view() =~= tags.deep_view().map_values(
                |t: Seq<char>| trim_spec(t),
            ).take(0));
        }
        while j < m
            invariant
                0 <= j <= m,
                m == tags.len(),
                trimmed.deep_view() == tags.deep_view().map_values(
                    |t: Seq<char>| trim_spec(t),
                ).take(j as int),
            decreases m - j,
        {
            let t = trim_str(tags[j].as_str());
            proof {
                assert(tags.deep_view()[j as int] == tags@[j as int]@);
                assert(tags.deep_view().map_values(|t: Seq<char>| trim_spec(t)).take(j + 1)
                    =~= tags.deep_view().map_values(|t: Seq<char>| trim_spec(t)).take(
                    j as int,
                ).push(trim_spec(tags@[j as int]@)));
            }
            trimmed.push(t);
            j = j + 1;
        }
        proof {
            let mapped = tags.deep_view().map_values(|t: Seq<char>| trim_spec(t));
            assert(mapped.take(m as int) =~= mapped);
        }
        let link = Link { url: url.clone(), description, tags: trimmed };
        links.upsert(link.clone());
        datastore.set_links(&links);
        link
    }
}

/// One human-readable line for a link: url, description, and the tags.
pub open spec fn line_of(l: LinkView) -> Seq<char> {
    l.url + seq![' ', '-', ' '] + l.description + seq![' ', '['] + join_with(
        l.tags,
        seq![',', ' '],
    ) + seq![']']
}

/// Renders one link as its listing line.
pub fn render_line(l: &Link) -> (r: String)
    ensures
        r@ == line_of(l@),
{
    let mut r = l.url.clone();
    r.append(" - ");
    r.append(l.description.as_str());
    r.append(" [");
    let m = l.tags.len();
    let mut j: usize = 0;
    proof {
        reveal_strlit(" - ");
        reveal_strlit(" [");
        reveal_strlit("]");
        reveal_strlit(", ");
        assert(l@.tags.take(0) =~= Seq::<Seq<char>>::empty());
    }
    let ghost head = l.url@ + seq![' ', '-', ' '] + l.description@ + seq![' ', '['];
    while j < m
        invariant
            0 <= j <= m,
            m == l.tags.len(),
            head == l.url@ + seq![' ', '-', ' '] + l.description@ + seq![' ', '['],
            r@ == head + join_with(l@.tags.take(j as int), seq![',', ' ']),
        decreases m - j,
    {
        if j > 0 {
            r.append(", ");
        }
        r.append(l.tags[j].as_str());
        proof {
            reveal_strlit(", ");
            assert(l@.tags[j as int] == l.tags@[j as int]@);
            assert(l@.tags.take(j + 1).drop_last() =~= l@.tags.take(j as int));
            if j == 0 {
                assert(join_with(l@.tags.take(1), seq![',', ' ']) == l@.tags[0]);
                assert(r@ =~= head + join_with(l@.tags.take(1), seq![',', ' ']));
            } else {
                let ts = l@.tags.take(j + 1);
                assert(ts.drop_last() == l@.tags.take(j as int));
                assert(ts.last() == l@.tags[j as int]);
                assert(ts.len() >= 2);
                assert(join_with(ts, seq![',', ' ']) == join_with(
                    l@.tags.take(j as int),
                    seq![',', ' '],
                ) + seq![',', ' '] + l@.tags[j as int]);
                assert(", "@ =~= seq![',', ' ']);
                assert(r@ =~= head + join_with(ts, seq![',', ' ']));
            }
        }
        j = j + 1;
    }
    r.append("]");
    proof {
        assert(l@.tags.take(m as int) =~= l@.tags);
        assert(r@ =~= line_of(l@));
    }
    r
}

/// Loads the collection and renders one line per link, in some order of
/// the stored mapping; the store is left as it was.
pub fn list_links<T: DataStore>(datastore: &mut T) -> (lines: Vec<String>)
    ensures
        final(datastore).links_view() == old(datastore).links_view(),
        exists|s: Seq<LinkView>|
            crate::collection::urls_unique(s) && #[trigger] crate::collection::map_of(s) == old(
                datastore,
            ).links_view() && lines.deep_view() == s.map_values(|l: LinkView| line_of(l)),
{
    let links = datastore.get_links();
    let n = links.num_links();
    let mut lines: Vec<String> = Vec::new();
    let mut k: usize = 0;
    proof {
        assert(lines.deep_view() =~= links.links_seq().take(0).map_values(
            |l: LinkView| line_of(l),
        ));
    }
    while k < n
        invariant
            0 <= k <= n,
            n == links.links_seq().len(),
            lines.deep_view() == links.links_seq().take(k as int).map_values(
                |l: LinkView| line_of(l),
            ),
        decreases n - k,
    {
        let l = links.link_at(k);
        let line = render_line(l);
        proof {
            assert(links.links_seq().take(k + 1).map_values(|l: LinkView| line_of(l))
                =~= links.links_seq().take(k as int).map_values(|l: LinkView| line_of(l)).push(
                line_of(links.links_seq()[k as int]),
            ));
        }
        lines.push(line);
        k = k + 1;
    }
    proof {
        assert(links.links_seq().take(n as int) =~= links.links_seq());
        assert(lines.deep_view() == links.links_seq().map_values(|l: LinkView| line_of(l)));
    }
    lines
}

/// The `link` command: with a url, add it (the fields must be resolved
/// beforehand unless the url is already stored) and return its line;
/// without one, return the listing.
pub fn handle_link<T: DataStore>(
    datastore: &mut T,
    url: Option<String>,
    tags: Vec<String>,
    description: Option<String>,
) -> (out: Vec<String>)
    requires
        url matches Some(u) ==> old(datastore).links_view().dom().contains(u@) || (
        description is Some && tags.len() > 0),
    ensures
        url matches Some(u) ==> {
            &&& old(datastore).links_view().dom().contains(u@) ==> out.deep_view() == seq![
                line_of(old(datastore).links_view()[u@]),
            ] && final(datastore).links_view() == old(datastore).links_view()
            &&& !old(datastore).links_view().dom().contains(u@) ==> {
                let lv = LinkView {
                    url: u@,
                    description: description.unwrap()@,
                    tags: tags.deep_view().map_values(|t: Seq<char>| trim_spec(t)),
                };
                out.deep_view() == seq![line_of(lv)] && final(datastore).links_view() == old(
                    datastore,
                ).links_view().insert(u@, lv)
            }
        },
        url is None ==> final(datastore).links_view() == old(datastore).links_view() && exists|
            s: Seq<LinkView>,
        |
            crate::collection::urls_unique(s) && #[trigger] crate::collection::map_of(s) == old(
                datastore,
            ).links_view() && out.deep_view() == s.map_values(|l: LinkView| line_of(l)),
{
    match url {
        Some(u) => {
            let link = add_link(datastore, u, tags, description);
            let line = render_line(&link);
            let mut out: Vec<String> = Vec::new();
            out.push(line);
            proof {
                assert(out.deep_view() =~= seq![line_of(link@)]);
            }
            out
        },
        None => list_links(datastore),
    }
}

/// What follows the last `", "` of `s`; all of `s` when it has none.
pub open spec fn after_last_sep(s: Seq<char>) -> Seq<char>
    decreases s.len(),
{
    if s.len() < 2 {
        s
    } else if s[s.len() - 2] == ',' && s[s.len() - 1] == ' ' {
        Seq::empty()
    } else {
        after_last_sep(s.drop_last()).push(s.last())
    }
}

/// If `", "` stands at `k` and nowhere later, what follows the last
/// `", "` is the suffix from `k + 2`.
proof fn lemma_after_last_sep_at(s: Seq<char>, k: int)
    requires
        0 <= k,
        k + 2 <= s.len(),
        s[k] == ',' && s[k + 1] == ' ',
        forall|t: int| k < t <= s.len() - 2 ==> !(#[trigger] s[t] == ',' && s[t + 1] == ' '),
    ensures
        after_last_sep(s) == s.skip(k + 2),
    decreases s.len(),
{
    if k == s.len() - 2 {
        assert(s.skip(k + 2) =~= Seq::<char>::empty());
    } else {
        lemma_after_last_sep_at(s.drop_last(), k);
        assert(after_last_sep(s) =~= s.drop_last().skip(k + 2).push(s.last()));
        assert(s.drop_last().skip(k + 2).push(s.last()) =~= s.skip(k + 2));
    }
}

/// With no `", "` anywhere, what follows the last one is all of `s`.
proof fn lemma_after_last_sep_none(s: Seq<char>)
    requires
        forall|t: int| 0 <= t <= s.len() - 2 ==> !(#[trigger] s[t] == ',' && s[t + 1] == ' '),
    ensures
        after_last_sep(s) == s,
    decreases s.len(),
{
    if s.len() >= 2 {
        lemma_after_last_sep_none(s.drop_last());
        assert(after_last_sep(s) =~= s.drop_last().push(s.last()));
        assert(s.drop_last().push(s.last()) =~= s);
    }
}

/// The suffix of `s` after its last `", "`.
fn after_last_sep_str(s: &str) -> (r: String)
    ensures
        r@ == after_last_sep(s@),
{
    let n = s.unicode_len();
    let mut j: usize = n;
    while j >= 2
        invariant
            0 <= j <= n,
            n == s@.len(),
            forall|t: int| j - 1 <= t <= n - 2 ==> !(#[trigger] s@[t] == ',' && s@[t + 1] == ' '),
        decreases j,
    {
        if s.get_char(j - 2) == ',' && s.get_char(j - 1) == ' ' {
            proof {
                lemma_after_last_sep_at(s@, j - 2);
            }
            let piece = s.substring_char(j, n);
            proof {
                assert(s@.subrange(j as int, n as int) =~= s@.skip(j as int));
            }
            return String::from_str(piece);
        }
        j = j - 1;
    }
    proof {
        lemma_after_last_sep_none(s@);
        assert(s@.subrange(0, n as int) =~= s@);
    }
    String::from_str(s.substring_char(0, n))
}

/// The tags whose lowercased form has `needle` somewhere in it, in order.
pub open spec fn matching_tags(tags: Seq<Seq<char>>, needle: Seq<char>) -> Seq<Seq<char>>
    decreases tags.len(),
{
    if tags.len() == 0 {
        Seq::empty()
    } else {
        let r = matching_tags(tags.drop_last(), needle);
        if crate::text::contains_sub(lower_of(tags.last()), needle) {
            r.push(tags.last())
        } else {
            r
        }
    }
}

/// The prefix that a completion keeps: everything up to the last comma
/// of `s` followed by `", "`, or nothing when `s` has no comma.
pub open spec fn completion_prefix(s: Seq<char>) -> Seq<char>
    decreases s.len(),
{
    if s.len() == 0 {
        Seq::empty()
    } else if s.last() == ',' {
        s.drop_last() + seq![',', ' ']
    } else {
        completion_prefix(s.drop_last())
    }
}

/// If the last comma of `s` stands at `k`, the completion keeps the
/// text before it plus `", "`.
proof fn lemma_completion_prefix_at(s: Seq<char>, k: int)
    requires
        0 <= k < s.len(),
        s[k] == ',',
        forall|t: int| k < t < s.len() ==> s[t] != ',',
    ensures
        completion_prefix(s) == s.take(k) + seq![',', ' '],
    decreases s.len(),
{
    if k == s.len() - 1 {
        assert(s.drop_last() =~= s.take(k));
    } else {
        lemma_completion_prefix_at(s.drop_last(), k);
        assert(s.drop_last().take(k) =~= s.take(k));
    }
}

/// With no comma in `s`, the completion keeps nothing.
proof fn lemma_completion_prefix_none(s: Seq<char>)
    requires
        forall|t: int| 0 <= t < s.len() ==> s[t] != ',',
    ensures
        completion_prefix(s) == Seq::<char>::empty(),
    decreases s.len(),
{
    if s.len() > 0 {
        lemma_completion_prefix_none(s.drop_last());
    }
}

/// What stands before the last comma of `s`, followed by `", "`; empty
/// when `s` has no comma.
fn completion_prefix_str(s: &str) -> (r: String)
    ensures
        r@ == completion_prefix(s@),
{
    let n = s.unicode_len();
    let mut j: usize = n;
    while j >= 1
        invariant
            0 <= j <= n,
            n == s@.len(),
            forall|t: int| j <= t < n ==> s@[t] != ',',
        decreases j,
    {
        if s.get_char(j - 1) == ',' {
            proof {
                lemma_completion_prefix_at(s@, j - 1);
            }
            let mut p = String::from_str(s.substring_char(0, j - 1));
            p.append(", ");
            proof {
                reveal_strlit(", ");
                assert(", "@ =~= seq![',', ' ']);
                assert(s@.subrange(0, j - 1) =~= s@.take(j - 1));
                assert(p@ =~= completion_prefix(s@));
            }
            return p;
        }
        j = j - 1;
    }
    proof {
        lemma_completion_prefix_none(s@);
    }
    String::new()
}

/// Suggests tags while the user types a comma-separated tag list,
/// matching the segment being typed against the known tags.
pub struct TagCompleter {
    pub tags: Vec<String>,
    pub input: String,
}

impl TagCompleter {
    /// The known tags whose lowercased form has somewhere in it the
    /// trimmed last comma-separated segment of the lowercased, trimmed
    /// input; no suggestions for blank input.  Remembers the input for a
    /// later completion.
    pub fn get_suggestions(&mut self, input: &str) -> (r: Vec<String>)
        ensures
            final(self).tags == old(self).tags,
            lower_of(trim_spec(input@)).len() == 0 ==> r.deep_view() == Seq::<Seq<char>>::empty()
                && final(self).input == old(self).input,
            lower_of(trim_spec(input@)).len() != 0 ==> r.deep_view() == matching_tags(
                old(self).tags.deep_view(),
                trim_spec(after_last_sep(lower_of(trim_spec(input@)))),
            ) && final(self).input@ == input@,
    {
        let trimmed = trim_str(input);
        let val_lower = to_lower(trimmed.as_str());
        if val_lower.as_str().unicode_len() == 0 {
            let r: Vec<String> = Vec::new();
            proof {
                assert(r.deep_view() =~= Seq::<Seq<char>>::empty());
            }
            return r;
        }
        let seg = after_last_sep_str(val_lower.as_str());
        let current = trim_str(seg.as_str());
        self.input = String::from_str(input);
        let ghost needle = trim_spec(after_last_sep(lower_of(trim_spec(input@))));
        let mut out: Vec<String> = Vec::new();
        let n = self.tags.len();
        let mut i: usize = 0;
        proof {
            assert(out.deep_view() =~= matching_tags(self.tags.deep_view().take(0), needle));
        }
        while i < n
            invariant
                0 <= i <= n,
                n == self.tags.len(),
                current@ == needle,
                out.deep_view() == matching_tags(self.tags.deep_view().take(i as int), needle),
            decreases n - i,
        {
            let low = to_lower(self.tags[i].as_str());
            proof {
                assert(self.tags.deep_view()[i as int] == self.tags@[i as int]@);
                assert(self.tags.deep_view().take(i + 1).drop_last() =~= self.tags.deep_view()
                    .take(i as int));
            }
            if crate::text::str_contains(low.as_str(), current.as_str()) {
                let t = self.tags[i].clone();
                out.push(t);
                proof {
                    assert(out.deep_view() =~= matching_tags(
                        self.tags.deep_view().take(i as int),
                        needle,
                    ).push(self.tags.deep_view()[i as int]));
                }
            }
            i = i + 1;
        }
        proof {
            assert(self.tags.deep_view().take(n as int) =~= self.tags.deep_view());
        }
        out
    }

    /// The completed input: what stands before the last comma of the
    /// remembered input, then `", "`, then the chosen suggestion; with
    /// no comma or no suggestion the respective part is empty.
    pub fn get_completion(&self, suggestion: Option<String>) -> (r: String)
        ensures
            r@ == completion_prefix(self.input@) + (match suggestion {
                Some(sug) => sug@,
                None => Seq::<char>::empty(),
            }),
    {
        let mut r = completion_prefix_str(self.input.as_str());
        match suggestion {
            Some(sug) => {
                r.append(sug.as_str());
                r
            },
            None => {
                proof {
                    assert(r@ =~= completion_prefix(self.input@) + Seq::<char>::empty());
                }
                r
            },
        }
    }
}

/// Adding the same url twice in succession returns the same link both
/// times, and the store ends with exactly that one entry under the url.
pub fn add_link_twice<T: DataStore>(
    datastore: &mut T,
    url: String,
    tags: Vec<String>,
    description: Option<String>,
) -> (r: (Link, Link))
    requires
        old(datastore).links_view().dom().contains(url@) || (description is Some && tags.len()
            > 0),
    ensures
        r.0@ == r.1@,
        final(datastore).links_view().dom().contains(url@),
        final(datastore).links_view()[url@] == r.0@,
        final(datastore).links_view() == (if old(datastore).links_view().dom().contains(url@) {
            old(datastore).links_view()
        } else {
            old(datastore).links_view().insert(url@, r.0@)
        }),
{
    let tags1 = tags.clone();
    let description1 = description.clone();
    proof {
        assert(tags1.deep_view() =~= tags.deep_view());
    }
    let l1 = add_link(datastore, url.clone(), tags1, description1);
    let l2 = add_link(datastore, url, tags, description);
    (l1, l2)
}

} // verus!
