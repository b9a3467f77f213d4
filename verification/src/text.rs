//! Character and string utilities: whitespace trimming, splitting on a
//! separator, joining, and the few string operations taken from outside
//! this crate.

use vstd::prelude::*;

verus! {

/// The whitespace characters that trimming removes: the Unicode
/// `White_Space` set.
pub open spec fn is_ws_char(c: char) -> bool {
    let v = c as u32;
    v == 0x09 || v == 0x0A || v == 0x0B || v == 0x0C || v == 0x0D || v == 0x20 || v == 0x85
        || v == 0xA0 || v == 0x1680 || (0x2000 <= v && v <= 0x200A) || v == 0x2028 || v == 0x2029
        || v == 0x202F || v == 0x205F || v == 0x3000
}

/// Executable test for `is_ws_char`.
pub fn is_ws(c: char) -> (b: bool)
    ensures
        b == is_ws_char(c),
{
    let v = c as u32;
    v == 0x09 || v == 0x0A || v == 0x0B || v == 0x0C || v == 0x0D || v == 0x20 || v == 0x85
        || v == 0xA0 || v == 0x1680 || (0x2000 <= v && v <= 0x200A) || v == 0x2028 || v == 0x2029
        || v == 0x202F || v == 0x205F || v == 0x3000
}

/// `s` with its leading whitespace removed.
pub open spec fn trim_start_spec(s: Seq<char>) -> Seq<char>
    decreases s.len(),
{
    if s.len() > 0 && is_ws_char(s[0]) {
        trim_start_spec(s.drop_first())
    } else {
        s
    }
}

/// `s` with its trailing whitespace removed.
pub open spec fn trim_end_spec(s: Seq<char>) -> Seq<char>
    decreases s.len(),
{
    if s.len() > 0 && is_ws_char(s.last()) {
        trim_end_spec(s.drop_last())
    } else {
        s
    }
}

/// `s` with surrounding whitespace removed.
pub open spec fn trim_spec(s: Seq<char>) -> Seq<char> {
    trim_end_spec(trim_start_spec(s))
}

/// If the first `i` characters are whitespace and the character at `i`
/// (if any) is not, trimming the front yields the suffix from `i`.
proof fn lemma_trim_start_at(s: Seq<char>, i: int)
    requires
        0 <= i <= s.len(),
        forall|j: int| 0 <= j < i ==> is_ws_char(s[j]),
        i == s.len() || !is_ws_char(s[i]),
    ensures
        trim_start_spec(s) == s.skip(i),
    decreases i,
{
    if i == 0 {
        assert(s.skip(0) =~= s);
    } else {
        assert(is_ws_char(s[0]));
        lemma_trim_start_at(s.drop_first(), i - 1);
        assert(s.drop_first().skip(i - 1) =~= s.skip(i));
    }
}

/// If the characters from `i` on are whitespace and the character just
/// before `i` (if any) is not, trimming the back yields the prefix up to `i`.
proof fn lemma_trim_end_at(s: Seq<char>, i: int)
    requires
        0 <= i <= s.len(),
        forall|j: int| i <= j < s.len() ==> is_ws_char(s[j]),
        i == 0 || !is_ws_char(s[i - 1]),
    ensures
        trim_end_spec(s) == s.take(i),
    decreases s.len() - i,
{
    if i == s.len() {
        assert(s.take(i) =~= s);
    } else {
        assert(is_ws_char(s.last()));
        lemma_trim_end_at(s.drop_last(), i);
        assert(s.drop_last().take(i) =~= s.take(i));
    }
}

/// A trimmed string: what remains of `s` after removing surrounding
/// whitespace.
pub fn trim_str(s: &str) -> (r: String)
    ensures
        r@ == trim_spec(s@),
{
    let n = s.unicode_len();
    let mut start: usize = 0;
    while start < n && is_ws(s.get_char(start))
        invariant
            0 <= start <= n,
            n == s@.len(),
            forall|j: int| 0 <= j < start ==> is_ws_char(s@[j]),
        decreases n - start,
    {
        start = start + 1;
    }
    proof {
        lemma_trim_start_at(s@, start as int);
    }
    let mut end: usize = n;
    while end > start && is_ws(s.get_char(end - 1))
        invariant
            start <= end <= n,
            n == s@.len(),
            forall|j: int| end <= j < n ==> is_ws_char(s@[j]),
        decreases end,
    {
        end = end - 1;
    }
    proof {
        lemma_trim_end_at(s@.skip(start as int), end - start as int);
        assert(s@.skip(start as int).take(end - start as int) =~= s@.subrange(
            start as int,
            end as int,
        ));
    }
    let piece = s.substring_char(start, end);
    String::from_str(piece)
}

/// Index of the first `sep` in `s`, or `s.len()` if there is none.
pub open spec fn first_sep(s: Seq<char>, sep: char) -> int
    decreases s.len(),
{
    if s.len() == 0 {
        0
    } else if s[0] == sep {
        0
    } else {
        1 + first_sep(s.drop_first(), sep)
    }
}

/// The position of the first `sep` is determined by what stands before it.
proof fn lemma_first_sep_at(s: Seq<char>, sep: char, k: int)
    requires
        0 <= k <= s.len(),
        forall|j: int| 0 <= j < k ==> s[j] != sep,
        k == s.len() || s[k] == sep,
    ensures
        first_sep(s, sep) == k,
    decreases k,
{
    if s.len() > 0 {
        if k == 0 {
        } else {
            lemma_first_sep_at(s.drop_first(), sep, k - 1);
        }
    }
}

/// The pieces of `s` between occurrences of `sep`, in order.  An empty
/// sequence yields one empty piece, and a trailing `sep` yields a final
/// empty piece.
pub open spec fn split_char(s: Seq<char>, sep: char) -> Seq<Seq<char>>
    decreases s.len(),
{
    let k = first_sep(s, sep);
    if !(0 <= k < s.len()) {
        seq![s]
    } else {
        seq![s.take(k)] + split_char(s.skip(k + 1), sep)
    }
}

/// The pieces joined back with `sep` between them.
pub open spec fn join_with(ts: Seq<Seq<char>>, sep: Seq<char>) -> Seq<char>
    decreases ts.len(),
{
    if ts.len() == 0 {
        Seq::empty()
    } else if ts.len() == 1 {
        ts[0]
    } else {
        join_with(ts.drop_last(), sep) + sep + ts.last()
    }
}

/// Each piece of `s` between commas, trimmed of surrounding whitespace.
pub open spec fn clean_tags(s: Seq<char>) -> Seq<Seq<char>> {
    split_char(s, ',').map_values(|p: Seq<char>| trim_spec(p))
}

/// Splitting steps over the first piece: if no `sep` stands before `k`
/// and one stands at `k`, the split is that prefix followed by the split
/// of what comes after.
pub proof fn lemma_split_step(s: Seq<char>, sep: char, k: int)
    requires
        0 <= k < s.len(),
        forall|j: int| 0 <= j < k ==> s[j] != sep,
        s[k] == sep,
    ensures
        split_char(s, sep) == seq![s.take(k)] + split_char(s.skip(k + 1), sep),
{
    lemma_first_sep_at(s, sep, k);
}

/// If `s` holds no `sep`, it is its own single piece.
pub proof fn lemma_split_whole(s: Seq<char>, sep: char)
    requires
        forall|j: int| 0 <= j < s.len() ==> s[j] != sep,
    ensures
        split_char(s, sep) == seq![s],
{
    lemma_first_sep_at(s, sep, s.len() as int);
}

/// The comma-separated pieces of `s`, each trimmed: the form in which a
/// tag string entered as `"t1, t2"` becomes the tag list `["t1", "t2"]`.
pub fn split_and_trim(s: &str) -> (r: Vec<String>)
    ensures
        r.deep_view() == clean_tags(s@),
{
    let n = s.unicode_len();
    let mut r: Vec<String> = Vec::new();
    let mut seg_start: usize = 0;
    let mut i: usize = 0;
    proof {
        assert(s@.skip(0) =~= s@);
        assert(r.deep_view() =~= Seq::<Seq<char>>::empty());
    }
    while i < n
        invariant
            0 <= seg_start <= i <= n,
            n == s@.len(),
            forall|j: int| seg_start <= j < i ==> s@[j] != ',',
            clean_tags(s@) =~= r.deep_view() + split_char(s@.skip(seg_start as int), ',').map_values(
                |p: Seq<char>| trim_spec(p),
            ),
        decreases n - i,
    {
        let c = s.get_char(i);
        if c == ',' {
            let piece = s.substring_char(seg_start, i);
            let trimmed = trim_str(piece);
            proof {
                let rest = s@.skip(seg_start as int);
                lemma_split_step(rest, ',', i - seg_start as int);
                assert(rest.take(i - seg_start as int) =~= s@.subrange(
                    seg_start as int,
                    i as int,
                ));
                assert(rest.skip(i - seg_start + 1) =~= s@.skip(i + 1));
                assert((seq![rest.take(i - seg_start as int)] + split_char(
                    s@.skip(i + 1),
                    ',',
                )).map_values(|p: Seq<char>| trim_spec(p)) =~= seq![trim_spec(
                    s@.subrange(seg_start as int, i as int),
                )] + split_char(s@.skip(i + 1), ',').map_values(|p: Seq<char>| trim_spec(p)));
            }
            r.push(trimmed);
            proof {
                assert(r.deep_view() =~= r.deep_view().subrange(0, r.deep_view().len() - 1)
                    + seq![trim_spec(s@.subrange(seg_start as int, i as int))]);
            }
            seg_start = i + 1;
        }
        i = i + 1;
    }
    let piece = s.substring_char(seg_start, n);
    let trimmed = trim_str(piece);
    proof {
        let rest = s@.skip(seg_start as int);
        lemma_split_whole(rest, ',');
        assert(rest =~= s@.subrange(seg_start as int, n as int));
        assert(seq![rest].map_values(|p: Seq<char>| trim_spec(p)) =~= seq![trim_spec(rest)]);
    }
    r.push(trimmed);
    proof {
        assert(r.deep_view() =~= clean_tags(s@));
    }
    r
}

/// Whether two string slices hold the same characters.
pub fn str_eq(a: &str, b: &str) -> (r: bool)
    ensures
        r == (a@ == b@),
{
    let na = a.unicode_len();
    let nb = b.unicode_len();
    if na != nb {
        return false;
    }
    let mut i: usize = 0;
    while i < na
        invariant
            0 <= i <= na,
            na == a@.len(),
            na == b@.len(),
            forall|j: int| 0 <= j < i ==> a@[j] == b@[j],
        decreases na - i,
    {
        if a.get_char(i) != b.get_char(i) {
            return false;
        }
        i = i + 1;
    }
    proof {
        assert(a@ =~= b@);
    }
    true
}

/// The pieces of `s` between occurrences of `sep`, in order.
pub fn split_str(s: &str, sep: char) -> (r: Vec<String>)
    ensures
        r.deep_view() == split_char(s@, sep),
{
    let n = s.unicode_len();
    let mut r: Vec<String> = Vec::new();
    let mut seg_start: usize = 0;
    let mut i: usize = 0;
    proof {
        assert(s@.skip(0) =~= s@);
        assert(r.deep_view() =~= Seq::<Seq<char>>::empty());
    }
    while i < n
        invariant
            0 <= seg_start <= i <= n,
            n == s@.len(),
            forall|j: int| seg_start <= j < i ==> s@[j] != sep,
            split_char(s@, sep) =~= r.deep_view() + split_char(s@.skip(seg_start as int), sep),
        decreases n - i,
    {
        let c = s.get_char(i);
        if c == sep {
            let piece = String::from_str(s.substring_char(seg_start, i));
            proof {
                let rest = s@.skip(seg_start as int);
                lemma_split_step(rest, sep, i - seg_start as int);
                assert(rest.take(i - seg_start as int) =~= s@.subrange(seg_start as int, i as int));
                assert(rest.skip(i - seg_start + 1) =~= s@.skip(i + 1));
            }
            r.push(piece);
            proof {
                assert(r.deep_view() =~= r.deep_view().subrange(0, r.deep_view().len() - 1)
                    + seq![s@.subrange(seg_start as int, i as int)]);
            }
            seg_start = i + 1;
        }
        i = i + 1;
    }
    let piece = String::from_str(s.substring_char(seg_start, n));
    proof {
        let rest = s@.skip(seg_start as int);
        lemma_split_whole(rest, sep);
        assert(rest =~= s@.subrange(seg_start as int, n as int));
    }
    r.push(piece);
    proof {
        assert(r.deep_view() =~= split_char(s@, sep));
    }
    r
}

/// What `str::to_lowercase` returns: a function of the characters alone.
pub uninterp spec fn lower_of(s: Seq<char>) -> Seq<char>;

/// Relies on str::to_lowercase: the result depends on the characters
/// alone, and an empty string stays empty.
#[verifier::external_body]
pub fn to_lower(s: &str) -> (r: String)
    ensures
        r@ == lower_of(s@),
        s@.len() == 0 ==> r@.len() == 0,
{
    s.to_lowercase()
}

/// `needle` occurs somewhere in `hay`.
pub open spec fn contains_sub(hay: Seq<char>, needle: Seq<char>) -> bool {
    exists|k: int|
        0 <= k && k + needle.len() <= hay.len() && #[trigger] hay.subrange(k, k + needle.len())
            == needle
}

/// Relies on str::contains: true exactly when the needle occurs as a
/// substring of the haystack.
#[verifier::external_body]
pub fn str_contains(hay: &str, needle: &str) -> (r: bool)
    ensures
        r == contains_sub(hay@, needle@),
{
    hay.contains(needle)
}

/// Relies on String::push: appends the one character to the string.
#[verifier::external_body]
pub fn push_char(s: &mut String, c: char)
    ensures
        final(s)@ == old(s)@.push(c),
{
    s.push(c);
}

} // verus!
