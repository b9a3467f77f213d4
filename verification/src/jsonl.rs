//! The durable form of the collection: one JSON object per line, of the
//! shape `{"url": string, "description": string, "tags": [string, ...]}`.
//! Rendering and parsing are both defined here, down to the character.

use crate::collection::LinkMap;
use crate::text::{join_with, push_char, split_char};
use crate::types::{Link, LinkView};
use vstd::prelude::*;

verus! {

/// The hexadecimal digit for a value below sixteen.
pub open spec fn hex_digit_char(v: int) -> char {
    if v == 0 {
        '0'
    } else if v == 1 {
        '1'
    } else if v == 2 {
        '2'
    } else if v == 3 {
        '3'
    } else if v == 4 {
        '4'
    } else if v == 5 {
        '5'
    } else if v == 6 {
        '6'
    } else if v == 7 {
        '7'
    } else if v == 8 {
        '8'
    } else if v == 9 {
        '9'
    } else if v == 10 {
        'a'
    } else if v == 11 {
        'b'
    } else if v == 12 {
        'c'
    } else if v == 13 {
        'd'
    } else if v == 14 {
        'e'
    } else {
        'f'
    }
}

/// How one character is written inside a JSON string: quote and
/// backslash get a backslash, the common control characters their short
/// escapes, other control characters a `\u00XX` escape, and everything
/// else stands as itself.
pub open spec fn escape_char(c: char) -> Seq<char> {
    if c == '"' {
        seq!['\\', '"']
    } else if c == '\\' {
        seq!['\\', '\\']
    } else if c == '\n' {
        seq!['\\', 'n']
    } else if c == '\r' {
        seq!['\\', 'r']
    } else if c == '\t' {
        seq!['\\', 't']
    } else if (c as int) < 0x20 {
        seq!['\\', 'u', '0', '0', hex_digit_char((c as int) / 16), hex_digit_char((c as int) % 16)]
    } else {
        seq![c]
    }
}

/// A whole string escaped, character by character.
pub open spec fn escape_string(s: Seq<char>) -> Seq<char>
    decreases s.len(),
{
    if s.len() == 0 {
        Seq::empty()
    } else {
        escape_string(s.drop_last()) + escape_char(s.last())
    }
}

/// A JSON string: the escaped text between quotes.
pub open spec fn json_string_of(s: Seq<char>) -> Seq<char> {
    seq!['"'] + escape_string(s) + seq!['"']
}

/// A JSON array of strings, without spaces.
pub open spec fn json_tags_of(ts: Seq<Seq<char>>) -> Seq<char> {
    seq!['['] + join_with(ts.map_values(|t: Seq<char>| json_string_of(t)), seq![',']) + seq![']']
}

/// One link as one JSON object, the three fields in a fixed order and
/// without spaces.
pub open spec fn json_of_link(l: LinkView) -> Seq<char> {
    seq!['{', '"', 'u', 'r', 'l', '"', ':'] + json_string_of(l.url) + seq![',', '"', 'd', 'e', 's',
        'c', 'r', 'i', 'p', 't', 'i', 'o', 'n', '"', ':',
    ] + json_string_of(l.description) + seq![',', '"', 't', 'a', 'g', 's', '"', ':'] + json_tags_of(
        l.tags,
    ) + seq!['}']
}

/// A whole collection: one object per line, joined by newlines.
pub open spec fn jsonl_of(s: Seq<LinkView>) -> Seq<char> {
    join_with(s.map_values(|l: LinkView| json_of_link(l)), seq!['\n'])
}

/// The hexadecimal digit for a value below sixteen.
fn hex_digit(v: u8) -> (c: char)
    requires
        v < 16,
    ensures
        c == hex_digit_char(v as int),
{
    match v {
        0 => '0',
        1 => '1',
        2 => '2',
        3 => '3',
        4 => '4',
        5 => '5',
        6 => '6',
        7 => '7',
        8 => '8',
        9 => '9',
        10 => 'a',
        11 => 'b',
        12 => 'c',
        13 => 'd',
        14 => 'e',
        _ => 'f',
    }
}

/// Appends the escaped text of `s` (no quotes) to `out`.
fn escape_into(out: &mut String, s: &str)
    ensures
        final(out)@ == old(out)@ + escape_string(s@),
{
    let n = s.unicode_len();
    let mut i: usize = 0;
    proof {
        assert(out@ + escape_string(s@.take(0)) =~= out@);
    }
    while i < n
        invariant
            0 <= i <= n,
            n == s@.len(),
            out@ == old(out)@ + escape_string(s@.take(i as int)),
        decreases n - i,
    {
        let c = s.get_char(i);
        let ghost pre = out@;
        if c == '"' {
            push_char(out, '\\');
            push_char(out, '"');
        } else if c == '\\' {
            push_char(out, '\\');
            push_char(out, '\\');
        } else if c == '\n' {
            push_char(out, '\\');
            push_char(out, 'n');
        } else if c == '\r' {
            push_char(out, '\\');
            push_char(out, 'r');
        } else if c == '\t' {
            push_char(out, '\\');
            push_char(out, 't');
        } else if (c as u32) < 0x20 {
            let v = c as u32;
            push_char(out, '\\');
            push_char(out, 'u');
            push_char(out, '0');
            push_char(out, '0');
            push_char(out, hex_digit((v / 16) as u8));
            push_char(out, hex_digit((v % 16) as u8));
        } else {
            push_char(out, c);
        }
        proof {
            assert(out@ =~= pre + escape_char(s@[i as int]));
            assert(s@.take(i + 1).drop_last() =~= s@.take(i as int));
            assert(s@.take(i + 1).last() == s@[i as int]);
            assert(out@ =~= old(out)@ + escape_string(s@.take(i + 1)));
        }
        i = i + 1;
    }
    proof {
        assert(s@.take(n as int) =~= s@);
    }
}

/// Appends `s` as a quoted, escaped JSON string to `out`.
fn json_string_into(out: &mut String, s: &str)
    ensures
        final(out)@ == old(out)@ + json_string_of(s@),
{
    push_char(out, '"');
    escape_into(out, s);
    push_char(out, '"');
    proof {
        assert(out@ =~= old(out)@ + json_string_of(s@));
    }
}

/// One link rendered as its JSON line.
pub fn render_link(l: &Link) -> (r: String)
    ensures
        r@ == json_of_link(l@),
{
    let mut r = String::new();
    r.append("{\"url\":");
    proof {
        reveal_strlit("{\"url\":");
        assert(r@ =~= seq!['{', '"', 'u', 'r', 'l', '"', ':']);
    }
    json_string_into(&mut r, l.url.as_str());
    r.append(",\"description\":");
    proof {
        reveal_strlit(",\"description\":");
        assert(",\"description\":"@ =~= seq![',', '"', 'd', 'e', 's', 'c', 'r', 'i', 'p', 't', 'i',
            'o', 'n', '"', ':',
        ]);
    }
    json_string_into(&mut r, l.description.as_str());
    r.append(",\"tags\":");
    proof {
        reveal_strlit(",\"tags\":");
        assert(",\"tags\":"@ =~= seq![',', '"', 't', 'a', 'g', 's', '"', ':']);
    }
    let ghost head = r@;
    push_char(&mut r, '[');
    let m = l.tags.len();
    let mut j: usize = 0;
    proof {
        assert(l@.tags.take(0).map_values(|t: Seq<char>| json_string_of(t))
            =~= Seq::<Seq<char>>::empty());
        assert(r@ =~= head + seq!['['] + join_with(
            l@.tags.take(0).map_values(|t: Seq<char>| json_string_of(t)),
            seq![','],
        ));
    }
    while j < m
        invariant
            0 <= j <= m,
            m == l.tags.len(),
            r@ == head + seq!['['] + join_with(
                l@.tags.take(j as int).map_values(|t: Seq<char>| json_string_of(t)),
                seq![','],
            ),
        decreases m - j,
    {
        let ghost pre = r@;
        if j > 0 {
            push_char(&mut r, ',');
        }
        json_string_into(&mut r, l.tags[j].as_str());
        proof {
            assert(l@.tags[j as int] == l.tags@[j as int]@);
            let mapped = |t: Seq<char>| json_string_of(t);
            let ts = l@.tags.take(j + 1).map_values(mapped);
            assert(ts.drop_last() =~= l@.tags.take(j as int).map_values(mapped));
            assert(ts.last() == json_string_of(l@.tags[j as int]));
            if j == 0 {
                assert(join_with(ts, seq![',']) == ts[0]);
                assert(r@ =~= head + seq!['['] + join_with(ts, seq![',']));
            } else {
                assert(join_with(ts, seq![',']) == join_with(
                    l@.tags.take(j as int).map_values(mapped),
                    seq![','],
                ) + seq![','] + json_string_of(l@.tags[j as int]));
                assert(r@ =~= head + seq!['['] + join_with(ts, seq![',']));
            }
        }
        j = j + 1;
    }
    push_char(&mut r, ']');
    push_char(&mut r, '}');
    proof {
        assert(l@.tags.take(m as int) =~= l@.tags);
        assert(r@ =~= json_of_link(l@));
    }
    r
}

/// The whole collection rendered: one JSON line per link, in the
/// collection's order, joined by newlines.
pub fn render_links(links: &LinkMap) -> (r: String)
    ensures
        r@ == jsonl_of(links.links_seq()),
{
    let n = links.num_links();
    let mut r = String::new();
    let mut k: usize = 0;
    proof {
        assert(r@ =~= join_with(
            links.links_seq().take(0).map_values(|l: LinkView| json_of_link(l)),
            seq!['\n'],
        ));
    }
    while k < n
        invariant
            0 <= k <= n,
            n == links.links_seq().len(),
            r@ == join_with(
                links.links_seq().take(k as int).map_values(|l: LinkView| json_of_link(l)),
                seq!['\n'],
            ),
        decreases n - k,
    {
        let ghost pre = r@;
        if k > 0 {
            push_char(&mut r, '\n');
        }
        let line = render_link(links.link_at(k));
        r.append(line.as_str());
        proof {
            let mapped = |l: LinkView| json_of_link(l);
            let ts = links.links_seq().take(k + 1).map_values(mapped);
            assert(ts.drop_last() =~= links.links_seq().take(k as int).map_values(mapped));
            assert(ts.last() == json_of_link(links.links_seq()[k as int]));
            if k == 0 {
                assert(join_with(ts, seq!['\n']) == ts[0]);
                assert(r@ =~= join_with(ts, seq!['\n']));
            } else {
                assert(join_with(ts, seq!['\n']) == join_with(
                    links.links_seq().take(k as int).map_values(mapped),
                    seq!['\n'],
                ) + seq!['\n'] + json_of_link(links.links_seq()[k as int]));
                assert(r@ =~= join_with(ts, seq!['\n']));
            }
        }
        k = k + 1;
    }
    proof {
        assert(links.links_seq().take(n as int) =~= links.links_seq());
    }
    r
}

/// Escaping works character by character from the left as well.
proof fn lemma_escape_unfold_left(s: Seq<char>)
    requires
        s.len() > 0,
    ensures
        escape_string(s) == escape_char(s[0]) + escape_string(s.drop_first()),
    decreases s.len(),
{
    if s.len() == 1 {
        assert(s.drop_last() =~= Seq::<char>::empty());
        assert(s.drop_first() =~= Seq::<char>::empty());
        assert(escape_string(s) =~= escape_char(s[0]) + escape_string(s.drop_first()));
    } else {
        lemma_escape_unfold_left(s.drop_last());
        assert(s.drop_last()[0] == s[0]);
        assert(s.drop_last().drop_first() =~= s.drop_first().drop_last());
        assert(s.drop_first().last() == s.last());
        assert(escape_char(s[0]) + escape_string(s.drop_first().drop_last()) + escape_char(
            s.last(),
        ) =~= escape_char(s[0]) + (escape_string(s.drop_first().drop_last()) + escape_char(
            s.last(),
        )));
        assert(escape_string(s) =~= escape_char(s[0]) + escape_string(s.drop_first()));
    }
}

/// Joining works piece by piece from the left as well.
proof fn lemma_join_unfold_left(ts: Seq<Seq<char>>, sep: Seq<char>)
    requires
        ts.len() > 1,
    ensures
        join_with(ts, sep) == ts[0] + sep + join_with(ts.drop_first(), sep),
    decreases ts.len(),
{
    if ts.len() == 2 {
        assert(ts.drop_last()[0] == ts[0]);
        assert(join_with(ts.drop_last(), sep) == ts[0]);
        assert(ts.drop_first().len() == 1);
        assert(ts.drop_first()[0] == ts[1]);
        assert(join_with(ts.drop_first(), sep) == ts[1]);
        assert(ts.last() == ts[1]);
    } else {
        lemma_join_unfold_left(ts.drop_last(), sep);
        assert(ts.drop_last()[0] == ts[0]);
        assert(ts.drop_last().drop_first() =~= ts.drop_first().drop_last());
        assert(ts.drop_first().last() == ts.last());
        assert(ts.drop_first().len() > 1);
        assert(join_with(ts, sep) == join_with(ts.drop_last(), sep) + sep + ts.last());
        assert(ts[0] + sep + join_with(ts.drop_first().drop_last(), sep) + sep + ts.last() =~= ts[0]
            + sep + (join_with(ts.drop_first().drop_last(), sep) + sep + ts.last()));
    }
}

/// The whitespace JSON allows between tokens (a newline never occurs
/// inside one line).
pub open spec fn is_json_ws(c: char) -> bool {
    c == ' ' || c == '\t' || c == '\r'
}

/// The first position at or after `i` holding no whitespace.
pub open spec fn skip_ws_spec(s: Seq<char>, i: int) -> int
    decreases s.len() - i,
{
    if 0 <= i < s.len() && is_json_ws(s[i]) {
        skip_ws_spec(s, i + 1)
    } else {
        i
    }
}

proof fn lemma_skip_ws_next(s: Seq<char>, i: int)
    requires
        0 <= i <= s.len(),
    ensures
        i <= skip_ws_spec(s, i) <= s.len(),
    decreases s.len() - i,
{
    if 0 <= i < s.len() && is_json_ws(s[i]) {
        lemma_skip_ws_next(s, i + 1);
    }
}

/// The value of a hexadecimal digit, or a negative number for any other
/// character.
pub open spec fn hex_val(c: char) -> int {
    let v = c as int;
    if 48 <= v <= 57 {
        v - 48
    } else if 97 <= v <= 102 {
        v - 87
    } else if 65 <= v <= 70 {
        v - 55
    } else {
        -1
    }
}

/// The character a short escape stands for, if the character after the
/// backslash is one of the eight JSON allows.
pub open spec fn unescape_short(c: char) -> Option<char> {
    if c == '"' {
        Some('"')
    } else if c == '\\' {
        Some('\\')
    } else if c == '/' {
        Some('/')
    } else if c == 'b' {
        Some('\u{0008}')
    } else if c == 'f' {
        Some('\u{000C}')
    } else if c == 'n' {
        Some('\n')
    } else if c == 'r' {
        Some('\r')
    } else if c == 't' {
        Some('\t')
    } else {
        None
    }
}

/// The body of a JSON string from position `i` (just after the opening
/// quote) up to its closing quote: the decoded text and the position
/// after the quote.  Unescaped control characters, bad escapes, escaped
/// surrogates and a missing closing quote are refused.
pub open spec fn parse_string_body(s: Seq<char>, i: int) -> Option<(Seq<char>, int)>
    decreases s.len() - i,
{
    if !(0 <= i < s.len()) {
        None
    } else if s[i] == '"' {
        Some((Seq::empty(), i + 1))
    } else if s[i] == '\\' {
        if i + 1 >= s.len() {
            None
        } else if s[i + 1] == 'u' {
            if i + 6 > s.len() {
                None
            } else {
                let h0 = hex_val(s[i + 2]);
                let h1 = hex_val(s[i + 3]);
                let h2 = hex_val(s[i + 4]);
                let h3 = hex_val(s[i + 5]);
                if h0 < 0 || h1 < 0 || h2 < 0 || h3 < 0 {
                    None
                } else {
                    let v = h0 * 4096 + h1 * 256 + h2 * 16 + h3;
                    if 0xD800 <= v < 0xE000 {
                        None
                    } else {
                        match parse_string_body(s, i + 6) {
                            None => None,
                            Some(r) => Some((seq![v as char] + r.0, r.1)),
                        }
                    }
                }
            }
        } else {
            match unescape_short(s[i + 1]) {
                None => None,
                Some(c) => match parse_string_body(s, i + 2) {
                    None => None,
                    Some(r) => Some((seq![c] + r.0, r.1)),
                },
            }
        }
    } else if (s[i] as int) < 0x20 {
        None
    } else {
        match parse_string_body(s, i + 1) {
            None => None,
            Some(r) => Some((seq![s[i]] + r.0, r.1)),
        }
    }
}

proof fn lemma_parse_string_body_next(s: Seq<char>, i: int)
    ensures
        parse_string_body(s, i) matches Some(r) ==> i < r.1 <= s.len(),
    decreases s.len() - i,
{
    if 0 <= i < s.len() {
        lemma_parse_string_body_next(s, i + 1);
        if i + 2 <= s.len() {
            lemma_parse_string_body_next(s, i + 2);
        }
        if i + 6 <= s.len() {
            lemma_parse_string_body_next(s, i + 6);
        }
    }
}

/// A whole JSON string starting at `i`: its opening quote must stand
/// right there.
pub open spec fn parse_string_at(s: Seq<char>, i: int) -> Option<(Seq<char>, int)> {
    if 0 <= i < s.len() && s[i] == '"' {
        parse_string_body(s, i + 1)
    } else {
        None
    }
}

proof fn lemma_parse_string_at_next(s: Seq<char>, i: int)
    ensures
        parse_string_at(s, i) matches Some(r) ==> i + 2 <= r.1 <= s.len(),
{
    lemma_parse_string_body_next(s, i + 1);
}

/// The items of a non-empty JSON string array from `i` (after `[` and
/// any whitespace) to its closing bracket.
pub open spec fn parse_tags_items(s: Seq<char>, i: int) -> Option<(Seq<Seq<char>>, int)>
    decreases s.len() - i,
    via parse_tags_items_dec
{
    match parse_string_at(s, i) {
        None => None,
        Some(r) => {
            let j = skip_ws_spec(s, r.1);
            if 0 <= j < s.len() && s[j] == ',' {
                let j2 = skip_ws_spec(s, j + 1);
                match parse_tags_items(s, j2) {
                    None => None,
                    Some(r2) => Some((seq![r.0] + r2.0, r2.1)),
                }
            } else if 0 <= j < s.len() && s[j] == ']' {
                Some((seq![r.0], j + 1))
            } else {
                None
            }
        },
    }
}

#[via_fn]
proof fn parse_tags_items_dec(s: Seq<char>, i: int) {
    lemma_parse_string_at_next(s, i);
    match parse_string_at(s, i) {
        None => {},
        Some(r) => {
            lemma_skip_ws_next(s, r.1);
            let j = skip_ws_spec(s, r.1);
            if 0 <= j < s.len() && s[j] == ',' {
                lemma_skip_ws_next(s, j + 1);
            }
        },
    }
}

proof fn lemma_parse_tags_items_next(s: Seq<char>, i: int)
    ensures
        parse_tags_items(s, i) matches Some(r) ==> i < r.1 <= s.len(),
    decreases s.len() - i,
{
    lemma_parse_string_at_next(s, i);
    match parse_string_at(s, i) {
        None => {},
        Some(r) => {
            lemma_skip_ws_next(s, r.1);
            let j = skip_ws_spec(s, r.1);
            if 0 <= j < s.len() && s[j] == ',' {
                lemma_skip_ws_next(s, j + 1);
                lemma_parse_tags_items_next(s, skip_ws_spec(s, j + 1));
            }
        },
    }
}

/// A JSON array of strings starting at `i`: `[` right there, then
/// either a closing bracket or the items.
pub open spec fn parse_tags_value(s: Seq<char>, i: int) -> Option<(Seq<Seq<char>>, int)> {
    if 0 <= i < s.len() && s[i] == '[' {
        let j = skip_ws_spec(s, i + 1);
        if 0 <= j < s.len() && s[j] == ']' {
            Some((Seq::empty(), j + 1))
        } else {
            parse_tags_items(s, j)
        }
    } else {
        None
    }
}

proof fn lemma_parse_tags_value_next(s: Seq<char>, i: int)
    ensures
        parse_tags_value(s, i) matches Some(r) ==> i < r.1 <= s.len(),
{
    if 0 <= i < s.len() && s[i] == '[' {
        lemma_skip_ws_next(s, i + 1);
        lemma_parse_tags_items_next(s, skip_ws_spec(s, i + 1));
    }
}

/// Every character's scalar value is in the Unicode range.
proof fn lemma_char_bounds(c: char)
    ensures
        0 <= c as int <= 0x10FFFF,
{
}

/// A hexadecimal digit reads back as its value.
proof fn lemma_hex_round_trip(v: int)
    requires
        0 <= v < 16,
    ensures
        hex_val(hex_digit_char(v)) == v,
{
}

/// Escaped text followed by a closing quote reads back as the original
/// text.
proof fn lemma_parse_escaped(t: Seq<char>, i: int, s: Seq<char>)
    requires
        0 <= i,
        i + escape_string(s).len() + 1 <= t.len(),
        t.subrange(i, i + escape_string(s).len()) == escape_string(s),
        t[i + escape_string(s).len()] == '"',
    ensures
        parse_string_body(t, i) == Some((s, i + escape_string(s).len() + 1)),
    decreases s.len(),
{
    let el = escape_string(s).len() as int;
    assert forall|k: int| 0 <= k < el implies t[i + k] == escape_string(s)[k] by {
        assert(t.subrange(i, i + el)[k] == t[i + k]);
    }
    if s.len() == 0 {
        assert(t[i] == '"');
    } else {
        let c = s[0];
        let e = escape_char(c);
        let rest = s.drop_first();
        lemma_escape_unfold_left(s);
        let rl = escape_string(rest).len() as int;
        assert(el == e.len() + rl);
        assert(forall|k: int| 0 <= k < e.len() ==> escape_string(s)[k] == e[k]);
        assert(forall|k: int| 0 <= k < rl ==> escape_string(s)[e.len() + k] == escape_string(
            rest,
        )[k]);
        let i2 = i + e.len();
        assert(t.subrange(i2, i2 + rl) =~= escape_string(rest)) by {
            assert forall|k: int| 0 <= k < rl implies t.subrange(i2, i2 + rl)[k] == escape_string(
                rest,
            )[k] by {
                assert(t.subrange(i2, i2 + rl)[k] == t[i2 + k]);
                assert(t[i2 + k] == escape_string(s)[e.len() + k]);
            }
        }
        assert(t[i2 + rl] == '"');
        lemma_parse_escaped(t, i2, rest);
        assert(seq![c] + rest =~= s);
        if c == '"' || c == '\\' {
            assert(t[i] == '\\');
            assert(t[i + 1] == c);
            assert(unescape_short(c) == Some(c));
            assert(parse_string_body(t, i) == Some((s, i + el + 1)));
        } else if c == '\n' {
            assert(t[i] == '\\');
            assert(t[i + 1] == 'n');
            assert(parse_string_body(t, i) == Some((s, i + el + 1)));
        } else if c == '\r' {
            assert(t[i] == '\\');
            assert(t[i + 1] == 'r');
            assert(parse_string_body(t, i) == Some((s, i + el + 1)));
        } else if c == '\t' {
            assert(t[i] == '\\');
            assert(t[i + 1] == 't');
            assert(parse_string_body(t, i) == Some((s, i + el + 1)));
        } else if (c as int) < 0x20 {
            let ci = c as int;
            lemma_char_bounds(c);
            assert(ci >= 0);
            assert(ci < 0x20);
            assert(t[i] == '\\');
            assert(t[i + 1] == 'u');
            assert(t[i + 2] == '0');
            assert(t[i + 3] == '0');
            assert(t[i + 4] == hex_digit_char(ci / 16));
            assert(t[i + 5] == hex_digit_char(ci % 16));
            lemma_hex_round_trip(ci / 16);
            lemma_hex_round_trip(ci % 16);
            assert(hex_val(t[i + 2]) == 0);
            assert(hex_val(t[i + 3]) == 0);
            let v = hex_val(t[i + 2]) * 4096 + hex_val(t[i + 3]) * 256 + hex_val(t[i + 4]) * 16
                + hex_val(t[i + 5]);
            assert(v == ci);
            assert((v as char) == c);
            assert(parse_string_body(t, i) == Some((s, i + el + 1)));
        } else {
            assert(t[i] == c);
            assert(t[i] != '"' && t[i] != '\\' && !((t[i] as int) < 0x20));
            assert(parse_string_body(t, i) == Some((s, i + el + 1)));
        }
    }
}

/// A rendered JSON string reads back as the text it was made from.
proof fn lemma_parse_json_string(t: Seq<char>, i: int, s: Seq<char>)
    requires
        0 <= i,
        i + json_string_of(s).len() <= t.len(),
        t.subrange(i, i + json_string_of(s).len()) == json_string_of(s),
    ensures
        parse_string_at(t, i) == Some((s, i + json_string_of(s).len())),
{
    let jl = json_string_of(s).len() as int;
    assert forall|k: int| 0 <= k < jl implies t[i + k] == json_string_of(s)[k] by {
        assert(t.subrange(i, i + jl)[k] == t[i + k]);
    }
    let el = escape_string(s).len() as int;
    assert(json_string_of(s)[0] == '"');
    assert(t.subrange(i, i + jl)[0] == t[i]);
    assert(t[i] == '"');
    assert(json_string_of(s)[1 + el] == '"');
    assert(t.subrange(i, i + jl)[1 + el] == t[i + 1 + el]);
    assert(t[i + 1 + el] == '"');
    assert(t.subrange(i + 1, i + 1 + el) =~= escape_string(s)) by {
        assert forall|k: int| 0 <= k < el implies t.subrange(i + 1, i + 1 + el)[k]
            == escape_string(s)[k] by {
            assert(t.subrange(i + 1, i + 1 + el)[k] == t[i + 1 + k]);
            assert(json_string_of(s)[1 + k] == escape_string(s)[k]);
        }
    }
    lemma_parse_escaped(t, i + 1, s);
}

/// The characters at `i` equal `sub`, position by position.
proof fn lemma_cover(t: Seq<char>, i: int, sub: Seq<char>)
    requires
        0 <= i,
        i + sub.len() <= t.len(),
        t.subrange(i, i + sub.len()) == sub,
    ensures
        forall|k: int| 0 <= k < sub.len() ==> t[i + k] == sub[k],
{
    assert forall|k: int| 0 <= k < sub.len() implies t[i + k] == sub[k] by {
        assert(t.subrange(i, i + sub.len() as int)[k] == t[i + k]);
    }
}

/// At a non-whitespace character, skipping whitespace stands still.
proof fn lemma_skip_ws_here(t: Seq<char>, i: int)
    requires
        !(0 <= i < t.len()) || !is_json_ws(t[i]),
    ensures
        skip_ws_spec(t, i) == i,
{
}

/// The items and closing bracket of a rendered non-empty tag array.
spec fn tags_body(ts: Seq<Seq<char>>) -> Seq<char> {
    join_with(ts.map_values(|x: Seq<char>| json_string_of(x)), seq![',']) + seq![']']
}

/// A rendered tag list reads back as the tags it was made from.
proof fn lemma_parse_tags_rendered(t: Seq<char>, i: int, ts: Seq<Seq<char>>)
    requires
        0 <= i,
        ts.len() > 0,
        i + tags_body(ts).len() <= t.len(),
        t.subrange(i, i + tags_body(ts).len()) == tags_body(ts),
    ensures
        parse_tags_items(t, i) == Some((ts, i + tags_body(ts).len())),
    decreases ts.len(),
{
    let m = ts.map_values(|x: Seq<char>| json_string_of(x));
    let m0 = json_string_of(ts[0]);
    let bl = tags_body(ts).len() as int;
    lemma_cover(t, i, tags_body(ts));
    if ts.len() == 1 {
        assert(join_with(m, seq![',']) == m[0]);
        assert(m[0] == m0);
        assert(t.subrange(i, i + m0.len()) =~= m0) by {
            assert forall|k: int| 0 <= k < m0.len() implies t.subrange(i, i + m0.len() as int)[k]
                == m0[k] by {
                assert(t[i + k] == tags_body(ts)[k]);
            }
        }
        lemma_parse_json_string(t, i, ts[0]);
        let p = i + m0.len();
        assert(t[i + m0.len() as int] == tags_body(ts)[m0.len() as int]);
        assert(t[p] == ']');
        lemma_skip_ws_here(t, p);
        assert(seq![ts[0]] =~= ts);
        assert(parse_tags_items(t, i) == Some((ts, i + bl)));
    } else {
        lemma_join_unfold_left(m, seq![',']);
        let rest = ts.drop_first();
        let mrest = m.drop_first();
        assert(mrest =~= rest.map_values(|x: Seq<char>| json_string_of(x)));
        assert(tags_body(ts) =~= m0 + seq![','] + tags_body(rest));
        assert(t.subrange(i, i + m0.len()) =~= m0) by {
            assert forall|k: int| 0 <= k < m0.len() implies t.subrange(i, i + m0.len() as int)[k]
                == m0[k] by {
                assert(t[i + k] == tags_body(ts)[k]);
            }
        }
        lemma_parse_json_string(t, i, ts[0]);
        let p = i + m0.len();
        assert(t[i + m0.len() as int] == tags_body(ts)[m0.len() as int]);
        assert(t[p] == ',');
        lemma_skip_ws_here(t, p);
        let rl = tags_body(rest).len() as int;
        assert(t.subrange(p + 1, p + 1 + rl) =~= tags_body(rest)) by {
            assert forall|k: int| 0 <= k < rl implies t.subrange(p + 1, p + 1 + rl)[k]
                == tags_body(rest)[k] by {
                assert(t.subrange(p + 1, p + 1 + rl)[k] == t[p + 1 + k]);
                assert(t[p + 1 + k] == tags_body(ts)[m0.len() + 1 + k]);
                assert(tags_body(ts)[m0.len() + 1 + k] == tags_body(rest)[k]);
            }
        }
        assert(tags_body(rest)[0] == '"') by {
            assert(json_string_of(rest[0])[0] == '"');
            assert(mrest[0] == json_string_of(rest[0]));
            if rest.len() == 1 {
                assert(join_with(mrest, seq![',']) == mrest[0]);
            } else {
                lemma_join_unfold_left(mrest, seq![',']);
            }
        }
        assert(t[p + 1] == '"');
        lemma_skip_ws_here(t, p + 1);
        lemma_parse_tags_rendered(t, p + 1, rest);
        assert(seq![ts[0]] + rest =~= ts);
        assert(parse_tags_items(t, i) == Some((ts, i + bl)));
    }
}

/// The fields read so far while walking the members of a record.
pub struct PartialRecord {
    pub url: Option<Seq<char>>,
    pub description: Option<Seq<char>>,
    pub tags: Option<Seq<Seq<char>>>,
}

/// The characters of the `url` key.
pub open spec fn key_url() -> Seq<char> {
    seq!['u', 'r', 'l']
}

/// The characters of the `description` key.
pub open spec fn key_description() -> Seq<char> {
    seq!['d', 'e', 's', 'c', 'r', 'i', 'p', 't', 'i', 'o', 'n']
}

/// The characters of the `tags` key.
pub open spec fn key_tags() -> Seq<char> {
    seq!['t', 'a', 'g', 's']
}

/// The members of the record object from `i` (at the first key) to the
/// closing brace: each key exactly once, `url` and `description` taking
/// a string and `tags` an array of strings; an unknown or repeated key
/// refuses the record.
pub open spec fn parse_members(s: Seq<char>, i: int, acc: PartialRecord) -> Option<
    (PartialRecord, int),
>
    decreases s.len() - i,
    via parse_members_dec
{
    match parse_string_at(s, i) {
        None => None,
        Some(k) => {
            let j = skip_ws_spec(s, k.1);
            if !(0 <= j < s.len() && s[j] == ':') {
                None
            } else {
                let j2 = skip_ws_spec(s, j + 1);
                let field: Option<(PartialRecord, int)> = if k.0 == key_url() {
                    if acc.url is Some {
                        None
                    } else {
                        match parse_string_at(s, j2) {
                            None => None,
                            Some(v) => Some(
                                (
                                    PartialRecord {
                                        url: Some(v.0),
                                        description: acc.description,
                                        tags: acc.tags,
                                    },
                                    v.1,
                                ),
                            ),
                        }
                    }
                } else if k.0 == key_description() {
                    if acc.description is Some {
                        None
                    } else {
                        match parse_string_at(s, j2) {
                            None => None,
                            Some(v) => Some(
                                (
                                    PartialRecord {
                                        url: acc.url,
                                        description: Some(v.0),
                                        tags: acc.tags,
                                    },
                                    v.1,
                                ),
                            ),
                        }
                    }
                } else if k.0 == key_tags() {
                    if acc.tags is Some {
                        None
                    } else {
                        match parse_tags_value(s, j2) {
                            None => None,
                            Some(v) => Some(
                                (
                                    PartialRecord {
                                        url: acc.url,
                                        description: acc.description,
                                        tags: Some(v.0),
                                    },
                                    v.1,
                                ),
                            ),
                        }
                    }
                } else {
                    None
                };
                match field {
                    None => None,
                    Some(f) => {
                        let j3 = skip_ws_spec(s, f.1);
                        if 0 <= j3 < s.len() && s[j3] == ',' {
                            let j4 = skip_ws_spec(s, j3 + 1);
                            parse_members(s, j4, f.0)
                        } else if 0 <= j3 < s.len() && s[j3] == '}' {
                            Some((f.0, j3 + 1))
                        } else {
                            None
                        }
                    },
                }
            }
        },
    }
}

#[via_fn]
proof fn parse_members_dec(s: Seq<char>, i: int, acc: PartialRecord) {
    lemma_parse_string_at_next(s, i);
    match parse_string_at(s, i) {
        None => {},
        Some(k) => {
            lemma_skip_ws_next(s, k.1);
            let j = skip_ws_spec(s, k.1);
            if 0 <= j < s.len() && s[j] == ':' {
                lemma_skip_ws_next(s, j + 1);
                let j2 = skip_ws_spec(s, j + 1);
                lemma_parse_string_at_next(s, j2);
                lemma_parse_tags_value_next(s, j2);
                if parse_string_at(s, j2) is Some {
                    let v = parse_string_at(s, j2).unwrap();
                    lemma_skip_ws_next(s, v.1);
                    let j3 = skip_ws_spec(s, v.1);
                    if 0 <= j3 < s.len() && s[j3] == ',' {
                        lemma_skip_ws_next(s, j3 + 1);
                    }
                }
                if parse_tags_value(s, j2) is Some {
                    let v = parse_tags_value(s, j2).unwrap();
                    lemma_skip_ws_next(s, v.1);
                    let j3 = skip_ws_spec(s, v.1);
                    if 0 <= j3 < s.len() && s[j3] == ',' {
                        lemma_skip_ws_next(s, j3 + 1);
                    }
                }
            }
        },
    }
}

/// Text without quotes, backslashes or control characters is its own
/// escape.
proof fn lemma_plain_escape(s: Seq<char>)
    requires
        forall|k: int|
            0 <= k < s.len() ==> s[k] != '"' && s[k] != '\\' && (#[trigger] s[k] as int) >= 0x20,
    ensures
        escape_string(s) == s,
    decreases s.len(),
{
    if s.len() > 0 {
        lemma_plain_escape(s.drop_last());
        assert(escape_char(s.last()) == seq![s.last()]);
        assert(s.drop_last() + seq![s.last()] =~= s);
    }
}

/// One `url` member read off the record: the accumulator gains the url
/// and reading goes on after the comma.
proof fn lemma_step_url(
    t: Seq<char>,
    i: int,
    p: int,
    url: Seq<char>,
    d: Option<Seq<char>>,
    g: Option<Seq<Seq<char>>>,
)
    requires
        parse_string_at(t, i) == Some((key_url(), i + 5)),
        0 <= i + 5 < t.len() && t[i + 5] == ':',
        i + 6 < t.len() && t[i + 6] == '"',
        parse_string_at(t, i + 6) == Some((url, p)),
        0 <= p < t.len() && t[p] == ',',
        p + 1 < t.len() && t[p + 1] == '"',
    ensures
        parse_members(t, i, PartialRecord { url: None, description: d, tags: g })
            == parse_members(t, p + 1, PartialRecord { url: Some(url), description: d, tags: g }),
{
    lemma_skip_ws_here(t, i + 5);
    lemma_skip_ws_here(t, i + 6);
    lemma_skip_ws_here(t, p);
    lemma_skip_ws_here(t, p + 1);
    assert(key_url() != key_description() && key_url() != key_tags());
}

/// One `description` member read off the record.
proof fn lemma_step_description(
    t: Seq<char>,
    i: int,
    p: int,
    desc: Seq<char>,
    u: Option<Seq<char>>,
    g: Option<Seq<Seq<char>>>,
)
    requires
        parse_string_at(t, i) == Some((key_description(), i + 13)),
        0 <= i + 13 < t.len() && t[i + 13] == ':',
        i + 14 < t.len() && t[i + 14] == '"',
        parse_string_at(t, i + 14) == Some((desc, p)),
        0 <= p < t.len() && t[p] == ',',
        p + 1 < t.len() && t[p + 1] == '"',
    ensures
        parse_members(t, i, PartialRecord { url: u, description: None, tags: g })
            == parse_members(
            t,
            p + 1,
            PartialRecord { url: u, description: Some(desc), tags: g },
        ),
{
    lemma_skip_ws_here(t, i + 13);
    lemma_skip_ws_here(t, i + 14);
    lemma_skip_ws_here(t, p);
    lemma_skip_ws_here(t, p + 1);
    assert(key_description() != key_url() && key_description() != key_tags());
}

/// The final `tags` member read off the record, up to the closing
/// brace.
proof fn lemma_step_tags_end(
    t: Seq<char>,
    i: int,
    p: int,
    ts: Seq<Seq<char>>,
    u: Option<Seq<char>>,
    d: Option<Seq<char>>,
)
    requires
        parse_string_at(t, i) == Some((key_tags(), i + 6)),
        0 <= i + 6 < t.len() && t[i + 6] == ':',
        i + 7 < t.len() && t[i + 7] == '[',
        parse_tags_value(t, i + 7) == Some((ts, p)),
        0 <= p < t.len() && t[p] == '}',
    ensures
        parse_members(t, i, PartialRecord { url: u, description: d, tags: None }) == Some(
            (PartialRecord { url: u, description: d, tags: Some(ts) }, p + 1),
        ),
{
    lemma_skip_ws_here(t, i + 6);
    lemma_skip_ws_here(t, i + 7);
    lemma_skip_ws_here(t, p);
    assert(key_tags() != key_url() && key_tags() != key_description());
}

/// Where the pieces of a rendered record line stand: the two string
/// members and the keys, with the separators between them.
#[verifier::rlimit(100)]
proof fn lemma_line_parts(l: LinkView)
    ensures
        ({
            let t = json_of_link(l);
            let o3 = 7 + json_string_of(l.url).len() as int;
            let o4 = o3 + 15;
            let o5 = o4 + json_string_of(l.description).len() as int;
            let o6 = o5 + 8;
            let o7 = o6 + json_tags_of(l.tags).len() as int;
            &&& t.len() == o7 + 1
            &&& parse_string_at(t, 1) == Some((key_url(), 6int))
            &&& parse_string_at(t, 7) == Some((l.url, o3))
            &&& parse_string_at(t, o3 + 1) == Some((key_description(), o3 + 14))
            &&& parse_string_at(t, o4) == Some((l.description, o5))
            &&& parse_string_at(t, o5 + 1) == Some((key_tags(), o5 + 7))
            &&& t[0] == '{' && t[1] == '"' && t[6] == ':' && t[7] == '"'
            &&& t[o3] == ',' && t[o3 + 1] == '"' && t[o3 + 14] == ':' && t[o4] == '"'
            &&& t[o5] == ',' && t[o5 + 1] == '"' && t[o5 + 7] == ':' && t[o6] == '['
            &&& t[o7] == '}'
        }),
{
    let t = json_of_link(l);
    let lit1 = seq!['{', '"', 'u', 'r', 'l', '"', ':'];
    let lit2 = seq![',', '"', 'd', 'e', 's', 'c', 'r', 'i', 'p', 't', 'i', 'o', 'n', '"', ':'];
    let lit3 = seq![',', '"', 't', 'a', 'g', 's', '"', ':'];
    let u = json_string_of(l.url);
    let d = json_string_of(l.description);
    let tg = json_tags_of(l.tags);
    let o3 = 7 + u.len() as int;
    let o4 = o3 + 15;
    let o5 = o4 + d.len() as int;
    let o6 = o5 + 8;
    let o7 = o6 + tg.len() as int;
    assert(t =~= lit1 + u + lit2 + d + lit3 + tg + seq!['}']);
    assert(t.len() == o7 + 1);
    assert(escape_string(key_url()) == key_url()) by {
        lemma_plain_escape(key_url());
    }
    assert(escape_string(key_description()) == key_description()) by {
        lemma_plain_escape(key_description());
    }
    assert(escape_string(key_tags()) == key_tags()) by {
        lemma_plain_escape(key_tags());
    }
    assert(json_string_of(key_url()) =~= seq!['"', 'u', 'r', 'l', '"']);
    assert(json_string_of(key_description()) =~= seq!['"', 'd', 'e', 's', 'c', 'r', 'i', 'p', 't',
        'i', 'o', 'n', '"',
    ]);
    assert(json_string_of(key_tags()) =~= seq!['"', 't', 'a', 'g', 's', '"']);
    assert(t.subrange(1, 6) =~= json_string_of(key_url()));
    lemma_parse_json_string(t, 1, key_url());
    assert(t.subrange(7, o3) =~= u);
    lemma_parse_json_string(t, 7, l.url);
    assert(t.subrange(o3 + 1, o3 + 14) =~= json_string_of(key_description()));
    lemma_parse_json_string(t, o3 + 1, key_description());
    assert(t.subrange(o4, o5) =~= d);
    lemma_parse_json_string(t, o4, l.description);
    assert(t.subrange(o5 + 1, o5 + 7) =~= json_string_of(key_tags()));
    lemma_parse_json_string(t, o5 + 1, key_tags());
    assert(t[0] == '{' && t[1] == '"' && t[6] == ':' && t[7] == '"');
    assert(t[o3] == ',' && t[o3 + 1] == '"' && t[o3 + 14] == ':' && t[o4] == '"');
    assert(t[o5] == ',' && t[o5 + 1] == '"' && t[o5 + 7] == ':' && t[o6] == '[');
    assert(t[o7] == '}');
}

/// The rendered tag array reads back as the tags.
#[verifier::rlimit(100)]
proof fn lemma_line_tags(l: LinkView)
    ensures
        ({
            let t = json_of_link(l);
            let o5 = 7 + json_string_of(l.url).len() + 15 + json_string_of(
                l.description,
            ).len() as int;
            let o6 = o5 + 8;
            let o7 = o6 + json_tags_of(l.tags).len() as int;
            parse_tags_value(t, o6) == Some((l.tags, o7))
        }),
{
    let t = json_of_link(l);
    let lit1 = seq!['{', '"', 'u', 'r', 'l', '"', ':'];
    let lit2 = seq![',', '"', 'd', 'e', 's', 'c', 'r', 'i', 'p', 't', 'i', 'o', 'n', '"', ':'];
    let lit3 = seq![',', '"', 't', 'a', 'g', 's', '"', ':'];
    let u = json_string_of(l.url);
    let d = json_string_of(l.description);
    let tg = json_tags_of(l.tags);
    let o5 = 7 + u.len() + 15 + d.len() as int;
    let o6 = o5 + 8;
    let o7 = o6 + tg.len() as int;
    assert(t =~= lit1 + u + lit2 + d + lit3 + tg + seq!['}']);
    assert(t[o6] == '[');
    if l.tags.len() == 0 {
        assert(join_with(
            l.tags.map_values(|x: Seq<char>| json_string_of(x)),
            seq![','],
        ) == Seq::<char>::empty());
        assert(tg =~= seq!['[', ']']);
        assert(t[o6 + 1] == ']');
        lemma_skip_ws_here(t, o6 + 1);
        assert(parse_tags_value(t, o6) == Some((Seq::<Seq<char>>::empty(), o6 + 2)));
        assert(Seq::<Seq<char>>::empty() =~= l.tags);
    } else {
        let body = tags_body(l.tags);
        assert(tg =~= seq!['['] + body);
        assert(body[0] == '"') by {
            let m = l.tags.map_values(|x: Seq<char>| json_string_of(x));
            if l.tags.len() == 1 {
                assert(join_with(m, seq![',']) == m[0]);
            } else {
                lemma_join_unfold_left(m, seq![',']);
            }
            assert(m[0] == json_string_of(l.tags[0]));
            assert(json_string_of(l.tags[0])[0] == '"');
        }
        assert(t[o6 + 1] == '"');
        lemma_skip_ws_here(t, o6 + 1);
        assert(t.subrange(o6 + 1, o6 + 1 + body.len()) =~= body) by {
            assert forall|k: int| 0 <= k < body.len() implies t.subrange(
                o6 + 1,
                o6 + 1 + body.len() as int,
            )[k] == body[k] by {
                assert(t.subrange(o6 + 1, o6 + 1 + body.len() as int)[k] == t[o6 + 1 + k]);
                assert(t[o6 + 1 + k] == tg[1 + k]);
            }
        }
        lemma_parse_tags_rendered(t, o6 + 1, l.tags);
        assert(parse_tags_value(t, o6) == Some((l.tags, o7)));
    }
}

/// A rendered record line reads back as exactly the link it was made
/// from: the codec's round trip, one line at a time.
pub proof fn lemma_parse_link_rendered(l: LinkView)
    ensures
        parse_link_line(json_of_link(l)) == Some(l),
{
    let t = json_of_link(l);
    let o3 = 7 + json_string_of(l.url).len() as int;
    let o4 = o3 + 15;
    let o5 = o4 + json_string_of(l.description).len() as int;
    let o6 = o5 + 8;
    let o7 = o6 + json_tags_of(l.tags).len() as int;
    lemma_line_parts(l);
    lemma_line_tags(l);
    lemma_step_url(t, 1, o3, l.url, None, None);
    lemma_step_description(t, o3 + 1, o5, l.description, Some(l.url), None);
    lemma_step_tags_end(t, o5 + 1, o7, l.tags, Some(l.url), Some(l.description));
    lemma_skip_ws_here(t, 0);
    lemma_skip_ws_here(t, 1);
    lemma_skip_ws_here(t, t.len() as int);
    assert(parse_link_line(t) == Some(l));
}

/// One line as a link record: optional whitespace, the object, optional
/// whitespace, and nothing else; all three fields must be present.
pub open spec fn parse_link_line(s: Seq<char>) -> Option<LinkView> {
    let i0 = skip_ws_spec(s, 0);
    if !(0 <= i0 < s.len() && s[i0] == '{') {
        None
    } else {
        let i1 = skip_ws_spec(s, i0 + 1);
        match parse_members(s, i1, PartialRecord { url: None, description: None, tags: None }) {
            None => None,
            Some(r) => {
                if r.0.url is Some && r.0.description is Some && r.0.tags is Some {
                    let j = skip_ws_spec(s, r.1);
                    if j == s.len() {
                        Some(
                            LinkView {
                                url: r.0.url.unwrap(),
                                description: r.0.description.unwrap(),
                                tags: r.0.tags.unwrap(),
                            },
                        )
                    } else {
                        None
                    }
                } else {
                    None
                }
            },
        }
    }
}

/// No newline stands anywhere in `x`.
spec fn no_newline(x: Seq<char>) -> bool {
    forall|k: int| 0 <= k < x.len() ==> x[k] != '\n'
}

proof fn lemma_escape_no_newline(s: Seq<char>)
    ensures
        no_newline(escape_string(s)),
    decreases s.len(),
{
    if s.len() > 0 {
        lemma_escape_no_newline(s.drop_last());
        let c = s.last();
        lemma_char_bounds(c);
        assert(no_newline(escape_char(c))) by {
            if c != '"' && c != '\\' && c != '\n' && c != '\r' && c != '\t' && (c as int) < 0x20 {
                assert(hex_digit_char((c as int) / 16) != '\n');
                assert(hex_digit_char((c as int) % 16) != '\n');
            }
        }
    }
}

proof fn lemma_json_string_no_newline(s: Seq<char>)
    ensures
        no_newline(json_string_of(s)),
{
    lemma_escape_no_newline(s);
}

proof fn lemma_join_no_newline(m: Seq<Seq<char>>, sep: Seq<char>)
    requires
        no_newline(sep),
        forall|i: int| 0 <= i < m.len() ==> no_newline(#[trigger] m[i]),
    ensures
        no_newline(join_with(m, sep)),
    decreases m.len(),
{
    if m.len() > 1 {
        lemma_join_no_newline(m.drop_last(), sep);
    }
}

/// A rendered record line holds no newline: one record stays one line.
proof fn lemma_link_no_newline(l: LinkView)
    ensures
        no_newline(json_of_link(l)),
{
    lemma_json_string_no_newline(l.url);
    lemma_json_string_no_newline(l.description);
    let m = l.tags.map_values(|x: Seq<char>| json_string_of(x));
    assert(forall|i: int| 0 <= i < m.len() ==> no_newline(#[trigger] m[i])) by {
        assert forall|i: int| 0 <= i < m.len() implies no_newline(#[trigger] m[i]) by {
            lemma_json_string_no_newline(l.tags[i]);
        }
    }
    lemma_join_no_newline(m, seq![',']);
}

/// Splitting on newlines undoes joining newline-free pieces.
proof fn lemma_split_of_joined(ps: Seq<Seq<char>>)
    requires
        ps.len() > 0,
        forall|i: int| 0 <= i < ps.len() ==> no_newline(#[trigger] ps[i]),
    ensures
        split_char(join_with(ps, seq!['\n']), '\n') == ps,
    decreases ps.len(),
{
    if ps.len() == 1 {
        crate::text::lemma_split_whole(ps[0], '\n');
        assert(seq![ps[0]] =~= ps);
    } else {
        lemma_join_unfold_left(ps, seq!['\n']);
        let s = join_with(ps, seq!['\n']);
        let k = ps[0].len() as int;
        assert(s =~= ps[0] + seq!['\n'] + join_with(ps.drop_first(), seq!['\n']));
        assert(s[k] == '\n');
        assert(forall|j: int| 0 <= j < k ==> s[j] == ps[0][j]);
        crate::text::lemma_split_step(s, '\n', k);
        assert(s.take(k) =~= ps[0]);
        assert(s.skip(k + 1) =~= join_with(ps.drop_first(), seq!['\n']));
        lemma_split_of_joined(ps.drop_first());
        assert(seq![ps[0]] + ps.drop_first() =~= ps);
    }
}

/// The collection that the lines of a file denote: each non-empty line
/// one record, keyed by url, a later line overriding an earlier one of
/// the same url; `None` when some non-empty line is malformed.
pub open spec fn map_of_lines(lines: Seq<Seq<char>>) -> Option<Map<Seq<char>, LinkView>>
    decreases lines.len(),
{
    if lines.len() == 0 {
        Some(Map::empty())
    } else {
        match map_of_lines(lines.drop_last()) {
            None => None,
            Some(m) => {
                let ln = lines.last();
                if ln.len() == 0 {
                    Some(m)
                } else {
                    match parse_link_line(ln) {
                        None => None,
                        Some(lv) => Some(m.insert(lv.url, lv)),
                    }
                }
            },
        }
    }
}

/// Rendered lines read back as the rendered collection.
proof fn lemma_map_of_lines_rendered(s: Seq<LinkView>)
    ensures
        map_of_lines(s.map_values(|l: LinkView| json_of_link(l))) == Some(
            crate::collection::map_of(s),
        ),
    decreases s.len(),
{
    let lines = s.map_values(|l: LinkView| json_of_link(l));
    if s.len() == 0 {
        assert(lines.len() == 0);
    } else {
        lemma_map_of_lines_rendered(s.drop_last());
        assert(lines.drop_last() =~= s.drop_last().map_values(|l: LinkView| json_of_link(l)));
        assert(lines.last() == json_of_link(s.last()));
        assert(json_of_link(s.last()).len() > 0);
        lemma_parse_link_rendered(s.last());
    }
}

/// Under a `Some` reading, every non-empty line is a well-formed record.
proof fn lemma_map_of_lines_all_parse(lines: Seq<Seq<char>>, k: int)
    requires
        map_of_lines(lines) is Some,
        0 <= k < lines.len(),
        lines[k].len() > 0,
    ensures
        parse_link_line(lines[k]) is Some,
    decreases lines.len(),
{
    if k == lines.len() - 1 {
    } else {
        assert(lines.drop_last()[k] == lines[k]);
        lemma_map_of_lines_all_parse(lines.drop_last(), k);
    }
}

/// The codec's round trip: the lines rendered from a collection read
/// back as exactly that collection.
pub proof fn lemma_render_parse_round_trip(s: Seq<LinkView>)
    ensures
        map_of_lines(split_char(jsonl_of(s), '\n')) == Some(crate::collection::map_of(s)),
{
    let lines = s.map_values(|l: LinkView| json_of_link(l));
    if s.len() == 0 {
        assert(lines.len() == 0);
        assert(jsonl_of(s) == Seq::<char>::empty());
        crate::text::lemma_split_whole(Seq::<char>::empty(), '\n');
        let split = split_char(jsonl_of(s), '\n');
        assert(split == seq![Seq::<char>::empty()]);
        assert(split.drop_last() =~= Seq::<Seq<char>>::empty());
        assert(map_of_lines(split.drop_last()) == Some(Map::<Seq<char>, LinkView>::empty()));
        assert(split.last().len() == 0);
        assert(map_of_lines(split) == Some(Map::<Seq<char>, LinkView>::empty()));
    } else {
        assert(forall|i: int| 0 <= i < lines.len() ==> no_newline(#[trigger] lines[i])) by {
            assert forall|i: int| 0 <= i < lines.len() implies no_newline(
                #[trigger] lines[i],
            ) by {
                lemma_link_no_newline(s[i]);
            }
        }
        lemma_split_of_joined(lines);
        lemma_map_of_lines_rendered(s);
    }
}

/// Relies on char::from_u32: the character with the given scalar value,
/// or nothing when the value is a surrogate or out of range.
pub assume_specification[ char::from_u32 ](v: u32) -> (r: Option<char>)
    ensures
        (v < 0xD800 || (0xE000 <= v && v <= 0x10FFFF)) ==> r == Some(v as char),
        !(v < 0xD800 || (0xE000 <= v && v <= 0x10FFFF)) ==> r is None,
;

fn is_json_ws_x(c: char) -> (b: bool)
    ensures
        b == is_json_ws(c),
{
    c == ' ' || c == '\t' || c == '\r'
}

/// The first position at or after `i` holding no whitespace.
fn skip_ws_x(s: &str, i: usize) -> (j: usize)
    requires
        i as int <= s@.len(),
    ensures
        j as int == skip_ws_spec(s@, i as int),
        i <= j,
        j as int <= s@.len(),
{
    let n = s.unicode_len();
    let mut j = i;
    while j < n && is_json_ws_x(s.get_char(j))
        invariant
            i <= j <= n,
            n == s@.len(),
            skip_ws_spec(s@, i as int) == skip_ws_spec(s@, j as int),
        decreases n - j,
    {
        j = j + 1;
    }
    j
}

/// The value of a hexadecimal digit, or a negative number.
fn hex_val_x(c: char) -> (v: i32)
    ensures
        v as int == hex_val(c),
{
    let u = c as u32;
    if 48 <= u && u <= 57 {
        (u - 48) as i32
    } else if 97 <= u && u <= 102 {
        (u - 87) as i32
    } else if 65 <= u && u <= 70 {
        (u - 55) as i32
    } else {
        -1
    }
}

/// The character a short escape stands for.
fn unescape_short_x(c: char) -> (r: Option<char>)
    ensures
        r == unescape_short(c),
{
    if c == '"' {
        Some('"')
    } else if c == '\\' {
        Some('\\')
    } else if c == '/' {
        Some('/')
    } else if c == 'b' {
        Some('\u{0008}')
    } else if c == 'f' {
        Some('\u{000C}')
    } else if c == 'n' {
        Some('\n')
    } else if c == 'r' {
        Some('\r')
    } else if c == 't' {
        Some('\t')
    } else {
        None
    }
}

/// Reads a JSON string whose opening quote stands at `i`; returns the
/// decoded text and the position after the closing quote.
fn parse_string_at_x(s: &str, i: usize) -> (r: Option<(String, usize)>)
    requires
        i as int <= s@.len(),
    ensures
        match r {
            Some(p) => parse_string_at(s@, i as int) == Some((p.0@, p.1 as int)) && i < p.1 <= s@.len(),
            None => parse_string_at(s@, i as int) is None,
        },
{
    let n = s.unicode_len();
    if !(i < n && s.get_char(i) == '"') {
        return None;
    }
    let ghost start: int = i + 1;
    let mut cur: usize = i + 1;
    let mut acc = String::new();
    while cur < n
        invariant
            i + 1 <= cur <= n,
            n == s@.len(),
            start == i + 1,
            0 <= i < s@.len() && s@[i as int] == '"',
            (match parse_string_body(s@, cur as int) {
                None => parse_string_body(s@, start) is None,
                Some(r) => parse_string_body(s@, start) == Some((acc@ + r.0, r.1)),
            }),
        decreases n - cur,
    {
        let c = s.get_char(cur);
        let ghost prev: int = cur as int;
        let ghost acc_prev = acc@;
        if c == '"' {
            proof {
                assert(parse_string_body(s@, prev) == Some((Seq::<char>::empty(), prev + 1)));
                assert(acc@ + Seq::<char>::empty() =~= acc@);
            }
            return Some((acc, cur + 1));
        } else if c == '\\' {
            if cur + 1 >= n {
                return None;
            }
            let e = s.get_char(cur + 1);
            if e == 'u' {
                if n - cur < 6 {
                    return None;
                }
                let h0 = hex_val_x(s.get_char(cur + 2));
                let h1 = hex_val_x(s.get_char(cur + 3));
                let h2 = hex_val_x(s.get_char(cur + 4));
                let h3 = hex_val_x(s.get_char(cur + 5));
                if h0 < 0 || h1 < 0 || h2 < 0 || h3 < 0 {
                    return None;
                }
                let v: u32 = (h0 as u32) * 4096 + (h1 as u32) * 256 + (h2 as u32) * 16 + (
                h3 as u32);
                if 0xD800 <= v && v < 0xE000 {
                    return None;
                }
                let c2 = match char::from_u32(v) {
                    Some(c2) => c2,
                    None => {
                        proof {
                            assert(false);
                        }
                        ' '
                    },
                };
                push_char(&mut acc, c2);
                cur = cur + 6;
                proof {
                    assert(acc@ =~= acc_prev.push(c2));
                    if parse_string_body(s@, cur as int) is Some {
                        let rr = parse_string_body(s@, cur as int).unwrap();
                        assert(parse_string_body(s@, prev) == Some(
                            (seq![c2] + rr.0, rr.1),
                        ));
                        assert(acc_prev + (seq![c2] + rr.0) =~= acc@ + rr.0);
                    }
                }
            } else {
                match unescape_short_x(e) {
                    None => {
                        return None;
                    },
                    Some(c2) => {
                        push_char(&mut acc, c2);
                        cur = cur + 2;
                        proof {
                            assert(acc@ =~= acc_prev.push(c2));
                            if parse_string_body(s@, cur as int) is Some {
                                let rr = parse_string_body(s@, cur as int).unwrap();
                                assert(parse_string_body(s@, prev) == Some(
                                    (seq![c2] + rr.0, rr.1),
                                ));
                                assert(acc_prev + (seq![c2] + rr.0) =~= acc@ + rr.0);
                            }
                        }
                    },
                }
            }
        } else if (c as u32) < 0x20 {
            return None;
        } else {
            push_char(&mut acc, c);
            cur = cur + 1;
            proof {
                assert(acc@ =~= acc_prev.push(c));
                if parse_string_body(s@, cur as int) is Some {
                    let rr = parse_string_body(s@, cur as int).unwrap();
                    assert(parse_string_body(s@, prev) == Some((seq![c] + rr.0, rr.1)));
                    assert(acc_prev + (seq![c] + rr.0) =~= acc@ + rr.0);
                }
            }
        }
    }
    None
}

/// Reads a JSON array of strings whose bracket stands at `i`.
fn parse_tags_value_x(s: &str, i: usize) -> (r: Option<(Vec<String>, usize)>)
    requires
        i as int <= s@.len(),
    ensures
        match r {
            Some(p) => parse_tags_value(s@, i as int) == Some((p.0.deep_view(), p.1 as int)) && i
                < p.1 <= s@.len(),
            None => parse_tags_value(s@, i as int) is None,
        },
{
    let n = s.unicode_len();
    if !(i < n && s.get_char(i) == '[') {
        return None;
    }
    let j = skip_ws_x(s, i + 1);
    if j < n && s.get_char(j) == ']' {
        let empty: Vec<String> = Vec::new();
        proof {
            assert(empty.deep_view() =~= Seq::<Seq<char>>::empty());
        }
        return Some((empty, j + 1));
    }
    let ghost start: int = j as int;
    let mut cur: usize = j;
    let mut acc: Vec<String> = Vec::new();
    proof {
        assert(acc.deep_view() =~= Seq::<Seq<char>>::empty());
    }
    loop
        invariant
            j <= cur <= n,
            n == s@.len(),
            i < j,
            0 <= i < s@.len() && s@[i as int] == '[',
            start == j as int,
            skip_ws_spec(s@, i + 1) == start,
            !(start < s@.len() && s@[start] == ']'),
            (match parse_tags_items(s@, cur as int) {
                None => parse_tags_items(s@, start) is None,
                Some(r) => parse_tags_items(s@, start) == Some((acc.deep_view() + r.0, r.1)),
            }),
        decreases n - cur,
    {
        let ghost prev: int = cur as int;
        let ghost acc_prev = acc.deep_view();
        match parse_string_at_x(s, cur) {
            None => {
                return None;
            },
            Some((v, vn)) => {
                let j2 = skip_ws_x(s, vn);
                if j2 < n && s.get_char(j2) == ',' {
                    let j3 = skip_ws_x(s, j2 + 1);
                    proof {
                        if parse_tags_items(s@, j3 as int) is Some {
                            let rr = parse_tags_items(s@, j3 as int).unwrap();
                            assert(parse_tags_items(s@, prev) == Some(
                                (seq![v@] + rr.0, rr.1),
                            ));
                        }
                    }
                    acc.push(v);
                    proof {
                        assert(acc.deep_view() =~= acc_prev.push(acc@[acc@.len() - 1]@));
                        if parse_tags_items(s@, j3 as int) is Some {
                            let rr = parse_tags_items(s@, j3 as int).unwrap();
                            assert(acc_prev + (seq![acc.deep_view().last()] + rr.0) =~= acc.deep_view()
                                + rr.0);
                        }
                    }
                    cur = j3;
                } else if j2 < n && s.get_char(j2) == ']' {
                    proof {
                        assert(parse_tags_items(s@, prev) == Some((seq![v@], j2 + 1)));
                    }
                    acc.push(v);
                    proof {
                        assert(acc_prev + seq![acc.deep_view().last()] =~= acc.deep_view());
                    }
                    return Some((acc, j2 + 1));
                } else {
                    return None;
                }
            },
        }
    }
}

/// The fields read so far while walking a record's members.
struct PartialLink {
    url: Option<String>,
    description: Option<String>,
    tags: Option<Vec<String>>,
}

spec fn pview(p: PartialLink) -> PartialRecord {
    PartialRecord {
        url: match p.url {
            Some(u) => Some(u@),
            None => None,
        },
        description: match p.description {
            Some(d) => Some(d@),
            None => None,
        },
        tags: match p.tags {
            Some(t) => Some(t.deep_view()),
            None => None,
        },
    }
}

spec fn empty_record() -> PartialRecord {
    PartialRecord { url: None, description: None, tags: None }
}

/// What reading one member leaves: more members follow, the record is
/// done, or the text is malformed.
enum MemberStep {
    More(PartialLink, usize),
    End(PartialLink, usize),
    Bad,
}

/// Reads one `key: value` member at `cur` and the separator after it.
#[verifier::rlimit(100)]
fn parse_member_x(s: &str, cur: usize, acc: PartialLink) -> (r: MemberStep)
    requires
        cur as int <= s@.len(),
    ensures
        match r {
            MemberStep::More(a, nxt) => parse_members(s@, cur as int, pview(acc))
                == parse_members(s@, nxt as int, pview(a)) && cur < nxt && nxt as int <= s@.len(),
            MemberStep::End(a, e) => parse_members(s@, cur as int, pview(acc)) == Some(
                (pview(a), e as int),
            ) && cur < e && e as int <= s@.len(),
            MemberStep::Bad => parse_members(s@, cur as int, pview(acc)) is None,
        },
{
    let n = s.unicode_len();
    let ghost accv = pview(acc);
    let mut acc = acc;
    match parse_string_at_x(s, cur) {
        None => {
            return MemberStep::Bad;
        },
        Some((key, kn)) => {
            let j = skip_ws_x(s, kn);
            if !(j < n && s.get_char(j) == ':') {
                return MemberStep::Bad;
            }
            let j2 = skip_ws_x(s, j + 1);
            let is_url = crate::text::str_eq(key.as_str(), "url");
            let is_desc = crate::text::str_eq(key.as_str(), "description");
            let is_tags = crate::text::str_eq(key.as_str(), "tags");
            proof {
                reveal_strlit("url");
                reveal_strlit("description");
                reveal_strlit("tags");
                assert("url"@ =~= key_url());
                assert("description"@ =~= key_description());
                assert("tags"@ =~= key_tags());
            }
            let fnext: usize;
            if is_url {
                if acc.url.is_some() {
                    return MemberStep::Bad;
                }
                match parse_string_at_x(s, j2) {
                    None => {
                        return MemberStep::Bad;
                    },
                    Some((v, vn)) => {
                        acc.url = Some(v);
                        fnext = vn;
                    },
                }
            } else if is_desc {
                if acc.description.is_some() {
                    return MemberStep::Bad;
                }
                match parse_string_at_x(s, j2) {
                    None => {
                        return MemberStep::Bad;
                    },
                    Some((v, vn)) => {
                        acc.description = Some(v);
                        fnext = vn;
                    },
                }
            } else if is_tags {
                if acc.tags.is_some() {
                    return MemberStep::Bad;
                }
                match parse_tags_value_x(s, j2) {
                    None => {
                        return MemberStep::Bad;
                    },
                    Some((v, vn)) => {
                        acc.tags = Some(v);
                        fnext = vn;
                    },
                }
            } else {
                return MemberStep::Bad;
            }
            let j3 = skip_ws_x(s, fnext);
            if j3 < n && s.get_char(j3) == ',' {
                let j4 = skip_ws_x(s, j3 + 1);
                proof {
                    assert(parse_members(s@, cur as int, accv) == parse_members(
                        s@,
                        j4 as int,
                        pview(acc),
                    ));
                }
                MemberStep::More(acc, j4)
            } else if j3 < n && s.get_char(j3) == '}' {
                proof {
                    assert(parse_members(s@, cur as int, accv) == Some((pview(acc), j3 + 1)));
                }
                MemberStep::End(acc, j3 + 1)
            } else {
                MemberStep::Bad
            }
        },
    }
}

/// Reads the members of a record from the first key to the closing
/// brace.
fn parse_members_x(s: &str, i: usize) -> (r: Option<(PartialLink, usize)>)
    requires
        i as int <= s@.len(),
    ensures
        match r {
            Some(p) => parse_members(s@, i as int, empty_record()) == Some(
                (pview(p.0), p.1 as int),
            ) && p.1 <= s@.len(),
            None => parse_members(s@, i as int, empty_record()) is None,
        },
{
    let n = s.unicode_len();
    let ghost start: int = i as int;
    let mut cur: usize = i;
    let mut acc = PartialLink { url: None, description: None, tags: None };
    proof {
        assert(pview(acc) == empty_record());
    }
    loop
        invariant
            i <= cur <= n,
            n == s@.len(),
            start == i as int,
            parse_members(s@, start, empty_record()) == parse_members(
                s@,
                cur as int,
                pview(acc),
            ),
        decreases n - cur,
    {
        match parse_member_x(s, cur, acc) {
            MemberStep::More(a, nxt) => {
                acc = a;
                cur = nxt;
            },
            MemberStep::End(a, e) => {
                return Some((a, e));
            },
            MemberStep::Bad => {
                return None;
            },
        }
    }
}

/// One line read as a link: the record object with all three fields,
/// between nothing but whitespace.
pub fn parse_link(line: &str) -> (r: Option<Link>)
    ensures
        match r {
            Some(l) => parse_link_line(line@) == Some(l@),
            None => parse_link_line(line@) is None,
        },
{
    let n = line.unicode_len();
    let i0 = skip_ws_x(line, 0);
    if !(i0 < n && line.get_char(i0) == '{') {
        return None;
    }
    let i1 = skip_ws_x(line, i0 + 1);
    match parse_members_x(line, i1) {
        None => None,
        Some((p, j)) => {
            let PartialLink { url, description, tags } = p;
            if url.is_some() && description.is_some() && tags.is_some() {
                let j2 = skip_ws_x(line, j);
                if j2 == n {
                    let l = Link {
                        url: url.unwrap(),
                        description: description.unwrap(),
                        tags: tags.unwrap(),
                    };
                    Some(l)
                } else {
                    None
                }
            } else {
                None
            }
        },
    }
}

/// A malformed record: the index of the first line that would not read
/// back as a link.
#[derive(Debug)]
pub struct ParseError {
    pub line: usize,
}

/// The whole backing text read as a collection: one record per
/// non-empty line, keyed by url, a later line overriding an earlier one
/// of the same url.  The error names the first malformed line.
pub fn parse_links(text: &str) -> (r: Result<LinkMap, ParseError>)
    ensures
        r matches Ok(m) ==> map_of_lines(split_char(text@, '\n')) == Some(m@),
        r matches Err(e) ==> ({
            let lines = split_char(text@, '\n');
            &&& 0 <= (e.line as int) < lines.len()
            &&& lines[e.line as int].len() > 0
            &&& parse_link_line(lines[e.line as int]) is None
            &&& forall|k: int|
                0 <= k < e.line ==> lines[k].len() == 0 || parse_link_line(lines[k]) is Some
        }),
{
    let lines = crate::text::split_str(text, '\n');
    let mut m = LinkMap::new();
    let nl = lines.len();
    let mut k: usize = 0;
    proof {
        assert(lines.deep_view().take(0) =~= Seq::<Seq<char>>::empty());
    }
    while k < nl
        invariant
            0 <= k <= nl,
            nl == lines.len(),
            lines.deep_view() == split_char(text@, '\n'),
            map_of_lines(lines.deep_view().take(k as int)) == Some(m@),
            forall|t: int|
                0 <= t < k ==> lines.deep_view()[t].len() == 0 || parse_link_line(
                    lines.deep_view()[t],
                ) is Some,
        decreases nl - k,
    {
        let ln = &lines[k];
        proof {
            assert(lines.deep_view()[k as int] == lines@[k as int]@);
            assert(lines.deep_view().take(k + 1).drop_last() =~= lines.deep_view().take(k as int));
            assert(lines.deep_view().take(k + 1).last() == lines.deep_view()[k as int]);
        }
        if ln.as_str().unicode_len() == 0 {
        } else {
            match parse_link(ln.as_str()) {
                None => {
                    return Err(ParseError { line: k });
                },
                Some(l) => {
                    m.upsert(l);
                },
            }
        }
        k = k + 1;
    }
    proof {
        assert(lines.deep_view().take(nl as int) =~= lines.deep_view());
    }
    Ok(m)
}

/// Rendering a collection and reading the text back yields an equal
/// collection: the codec's round trip, end to end.
pub fn render_then_parse(links: &LinkMap) -> (r: LinkMap)
    ensures
        r@ == links@,
{
    let text = render_links(links);
    proof {
        lemma_render_parse_round_trip(links.links_seq());
    }
    match parse_links(text.as_str()) {
        Ok(m) => m,
        Err(e) => {
            proof {
                lemma_map_of_lines_all_parse(split_char(text@, '\n'), e.line as int);
                assert(false);
            }
            LinkMap::new()
        },
    }
}

} // verus!
