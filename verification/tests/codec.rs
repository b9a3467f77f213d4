use mystuff::collection::LinkMap;
use mystuff::jsonl::{parse_link, parse_links, render_link, render_links, render_then_parse};
use mystuff::types::Link;

fn s(x: &str) -> String {
    String::from(x)
}

fn link(url: &str, description: &str, tags: &[&str]) -> Link {
    Link {
        url: s(url),
        description: s(description),
        tags: tags.iter().map(|t| s(t)).collect(),
    }
}

#[test]
fn renders_one_link_exactly() {
    let l = link("http://a", "d", &["t1", "t2"]);
    assert_eq!(
        render_link(&l),
        s("{\"url\":\"http://a\",\"description\":\"d\",\"tags\":[\"t1\",\"t2\"]}")
    );
}

#[test]
fn renders_empty_tags_as_an_empty_array() {
    let l = link("u", "", &[]);
    assert_eq!(render_link(&l), s("{\"url\":\"u\",\"description\":\"\",\"tags\":[]}"));
}

#[test]
fn renders_escapes() {
    let l = link("u", "a\"b\\c\nd\te\rf\u{0001}g", &[]);
    assert_eq!(
        render_link(&l),
        s("{\"url\":\"u\",\"description\":\"a\\\"b\\\\c\\nd\\te\\rf\\u0001g\",\"tags\":[]}")
    );
}

#[test]
fn parses_what_it_renders() {
    let l = link("http://a", "some \"text\" with \\ and \n and é", &["t 1", ""]);
    let line = render_link(&l);
    let back = parse_link(line.as_str()).unwrap();
    assert_eq!(back.url, l.url);
    assert_eq!(back.description, l.description);
    assert_eq!(back.tags, l.tags);
}

#[test]
fn parses_reordered_fields_and_spaces() {
    let line = "{ \"tags\" : [ \"a\" , \"b\" ] , \"description\" : \"d\" , \"url\" : \"u\" }";
    let l = parse_link(line).unwrap();
    assert_eq!(l.url, s("u"));
    assert_eq!(l.description, s("d"));
    assert_eq!(l.tags, vec![s("a"), s("b")]);
}

#[test]
fn parses_unicode_escape() {
    let l = parse_link("{\"url\":\"\\u0041\",\"description\":\"\",\"tags\":[]}").unwrap();
    assert_eq!(l.url, s("A"));
}

#[test]
fn parses_short_escapes() {
    let l =
        parse_link("{\"url\":\"u\",\"description\":\"\\\"\\\\\\/\\b\\f\\n\\r\\t\",\"tags\":[]}")
            .unwrap();
    assert_eq!(l.description, s("\"\\/\u{0008}\u{000C}\n\r\t"));
}

#[test]
fn refuses_malformed_records() {
    // missing field
    assert!(parse_link("{\"url\":\"u\",\"description\":\"d\"}").is_none());
    // repeated field
    assert!(parse_link("{\"url\":\"u\",\"url\":\"v\",\"description\":\"d\",\"tags\":[]}")
        .is_none());
    // unknown field
    assert!(parse_link("{\"url\":\"u\",\"description\":\"d\",\"tags\":[],\"extra\":\"x\"}")
        .is_none());
    // trailing text
    assert!(parse_link("{\"url\":\"u\",\"description\":\"d\",\"tags\":[]} x").is_none());
    // unterminated string
    assert!(parse_link("{\"url\":\"u,\"description\":\"d\",\"tags\":[]}").is_none());
    // bad escape
    assert!(parse_link("{\"url\":\"\\q\",\"description\":\"d\",\"tags\":[]}").is_none());
    // escaped surrogate
    assert!(parse_link("{\"url\":\"\\ud800\",\"description\":\"d\",\"tags\":[]}").is_none());
    // raw control character
    assert!(parse_link("{\"url\":\"u\u{0001}\",\"description\":\"d\",\"tags\":[]}").is_none());
    // a number where a string is expected
    assert!(parse_link("{\"url\":7,\"description\":\"d\",\"tags\":[]}").is_none());
    // a string where the array is expected
    assert!(parse_link("{\"url\":\"u\",\"description\":\"d\",\"tags\":\"t\"}").is_none());
    // not an object
    assert!(parse_link("[]").is_none());
    assert!(parse_link("").is_none());
}

#[test]
fn parses_a_whole_file() {
    let text = "{\"url\":\"http://a\",\"description\":\"da\",\"tags\":[\"x\"]}\n\n{\"url\":\"http://b\",\"description\":\"db\",\"tags\":[]}";
    let map = parse_links(text).unwrap();
    assert_eq!(map.len(), 2);
    assert_eq!(map.get(&s("http://a")).unwrap().description, s("da"));
    assert_eq!(map.get(&s("http://b")).unwrap().description, s("db"));
}

#[test]
fn empty_text_parses_to_an_empty_collection() {
    let map = parse_links("").unwrap();
    assert_eq!(map.len(), 0);
}

#[test]
fn a_later_line_overrides_an_earlier_one_of_the_same_url() {
    let text = "{\"url\":\"u\",\"description\":\"one\",\"tags\":[]}\n{\"url\":\"u\",\"description\":\"two\",\"tags\":[]}";
    let map = parse_links(text).unwrap();
    assert_eq!(map.len(), 1);
    assert_eq!(map.get(&s("u")).unwrap().description, s("two"));
}

#[test]
fn the_error_names_the_first_malformed_line() {
    let text = "{\"url\":\"u\",\"description\":\"d\",\"tags\":[]}\nnot json\n{\"url\":\"v\",\"description\":\"d\",\"tags\":[]}";
    let err = parse_links(text).unwrap_err();
    assert_eq!(err.line, 1);
}

#[test]
fn renders_a_whole_collection_with_one_line_per_link() {
    let mut map = LinkMap::new();
    map.upsert(link("http://a", "da", &["x"]));
    map.upsert(link("http://b", "db", &[]));
    let text = render_links(&map);
    assert_eq!(
        text,
        s("{\"url\":\"http://a\",\"description\":\"da\",\"tags\":[\"x\"]}\n{\"url\":\"http://b\",\"description\":\"db\",\"tags\":[]}")
    );
    let back = parse_links(text.as_str()).unwrap();
    assert_eq!(back.len(), 2);
}

#[test]
fn render_then_parse_returns_an_equal_collection() {
    let mut map = LinkMap::new();
    map.upsert(link("http://a", "with \"escapes\"\n", &["t1", " t 2 "]));
    map.upsert(link("http://b", "", &[]));
    let back = render_then_parse(&map);
    assert_eq!(back.len(), 2);
    let a = back.get(&s("http://a")).unwrap();
    assert_eq!(a.description, s("with \"escapes\"\n"));
    assert_eq!(a.tags, vec![s("t1"), s(" t 2 ")]);
}

#[test]
fn agrees_with_a_general_json_reader() {
    let l = link("http://a", "text with \"quotes\" and \n breaks", &["t1", "t 2"]);
    let line = render_link(&l);
    let v: serde_json::Value = serde_json::from_str(line.as_str()).unwrap();
    assert_eq!(v.get("url").unwrap().as_str().unwrap(), "http://a");
    assert_eq!(
        v.get("description").unwrap().as_str().unwrap(),
        "text with \"quotes\" and \n breaks"
    );
    let tags: Vec<String> = v
        .get("tags")
        .unwrap()
        .as_array()
        .unwrap()
        .iter()
        .map(|t| String::from(t.as_str().unwrap()))
        .collect();
    assert_eq!(tags, vec![s("t1"), s("t 2")]);

    // and what a general writer produces parses back
    let rendered = v.to_string();
    let back = parse_link(rendered.as_str()).unwrap();
    assert_eq!(back.url, l.url);
    assert_eq!(back.description, l.description);
    assert_eq!(back.tags, l.tags);
}
