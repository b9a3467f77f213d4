use mystuff::collection::LinkMap;
use mystuff::datastore::memory::MemoryDataStore;
use mystuff::datastore::{set_then_get, DataStore};
use mystuff::links::{add_link, add_link_twice, get_tags_from_links, handle_link, list_links};
use mystuff::links::TagCompleter;
use mystuff::types::Link;

fn s(x: &str) -> String {
    String::from(x)
}

#[test]
fn add_to_empty_store_returns_the_new_link() {
    let mut store = MemoryDataStore::new();
    let link = add_link(
        &mut store,
        s("http://a.example"),
        vec![s("t1"), s("t2")],
        Some(s("desc")),
    );
    assert_eq!(link.url, s("http://a.example"));
    assert_eq!(link.description, s("desc"));
    assert_eq!(link.tags, vec![s("t1"), s("t2")]);
    let links = store.get_links();
    assert_eq!(links.len(), 1);
    assert!(links.contains_key(&s("http://a.example")));
}

#[test]
fn add_duplicate_returns_existing_and_changes_nothing() {
    let mut store = MemoryDataStore::new();
    add_link(
        &mut store,
        s("http://a.example"),
        vec![s("t1")],
        Some(s("first")),
    );
    let link = add_link(&mut store, s("http://a.example"), vec![], None);
    assert_eq!(link.url, s("http://a.example"));
    assert_eq!(link.description, s("first"));
    assert_eq!(link.tags, vec![s("t1")]);
    let links = store.get_links();
    assert_eq!(links.len(), 1);
}

#[test]
fn add_duplicate_keeps_the_first_description() {
    let mut store = MemoryDataStore::new();
    add_link(&mut store, s("http://a"), vec![s("x")], Some(s("one")));
    let link = add_link(&mut store, s("http://a"), vec![s("y")], Some(s("two")));
    assert_eq!(link.description, s("one"));
    assert_eq!(link.tags, vec![s("x")]);
    assert_eq!(store.get_links().len(), 1);
}

#[test]
fn adding_twice_yields_the_same_link_and_one_entry() {
    let mut store = MemoryDataStore::new();
    let (first, second) = add_link_twice(
        &mut store,
        s("http://a.example"),
        vec![s("t")],
        Some(s("d")),
    );
    assert_eq!(first.url, second.url);
    assert_eq!(first.description, second.description);
    assert_eq!(first.tags, second.tags);
    assert_eq!(store.get_links().len(), 1);
}

#[test]
fn add_link_trims_each_tag() {
    let mut store = MemoryDataStore::new();
    let link = add_link(
        &mut store,
        s("http://a"),
        vec![s(" t1 "), s("\tt2"), s("t3  ")],
        Some(s("d")),
    );
    assert_eq!(link.tags, vec![s("t1"), s("t2"), s("t3")]);
}

#[test]
fn store_round_trip_returns_the_same_collection() {
    let mut map = LinkMap::new();
    map.upsert(Link {
        url: s("http://a"),
        description: s("da"),
        tags: vec![s("x")],
    });
    map.upsert(Link {
        url: s("http://b"),
        description: s("db"),
        tags: vec![],
    });
    let mut store = MemoryDataStore::new();
    let got = set_then_get(&mut store, &map);
    assert_eq!(got.len(), 2);
    let a = got.get(&s("http://a")).unwrap();
    assert_eq!(a.description, s("da"));
    assert_eq!(a.tags, vec![s("x")]);
    let b = got.get(&s("http://b")).unwrap();
    assert_eq!(b.description, s("db"));
    assert_eq!(b.tags, Vec::<String>::new());
}

#[test]
fn upsert_replaces_an_entry_of_the_same_url() {
    let mut map = LinkMap::new();
    map.upsert(Link {
        url: s("http://a"),
        description: s("old"),
        tags: vec![],
    });
    map.upsert(Link {
        url: s("http://a"),
        description: s("new"),
        tags: vec![s("t")],
    });
    assert_eq!(map.len(), 1);
    assert_eq!(map.get(&s("http://a")).unwrap().description, s("new"));
}

#[test]
fn list_links_renders_one_line_per_link() {
    let mut store = MemoryDataStore::new();
    add_link(
        &mut store,
        s("http://a"),
        vec![s("t1"), s("t2")],
        Some(s("da")),
    );
    let lines = list_links(&mut store);
    assert_eq!(lines, vec![s("http://a - da [t1, t2]")]);
}

#[test]
fn handle_link_with_url_adds_and_prints_it() {
    let mut store = MemoryDataStore::new();
    let out = handle_link(
        &mut store,
        Some(s("http://a")),
        vec![s("t")],
        Some(s("d")),
    );
    assert_eq!(out, vec![s("http://a - d [t]")]);
    assert!(store.get_links().contains_key(&s("http://a")));
}

#[test]
fn handle_link_without_url_lists() {
    let mut store = MemoryDataStore::new();
    add_link(&mut store, s("http://a"), vec![s("t")], Some(s("d")));
    let out = handle_link(&mut store, None, vec![], None);
    assert_eq!(out, vec![s("http://a - d [t]")]);
}

#[test]
fn tags_are_collected_lowercased_trimmed_and_deduplicated() {
    let mut store = MemoryDataStore::new();
    add_link(
        &mut store,
        s("http://a"),
        vec![s("Rust"), s(" CLI ")],
        Some(s("d")),
    );
    add_link(
        &mut store,
        s("http://b"),
        vec![s("rust"), s("web")],
        Some(s("d")),
    );
    let tags = get_tags_from_links(&store.get_links());
    assert_eq!(tags, vec![s("rust"), s("cli"), s("web")]);
}

#[test]
fn suggestions_match_the_last_segment_case_insensitively() {
    let mut completer = TagCompleter {
        tags: vec![s("Rust"), s("go"), s("cli")],
        input: String::new(),
    };
    let out = completer.get_suggestions("go, RU");
    assert_eq!(out, vec![s("Rust")]);
    assert_eq!(completer.input, s("go, RU"));
}

#[test]
fn suggestions_for_blank_input_are_empty() {
    let mut completer = TagCompleter {
        tags: vec![s("Rust")],
        input: s("kept"),
    };
    let out = completer.get_suggestions("   ");
    assert_eq!(out, Vec::<String>::new());
    assert_eq!(completer.input, s("kept"));
}

#[test]
fn completion_keeps_the_text_before_the_last_comma() {
    let completer = TagCompleter {
        tags: vec![],
        input: s("rust, cl"),
    };
    assert_eq!(completer.get_completion(Some(s("cli"))), s("rust, cli"));
    assert_eq!(completer.get_completion(None), s("rust, "));
    let fresh = TagCompleter {
        tags: vec![],
        input: s("ru"),
    };
    assert_eq!(fresh.get_completion(Some(s("rust"))), s("rust"));
}
