use mystuff::datastore::local::LocalDataStore;
use mystuff::datastore::memory::MemoryDataStore;
use mystuff::datastore::DataStore;
use mystuff::text::{split_and_trim, str_eq, trim_str};
use mystuff::types::Link;

fn s(x: &str) -> String {
    String::from(x)
}

#[test]
fn trim_removes_surrounding_whitespace_only() {
    assert_eq!(trim_str("  a b \t\n"), s("a b"));
    assert_eq!(trim_str(""), s(""));
    assert_eq!(trim_str(" \u{00A0} "), s(""));
    assert_eq!(trim_str("x"), s("x"));
}

#[test]
fn split_and_trim_splits_on_commas() {
    assert_eq!(split_and_trim("t1, t2 ,t3"), vec![s("t1"), s("t2"), s("t3")]);
    assert_eq!(split_and_trim(""), vec![s("")]);
    assert_eq!(split_and_trim("a,"), vec![s("a"), s("")]);
}

#[test]
fn str_eq_compares_characters() {
    assert!(str_eq("abc", "abc"));
    assert!(!str_eq("abc", "abd"));
    assert!(!str_eq("abc", "ab"));
}

#[test]
fn link_new_splits_a_comma_separated_tag_string() {
    let url = s("http://a");
    let l = Link::new(&url, s("d"), s(" t1 ,t2, t3"));
    assert_eq!(l.url, s("http://a"));
    assert_eq!(l.description, s("d"));
    assert_eq!(l.tags, vec![s("t1"), s("t2"), s("t3")]);
}

#[test]
fn link_new_with_an_empty_tag_string_keeps_one_empty_tag() {
    let url = s("http://a");
    let l = Link::new(&url, s("d"), s(""));
    assert_eq!(l.tags, vec![s("")]);
}

#[test]
fn an_explicit_data_directory_is_kept_as_given() {
    let store = LocalDataStore::new(Some(s("/tmp/somewhere")));
    assert_eq!(store.path, s("/tmp/somewhere"));
    assert_eq!(store.links_file_path(), s("/tmp/somewhere/links.jsonl"));
}

#[test]
fn the_default_data_directory_is_the_dotfile_directory() {
    let store = LocalDataStore::new(None);
    assert!(store.path.ends_with(".mystuff"));
    assert!(store.links_file_path().ends_with(".mystuff/links.jsonl"));
}

#[test]
fn a_new_memory_store_is_empty() {
    let store = MemoryDataStore::new();
    assert_eq!(store.get_links().len(), 0);
}
