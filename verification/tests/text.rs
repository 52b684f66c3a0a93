use registry_manager::text::{
    ends_with, join, join3, starts_with, strip_prefix, text_eq, text_less,
};
use registry_manager::text_map::TextMap;

#[test]
fn text_eq_compares_content() {
    assert!(text_eq("", ""));
    assert!(text_eq("abc", "abc"));
    assert!(!text_eq("abc", "abd"));
    assert!(!text_eq("abc", "ab"));
    assert!(!text_eq("ab", "abc"));
    assert!(text_eq("héllo", "héllo"));
    assert!(!text_eq("héllo", "hèllo"));
}

#[test]
fn text_less_is_the_byte_order() {
    assert!(text_less("", "a"));
    assert!(!text_less("", ""));
    assert!(!text_less("a", ""));
    assert!(text_less("a", "b"));
    assert!(!text_less("b", "a"));
    assert!(text_less("a", "ab"));
    assert!(!text_less("ab", "a"));
    assert!(text_less("Z", "a"));
    assert!(text_less("abc", "abd"));
    assert!(!text_less("abc", "abc"));
    assert!(text_less("z", "é"));
    for (a, b) in [("Alpha", "alpha"), ("a10", "a9"), ("", "x"), ("é", "z"), ("same", "same")] {
        assert_eq!(text_less(a, b), a < b, "{:?} {:?}", a, b);
        assert_eq!(text_less(b, a), b < a, "{:?} {:?}", b, a);
    }
}

#[test]
fn ends_with_looks_at_the_end() {
    assert!(ends_with("ContentTemplate", "Template"));
    assert!(ends_with("Template", "Template"));
    assert!(!ends_with("emplate", "Template"));
    assert!(!ends_with("TemplateX", "Template"));
    assert!(!ends_with("template", "Template"));
    assert!(ends_with("anything", ""));
    assert!(ends_with("", ""));
    assert!(!ends_with("", "x"));
    assert!(ends_with("naïve/stable", "/stable"));
}

#[test]
fn starts_with_looks_at_the_start() {
    assert!(starts_with("github_pat_abc", "github_pat_"));
    assert!(starts_with("github_pat_", "github_pat_"));
    assert!(!starts_with("github_pat", "github_pat_"));
    assert!(!starts_with("xgithub_pat_", "github_pat_"));
    assert!(starts_with("abc", ""));
    assert!(!starts_with("", "a"));
}

#[test]
fn strip_prefix_gives_the_rest() {
    assert_eq!(strip_prefix("paperback-community/foo", "paperback-community/"), Some(String::from("foo")));
    assert_eq!(strip_prefix("paperback-community/", "paperback-community/"), Some(String::new()));
    assert_eq!(strip_prefix("other/foo", "paperback-community/"), None);
    assert_eq!(strip_prefix("é/x", "é/"), Some(String::from("x")));
}

#[test]
fn join_concatenates() {
    assert_eq!(join("ab", "cd"), "abcd");
    assert_eq!(join("", "cd"), "cd");
    assert_eq!(join("ab", ""), "ab");
    assert_eq!(join3("a", "/", "b"), "a/b");
    assert_eq!(join3("", "", ""), "");
}

fn keys(map: &TextMap<u32>) -> Vec<String> {
    (0..map.len()).map(|i| map.key_at(i).clone()).collect()
}

#[test]
fn text_map_keeps_keys_in_ascending_order() {
    let mut map: TextMap<u32> = TextMap::new();
    assert!(map.is_empty());
    for (k, v) in [("pear", 1), ("apple", 2), ("zebra", 3), ("Mango", 4), ("fig", 5)] {
        map.insert(String::from(k), v);
    }
    assert_eq!(map.len(), 5);
    assert!(!map.is_empty());
    assert_eq!(
        keys(&map),
        vec![
            String::from("Mango"),
            String::from("apple"),
            String::from("fig"),
            String::from("pear"),
            String::from("zebra"),
        ]
    );
    assert_eq!(*map.value_at(0), 4);
    assert_eq!(*map.value_at(4), 3);
}

#[test]
fn text_map_insert_replaces_the_value_of_a_key() {
    let mut map: TextMap<u32> = TextMap::new();
    map.insert(String::from("a"), 1);
    map.insert(String::from("b"), 2);
    map.insert(String::from("a"), 3);
    assert_eq!(map.len(), 2);
    assert_eq!(map.get("a"), Some(&3));
    assert_eq!(map.get("b"), Some(&2));
    assert_eq!(map.get("c"), None);
    assert!(map.contains_key("a"));
    assert!(!map.contains_key("c"));
    assert!(!map.contains_key(""));
}

#[test]
fn text_map_remove_takes_the_entry_out() {
    let mut map: TextMap<u32> = TextMap::new();
    map.insert(String::from("b"), 2);
    map.insert(String::from("a"), 1);
    map.insert(String::from("c"), 3);
    assert_eq!(map.remove("b"), Some(2));
    assert_eq!(map.remove("b"), None);
    assert_eq!(map.remove("zz"), None);
    assert_eq!(keys(&map), vec![String::from("a"), String::from("c")]);
    assert_eq!(map.remove("a"), Some(1));
    assert_eq!(map.remove("c"), Some(3));
    assert!(map.is_empty());
}
