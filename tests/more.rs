use arca::{normalize_path, resolve_path, Path, PrefixTrie};

#[test]
fn empty_path_stays_empty() {
    assert_eq!(Path::from("").as_str(), "");
    assert_eq!(Path::empty(), Path::new());
    assert_eq!(Path::root().as_str(), "/");
}

#[test]
fn double_separators_collapse() {
    assert_eq!(resolve_path("//a//b//"), "/a/b/");
    assert_eq!(resolve_path("a//b"), "a/b");
}

#[test]
fn emptied_relative_path_with_trailing_separator_is_root() {
    assert_eq!(resolve_path("x/../"), "/");
    assert_eq!(resolve_path("x/.."), "");
}

#[test]
fn predicates() {
    assert!(Path::from("/").is_root());
    assert!(!Path::from("/a").is_root());
    assert!(Path::from("/a").is_absolute());
    assert!(Path::from("a").is_relative());
    assert!(Path::from("..").is_extern());
    assert!(Path::from("../a").is_extern());
    assert!(!Path::from("..a").is_extern());
    assert!(Path::from("a/b").is_forward());
    assert!(!Path::from("../b").is_forward());
    assert!(!Path::from("/b").is_forward());
}

#[test]
fn contains_checks_prefix_or_equality() {
    assert!(Path::from("/usr").contains(&Path::from("/usr/local")));
    assert!(Path::from("/usr").contains(&Path::from("/usr")));
    assert!(!Path::from("/usr/local").contains(&Path::from("/usr")));
}

#[test]
fn dirname_of_relative_paths() {
    assert_eq!(Path::from("foo").dirname(), None);
    assert_eq!(Path::from("a/b").dirname(), Some(Path::from("a")));
    assert_eq!(Path::from("a/b/").dirname(), Some(Path::from("a")));
}

#[test]
fn extension_edits() {
    assert_eq!(Path::from("/x/a.txt").with_ext(".md").as_str(), "/x/a.md");
    assert_eq!(Path::from("/x/a.txt").without_ext().as_str(), "/x/a");
    assert_eq!(Path::from("/x/a.d.ts").without_ext().as_str(), "/x/a");
    assert_eq!(Path::from("/x/.rc/").with_ext(".log").as_str(), "/x/.rc.log/");
    assert_eq!(Path::from("").with_ext(".log").as_str(), ".log");
}

#[test]
fn chained_mutations() {
    let mut p = Path::from("/a");
    p.join_str("b.txt").set_ext(".md");
    assert_eq!(p.as_str(), "/a/b.md");
    assert_eq!(Path::from("/a").with_join_str("../c").as_str(), "/c");
}

#[test]
fn walk_over_relative_path_starts_at_first_component() {
    let p = Path::from("a/b/");
    let mut it = p.iter_path();
    assert_eq!(it.next(), Some(Path::from("a/")));
    assert_eq!(it.next(), Some(Path::from("a/b/")));
    assert_eq!(it.next(), None);
}

#[test]
fn walk_from_the_back_keeps_trailing_separator() {
    let p = Path::from("/usr/local/");
    let mut it = p.iter_path();
    assert_eq!(it.next_back(), Some(Path::from("/usr/local/")));
    assert_eq!(it.next(), Some(Path::from("/")));
    assert_eq!(it.next_back(), Some(Path::from("/usr/")));
    assert_eq!(it.next(), None);
    assert_eq!(it.next_back(), None);
}

#[test]
fn walk_over_empty_path_is_empty() {
    let p = Path::from("");
    let mut it = p.iter_path();
    assert_eq!(it.next(), None);
}

#[test]
fn insert_and_remove_hand_back_displaced_values() {
    let mut trie = PrefixTrie::new();
    assert_eq!(trie.insert(Path::from("/a"), 1), None);
    assert_eq!(trie.insert(Path::from("/a/"), 2), Some(1));
    assert_eq!(trie.get(&Path::from("/a")), Some(&2));
    assert_eq!(trie.remove(&Path::from("/b")), None);
    assert_eq!(trie.remove(&Path::from("/a")), Some(2));
    assert_eq!(trie.get(&Path::from("/a")), None);
}

#[test]
fn remove_keeps_other_entries() {
    let mut trie = PrefixTrie::new();
    trie.insert(Path::from("/a"), 1);
    trie.insert(Path::from("/b"), 2);
    trie.insert(Path::from("/c"), 3);
    trie.remove(&Path::from("/a"));
    assert_eq!(trie.get(&Path::from("/b")), Some(&2));
    assert_eq!(trie.get(&Path::from("/c")), Some(&3));
    assert_eq!(trie.get_ancestor_value(&Path::from("/c/d")), Some(&3));
    assert_eq!(trie.get_ancestor_path(&Path::from("/c/d")), Some(&Path::from("/c")));
}

#[test]
fn get_mut_changes_value_in_place() {
    let mut trie = PrefixTrie::new();
    trie.insert(Path::from("/a"), 1);
    *trie.get_mut(&Path::from("/a/")).unwrap() = 5;
    assert_eq!(trie.get(&Path::from("/a")), Some(&5));
    assert!(trie.get_mut(&Path::from("/z")).is_none());
}

#[test]
fn empty_path_is_keyed_as_root() {
    let mut trie = PrefixTrie::new();
    trie.insert(Path::from(""), 7);
    let rec = trie.get_ancestor_record(&Path::from("/anything")).unwrap();
    assert_eq!(rec.0, "/");
    assert_eq!(rec.1, &Path::from(""));
    assert_eq!(*rec.2, 7);
}

#[test]
fn normalize_path_keeps_trailing_separator() {
    assert_eq!(normalize_path("a/b/../"), "a/");
    assert_eq!(normalize_path("./"), "./");
}

#[test]
fn temp_name_fills_first_marker_with_hex_nonce() {
    assert_eq!(
        arca::temp_name("temp-<>", 255).unwrap(),
        "temp-000000000000000000000000000000ff"
    );
    assert_eq!(
        arca::temp_name("a<>b<>", 0x1234abcd).unwrap(),
        "a0000000000000000000000001234abcdb<>"
    );
    assert_eq!(arca::temp_name("plain", 1), None);
    assert_eq!(arca::temp_name("<", 1), None);
}

#[test]
fn content_differs_when_missing_or_changed() {
    assert!(arca::content_differs(None, b"x"));
    assert!(arca::content_differs(Some(b"ab"), b"ac"));
    assert!(arca::content_differs(Some(b"ab"), b"abc"));
    assert!(!arca::content_differs(Some(b"abc"), b"abc"));
}

#[test]
fn default_path_is_empty() {
    assert_eq!(Path::default().as_str(), "");
}

#[test]
fn set_ext_follows_the_extname_rule() {
    let mut p = Path::from("/a/.d.ts");
    assert_eq!(p.extname(), Some(".ts"));
    p.set_ext("");
    assert_eq!(p.as_str(), "/a/.d");
    let mut q = Path::from("/a/foo.d.ts/");
    q.set_ext(".log");
    assert_eq!(q.as_str(), "/a/foo.log/");
    assert_eq!(Path::from("/a/.d.ts").without_ext().as_str(), "/a/.d");
    assert_eq!(Path::from("/a/b.txt/").without_ext().as_str(), "/a/b/");
    assert_eq!(Path::from("/").with_ext(".log").as_str(), "/.log/");
}

#[test]
fn trie_keeps_the_inserted_path() {
    let mut trie = PrefixTrie::new();
    trie.insert(Path::from("/a"), "v".to_string());
    assert_eq!(trie.get_ancestor_path(&Path::from("/a/b")), Some(&Path::from("/a")));
    assert_eq!(trie.get_ancestor_key(&Path::from("/a/b")).unwrap(), "/a/");
}

#[test]
fn keep_trailing_sep_puts_back_lost_separator() {
    assert_eq!(arca::keep_trailing_sep("a/b/../", "a".to_string()), "a/");
    assert_eq!(arca::keep_trailing_sep("a/", "a/".to_string()), "a/");
    assert_eq!(arca::keep_trailing_sep("a", "a".to_string()), "a");
}
