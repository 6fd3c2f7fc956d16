use arca::{resolve_path, Path, PrefixTrie};

#[test]
fn normalize_twice_is_normalize_once() {
    for x in ["/a/b/c/./../d/", "../a/./b/c/../../", "a//b///c/", "/../x/..", "./.", "x/../", ""] {
        let once = resolve_path(x);
        assert_eq!(resolve_path(&once), once);
    }
}

#[test]
fn join_association_on_absolute_base() {
    let a = Path::from("/usr");
    let b = Path::from("local/../lib/");
    let c = Path::from("x/y");
    let left = a.with_join(&b).with_join(&c);
    let right = a.with_join(&b.with_join(&c));
    assert_eq!(left, right);
    assert_eq!(left.as_str(), "/usr/lib/x/y");
}

#[test]
fn relative_then_join_round_trip() {
    let pairs = [
        ("/home/user/docs", "/var/log"),
        ("/home/user/docs/reports", "/home/user/docs"),
        ("/", "/usr/local/bin/"),
        ("/usr/local/bin", "/"),
        ("/a/b/", "/a/c/d"),
        ("/same", "/same"),
    ];
    for (a, b) in pairs {
        let a = Path::from(a);
        let b = Path::from(b);
        let rel = b.relative_to(&a);
        assert_eq!(a.with_join(&rel), b);
    }
}

#[test]
fn ancestor_is_longest_enclosing_key() {
    let mut trie = PrefixTrie::default();
    trie.insert(Path::from("/a"), 1);
    trie.insert(Path::from("/a/b/"), 2);
    trie.insert(Path::from("/ab"), 3);

    assert_eq!(trie.get_ancestor_value(&Path::from("/a/b/c")), Some(&2));
    assert_eq!(trie.get_ancestor_key(&Path::from("/a/b/c")).unwrap(), "/a/b/");
    assert_eq!(trie.get_ancestor_value(&Path::from("/a/x")), Some(&1));
    assert_eq!(trie.get_ancestor_value(&Path::from("/a/b")), Some(&2));
    assert_eq!(trie.get_ancestor_value(&Path::from("/abc")), None);
    assert_eq!(trie.get_ancestor_value(&Path::from("/ab/c")), Some(&3));
    assert_eq!(trie.get_ancestor_value(&Path::from("/b")), None);
}

#[test]
fn scenario_resolve_literals() {
    assert_eq!(resolve_path("/a/b/c/./../d/"), "/a/b/d/");
    assert_eq!(resolve_path("../a/./b/c/../../"), "../a/");
}

#[test]
fn scenario_absolute_join_replaces() {
    assert_eq!(Path::from("/usr/local").with_join(&Path::from("/bin")).as_str(), "/bin");
}

#[test]
fn scenario_compound_extension() {
    assert_eq!(Path::from("/usr/local/bin/foo.d.ts").extname(), Some(".d.ts"));
}

#[test]
fn scenario_relative_to_itself() {
    let p = Path::from("/home/user/docs");
    assert_eq!(p.relative_to(&p), Path::from("."));
    assert_eq!(p.relative_to(&p).as_str(), "");
}

#[test]
fn scenario_trie_ancestor_then_remove() {
    let mut trie = PrefixTrie::default();
    trie.insert(Path::from("/path/to/item/"), "V".to_string());
    let probe = Path::from("/path/to/item/child");
    assert_eq!(trie.get_ancestor_value(&probe).unwrap(), "V");
    trie.remove(&Path::from("/path/to/item/"));
    assert_eq!(trie.get_ancestor_value(&probe), None);
}

#[test]
fn join_association_on_relative_base() {
    let a = Path::from("x/y");
    let b = Path::from("../z");
    let c = Path::from("w/");
    let left = a.with_join(&b).with_join(&c);
    let right = a.with_join(&b.with_join(&c));
    assert_eq!(left, right);
    assert_eq!(left.as_str(), "x/z/w/");
}

#[test]
fn join_does_not_associate_when_a_relative_base_cancels_out() {
    let a = Path::from("x");
    let b = Path::from("../");
    let c = Path::from("z");
    assert_eq!(a.with_join(&b).with_join(&c).as_str(), "/z");
    assert_eq!(a.with_join(&b.with_join(&c)).as_str(), "z");
}
