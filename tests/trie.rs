use arca::{normalize_path, Path, PrefixTrie};

#[test]
fn test_trie_insert() {
    let mut trie = PrefixTrie::default();
    let path = Path::from("/path/to/item/");
    let item = "item";

    trie.insert(path.clone(), item.to_string());

    assert_eq!(trie.get(&path).unwrap(), item);
}

#[test]
fn test_trie_remove() {
    let mut trie = PrefixTrie::default();
    let path = Path::from("/path/to/item/");
    let item = "item";

    trie.insert(path.clone(), item.to_string());
    assert_eq!(trie.get(&path).unwrap(), item);

    trie.remove(&path);
    assert_eq!(trie.get(&path), None);
}

#[test]
fn test_get_ancestor_record() {
    let mut trie = PrefixTrie::default();
    let path = Path::from("/path/to/item/");
    let item = "item";

    trie.insert(path.clone(), item.to_string());

    let ancestor_path = Path::from("/path/to/item/child");
    assert_eq!(trie.get_ancestor_record(&ancestor_path).unwrap().2, item);
}

#[test]
fn test_get_ancestor_key() {
    let mut trie = PrefixTrie::default();
    let path = Path::from("/path/to/item/");
    let item = "item";

    trie.insert(path.clone(), item.to_string());

    let ancestor_path = Path::from("/path/to/item/child");
    assert_eq!(trie.get_ancestor_key(&ancestor_path).unwrap(), "/path/to/item/");
}

#[test]
fn test_get_ancestor_path() {
    let mut trie = PrefixTrie::default();
    let path = Path::from("/path/to/item/");
    let item = "item";

    trie.insert(path.clone(), item.to_string());

    let ancestor_path = Path::from("/path/to/item/child");
    assert_eq!(trie.get_ancestor_path(&ancestor_path).unwrap(), &path);
}

#[test]
fn test_get_ancestor_value() {
    let mut trie = PrefixTrie::default();
    let path = Path::from("/path/to/item/");
    let item = "item";

    trie.insert(path.clone(), item.to_string());

    let ancestor_path = Path::from("/path/to/item/child");
    assert_eq!(trie.get_ancestor_value(&ancestor_path).unwrap(), item);
}

#[test]
fn test_normalize_path() {
    assert_eq!(normalize_path(""), ".");
    assert_eq!(normalize_path("/"), "/");
    assert_eq!(normalize_path("foo"), "foo");
    assert_eq!(normalize_path("foo/bar"), "foo/bar");
    assert_eq!(normalize_path("foo//bar"), "foo/bar");
    assert_eq!(normalize_path("foo/./bar"), "foo/bar");
    assert_eq!(normalize_path("foo/../bar"), "bar");
    assert_eq!(normalize_path("foo/bar/.."), "foo");
    assert_eq!(normalize_path("foo/../../bar"), "../bar");
    assert_eq!(normalize_path("../foo/../../bar"), "../../bar");
    assert_eq!(normalize_path("./foo"), "foo");
    assert_eq!(normalize_path("../foo"), "../foo");
    assert_eq!(normalize_path("/foo/bar"), "/foo/bar");
    assert_eq!(normalize_path("/foo/bar/"), "/foo/bar/");
}
