use arca::{resolve_path, Path};

#[test]
fn test_join() {
    assert_eq!(Path::from("/usr/local").with_join(&Path::from("bin")), Path::from("/usr/local/bin"));
    assert_eq!(Path::from("/usr/local").with_join(&Path::from("bin/")), Path::from("/usr/local/bin/"));
    assert_eq!(Path::from("/usr/local/").with_join(&Path::from("bin")), Path::from("/usr/local/bin"));
    assert_eq!(Path::from("/usr/local/").with_join(&Path::from("bin/")), Path::from("/usr/local/bin/"));
    assert_eq!(Path::from("/usr/local").with_join(&Path::from("/bin")), Path::from("/bin"));
    assert_eq!(Path::from("usr/local").with_join(&Path::from("bin")), Path::from("usr/local/bin"));
    assert_eq!(Path::from("usr/local").with_join(&Path::from("bin/")), Path::from("usr/local/bin/"));
    assert_eq!(Path::new().with_join(&Path::from("bin")), Path::from("bin"));
}

#[test]
fn test_resolve_path() {
    assert_eq!(resolve_path("/a/b/c/./../d/"), "/a/b/d/");
    assert_eq!(resolve_path("../foo"), "../foo");
    assert_eq!(resolve_path("./../foo"), "../foo");
    assert_eq!(resolve_path("/a/./b/../../c"), "/c");
    assert_eq!(resolve_path("/a/.."), "/");
    assert_eq!(resolve_path("/../../a"), "/a");
    assert_eq!(resolve_path("./a/"), "a/");
    assert_eq!(resolve_path(""), "");
    assert_eq!(resolve_path("a/b/../../c"), "c");
    assert_eq!(resolve_path("../a/./b/c/../../"), "../a/");
    assert_eq!(resolve_path("/.."), "/");
    assert_eq!(resolve_path("/."), "/");
    assert_eq!(resolve_path("./."), "");
    assert_eq!(resolve_path("../../../foo"), "../../../foo");
    assert_eq!(resolve_path("./././a"), "a");
    assert_eq!(resolve_path("b/./c/././d"), "b/c/d");
    assert_eq!(resolve_path("foo/../../bar"), "../bar");
    assert_eq!(resolve_path("/foo/bar/../../../baz"), "/baz");
}

#[test]
fn test_same_path() {
    let path1 = Path::from("/home/user/docs");
    let path2 = Path::from("/home/user/docs");
    assert_eq!(path2.relative_to(&path1), Path::from(""));
}

#[test]
fn test_subdirectory() {
    let path1 = Path::from("/home/user/docs");
    let path2 = Path::from("/home/user/docs/reports");
    assert_eq!(path2.relative_to(&path1), Path::from("reports"));
}

#[test]
fn test_subdirectory_trailing_slash() {
    let path1 = Path::from("/home/user/docs/");
    let path2 = Path::from("/home/user/docs/reports");
    assert_eq!(path2.relative_to(&path1), Path::from("reports"));
}

#[test]
fn test_subdirectory_trailing_slash_subject() {
    let path1 = Path::from("/home/user/docs");
    let path2 = Path::from("/home/user/docs/reports/");
    assert_eq!(path2.relative_to(&path1), Path::from("reports/"));
}

#[test]
fn test_parent_directory() {
    let path1 = Path::from("/home/user/docs/reports");
    let path2 = Path::from("/home/user/docs");
    assert_eq!(path2.relative_to(&path1), Path::from(".."));
}

#[test]
fn test_different_directory() {
    let path1 = Path::from("/home/user/docs");
    let path2 = Path::from("/home/user/music");
    assert_eq!(path2.relative_to(&path1), Path::from("../music"));
}

#[test]
fn test_different_root() {
    let path1 = Path::from("/home/user/docs");
    let path2 = Path::from("/var/log");
    assert_eq!(path2.relative_to(&path1), Path::from("../../../var/log"));
}

#[test]
fn test_dirname_with_extension() {
    let path = Path::from("/usr/local/bin/test.txt");
    assert_eq!(path.dirname(), Some(Path::from("/usr/local/bin")));
}

#[test]
fn test_dirname_without_extension() {
    let path = Path::from("/usr/local/bin/test");
    assert_eq!(path.dirname(), Some(Path::from("/usr/local/bin")));
}

#[test]
fn test_dirname_with_trailing_slash() {
    let path = Path::from("/usr/local/bin/");
    assert_eq!(path.dirname(), Some(Path::from("/usr/local")));
}

#[test]
fn test_dirname_with_single_slash() {
    let path = Path::from("/");
    assert_eq!(path.dirname(), None);
}

#[test]
fn test_dirname_with_root_folder() {
    let path = Path::from("/usr");
    assert_eq!(path.dirname(), Some(Path::from("/")));
}

#[test]
fn test_dirname_with_empty_string() {
    let path = Path::from("");
    assert_eq!(path.dirname(), None);
}

#[test]
fn test_basename_with_extension() {
    let path = Path::from("/usr/local/bin/test.txt");
    assert_eq!(path.basename(), Some("test.txt"));
}

#[test]
fn test_basename_without_extension() {
    let path = Path::from("/usr/local/bin/test");
    assert_eq!(path.basename(), Some("test"));
}

#[test]
fn test_basename_with_trailing_slash() {
    let path = Path::from("/usr/local/bin/");
    assert_eq!(path.basename(), Some("bin"));
}

#[test]
fn test_basename_with_single_slash() {
    let path = Path::from("/");
    assert_eq!(path.basename(), None);
}

#[test]
fn test_basename_with_empty_string() {
    let path = Path::from("");
    assert_eq!(path.basename(), None);
}

#[test]
fn test_basename_with_relative() {
    let path = Path::from("foo");
    assert_eq!(path.basename(), Some("foo"));
}

#[test]
fn test_extname_with_extension() {
    let path = Path::from("/usr/local/bin/test.txt");
    assert_eq!(path.extname(), Some(".txt"));
}

#[test]
fn test_extname_with_double_extension() {
    let path = Path::from("/usr/local/bin/test.foo.txt");
    assert_eq!(path.extname(), Some(".txt"));
}

#[test]
fn test_extname_with_d_ts() {
    let path = Path::from("/usr/local/bin/foo.d.ts");
    assert_eq!(path.extname(), Some(".d.ts"));
}

#[test]
fn test_extname_with_d_ts_out_of_range() {
    let path = Path::from("x.ts");
    assert_eq!(path.extname(), Some(".ts"));
}

#[test]
fn test_extname_without_extension() {
    let path = Path::from("/usr/local/bin/test");
    assert_eq!(path.extname(), None);
}

#[test]
fn test_extname_with_trailing_slash() {
    let path = Path::from("/usr/local/bin/.htaccess");
    assert_eq!(path.extname(), None);
}

#[test]
fn test_extname_with_single_slash() {
    let path = Path::from("/");
    assert_eq!(path.extname(), None);
}

#[test]
fn test_extname_with_empty_string() {
    let path = Path::from("");
    assert_eq!(path.extname(), None);
}

#[test]
fn test_set_ext_with_extension() {
    let mut path = Path::from("/usr/local/bin/test.txt");
    path.set_ext(".log");
    assert_eq!(path.as_str(), "/usr/local/bin/test.log");
}

#[test]
fn test_set_ext_without_extension() {
    let mut path = Path::from("/usr/local/bin/test");
    path.set_ext(".log");
    assert_eq!(path.as_str(), "/usr/local/bin/test.log");
}

#[test]
fn test_set_ext_with_empty_extension() {
    let mut path = Path::from("/usr/local/bin/test.txt");
    path.set_ext("");
    assert_eq!(path.as_str(), "/usr/local/bin/test");
}

#[test]
fn test_set_ext_with_dot_extension() {
    let mut path = Path::from("/usr/local/bin/test.txt");
    path.set_ext(".");
    assert_eq!(path.as_str(), "/usr/local/bin/test.");
}

#[test]
fn test_set_ext_with_dot_basename() {
    let mut path = Path::from("/usr/local/bin/.htaccess");
    path.set_ext(".log");
    assert_eq!(path.as_str(), "/usr/local/bin/.htaccess.log");
}

#[test]
fn test_set_ext_with_no_extension() {
    let mut path = Path::from("/usr/local/bin/");
    path.set_ext(".log");
    assert_eq!(path.as_str(), "/usr/local/bin.log/");
}

#[test]
fn test_set_ext_with_d_ts() {
    let mut path = Path::from("/usr/local/bin/foo.d.ts");
    path.set_ext(".log");
    assert_eq!(path.as_str(), "/usr/local/bin/foo.log");
}

#[test]
fn test_set_ext_with_d_ts_out_of_range() {
    let mut path = Path::from("x.ts");
    path.set_ext(".log");
    assert_eq!(path.as_str(), "x.log");
}

#[test]
fn test_set_ext_relative() {
    let mut path = Path::from("test.txt");
    path.set_ext(".log");
    assert_eq!(path.as_str(), "test.log");
}

#[test]
fn test_iter_root() {
    let path = Path::root();
    let mut iter = path.iter_path();

    assert_eq!(iter.next(), Some(Path::from("/")));
    assert_eq!(iter.next(), None);
}

#[test]
fn test_iter_path() {
    let path = Path::from("/usr/local/bin/test.txt");
    let mut iter = path.iter_path();

    assert_eq!(iter.next(), Some(Path::from("/")));
    assert_eq!(iter.next(), Some(Path::from("/usr")));
    assert_eq!(iter.next(), Some(Path::from("/usr/local")));
    assert_eq!(iter.next(), Some(Path::from("/usr/local/bin")));
    assert_eq!(iter.next(), Some(Path::from("/usr/local/bin/test.txt")));
    assert_eq!(iter.next(), None);
}

#[test]
fn test_iter_trailing() {
    let path = Path::from("/usr/local/bin/");
    let mut iter = path.iter_path();

    assert_eq!(iter.next(), Some(Path::from("/")));
    assert_eq!(iter.next(), Some(Path::from("/usr/")));
    assert_eq!(iter.next(), Some(Path::from("/usr/local/")));
    assert_eq!(iter.next(), Some(Path::from("/usr/local/bin/")));
    assert_eq!(iter.next(), None);
}

#[test]
fn test_iter_path_rev() {
    let path = Path::from("/usr/local/bin/test.txt");
    let mut iter = path.iter_path().rev();

    assert_eq!(iter.next(), Some(Path::from("/usr/local/bin/test.txt")));
    assert_eq!(iter.next(), Some(Path::from("/usr/local/bin")));
    assert_eq!(iter.next(), Some(Path::from("/usr/local")));
    assert_eq!(iter.next(), Some(Path::from("/usr")));
    assert_eq!(iter.next(), Some(Path::from("/")));
    assert_eq!(iter.next(), None);
}

#[test]
fn test_relative_to_root() {
    let root = Path::from("/");

    // Test single file at root
    let path1 = Path::from("/file.txt");
    assert_eq!(path1.relative_to(&root), Path::from("file.txt"));

    // Test directory at root
    let path2 = Path::from("/usr");
    assert_eq!(path2.relative_to(&root), Path::from("usr"));

    // Test nested path
    let path3 = Path::from("/usr/local/bin");
    assert_eq!(path3.relative_to(&root), Path::from("usr/local/bin"));

    // Test path with trailing slash
    let path4 = Path::from("/usr/local/");
    assert_eq!(path4.relative_to(&root), Path::from("usr/local/"));

    // Root relative to root should be empty path
    assert_eq!(root.relative_to(&root), Path::from("."));
}

#[test]
fn test_relative_to_root_subject() {
    let path1 = Path::from("/usr/local/bin");
    assert_eq!(Path::root().relative_to(&path1), Path::from("../../../"));
}
