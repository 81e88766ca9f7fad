use std::path::Path;

use packwiz_modlist::ignore::{add_missing_entries, path_file_name, wanted_entries};

#[test]
fn file_name_matches_std_path() {
    for p in [
        "a", "a/b", "a/b/", "a/b/.", "a/b/./", "/", "", ".", "..", "a/..", "./a", "/a//b//",
        ".packwiz-modlist.cache.json", "dir/.hidden", "a/...", "//", "./.", "a/./b",
    ] {
        let expected = Path::new(p).file_name().map(|n| n.to_string_lossy().into_owned());
        assert_eq!(path_file_name(p, std::path::MAIN_SEPARATOR == '\\'), expected, "path {:?}", p);
    }
}

#[test]
fn default_entries() {
    assert_eq!(
        wanted_entries(".cache", ".packwiz-modlist.cache.json", false),
        vec![".cache".to_string(), ".packwiz-modlist.cache.json".to_string()]
    );
}

#[test]
fn entries_drop_trailing_slashes_and_empty_parts() {
    assert_eq!(wanted_entries("build/cache//", "sub/dir/list.json", false), vec!["build/cache".to_string(), "list.json".to_string()]);
    assert_eq!(wanted_entries("/", "..", false), Vec::<String>::new());
    assert_eq!(wanted_entries("", "x/", false), vec!["x".to_string()]);
}

#[test]
fn appends_missing_entries() {
    let entries = vec![".cache".to_string(), "list.json".to_string()];
    let (out, changed) = add_missing_entries("target\n", &entries);
    assert!(changed);
    assert_eq!(out, "target\n.cache\nlist.json\n");
}

#[test]
fn adds_line_break_before_appending() {
    let entries = vec![".cache".to_string()];
    let (out, changed) = add_missing_entries("target", &entries);
    assert!(changed);
    assert_eq!(out, "target\n.cache\n");
}

#[test]
fn empty_file_gets_entries() {
    let entries = vec![".cache".to_string()];
    assert_eq!(add_missing_entries("", &entries), (".cache\n".to_string(), true));
}

#[test]
fn present_entries_are_kept() {
    let entries = vec![".cache".to_string(), "list.json".to_string()];
    let content = "list.json   \r\n.cache\n";
    assert_eq!(add_missing_entries(content, &entries), (content.to_string(), false));
}

#[test]
fn update_is_idempotent() {
    let entries = vec![".cache".to_string(), String::new(), "list.json".to_string()];
    let (once, _) = add_missing_entries("a\nb", &entries);
    let (twice, changed) = add_missing_entries(&once, &entries);
    assert_eq!(once, twice);
    assert!(!changed);
    assert!(once.starts_with("a\nb"));
}

#[test]
fn leading_whitespace_is_not_ignored() {
    let entries = vec![".cache".to_string()];
    let (out, changed) = add_missing_entries("  .cache\n", &entries);
    assert!(changed);
    assert_eq!(out, "  .cache\n.cache\n");
}

#[test]
fn windows_paths_split_on_both_separators() {
    assert_eq!(path_file_name("dir\\file.json", true), Some("file.json".to_string()));
    assert_eq!(path_file_name("dir\\file.json", false), Some("dir\\file.json".to_string()));
    assert_eq!(path_file_name("a/b\\c\\", true), Some("c".to_string()));
    assert_eq!(path_file_name("C:", true), None);
    assert_eq!(path_file_name("C:\\", true), None);
    assert_eq!(path_file_name("C:list.json", true), Some("list.json".to_string()));
    assert_eq!(path_file_name("C:\\x\\..", true), None);
    for (path, expected) in [
        (r"\\server\share", None),
        (r"\\server\share\", None),
        (r"\\server\share\list.json", Some("list.json")),
        (r"//server/share", None),
        (r"\\server", Some("server")),
        (r"\\?\UNC\server\share", None),
        (r"\\?\UNC\server\share\list.json", Some("list.json")),
        (r"\\?\C:", None),
        (r"\\?\C:\", None),
        (r"\\?\C:\a\list.json", Some("list.json")),
        (r"\\?\C:\a/b", Some("a/b")),
        (r"\\?\C:\a\.", None),
        (r"\\?\pics", None),
        (r"\\?\pics\x", Some("x")),
        (r"\\.\COM42", None),
        (r"\\.\pipe\name", Some("name")),
        (r"C:\x\.", Some("x")),
    ] {
        assert_eq!(path_file_name(path, true), expected.map(|e| e.to_string()), "path {:?}", path);
    }
    assert_eq!(
        wanted_entries(".cache", "dir\\list.json", true),
        vec![".cache".to_string(), "list.json".to_string()]
    );
}

#[test]
fn entries_are_written_without_trailing_whitespace() {
    let entries = wanted_entries("c ", "list.json", false);
    assert_eq!(entries, vec!["c ".to_string(), "list.json".to_string()]);
    let (once, changed) = add_missing_entries("", &entries);
    assert!(changed);
    assert_eq!(once, "c\nlist.json\n");
    assert_eq!(add_missing_entries(&once, &entries), (once.clone(), false));
}

#[test]
fn entries_with_line_breaks_are_not_written() {
    let entries = vec!["a\nb".to_string(), "x\n".to_string()];
    let (once, _) = add_missing_entries("", &entries);
    assert_eq!(once, "x\n");
    assert_eq!(add_missing_entries(&once, &entries), (once.clone(), false));
}

#[test]
fn update_appends_each_missing_line_once() {
    let entries = vec!["x".to_string(), "a".to_string(), "x".to_string(), "y ".to_string(), String::new()];
    assert_eq!(add_missing_entries("a", &entries), ("a\nx\ny\n".to_string(), true));
    assert_eq!(add_missing_entries("a\n", &entries), ("a\nx\ny\n".to_string(), true));
    assert_eq!(add_missing_entries("x\ny\na\n", &entries), ("x\ny\na\n".to_string(), false));
}
