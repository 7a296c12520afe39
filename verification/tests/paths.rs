use crabsoup::paths::{
    basename, check_relative, dirname, get_extension, get_extensions, has_extension, join_path,
    split_path, strip_all_extensions, strip_extension,
};
use crabsoup::textutil::escape_css;

#[test]
fn absolute_paths_are_rejected() {
    assert!(check_relative("a/b").is_ok());
    assert!(check_relative("").is_ok());
    assert!(check_relative("/etc/x").is_err());
}

#[test]
fn paths_split_into_segments() {
    assert_eq!(split_path("a/b/c"), vec!["a", "b", "c"]);
    assert_eq!(split_path("a//b/"), vec!["a", "b"]);
    assert_eq!(split_path(""), Vec::<String>::new());
}

#[test]
fn basename_and_dirname() {
    assert_eq!(basename("a/b/c.txt").unwrap(), "c.txt");
    assert!(basename("a/..").is_err());
    assert!(basename("").is_err());
    assert_eq!(dirname("a/b/c.txt").unwrap(), "a/b");
    assert_eq!(dirname("c.txt").unwrap(), "");
    assert!(dirname("").is_err());
    // Current-directory pieces normalize away.
    assert_eq!(basename("a/.").unwrap(), "a");
    assert_eq!(dirname("a/.").unwrap(), "");
    assert_eq!(split_path("./a/./b"), vec!["a", "b"]);
}

#[test]
fn joining_resolves_relative_components() {
    assert_eq!(join_path("a/b", "c"), "a/b/c");
    assert_eq!(join_path("a/b", "../c"), "a/c");
    assert_eq!(join_path("a", "./c"), "a/c");
    assert_eq!(join_path("", "../c"), "../c");
    assert_eq!(join_path("a/b", "/rooted"), "a/b/rooted");
}

#[test]
fn extensions_come_after_the_last_dot() {
    assert_eq!(get_extension("a/b.tar.gz").unwrap(), Some("gz".to_string()));
    assert_eq!(get_extension("a/plain").unwrap(), None);
    assert_eq!(get_extension(".bashrc").unwrap(), None);
    assert!(get_extension("dir/..").is_err());
}

#[test]
fn css_escaping_guards_selector_text() {
    assert_eq!(escape_css("plain"), "plain");
    assert_eq!(escape_css("a.b:c"), "a\\.b\\:c");
    assert_eq!(escape_css("1st"), "\\000031st");
    assert_eq!(escape_css("a1"), "a1");
    assert_eq!(escape_css("\u{1}x"), "\\000001x");
}

#[test]
fn multiple_extensions_are_listed_in_order() {
    assert_eq!(get_extensions("a/b.tar.gz").unwrap(), vec!["tar", "gz"]);
    assert_eq!(get_extensions("a/plain").unwrap(), Vec::<String>::new());
    assert_eq!(has_extension("a/b.tar.gz", "tar").unwrap(), true);
    assert_eq!(has_extension("a/b.tar.gz", "gz").unwrap(), true);
    assert_eq!(has_extension("a/b.tar.gz", "zip").unwrap(), false);
    assert!(has_extension("a/..", "x").is_err());
}

#[test]
fn stems_strip_one_or_all_extensions() {
    assert_eq!(strip_extension("a/b.tar.gz").unwrap(), "a/b.tar");
    assert_eq!(strip_extension("a/plain").unwrap(), "a/plain");
    assert_eq!(strip_all_extensions("a/b.tar.gz").unwrap(), "a/b");
    assert_eq!(strip_all_extensions("plain").unwrap(), "plain");
    assert!(strip_extension("a/..").is_err());
}
