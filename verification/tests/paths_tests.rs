use ftp_mirror::config::Settings;
use ftp_mirror::paths::{chain_of, join_path, join_segments, split_segments, to_remote_form};

#[test]
fn translate_replaces_every_separator() {
    let r = to_remote_form("a\\b\\c.txt", '\\');
    assert_eq!(r, "a/b/c.txt");
    assert_eq!(r.chars().count(), "a\\b\\c.txt".chars().count());
    assert!(!r.contains('\\'));
}

#[test]
fn translate_keeps_slashes_as_they_are() {
    assert_eq!(to_remote_form("a/b/c", '/'), "a/b/c");
}

#[test]
fn translate_of_empty_path_is_empty() {
    assert_eq!(to_remote_form("", '\\'), "");
}

#[test]
fn split_drops_empty_segments() {
    let segs = split_segments("/a//b/");
    assert_eq!(segs, vec!["a".to_string(), "b".to_string()]);
}

#[test]
fn split_of_single_segment() {
    assert_eq!(split_segments("alone"), vec!["alone".to_string()]);
    assert!(split_segments("").is_empty());
    assert!(split_segments("///").is_empty());
}

#[test]
fn join_rebuilds_with_single_slashes() {
    let segs = vec!["a".to_string(), "b".to_string(), "c".to_string()];
    assert_eq!(join_segments(&segs), "a/b/c");
    assert_eq!(join_segments(&Vec::new()), "");
    assert_eq!(join_segments(&vec!["one".to_string()]), "one");
}

#[test]
fn chain_lists_cumulative_prefixes() {
    assert_eq!(
        chain_of("newdir/sub/file.txt"),
        vec!["newdir".to_string(), "newdir/sub".to_string()]
    );
    assert!(chain_of("top").is_empty());
    assert!(chain_of("").is_empty());
}

#[test]
fn chain_of_absolute_path_keeps_leading_slash() {
    assert_eq!(chain_of("/x/y.txt"), vec!["/".to_string(), "/x".to_string()]);
    assert_eq!(chain_of("/top"), vec!["/".to_string()]);
    assert_eq!(chain_of("/"), vec!["/".to_string()]);
}

#[test]
fn join_path_keeps_base_verbatim() {
    assert_eq!(join_path("/r", &vec!["a".to_string()]), "/r/a");
    assert_eq!(join_path("r//x", &vec!["a".to_string(), "b".to_string()]), "r//x/a/b");
    assert_eq!(join_path("", &vec!["a".to_string()]), "a");
    assert_eq!(join_path("/r", &Vec::new()), "/r");
}

#[test]
fn settings_validity() {
    let good = Settings {
        host: "localhost".to_string(),
        port: 21,
        user: "u".to_string(),
        password: "p".to_string(),
    };
    assert!(good.is_valid());
    let bad = Settings {
        host: "localhost".to_string(),
        port: 0,
        user: "u".to_string(),
        password: "p".to_string(),
    };
    assert!(!bad.is_valid());
}
