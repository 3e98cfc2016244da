//! Path parsing, rendering and manipulation.

use vsfs::path::Path;

#[test]
fn test_path() {
    let path = Path::from_str("/a/b/c").unwrap();
    assert_eq!(path.to_str(), "/a/b/c");
    assert_eq!(path.segs(), &vec!["a".to_string(), "b".to_string(), "c".to_string()]);
}

#[test]
fn test_split() {
    let path = Path::from_str("/a/b/c").unwrap();
    let segs = path.segs().clone();
    let mut iter = segs.into_iter();
    assert_eq!(iter.next(), Some("a".to_string()));
    assert_eq!(iter.next(), Some("b".to_string()));
    assert_eq!(iter.next(), Some("c".to_string()));
    assert_eq!(iter.next(), None);
}

#[test]
fn test_root() {
    let path = Path::root();
    assert_eq!(path.to_str(), "/");

    let path = Path::from_str("/").unwrap();
    assert_eq!(path.to_str(), "/");
}

#[test]
fn rejects_bad_paths() {
    assert!(Path::from_str("").is_none());
    assert!(Path::from_str("a/b").is_none());
    assert!(Path::from_str("//").is_none());
    assert!(Path::from_str("/a//b").is_none());
    assert!(Path::from_str("/a/").is_none());
    assert!(Path::from_str("/a*b").is_none());
    assert!(Path::from_str("/a:b").is_none());
    assert!(Path::from_str("/a\\b").is_none());
}

#[test]
fn segment_validity() {
    assert!(Path::check_seg_valid("plain-name.txt"));
    assert!(!Path::check_seg_valid(""));
    assert!(!Path::check_seg_valid("a/b"));
    assert!(!Path::check_seg_valid("a?b"));
    assert!(!Path::check_seg_valid("a\"b"));
    assert!(!Path::check_seg_valid("a<b"));
    assert!(!Path::check_seg_valid("a>b"));
    assert!(!Path::check_seg_valid("a|b"));
}

#[test]
fn parent_and_push() {
    let mut path = Path::from_str("/a/b").unwrap();
    path.push("c".to_string());
    assert_eq!(path.to_str(), "/a/b/c");
    let path = path.parent().unwrap();
    assert_eq!(path.to_str(), "/a/b");
    let path = path.parent().unwrap().parent().unwrap();
    assert!(path.is_root());
    assert!(path.parent().is_none());
}
