use std::borrow::Cow;

use normal_path::imp::windows;
use normal_path::{canonicalize_lexically, CowNormpath, Error, Normpath, NormpathBuf};

#[test]
fn readme_example() {
    assert!(Normpath::validate(b"/foo/bar").is_ok());
    let normalized = NormpathBuf::normalize(b"/foo/./bar//".to_vec()).unwrap();
    assert_eq!(normalized.as_bytes(), b"/foo/bar");
}

#[test]
fn doc_validate() {
    assert!(Normpath::validate(b"/foo/bar").is_ok());
    assert_eq!(Normpath::validate(b"foo/bar").err(), Some(Error::NotAbsolute));
    assert_eq!(Normpath::validate(b"/foo/bar/").err(), Some(Error::NotCanonical));
    assert_eq!(Normpath::validate(b"/foo/../bar").err(), Some(Error::ContainsParent));
}

#[test]
fn doc_validate_canonical() {
    assert!(Normpath::validate_canonical(b"/foo/bar").is_ok());
    assert_eq!(Normpath::validate_canonical(b"/foo/../bar/.").err(), Some(Error::NotCanonical));
    assert_eq!(Normpath::validate_canonical(b"/foo/../bar").err(), Some(Error::ContainsParent));
}

#[test]
fn doc_precedence_current_dir() {
    assert_eq!(Normpath::validate(b".").err(), Some(Error::NotAbsolute));
    assert_eq!(Normpath::validate_canonical(b".").err(), Some(Error::NotCanonical));
    assert_eq!(Normpath::validate_parentless(b".").err(), Some(Error::NotCanonical));
    assert_eq!(Normpath::validate_canonical(b"a").err(), Some(Error::NotAbsolute));
    assert_eq!(Normpath::validate_canonical(b"").err(), Some(Error::NotAbsolute));
    assert_eq!(Normpath::validate_parentless(b"").err(), Some(Error::NotAbsolute));
    assert_eq!(windows::validate_canonical(b".").err(), Some(Error::NotCanonical));
    assert_eq!(windows::validate_parentless(b".").err(), Some(Error::NotCanonical));
}

#[test]
fn doc_validate_parentless() {
    assert!(Normpath::validate_parentless(b"/foo/bar").is_ok());
    assert_eq!(Normpath::validate_parentless(b"/foo/./bar/..").err(), Some(Error::ContainsParent));
    assert_eq!(Normpath::validate_parentless(b"/foo/./bar").err(), Some(Error::NotCanonical));
}

#[test]
fn doc_normalize() {
    let norm = Normpath::normalize(b"/foo/bar").unwrap();
    assert!(matches!(norm, CowNormpath::Borrowed(_)));
    assert_eq!(norm.as_bytes(), b"/foo/bar");

    assert_eq!(Normpath::normalize(b"foo/bar").err(), Some(Error::NotAbsolute));

    let path2 = Normpath::normalize(b"/foo/./bar/").unwrap();
    assert!(matches!(path2, CowNormpath::Owned(_)));
    assert_eq!(path2.as_bytes(), b"/foo/bar");

    assert_eq!(Normpath::normalize(b"/foo/../bar").err(), Some(Error::ContainsParent));
}

#[test]
fn doc_normalize_windows() {
    let path3 = windows::normalize_new_cow(br"C:\foo\..\bar").unwrap();
    assert!(matches!(path3, Cow::Owned(_)));
    assert_eq!(&*path3, br"C:\bar");

    assert_eq!(windows::normalize_new_cow(br"C:\foo\..\bar\..\..").err(), Some(Error::ContainsParent));
}

#[test]
fn doc_quick_strip_prefix() {
    let norm = Normpath::validate(b"/foo/bar/baz").unwrap();
    assert!(norm.quick_strip_prefix(b"/foo/bar").is_some());
    assert!(norm.quick_strip_prefix(b"/foo/./bar").is_none());
    assert!(norm.quick_strip_prefix(b"/foo/ba").is_none());
}

#[test]
fn doc_quick_starts_with() {
    let norm = Normpath::validate(b"/foo/bar/baz").unwrap();
    assert!(norm.quick_starts_with(b"/foo/bar"));
    assert!(!norm.quick_starts_with(b"/foo/./bar"));
    assert!(!norm.quick_starts_with(b"/foo/ba"));
}

#[test]
fn doc_buf_validate() {
    assert!(NormpathBuf::validate(b"/foo/bar".to_vec()).is_ok());

    let e1 = NormpathBuf::validate(b"foo/bar".to_vec()).err().unwrap();
    assert_eq!((e1.error, &e1.value[..]), (Error::NotAbsolute, &b"foo/bar"[..]));
    let e2 = NormpathBuf::validate(b"/foo/bar/".to_vec()).err().unwrap();
    assert_eq!((e2.error, &e2.value[..]), (Error::NotCanonical, &b"/foo/bar/"[..]));
    let e3 = NormpathBuf::validate(b"/foo/../bar".to_vec()).err().unwrap();
    assert_eq!((e3.error, &e3.value[..]), (Error::ContainsParent, &b"/foo/../bar"[..]));
}

#[test]
fn doc_buf_normalize() {
    let norm1 = NormpathBuf::normalize(b"//foo/./bar/".to_vec()).unwrap();
    assert_eq!(norm1.as_bytes(), b"/foo/bar");

    let err2 = NormpathBuf::normalize(b".//foo/../bar/".to_vec()).err().unwrap();
    assert_eq!(err2.value, b"foo/../bar");
}

#[test]
fn doc_buf_normalize_windows() {
    let norm1 = windows::normalize_new_buf(br"C:\foo/.\bar\".to_vec()).unwrap();
    assert_eq!(norm1, br"C:\foo\bar");

    let mut path2 = br"./\foo\../bar\..".to_vec();
    assert!(windows::normalize(&mut path2).is_err());
    assert_eq!(path2, b"");
}

#[test]
fn doc_canonicalize_lexically() {
    assert_eq!(canonicalize_lexically(b"//foo/./bar/".to_vec()), b"/foo/bar");
    assert_eq!(canonicalize_lexically(b".//foo/../bar/".to_vec()), b"foo/../bar");
}

#[test]
fn doc_split_components() {
    let norm = Normpath::validate(b"/a").unwrap();
    assert!(norm.split_components().is_none());
    let (prefix, rest) = windows::windows_split_components(br"C:\a").unwrap();
    assert_eq!(prefix, b"C:");
    assert_eq!(rest, br"\a");
}

#[test]
fn doc_new_unchecked() {
    assert!(Normpath::validate(b"/foo/bar").is_ok());
    let norm = Normpath::new_unchecked(b"/foo/bar");
    assert_eq!(norm.as_path(), b"/foo/bar");
    let buf = NormpathBuf::new_unchecked(b"/foo/bar".to_vec());
    assert_eq!(buf.as_bytes(), b"/foo/bar");
}

#[test]
fn doc_components() {
    let path = Normpath::validate(b"/foo/bar").unwrap();
    assert_eq!(path.components(), vec![&b"foo"[..], &b"bar"[..]]);
    let root = Normpath::validate(b"/").unwrap();
    assert!(root.components().is_empty());
    let one = Normpath::validate(b"/a").unwrap();
    assert_eq!(one.components(), vec![&b"a"[..]]);
}
