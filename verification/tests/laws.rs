use normal_path::imp::windows;
use normal_path::{canonicalize_lexically, ConvertError, Error as E, Normpath, NormpathBuf};

fn normalized(path: &str) -> Vec<u8> {
    canonicalize_lexically(path.as_bytes().to_vec())
}

#[test]
fn error_from_convert_error() {
    let e: E = ConvertError::new(E::NotCanonical, 5u8).into();
    assert_eq!(e, E::NotCanonical);
}

#[test]
fn validations_agree_on_examples() {
    for path in ["/", "/foo", "foo", "/foo/", "/foo/../bar", "//", "/.", "/./..//x/"] {
        let a = Normpath::validate(path.as_bytes()).is_ok();
        let b = Normpath::validate_canonical(path.as_bytes()).is_ok();
        let c = Normpath::validate_parentless(path.as_bytes()).is_ok();
        assert_eq!(a, b, "{path:?}");
        assert_eq!(a, c, "{path:?}");
    }
}

#[test]
fn normalize_is_idempotent_on_examples() {
    for path in ["//foo/./..//bar//", ".//foo/.//bar/..//", "", ".", "/", "a/./b/"] {
        let once = normalized(path);
        let twice = canonicalize_lexically(once.clone());
        assert_eq!(once, twice, "{path:?}");
    }
}

#[test]
fn normalize_repairs_canonicality_on_examples() {
    let fixed = NormpathBuf::normalize(b"//a/./b//".to_vec()).unwrap();
    assert_eq!(fixed.as_bytes(), b"/a/b");
    assert!(Normpath::validate(fixed.as_bytes()).is_ok());
    assert_eq!(NormpathBuf::normalize(b"a/b".to_vec()).err().unwrap().error, E::NotAbsolute);
    assert_eq!(NormpathBuf::normalize(b"/a/../b".to_vec()).err().unwrap().error, E::ContainsParent);
}

#[test]
fn push_absolute_replaces_on_example() {
    let mut buf = NormpathBuf::root();
    buf.push(b"foo").unwrap();
    buf.push(b"/bar//baz/").unwrap();
    assert_eq!(buf.as_bytes(), b"/bar/baz");
}

#[test]
fn pop_undoes_push_on_example() {
    let mut buf = NormpathBuf::root();
    buf.push(b"a/b").unwrap();
    buf.push(b"c").unwrap();
    assert_eq!(buf.as_bytes(), b"/a/b/c");
    assert!(buf.pop());
    assert_eq!(buf.as_bytes(), b"/a/b");
    assert!(buf.pop());
    assert!(buf.pop());
    assert_eq!(buf.as_bytes(), b"/");
    assert!(!buf.pop());
}

#[test]
fn push_parent_fails_untouched() {
    let mut buf = NormpathBuf::root();
    buf.push(b"a").unwrap();
    assert_eq!(buf.push(b"b/../c"), Err(E::ContainsParent));
    assert_eq!(buf.as_bytes(), b"/a");
}

#[test]
fn parent_shrinks_on_example() {
    let path = Normpath::validate(b"/foo/bar").unwrap();
    let parent = path.parent().unwrap();
    assert_eq!(parent.as_path(), b"/foo");
    assert_eq!(parent.parent().unwrap().as_path(), b"/");
    assert!(parent.parent().unwrap().parent().is_none());
}

#[test]
fn strip_rejoins_on_example() {
    let path = Normpath::validate(b"/foo/bar/baz").unwrap();
    let rest = path.quick_strip_prefix(b"/foo").unwrap();
    assert_eq!(rest, b"bar/baz");
    let mut rejoined = b"/foo".to_vec();
    rejoined.push(b'/');
    rejoined.extend_from_slice(rest);
    assert_eq!(rejoined, path.as_path());
    assert!(path.quick_starts_with(b"/foo/bar"));
    assert!(!path.quick_starts_with(b"/fo"));
    assert_eq!(path.quick_strip_prefix(b"/foo/bar/baz"), Some(&b""[..]));
    assert_eq!(path.quick_strip_prefix(b"/"), Some(&b"foo/bar/baz"[..]));
    assert_eq!(path.quick_strip_prefix(b"/foo/"), Some(&b"bar/baz"[..]));
    assert!(path.quick_starts_with(b"/"));
    let root = Normpath::validate(b"/").unwrap();
    assert_eq!(root.quick_strip_prefix(b"/"), Some(&b""[..]));
}

#[test]
fn checked_join_on_example() {
    let path = Normpath::validate(b"/foo").unwrap();
    assert_eq!(path.checked_join(b"./bar//").unwrap().as_bytes(), b"/foo/bar");
    assert_eq!(path.checked_join(b"../bar").err(), Some(E::ContainsParent));
    assert!(path.prefix().is_none());
    assert!(path.split_components().is_none());
    assert_eq!(path.len(), 4);
}

#[test]
fn windows_validations_agree_on_examples() {
    for path in [r"C:\", r"c:\", r"C:\foo\..", r"\\s\s", r"\\s\s\", r"C:foo", r"\\?\x/.", r"C:\..\x"] {
        let a = windows::validate(path.as_bytes()).is_ok();
        let b = windows::validate_canonical(path.as_bytes()).is_ok();
        let c = windows::validate_parentless(path.as_bytes()).is_ok();
        assert_eq!(a, b, "{path:?}");
        assert_eq!(a, c, "{path:?}");
    }
}

#[test]
fn windows_normalize_repairs_on_examples() {
    for path in [r"c:/foo/./bar/", r"//s\s/a/..\b", r"\\./dev\\x\", r"C:\a\..\.."] {
        let mut bytes = path.as_bytes().to_vec();
        match windows::normalize(&mut bytes) {
            Ok(()) => {
                assert!(windows::validate(&bytes).is_ok(), "{path:?}");
                let mut again = bytes.clone();
                windows::normalize(&mut again).unwrap();
                assert_eq!(again, bytes);
            }
            Err(e) => assert_eq!(e, E::ContainsParent, "{path:?}"),
        }
    }
}

#[test]
fn windows_parent_errors_agree_on_examples() {
    for path in [r"C:\..", r"C:\a\..", r"C:\a\..\..\b", r"\\s\s\..", r"\\.\d\x\.."] {
        let parentless = windows::validate_parentless(path.as_bytes()).err() == Some(E::ContainsParent);
        let mut bytes = path.as_bytes().to_vec();
        let normalized = windows::normalize(&mut bytes).err() == Some(E::ContainsParent);
        assert_eq!(parentless, normalized, "{path:?}");
    }
}

#[test]
fn windows_normalized_is_fixed_on_examples() {
    for path in [r"C:\", r"C:\foo\bar", r"\\.\dev", r"\\s\s\x", r"\\?\C:\a/..\b"] {
        let mut bytes = path.as_bytes().to_vec();
        windows::normalize(&mut bytes).unwrap();
        assert_eq!(bytes, path.as_bytes());
    }
}

#[test]
fn windows_valid_has_prefix_on_examples() {
    for p in [&br"C:\"[..], br"C:\foo", br"\\.\dev", br"\\s\s\foo", br"\\?\C:\.."] {
        assert!(windows::validate(p).is_ok());
        assert!(windows::windows_prefix(p).is_some());
        let (pre, rest) = windows::windows_split_components(p).unwrap();
        assert_eq!([pre, rest].concat(), p);
    }
}
