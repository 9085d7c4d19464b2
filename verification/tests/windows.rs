use std::borrow::Cow;

use normal_path::draw::windows as draw;
use normal_path::imp::windows::{
    normalize, normalize_new_buf, normalize_new_cow, push, strip, validate, validate_canonical,
    windows_components, windows_prefix, windows_prefix_kind, windows_split_components,
    validate_parentless,
};
use normal_path::imp::windows_model::PrefixKind;
use normal_path::Error as E;

/// Equality of Windows paths up to the root that a device namespace or a UNC
/// share always has, written or not: `\\.\dev\` and `\\.\dev` are one path.
fn same_path(ours: &[u8], expected: &str) -> bool {
    let expected = expected.as_bytes();
    ours == expected
        || (expected.starts_with(b"\\\\")
            && expected.ends_with(b"\\")
            && ours == &expected[..expected.len() - 1])
}

fn test_normalize(path: &str) -> Vec<u8> {
    let mut in_place = path.as_bytes().to_vec();
    let in_place_res = normalize(&mut in_place);
    let new = normalize_new_buf(path.as_bytes().to_vec());
    match (in_place_res, new) {
        (Ok(()), Ok(new)) => {
            assert_eq!(in_place, new, "inconsistent on {:?}", path);
            in_place
        }
        (Err(_), Err(_)) => in_place,
        (a, b) => panic!(
            "inconsistent on {:?}: in-place = {:?}, new = {:?}",
            path,
            a,
            b.map(|_| ()).map_err(|e| e.error)
        ),
    }
}

fn test_normal(path: &str) {
    let validated = validate(path.as_bytes()).unwrap();
    assert_eq!(validated, path.as_bytes());
    assert_eq!(validate_canonical(path.as_bytes()).unwrap(), validated);
    assert_eq!(validate_parentless(path.as_bytes()).unwrap(), validated);

    let normalized = normalize_new_cow(path.as_bytes()).unwrap();
    assert!(matches!(normalized, Cow::Borrowed(_)));
    assert_eq!(&*normalized, validated);

    let mut in_place = path.as_bytes().to_vec();
    normalize(&mut in_place).unwrap();
    assert_eq!(in_place, validated);

    let converted = normalize_new_buf(path.as_bytes().to_vec()).unwrap();
    assert_eq!(converted, validated);
}

fn test_err_single(path: &str, error: E) {
    assert_eq!(validate(path.as_bytes()).err(), Some(error));
    assert_eq!(validate_canonical(path.as_bytes()).err(), Some(error));
    assert_eq!(validate_parentless(path.as_bytes()).err(), Some(error));

    let mut in_place = path.as_bytes().to_vec();
    assert_eq!(normalize(&mut in_place).err(), Some(error));

    let conv_err = normalize_new_buf(path.as_bytes().to_vec()).err().unwrap();
    assert_eq!(conv_err.error, error);
    assert_eq!(conv_err.value, path.as_bytes());
}

fn test_err_noncanonical(path: &str, canonical: &str) {
    assert_eq!(validate(path.as_bytes()).err(), Some(E::NotCanonical));
    assert_eq!(validate_canonical(path.as_bytes()).err(), Some(E::NotCanonical));
    assert_eq!(validate_parentless(path.as_bytes()).err(), Some(E::NotCanonical));

    let normalized = normalize_new_cow(path.as_bytes()).unwrap();
    assert!(matches!(normalized, Cow::Owned(_)));
    assert!(same_path(&normalized, canonical), "{path:?}");

    let mut in_place = path.as_bytes().to_vec();
    normalize(&mut in_place).unwrap();
    assert!(same_path(&in_place, canonical), "{path:?}");

    let converted = normalize_new_buf(path.as_bytes().to_vec()).unwrap();
    assert!(same_path(&converted, canonical), "{path:?}");
}

fn test_err_preference(path: &str) {
    assert_eq!(validate_canonical(path.as_bytes()).err(), Some(E::NotCanonical));
    assert_eq!(validate_parentless(path.as_bytes()).err(), Some(E::ContainsParent));
}

#[test]
fn public_root() {
    for c in 'A'..='Z' {
        let path = format!(r"{c}:\");
        validate(path.as_bytes()).unwrap();
        normalize_new_buf(path.into_bytes()).unwrap();
    }
}

#[test]
fn public_example_normalize() {
    assert_eq!(test_normalize(r"C:\foo\bar"), br"C:\foo\bar");
    assert_eq!(test_normalize(r"c:/foo/.."), br"C:\");
    assert_eq!(test_normalize(r"c:\/foo\..\./../bar/.."), br"C:\..");

    assert_eq!(test_normalize(r"foo\bar"), br"foo\bar");
    assert_eq!(test_normalize(r".\/foo\./\../"), b"");
    assert_eq!(test_normalize(r".\/foo/..\bar/../..//"), b"..");

    assert_eq!(test_normalize(r"\/.\dev\foo"), br"\\.\dev\foo");
    assert_eq!(test_normalize(r"\\./dev"), br"\\.\dev");
    assert_eq!(test_normalize(r"//./dev/foo\/bar\../"), br"\\.\dev\foo");

    assert_eq!(test_normalize(r"\/s\s\foo\bar"), br"\\s\s\foo\bar");
    assert_eq!(test_normalize(r"\\s/s\foo/\.\..\bar\/"), br"\\s\s\bar");
    assert_eq!(test_normalize(r"//s\s/foo\../\./../\bar/.."), br"\\s\s\..");

    assert_eq!(test_normalize(r"C:foo\bar"), br"C:foo\bar");
    assert_eq!(test_normalize(r"c:.\\foo\../\bar//"), br"C:bar");
    assert_eq!(test_normalize(r"c:.\foo\../bar/.."), br"C:");

    // No normalization will ever be applied to verbatim paths.
    assert_eq!(
        test_normalize(r"\\?\C:\foo/..\/bar/."),
        br"\\?\C:\foo/..\/bar/."
    );
    assert_eq!(
        test_normalize(r"\\?\UNC\s\s\foo\./..\bar/"),
        br"\\?\UNC\s\s\foo\./..\bar/"
    );
}

#[test]
fn public_examples_normal() {
    test_normal(r"C:\");
    test_normal(r"C:\foo\bar");

    test_normal(r"\\.\dev");
    test_normal(r"\\.\dev\foo\bar");
    test_normal(r"\\s\s");
    test_normal(r"\\s\s\foo\bar");

    test_normal(r"\\?\C:.\../foo\bar//");
    test_normal(r"\\?\UNC\s\s/foo\/.\..\bar\/");
}

#[test]
fn public_examples_err_single_relative() {
    test_err_single("", E::NotAbsolute);
    test_err_single(r"foo\bar", E::NotAbsolute);

    test_err_single(r"\", E::NotAbsolute);
    test_err_single(r"\foo\bar", E::NotAbsolute);

    test_err_single(r"C:", E::NotAbsolute);
    test_err_single(r"C:foo\bar", E::NotAbsolute);
}

#[test]
fn public_examples_err_single_parent() {
    test_err_single(r"C:\..", E::ContainsParent);

    test_err_single(r"\\.\dev\..", E::ContainsParent);
    test_err_single(r"\\s\s\..", E::ContainsParent);
}

#[test]
fn public_examples_err_single_noncanonical() {
    test_err_noncanonical(r"c:\", r"C:\");
    test_err_noncanonical(r"C:\\", r"C:\");
    test_err_noncanonical(r"C:\.", r"C:\");
    test_err_noncanonical(r"C:\foo\..", r"C:\");
    test_err_noncanonical(r"C:/foo/bar", r"C:\foo\bar");
    test_err_noncanonical(r"C:\foo\\bar", r"C:\foo\bar");
    test_err_noncanonical(r"C:\foo\.\bar", r"C:\foo\bar");
    test_err_noncanonical(r"C:\foo\bar\", r"C:\foo\bar");
    test_err_noncanonical(r"C:/.../....", r"C:\...\....");

    test_err_noncanonical(r"\\.\dev\\", r"\\.\dev\");
    test_err_noncanonical(r"\\.\dev\.", r"\\.\dev\");
    test_err_noncanonical(r"\\s\s\\", r"\\s\s\");
    test_err_noncanonical(r"\\s\s\.", r"\\s\s\");
}

#[test]
fn public_examples_err_preference() {
    test_err_preference(r"C:\..\foo\bar\");
    test_err_preference(r"C:\\foo\..\..\bar");
    test_err_preference(r"C:\foo\..\..");

    test_err_preference(r"\\.\dev\..\foo\bar\");
    test_err_preference(r"\\.\dev\\foo\..\..\bar");
    test_err_preference(r"\\s\s\..\foo\bar\");
    test_err_preference(r"\\s\s\\foo\..\..\bar");
}

#[test]
fn windows_validate_parentless_collapses_parents() {
    assert_eq!(validate_parentless(br"C:\foo\.\bar\..").err(), Some(E::NotCanonical));
    assert_eq!(validate_parentless(br"C:\foo\.\bar").err(), Some(E::NotCanonical));
    assert_eq!(validate_parentless(br"C:\foo\.\bar\..\..\..").err(), Some(E::ContainsParent));
}

#[test]
fn windows_canonicalize_lexically_examples() {
    assert_eq!(test_normalize(r"C:\foo/.\bar\"), br"C:\foo\bar");
    assert_eq!(test_normalize(r"./\foo\../bar\.."), b"");
}

#[test]
fn windows_normal() {
    for _ in 0..224 {
        let len = fastrand::usize(3..64);
        let path = String::from_utf8(draw::normal(len)).unwrap();
        test_normal(&path);
    }
    for _ in 0..32 {
        let len = fastrand::usize(7..64);
        let path = String::from_utf8(draw::verbatim(len)).unwrap();
        test_normal(&path);
    }
}

#[test]
fn windows_drawn_paths() {
    for len in 0..64 {
        let path = draw::relative(len);
        assert_eq!(path.len(), len);
        assert_eq!(validate(&path).err(), Some(E::NotAbsolute), "{:?}", String::from_utf8(path));
    }
    for len in 3..64 {
        let path = draw::absolute(len);
        assert_eq!(path.len(), len);
        assert_ne!(validate(&path).err(), Some(E::NotAbsolute), "{:?}", String::from_utf8(path));
    }
    for len in 1..16 {
        let path = draw::root_only(len);
        assert!(path[0] == b'/' || path[0] == b'\\');
    }
    let disk = draw::disk_only();
    assert_eq!(disk.len(), 2);
    assert!(disk[0].is_ascii_alphabetic());
    assert_eq!(disk[1], b':');
}

#[test]
fn windows_normalize_is_idempotent_on_examples() {
    for path in [r"c:\/foo\..\./../bar/..", r"//s\s/foo\../\./../\bar/..", r".\/foo/..\bar/../..//"] {
        let once = test_normalize(path);
        let twice = test_normalize(std::str::from_utf8(&once).unwrap());
        assert_eq!(once, twice);
    }
}

#[test]
fn windows_strip() {
    assert_eq!(strip(br"C:\foo\bar", br"C:\foo"), Some(&b"bar"[..]));
    assert_eq!(strip(br"C:\foo\bar", br"C:\foo\bar"), Some(&b""[..]));
    assert_eq!(strip(br"C:\foo\bar", br"C:\fo"), None);
    assert_eq!(strip(br"C:\foo/bar", br"C:\foo"), None);
    assert_eq!(strip(br"C:\foo", br"C:\foo\bar"), None);
    assert_eq!(strip(br"C:\foo\bar", br"C:\"), Some(&b"foo\\bar"[..]));
    assert_eq!(strip(br"C:\foo\bar", br"C:\foo\"), Some(&b"bar"[..]));
}

#[test]
fn windows_parent_errors() {
    let mut path = br"C:\foo\..\..".to_vec();
    assert_eq!(normalize(&mut path), Err(E::ContainsParent));
    assert_eq!(path, br"C:\..");

    let mut path = br"foo\..\..".to_vec();
    assert_eq!(normalize(&mut path), Err(E::ContainsParent));
    assert_eq!(path, b"..");

    assert_eq!(normalize_new_cow(b"..").err(), Some(E::NotAbsolute));
    assert_eq!(normalize_new_cow(br"C:\..").err(), Some(E::ContainsParent));
}

fn pushed(buf: &str, path: &str) -> Result<Vec<u8>, E> {
    let mut bytes = buf.as_bytes().to_vec();
    assert!(validate(&bytes).is_ok());
    match push(&mut bytes, path.as_bytes()) {
        Ok(()) => Ok(bytes),
        Err(e) => {
            assert_eq!(bytes, buf.as_bytes(), "changed on failure");
            Err(e)
        }
    }
}

#[test]
fn windows_push_relative() {
    assert_eq!(pushed(r"C:\", "foo").unwrap(), br"C:\foo");
    assert_eq!(pushed(r"C:\a", r"x/./y/").unwrap(), br"C:\a\x\y");
    assert_eq!(pushed(r"C:\a", r"..\b").unwrap(), br"C:\b");
    assert_eq!(pushed(r"C:\a", r"..").unwrap(), br"C:\");
    assert_eq!(pushed(r"C:\a", r"..\.."), Err(E::ContainsParent));
    assert_eq!(pushed(r"\\s\s", "x").unwrap(), br"\\s\s\x");
    assert_eq!(pushed(r"\\s\s\a", "..").unwrap(), br"\\s\s");
    assert_eq!(pushed(r"\\.\dev\a", r"b\..\c").unwrap(), br"\\.\dev\a\c");
}

#[test]
fn windows_push_rooted() {
    assert_eq!(pushed(r"C:\a", r"\x\y").unwrap(), br"C:\x\y");
    assert_eq!(pushed(r"C:\a", r"\").unwrap(), br"C:\");
    assert_eq!(pushed(r"\\s\s\a", r"\").unwrap(), br"\\s\s");
    assert_eq!(pushed(r"\\s\s\a", r"\x/.").unwrap(), br"\\s\s\x");
    assert_eq!(pushed(r"C:\a", r"\.."), Err(E::ContainsParent));
    assert_eq!(pushed(r"C:\a", r"d:\x/./y").unwrap(), br"D:\x\y");
    assert_eq!(pushed(r"C:\a", r"\\t\u\v").unwrap(), br"\\t\u\v");
}

#[test]
fn windows_push_prefix_without_root() {
    assert_eq!(pushed(r"C:\a", "D:x"), Err(E::NotAbsolute));
    assert_eq!(pushed(r"C:\a", "D:"), Err(E::NotAbsolute));
    assert_eq!(pushed(r"C:\a", r"D:..\.."), Err(E::NotAbsolute));
}

#[test]
fn windows_push_verbatim() {
    assert_eq!(pushed(r"C:\a", r"\\?\C:\x/..").unwrap(), br"\\?\C:\x/..");
    assert_eq!(pushed(r"\\?\C:\a", r"b\..\c").unwrap(), br"\\?\C:\a\c");
    assert_eq!(pushed(r"\\?\C:\a", r"..\..").unwrap(), br"\\?\C:\");
    assert_eq!(pushed(r"\\?\C:\a", "").unwrap(), br"\\?\C:\a\");
    assert_eq!(pushed(r"\\?\C:\a", r"\x").unwrap(), br"\\?\C:\x");
    assert_eq!(pushed(r"\\?\C:", "x").unwrap(), br"\\?\C:\x");
    assert_eq!(pushed(r"\\?\C:\.\a", "..").unwrap(), br"\\?\C:\.");
    assert_eq!(pushed(r"\\?\UNC\s\s\a", r"b/c").unwrap(), br"\\?\UNC\s\s\a\b\c");
}

#[test]
fn windows_push_empty_device_name() {
    assert_eq!(pushed(r"\\.\", "foo").unwrap(), br"\\.\foo");
}

#[test]
fn windows_pushed_paths_stay_normalized() {
    for _ in 0..64 {
        let len = fastrand::usize(3..32);
        let base = String::from_utf8(draw::normal(len)).unwrap();
        for _ in 0..16 {
            let plen = fastrand::usize(0..16);
            let piece = String::from_utf8(draw::relative(plen)).unwrap();
            if let Ok(out) = pushed(&base, &piece) {
                assert!(validate(&out).is_ok(), "{base:?} + {piece:?} = {:?}", String::from_utf8(out));
            }
        }
    }
}

/// Pushes `component` onto `subject` and compares with the normalization of
/// the two joined as `PathBuf::push` joins them on Windows: a component with
/// a prefix replaces the path, one with a root keeps only its prefix.
fn test_push(subject: &mut Vec<u8>, component: &[u8]) {
    let joined = match windows_prefix(component) {
        Some(_) => component.to_vec(),
        None => {
            let mut j = windows_prefix(subject).unwrap().to_vec();
            j.extend_from_slice(component);
            j
        }
    };
    let mut expected = joined.clone();
    let reference = normalize(&mut expected);
    let copy = subject.clone();
    match (reference, push(subject, component)) {
        (Ok(()), Ok(())) => assert_eq!(*subject, expected),
        (Err(e), Err(f)) => {
            assert_eq!(e, f);
            assert_eq!(*subject, copy);
        }
        (a, b) => panic!("{:?} + {:?}: reference {a:?}, ours {b:?}", String::from_utf8(copy), String::from_utf8(component.to_vec())),
    }
}

#[test]
fn push_partial() {
    for _ in 0..128 {
        let len = fastrand::usize(3..64);
        let mut path = draw::normal(len);
        for _ in 0..32 {
            let rlen = fastrand::usize(1..32);
            let root = draw::root_only(rlen);
            test_push(&mut path, &root);
        }
    }

    for _ in 0..64 {
        let len = fastrand::usize(3..64);
        let mut path = draw::normal(len);
        for _ in 0..16 {
            let prefix = draw::disk_only();
            let copy = path.clone();
            assert_eq!(push(&mut path, &prefix), Err(E::NotAbsolute));
            assert_eq!(path, copy);
        }
    }
}

#[test]
fn windows_prefixes() {
    assert_eq!(windows_prefix(br"C:\foo"), Some(&br"C:"[..]));
    assert_eq!(windows_prefix(br"\\s\s\foo"), Some(&br"\\s\s"[..]));
    assert_eq!(windows_prefix(br"\\.\dev\foo"), Some(&br"\\.\dev"[..]));
    assert_eq!(windows_prefix(br"\\?\C:\foo"), Some(&br"\\?\C:"[..]));
    assert_eq!(windows_prefix(br"\\?\UNC\s\s\foo"), Some(&br"\\?\UNC\s\s"[..]));
    assert_eq!(windows_prefix(br"\\?\name\foo"), Some(&br"\\?\name"[..]));
    assert_eq!(windows_prefix(br"\foo"), None);
    assert_eq!(windows_prefix(b"foo"), None);
    assert_eq!(
        windows_split_components(br"C:\foo"),
        Some((&br"C:"[..], &br"\foo"[..]))
    );
}

#[test]
fn windows_prefix_kinds_and_components() {
    assert_eq!(windows_prefix_kind(br"C:\a"), Some(PrefixKind::Disk));
    assert_eq!(windows_prefix_kind(br"\\.\dev\a"), Some(PrefixKind::DeviceNs));
    assert_eq!(windows_prefix_kind(br"\\s\s\a"), Some(PrefixKind::Unc));
    assert_eq!(windows_prefix_kind(br"\\?\C:\a"), Some(PrefixKind::VerbatimDisk));
    assert_eq!(windows_prefix_kind(br"\\?\UNC\s\s\a"), Some(PrefixKind::VerbatimUnc));
    assert_eq!(windows_prefix_kind(br"\\?\x\a"), Some(PrefixKind::Verbatim));
    assert_eq!(windows_prefix_kind(br"a\b"), None);
    assert_eq!(windows_components(br"C:\a\b"), vec![&b"a"[..], &b"b"[..]]);
    assert!(windows_components(br"C:\").is_empty());
    assert!(windows_components(br"\\.\dev").is_empty());
    assert_eq!(windows_components(br"\\s\s\foo"), vec![&b"foo"[..]]);
    assert_eq!(windows_components(br"\\?\C:\a/b\c"), vec![&b"a/b"[..], &b"c"[..]]);
}
