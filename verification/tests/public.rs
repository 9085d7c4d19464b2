use normal_path::{ConvertError, CowNormpath, Error as E, Normpath, NormpathBuf};

fn into_source<T>(error: ConvertError<T>) -> E {
    error.error
}

fn test_normalize(path: &str) -> Vec<u8> {
    let in_place = NormpathBuf::normalize(path.as_bytes().to_vec()).map(|p| p.into_os_string());
    let new = Normpath::normalize(path.as_bytes()).map(|p| p.into_owned().into_os_string());
    match (in_place, new) {
        (Ok(in_place), Ok(new)) => {
            assert_eq!(in_place, new, "inconsistent on {:?}", path);
            in_place
        }
        (Err(ec), Err(_)) => ec.value,
        (a, b) => panic!(
            "inconsistent on {:?}: in-place = {:?}, new = {:?}",
            path,
            a.map(|_| ()),
            b.map(|_| ())
        ),
    }
}

fn test_normal(path: &str) {
    let ref_validated = Normpath::validate(path.as_bytes()).unwrap();
    assert_eq!(ref_validated.as_path(), path.as_bytes());

    let ref_validated_c = Normpath::validate_canonical(path.as_bytes()).unwrap();
    assert_eq!(ref_validated_c.as_path(), ref_validated.as_path());

    let ref_validated_p = Normpath::validate_parentless(path.as_bytes()).unwrap();
    assert_eq!(ref_validated_p.as_path(), ref_validated.as_path());

    let ref_normalized = Normpath::normalize(path.as_bytes()).unwrap();
    assert!(matches!(ref_normalized, CowNormpath::Borrowed(_)));
    assert_eq!(ref_normalized.as_bytes(), ref_validated.as_path());

    let buf_validated = NormpathBuf::validate(path.as_bytes().to_vec()).unwrap();
    assert_eq!(buf_validated.as_bytes(), ref_validated.as_path());

    let buf_normalized = NormpathBuf::normalize(path.as_bytes().to_vec()).unwrap();
    assert_eq!(buf_normalized.as_bytes(), ref_validated.as_path());

    let buf_converted = NormpathBuf::try_from(path.as_bytes()).unwrap();
    assert_eq!(buf_converted.as_bytes(), ref_validated.as_path());
}

fn test_err_single(path: &str, error: E) {
    assert_eq!(Normpath::validate(path.as_bytes()).err(), Some(error));
    assert_eq!(Normpath::validate_canonical(path.as_bytes()).err(), Some(error));
    assert_eq!(Normpath::validate_parentless(path.as_bytes()).err(), Some(error));

    assert_eq!(
        NormpathBuf::validate(path.as_bytes().to_vec()).map_err(into_source).err(),
        Some(error),
    );
    assert_eq!(
        NormpathBuf::normalize(path.as_bytes().to_vec()).map_err(into_source).err(),
        Some(error),
    );

    let conv_err = NormpathBuf::try_from(path.as_bytes()).err().unwrap();
    assert_eq!(conv_err.error, error);
    assert_eq!(conv_err.value, path.as_bytes());
}

fn test_err_noncanonical(path: &str, canonical: &str) {
    assert_eq!(Normpath::validate(path.as_bytes()).err(), Some(E::NotCanonical));
    assert_eq!(Normpath::validate_canonical(path.as_bytes()).err(), Some(E::NotCanonical));
    assert_eq!(Normpath::validate_parentless(path.as_bytes()).err(), Some(E::NotCanonical));

    assert_eq!(
        NormpathBuf::validate(path.as_bytes().to_vec()).map_err(into_source).err(),
        Some(E::NotCanonical),
    );

    let ref_normalized = Normpath::normalize(path.as_bytes()).unwrap();
    assert!(matches!(ref_normalized, CowNormpath::Owned(_)));
    assert_eq!(ref_normalized.as_bytes(), canonical.as_bytes());

    let buf_normalized = NormpathBuf::normalize(path.as_bytes().to_vec()).unwrap();
    assert_eq!(buf_normalized.as_bytes(), canonical.as_bytes());

    let buf_converted = NormpathBuf::try_from(path.as_bytes().to_vec()).unwrap();
    assert_eq!(buf_converted.as_bytes(), canonical.as_bytes());
}

fn test_err_preference(path: &str) {
    assert_eq!(Normpath::validate_canonical(path.as_bytes()).err(), Some(E::NotCanonical));
    assert_eq!(Normpath::validate_parentless(path.as_bytes()).err(), Some(E::ContainsParent));
}

#[test]
fn root() {
    Normpath::validate(b"/").unwrap();
    NormpathBuf::try_from(&b"/"[..]).unwrap();
}

#[test]
fn empty() {
    assert_eq!(Normpath::validate(b"").err(), Some(E::NotAbsolute));
    assert_eq!(
        NormpathBuf::try_from(&b""[..]).map_err(into_source).err(),
        Some(E::NotAbsolute),
    );
}

#[test]
fn example_normalize() {
    assert_eq!(test_normalize("/foo/bar"), b"/foo/bar");
    assert_eq!(test_normalize("//foo/./..//bar//"), b"/foo/../bar");

    assert_eq!(test_normalize("foo/bar"), b"foo/bar");
    assert_eq!(test_normalize(".//foo/.//bar/..//"), b"foo/bar/..");
}

#[test]
fn examples_normal() {
    test_normal("/");
    test_normal("/foo/bar");
}

#[test]
fn examples_err_single_relative() {
    test_err_single("", E::NotAbsolute);
    test_err_single("foo/bar", E::NotAbsolute);
}

#[test]
fn examples_err_single_parent() {
    test_err_single("/..", E::ContainsParent);
    test_err_single("/foo/../bar", E::ContainsParent);
}

#[test]
fn examples_err_single_noncanonical() {
    test_err_noncanonical("//", "/");
    test_err_noncanonical("/.", "/");
    test_err_noncanonical("/foo//bar", "/foo/bar");
    test_err_noncanonical("/foo/./bar", "/foo/bar");
    test_err_noncanonical("/foo/bar/", "/foo/bar");
    test_err_noncanonical("/.../..../", "/.../....");
}

#[test]
fn examples_err_preference() {
    test_err_preference("/foo/../bar/");
    test_err_preference("//foo/../bar");
}

#[test]
fn normalize_relative_without_names_is_empty() {
    assert_eq!(test_normalize("."), b"");
    assert_eq!(test_normalize(".//./"), b"");
    assert_eq!(test_normalize("./a/."), b"a");
}
