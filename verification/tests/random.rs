use std::path::{Component, Path, PathBuf};

use normal_path::draw;
use normal_path::{ConvertError, CowNormpath, Error as E, Normpath, NormpathBuf};

const MIN_ABS: usize = 1;

fn make_paths(lo: usize, hi: usize, draw: fn(usize) -> Vec<u8>) -> impl Iterator<Item = String> {
    std::iter::from_fn(move || {
        let len = fastrand::usize(lo..hi);
        Some(String::from_utf8(draw(len)).unwrap())
    })
}

fn as_path(bytes: &[u8]) -> &Path {
    Path::new(std::str::from_utf8(bytes).unwrap())
}

fn to_canonical(path: &Path) -> PathBuf {
    path.components()
        .filter(|c| !matches!(c, Component::CurDir))
        .collect()
}

fn is_canonical(path: &Path) -> bool {
    path.as_os_str() == to_canonical(path).as_os_str()
}

fn is_parentless(path: &Path) -> bool {
    path.components().all(|c| !matches!(c, Component::ParentDir))
}

fn is_normalized(path: &Path) -> bool {
    path.is_absolute() && is_canonical(path) && is_parentless(path)
}

fn into_source<T>(error: ConvertError<T>) -> E {
    error.error
}

fn test_normalize(path: &str) -> Vec<u8> {
    let in_place = NormpathBuf::normalize(path.as_bytes().to_vec()).map(|p| p.into_os_string());
    let new = Normpath::normalize(path.as_bytes()).map(|p| p.into_owned().into_os_string());
    match (in_place, new) {
        (Ok(in_place), Ok(new)) => {
            assert_eq!(in_place, new, "inconsistent on {:?}", path);
            in_place
        }
        (Err(ec), Err(_)) => ec.value,
        (a, b) => panic!(
            "inconsistent on {:?}: in-place = {:?}, new = {:?}",
            path,
            a.map(|_| ()),
            b.map(|_| ())
        ),
    }
}

fn test_push(subject: &mut NormpathBuf, reference: &mut PathBuf, component: &str) {
    if is_parentless(component.as_ref()) {
        reference.push(component);
        subject.push(component.as_bytes()).unwrap();

        assert_eq!(as_path(subject.as_bytes()), reference.as_path());
    } else {
        let copy = subject.as_bytes().to_vec();
        let error = subject.push(component.as_bytes()).unwrap_err();
        assert_eq!(error, E::ContainsParent);
        assert_eq!(subject.as_bytes(), &copy[..]);
    }
}

fn test_normal(path: &str) {
    let ref_validated = Normpath::validate(path.as_bytes()).unwrap();
    assert!(is_normalized(as_path(ref_validated.as_path())));
    assert_eq!(ref_validated.as_path(), path.as_bytes());

    let ref_validated_c = Normpath::validate_canonical(path.as_bytes()).unwrap();
    assert_eq!(ref_validated_c.as_path(), ref_validated.as_path());

    let ref_validated_p = Normpath::validate_parentless(path.as_bytes()).unwrap();
    assert_eq!(ref_validated_p.as_path(), ref_validated.as_path());

    let ref_normalized = Normpath::normalize(path.as_bytes()).unwrap();
    assert!(matches!(ref_normalized, CowNormpath::Borrowed(_)));
    assert_eq!(ref_normalized.as_bytes(), ref_validated.as_path());

    let buf_validated = NormpathBuf::validate(path.as_bytes().to_vec()).unwrap();
    assert_eq!(buf_validated.as_bytes(), ref_validated.as_path());

    let buf_normalized = NormpathBuf::normalize(path.as_bytes().to_vec()).unwrap();
    assert_eq!(buf_normalized.as_bytes(), ref_validated.as_path());

    let buf_converted = NormpathBuf::try_from(path.as_bytes()).unwrap();
    assert_eq!(buf_converted.as_bytes(), ref_validated.as_path());
}

fn test_err_single(path: &str, error: E) {
    assert_eq!(Normpath::validate(path.as_bytes()).err(), Some(error));
    assert_eq!(Normpath::validate_canonical(path.as_bytes()).err(), Some(error));
    assert_eq!(Normpath::validate_parentless(path.as_bytes()).err(), Some(error));

    assert_eq!(
        NormpathBuf::validate(path.as_bytes().to_vec()).map_err(into_source).err(),
        Some(error),
    );
    assert_eq!(
        NormpathBuf::normalize(path.as_bytes().to_vec()).map_err(into_source).err(),
        Some(error),
    );

    let conv_err = NormpathBuf::try_from(path.as_bytes()).err().unwrap();
    assert_eq!(conv_err.error, error);
    assert_eq!(conv_err.value, path.as_bytes());
}

fn test_err_noncanonical(path: &str, canonical: &Path) {
    assert_eq!(Normpath::validate(path.as_bytes()).err(), Some(E::NotCanonical));
    assert_eq!(Normpath::validate_canonical(path.as_bytes()).err(), Some(E::NotCanonical));
    assert_eq!(Normpath::validate_parentless(path.as_bytes()).err(), Some(E::NotCanonical));

    assert_eq!(
        NormpathBuf::validate(path.as_bytes().to_vec()).map_err(into_source).err(),
        Some(E::NotCanonical),
    );

    let ref_normalized = Normpath::normalize(path.as_bytes()).unwrap();
    assert_eq!(as_path(ref_normalized.as_bytes()), canonical);

    let buf_normalized = NormpathBuf::normalize(path.as_bytes().to_vec()).unwrap();
    assert_eq!(as_path(buf_normalized.as_bytes()), canonical);

    let buf_converted = NormpathBuf::try_from(path.as_bytes().to_vec()).unwrap();
    assert_eq!(as_path(buf_converted.as_bytes()), canonical);
}

fn test_err_preference(path: &str) {
    assert_eq!(Normpath::validate_canonical(path.as_bytes()).err(), Some(E::NotCanonical));
    assert_eq!(Normpath::validate_parentless(path.as_bytes()).err(), Some(E::ContainsParent));
}

#[test]
fn normalize() {
    let paths = make_paths(1, 64, draw::common);
    for path in paths.take(1024) {
        let reference = to_canonical(Path::new(&path));
        let ours = test_normalize(&path);

        assert_eq!(reference.as_os_str().as_encoded_bytes(), &ours[..], "input: {path:?}");
    }
}

#[test]
fn push_relative() {
    for _ in 0..128 {
        let components = make_paths(1, 16, draw::relative);

        let mut path = NormpathBuf::root();
        let mut twin = PathBuf::from(std::str::from_utf8(path.as_bytes()).unwrap());
        for component in components.take(64) {
            test_push(&mut path, &mut twin, &component);
        }
    }
}

#[test]
fn push_absolute() {
    for _ in 0..128 {
        let components = make_paths(MIN_ABS, 32, draw::absolute);

        let mut path = NormpathBuf::root();
        let mut twin = PathBuf::from(std::str::from_utf8(path.as_bytes()).unwrap());
        for component in components.take(32) {
            test_push(&mut path, &mut twin, &component);
        }
    }
}

#[test]
fn normal() {
    for path in make_paths(MIN_ABS, 64, draw::normal).take(256) {
        test_normal(&path);
    }
}

#[test]
fn err_single_relative() {
    let paths = make_paths(1, 64, draw::relative)
        .filter(|p| is_parentless(p.as_ref()) && is_canonical(p.as_ref()));

    for path in paths.take(256) {
        test_err_single(&path, E::NotAbsolute);
    }
}

#[test]
fn err_single_parent() {
    let paths = make_paths(MIN_ABS, 64, draw::absolute)
        .filter(|p| !is_parentless(Path::new(p)) && is_canonical(Path::new(p)));

    for path in paths.take(256) {
        test_err_single(&path, E::ContainsParent);
    }
}

#[test]
fn err_single_noncanonical() {
    let paths = make_paths(MIN_ABS, 64, draw::absolute)
        .filter(|p| !is_canonical(Path::new(p)) && is_parentless(Path::new(p)));

    for path in paths.take(256) {
        test_err_noncanonical(&path, &to_canonical(path.as_ref()));
    }
}

#[test]
fn err_preference() {
    let paths = make_paths(MIN_ABS, 64, draw::absolute)
        .filter(|p| !is_canonical(Path::new(p)) && !is_parentless(Path::new(p)));

    for path in paths.take(256) {
        test_err_preference(&path);
    }
}

#[test]
fn drawn_relative_paths_have_no_root() {
    for len in 0..64 {
        let path = draw::relative(len);
        assert_eq!(path.len(), len);
        assert!(path.first() != Some(&b'/'));
    }
}

#[test]
fn drawn_normal_paths_validate() {
    for len in 1..64 {
        let path = draw::normal(len);
        assert_eq!(path.len(), len);
        assert!(Normpath::validate(&path).is_ok(), "{:?}", String::from_utf8(path));
    }
}
