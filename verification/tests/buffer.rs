use normal_path::{Error, NormpathBuf};

fn sample() -> NormpathBuf {
    let mut buf = NormpathBuf::root();
    buf.push(b"foo/bar").unwrap();
    buf
}

#[test]
fn capacity_covers_length() {
    let buf = sample();
    assert!(buf.capacity() >= buf.as_bytes().len());
}

#[test]
fn reserve_keeps_path_and_grows() {
    let mut buf = sample();
    buf.reserve(100);
    assert_eq!(buf.as_bytes(), b"/foo/bar");
    assert!(buf.capacity() >= 8 + 100);

    let mut buf = sample();
    buf.reserve_exact(50);
    assert_eq!(buf.as_bytes(), b"/foo/bar");
    assert!(buf.capacity() >= 8 + 50);
}

#[test]
fn try_reserve_keeps_path() {
    let mut buf = sample();
    assert!(buf.try_reserve(64).is_ok());
    assert_eq!(buf.as_bytes(), b"/foo/bar");
    assert!(buf.capacity() >= 8 + 64);

    let mut buf = sample();
    assert!(buf.try_reserve_exact(32).is_ok());
    assert_eq!(buf.as_bytes(), b"/foo/bar");
    assert!(buf.capacity() >= 8 + 32);

    let mut buf = sample();
    assert!(buf.try_reserve(usize::MAX).is_err());
    assert!(buf.try_reserve_exact(usize::MAX).is_err());
    assert_eq!(buf.as_bytes(), b"/foo/bar");
}

#[test]
fn shrink_keeps_path() {
    let mut buf = sample();
    buf.reserve(1000);
    buf.shrink_to(100);
    assert_eq!(buf.as_bytes(), b"/foo/bar");
    assert!(buf.capacity() >= 8);
    buf.shrink_to_fit();
    assert_eq!(buf.as_bytes(), b"/foo/bar");
    assert!(buf.capacity() >= 8);
}

#[test]
fn from_str_normalizes_or_hands_back() {
    let p: NormpathBuf = "/foo//./bar/".parse().unwrap();
    assert_eq!(p.as_bytes(), b"/foo/bar");
    let e = "foo/bar".parse::<NormpathBuf>().err().unwrap();
    assert_eq!(e.error, Error::NotAbsolute);
    assert_eq!(e.value, "foo/bar");
    let e = "/foo/../bar".parse::<NormpathBuf>().err().unwrap();
    assert_eq!(e.error, Error::ContainsParent);
    assert_eq!(e.value, "/foo/../bar");
}

#[test]
fn error_messages() {
    assert_eq!(Error::NotAbsolute.message(), "path is not absolute");
    assert_eq!(Error::NotCanonical.message(), "path is not canonical");
    assert_eq!(Error::ContainsParent.message(), "path contains a '..' component");
    assert_eq!(Error::NotAbsolute.windows_message(), "path is not absolute");
    assert_eq!(
        Error::ContainsParent.windows_message(),
        "path contains a '..' component that points outside of base directory"
    );
}
