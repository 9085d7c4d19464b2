use normal_path::draw::{unix, windows};

#[test]
fn unix_specials_by_draw() {
    assert_eq!(unix::maybe_special(b'/', 0), Some(b'.'));
    assert_eq!(unix::maybe_special(b'/', 3), None);
    assert_eq!(unix::maybe_special(b'/', 5), Some(b'/'));
    assert_eq!(unix::maybe_special(b'.', 3), Some(b'.'));
    assert_eq!(unix::maybe_special(b'.', 4), None);
    assert_eq!(unix::maybe_special(b'.', 5), Some(b'/'));
    assert_eq!(unix::maybe_special(b'x', 0), Some(b'/'));
    assert_eq!(unix::maybe_special(b'x', 1), None);
    assert_eq!(unix::maybe_norm_special(b'/', 3), Some(b'.'));
    assert_eq!(unix::maybe_norm_special(b'/', 1), None);
    assert_eq!(unix::maybe_norm_special(b'.', 4), Some(b'.'));
    assert_eq!(unix::maybe_norm_special(b'.', 5), None);
    assert_eq!(unix::maybe_norm_special(b'x', 0), Some(b'/'));
    assert_eq!(unix::maybe_norm_special(b'x', 2), None);
}

#[test]
fn windows_specials_by_draw() {
    assert_eq!(windows::maybe_special(b'\\', 3), Some(b'.'));
    assert_eq!(windows::maybe_special(b'/', 9), None);
    assert_eq!(windows::maybe_special(b'/', 10), Some(b'/'));
    assert_eq!(windows::maybe_special(b'\\', 11), Some(b'\\'));
    assert_eq!(windows::maybe_special(b'.', 7), Some(b'.'));
    assert_eq!(windows::maybe_special(b'.', 9), None);
    assert_eq!(windows::maybe_special(b'.', 10), Some(b'/'));
    assert_eq!(windows::maybe_special(b'.', 11), Some(b'\\'));
    assert_eq!(windows::maybe_special(b'x', 0), Some(b'/'));
    assert_eq!(windows::maybe_special(b'x', 1), Some(b'\\'));
    assert_eq!(windows::maybe_special(b'x', 2), None);
    assert_eq!(windows::maybe_norm_special(b'\\', 3), Some(b'.'));
    assert_eq!(windows::maybe_norm_special(b'.', 1), None);
    assert_eq!(windows::maybe_norm_special(b'x', 0), Some(b'\\'));
}

#[test]
fn unix_paths_by_draw() {
    assert_eq!(unix::normal_from(&[0, 0, 0, 0], &[0, 0, 0, 0]), b"/..x");
    assert_eq!(unix::normal_from(&[0, 0, 0, 0], &[1, 1, 1, 1]), b"/000");
    assert_eq!(unix::normal_from(&[0], &[0]), b"/");
    assert_eq!(unix::relative_from(&[10, 11, 12], true, &[0, 0, 0]), b"...");
    assert_eq!(unix::relative_from(&[10, 11, 12], true, &[0, 2, 0]), b"./.");
    assert_eq!(unix::relative_from(&[10, 11, 12], false, &[1, 1, 1]), b"xbc");
    assert_eq!(unix::relative_from(&[], false, &[]), b"");
    assert_eq!(unix::absolute_from(&[1, 2, 3], &[0, 5, 0]), b"//.");
    assert_eq!(unix::absolute_from(&[36, 61, 35], &[0, 3, 3]), b"/Zz");
}

#[test]
fn windows_paths_by_draw() {
    let zeros = [0u8; 6];
    let ones = [1u8; 6];
    assert_eq!(windows::normal_from(&zeros, 0, b'C', 3, 5, &ones), br"\\0\00");
    assert_eq!(windows::normal_from(&zeros, 1, b'C', 0, 0, &ones), br"\\.\00");
    assert_eq!(windows::normal_from(&zeros, 2, b'C', 0, 0, &ones), br"C:\000");
    assert_eq!(windows::normal_from(&zeros, 2, b'C', 0, 0, &zeros), br"C:\..x");
    assert_eq!(
        windows::absolute_from(&[0, 0, 0], 2, 2, &[false, false, false, false], 0, 0, &[1, 1, 1]),
        br"C:\"
    );
    assert_eq!(
        windows::absolute_from(&zeros, 1, 2, &[true, false, true, false], 0, 0, &[2; 6]),
        br"/\./00"
    );
    assert_eq!(
        windows::verbatim_from(&[0, 0, 0], 2, 28, &[true, true, true, true], 0, 0, &[1, 1, 1]),
        br"\\?\c:/"
    );
    assert_eq!(windows::relative_from(&[10, 11, 12], true, 28, false, &[2, 2, 2]), b"c:x");
    assert_eq!(windows::relative_from(&[10, 11, 12], false, 28, true, &[2, 2, 2]), b".bc");
    assert_eq!(windows::root_only_from(&[10, 11], true, &[0, 0]), b"/.");
    assert_eq!(windows::disk_only_from(0), b"A:");
    assert_eq!(windows::disk_only_from(26), b"a:");
}
