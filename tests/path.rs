use zoxide::path::{filename_str, is_supported, normalize, to_str, PathError};
use zoxide::text::to_lowercase;

#[test]
fn test_filename_str() {
    let cases: &[(&str, &str)] = &[
        ("", ""),
        ("/", ""),
        ("//", ""),
        ("///", ""),
        ("///foo/.//bar//", "bar"),
        ("///foo/.//bar//.//..//.//baz", "baz"),
    ];
    for &(input, expected) in cases {
        assert_eq!(filename_str(input), expected)
    }
}

#[test]
fn test_normalize() {
    let cases: &[(&str, &str)] = &[
        ("/", "/"),
        ("//", "/"),
        ("///", "/"),
        ("///foo/.//bar//", "/foo/bar"),
        ("///foo/.//bar//.//..//.//baz", "/foo/baz"),
        ("///..//./foo/.//bar", "/foo/bar"),
        ("/foo/../../../bar", "/bar"),
        ("/a/b/c/../../../x/y/z", "/x/y/z"),
        ("///..//./foo/.//bar", "/foo/bar"),
    ];
    for &(input, expected) in cases {
        assert_eq!(normalize(input.as_bytes(), b"/home/user").as_slice(), expected.as_bytes());
    }

    // An empty path resolves to the current directory.
    assert_eq!(normalize(b"", b"/home/user").as_slice(), b"/home/user");
}

#[test]
fn normalize_relative_path() {
    assert_eq!(normalize(b"src/../docs/./x", b"/home/user").as_slice(), b"/home/user/docs/x");
    assert_eq!(normalize(b"../../..", b"/home/user").as_slice(), b"/");
}

#[test]
fn filename_of_plain_name() {
    assert_eq!(filename_str("zoxide"), "zoxide");
    assert_eq!(filename_str("/home/user/zoxide-docs"), "zoxide-docs");
}

#[test]
fn every_unix_path_is_supported() {
    assert!(is_supported("/home/user"));
}

#[test]
fn to_str_accepts_utf8() {
    assert_eq!(to_str("/home/ünï".as_bytes()), Ok("/home/ünï"));
}

#[test]
fn to_str_rejects_invalid_utf8() {
    assert_eq!(to_str(&[b'/', 0xff, 0xfe]), Err(PathError::InvalidUnicode));
}

#[test]
fn lowercase_ascii() {
    assert_eq!(to_lowercase("/Home/USER/Proj"), "/home/user/proj");
}

#[test]
fn lowercase_unicode() {
    assert_eq!(to_lowercase("/ÄBC/Ünï"), "/äbc/ünï");
}
