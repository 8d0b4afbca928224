use ninja_log::header::parse_header;

#[test]
fn test_parse_header() {
    assert_eq!(parse_header(b"# ninja log v5\n"), Some(5u8));
    assert_eq!(parse_header(b"# ninja log v4\n"), Some(4u8));

    assert!(matches!(parse_header(b"# ninja log v4"), None));
}

#[test]
fn header_accepts_every_version_in_range() {
    assert_eq!(parse_header(b"# ninja log v0\n"), Some(0u8));
    assert_eq!(parse_header(b"# ninja log v7\n"), Some(7u8));
    assert_eq!(parse_header(b"# ninja log v42\n"), Some(42u8));
    assert_eq!(parse_header(b"# ninja log v255\n"), Some(255u8));
}

#[test]
fn header_accepts_leading_zeros() {
    assert_eq!(parse_header(b"# ninja log v05\n"), Some(5u8));
    assert_eq!(parse_header(b"# ninja log v005\n"), Some(5u8));
    assert_eq!(parse_header(b"# ninja log v000\n"), Some(0u8));
}

#[test]
fn header_rejects_wrong_prefix() {
    assert_eq!(parse_header(b"# Ninja log v5\n"), None);
    assert_eq!(parse_header(b"## ninja log v5\n"), None);
    assert_eq!(parse_header(b"ninja log v5\n"), None);
    assert_eq!(parse_header(b"# ninja log 5\n"), None);
    assert_eq!(parse_header(b""), None);
}

#[test]
fn header_rejects_bad_version_digits() {
    assert_eq!(parse_header(b"# ninja log v\n"), None);
    assert_eq!(parse_header(b"# ninja log vx\n"), None);
    assert_eq!(parse_header(b"# ninja log v5x\n"), None);
    assert_eq!(parse_header(b"# ninja log v-1\n"), None);
    assert_eq!(parse_header(b"# ninja log v256\n"), None);
    assert_eq!(parse_header(b"# ninja log v1000\n"), None);
}

#[test]
fn header_rejects_missing_newline_and_trailing_bytes() {
    assert_eq!(parse_header(b"# ninja log v5"), None);
    assert_eq!(parse_header(b"# ninja log v5\n\n"), None);
    assert_eq!(parse_header(b"# ninja log v5\nextra"), None);
    assert_eq!(parse_header(b"# ninja log v5 \n"), None);
}
