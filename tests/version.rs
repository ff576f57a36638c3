use turborepo_lib::version::get_version;

#[test]
fn version_is_first_line() {
    assert_eq!(get_version(b"2.3.4\nsecond line\n"), b"2.3.4".to_vec());
}

#[test]
fn version_drops_carriage_return() {
    assert_eq!(get_version(b"2.3.4-canary.1\r\n"), b"2.3.4-canary.1".to_vec());
}

#[test]
fn version_drops_trailing_spaces_only() {
    assert_eq!(get_version(b" 1.0 \t\nx"), b" 1.0".to_vec());
}

#[test]
fn version_of_empty_first_line() {
    assert_eq!(get_version(b"\n1.0\n"), Vec::<u8>::new());
}

#[test]
fn version_drops_unicode_white_space() {
    assert_eq!(get_version("2\u{a0}\n".as_bytes()), b"2".to_vec());
    assert_eq!(get_version("2.1\u{3000}\u{2009} \u{85}\r\n".as_bytes()), b"2.1".to_vec());
    assert_eq!(get_version("1\u{1680}\u{205f}\u{202f}\u{2028}\u{2029}\u{200a}\u{2000}\n".as_bytes()), b"1".to_vec());
}

#[test]
fn version_keeps_other_characters() {
    assert_eq!(get_version("1.0\u{e9}\u{200b}\n".as_bytes()), "1.0\u{e9}\u{200b}".as_bytes().to_vec());
}
