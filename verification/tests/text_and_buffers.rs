use rust_playground::buffers::{
    check_win32_error, ensure_capacity, hresult_from_win32, size_of_u32, to_u16_bytes,
    to_u16_slice,
};
use rust_playground::text::{contains, parse_i32, parse_line_i32, parse_num, read_line_as_i32};

#[test]
fn parse_num_reads_signed_decimals() {
    assert_eq!(parse_num("42"), 42);
    assert_eq!(parse_num("-17"), -17);
    assert_eq!(parse_num("+5"), 5);
    assert_eq!(parse_num("007"), 7);
    assert_eq!(parse_num("-2147483648"), i32::MIN);
    assert_eq!(parse_num("2147483647"), i32::MAX);
}

#[test]
fn parse_i32_rejects_what_i32_rejects() {
    assert_eq!(parse_i32(""), None);
    assert_eq!(parse_i32("-"), None);
    assert_eq!(parse_i32("+"), None);
    assert_eq!(parse_i32("12a"), None);
    assert_eq!(parse_i32(" 1"), None);
    assert_eq!(parse_i32("2147483648"), None);
    assert_eq!(parse_i32("-2147483649"), None);
    assert_eq!(parse_i32("99999999999999999999"), None);
}

#[test]
fn parse_i32_agrees_with_std() {
    for text in ["0", "-0", "+12", "123456", "-99", "1_0", "١٢", "2147483647", "--1"] {
        assert_eq!(parse_i32(text), text.parse::<i32>().ok());
    }
}

#[test]
fn read_line_as_i32_trims_white_space() {
    assert_eq!(read_line_as_i32("  12\n"), 12);
    assert_eq!(read_line_as_i32("\t-3\r\n"), -3);
    assert_eq!(read_line_as_i32("\u{3000}8\u{a0}"), 8);
    assert_eq!(parse_line_i32(" \n "), None);
    assert_eq!(parse_line_i32("1 2"), None);
}

#[test]
fn contains_finds_runs_of_characters() {
    assert!(contains("USB\\VID_8087&PID_0A2A&REV_0001", "PID_0A2A"));
    assert!(contains("abc", ""));
    assert!(contains("abc", "abc"));
    assert!(!contains("abc", "abcd"));
    assert!(!contains("abcab", "ac"));
    assert!(contains("ééx", "éx"));
}

#[test]
fn size_of_u32_gives_the_size_in_bytes() {
    assert_eq!(size_of_u32::<u64>(), 8);
    assert_eq!(size_of_u32::<[u16; 3]>(), 6);
    assert_eq!(size_of_u32::<()>(), 0);
}

#[test]
fn ensure_capacity_doubles_until_large_enough() {
    let mut buf = vec![7u8; 3];
    ensure_capacity(&mut buf, 10);
    assert_eq!(buf, vec![0u8; 12]);
}

#[test]
fn ensure_capacity_leaves_large_buffers_alone() {
    let mut buf = vec![1u8, 2, 3];
    ensure_capacity(&mut buf, 3);
    assert_eq!(buf, vec![1, 2, 3]);
    ensure_capacity(&mut buf, 0);
    assert_eq!(buf, vec![1, 2, 3]);
}

#[test]
fn to_u16_slice_reads_low_byte_first() {
    assert_eq!(to_u16_slice(&[0x41, 0x00, 0x34, 0x12, 0xff]), vec![0x41, 0x1234]);
    assert_eq!(to_u16_slice(&[]), Vec::<u16>::new());
}

#[test]
fn to_u16_bytes_encodes_utf16_with_a_terminator() {
    assert_eq!(to_u16_bytes("Ab"), vec![0x41, 0x62, 0]);
    assert_eq!(to_u16_bytes(""), vec![0]);
    assert_eq!(to_u16_bytes("é😀"), vec![0xe9, 0xd83d, 0xde00, 0]);
    let text = "Rust Window\u{10ffff}";
    let mut expected: Vec<u16> = text.encode_utf16().collect();
    expected.push(0);
    assert_eq!(to_u16_bytes(text), expected);
}

#[test]
fn hresult_from_win32_sets_the_win32_facility() {
    assert_eq!(hresult_from_win32(0), 0);
    assert_eq!(hresult_from_win32(5), -2147024891);
    assert_eq!(hresult_from_win32(259), 0x8007_0103u32 as i32);
    assert_eq!(hresult_from_win32(0x0001_0002), 0x8007_0002u32 as i32);
}

#[test]
fn check_win32_error_fails_on_error_codes() {
    assert_eq!(check_win32_error(0), Ok(()));
    assert_eq!(check_win32_error(5), Err(-2147024891));
}
