use rust_playground::file_stats::{
    entry_kind, file_size, finish_listing, format_byte_count_string, handle_eq, is_invalid_handle,
    largest_first, main_path_units, should_skip_file, EntryKind, EnumerateFilesResult,
};
use rust_playground::paths::{
    add_pcwstr_to_path_buffer, trim_path_buffer, u16_to_string, u16_to_zero_terminated_slice,
    PathBuffer,
};

fn wide(text: &str) -> Vec<u16> {
    text.encode_utf16().collect()
}

#[test]
fn add_pcwstr_to_path_buffer_appends_with_a_separator() {
    let mut buf = vec![67, 58, 0];
    add_pcwstr_to_path_buffer(&wide("ab"), &mut buf);
    assert_eq!(buf, vec![67, 58, 92, 97, 98, 0]);
}

#[test]
fn add_pcwstr_to_path_buffer_starts_an_empty_buffer() {
    let mut buf = Vec::new();
    add_pcwstr_to_path_buffer(&wide("C:"), &mut buf);
    assert_eq!(buf, vec![67, 58, 0]);
}

#[test]
fn add_pcwstr_to_path_buffer_with_an_empty_name_keeps_the_path() {
    let mut buf = vec![67, 58, 0];
    add_pcwstr_to_path_buffer(&[], &mut buf);
    assert_eq!(buf, vec![67, 58, 0]);
}

#[test]
fn trim_path_buffer_takes_off_and_terminates() {
    let mut buf = vec![67, 58, 92, 97, 98, 0];
    trim_path_buffer(&mut buf, 3);
    assert_eq!(buf, vec![67, 58, 0]);
}

#[test]
fn path_buffer_drop_restores_the_path() {
    let mut buf = wide("C:\\dir");
    buf.push(0);
    let before = buf.clone();
    let added = PathBuffer::from_pwcstr_and_path_buffer(&wide("*"), &mut buf);
    assert_eq!(added.trim_len, 2);
    let mut expected = wide("C:\\dir\\*");
    expected.push(0);
    assert_eq!(buf, expected);
    added.drop(&mut buf);
    assert_eq!(buf, before);
}

#[test]
fn u16_to_zero_terminated_slice_stops_at_the_first_zero() {
    assert_eq!(u16_to_zero_terminated_slice(&[104, 105, 0, 120, 0]), &[104, 105]);
    assert_eq!(u16_to_zero_terminated_slice(&[104, 105]), &[104, 105]);
    assert_eq!(u16_to_zero_terminated_slice(&[0, 1]), &[] as &[u16]);
}

#[test]
fn u16_to_string_decodes_up_to_the_terminator() {
    assert_eq!(u16_to_string(&[0x48, 0x69, 0, 0x41]), "Hi");
    assert_eq!(u16_to_string(&[0xd83d, 0xde00, 0x21]), "😀!");
}

#[test]
fn u16_to_string_replaces_lone_surrogates() {
    assert_eq!(u16_to_string(&[0x48, 0xd800, 0x69, 0]), "H\u{fffd}i");
    assert_eq!(u16_to_string(&[0xdc00, 0xd800]), "\u{fffd}\u{fffd}");
}

#[test]
fn format_byte_count_string_picks_the_unit() {
    assert_eq!(format_byte_count_string(0), "0b");
    assert_eq!(format_byte_count_string(999), "999b");
    assert_eq!(format_byte_count_string(1000), "1kb");
    assert_eq!(format_byte_count_string(1536), "1kb");
    assert_eq!(format_byte_count_string(2_500_000), "2mb");
    assert_eq!(format_byte_count_string(7_000_000_000), "7gb");
    assert_eq!(format_byte_count_string(999_999_999_999), "999gb");
}

#[test]
fn enumerate_files_result_counts_files_and_children() {
    let mut child = EnumerateFilesResult::new("C:\\a\\b".to_string());
    child.add_file(1500);
    child.add_file(500);
    let mut parent = EnumerateFilesResult::new("C:\\a".to_string());
    parent.add_file(10);
    parent.add_child(&child);
    assert_eq!(parent.own_files, 1);
    assert_eq!(parent.own_size, 10);
    assert_eq!(parent.total_file_count, 3);
    assert_eq!(parent.total_file_size, 2010);
    assert_eq!(
        parent.report(),
        "Path: C:\\a\nTotal file count: 3\nTotal file size: 2kb\nOwn size: 10b\nOwn files: 1\n"
    );
}

#[test]
fn should_skip_file_only_on_access_denied() {
    assert!(should_skip_file(Some(-2147024891)));
    assert!(!should_skip_file(Some(-2147024894)));
    assert!(!should_skip_file(None));
}

#[test]
fn entry_kind_tells_directories_from_files() {
    assert_eq!(entry_kind(0x10, 46), EntryKind::DotDirectory);
    assert_eq!(entry_kind(0x30, 97), EntryKind::Directory);
    assert_eq!(entry_kind(0x20, 46), EntryKind::File);
    assert_eq!(entry_kind(0, 97), EntryKind::File);
}

#[test]
fn file_size_joins_the_halves() {
    assert_eq!(file_size(1, 2), 4_294_967_298);
    assert_eq!(file_size(0, 77), 77);
    assert_eq!(file_size(u32::MAX, u32::MAX), u64::MAX);
}

#[test]
fn finish_listing_accepts_the_normal_end() {
    assert_eq!(finish_listing(18), Ok(()));
    assert_eq!(finish_listing(0), Ok(()));
    assert_eq!(finish_listing(5), Err(-2147024891));
}

#[test]
fn main_path_units_drops_trailing_separators() {
    let mut expected = wide("C:\\dir");
    expected.push(0);
    assert_eq!(main_path_units("C:\\dir\\\\"), expected);
    assert_eq!(main_path_units("C:\\dir"), expected);
    assert_eq!(main_path_units("\\\\"), vec![0]);
}

#[test]
fn largest_first_orders_by_size_then_position() {
    let sizes = vec![5, 9, 5, 1, 9];
    assert_eq!(largest_first(&sizes, 3), vec![1, 4, 0]);
    assert_eq!(largest_first(&sizes, 10), vec![1, 4, 0, 2, 3]);
    assert_eq!(largest_first(&sizes, 0), Vec::<usize>::new());
}

#[test]
fn handles_compare_by_value() {
    assert!(is_invalid_handle(-1));
    assert!(!is_invalid_handle(42));
    assert!(handle_eq(7, 7));
    assert!(!handle_eq(7, 8));
}

#[test]
fn numbers_are_written_with_all_their_digits() {
    assert_eq!(format_byte_count_string(123_456), "123kb");
    assert_eq!(format_byte_count_string(10), "10b");
    let mut result = EnumerateFilesResult::new("d".to_string());
    for _ in 0..1234 {
        result.add_file(0);
    }
    assert_eq!(
        result.report(),
        "Path: d\nTotal file count: 1234\nTotal file size: 0b\nOwn size: 0b\nOwn files: 1234\n"
    );
}
