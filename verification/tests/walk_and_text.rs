use rust_playground::fences::{try_get_next_block, Block};
use rust_playground::paths::path_text;
use rust_playground::walk::DirectoryWalk;

fn wide(text: &str) -> Vec<u16> {
    text.encode_utf16().collect()
}

#[test]
fn directory_walk_adds_subdirectories_into_their_parent() {
    let mut walk = DirectoryWalk::new();
    walk.enter("root".to_string());
    walk.add_file(10);
    walk.enter("root\\a".to_string());
    walk.add_file(5);
    walk.add_file(7);
    assert!(walk.finish_fits());
    walk.finish();
    walk.enter("root\\b".to_string());
    walk.add_file(100);
    walk.abandon();
    walk.enter("root\\c".to_string());
    walk.finish();
    assert_eq!(walk.depth(), 1);
    assert_eq!(walk.current().total_file_size, 22);
    walk.finish();
    assert_eq!(walk.depth(), 0);
    assert_eq!(walk.finished_count(), 3);
    let summary: Vec<(String, u64, u64, u64, u64)> = (0..walk.finished_count())
        .map(|i| {
            let r = walk.finished(i);
            (r.path.clone(), r.own_files, r.own_size, r.total_file_count, r.total_file_size)
        })
        .collect();
    assert_eq!(
        summary,
        vec![
            ("root\\a".to_string(), 2, 12, 2, 12),
            ("root\\c".to_string(), 0, 0, 0, 0),
            ("root".to_string(), 1, 10, 3, 22),
        ]
    );
}

#[test]
fn directory_walk_reports_overflow_before_finishing() {
    let mut walk = DirectoryWalk::new();
    walk.enter("p".to_string());
    walk.add_file(u64::MAX);
    walk.enter("c".to_string());
    walk.add_file(1);
    assert!(!walk.finish_fits());
    walk.abandon();
    assert!(walk.finish_fits());
}

#[test]
fn path_text_decodes_up_to_the_terminator() {
    let mut units = wide("C:\\dir");
    units.push(0);
    units.push(0xd800);
    assert_eq!(path_text(&units), Some("C:\\dir".to_string()));
    assert_eq!(path_text(&[0xd83d, 0xde00]), Some("😀".to_string()));
}

#[test]
fn path_text_rejects_lone_surrogates() {
    assert_eq!(path_text(&[0x41, 0xd800, 0x42, 0]), None);
    assert_eq!(path_text(&[0xdc00]), None);
}

#[test]
fn try_get_next_block_gives_the_largest_end_of_the_group() {
    let blocks = vec![
        Block { start: 1, end: 8 },
        Block { start: 3, end: 4 },
        Block { start: 8, end: 9 },
        Block { start: 12, end: 13 },
    ];
    let (b, next) = try_get_next_block(0, &blocks).unwrap();
    assert_eq!((b.start, b.end, next), (1, 9, 3));
    assert!(b.end < blocks[next].start);
}
