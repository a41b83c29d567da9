use rust_playground::fences::{
    fences, go, parse_block, read_block, read_blocks, sort_blocks, try_get_next_block, Block,
    FenceLine, FenceTrace,
};
use rust_playground::islands::solve;

fn block(start: usize, end: usize) -> Block {
    Block { start, end }
}

fn pairs(blocks: &[Block]) -> Vec<(usize, usize)> {
    blocks.iter().map(|b| (b.start, b.end)).collect()
}

#[test]
fn solve_counts_runs_of_the_first_row() {
    assert_eq!(solve(&[1, 0, 1, 1, 0, 1], 6), 3);
}

#[test]
fn solve_skips_runs_touching_the_row_above() {
    let grid = [1, 1, 0, 0, 1, 0, 0, 0, 1];
    assert_eq!(solve(&grid, 3), 2);
}

#[test]
fn solve_counts_runs_under_empty_rows() {
    let grid = [1, 0, 1, 0, 0, 0, 1, 1, 1];
    assert_eq!(solve(&grid, 3), 3);
}

#[test]
fn solve_counts_diagonal_neighbours_as_new() {
    assert_eq!(solve(&[1, 0, 0, 1], 2), 2);
}

#[test]
fn solve_blocks_runs_under_cells_that_are_not_zero() {
    assert_eq!(solve(&[0, 2, 0, 1], 2), 0);
    assert_eq!(solve(&[2, 1, 2, 0], 2), 1);
}

#[test]
fn solve_of_an_empty_grid_is_zero() {
    assert_eq!(solve(&[], 0), 0);
    assert_eq!(solve(&[0, 0, 0, 0], 2), 0);
}

#[test]
fn try_get_next_block_merges_overlapping_and_touching_blocks() {
    let blocks = vec![block(1, 3), block(2, 5), block(5, 6), block(8, 9)];
    let (b, next) = try_get_next_block(0, &blocks).unwrap();
    assert_eq!((b.start, b.end, next), (1, 6, 3));
    let (b, next) = try_get_next_block(3, &blocks).unwrap();
    assert_eq!((b.start, b.end, next), (8, 9, 4));
    assert!(try_get_next_block(4, &blocks).is_none());
}

#[test]
fn try_get_next_block_keeps_the_largest_end() {
    let blocks = vec![block(0, 9), block(2, 4)];
    let (b, next) = try_get_next_block(0, &blocks).unwrap();
    assert_eq!((b.start, b.end, next), (0, 9, 2));
}

#[test]
fn fences_lists_the_unpainted_sections() {
    let blocks = vec![block(1, 3), block(2, 5), block(7, 10)];
    assert_eq!(
        fences(10, &blocks).answers,
        vec![FenceLine::Gap { start: 0, end: 1 }, FenceLine::Gap { start: 5, end: 7 }]
    );
}

#[test]
fn fences_sorts_the_blocks_first() {
    let blocks = vec![block(7, 10), block(1, 3)];
    assert_eq!(
        fences(10, &blocks).answers,
        vec![FenceLine::Gap { start: 0, end: 1 }, FenceLine::Gap { start: 3, end: 7 }]
    );
}

#[test]
fn fences_reports_all_painted() {
    let blocks = vec![block(3, 5), block(0, 3)];
    assert_eq!(fences(5, &blocks).answers, vec![FenceLine::AllPainted]);
}

#[test]
fn fences_without_blocks_has_one_gap() {
    assert_eq!(fences(4, &Vec::new()).answers, vec![FenceLine::Gap { start: 0, end: 4 }]);
}

#[test]
fn fences_ends_with_the_trailing_gap() {
    let blocks = vec![block(0, 2)];
    assert_eq!(fences(6, &blocks).answers, vec![FenceLine::Gap { start: 2, end: 6 }]);
}

#[test]
fn fences_of_an_empty_fence_says_nothing() {
    assert_eq!(fences(0, &Vec::new()).answers, Vec::<FenceLine>::new());
}

#[test]
fn go_appends_to_what_is_there() {
    let blocks = vec![block(2, 4)];
    let mut answers = vec![FenceLine::AllPainted];
    let mut trace = Vec::new();
    go(&block(0, 6), 0, 6, &blocks, &mut answers, &mut trace);
    assert_eq!(
        trace,
        vec![FenceTrace::Found { start: 2, end: 4 }, FenceTrace::NoBlocks { start: 4, end: 6 }]
    );
    assert_eq!(
        answers,
        vec![
            FenceLine::AllPainted,
            FenceLine::Gap { start: 0, end: 2 },
            FenceLine::Gap { start: 4, end: 6 }
        ]
    );
}

#[test]
fn sort_blocks_orders_by_start_then_end() {
    let blocks = vec![block(5, 9), block(1, 4), block(1, 2), block(5, 6)];
    assert_eq!(pairs(&sort_blocks(&blocks)), vec![(1, 2), (1, 4), (5, 6), (5, 9)]);
}

#[test]
fn parse_block_reads_two_numbers() {
    let b = parse_block("3 7").unwrap();
    assert_eq!((b.start, b.end), (3, 7));
    let b = read_block("12 40 99");
    assert_eq!((b.start, b.end), (12, 40));
}

#[test]
fn parse_block_converts_negative_numbers_as_as_does() {
    let b = parse_block("-1 5").unwrap();
    assert_eq!((b.start, b.end), (usize::MAX, 5));
}

#[test]
fn parse_block_rejects_malformed_lines() {
    assert!(parse_block("5").is_none());
    assert!(parse_block("3  7").is_none());
    assert!(parse_block("3 7\n").is_none());
    assert!(parse_block("3 x").is_none());
    assert!(parse_block("").is_none());
}

#[test]
fn read_blocks_reads_and_sorts() {
    let lines = vec!["5 9".to_string(), "1 2".to_string()];
    assert_eq!(pairs(&read_blocks(&lines)), vec![(1, 2), (5, 9)]);
}

#[test]
fn fences_traces_every_merged_block() {
    let blocks = vec![block(1, 3), block(2, 5), block(7, 10)];
    assert_eq!(
        fences(10, &blocks).trace,
        vec![
            FenceTrace::Found { start: 1, end: 5 },
            FenceTrace::Found { start: 7, end: 10 },
            FenceTrace::NoBlocks { start: 10, end: 10 }
        ]
    );
    let painted = vec![block(0, 5)];
    assert_eq!(fences(5, &painted).trace, vec![FenceTrace::Found { start: 0, end: 5 }]);
    assert_eq!(fences(3, &Vec::new()).trace, vec![FenceTrace::NoBlocks { start: 0, end: 3 }]);
}

#[test]
fn solve_adds_up_across_a_row_of_water() {
    let a = vec![1, 0, 1, 0, 1, 0];
    let b = vec![1, 1, 0, 0, 0, 1];
    let whole = [a.clone(), vec![0, 0, 0], b.clone()].concat();
    assert_eq!(solve(&whole, 3), solve(&a, 3) + solve(&b, 3));
    assert_eq!(solve(&whole, 3), 5);
}

#[test]
fn solve_is_unchanged_by_reversing_every_row() {
    let grid = vec![1, 1, 0, 0, 1, 1, 1, 0, 1];
    let mirrored = vec![0, 1, 1, 1, 1, 0, 1, 0, 1];
    assert_eq!(solve(&grid, 3), 2);
    assert_eq!(solve(&mirrored, 3), solve(&grid, 3));
}
