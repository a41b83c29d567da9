//! Painting a fence: given the painted sections of a fence of some length,
//! list the sections that are still unpainted, or report that everything
//! is painted.

use vstd::prelude::*;
use vstd::string::*;
use crate::text::{
    i32_text_value, lemma_split_prefix, parse_i32_between, split_on_space,
};

verus! {

/// A section `[start, end)` of the fence.
#[derive(Clone, Copy, Debug)]
pub struct Block {
    pub start: usize,
    pub end: usize,
}

/// One line of the answer.
#[derive(Clone, Copy, Debug, PartialEq, Eq, Structural)]
pub enum FenceLine {
    /// The section `[start, end)` is unpainted.
    Gap { start: usize, end: usize },
    /// The whole fence is painted.
    AllPainted,
}

/// One diagnostic line of the walk over the blocks.
#[derive(Clone, Copy, Debug, PartialEq, Eq, Structural)]
pub enum FenceTrace {
    /// The next merged block `[start, end)` was found.
    Found { start: usize, end: usize },
    /// No block is left; `[start, end)` is the part of the fence still open.
    NoBlocks { start: usize, end: usize },
}

/// The answers and diagnostics of the fence puzzle.
pub struct FenceReport {
    pub answers: Vec<FenceLine>,
    pub trace: Vec<FenceTrace>,
}

/// `a` comes no later than `b` when ordered by start, then by end.
pub open spec fn block_le(a: Block, b: Block) -> bool {
    a.start < b.start || (a.start == b.start && a.end <= b.end)
}

pub open spec fn blocks_sorted(s: Seq<Block>) -> bool {
    forall|i: int, j: int| 0 <= i < j < s.len() ==> block_le(s[i], s[j])
}

/// Merges the blocks from `index` on into a group that currently reaches
/// `reach`, as long as the next block starts no later than the reach.
/// Gives the final reach and the index of the first block left out.
pub open spec fn merge_reach(blocks: Seq<Block>, reach: usize, index: int) -> (usize, int)
    decreases blocks.len() - index,
{
    if index < 0 || index >= blocks.len() || reach < blocks[index].start {
        (reach, index)
    } else {
        merge_reach(
            blocks,
            if reach >= blocks[index].end {
                reach
            } else {
                blocks[index].end
            },
            index + 1,
        )
    }
}

/// The group of overlapping or touching blocks that begins at `start_index`,
/// as one block, with the index just after the group.
pub open spec fn next_block(blocks: Seq<Block>, start_index: int) -> Option<(Block, usize)> {
    if start_index < 0 || start_index >= blocks.len() {
        None
    } else {
        let (reach, next) = merge_reach(blocks, blocks[start_index].end, start_index + 1);
        Some((Block { start: blocks[start_index].start, end: reach }, next as usize))
    }
}

pub proof fn lemma_merge_reach(blocks: Seq<Block>, reach: usize, index: int)
    requires
        0 <= index <= blocks.len(),
    ensures
        index <= merge_reach(blocks, reach, index).1 <= blocks.len(),
        reach <= merge_reach(blocks, reach, index).0,
        forall|k: int|
            #![trigger blocks[k]]
            index <= k < merge_reach(blocks, reach, index).1 ==> blocks[k].end <= merge_reach(
                blocks,
                reach,
                index,
            ).0,
        merge_reach(blocks, reach, index).1 < blocks.len() ==> merge_reach(blocks, reach, index).0
            < blocks[merge_reach(blocks, reach, index).1].start,
    decreases blocks.len() - index,
{
    if index < blocks.len() && reach >= blocks[index].start {
        let r = if reach >= blocks[index].end {
            reach
        } else {
            blocks[index].end
        };
        lemma_merge_reach(blocks, r, index + 1);
    }
}

/// The answer lines for the part of the fence `current`, using the blocks
/// from `index` on.
pub open spec fn fence_lines(current: Block, index: int, length: usize, blocks: Seq<Block>) -> Seq<
    FenceLine,
>
    decreases blocks.len() - index,
{
    if 0 <= index < blocks.len() {
        let (reach, next) = merge_reach(blocks, blocks[index].end, index + 1);
        let block = Block { start: blocks[index].start, end: reach };
        if block.start == 0 && block.end == length {
            seq![FenceLine::AllPainted]
        } else {
            let head = if block.start != current.start {
                seq![FenceLine::Gap { start: current.start, end: block.start }]
            } else {
                Seq::empty()
            };
            proof {
                lemma_merge_reach(blocks, blocks[index].end, index + 1);
            }
            head + fence_lines(Block { start: block.end, end: current.end }, next, length, blocks)
        }
    } else if current.start != length {
        seq![FenceLine::Gap { start: current.start, end: current.end }]
    } else {
        Seq::empty()
    }
}

/// The diagnostic lines of the walk for the part of the fence `current`,
/// using the blocks from `index` on: every merged block found, and the open
/// part once no block is left.
pub open spec fn fence_trace(current: Block, index: int, length: usize, blocks: Seq<Block>) -> Seq<
    FenceTrace,
>
    decreases blocks.len() - index,
{
    if 0 <= index < blocks.len() {
        let (reach, next) = merge_reach(blocks, blocks[index].end, index + 1);
        let block = Block { start: blocks[index].start, end: reach };
        let head = seq![FenceTrace::Found { start: block.start, end: block.end }];
        if block.start == 0 && block.end == length {
            head
        } else {
            proof {
                lemma_merge_reach(blocks, blocks[index].end, index + 1);
            }
            head + fence_trace(Block { start: block.end, end: current.end }, next, length, blocks)
        }
    } else {
        seq![FenceTrace::NoBlocks { start: current.start, end: current.end }]
    }
}

/// The point `x` lies in the closed section of some block with index in
/// `[lo, hi)`.
pub open spec fn covered_closed(blocks: Seq<Block>, lo: int, hi: int, x: int) -> bool {
    exists|k: int| #![trigger blocks[k]] lo <= k < hi && blocks[k].start <= x <= blocks[k].end
}

/// The final reach of a merge is the reach it started with or the end of a
/// block it took in.
proof fn lemma_merge_reach_attained(blocks: Seq<Block>, reach: usize, index: int)
    requires
        0 <= index <= blocks.len(),
    ensures
        merge_reach(blocks, reach, index).0 == reach || exists|k: int|
            #![trigger blocks[k]]
            index <= k < merge_reach(blocks, reach, index).1 && blocks[k].end == merge_reach(
                blocks,
                reach,
                index,
            ).0,
    decreases blocks.len() - index,
{
    if index < blocks.len() && reach >= blocks[index].start {
        let r = if reach >= blocks[index].end {
            reach
        } else {
            blocks[index].end
        };
        lemma_merge_reach_attained(blocks, r, index + 1);
        lemma_merge_reach(blocks, r, index + 1);
        let m = merge_reach(blocks, r, index + 1);
        assert(merge_reach(blocks, reach, index) == m);
        if m.0 == r && r != reach {
            assert(blocks[index].end == m.0);
        } else if m.0 != r {
            let k = choose|k: int| #![trigger blocks[k]] index + 1 <= k < m.1 && blocks[k].end == m.0;
            assert(blocks[k].end == m.0);
        }
    }
}

/// The closed sections of the blocks taken in cover every point from
/// `first` up to the final reach, given that they cover it up to the
/// current reach.
proof fn lemma_merge_reach_covers_closed(
    blocks: Seq<Block>,
    first: int,
    group: int,
    reach: usize,
    index: int,
)
    requires
        0 <= group <= index <= blocks.len(),
        forall|x: int| first <= x <= reach ==> #[trigger] covered_closed(blocks, group, index, x),
    ensures
        forall|x: int|
            first <= x <= merge_reach(blocks, reach, index).0 ==> #[trigger] covered_closed(
                blocks,
                group,
                merge_reach(blocks, reach, index).1,
                x,
            ),
    decreases blocks.len() - index,
{
    if index < blocks.len() && reach >= blocks[index].start {
        let r = if reach >= blocks[index].end {
            reach
        } else {
            blocks[index].end
        };
        assert forall|x: int| first <= x <= r implies #[trigger] covered_closed(blocks, group, index + 1, x) by {
            if x <= reach {
                assert(covered_closed(blocks, group, index, x));
                let k = choose|k: int|
                    #![trigger blocks[k]]
                    group <= k < index && blocks[k].start <= x <= blocks[k].end;
                assert(blocks[k].start <= x <= blocks[k].end);
            } else {
                assert(blocks[index].start <= x <= blocks[index].end);
            }
        }
        lemma_merge_reach_covers_closed(blocks, first, group, r, index + 1);
        assert(merge_reach(blocks, reach, index) == merge_reach(blocks, r, index + 1));
    }
}

/// Merges the group of overlapping or touching blocks that begins at
/// `start_index` into one block; gives it with the index of the first block
/// after the group, or `None` when no block is left.  The merged block
/// starts where the first block of the group starts and ends at the largest
/// end in the group; the closed sections of the group cover it; the block
/// after the group starts beyond its end, and on sorted blocks so do all
/// later ones.
pub fn try_get_next_block(start_index: usize, blocks: &Vec<Block>) -> (r: Option<(Block, usize)>)
    ensures
        r == next_block(blocks@, start_index as int),
        r is None <==> start_index >= blocks@.len(),
        r matches Some((b, next)) ==> {
            &&& start_index < next <= blocks@.len()
            &&& b.start == blocks@[start_index as int].start
            &&& forall|k: int|
                #![trigger blocks@[k]]
                start_index <= k < next ==> blocks@[k].end <= b.end
            &&& exists|k: int|
                #![trigger blocks@[k]]
                start_index <= k < next && blocks@[k].end == b.end
            &&& forall|x: int|
                b.start <= x <= b.end ==> #[trigger] covered_closed(
                    blocks@,
                    start_index as int,
                    next as int,
                    x,
                )
            &&& next < blocks@.len() ==> b.end < blocks@[next as int].start
            &&& blocks_sorted(blocks@) ==> forall|k: int|
                #![trigger blocks@[k]]
                next <= k < blocks@.len() ==> b.end < blocks@[k].start
            &&& blocks_sorted(blocks@) ==> forall|k: int|
                #![trigger blocks@[k]]
                start_index <= k < next ==> b.start <= blocks@[k].start
        },
{
    proof {
        if start_index < blocks@.len() {
            let si = start_index as int;
            let b0 = blocks@[si];
            lemma_merge_reach(blocks@, b0.end, si + 1);
            lemma_merge_reach_attained(blocks@, b0.end, si + 1);
            assert forall|x: int| b0.start <= x <= b0.end implies #[trigger] covered_closed(
                blocks@,
                si,
                si + 1,
                x,
            ) by {
                assert(blocks@[si].start <= x <= blocks@[si].end);
            }
            lemma_merge_reach_covers_closed(blocks@, b0.start as int, si, b0.end, si + 1);
            let m = merge_reach(blocks@, b0.end, si + 1);
            assert(m.1 <= blocks@.len());
            if blocks_sorted(blocks@) {
                assert forall|k: int| #![trigger blocks@[k]] m.1 <= k < blocks@.len() implies m.0
                    < blocks@[k].start by {
                    if k > m.1 {
                        assert(block_le(blocks@[m.1], blocks@[k]));
                    }
                }
                assert forall|k: int| #![trigger blocks@[k]] si <= k < m.1 implies b0.start
                    <= blocks@[k].start by {
                    if k > si {
                        assert(block_le(blocks@[si], blocks@[k]));
                    }
                }
            }
        }
    }
    if start_index >= blocks.len() {
        None
    } else {
        let mut found = false;
        let mut index = start_index + 1;
        let mut result = Block { start: blocks[start_index].start, end: blocks[start_index].end };
        while !found && index < blocks.len()
            invariant
                start_index < blocks@.len(),
                start_index < index <= blocks@.len(),
                result.start == blocks@[start_index as int].start,
                merge_reach(blocks@, result.end, index as int) == merge_reach(
                    blocks@,
                    blocks@[start_index as int].end,
                    start_index + 1,
                ),
                found ==> index < blocks@.len() && result.end < blocks@[index as int].start,
            decreases blocks@.len() - index, if found {
                0int
            } else {
                1int
            },
        {
            let next = &blocks[index];
            if result.end >= next.start {
                let end = if result.end >= next.end {
                    result.end
                } else {
                    next.end
                };
                result = Block { start: result.start, end };
                index += 1;
            } else {
                found = true;
            }
        }
        Some((result, index))
    }
}

/// Appends to `answers` the lines for the part of the fence `current_block`,
/// using the sorted blocks from `index` on, and to `trace` the diagnostic
/// lines of the walk.
pub fn go(
    current_block: &Block,
    index: usize,
    length: usize,
    blocks: &Vec<Block>,
    answers: &mut Vec<FenceLine>,
    trace: &mut Vec<FenceTrace>,
)
    ensures
        final(answers)@ == old(answers)@ + fence_lines(*current_block, index as int, length, blocks@),
        final(trace)@ == old(trace)@ + fence_trace(*current_block, index as int, length, blocks@),
    decreases blocks@.len() - index,
{
    let count = blocks.len();
    match try_get_next_block(index, blocks) {
        Some((block, next_index)) => {
            proof {
                lemma_merge_reach(blocks@, blocks@[index as int].end, index + 1);
                let m = merge_reach(blocks@, blocks@[index as int].end, index + 1);
                assert(m.1 <= count);
                assert(next_index as int == m.1);
                assert(block.end == m.0);
                assert(index < next_index);
            }
            let ghost trace_before = trace@;
            trace.push(FenceTrace::Found { start: block.start, end: block.end });
            if block.start == 0 && block.end == length {
                answers.push(FenceLine::AllPainted);
            } else {
                let ghost before = answers@;
                if block.start != current_block.start {
                    answers.push(FenceLine::Gap { start: current_block.start, end: block.start });
                }
                go(
                    &Block { start: block.end, end: current_block.end },
                    next_index,
                    length,
                    blocks,
                    answers,
                    trace,
                );
                assert(answers@ == before + fence_lines(*current_block, index as int, length, blocks@));
                assert(trace@ == trace_before + fence_trace(
                    *current_block,
                    index as int,
                    length,
                    blocks@,
                ));
            }
        },
        None => {
            trace.push(FenceTrace::NoBlocks { start: current_block.start, end: current_block.end });
            if current_block.start != length {
                answers.push(FenceLine::Gap { start: current_block.start, end: current_block.end });
            }
        },
    }
}

fn block_le_exec(a: &Block, b: &Block) -> (r: bool)
    ensures
        r == block_le(*a, *b),
{
    a.start < b.start || (a.start == b.start && a.end <= b.end)
}

proof fn lemma_insert_to_multiset(s: Seq<Block>, i: int, x: Block)
    requires
        0 <= i <= s.len(),
    ensures
        s.insert(i, x).to_multiset() =~= s.to_multiset().insert(x),
{
    broadcast use vstd::seq_lib::group_to_multiset_ensures;
    broadcast use vstd::multiset::group_multiset_axioms;

    let t = s.insert(i, x);
    assert(t.remove(i) =~= s);
    assert(t[i] == x);
    assert(t.contains(x));
}

/// Sorts the blocks by start, then by end.
pub fn sort_blocks(blocks: &Vec<Block>) -> (sorted: Vec<Block>)
    ensures
        blocks_sorted(sorted@),
        sorted@.to_multiset() =~= blocks@.to_multiset(),
{
    broadcast use vstd::seq_lib::group_to_multiset_ensures;

    let mut sorted: Vec<Block> = Vec::new();
    let mut k: usize = 0;
    while k < blocks.len()
        invariant
            k <= blocks@.len(),
            blocks_sorted(sorted@),
            sorted@.to_multiset() =~= blocks@.take(k as int).to_multiset(),
        decreases blocks@.len() - k,
    {
        let b = blocks[k];
        let mut pos: usize = 0;
        while pos < sorted.len() && block_le_exec(&sorted[pos], &b)
            invariant
                pos <= sorted@.len(),
                forall|q: int| 0 <= q < pos ==> block_le(sorted@[q], b),
            decreases sorted@.len() - pos,
        {
            pos += 1;
        }
        let ghost old_sorted = sorted@;
        sorted.insert(pos, b);
        proof {
            lemma_insert_to_multiset(old_sorted, pos as int, b);
            assert(blocks@.take(k + 1) =~= blocks@.take(k as int).push(b));
            vstd::seq_lib::to_multiset_build(blocks@.take(k as int), b);
            assert(sorted@ == old_sorted.insert(pos as int, b));
            assert(sorted@.to_multiset() =~= blocks@.take(k + 1).to_multiset());
            assert forall|i: int, j: int| 0 <= i < j < sorted@.len() implies block_le(
                sorted@[i],
                sorted@[j],
            ) by {
                if j < pos {
                } else if j == pos {
                } else if i < pos {
                    assert(block_le(old_sorted[i], b));
                    assert(!block_le(old_sorted[pos as int], b));
                    assert(block_le(old_sorted[i], old_sorted[j - 1]));
                } else if i == pos {
                    assert(!block_le(old_sorted[pos as int], b));
                    if j - 1 > pos {
                        assert(block_le(old_sorted[pos as int], old_sorted[j - 1]));
                    }
                } else {
                    assert(block_le(old_sorted[i - 1], old_sorted[j - 1]));
                }
            }
        }
        k += 1;
    }
    assert(blocks@.take(blocks@.len() as int) =~= blocks@);
    sorted
}

/// Cell `x` (the unit section `[x, x + 1)`) lies in some block.
pub open spec fn painted(blocks: Seq<Block>, x: int) -> bool {
    exists|i: int| #![trigger blocks[i]] 0 <= i < blocks.len() && blocks[i].start <= x < blocks[i].end
}

/// Every block is a nonempty section of a fence of `length`.
pub open spec fn blocks_within(blocks: Seq<Block>, length: usize) -> bool {
    forall|i: int| #![trigger blocks[i]] 0 <= i < blocks.len() ==> blocks[i].start < blocks[i].end <= length
}

pub open spec fn all_painted(blocks: Seq<Block>, length: usize) -> bool {
    forall|x: int| 0 <= x < length ==> painted(blocks, x)
}

/// `lines` lists, in order, every maximal unpainted section of
/// `[from, length)`, and nothing else.
pub open spec fn lists_gaps(lines: Seq<FenceLine>, blocks: Seq<Block>, length: usize, from: int) -> bool {
    &&& forall|k: int|
        0 <= k < lines.len() ==> {
            &&& #[trigger] lines[k] is Gap
            &&& from <= lines[k]->start < lines[k]->end <= length
            &&& (lines[k]->start == from || painted(blocks, lines[k]->start - 1))
            &&& (lines[k]->end == length || painted(blocks, lines[k]->end as int))
        }
    &&& forall|k: int, x: int|
        #![trigger lines[k], painted(blocks, x)]
        0 <= k < lines.len() && lines[k]->start <= x < lines[k]->end ==> !painted(blocks, x)
    &&& forall|k: int, m: int|
        #![trigger lines[k], lines[m]]
        0 <= k < m < lines.len() ==> lines[k]->end < lines[m]->start
    &&& forall|x: int|
        from <= x < length && !#[trigger] painted(blocks, x) ==> exists|k: int|
            #![trigger lines[k]]
            0 <= k < lines.len() && lines[k]->start <= x < lines[k]->end
}

proof fn lemma_merge_reach_bound(blocks: Seq<Block>, reach: usize, index: int, bound: int)
    requires
        0 <= index <= blocks.len(),
        reach <= bound,
        forall|i: int| #![trigger blocks[i]] 0 <= i < blocks.len() ==> blocks[i].end <= bound,
    ensures
        merge_reach(blocks, reach, index).0 <= bound,
    decreases blocks.len() - index,
{
    if index < blocks.len() && reach >= blocks[index].start {
        let r = if reach >= blocks[index].end {
            reach
        } else {
            blocks[index].end
        };
        lemma_merge_reach_bound(blocks, r, index + 1, bound);
    }
}

/// Every cell from `first` up to the final reach of a merge is painted,
/// given that every cell from `first` up to the current reach is.
proof fn lemma_merge_reach_covers(blocks: Seq<Block>, first: int, reach: usize, index: int)
    requires
        0 <= index <= blocks.len(),
        forall|x: int| first <= x < reach ==> painted(blocks, x),
    ensures
        forall|x: int| first <= x < merge_reach(blocks, reach, index).0 ==> painted(blocks, x),
    decreases blocks.len() - index,
{
    if index < blocks.len() && reach >= blocks[index].start {
        let r = if reach >= blocks[index].end {
            reach
        } else {
            blocks[index].end
        };
        assert forall|x: int| first <= x < r implies painted(blocks, x) by {
            if x >= reach {
                assert(blocks[index].start <= x < blocks[index].end);
            }
        }
        lemma_merge_reach_covers(blocks, first, r, index + 1);
    }
}

/// The lines produced from a state of the walk over sorted blocks list the
/// unpainted sections from `cs` on, or report that all is painted.
proof fn lemma_fence_lines_gaps(blocks: Seq<Block>, length: usize, cs: usize, idx: int)
    requires
        blocks_sorted(blocks),
        blocks_within(blocks, length),
        cs <= length,
        0 <= idx <= blocks.len(),
        forall|k: int| #![trigger blocks[k]] 0 <= k < idx ==> blocks[k].end <= cs,
        idx < blocks.len() ==> cs <= blocks[idx].start,
    ensures
        ({
            let lines = fence_lines(Block { start: cs, end: length }, idx, length, blocks);
            &&& lines == seq![FenceLine::AllPainted] ==> cs == 0 && all_painted(blocks, length)
            &&& lines != seq![FenceLine::AllPainted] ==> lists_gaps(lines, blocks, length, cs as int)
            &&& (cs == 0 && 0 < length && all_painted(blocks, length)) ==> lines == seq![
                FenceLine::AllPainted,
            ]
        }),
    decreases blocks.len() - idx,
{
    let lines = fence_lines(Block { start: cs, end: length }, idx, length, blocks);
    if idx < blocks.len() {
        let m = merge_reach(blocks, blocks[idx].end, idx + 1);
        let e = m.0;
        let next = m.1;
        let s = blocks[idx].start;
        lemma_merge_reach(blocks, blocks[idx].end, idx + 1);
        lemma_merge_reach_bound(blocks, blocks[idx].end, idx + 1, length as int);
        assert forall|x: int| s <= x < blocks[idx].end implies painted(blocks, x) by {
            assert(blocks[idx].start <= x < blocks[idx].end);
        }
        lemma_merge_reach_covers(blocks, s as int, blocks[idx].end, idx + 1);
        if s == 0 && e == length {
            assert(lines == seq![FenceLine::AllPainted]);
        } else {
            let head = if s != cs {
                seq![FenceLine::Gap { start: cs, end: s }]
            } else {
                Seq::<FenceLine>::empty()
            };
            let rest = fence_lines(Block { start: e, end: length }, next, length, blocks);
            assert(lines == head + rest);
            assert forall|k: int| #![trigger blocks[k]] 0 <= k < next implies blocks[k].end <= e by {
                if k < idx {
                } else if k == idx {
                } else {
                }
            }
            lemma_fence_lines_gaps(blocks, length, e, next);
            assert(e > 0);
            assert(rest != seq![FenceLine::AllPainted]) by {
                if rest == seq![FenceLine::AllPainted] {
                }
            }
            // cells of [cs, s) are unpainted
            assert forall|x: int| cs <= x < s implies !painted(blocks, x) by {
                if painted(blocks, x) {
                    let i = choose|i: int| #![trigger blocks[i]] 0 <= i < blocks.len() && blocks[i].start <= x < blocks[i].end;
                    if i < idx {
                    } else {
                        assert(block_le(blocks[idx], blocks[i]) || i == idx);
                    }
                }
            }
            if s != cs {
                assert(lines[0] == FenceLine::Gap { start: cs, end: s });
                assert(lines != seq![FenceLine::AllPainted]);
            } else {
                assert(lines == rest);
            }
            assert(lines != seq![FenceLine::AllPainted]);
            let off = head.len() as int;
            assert forall|k: int| off <= k < lines.len() implies lines[k] == rest[k - off] by {}
            assert forall|k: int| 0 <= k < lines.len() implies {
                &&& #[trigger] lines[k] is Gap
                &&& cs <= lines[k]->start < lines[k]->end <= length
                &&& (lines[k]->start == cs || painted(blocks, lines[k]->start - 1))
                &&& (lines[k]->end == length || painted(blocks, lines[k]->end as int))
            } by {
                if k < off {
                    assert(painted(blocks, s as int));
                } else {
                    let r = rest[k - off];
                    assert(r is Gap);
                    assert(r->start == e || painted(blocks, r->start - 1));
                    if r->start == e {
                        assert(painted(blocks, e - 1));
                    }
                }
            }
            assert forall|k: int, x: int|
                #![trigger lines[k], painted(blocks, x)]
                0 <= k < lines.len() && lines[k]->start <= x < lines[k]->end implies !painted(
                blocks,
                x,
            ) by {
                if k >= off {
                    assert(rest[k - off]->start <= x < rest[k - off]->end);
                }
            }
            assert forall|k: int, j: int|
                #![trigger lines[k], lines[j]]
                0 <= k < j < lines.len() implies lines[k]->end < lines[j]->start by {
                if k >= off {
                    assert(rest[k - off]->end < rest[j - off]->start);
                } else {
                    assert(rest[j - off] is Gap);
                }
            }
            assert forall|x: int| cs <= x < length && !#[trigger] painted(blocks, x) implies exists|
                k: int,
            |
                #![trigger lines[k]]
                0 <= k < lines.len() && lines[k]->start <= x < lines[k]->end by {
                if x < s {
                    assert(lines[0]->start <= x < lines[0]->end);
                } else if x < e {
                } else {
                    let k = choose|k: int| #![trigger rest[k]] 0 <= k < rest.len() && rest[k]->start <= x < rest[k]->end;
                    assert(lines[k + off] == rest[k]);
                }
            }
            if cs == 0 && 0 < length && all_painted(blocks, length) {
                assert(painted(blocks, 0));
                let i = choose|i: int| #![trigger blocks[i]] 0 <= i < blocks.len() && blocks[i].start <= 0 < blocks[i].end;
                if i >= idx {
                    assert(i == idx || block_le(blocks[idx], blocks[i]));
                }
                assert(s == 0);
                assert(painted(blocks, e as int));
                let j = choose|j: int| #![trigger blocks[j]] 0 <= j < blocks.len() && blocks[j].start <= e < blocks[j].end;
                if j >= next {
                    assert(j == next || block_le(blocks[next], blocks[j]));
                }
                assert(false);
            }
        }
    } else {
        if cs == 0 && 0 < length && all_painted(blocks, length) {
            assert(painted(blocks, 0));
        }
        assert forall|x: int| cs <= x < length implies !painted(blocks, x) by {}
        if cs != length {
            assert(lines == seq![FenceLine::Gap { start: cs, end: length }]);
            assert(lines[0]->start <= cs);
        }
    }
}

/// Multisets that agree give the same painted cells and the same bounds.
proof fn lemma_same_blocks(s: Seq<Block>, t: Seq<Block>, length: usize)
    requires
        s.to_multiset() =~= t.to_multiset(),
    ensures
        forall|x: int| painted(s, x) == painted(t, x),
        blocks_within(s, length) == blocks_within(t, length),
{
    broadcast use vstd::seq_lib::group_to_multiset_ensures;

    assert forall|a: Block| s.contains(a) == t.contains(a) by {
        assert(s.contains(a) == (s.to_multiset().count(a) > 0));
        assert(t.contains(a) == (t.to_multiset().count(a) > 0));
    }
    assert forall|x: int| painted(s, x) implies painted(t, x) by {
        let i = choose|i: int| #![trigger s[i]] 0 <= i < s.len() && s[i].start <= x < s[i].end;
        assert(s.contains(s[i]));
        let j = choose|j: int| #![trigger t[j]] 0 <= j < t.len() && t[j] == s[i];
    }
    assert forall|x: int| painted(t, x) implies painted(s, x) by {
        let i = choose|i: int| #![trigger t[i]] 0 <= i < t.len() && t[i].start <= x < t[i].end;
        assert(t.contains(t[i]));
        let j = choose|j: int| #![trigger s[j]] 0 <= j < s.len() && s[j] == t[i];
    }
    if blocks_within(s, length) {
        assert forall|i: int| #![trigger t[i]] 0 <= i < t.len() implies t[i].start < t[i].end <= length by {
            assert(t.contains(t[i]));
            let j = choose|j: int| #![trigger s[j]] 0 <= j < s.len() && s[j] == t[i];
        }
    }
    if blocks_within(t, length) {
        assert forall|i: int| #![trigger s[i]] 0 <= i < s.len() implies s[i].start < s[i].end <= length by {
            assert(s.contains(s[i]));
            let j = choose|j: int| #![trigger t[j]] 0 <= j < t.len() && t[j] == s[i];
        }
    }
}

/// Answers for a fence of `length` painted over the given blocks: the
/// unpainted sections in order, or that the whole fence is painted.
pub fn fences(length: usize, blocks: &Vec<Block>) -> (report: FenceReport)
    ensures
        exists|s: Seq<Block>|
            blocks_sorted(s) && s.to_multiset() =~= blocks@.to_multiset() && report.answers@
                == fence_lines(Block { start: 0, end: length }, 0, length, s) && report.trace@
                == fence_trace(Block { start: 0, end: length }, 0, length, s),
        (0 < length && blocks_within(blocks@, length)) ==> {
            &&& (report.answers@ == seq![FenceLine::AllPainted] <==> all_painted(blocks@, length))
            &&& report.answers@ != seq![FenceLine::AllPainted] ==> lists_gaps(
                report.answers@,
                blocks@,
                length,
                0,
            )
        },
{
    let sorted = sort_blocks(blocks);
    let mut answers: Vec<FenceLine> = Vec::new();
    let mut trace: Vec<FenceTrace> = Vec::new();
    go(&Block { start: 0, end: length }, 0, length, &sorted, &mut answers, &mut trace);
    proof {
        assert(answers@ =~= fence_lines(Block { start: 0, end: length }, 0, length, sorted@));
        assert(trace@ =~= fence_trace(Block { start: 0, end: length }, 0, length, sorted@));
        lemma_same_blocks(sorted@, blocks@, length);
        if 0 < length && blocks_within(blocks@, length) {
            lemma_fence_lines_gaps(sorted@, length, 0, 0);
        }
    }
    FenceReport { answers, trace }
}

/// The block that a line `"start end"` describes: the line split on single
/// spaces must give at least two pieces, each an `i32`; the first two are the
/// ends, converted to `usize` as `as` does.
pub open spec fn block_of_line(line: Seq<char>) -> Option<Block> {
    let pieces = split_on_space(line);
    if pieces.len() >= 2 && forall|k: int|
        0 <= k < pieces.len() ==> (#[trigger] i32_text_value(pieces[k])) is Some {
        Some(
            Block {
                start: i32_text_value(pieces[0]).unwrap() as usize,
                end: i32_text_value(pieces[1]).unwrap() as usize,
            },
        )
    } else {
        None
    }
}

/// Reads the block that `line` describes, or `None` when it describes none.
pub fn parse_block(line: &str) -> (r: Option<Block>)
    ensures
        r == block_of_line(line@),
{
    let ghost s = line@;
    let n = line.unicode_len();
    let mut values: Vec<i32> = Vec::new();
    let mut start: usize = 0;
    let mut i: usize = 0;
    assert(s.take(0) =~= Seq::<char>::empty());
    while i < n
        invariant
            n == s.len(),
            s == line@,
            start <= i <= n,
            values@.len() + 1 == split_on_space(s.take(i as int)).len(),
            forall|k: int|
                0 <= k < values@.len() ==> i32_text_value(split_on_space(s.take(i as int))[k])
                    == Some(#[trigger] values@[k]),
            split_on_space(s.take(i as int)).last() == s.subrange(start as int, i as int),
        decreases n - i,
    {
        let c = line.get_char(i);
        let ghost before = split_on_space(s.take(i as int));
        proof {
            assert(s.take(i + 1).drop_last() =~= s.take(i as int));
            assert(s.take(i + 1).last() == c);
        }
        if c == ' ' {
            match parse_i32_between(line, start, i) {
                Some(v) => {
                    values.push(v);
                },
                None => {
                    proof {
                        lemma_split_prefix(s, i + 1, n as int);
                        assert(s.take(n as int) =~= s);
                        let pieces = split_on_space(s);
                        assert(pieces[values@.len() - 1 + 1] == split_on_space(s.take(i + 1))[
                            values@.len() as int
                        ]);
                        assert(i32_text_value(pieces[values@.len() as int]) is None);
                    }
                    return None;
                },
            }
            start = i + 1;
            proof {
                assert(s.subrange(start as int, i + 1) =~= Seq::<char>::empty());
            }
        } else {
            proof {
                assert(s.subrange(start as int, i + 1) =~= s.subrange(start as int, i as int).push(c));
            }
        }
        i += 1;
    }
    assert(s.take(n as int) =~= s);
    let pieces = Ghost(split_on_space(s));
    match parse_i32_between(line, start, n) {
        Some(v) => {
            values.push(v);
        },
        None => {
            assert(i32_text_value(pieces@[pieces@.len() - 1]) is None);
            return None;
        },
    }
    assert(values@.len() == pieces@.len());
    assert forall|k: int| 0 <= k < pieces@.len() implies (#[trigger] i32_text_value(pieces@[k]))
        == Some(values@[k]) by {}
    if values.len() < 2 {
        return None;
    }
    Some(Block { start: values[0] as usize, end: values[1] as usize })
}

/// Reads the block that `line` describes; the line must describe one.
pub fn read_block(line: &str) -> (b: Block)
    requires
        block_of_line(line@) is Some,
    ensures
        block_of_line(line@) == Some(b),
{
    match parse_block(line) {
        Some(b) => b,
        None => {
            assert(false);
            Block { start: 0, end: 0 }
        },
    }
}

/// The blocks that `lines` describe, one per line.
pub open spec fn blocks_of_lines(lines: Seq<String>) -> Seq<Block> {
    lines.map_values(|l: String| block_of_line(l@).unwrap())
}

/// Reads one block from each line and sorts them; every line must describe
/// a block.
pub fn read_blocks(lines: &Vec<String>) -> (blocks: Vec<Block>)
    requires
        forall|i: int| 0 <= i < lines@.len() ==> (#[trigger] block_of_line(lines@[i]@)) is Some,
    ensures
        blocks_sorted(blocks@),
        blocks@.to_multiset() =~= blocks_of_lines(lines@).to_multiset(),
{
    let mut read: Vec<Block> = Vec::new();
    let mut k: usize = 0;
    while k < lines.len()
        invariant
            k <= lines@.len(),
            forall|i: int| 0 <= i < lines@.len() ==> (#[trigger] block_of_line(lines@[i]@)) is Some,
            read@ =~= blocks_of_lines(lines@).take(k as int),
        decreases lines@.len() - k,
    {
        let b = read_block(lines[k].as_str());
        read.push(b);
        k += 1;
    }
    assert(blocks_of_lines(lines@).take(lines@.len() as int) =~= blocks_of_lines(lines@));
    sort_blocks(&read)
}

} // verus!
