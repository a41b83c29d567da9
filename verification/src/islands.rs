//! Counting islands in a grid given row by row.
//!
//! The grid is a flat slice of cells, `row_length` cells per row.  A run
//! is a maximal horizontal stretch of cells equal to `1`.  Every run of the
//! first row is an island; a run of a later row is a new island exactly when
//! every cell right above it, in the previous row, is `0`.

use vstd::prelude::*;

verus! {

/// One past the last index of the stretch of `1` cells that starts at `j`.
pub open spec fn run_end(row: Seq<usize>, j: int) -> int
    decreases row.len() - j,
{
    if j < 0 || j >= row.len() || row[j] != 1 {
        j
    } else {
        run_end(row, j + 1)
    }
}

/// A run of `1` cells begins at `j`.
pub open spec fn starts_run(row: Seq<usize>, j: int) -> bool {
    &&& 0 <= j < row.len()
    &&& row[j] == 1
    &&& (j == 0 || row[j - 1] != 1)
}

/// Every cell of `prev` in `[lo, hi)` is `0`.
pub open spec fn clear_between(prev: Seq<usize>, lo: int, hi: int) -> bool {
    forall|k: int| lo <= k < hi ==> prev[k] == 0
}

/// The run that starts at `j` counts as a new island: either there is no
/// previous row, or the previous row is `0` under the whole run.
pub open spec fn is_new_island(row: Seq<usize>, prev: Option<Seq<usize>>, j: int) -> bool {
    &&& starts_run(row, j)
    &&& match prev {
        None => true,
        Some(p) => clear_between(p, j, run_end(row, j)),
    }
}

/// Number of new islands whose run starts before index `n`.
pub open spec fn count_new_islands(row: Seq<usize>, prev: Option<Seq<usize>>, n: int) -> nat
    decreases n,
{
    if n <= 0 {
        0
    } else {
        count_new_islands(row, prev, n - 1) + if is_new_island(row, prev, n - 1) {
            1nat
        } else {
            0nat
        }
    }
}

/// New islands of the rows that begin at `start`, `start + w`, ... of `grid`,
/// each measured against the row before it.
pub open spec fn islands_from(grid: Seq<usize>, w: nat, start: nat) -> nat
    decreases grid.len() - start,
{
    if w == 0 || start < w || start + w > grid.len() {
        0
    } else {
        count_new_islands(
            grid.subrange(start as int, (start + w) as int),
            Some(grid.subrange((start - w) as int, start as int)),
            w as int,
        ) + islands_from(grid, w, start + w)
    }
}

/// Number of islands of the grid: every run of the first row, plus the new
/// islands of every later row.
pub open spec fn island_count(grid: Seq<usize>, w: nat) -> nat {
    if w == 0 || grid.len() < w {
        0
    } else {
        count_new_islands(grid.subrange(0, w as int), None, w as int) + islands_from(grid, w, w)
    }
}

proof fn lemma_run_end(row: Seq<usize>, j: int)
    requires
        0 <= j <= row.len(),
    ensures
        j <= run_end(row, j) <= row.len(),
        forall|k: int| j <= k < run_end(row, j) ==> row[k] == 1,
        run_end(row, j) < row.len() ==> row[run_end(row, j)] != 1,
    decreases row.len() - j,
{
    if j < row.len() && row[j] == 1 {
        lemma_run_end(row, j + 1);
    }
}

proof fn lemma_run_end_inside(row: Seq<usize>, j: int, i: int)
    requires
        0 <= j <= i <= row.len(),
        forall|k: int| j <= k < i ==> row[k] == 1,
    ensures
        run_end(row, j) == run_end(row, i),
    decreases i - j,
{
    if j < i {
        lemma_run_end_inside(row, j + 1, i);
    }
}

proof fn lemma_count_bound(row: Seq<usize>, prev: Option<Seq<usize>>, n: int)
    requires
        n >= 0,
    ensures
        count_new_islands(row, prev, n) <= n,
    decreases n,
{
    if n > 0 {
        lemma_count_bound(row, prev, n - 1);
    }
}

/// Inside a run no new run starts, so the count does not move past the
/// run's first cell.
proof fn lemma_count_across_run(row: Seq<usize>, prev: Option<Seq<usize>>, j: int, m: int)
    requires
        starts_run(row, j),
        j < m <= run_end(row, j),
    ensures
        count_new_islands(row, prev, m) == count_new_islands(row, prev, j) + if is_new_island(
            row,
            prev,
            j,
        ) {
            1nat
        } else {
            0nat
        },
    decreases m - j,
{
    lemma_run_end(row, j);
    if m > j + 1 {
        lemma_count_across_run(row, prev, j, m - 1);
        assert(row[m - 2] == 1);
        assert(!starts_run(row, m - 1));
    }
}

/// A row of water cells holds no island.
proof fn lemma_count_water_row(row: Seq<usize>, prev: Option<Seq<usize>>, n: int)
    requires
        n <= row.len(),
        forall|k: int| 0 <= k < row.len() ==> #[trigger] row[k] == 0,
    ensures
        count_new_islands(row, prev, n) == 0,
    decreases n,
{
    if n > 0 {
        lemma_count_water_row(row, prev, n - 1);
        assert(!starts_run(row, n - 1));
    }
}

/// Below a row of water every run is a new island, as in a first row.
proof fn lemma_count_under_water(row: Seq<usize>, water: Seq<usize>, n: int)
    requires
        n <= row.len(),
        water.len() == row.len(),
        forall|k: int| 0 <= k < water.len() ==> #[trigger] water[k] == 0,
    ensures
        count_new_islands(row, Some(water), n) == count_new_islands(row, None, n),
    decreases n,
{
    if n > 0 {
        lemma_count_under_water(row, water, n - 1);
        if starts_run(row, n - 1) {
            lemma_run_end(row, n - 1);
        }
    }
}

/// The rows of `g` from `start` on that lie inside its first part `a` count
/// as in `a`; the rest counts from the end of `a`.
proof fn lemma_islands_from_prefix(g: Seq<usize>, a: Seq<usize>, w: nat, start: nat)
    requires
        w > 0,
        w <= start <= a.len() <= g.len(),
        a == g.subrange(0, a.len() as int),
        (a.len() - start) as int % (w as int) == 0,
    ensures
        islands_from(g, w, start) == islands_from(a, w, start) + islands_from(g, w, a.len()),
    decreases a.len() - start,
{
    if start < a.len() {
        let rest = a.len() - start;
        assert(rest >= w && (rest - w) % (w as int) == 0) by (nonlinear_arith)
            requires
                rest % (w as int) == 0,
                rest > 0,
                w > 0,
        ;
        let st = start as int;
        let wi = w as int;
        assert(g.subrange(st, st + wi) =~= a.subrange(st, st + wi));
        assert(g.subrange(st - wi, st) =~= a.subrange(st - wi, st));
        lemma_islands_from_prefix(g, a, w, start + w);
    }
}

/// The rows of `g` from `offset + start` on count as the rows of `b` from
/// `start` on, when `b` is the part of `g` from `offset` on.
proof fn lemma_islands_from_suffix(g: Seq<usize>, b: Seq<usize>, w: nat, offset: nat, start: nat)
    requires
        w > 0,
        w <= start <= b.len(),
        offset + b.len() == g.len(),
        b == g.subrange(offset as int, g.len() as int),
        (b.len() - start) as int % (w as int) == 0,
    ensures
        islands_from(g, w, offset + start) == islands_from(b, w, start),
    decreases b.len() - start,
{
    if start < b.len() {
        let rest = b.len() - start;
        assert(rest >= w && (rest - w) % (w as int) == 0) by (nonlinear_arith)
            requires
                rest % (w as int) == 0,
                rest > 0,
                w > 0,
        ;
        let st = start as int;
        let wi = w as int;
        let o = offset as int;
        assert(g.subrange(o + st, o + st + wi) =~= b.subrange(st, st + wi));
        assert(g.subrange(o + st - wi, o + st) =~= b.subrange(st - wi, st));
        lemma_islands_from_suffix(g, b, w, offset, start + w);
    } else {
        assert(islands_from(g, w, offset + start) == 0);
    }
}

/// A row of water between two grids of the same width keeps them apart: the
/// islands of the whole are the islands of the top grid and of the bottom
/// grid together.
pub proof fn lemma_island_count_split(a: Seq<usize>, b: Seq<usize>, w: nat)
    requires
        w > 0,
        a.len() >= w,
        (a.len() as int) % (w as int) == 0,
        b.len() >= w,
        (b.len() as int) % (w as int) == 0,
    ensures
        island_count(a + Seq::new(w, |i: int| 0usize) + b, w) == island_count(a, w) + island_count(
            b,
            w,
        ),
{
    let water = Seq::new(w, |i: int| 0usize);
    let g = a + water + b;
    let n = a.len();
    assert(g.subrange(0, w as int) =~= a.subrange(0, w as int));
    assert(a =~= g.subrange(0, n as int));
    assert((n - w) as int % (w as int) == 0) by (nonlinear_arith)
        requires
            (n as int) % (w as int) == 0,
            n >= w,
            w > 0,
    ;
    lemma_islands_from_prefix(g, a, w, w);
    // the water row
    let ni = n as int;
    let wi = w as int;
    let water_row = g.subrange(ni, ni + wi);
    assert(water_row =~= water);
    lemma_count_water_row(water_row, Some(g.subrange(ni - wi, ni)), wi);
    // the first row of b, under the water row
    let first_b = g.subrange(ni + wi, ni + 2 * wi);
    assert(first_b =~= b.subrange(0, wi));
    lemma_count_under_water(first_b, water, wi);
    assert(b =~= g.subrange(ni + wi, g.len() as int));
    let bl = b.len();
    assert((bl - w) as int % (w as int) == 0) by (nonlinear_arith)
        requires
            (bl as int) % (w as int) == 0,
            bl >= w,
            w > 0,
    ;
    lemma_islands_from_suffix(g, b, w, n + w, w);
    assert(islands_from(g, w, n + w) == count_new_islands(first_b, Some(water), wi)
        + islands_from(g, w, n + 2 * w));
    assert(islands_from(g, w, n) == 0 + islands_from(g, w, n + w));
}

/// First index of the stretch of `1` cells that ends at `j`.
pub open spec fn run_begin(row: Seq<usize>, j: int) -> int
    decreases j,
{
    if j > 0 && j < row.len() && row[j] == 1 && row[j - 1] == 1 {
        run_begin(row, j - 1)
    } else {
        j
    }
}

/// A run of `1` cells ends at `j`.
pub open spec fn ends_run(row: Seq<usize>, j: int) -> bool {
    &&& 0 <= j < row.len()
    &&& row[j] == 1
    &&& (j == row.len() - 1 || row[j + 1] != 1)
}

/// The run that ends at `j` counts as a new island.
pub open spec fn is_new_island_end(row: Seq<usize>, prev: Option<Seq<usize>>, j: int) -> bool {
    &&& ends_run(row, j)
    &&& match prev {
        None => true,
        Some(p) => clear_between(p, run_begin(row, j), j + 1),
    }
}

/// Number of new islands whose run ends before index `n`.
pub open spec fn count_island_ends(row: Seq<usize>, prev: Option<Seq<usize>>, n: int) -> nat
    decreases n,
{
    if n <= 0 {
        0
    } else {
        count_island_ends(row, prev, n - 1) + if is_new_island_end(row, prev, n - 1) {
            1nat
        } else {
            0nat
        }
    }
}

proof fn lemma_run_begin(row: Seq<usize>, j: int)
    requires
        0 <= j < row.len(),
        row[j] == 1,
    ensures
        0 <= run_begin(row, j) <= j,
        forall|k: int| run_begin(row, j) <= k <= j ==> row[k] == 1,
        run_begin(row, j) == 0 || row[run_begin(row, j) - 1] != 1,
    decreases j,
{
    if j > 0 && row[j - 1] == 1 {
        lemma_run_begin(row, j - 1);
    }
}

/// The run `[j, e)` is the one run with its cells all `1` and a cell that is
/// not `1` (or the end of the row) right after it.
proof fn lemma_run_end_is(row: Seq<usize>, j: int, e: int)
    requires
        0 <= j <= e <= row.len(),
        forall|k: int| j <= k < e ==> row[k] == 1,
        e == row.len() || row[e] != 1,
    ensures
        run_end(row, j) == e,
{
    lemma_run_end_inside(row, j, e);
}

/// Counting runs by their first cell or by their last cell gives the same
/// number once the whole row is counted; in between, a run that has started
/// but not ended is counted by its first cell only.
proof fn lemma_starts_and_ends(row: Seq<usize>, prev: Option<Seq<usize>>, n: int)
    requires
        0 <= n <= row.len(),
    ensures
        count_new_islands(row, prev, n) == count_island_ends(row, prev, n) + if 0 < n < row.len()
            && row[n - 1] == 1 && row[n] == 1 && is_new_island(row, prev, run_begin(row, n - 1)) {
            1nat
        } else {
            0nat
        },
    decreases n,
{
    if n > 0 {
        let m = n - 1;
        lemma_starts_and_ends(row, prev, m);
        if row[m] == 1 {
            lemma_run_begin(row, m);
            let j = run_begin(row, m);
            if m > 0 && row[m - 1] == 1 {
                assert(run_begin(row, m) == run_begin(row, m - 1));
            }
            assert(starts_run(row, j));
            if ends_run(row, m) {
                lemma_run_end_is(row, j, m + 1);
            }
        }
    }
}

/// Every cell of `row` from `a` to `b`, both included, is `1`: the cells
/// `a` and `b` lie in one stretch of land.
pub open spec fn land_between(row: Seq<usize>, a: int, b: int) -> bool {
    &&& 0 <= a <= b < row.len()
    &&& forall|q: int| a <= q <= b ==> row[q] == 1
}

/// Counting one more cell adds one island exactly when that cell is land,
/// the cell before it is not, and (below a previous row) every cell of the
/// previous row above the stretch of land that starts there is `0`; a
/// single land cell above any cell of the stretch means no new island.
pub proof fn lemma_new_island_step(row: Seq<usize>, prev: Option<Seq<usize>>, j: int)
    requires
        0 <= j < row.len(),
    ensures
        count_new_islands(row, prev, j + 1) == count_new_islands(row, prev, j) + if row[j] == 1
            && (j == 0 || row[j - 1] != 1) && match prev {
            None => true,
            Some(p) => forall|k: int| #[trigger] land_between(row, j, k) ==> p[k] == 0,
        } {
            1nat
        } else {
            0nat
        },
{
    if row[j] == 1 {
        lemma_run_end(row, j);
        let e = run_end(row, j);
        match prev {
            None => {},
            Some(p) => {
                if clear_between(p, j, e) {
                    assert forall|k: int| #[trigger] land_between(row, j, k) implies p[k] == 0 by {
                        if k >= e {
                            assert(row[e] == 1);
                        }
                    }
                }
                if forall|k: int| #[trigger] land_between(row, j, k) ==> p[k] == 0 {
                    assert forall|k: int| j <= k < e implies p[k] == 0 by {
                        assert(land_between(row, j, k));
                    }
                }
            },
        }
    }
}

/// Under a previous row that has land above some cell of every run of
/// `row`, the row adds no island.
pub proof fn lemma_no_island_under_land(row: Seq<usize>, p: Seq<usize>, n: int)
    requires
        0 <= n <= row.len(),
        forall|j: int|
            0 <= j < row.len() && #[trigger] row[j] == 1 && (j == 0 || row[j - 1] != 1) ==> exists|k: int|
                #[trigger] land_between(row, j, k) && p[k] != 0,
    ensures
        count_new_islands(row, Some(p), n) == 0,
    decreases n,
{
    if n > 0 {
        lemma_no_island_under_land(row, p, n - 1);
        lemma_new_island_step(row, Some(p), n - 1);
    }
}

/// A row whose every run touches land in the row above it adds no island
/// to that row: the two rows together hold as many islands as the top row.
pub proof fn lemma_row_under_land(top: Seq<usize>, bottom: Seq<usize>)
    requires
        top.len() > 0,
        bottom.len() == top.len(),
        forall|j: int|
            0 <= j < bottom.len() && #[trigger] bottom[j] == 1 && (j == 0 || bottom[j - 1] != 1)
                ==> exists|k: int| #[trigger] land_between(bottom, j, k) && top[k] != 0,
    ensures
        island_count(top + bottom, top.len()) == island_count(top, top.len()),
{
    let g = top + bottom;
    let w = top.len();
    let wi = w as int;
    assert(g.subrange(0, wi) =~= top);
    assert(top.subrange(0, wi) =~= top);
    assert(g.subrange(wi, 2 * wi) =~= bottom);
    lemma_no_island_under_land(bottom, top, wi);
    assert(islands_from(g, w, 2 * w) == 0);
    assert(islands_from(top, w, w) == 0);
}

/// Counting one more cell adds one island, counted by its last cell,
/// exactly when that cell is land, the cell after it is not, and (below a
/// previous row) every cell of the previous row above the stretch of land
/// that ends there is `0`.
pub proof fn lemma_island_end_step(row: Seq<usize>, prev: Option<Seq<usize>>, j: int)
    requires
        0 <= j < row.len(),
    ensures
        count_island_ends(row, prev, j + 1) == count_island_ends(row, prev, j) + if row[j] == 1
            && (j == row.len() - 1 || row[j + 1] != 1) && match prev {
            None => true,
            Some(p) => forall|k: int| #[trigger] land_between(row, k, j) ==> p[k] == 0,
        } {
            1nat
        } else {
            0nat
        },
{
    if row[j] == 1 {
        lemma_run_begin(row, j);
        let b = run_begin(row, j);
        match prev {
            None => {},
            Some(p) => {
                if clear_between(p, b, j + 1) {
                    assert forall|k: int| #[trigger] land_between(row, k, j) implies p[k] == 0 by {
                        if k < b {
                            assert(row[b - 1] == 1);
                        }
                    }
                }
                if forall|k: int| #[trigger] land_between(row, k, j) ==> p[k] == 0 {
                    assert forall|k: int| b <= k < j + 1 implies p[k] == 0 by {
                        assert(land_between(row, k, j));
                    }
                }
            },
        }
    }
}

/// Reverses a previous row, when there is one.
pub open spec fn reverse_prev(prev: Option<Seq<usize>>) -> Option<Seq<usize>> {
    match prev {
        None => None,
        Some(p) => Some(p.reverse()),
    }
}

/// A run of the reversed row starting at `k` is the run of the row ending
/// at the mirrored cell, and it is new in both or in neither.
proof fn lemma_mirrored_run(row: Seq<usize>, prev: Option<Seq<usize>>, k: int)
    requires
        0 <= k < row.len(),
        prev matches Some(p) ==> p.len() == row.len(),
    ensures
        is_new_island(row.reverse(), reverse_prev(prev), k) == is_new_island_end(
            row,
            prev,
            row.len() - 1 - k,
        ),
{
    let len = row.len() as int;
    let r = row.reverse();
    let j = len - 1 - k;
    assert(r[k] == row[j]);
    if k > 0 {
        assert(r[k - 1] == row[j + 1]);
    }
    assert(starts_run(r, k) == ends_run(row, j));
    if ends_run(row, j) {
        lemma_run_begin(row, j);
        let b = run_begin(row, j);
        let e = len - b;
        assert forall|q: int| k <= q < e implies r[q] == 1 by {
            assert(r[q] == row[len - 1 - q]);
        }
        if e < len {
            assert(r[e] == row[b - 1]);
        }
        lemma_run_end_is(r, k, e);
        match prev {
            None => {},
            Some(p) => {
                let rp = p.reverse();
                if clear_between(p, b, j + 1) {
                    assert forall|q: int| k <= q < e implies rp[q] == 0 by {
                        assert(rp[q] == p[len - 1 - q]);
                    }
                }
                if clear_between(rp, k, e) {
                    assert forall|q: int| b <= q < j + 1 implies p[q] == 0 by {
                        assert(rp[len - 1 - q] == p[q]);
                    }
                }
            },
        }
    }
}

proof fn lemma_count_mirrored_prefix(row: Seq<usize>, prev: Option<Seq<usize>>, n: int)
    requires
        0 <= n <= row.len(),
        prev matches Some(p) ==> p.len() == row.len(),
    ensures
        count_new_islands(row.reverse(), reverse_prev(prev), n) == count_island_ends(
            row,
            prev,
            row.len() as int,
        ) - count_island_ends(row, prev, row.len() - n),
    decreases n,
{
    if n > 0 {
        lemma_count_mirrored_prefix(row, prev, n - 1);
        lemma_mirrored_run(row, prev, n - 1);
    }
}

/// Reversing a row and the row before it keeps the number of new islands.
pub proof fn lemma_count_reversed_row(row: Seq<usize>, prev: Option<Seq<usize>>)
    requires
        prev matches Some(p) ==> p.len() == row.len(),
    ensures
        count_new_islands(row.reverse(), reverse_prev(prev), row.len() as int) == count_new_islands(
            row,
            prev,
            row.len() as int,
        ),
{
    lemma_count_mirrored_prefix(row, prev, row.len() as int);
    lemma_starts_and_ends(row, prev, row.len() as int);
}

/// Every row of `m` is the matching row of `g` reversed.
pub open spec fn rows_reversed(g: Seq<usize>, m: Seq<usize>, w: nat) -> bool {
    &&& m.len() == g.len()
    &&& forall|s: int|
        0 <= s && s + w <= g.len() && s % (w as int) == 0 ==> #[trigger] m.subrange(s, s + w)
            == g.subrange(s, s + w).reverse()
}

proof fn lemma_islands_from_reversed(g: Seq<usize>, m: Seq<usize>, w: nat, start: nat)
    requires
        w > 0,
        start >= w,
        (start as int) % (w as int) == 0,
        rows_reversed(g, m, w),
    ensures
        islands_from(m, w, start) == islands_from(g, w, start),
    decreases g.len() - start,
{
    if start + w <= g.len() {
        let st = start as int;
        let wi = w as int;
        vstd::arithmetic::div_mod::lemma_mod_add_multiples_vanish(st, wi);
        vstd::arithmetic::div_mod::lemma_mod_sub_multiples_vanish(st, wi);
        assert((st - wi) % wi == 0 && (st + wi) % wi == 0);
        let before = st - wi;
        assert(m.subrange(st, st + wi) == g.subrange(st, st + wi).reverse());
        assert(m.subrange(before, before + wi) == g.subrange(before, before + wi).reverse());
        lemma_count_reversed_row(g.subrange(st, st + wi), Some(g.subrange(st - wi, st)));
        lemma_islands_from_reversed(g, m, w, start + w);
    }
}

/// Reversing every row of a grid keeps its number of islands.
pub proof fn lemma_island_count_reversed_rows(g: Seq<usize>, m: Seq<usize>, w: nat)
    requires
        w > 0,
        rows_reversed(g, m, w),
    ensures
        island_count(m, w) == island_count(g, w),
{
    if g.len() >= w {
        let first: int = 0;
        assert(first % (w as int) == 0);
        assert(m.subrange(first, first + w) == g.subrange(first, first + w).reverse());
        lemma_count_reversed_row(g.subrange(0, w as int), None);
        vstd::arithmetic::div_mod::lemma_mod_self_0(w as int);
        lemma_islands_from_reversed(g, m, w, w);
    }
}

/// Counts the new islands of the row of `w` cells starting at `row_start`,
/// measured against the row starting at `prev_start` when there is one.
fn count_row_islands(islands: &[usize], row_start: usize, prev_start: Option<usize>, w: usize) -> (count: usize)
    requires
        row_start + w <= islands@.len(),
        prev_start matches Some(p) ==> p + w <= islands@.len(),
    ensures
        count == count_new_islands(
            islands@.subrange(row_start as int, row_start + w),
            match prev_start {
                Some(p) => Some(islands@.subrange(p as int, p + w)),
                None => None,
            },
            w as int,
        ),
        count <= w,
{
    let ghost row = islands@.subrange(row_start as int, row_start + w);
    let ghost prev = match prev_start {
        Some(p) => Some(islands@.subrange(p as int, p + w)),
        None => None,
    };
    let cells = islands.len();
    let mut count: usize = 0;
    let mut i: usize = 0;
    while i < w
        invariant
            row_start + w <= islands@.len(),
            prev_start matches Some(p) ==> p + w <= islands@.len(),
            row == islands@.subrange(row_start as int, row_start + w),
            prev == (match prev_start {
                Some(p) => Some(islands@.subrange(p as int, p + w)),
                None => None,
            }),
            cells == islands@.len(),
            i <= w,
            0 < i < w ==> row[i - 1] != 1,
            count == count_new_islands(row, prev, i as int),
            count <= i,
        decreases w - i,
    {
        if islands[row_start + i] == 1 {
            let ghost j = i as int;
            let mut is_island = true;
            proof {
                lemma_run_end(row, j);
            }
            while i < w && islands[row_start + i] == 1
                invariant
                    row_start + w <= islands@.len(),
                    cells == islands@.len(),
                    prev_start matches Some(p) ==> p + w <= islands@.len(),
                    row == islands@.subrange(row_start as int, row_start + w),
                    prev == (match prev_start {
                        Some(p) => Some(islands@.subrange(p as int, p + w)),
                        None => None,
                    }),
                    j <= i <= w,
                    forall|k: int| j <= k < i ==> row[k] == 1,
                    is_island == (match prev {
                        None => true,
                        Some(p) => clear_between(p, j, i as int),
                    }),
                decreases w - i,
            {
                match prev_start {
                    Some(p) => {
                        let ghost before = is_island;
                        is_island = is_island && islands[p + i] == 0;
                        proof {
                            let pr = islands@.subrange(p as int, p + w);
                            assert(pr[i as int] == islands@[p + i]);
                            assert(is_island == clear_between(pr, j, i + 1));
                        }
                    },
                    None => {},
                }
                i += 1;
            }
            proof {
                lemma_run_end_inside(row, j, i as int);
                lemma_run_end(row, i as int);
                assert(run_end(row, j) == i);
                assert(starts_run(row, j));
                assert(is_island == is_new_island(row, prev, j));
                lemma_count_across_run(row, prev, j, i as int);
                lemma_count_bound(row, prev, j);
            }
            if is_island {
                count += 1;
            }
            proof {
                if i < w {
                    assert(!starts_run(row, i as int));
                }
            }
            if i < w {
                i += 1;
            }
        } else {
            proof {
                assert(!starts_run(row, i as int));
            }
            i += 1;
        }
    }
    count
}

/// Counts the islands of a grid of `row_length` cells per row: every run of
/// `1` cells in the first row, and every run of a later row under which the
/// previous row holds only `0` cells.
pub fn solve(islands: &[usize], row_length: usize) -> (count: usize)
    requires
        row_length <= islands@.len(),
        row_length > 0 || islands@.len() == 0,
        row_length > 0 ==> (islands@.len() as int) % (row_length as int) == 0,
    ensures
        count == island_count(islands@, row_length as nat),
{
    if row_length == 0 {
        return 0;
    }
    let mut islands_count = count_row_islands(islands, 0, None, row_length);
    let mut next_row_start = row_length;
    assert((islands@.len() - row_length) % (row_length as int) == 0) by (nonlinear_arith)
        requires
            (islands@.len() as int) % (row_length as int) == 0,
            row_length > 0,
            row_length <= islands@.len(),
    ;
    while next_row_start < islands.len()
        invariant
            row_length > 0,
            row_length <= next_row_start <= islands@.len(),
            (islands@.len() - next_row_start) % (row_length as int) == 0,
            islands_count <= next_row_start,
            islands_count + islands_from(islands@, row_length as nat, next_row_start as nat)
                == island_count(islands@, row_length as nat),
        decreases islands@.len() - next_row_start,
    {
        let ghost rest = islands@.len() - next_row_start;
        assert(rest >= row_length && (rest - row_length) % (row_length as int) == 0) by (nonlinear_arith)
            requires
                rest % (row_length as int) == 0,
                rest > 0,
                row_length > 0,
        ;
        let c = count_row_islands(islands, next_row_start, Some(next_row_start - row_length), row_length);
        islands_count += c;
        next_row_start += row_length;
    }
    islands_count
}

} // verus!
