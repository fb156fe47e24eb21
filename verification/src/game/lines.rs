//! Four-in-a-row detection on a 42-bit occupancy mask.
//!
//! Cell `file + WIDTH * rank` of the grid is bit `file + WIDTH * rank` of
//! the mask; rank 0 is the bottom row.

use vstd::prelude::*;

verus! {

/// Number of files (columns) of the grid.
pub const WIDTH: usize = 7;

/// Number of ranks (rows) of the grid.
pub const HEIGHT: usize = 6;

/// Number of cells of the grid.
pub const MAX_INDEX: usize = WIDTH * HEIGHT;

/// Whether cell `index` is set in the occupancy mask `bb`.
pub open spec fn cell_set(bb: u64, index: int) -> bool {
    0 <= index < 64 && (bb >> (index as u64)) & 1 == 1
}

/// Whether the four cells `start`, `start + stride`, `start + 2 * stride`
/// and `start + 3 * stride` are all set in `bb`.
pub open spec fn four_set(bb: u64, start: int, stride: int) -> bool {
    &&& cell_set(bb, start)
    &&& cell_set(bb, start + stride)
    &&& cell_set(bb, start + 2 * stride)
    &&& cell_set(bb, start + 3 * stride)
}

/// How many cells in a row are set when stepping down from `index` by
/// `stride`, not counting `index` itself and taking at most `limit` steps.
pub open spec fn run_below(bb: u64, index: int, stride: int, limit: nat) -> nat
    decreases limit,
{
    if limit == 0 || !cell_set(bb, index - stride) {
        0
    } else {
        1 + run_below(bb, index - stride, stride, (limit - 1) as nat)
    }
}

/// A vertical four ends at `index`: the cell and the three below it.
pub open spec fn vertical_win(bb: u64, index: int) -> bool {
    index >= 3 * WIDTH && four_set(bb, index - 3 * WIDTH, WIDTH as int)
}

proof fn lemma_vertical_mask(bb: u64, s: u64)
    by (bit_vector)
    requires
        s <= 20,
    ensures
        ((bb >> s) & 0x204081 == 0x204081) == ((bb >> s) & 1 == 1 && (bb >> ((s + 7) as u64)) & 1
            == 1 && (bb >> ((s + 14) as u64)) & 1 == 1 && (bb >> ((s + 21) as u64)) & 1 == 1),
{
}

/// Tests for a vertical four whose top cell is `index`.
pub fn check_vertical(bb: u64, index: usize) -> (won: bool)
    requires
        index < MAX_INDEX,
    ensures
        won == vertical_win(bb, index as int),
{
    if index < 3 * WIDTH {
        return false;
    }
    let base: usize = index - (WIDTH * 3);
    proof {
        lemma_vertical_mask(bb, base as u64);
    }
    (bb >> base) & 0x204081 == 0x204081
}

/// Left end of the unbroken run of set cells that leads up to `index` from
/// the left in its rank.
pub open spec fn horizontal_start(bb: u64, index: int) -> int {
    index - run_below(bb, index, 1, (index % 7) as nat)
}

/// A horizontal four is found from the left end of the run through
/// `index`: the four cells from there rightwards are set and lie in one
/// rank.
pub open spec fn horizontal_win(bb: u64, index: int) -> bool {
    let start = horizontal_start(bb, index);
    start % 7 <= 3 && four_set(bb, start, 1)
}

/// The smaller of two naturals.
pub open spec fn least(a: int, b: int) -> nat {
    if a <= b {
        a as nat
    } else {
        b as nat
    }
}

/// The four cells `start`, `start + stride`, `start + 2 * stride` and
/// `start + 3 * stride` lie on the grid and in one line of it: side by
/// side in a rank, one above the other in a file, or on a diagonal.
pub open spec fn line_on_grid(start: int, stride: int) -> bool {
    &&& 0 <= start
    &&& start + 3 * stride < MAX_INDEX
    &&& {
        ||| stride == 1 && start % 7 <= 3
        ||| stride == 7
        ||| stride == 8 && start % 7 <= 3
        ||| stride == 6 && start % 7 >= 3
    }
}

/// Whether `index` is one of the four cells of the line that starts at
/// `start`.
pub open spec fn on_line(index: int, start: int, stride: int) -> bool {
    ||| index == start
    ||| index == start + stride
    ||| index == start + 2 * stride
    ||| index == start + 3 * stride
}

/// The line that starts at `start` is a line of the grid, its four cells
/// are set, and `index` is one of them.
pub open spec fn four_through(bb: u64, index: int, start: int, stride: int) -> bool {
    line_on_grid(start, stride) && four_set(bb, start, stride) && on_line(index, start, stride)
}

/// Some line of the grid with the given stride has its four cells set
/// and holds `index`.
pub open spec fn line_through(bb: u64, index: int, stride: int) -> bool {
    exists|start: int| #[trigger] four_through(bb, index, start, stride)
}

/// The line that starts at `start` is a diagonal of the grid, rising or
/// falling, and its four cells are set.
pub open spec fn diagonal_four(bb: u64, start: int, stride: int) -> bool {
    (stride == 6 || stride == 8) && line_on_grid(start, stride) && four_set(bb, start, stride)
}

/// Some diagonal four starts below cell `n`.
pub open spec fn diagonal_four_below(bb: u64, n: int) -> bool {
    exists|start: int, stride: int| start < n && #[trigger] diagonal_four(bb, start, stride)
}

/// A diagonal four is found at `index`: four set cells on one diagonal
/// of the grid, with `index` among them if the cell `index` is set. Where
/// the cell is clear, there is no piece to go by, and any diagonal four of
/// the mask counts.
pub open spec fn diagonal_win(bb: u64, index: int) -> bool {
    if cell_set(bb, index) {
        line_through(bb, index, 8) || line_through(bb, index, 6)
    } else {
        diagonal_four_below(bb, MAX_INDEX as int)
    }
}

/// How far a run can go down from `index` on the diagonal with the given
/// stride before it leaves the grid.
pub open spec fn walk_limit(index: int, stride: int) -> nat {
    if stride == 8 {
        least(index % 7, index / 7)
    } else {
        least(6 - index % 7, index / 7)
    }
}

/// Lower end of the unbroken run of set cells that leads up to `index`
/// along the diagonal with the given stride.
pub open spec fn diagonal_start(bb: u64, index: int, stride: int) -> int {
    index - stride * run_below(bb, index, stride, walk_limit(index, stride))
}

/// A run is no longer than the steps allowed.
pub proof fn lemma_run_bound(bb: u64, index: int, stride: int, limit: nat)
    ensures
        run_below(bb, index, stride, limit) <= limit,
    decreases limit,
{
    if limit > 0 && cell_set(bb, index - stride) {
        lemma_run_bound(bb, index - stride, stride, (limit - 1) as nat);
    }
}

/// Every cell of a run is set.
pub proof fn lemma_run_is_set(bb: u64, index: int, stride: int, limit: nat, step: int)
    requires
        1 <= step <= run_below(bb, index, stride, limit),
    ensures
        cell_set(bb, index - step * stride),
    decreases limit,
{
    if step > 1 {
        lemma_run_is_set(bb, index - stride, stride, (limit - 1) as nat, step - 1);
        assert(index - stride - (step - 1) * stride == index - step * stride) by (nonlinear_arith);
    }
}

/// A run to the left reaches at least as far as cells are set without
/// a gap.
pub proof fn lemma_run_reaches(bb: u64, index: int, limit: nat, steps: nat)
    requires
        steps <= limit,
        forall|i: int| index - steps <= i < index ==> #[trigger] cell_set(bb, i),
    ensures
        run_below(bb, index, 1, limit) >= steps,
    decreases steps,
{
    if steps > 0 {
        assert(cell_set(bb, index - 1));
        lemma_run_reaches(bb, index - 1, (limit - 1) as nat, (steps - 1) as nat);
    }
}

/// A run reaches at least three cells down if those three are set, two if
/// the nearer two are, one if the nearest is.
pub proof fn lemma_run_reaches_three(bb: u64, index: int, stride: int, limit: nat, steps: int)
    requires
        0 <= steps <= 3,
        steps <= limit,
        steps >= 1 ==> cell_set(bb, index - stride),
        steps >= 2 ==> cell_set(bb, index - 2 * stride),
        steps >= 3 ==> cell_set(bb, index - 3 * stride),
    ensures
        run_below(bb, index, stride, limit) >= steps,
    decreases steps,
{
    if steps > 0 {
        lemma_run_reaches_three(bb, index - stride, stride, (limit - 1) as nat, steps - 1);
    }
}

/// File and rank of the cell `k` steps up a rising diagonal from `cell`,
/// or down for negative `k`.
pub proof fn lemma_rising_step(cell: int, k: int)
    requires
        0 <= cell,
        0 <= cell % 7 + k <= 6,
        0 <= cell / 7 + k,
    ensures
        (cell + 8 * k) % 7 == cell % 7 + k,
        (cell + 8 * k) / 7 == cell / 7 + k,
{
}

/// File and rank of the cell `k` steps up a falling diagonal from `cell`,
/// or down for negative `k`.
pub proof fn lemma_falling_step(cell: int, k: int)
    requires
        0 <= cell,
        0 <= cell % 7 - k <= 6,
        0 <= cell / 7 + k,
    ensures
        (cell + 6 * k) % 7 == cell % 7 - k,
        (cell + 6 * k) / 7 == cell / 7 + k,
{
}

/// The four cells from the lower end of a run through a set cell are set
/// if some four on the same diagonal, `back` steps below the cell at
/// most, holds the cell.
proof fn lemma_run_end_is_set(bb: u64, index: int, stride: int, limit: nat, a: int)
    requires
        stride == 6 || stride == 8,
        cell_set(bb, index),
        four_set(bb, a, stride),
        on_line(index, a, stride),
        run_below(bb, index, stride, limit) * stride >= index - a,
    ensures
        four_set(bb, index - stride * run_below(bb, index, stride, limit), stride),
{
    let run = run_below(bb, index, stride, limit) as int;
    if run >= 1 {
        lemma_run_is_set(bb, index, stride, limit, run);
    }
    if run >= 2 {
        lemma_run_is_set(bb, index, stride, limit, run - 1);
    }
    if run >= 3 {
        lemma_run_is_set(bb, index, stride, limit, run - 2);
    }
    if run >= 4 {
        lemma_run_is_set(bb, index, stride, limit, run - 3);
    }
}

/// On a rising diagonal, the four from the lower end of the run through a
/// set cell are set and on the grid exactly if some rising four holds the
/// cell.
pub proof fn lemma_rising_run_decides(bb: u64, index: int)
    requires
        0 <= index < MAX_INDEX,
        cell_set(bb, index),
    ensures
        diagonal_four(bb, diagonal_start(bb, index, 8), 8) == line_through(bb, index, 8),
{
    let limit = walk_limit(index, 8);
    let run = run_below(bb, index, 8, limit) as int;
    let up = diagonal_start(bb, index, 8);
    lemma_run_bound(bb, index, 8, limit);
    lemma_rising_step(index, -run);
    if line_through(bb, index, 8) {
        let a = choose|a: int| #[trigger] four_through(bb, index, a, 8);
        let j = (index - a) / 8;
        assert(index == a + 8 * j && 0 <= j <= 3);
        lemma_rising_step(a, j);
        lemma_run_reaches_three(bb, index, 8, limit, j);
        lemma_run_end_is_set(bb, index, 8, limit, a);
        assert(diagonal_four(bb, up, 8));
    }
    if diagonal_four(bb, up, 8) {
        if run <= 3 {
            assert(four_through(bb, index, up, 8));
        } else {
            lemma_run_is_set(bb, index, 8, limit, 1);
            lemma_run_is_set(bb, index, 8, limit, 2);
            lemma_run_is_set(bb, index, 8, limit, 3);
            lemma_rising_step(index, -3);
            assert(four_through(bb, index, index - 24, 8));
        }
    }
}

/// On a falling diagonal, the four from the lower end of the run through
/// a set cell are set and on the grid exactly if some falling four holds
/// the cell.
pub proof fn lemma_falling_run_decides(bb: u64, index: int)
    requires
        0 <= index < MAX_INDEX,
        cell_set(bb, index),
    ensures
        diagonal_four(bb, diagonal_start(bb, index, 6), 6) == line_through(bb, index, 6),
{
    let limit = walk_limit(index, 6);
    let run = run_below(bb, index, 6, limit) as int;
    let down = diagonal_start(bb, index, 6);
    lemma_run_bound(bb, index, 6, limit);
    lemma_falling_step(index, -run);
    if line_through(bb, index, 6) {
        let a = choose|a: int| #[trigger] four_through(bb, index, a, 6);
        let j = (index - a) / 6;
        assert(index == a + 6 * j && 0 <= j <= 3);
        lemma_falling_step(a, j);
        lemma_run_reaches_three(bb, index, 6, limit, j);
        lemma_run_end_is_set(bb, index, 6, limit, a);
        assert(diagonal_four(bb, down, 6));
    }
    if diagonal_four(bb, down, 6) {
        if run <= 3 {
            assert(four_through(bb, index, down, 6));
        } else {
            lemma_run_is_set(bb, index, 6, limit, 1);
            lemma_run_is_set(bb, index, 6, limit, 2);
            lemma_run_is_set(bb, index, 6, limit, 3);
            lemma_falling_step(index, -3);
            assert(four_through(bb, index, index - 18, 6));
        }
    }
}

/// A diagonal four through a set cell is found, and where a diagonal win
/// is found at a set cell, some diagonal four holds the cell.
pub proof fn lemma_diagonal_four_is_found(bb: u64, index: int)
    requires
        cell_set(bb, index),
    ensures
        diagonal_win(bb, index) == (exists|start: int, stride: int|
            (stride == 6 || stride == 8) && #[trigger] four_through(bb, index, start, stride)),
{
    if line_through(bb, index, 8) {
        let a = choose|a: int| #[trigger] four_through(bb, index, a, 8);
        assert(four_through(bb, index, a, 8));
    }
    if line_through(bb, index, 6) {
        let a = choose|a: int| #[trigger] four_through(bb, index, a, 6);
        assert(four_through(bb, index, a, 6));
    }
}

/// At a set cell, the horizontal test succeeds exactly if four set cells
/// side by side in one rank hold the cell.
pub proof fn lemma_horizontal_win_is_line(bb: u64, index: int)
    requires
        0 <= index < MAX_INDEX,
        cell_set(bb, index),
    ensures
        horizontal_win(bb, index) == line_through(bb, index, 1),
{
    if horizontal_win(bb, index) {
        let file = (index % 7) as nat;
        let start = horizontal_start(bb, index);
        lemma_run_bound(bb, index, 1, file);
        if index <= start + 3 {
            assert(four_through(bb, index, start, 1));
        } else {
            lemma_run_is_set(bb, index, 1, file, 1);
            lemma_run_is_set(bb, index, 1, file, 2);
            lemma_run_is_set(bb, index, 1, file, 3);
            assert(four_through(bb, index, index - 3, 1));
        }
    }
    if line_through(bb, index, 1) {
        let a = choose|a: int| #[trigger] four_through(bb, index, a, 1);
        lemma_horizontal_four_is_found(bb, index, a);
    }
}

/// Some line of the grid, in a rank, in a file or on a diagonal, has its
/// four cells set and holds `index`.
pub open spec fn four_in_line_through(bb: u64, index: int) -> bool {
    exists|start: int, stride: int| #[trigger] four_through(bb, index, start, stride)
}

/// For a piece that has nothing above it, the three tests together find a
/// win exactly if the piece lies in a line of four: four set cells side by
/// side, one above the other or on a diagonal, all on the grid.
pub proof fn lemma_tests_find_fours(bb: u64, index: int)
    requires
        0 <= index < MAX_INDEX,
        cell_set(bb, index),
        !cell_set(bb, index + 7),
    ensures
        (vertical_win(bb, index) || horizontal_win(bb, index) || diagonal_win(bb, index))
            == four_in_line_through(bb, index),
{
    lemma_diagonal_four_is_found(bb, index);
    if vertical_win(bb, index) {
        assert(four_through(bb, index, index - 21, 7));
    }
    lemma_horizontal_win_is_line(bb, index);
    if horizontal_win(bb, index) {
        let a = choose|a: int| #[trigger] four_through(bb, index, a, 1);
        assert(four_through(bb, index, a, 1));
    }
    if diagonal_win(bb, index) {
        let (a, stride) = choose|a: int, stride: int|
            (stride == 6 || stride == 8) && #[trigger] four_through(bb, index, a, stride);
        assert(four_through(bb, index, a, stride));
    }
    if four_in_line_through(bb, index) {
        let (a, stride) = choose|a: int, stride: int| #[trigger]
            four_through(bb, index, a, stride);
        if stride == 1 {
            lemma_horizontal_four_is_found(bb, index, a);
        } else if stride == 7 {
            assert(index == a + 21);
        } else {
            assert(four_through(bb, index, a, stride));
        }
    }
}

/// A win is only found where four cells of the mask are set in one line
/// of the grid.
pub proof fn lemma_win_is_four_in_line(bb: u64, index: int)
    requires
        0 <= index < MAX_INDEX,
        vertical_win(bb, index) || horizontal_win(bb, index) || diagonal_win(bb, index),
    ensures
        exists|start: int, stride: int|
            line_on_grid(start, stride) && #[trigger] four_set(bb, start, stride),
{
    if vertical_win(bb, index) {
        assert(line_on_grid(index - 21, 7) && four_set(bb, index - 21, 7));
    } else if horizontal_win(bb, index) {
        let start = horizontal_start(bb, index);
        lemma_run_bound(bb, index, 1, (index % 7) as nat);
        assert(line_on_grid(start, 1) && four_set(bb, start, 1));
    } else if cell_set(bb, index) {
        if line_through(bb, index, 8) {
            let a = choose|a: int| #[trigger] four_through(bb, index, a, 8);
            assert(line_on_grid(a, 8) && four_set(bb, a, 8));
        } else {
            let a = choose|a: int| #[trigger] four_through(bb, index, a, 6);
            assert(line_on_grid(a, 6) && four_set(bb, a, 6));
        }
    } else {
        let (a, stride) = choose|a: int, stride: int|
            a < MAX_INDEX && #[trigger] diagonal_four(bb, a, stride);
        assert(line_on_grid(a, stride) && four_set(bb, a, stride));
    }
}

/// A horizontal four through a set cell is found: if `index` is one of
/// four cells side by side in one rank that are all set, the horizontal
/// test made at `index` succeeds.
pub proof fn lemma_horizontal_four_is_found(bb: u64, index: int, start: int)
    requires
        0 <= start <= index <= start + 3,
        index < MAX_INDEX,
        start % 7 <= 3,
        start / 7 == index / 7,
        four_set(bb, start, 1),
    ensures
        horizontal_win(bb, index),
{
    let file = (index % 7) as nat;
    let left = horizontal_start(bb, index);
    lemma_run_bound(bb, index, 1, file);
    lemma_run_reaches(bb, index, file, (index - start) as nat);
    assert(left <= start);
    if left < index {
        lemma_run_is_set(bb, index, 1, file, index - left);
    }
    if left + 1 < index {
        lemma_run_is_set(bb, index, 1, file, index - (left + 1));
    }
    if left + 2 < index {
        lemma_run_is_set(bb, index, 1, file, index - (left + 2));
    }
    if left + 3 < index {
        lemma_run_is_set(bb, index, 1, file, index - (left + 3));
    }
    assert(four_set(bb, left, 1));
}

proof fn lemma_horizontal_mask(bb: u64, s: u64)
    by (bit_vector)
    requires
        s <= 41,
    ensures
        ((bb >> s) & 0xF == 0xF) == ((bb >> s) & 1 == 1 && (bb >> ((s + 1) as u64)) & 1 == 1 && (bb
            >> ((s + 2) as u64)) & 1 == 1 && (bb >> ((s + 3) as u64)) & 1 == 1),
{
}

proof fn lemma_rising_mask(bb: u64, s: u64)
    by (bit_vector)
    requires
        s <= 39,
    ensures
        ((bb >> s) & 0x1010101 == 0x1010101) == ((bb >> s) & 1 == 1 && (bb >> ((s + 8) as u64)) & 1
            == 1 && (bb >> ((s + 16) as u64)) & 1 == 1 && (bb >> ((s + 24) as u64)) & 1 == 1),
{
}

proof fn lemma_falling_mask(bb: u64, s: u64)
    by (bit_vector)
    requires
        s <= 41,
    ensures
        ((bb >> s) & 0x41041 == 0x41041) == ((bb >> s) & 1 == 1 && (bb >> ((s + 6) as u64)) & 1 == 1
            && (bb >> ((s + 12) as u64)) & 1 == 1 && (bb >> ((s + 18) as u64)) & 1 == 1),
{
}

/// Walks down from `index` in steps of `stride` while the cells met are
/// set, at most `limit` steps, and returns the last set cell met (`index`
/// itself when the first step already meets a clear cell).
fn run_start(bb: u64, index: usize, stride: usize, limit: usize) -> (start: usize)
    requires
        index < MAX_INDEX,
        stride * limit <= index,
    ensures
        start == index - stride * run_below(bb, index as int, stride as int, limit as nat),
        start <= index,
{
    let mut start: usize = index;
    let mut step: usize = 0;
    proof {
        if 0 < limit {
            assert(stride <= stride * limit) by (nonlinear_arith)
                requires
                    0 < limit,
            ;
        }
    }
    while step < limit && (bb >> (start - stride)) & 1 == 1
        invariant
            index < MAX_INDEX,
            stride * limit <= index,
            step <= limit,
            start == index - stride * step,
            stride * step <= stride * limit,
            step < limit ==> stride * step + stride <= index,
            run_below(bb, index as int, stride as int, limit as nat) == step + run_below(
                bb,
                start as int,
                stride as int,
                (limit - step) as nat,
            ),
        decreases limit - step,
    {
        start = start - stride;
        step = step + 1;
        proof {
            assert(stride * step == stride * (step - 1) + stride) by (nonlinear_arith);
            assert(stride * step <= stride * limit) by (nonlinear_arith)
                requires
                    step <= limit,
            ;
            if step < limit {
                assert(stride * step + stride <= stride * limit) by (nonlinear_arith)
                    requires
                        step < limit,
                ;
            }
        }
    }
    start
}

/// Tests for a horizontal four through the run of set cells that ends at
/// `index`; a run that would cross into the next rank does not count.
pub fn check_horizontal(bb: u64, index: usize) -> (won: bool)
    requires
        index < MAX_INDEX,
    ensures
        won == horizontal_win(bb, index as int),
{
    let file: usize = index % WIDTH;
    let start: usize = run_start(bb, index, 1, file);
    proof {
        lemma_horizontal_mask(bb, start as u64);
    }
    start % WIDTH <= 3 && (bb >> start) & 0xF == 0xF
}

/// Tests the four cells of the rising diagonal that starts at `start`,
/// if they lie on the grid.
fn rising_four(bb: u64, start: usize) -> (all: bool)
    requires
        start < MAX_INDEX,
    ensures
        all == diagonal_four(bb, start as int, 8),
{
    if start % 7 <= 3 && start / 7 <= 2 {
        proof {
            lemma_rising_mask(bb, start as u64);
        }
        (bb >> start) & 0x1010101 == 0x1010101
    } else {
        false
    }
}

/// Tests the four cells of the falling diagonal that starts at `start`,
/// if they lie on the grid.
fn falling_four(bb: u64, start: usize) -> (all: bool)
    requires
        start < MAX_INDEX,
    ensures
        all == diagonal_four(bb, start as int, 6),
{
    if start % 7 >= 3 && start / 7 <= 2 {
        proof {
            lemma_falling_mask(bb, start as u64);
        }
        (bb >> start) & 0x41041 == 0x41041
    } else {
        false
    }
}

/// Lower end of the run through `index` on the diagonal with the given
/// stride, 8 for the rising and 6 for the falling one.
fn diagonal_run_start(bb: u64, index: usize, stride: usize) -> (start: usize)
    requires
        index < MAX_INDEX,
        stride == 6 || stride == 8,
    ensures
        start == diagonal_start(bb, index as int, stride as int),
        start <= index,
{
    let rank: usize = index / 7;
    let file: usize = index % 7;
    let room: usize = if stride == 8 {
        file
    } else {
        6 - file
    };
    let limit: usize = if room <= rank {
        room
    } else {
        rank
    };
    run_start(bb, index, stride, limit)
}

/// Looks for a diagonal four anywhere in the mask.
fn any_diagonal_four(bb: u64) -> (found: bool)
    ensures
        found == diagonal_four_below(bb, MAX_INDEX as int),
{
    let mut start: usize = 0;
    while start < MAX_INDEX
        invariant
            start <= MAX_INDEX,
            !diagonal_four_below(bb, start as int),
        decreases MAX_INDEX - start,
    {
        if rising_four(bb, start) || falling_four(bb, start) {
            assert(diagonal_four(bb, start as int, 8) || diagonal_four(bb, start as int, 6));
            return true;
        }
        proof {
            if diagonal_four_below(bb, start + 1) {
                let (a, stride) = choose|a: int, stride: int|
                    a < start + 1 && #[trigger] diagonal_four(bb, a, stride);
                if a < start {
                    assert(diagonal_four_below(bb, start as int));
                }
            }
        }
        start = start + 1;
    }
    false
}

/// Tests for a diagonal four through the piece on `index`, rising or
/// falling: the run of set cells through `index` is followed down to its
/// end, and the four cells from there must be set and lie on the grid, so
/// that no line counts that would wrap past an edge. Where `index` holds
/// no piece, any diagonal four of the mask counts.
pub fn check_diagonals(bb: u64, index: usize) -> (won: bool)
    requires
        index < MAX_INDEX,
    ensures
        won == diagonal_win(bb, index as int),
{
    if (bb >> index) & 1 == 1 {
        proof {
            lemma_rising_run_decides(bb, index as int);
            lemma_falling_run_decides(bb, index as int);
        }
        let up: usize = diagonal_run_start(bb, index, 8);
        if rising_four(bb, up) {
            return true;
        }
        let down: usize = diagonal_run_start(bb, index, 6);
        falling_four(bb, down)
    } else {
        any_diagonal_four(bb)
    }
}

} // verus!
