//! The board: two occupancy masks, the height of each column, whose turn
//! it is, the ply counter and the outcome once the game is over.

use crate::game::lines::{
    cell_set, check_diagonals, check_horizontal, check_vertical, diagonal_win,
    four_in_line_through, four_set, four_through, horizontal_win, lemma_tests_find_fours,
    vertical_win, HEIGHT, MAX_INDEX, WIDTH,
};
use crate::game::player::Player;
use crate::game::result::GameResult;
use vstd::prelude::*;
use vstd::std_specs::cmp::PartialEqSpecImpl;

verus! {

/// A position of the game. Copying it is cheap, and a move yields a new
/// board and leaves the old one as it was.
#[derive(Clone, Copy, Debug)]
pub struct Board {
    pub yellow_bb: u64,
    pub blue_bb: u64,
    pub column_pieces: [usize; WIDTH],
    pub yellow_turn: bool,
    pub result: Option<GameResult>,
    pub turn: u32,
}

/// A position as a value of mathematics: the cells that each side holds,
/// the height of each column, the side to move, the number of plies
/// played and the outcome, if the game is over.
pub struct Position {
    pub yellow: Set<int>,
    pub blue: Set<int>,
    pub heights: Seq<int>,
    pub mover: Player,
    pub ply: int,
    pub outcome: Option<GameResult>,
}

impl View for Board {
    type V = Position;

    open spec fn view(&self) -> Position {
        Position {
            yellow: Set::new(|i: int| cell_set(self.yellow_bb, i)),
            blue: Set::new(|i: int| cell_set(self.blue_bb, i)),
            heights: Seq::new(WIDTH as nat, |c: int| self.column_pieces[c] as int),
            mover: self.mover(),
            ply: self.turn as int,
            outcome: self.result,
        }
    }
}

/// Number of set cells among the lowest `n` cells of `bb`.
pub open spec fn ones_below(bb: u64, n: nat) -> nat
    decreases n,
{
    if n == 0 {
        0
    } else {
        ones_below(bb, (n - 1) as nat) + if cell_set(bb, n - 1) {
            1nat
        } else {
            0nat
        }
    }
}

/// Number of set cells of `bb`.
pub open spec fn ones(bb: u64) -> nat {
    ones_below(bb, 64)
}

/// No more cells are set among the lowest `n` than there are.
pub proof fn lemma_ones_below_bound(bb: u64, n: nat)
    ensures
        ones_below(bb, n) <= n,
    decreases n,
{
    if n > 0 {
        lemma_ones_below_bound(bb, (n - 1) as nat);
    }
}

/// The count of set cells does not go down as more cells are looked at,
/// and goes up by one with every set cell.
pub proof fn lemma_ones_below_grows(bb: u64, low: nat, high: nat)
    requires
        low <= high,
    ensures
        ones_below(bb, low) <= ones_below(bb, high),
        low < high && cell_set(bb, low as int) ==> ones_below(bb, low) < ones_below(bb, high),
    decreases high - low,
{
    if low < high {
        lemma_ones_below_grows(bb, low, (high - 1) as nat);
    }
}

/// A mask with four cells set in a line has at least four set cells.
pub proof fn lemma_four_set_counts(bb: u64, start: int, stride: int)
    requires
        0 <= start,
        0 < stride,
        four_set(bb, start, stride),
    ensures
        ones(bb) >= 4,
{
    lemma_ones_below_grows(bb, start as nat, (start + stride) as nat);
    lemma_ones_below_grows(bb, (start + stride) as nat, (start + 2 * stride) as nat);
    lemma_ones_below_grows(bb, (start + 2 * stride) as nat, (start + 3 * stride) as nat);
    lemma_ones_below_grows(bb, (start + 3 * stride) as nat, 64);
}

/// Flipping bit `k` of a mask changes cell `k` and no other cell.
pub proof fn lemma_flip_bit(bb: u64, k: u64, i: u64)
    by (bit_vector)
    requires
        k < 64,
        i < 64,
    ensures
        i != k ==> ((bb ^ (1u64 << k)) >> i) & 1 == (bb >> i) & 1,
        i == k ==> (((bb ^ (1u64 << k)) >> i) & 1 == 1) == ((bb >> i) & 1 != 1),
{
}

/// `u64::count_ones`: the number of one bits of `bb`, which is the number
/// of its set cells.
#[verifier::external_body]
fn count_ones(bb: u64) -> (n: u32)
    ensures
        n == ones(bb),
{
    bb.count_ones()
}

/// The mover has four in a row after placing a piece on `index`, as far as
/// the three line tests find it. Fewer than four pieces never win.
pub open spec fn wins_at(bb: u64, index: int) -> bool {
    ones(bb) > 3 && (vertical_win(bb, index) || horizontal_win(bb, index) || diagonal_win(
        bb,
        index,
    ))
}

/// The outcome of a board after a move: an outcome that was there before
/// stays; else the mover wins with four in a row; else the game is drawn
/// when no column is left to play.
pub open spec fn outcome_after(
    before: Option<GameResult>,
    bb: u64,
    index: int,
    mover: Player,
    full: bool,
) -> Option<GameResult> {
    if before is Some {
        before
    } else if wins_at(bb, index) {
        Some(GameResult::Win(mover))
    } else if full {
        Some(GameResult::Draw)
    } else {
        None
    }
}

/// The outcome that a move should have on an undecided board: a win of
/// the mover if the piece placed lies in a line of four of the mover's
/// pieces; else a draw if no column is left; else none.
pub open spec fn outcome_due(bb: u64, index: int, mover: Player, full: bool) -> Option<
    GameResult,
> {
    if four_in_line_through(bb, index) {
        Some(GameResult::Win(mover))
    } else if full {
        Some(GameResult::Draw)
    } else {
        None
    }
}

/// For a piece that has nothing above it, the outcome judged on an
/// undecided board is the outcome that is due.
pub proof fn lemma_outcome_is_due(bb: u64, index: int, mover: Player, full: bool)
    requires
        0 <= index < MAX_INDEX,
        cell_set(bb, index),
        !cell_set(bb, index + 7),
    ensures
        outcome_after(None, bb, index, mover, full) == outcome_due(bb, index, mover, full),
{
    lemma_tests_find_fours(bb, index);
    if four_in_line_through(bb, index) {
        let (a, stride) = choose|a: int, stride: int| #[trigger]
            four_through(bb, index, a, stride);
        lemma_four_set_counts(bb, a, stride);
    }
}

/// Sum of the free cells of the first `n` columns; a column stacked beyond
/// the top counts as full.
pub open spec fn free_cells(heights: Seq<usize>, n: nat) -> nat
    decreases n,
{
    if n == 0 {
        0
    } else {
        free_cells(heights, (n - 1) as nat) + if heights[n - 1] < HEIGHT {
            (HEIGHT - heights[n - 1]) as nat
        } else {
            0nat
        }
    }
}

/// The legal columns among the first `n`, in ascending order.
pub open spec fn open_columns(heights: Seq<usize>, n: nat) -> Seq<usize>
    decreases n,
{
    if n == 0 {
        Seq::empty()
    } else if heights[n - 1] < HEIGHT {
        open_columns(heights, (n - 1) as nat).push((n - 1) as usize)
    } else {
        open_columns(heights, (n - 1) as nat)
    }
}

/// Raising one legal column by one takes one free cell away from every
/// count that reaches the column.
pub proof fn lemma_free_cells_after(heights: Seq<usize>, column: int, n: nat)
    requires
        0 <= column < heights.len(),
        n <= heights.len(),
        heights[column] < HEIGHT,
    ensures
        free_cells(heights.update(column, (heights[column] + 1) as usize), n) + if column < n {
            1nat
        } else {
            0nat
        } == free_cells(heights, n),
    decreases n,
{
    if n > 0 {
        lemma_free_cells_after(heights, column, (n - 1) as nat);
    }
}

/// A column is listed among the open ones below `n` exactly if it is
/// below `n` and not full, and the list is strictly ascending.
pub proof fn lemma_open_columns(heights: Seq<usize>, n: nat)
    requires
        n <= heights.len(),
        n <= usize::MAX,
    ensures
        open_columns(heights, n).len() <= n,
        forall|i: int|
            0 <= i < open_columns(heights, n).len() ==> {
                let c = #[trigger] open_columns(heights, n)[i];
                c < n && heights[c as int] < HEIGHT
            },
        forall|i: int, j: int|
            0 <= i < j < open_columns(heights, n).len() ==> open_columns(heights, n)[i]
                < open_columns(heights, n)[j],
        forall|c: int|
            0 <= c < n && heights[c] < HEIGHT ==> open_columns(heights, n).contains(c as usize),
    decreases n,
{
    if n > 0 {
        let before = open_columns(heights, (n - 1) as nat);
        lemma_open_columns(heights, (n - 1) as nat);
        let now = open_columns(heights, n);
        if heights[n - 1] < HEIGHT {
            assert(now[before.len() as int] == (n - 1) as usize);
            assert forall|c: int| 0 <= c < n && heights[c] < HEIGHT implies now.contains(
                c as usize,
            ) by {
                if c < n - 1 {
                    let i = choose|i: int| 0 <= i < before.len() && before[i] == c as usize;
                    assert(now[i] == c as usize);
                } else {
                    assert(now[before.len() as int] == c as usize);
                }
            }
        }
    }
}

/// The open column listed at place `k` is legal, and exactly `k` open
/// columns lie left of it.
pub proof fn lemma_open_column_at(heights: Seq<usize>, n: nat, k: int)
    requires
        n <= heights.len(),
        n <= usize::MAX,
        0 <= k < open_columns(heights, n).len(),
    ensures
        open_columns(heights, n)[k] < n,
        heights[open_columns(heights, n)[k] as int] < HEIGHT,
        open_columns(heights, open_columns(heights, n)[k] as nat).len() == k,
    decreases n,
{
    if n > 0 {
        let before = open_columns(heights, (n - 1) as nat);
        if heights[n - 1] < HEIGHT && k == before.len() {
        } else {
            lemma_open_column_at(heights, (n - 1) as nat, k);
        }
    }
}

/// No more cells are free in the first `n` columns than they have.
pub proof fn lemma_free_cells_bound(heights: Seq<usize>, n: nat)
    ensures
        free_cells(heights, n) <= HEIGHT * n,
    decreases n,
{
    if n > 0 {
        lemma_free_cells_bound(heights, (n - 1) as nat);
    }
}

/// Whether `to` can be reached from `from` in exactly `plies` legal moves,
/// none of them made on a decided board.
pub open spec fn reached(from: Board, to: Board, plies: nat) -> bool
    decreases plies,
{
    if plies == 0 {
        to == from
    } else {
        exists|prev: Board, c: int|
            reached(from, prev, (plies - 1) as nat) && prev.result is None && prev.legal(c)
                && #[trigger] prev.leads_to(c, to)
    }
}

/// The empty board is one that play can lead to, and its ply counter has
/// room for a whole game.
pub proof fn lemma_start_is_well_formed()
    ensures
        Board::start().well_formed(),
        Board::start().ply_fits(),
{
    let start = Board::start();
    assert forall|i: int| 0 <= i < 64 implies !cell_set(0u64, i) by {
        let k = i as u64;
        assert((0u64 >> k) & 1 == 0) by (bit_vector);
    }
    lemma_free_cells_bound(start.column_pieces@, WIDTH as nat);
}

/// Whether every column has reached the top.
pub open spec fn columns_full(heights: Seq<usize>) -> bool {
    forall|c: int| 0 <= c < WIDTH ==> heights[c] >= HEIGHT
}

impl Board {
    /// The position that a game starts from: the empty board, Yellow to
    /// move, ply counter at zero.
    pub open spec fn start() -> Board {
        Board {
            yellow_bb: 0,
            blue_bb: 0,
            column_pieces: [0usize;WIDTH],
            yellow_turn: true,
            result: None,
            turn: 0,
        }
    }

    /// The side to move.
    pub open spec fn mover(self) -> Player {
        if self.yellow_turn {
            Player::Yellow
        } else {
            Player::Blue
        }
    }

    /// Who holds cell `index`, see `piece_at`.
    pub open spec fn holder(self, index: int) -> Player {
        if cell_set(self.blue_bb, index) {
            Player::Blue
        } else if cell_set(self.yellow_bb, index) {
            Player::Yellow
        } else {
            Player::NoPlayer
        }
    }

    /// The game has ended with a win of `side`.
    pub open spec fn won_by(self, side: Player) -> bool {
        self.result == Some(GameResult::Win(side))
    }

    /// The game has ended without a winner.
    pub open spec fn drawn(self) -> bool {
        self.result == Some(GameResult::Draw)
    }

    /// Two boards show the same position: their masks agree.
    pub open spec fn same_position(self, other: Board) -> bool {
        self.yellow_bb == other.yellow_bb && self.blue_bb == other.blue_bb
    }

    /// Whether cell `index` holds a piece of either side.
    pub open spec fn occupied(self, index: int) -> bool {
        cell_set(self.yellow_bb, index) || cell_set(self.blue_bb, index)
    }

    /// The board is one that play can lead to: no cell holds a piece of
    /// both sides, no column is higher than the grid, and the pieces of
    /// each column fill it from the bottom up to its height, with no cell
    /// set outside the grid.
    pub open spec fn well_formed(self) -> bool {
        &&& forall|i: int|
            0 <= i < 64 ==> !(#[trigger] cell_set(self.yellow_bb, i) && cell_set(self.blue_bb, i))
        &&& forall|c: int| 0 <= c < WIDTH ==> #[trigger] self.column_pieces[c] <= HEIGHT
        &&& forall|i: int|
            0 <= i < 64 ==> (#[trigger] self.occupied(i) <==> i < MAX_INDEX && i / 7
                < self.column_pieces[i % 7])
    }

    /// Whether a piece can be dropped into `column`.
    pub open spec fn legal(self, column: int) -> bool {
        0 <= column < WIDTH && self.column_pieces[column] < HEIGHT
    }

    /// The cell that a piece dropped into `column` lands on.
    pub open spec fn target(self, column: int) -> int {
        self.column_pieces[column] * WIDTH + column
    }

    /// Whether no column can be played.
    pub open spec fn full(self) -> bool {
        columns_full(self.column_pieces@)
    }

    /// How many moves can still be made at most.
    pub open spec fn moves_left(self) -> nat {
        free_cells(self.column_pieces@, WIDTH as nat)
    }

    /// The legal columns in ascending order.
    pub open spec fn moves(self) -> Seq<usize> {
        open_columns(self.column_pieces@, WIDTH as nat)
    }

    /// The ply counter can take every move that is still possible.
    pub open spec fn ply_fits(self) -> bool {
        self.turn + self.moves_left() <= u32::MAX
    }

    /// The occupancy mask of `side`; nobody holds no cell.
    pub open spec fn mask_of(self, side: Player) -> u64 {
        match side {
            Player::Yellow => self.yellow_bb,
            Player::Blue => self.blue_bb,
            Player::NoPlayer => 0,
        }
    }

    /// The occupancy mask of the side to move.
    pub open spec fn mover_mask(self) -> u64 {
        self.mask_of(self.mover())
    }

    /// Whether `next` is the position that playing `column` leads to: the
    /// mover's bit of the target cell is flipped, the column is one
    /// higher, the other side is to move, the ply counter is one further
    /// and the outcome is judged anew.
    pub open spec fn leads_to(self, column: int, next: Board) -> bool {
        let index = self.target(column);
        let bit = 1u64 << (index as u64);
        &&& next.yellow_bb == if self.yellow_turn {
            self.yellow_bb ^ bit
        } else {
            self.yellow_bb
        }
        &&& next.blue_bb == if self.yellow_turn {
            self.blue_bb
        } else {
            self.blue_bb ^ bit
        }
        &&& next.column_pieces@ == self.column_pieces@.update(
            column,
            (self.column_pieces[column] + 1) as usize,
        )
        &&& next.yellow_turn == !self.yellow_turn
        &&& next.turn == self.turn + 1
        &&& next.result == outcome_after(
            self.result,
            self.mover_mask() ^ bit,
            index,
            self.mover(),
            next.full(),
        )
    }

    /// Where a column is legal, a move is left, and a ply counter that
    /// fits has room for it.
    pub proof fn lemma_legal_has_room(self, column: int)
        requires
            self.legal(column),
        ensures
            self.moves_left() >= 1,
            self.ply_fits() ==> self.turn < u32::MAX,
    {
        lemma_free_cells_after(self.column_pieces@, column, WIDTH as nat);
    }

    /// A move takes one of the moves that are left and one step of the
    /// ply counter, so a counter that fits before the move fits after it.
    pub proof fn lemma_move_keeps_fit(self, column: int, next: Board)
        requires
            self.legal(column),
            self.leads_to(column, next),
        ensures
            next.moves_left() + 1 == self.moves_left(),
            self.ply_fits() ==> next.ply_fits() && self.turn < u32::MAX,
    {
        lemma_free_cells_after(self.column_pieces@, column, WIDTH as nat);
    }

    /// Of the three ways a game can end, a win of Yellow, a win of Blue and
    /// a draw, a board shows at most one.
    pub proof fn lemma_one_outcome(self)
        ensures
            !(self.won_by(Player::Yellow) && self.won_by(Player::Blue)),
            !(self.won_by(Player::Yellow) && self.drawn()),
            !(self.won_by(Player::Blue) && self.drawn()),
    {
    }

    /// An outcome that is set stays: a move on a decided board leaves the
    /// outcome as it is, and judging the masks that a move has led to once
    /// more changes nothing.
    pub proof fn lemma_outcome_settled(self, column: int, next: Board)
        requires
            self.legal(column),
            self.leads_to(column, next),
        ensures
            self.result is Some ==> next.result == self.result,
            outcome_after(
                next.result,
                self.mover_mask() ^ (1u64 << (self.target(column) as u64)),
                self.target(column),
                self.mover(),
                next.full(),
            ) == next.result,
    {
    }

    /// On a board that play can lead to, a move wins exactly if the piece
    /// placed lies in a line of four pieces of the mover; it never wins for
    /// the other side; and it draws exactly if it does not win and no
    /// column is left.
    pub proof fn lemma_outcome_is_exact(self, column: int, next: Board)
        requires
            self.well_formed(),
            self.legal(column),
            self.leads_to(column, next),
            self.result is None,
        ensures
            next.won_by(self.mover()) == four_in_line_through(
                next.mask_of(self.mover()),
                self.target(column),
            ),
            !next.won_by(next.mover()),
            !next.won_by(Player::NoPlayer),
            next.drawn() == (next.full() && !four_in_line_through(
                next.mask_of(self.mover()),
                self.target(column),
            )),
            next.result is None == (!next.full() && !four_in_line_through(
                next.mask_of(self.mover()),
                self.target(column),
            )),
            next.result == outcome_due(
                next.mask_of(self.mover()),
                self.target(column),
                self.mover(),
                next.full(),
            ),
    {
        let index = self.target(column);
        let bb = next.mask_of(self.mover());
        self.lemma_move_keeps_well_formed(column, next);
        assert(bb == self.mover_mask() ^ (1u64 << (index as u64)));
        assert(cell_set(bb, index));
        assert(!cell_set(bb, index + 7)) by {
            if index + 7 < 64 {
                assert(!next.occupied(index + 7));
            }
        }
        lemma_tests_find_fours(bb, index);
        if four_in_line_through(bb, index) {
            let (a, stride) = choose|a: int, stride: int| #[trigger]
                four_through(bb, index, a, stride);
            lemma_four_set_counts(bb, a, stride);
        }
    }

    /// A move on a board that play can lead to gives such a board again:
    /// the piece lands on the lowest free cell of its column, that cell
    /// now holds a piece of the mover, and every other cell is as before.
    pub proof fn lemma_move_keeps_well_formed(self, column: int, next: Board)
        requires
            self.well_formed(),
            self.legal(column),
            self.leads_to(column, next),
        ensures
            next.well_formed(),
            !self.occupied(self.target(column)),
            next.holder(self.target(column)) == self.mover(),
            forall|i: int|
                0 <= i < 64 && i != self.target(column) ==> next.holder(i) == self.holder(i),
    {
        let index = self.target(column);
        let k = index as u64;
        assert(self.column_pieces[column] <= HEIGHT);
        assert(!self.occupied(index));
        assert forall|i: int| 0 <= i < 64 implies cell_set(next.yellow_bb, i) == (if i == index
            && self.yellow_turn {
            !cell_set(self.yellow_bb, i)
        } else {
            cell_set(self.yellow_bb, i)
        }) && cell_set(next.blue_bb, i) == (if i == index && !self.yellow_turn {
            !cell_set(self.blue_bb, i)
        } else {
            cell_set(self.blue_bb, i)
        }) by {
            lemma_flip_bit(self.yellow_bb, k, i as u64);
            lemma_flip_bit(self.blue_bb, k, i as u64);
        }
        assert forall|i: int| 0 <= i < 64 implies (#[trigger] next.occupied(i) <==> i < MAX_INDEX
            && i / 7 < next.column_pieces[i % 7]) by {
            assert(self.occupied(i) <==> i < MAX_INDEX && i / 7 < self.column_pieces[i % 7]);
        }
        assert forall|c: int| 0 <= c < WIDTH implies #[trigger] next.column_pieces[c]
            <= HEIGHT by {
            assert(self.column_pieces[c] <= HEIGHT);
        }
    }

    /// What a move does to the position, on a board that play can lead
    /// to: the mover gains the lowest free cell of the column, the column
    /// is one higher, the other side is to move, and one more ply has been
    /// played.
    pub proof fn lemma_move_on_position(self, column: int, next: Board)
        requires
            self.well_formed(),
            self.legal(column),
            self.leads_to(column, next),
        ensures
            next@.yellow == if self.yellow_turn {
                self@.yellow.insert(self.target(column))
            } else {
                self@.yellow
            },
            next@.blue == if self.yellow_turn {
                self@.blue
            } else {
                self@.blue.insert(self.target(column))
            },
            next@.heights == self@.heights.update(column, self@.heights[column] + 1),
            self.target(column) == column + WIDTH * self@.heights[column],
            next@.mover != self@.mover,
            next@.ply == self@.ply + 1,
            !self@.yellow.contains(self.target(column)),
            !self@.blue.contains(self.target(column)),
    {
        let index = self.target(column);
        self.lemma_move_keeps_well_formed(column, next);
        assert(!self.occupied(index));
        assert forall|i: int| 0 <= i < 64 implies cell_set(next.yellow_bb, i) == (cell_set(
            self.yellow_bb,
            i,
        ) || (i == index && self.yellow_turn)) && cell_set(next.blue_bb, i) == (cell_set(
            self.blue_bb,
            i,
        ) || (i == index && !self.yellow_turn)) by {
            lemma_flip_bit(self.yellow_bb, index as u64, i as u64);
            lemma_flip_bit(self.blue_bb, index as u64, i as u64);
        }
        assert(next@.yellow =~= if self.yellow_turn {
            self@.yellow.insert(index)
        } else {
            self@.yellow
        });
        assert(next@.blue =~= if self.yellow_turn {
            self@.blue
        } else {
            self@.blue.insert(index)
        });
        assert(next@.heights =~= self@.heights.update(column, self@.heights[column] + 1));
    }

    /// A position has one successor for each move.
    pub proof fn lemma_leads_to_one(self, column: int, next: Board, other: Board)
        requires
            self.leads_to(column, next),
            self.leads_to(column, other),
        ensures
            next == other,
    {
        assert(next.column_pieces =~= other.column_pieces);
    }

    /// The side to move.
    pub fn active_player(&self) -> (side: Player)
        ensures
            side == self.mover(),
    {
        if self.yellow_turn {
            Player::Yellow
        } else {
            Player::Blue
        }
    }

    /// Who holds cell `index`, as the board is drawn: Blue where the blue
    /// mask has the cell, else Yellow where the yellow mask has it, else
    /// nobody.
    pub fn piece_at(&self, index: usize) -> (side: Player)
        requires
            index < 64,
        ensures
            side == self.holder(index as int),
    {
        if (self.blue_bb >> index) & 1 == 1 {
            Player::Blue
        } else if (self.yellow_bb >> index) & 1 == 1 {
            Player::Yellow
        } else {
            Player::NoPlayer
        }
    }

    /// The columns that are not full, in ascending order.
    pub fn get_moves(self) -> (available_moves: Vec<usize>)
        ensures
            available_moves@ == self.moves(),
    {
        let mut available_moves: Vec<usize> = Vec::new();
        let mut column: usize = 0;
        while column < WIDTH
            invariant
                column <= WIDTH,
                available_moves@ == open_columns(self.column_pieces@, column as nat),
            decreases WIDTH - column,
        {
            if self.column_pieces[column] < HEIGHT {
                available_moves.push(column);
            }
            column = column + 1;
        }
        available_moves
    }

    /// Whether column `x` is lower than `y`.
    pub fn cell_empty(self, x: usize, y: usize) -> (empty: bool)
        requires
            x < WIDTH,
        ensures
            empty == (self.column_pieces[x as int] < y),
    {
        self.column_pieces[x] < y
    }

    /// Whether no column can be played.
    pub fn is_full(&self) -> (full: bool)
        ensures
            full == self.full(),
    {
        let mut column: usize = 0;
        while column < WIDTH
            invariant
                column <= WIDTH,
                forall|c: int| 0 <= c < column ==> self.column_pieces@[c] >= HEIGHT,
            decreases WIDTH - column,
        {
            if self.column_pieces[column] < HEIGHT {
                return false;
            }
            column = column + 1;
        }
        true
    }

    /// Judges the outcome after the side `yellow_player` has placed a
    /// piece on `index`. An outcome that is already set stays.
    pub fn update_winner(&mut self, index: usize, yellow_player: bool)
        requires
            index < MAX_INDEX,
        ensures
            final(self).result == outcome_after(
                old(self).result,
                if yellow_player {
                    old(self).yellow_bb
                } else {
                    old(self).blue_bb
                },
                index as int,
                if yellow_player {
                    Player::Yellow
                } else {
                    Player::Blue
                },
                old(self).full(),
            ),
            final(self).yellow_bb == old(self).yellow_bb,
            final(self).blue_bb == old(self).blue_bb,
            final(self).column_pieces == old(self).column_pieces,
            final(self).yellow_turn == old(self).yellow_turn,
            final(self).turn == old(self).turn,
            ({
                let bb = if yellow_player {
                    old(self).yellow_bb
                } else {
                    old(self).blue_bb
                };
                let mover = if yellow_player {
                    Player::Yellow
                } else {
                    Player::Blue
                };
                old(self).result is None && cell_set(bb, index as int) && !cell_set(
                    bb,
                    index + 7,
                ) ==> final(self).result == outcome_due(bb, index as int, mover, old(self).full())
            }),
    {
        proof {
            let bb = if yellow_player {
                self.yellow_bb
            } else {
                self.blue_bb
            };
            let mover = if yellow_player {
                Player::Yellow
            } else {
                Player::Blue
            };
            if cell_set(bb, index as int) && !cell_set(bb, index + 7) {
                lemma_outcome_is_due(bb, index as int, mover, self.full());
            }
        }
        if self.result.is_some() {
            return ;
        }
        let bb: u64 = if yellow_player {
            self.yellow_bb
        } else {
            self.blue_bb
        };
        if count_ones(bb) > 3 && (check_vertical(bb, index) || check_horizontal(bb, index)
            || check_diagonals(bb, index)) {
            self.result = Some(
                if yellow_player {
                    GameResult::Win(Player::Yellow)
                } else {
                    GameResult::Win(Player::Blue)
                },
            );
        } else if self.is_full() {
            self.result = Some(GameResult::Draw);
        }
    }

    /// Drops a piece of the side to move into `column` and returns the
    /// position reached.
    pub fn play_move(self, column: usize) -> (next: Board)
        requires
            self.legal(column as int),
            self.turn < u32::MAX,
        ensures
            self.leads_to(column as int, next),
            next.turn == self.turn + 1,
            next.mover() != self.mover(),
            self.result is Some ==> next.result == self.result,
            self.well_formed() ==> next.well_formed(),
            self.well_formed() && self.result is None ==> next.result == outcome_due(
                next.mask_of(self.mover()),
                self.target(column as int),
                self.mover(),
                next.full(),
            ),
    {
        let mut n_b: Board = self;
        let row: usize = self.column_pieces[column];
        let index: usize = row * WIDTH + column;
        let is_yellow: bool = self.yellow_turn;
        if self.yellow_turn {
            n_b.yellow_bb = n_b.yellow_bb ^ (1u64 << index);
        } else {
            n_b.blue_bb = n_b.blue_bb ^ (1u64 << index);
        }
        n_b.column_pieces[column] = row + 1;
        n_b.yellow_turn = !self.yellow_turn;
        n_b.turn = n_b.turn + 1;
        n_b.update_winner(index, is_yellow);
        proof {
            if self.well_formed() {
                self.lemma_move_keeps_well_formed(column as int, n_b);
                if self.result is None {
                    self.lemma_outcome_is_exact(column as int, n_b);
                }
            }
        }
        n_b
    }

    /// A position given by its two masks and its column heights. Yellow is
    /// to move when both sides have as many pieces; the ply counter is one
    /// more than the number of pieces; no outcome is set.
    pub fn setup(yellow_bb: u64, blue_bb: u64, column_pieces: [usize; WIDTH]) -> (board: Board)
        ensures
            board.yellow_bb == yellow_bb,
            board.blue_bb == blue_bb,
            board.column_pieces == column_pieces,
            board.yellow_turn == (ones(blue_bb) == ones(yellow_bb)),
            board.result is None,
            board.turn == ones(yellow_bb) + ones(blue_bb) + 1,
            board.ply_fits(),
    {
        let yellow_count: u32 = count_ones(yellow_bb);
        let blue_count: u32 = count_ones(blue_bb);
        proof {
            lemma_ones_below_bound(yellow_bb, 64);
            lemma_ones_below_bound(blue_bb, 64);
            lemma_free_cells_bound(column_pieces@, WIDTH as nat);
        }
        Board {
            yellow_bb,
            blue_bb,
            yellow_turn: blue_count == yellow_count,
            column_pieces,
            result: None,
            turn: yellow_count + blue_count + 1,
        }
    }
}

impl Default for Board {
    /// The empty board, Yellow to move, ply counter at zero.
    fn default() -> (board: Board)
        ensures
            board == Board::start(),
            board.well_formed(),
            board.ply_fits(),
    {
        proof {
            lemma_start_is_well_formed();
        }
        Board {
            yellow_bb: 0,
            blue_bb: 0,
            column_pieces: [0;WIDTH],
            yellow_turn: true,
            result: None,
            turn: 0,
        }
    }
}

impl PartialEq for Board {
    /// Two boards are the same position when their masks agree; heights,
    /// turn and outcome follow from the masks.
    fn eq(&self, other: &Self) -> (same: bool) {
        self.yellow_bb == other.yellow_bb && self.blue_bb == other.blue_bb
    }
}

impl PartialEqSpecImpl for Board {
    open spec fn obeys_eq_spec() -> bool {
        true
    }

    open spec fn eq_spec(&self, other: &Self) -> bool {
        self.same_position(*other)
    }
}

} // verus!
