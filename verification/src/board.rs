//! The grid as a mathematical value, and what a move makes of it.
//!
//! A board is a square of integers: 0 for an empty cell, the tile's value
//! otherwise. Values are unbounded here, so the laws of a move hold without
//! any thought of machine integers.

use crate::line::{has_equal_neighbours, is_packed, slide_line, tiles_of};
use vstd::arithmetic::power2::is_pow2;
use vstd::prelude::*;

verus! {

/// The number of rows, and of columns, of the grid.
pub const GRID_SIZE: usize = 4;

/// The edge toward which the tiles slide.
#[derive(Clone, Copy, Debug, PartialEq, Eq, Structural)]
pub enum Direction {
    Up,
    Down,
    Left,
    Right,
}

/// Rows of cells, top row first, each row from left to right.
pub type Board = Seq<Seq<int>>;

/// The board has `GRID_SIZE` rows of `GRID_SIZE` cells.
pub open spec fn is_board(board: Board) -> bool {
    &&& board.len() == GRID_SIZE
    &&& forall|r: int| 0 <= r < GRID_SIZE ==> (#[trigger] board[r]).len() == GRID_SIZE
}

/// Row `r`, column `c` lies on the grid.
pub open spec fn in_grid(r: int, c: int) -> bool {
    0 <= r < GRID_SIZE && 0 <= c < GRID_SIZE
}

/// The row of the cell at place `pos` of line `line`.
///
/// A move toward the left or the right works on the rows, one toward the top
/// or the bottom on the columns. Place 0 of a line is the cell at the edge
/// that the tiles travel to.
pub open spec fn row_of(direction: Direction, line: int, pos: int) -> int {
    match direction {
        Direction::Left | Direction::Right => line,
        Direction::Up => pos,
        Direction::Down => GRID_SIZE - 1 - pos,
    }
}

/// The column of the cell at place `pos` of line `line`.
pub open spec fn col_of(direction: Direction, line: int, pos: int) -> int {
    match direction {
        Direction::Up | Direction::Down => line,
        Direction::Left => pos,
        Direction::Right => GRID_SIZE - 1 - pos,
    }
}

/// The line on which the cell in row `r`, column `c` lies.
pub open spec fn line_through(direction: Direction, r: int, c: int) -> int {
    match direction {
        Direction::Left | Direction::Right => r,
        Direction::Up | Direction::Down => c,
    }
}

/// The place of the cell in row `r`, column `c` on its line.
pub open spec fn place_on_line(direction: Direction, r: int, c: int) -> int {
    match direction {
        Direction::Left => c,
        Direction::Right => GRID_SIZE - 1 - c,
        Direction::Up => r,
        Direction::Down => GRID_SIZE - 1 - r,
    }
}

/// Line `line` of the board for a move in `direction`, read from the target
/// edge.
pub open spec fn line_of(board: Board, direction: Direction, line: int) -> Seq<int> {
    Seq::new(
        GRID_SIZE as nat,
        |pos: int| board[row_of(direction, line, pos)][col_of(direction, line, pos)],
    )
}

/// The board after a move in `direction`: every line has slid toward its edge.
pub open spec fn slide(board: Board, direction: Direction) -> Board {
    Seq::new(
        GRID_SIZE as nat,
        |r: int|
            Seq::new(
                GRID_SIZE as nat,
                |c: int|
                    slide_line(line_of(board, direction, line_through(direction, r, c)))[place_on_line(
                        direction,
                        r,
                        c,
                    )],
            ),
    )
}

/// A move in `direction` would change nothing: every line is packed against
/// its edge and no two neighbouring tiles of a line are equal.
pub open spec fn is_settled(board: Board, direction: Direction) -> bool {
    forall|line: int|
        0 <= line < GRID_SIZE ==> {
            &&& is_packed(#[trigger] line_of(board, direction, line))
            &&& !has_equal_neighbours(tiles_of(line_of(board, direction, line)))
        }
}

/// Some line holds two equal tiles next to each other, with at most empty
/// cells between them.
pub open spec fn has_pair_along(board: Board, direction: Direction) -> bool {
    exists|line: int|
        0 <= line < GRID_SIZE && has_equal_neighbours(
            tiles_of(#[trigger] line_of(board, direction, line)),
        )
}

/// The cell in row `r`, column `c` is empty, or holds the same value as its
/// right or its lower neighbour.
pub open spec fn is_playable_at(board: Board, r: int, c: int) -> bool {
    ||| board[r][c] == 0
    ||| c + 1 < GRID_SIZE && board[r][c] == board[r][c + 1]
    ||| r + 1 < GRID_SIZE && board[r][c] == board[r + 1][c]
}

/// Some cell is empty.
pub open spec fn has_empty(board: Board) -> bool {
    exists|r: int, c: int| in_grid(r, c) && (#[trigger] board[r][c]) == 0
}

/// Some move is still possible: a cell is empty, or two neighbours in a row
/// or in a column are equal.
pub open spec fn has_moves(board: Board) -> bool {
    exists|r: int, c: int| in_grid(r, c) && #[trigger] is_playable_at(board, r, c)
}

/// The board with `value` in row `r`, column `c`.
pub open spec fn place(board: Board, r: int, c: int, value: int) -> Board {
    board.update(r, board[r].update(c, value))
}

/// Every cell is at most `bound`.
pub open spec fn is_within(board: Board, bound: int) -> bool {
    forall|r: int, c: int| in_grid(r, c) ==> (#[trigger] board[r][c]) <= bound
}

/// `value` is the value of a tile of the board, or twice that.
pub open spec fn is_kept_or_doubled_of(value: int, board: Board) -> bool {
    exists|r: int, c: int|
        in_grid(r, c) && (#[trigger] board[r][c]) != 0 && (value == board[r][c] || value == 2
            * board[r][c])
}

/// The value of a cell of a well-formed grid: 0, or a power of two from 2 on.
pub open spec fn is_tile_value(value: int) -> bool {
    value == 0 || (value >= 2 && is_pow2(value))
}

/// Every cell is empty or holds a power of two from 2 on.
pub open spec fn is_well_formed(board: Board) -> bool {
    forall|r: int, c: int| in_grid(r, c) ==> is_tile_value(#[trigger] board[r][c])
}

/// A slid board is a board, and each of its lines is the slid line of the
/// board before.
pub proof fn lemma_slide_lines(board: Board, direction: Direction)
    requires
        is_board(board),
    ensures
        is_board(slide(board, direction)),
        forall|line: int|
            0 <= line < GRID_SIZE ==> #[trigger] line_of(slide(board, direction), direction, line)
                == slide_line(line_of(board, direction, line)),
{
    assert forall|line: int| 0 <= line < GRID_SIZE implies #[trigger] line_of(
        slide(board, direction),
        direction,
        line,
    ) == slide_line(line_of(board, direction, line)) by {
        assert(line_of(slide(board, direction), direction, line) =~= slide_line(
            line_of(board, direction, line),
        ));
    }
}

/// Two boards with the same lines are the same board.
pub proof fn lemma_equal_by_lines(first: Board, second: Board, direction: Direction)
    requires
        is_board(first),
        is_board(second),
        forall|line: int|
            0 <= line < GRID_SIZE ==> #[trigger] line_of(first, direction, line) == line_of(
                second,
                direction,
                line,
            ),
    ensures
        first == second,
{
    assert forall|r: int| 0 <= r < GRID_SIZE implies #[trigger] first[r] == second[r] by {
        assert forall|c: int| 0 <= c < GRID_SIZE implies first[r][c] == second[r][c] by {
            let line = line_through(direction, r, c);
            let pos = place_on_line(direction, r, c);
            assert(line_of(first, direction, line)[pos] == first[r][c]);
            assert(line_of(second, direction, line)[pos] == second[r][c]);
        }
        assert(first[r] =~= second[r]);
    }
    assert(first =~= second);
}

/// A board with an empty cell allows a move.
pub proof fn lemma_empty_allows_move(board: Board)
    ensures
        has_empty(board) ==> has_moves(board),
{
    if has_empty(board) {
        let (r, c) = choose|r: int, c: int| in_grid(r, c) && (#[trigger] board[r][c]) == 0;
        assert(is_playable_at(board, r, c));
    }
}

} // verus!
