//! The laws of the game: what holds of every move and of every board.

use crate::board::{
    col_of, has_empty, has_moves, has_pair_along, in_grid, is_board, is_kept_or_doubled_of,
    is_playable_at, is_settled, is_tile_value, is_well_formed, is_within, lemma_empty_allows_move,
    lemma_equal_by_lines, lemma_slide_lines, line_of, line_through, place_on_line, row_of, slide,
    Board, Direction, GRID_SIZE,
};
use crate::line::{has_equal_neighbours, is_packed, merges_once, slide_line, tiles_of};
use vstd::arithmetic::power2::is_pow2;
use vstd::prelude::*;

verus! {

/// A move changes nothing exactly when the board is settled in its direction.
pub proof fn lemma_slide_fixed(board: Board, direction: Direction)
    requires
        is_board(board),
    ensures
        slide(board, direction) == board <==> is_settled(board, direction),
{
    lemma_slide_lines(board, direction);
    assert forall|line: int| 0 <= line < GRID_SIZE implies (slide_line(
        #[trigger] line_of(board, direction, line),
    ) == line_of(board, direction, line) <==> is_packed(line_of(board, direction, line))
        && !has_equal_neighbours(tiles_of(line_of(board, direction, line)))) by {
        crate::line::lemma_slide_line_fixed(line_of(board, direction, line));
    }
    if is_settled(board, direction) {
        lemma_equal_by_lines(slide(board, direction), board, direction);
    }
    if slide(board, direction) == board {
        assert forall|line: int| 0 <= line < GRID_SIZE implies {
            &&& is_packed(#[trigger] line_of(board, direction, line))
            &&& !has_equal_neighbours(tiles_of(line_of(board, direction, line)))
        } by {
            assert(line_of(slide(board, direction), direction, line) == slide_line(
                line_of(board, direction, line),
            ));
        }
    }
}

/// After a move every line is packed against its edge.
pub proof fn lemma_slide_packs(board: Board, direction: Direction)
    requires
        is_board(board),
    ensures
        forall|line: int|
            0 <= line < GRID_SIZE ==> is_packed(
                #[trigger] line_of(slide(board, direction), direction, line),
            ),
{
    lemma_slide_lines(board, direction);
    assert forall|line: int| 0 <= line < GRID_SIZE implies is_packed(
        #[trigger] line_of(slide(board, direction), direction, line),
    ) by {
        crate::line::lemma_tiles_of_slide_line(line_of(board, direction, line));
    }
}

/// A second move in the same direction, made right after the first, changes
/// nothing, provided that the first move has not brought two equal tiles
/// together on a line.
pub proof fn lemma_second_move_changes_nothing(board: Board, direction: Direction)
    requires
        is_board(board),
        !has_pair_along(slide(board, direction), direction),
    ensures
        slide(slide(board, direction), direction) == slide(board, direction),
{
    let once = slide(board, direction);
    lemma_slide_lines(board, direction);
    lemma_slide_packs(board, direction);
    lemma_slide_fixed(once, direction);
    assert forall|line: int| 0 <= line < GRID_SIZE implies !has_equal_neighbours(
        tiles_of(#[trigger] line_of(once, direction, line)),
    ) by {}
}

/// Where the first move has brought two equal tiles together on a line, a
/// second move in the same direction merges them and so changes the board.
pub proof fn lemma_second_move_merges(board: Board, direction: Direction)
    requires
        is_board(board),
        has_pair_along(slide(board, direction), direction),
    ensures
        slide(slide(board, direction), direction) != slide(board, direction),
{
    let once = slide(board, direction);
    lemma_slide_lines(board, direction);
    lemma_slide_fixed(once, direction);
    let line = choose|line: int|
        0 <= line < GRID_SIZE && has_equal_neighbours(
            tiles_of(#[trigger] line_of(once, direction, line)),
        );
    assert(!is_settled(once, direction));
}

/// In one move no tile takes part in two merges: on every line the tiles fall
/// into groups of one tile or of two equal tiles, and the line afterwards
/// holds one tile for each group.
pub proof fn lemma_slide_merges_once(board: Board, direction: Direction)
    requires
        is_board(board),
    ensures
        forall|line: int|
            0 <= line < GRID_SIZE ==> merges_once(
                line_of(board, direction, line),
                #[trigger] line_of(slide(board, direction), direction, line),
            ),
{
    lemma_slide_lines(board, direction);
    assert forall|line: int| 0 <= line < GRID_SIZE implies merges_once(
        line_of(board, direction, line),
        #[trigger] line_of(slide(board, direction), direction, line),
    ) by {
        crate::line::lemma_slide_line_merges_once(line_of(board, direction, line));
    }
}

/// After a move each tile holds the value of a tile that was there before, or
/// twice that.
pub proof fn lemma_slide_values(board: Board, direction: Direction)
    requires
        is_board(board),
    ensures
        forall|r: int, c: int|
            in_grid(r, c) && (#[trigger] slide(board, direction)[r][c]) != 0
                ==> is_kept_or_doubled_of(slide(board, direction)[r][c], board),
{
    assert forall|r: int, c: int|
        in_grid(r, c) && (#[trigger] slide(board, direction)[r][c])
            != 0 implies is_kept_or_doubled_of(slide(board, direction)[r][c], board) by {
        let line = line_of(board, direction, line_through(direction, r, c));
        let pos = place_on_line(direction, r, c);
        let value = slide(board, direction)[r][c];
        crate::line::lemma_slide_line_values(line);
        assert(slide_line(line)[pos] == value);
        let q = choose|q: int|
            0 <= q < line.len() && (#[trigger] line[q]) != 0 && (value == line[q] || value == 2
                * line[q]);
        let from_r = row_of(direction, line_through(direction, r, c), q);
        let from_c = col_of(direction, line_through(direction, r, c), q);
        assert(in_grid(from_r, from_c));
        assert(board[from_r][from_c] == line[q]);
    }
}

/// Where no cell is negative or above `bound`, a move takes no cell above
/// twice `bound`.
pub proof fn lemma_slide_within(board: Board, direction: Direction, bound: int)
    requires
        is_board(board),
        is_within(board, bound),
        forall|r: int, c: int| in_grid(r, c) ==> 0 <= #[trigger] board[r][c],
    ensures
        is_within(slide(board, direction), 2 * bound),
{
    lemma_slide_values(board, direction);
    assert forall|r: int, c: int| in_grid(r, c) implies (#[trigger] slide(
        board,
        direction,
    )[r][c]) <= 2 * bound by {
        let value = slide(board, direction)[r][c];
        if value != 0 {
            let (from_r, from_c) = choose|from_r: int, from_c: int|
                in_grid(from_r, from_c) && (#[trigger] board[from_r][from_c]) != 0 && (value
                    == board[from_r][from_c] || value == 2 * board[from_r][from_c]);
            assert(0 <= board[from_r][from_c] <= bound);
        } else {
            assert(in_grid(0, 0));
            assert(0 <= board[0][0] <= bound);
        }
    }
}

/// A move keeps a grid well formed.
pub proof fn lemma_slide_well_formed(board: Board, direction: Direction)
    requires
        is_board(board),
        is_well_formed(board),
    ensures
        is_well_formed(slide(board, direction)),
{
    lemma_slide_values(board, direction);
    assert forall|r: int, c: int| in_grid(r, c) implies is_tile_value(
        #[trigger] slide(board, direction)[r][c],
    ) by {
        let value = slide(board, direction)[r][c];
        if value != 0 {
            let (from_r, from_c) = choose|from_r: int, from_c: int|
                in_grid(from_r, from_c) && (#[trigger] board[from_r][from_c]) != 0 && (value
                    == board[from_r][from_c] || value == 2 * board[from_r][from_c]);
            assert(is_tile_value(board[from_r][from_c]));
            reveal(is_pow2);
        }
    }
}

/// A move that changes the board leaves an empty cell.
pub proof fn lemma_moved_leaves_room(board: Board, direction: Direction)
    requires
        is_board(board),
        slide(board, direction) != board,
    ensures
        has_empty(slide(board, direction)),
{
    let after = slide(board, direction);
    lemma_slide_lines(board, direction);
    if forall|line: int|
        0 <= line < GRID_SIZE ==> #[trigger] line_of(after, direction, line) == line_of(
            board,
            direction,
            line,
        ) {
        lemma_equal_by_lines(after, board, direction);
    } else {
        let line = choose|line: int|
            0 <= line < GRID_SIZE && #[trigger] line_of(after, direction, line) != line_of(
                board,
                direction,
                line,
            );
        crate::line::lemma_slide_line_room(line_of(board, direction, line));
        let r = row_of(direction, line, GRID_SIZE - 1);
        let c = col_of(direction, line, GRID_SIZE - 1);
        assert(in_grid(r, c));
        assert(line_of(after, direction, line)[GRID_SIZE - 1] == after[r][c]);
    }
}

/// The value at place `pos` of line `line`.
spec fn at(board: Board, direction: Direction, line: int, pos: int) -> int {
    board[row_of(direction, line, pos)][col_of(direction, line, pos)]
}

/// On a board without an empty cell, two equal neighbours on a line are two
/// equal neighbours in a row or in a column, and the other way round.
proof fn lemma_pairs_on_full_board(board: Board, direction: Direction, line: int)
    requires
        is_board(board),
        !has_empty(board),
        0 <= line < GRID_SIZE,
    ensures
        is_packed(line_of(board, direction, line)),
        tiles_of(line_of(board, direction, line)) == line_of(board, direction, line),
        has_equal_neighbours(line_of(board, direction, line)) <==> exists|pos: int|
            0 <= pos < GRID_SIZE - 1 && #[trigger] at(board, direction, line, pos) == at(
                board,
                direction,
                line,
                pos + 1,
            ),
{
    let cells = line_of(board, direction, line);
    assert forall|pos: int| 0 <= pos < cells.len() implies cells[pos] != 0 by {
        assert(in_grid(row_of(direction, line, pos), col_of(direction, line, pos)));
    }
    crate::line::lemma_tiles_of_full(cells);
    if has_equal_neighbours(cells) {
        let pos = choose|pos: int|
            0 <= pos && pos + 1 < cells.len() && #[trigger] cells[pos] == cells[pos + 1];
        assert(at(board, direction, line, pos) == at(board, direction, line, pos + 1));
    }
    if exists|pos: int|
        0 <= pos < GRID_SIZE - 1 && #[trigger] at(board, direction, line, pos) == at(
            board,
            direction,
            line,
            pos + 1,
        ) {
        let pos = choose|pos: int|
            0 <= pos < GRID_SIZE - 1 && #[trigger] at(board, direction, line, pos) == at(
                board,
                direction,
                line,
                pos + 1,
            );
        assert(cells[pos] == cells[pos + 1]);
    }
}

/// No move is possible exactly when the board has no empty cell and is
/// settled in every direction: the game is over when the grid is full and no
/// slide would change it.
pub proof fn lemma_stuck(board: Board)
    requires
        is_board(board),
    ensures
        !has_moves(board) <==> !has_empty(board) && (forall|direction: Direction|
            #[trigger] slide(board, direction) == board),
{
    lemma_empty_allows_move(board);
    if !has_empty(board) {
        if has_moves(board) {
            let (r, c) = choose|r: int, c: int|
                in_grid(r, c) && #[trigger] is_playable_at(board, r, c);
            assert(board[r][c] != 0);
            if c + 1 < GRID_SIZE && board[r][c] == board[r][c + 1] {
                lemma_pairs_on_full_board(board, Direction::Left, r);
                assert(at(board, Direction::Left, r, c) == at(board, Direction::Left, r, c + 1));
                lemma_slide_fixed(board, Direction::Left);
                assert(!is_settled(board, Direction::Left));
            } else {
                lemma_pairs_on_full_board(board, Direction::Up, c);
                assert(at(board, Direction::Up, c, r) == at(board, Direction::Up, c, r + 1));
                lemma_slide_fixed(board, Direction::Up);
                assert(!is_settled(board, Direction::Up));
            }
        } else {
            assert forall|direction: Direction| #[trigger] slide(board, direction) == board by {
                lemma_slide_fixed(board, direction);
                assert forall|line: int| 0 <= line < GRID_SIZE implies {
                    &&& is_packed(#[trigger] line_of(board, direction, line))
                    &&& !has_equal_neighbours(tiles_of(line_of(board, direction, line)))
                } by {
                    lemma_pairs_on_full_board(board, direction, line);
                    if has_equal_neighbours(line_of(board, direction, line)) {
                        let pos = choose|pos: int|
                            0 <= pos < GRID_SIZE - 1 && #[trigger] at(board, direction, line, pos)
                                == at(board, direction, line, pos + 1);
                        let r = row_of(direction, line, pos);
                        let c = col_of(direction, line, pos);
                        let next_r = row_of(direction, line, pos + 1);
                        let next_c = col_of(direction, line, pos + 1);
                        assert(in_grid(r, c) && in_grid(next_r, next_c));
                        match direction {
                            Direction::Left => {
                                assert(is_playable_at(board, r, c));
                            },
                            Direction::Up => {
                                assert(is_playable_at(board, r, c));
                            },
                            Direction::Right => {
                                assert(is_playable_at(board, next_r, next_c));
                            },
                            Direction::Down => {
                                assert(is_playable_at(board, next_r, next_c));
                            },
                        }
                    }
                }
            }
        }
    }
}

} // verus!
