//! Sums and counts of tiles, on a line and on the whole board, and what a
//! move and a new tile do to them.

use crate::board::{
    col_of, has_empty, in_grid, is_board, is_well_formed, line_of, place, row_of, slide, Board,
    Direction, GRID_SIZE,
};
use crate::line::{settle, slide_line, tiles_of, Settled};
use vstd::prelude::*;

verus! {

/// The sum of the values of a line.
pub open spec fn sum(line: Seq<int>) -> int
    decreases line.len(),
{
    if line.len() == 0 {
        0
    } else {
        sum(line.drop_last()) + line.last()
    }
}

/// How many cells of a line hold `value`.
pub open spec fn count(line: Seq<int>, value: int) -> nat
    decreases line.len(),
{
    if line.len() == 0 {
        0
    } else if line.last() == value {
        count(line.drop_last(), value) + 1
    } else {
        count(line.drop_last(), value)
    }
}

/// How many cells of a line hold half of `value`: the tiles that a merge
/// turns into `value`.
pub open spec fn count_halves(line: Seq<int>, value: int) -> nat {
    if value % 2 == 0 {
        count(line, value / 2)
    } else {
        0
    }
}

/// How many cells of a line hold `value` or more.
pub open spec fn count_from(line: Seq<int>, value: int) -> nat
    decreases line.len(),
{
    if line.len() == 0 {
        0
    } else if line.last() >= value {
        count_from(line.drop_last(), value) + 1
    } else {
        count_from(line.drop_last(), value)
    }
}

/// The cells of the board in reading order.
pub open spec fn cells(board: Board) -> Seq<int> {
    board.flatten()
}

/// The sum of all tile values.
pub open spec fn total(board: Board) -> int {
    sum(cells(board))
}

/// How many cells hold `value`.
pub open spec fn count_of(board: Board, value: int) -> nat {
    count(cells(board), value)
}

/// How many cells hold half of `value`.
pub open spec fn count_halves_of(board: Board, value: int) -> nat {
    count_halves(cells(board), value)
}

/// How many cells hold `value` or more.
pub open spec fn count_from_of(board: Board, value: int) -> nat {
    count_from(cells(board), value)
}

/// How many tiles lie on the board.
pub open spec fn tile_count(board: Board) -> nat {
    tiles_of(cells(board)).len()
}

/// The sum over the cells of a line of what `weight` makes of each.
spec fn weigh(line: Seq<int>, weight: spec_fn(int) -> int) -> int
    decreases line.len(),
{
    if line.len() == 0 {
        0
    } else {
        weigh(line.drop_last(), weight) + weight(line.last())
    }
}

/// The weight that makes `sum` of `weigh`.
spec fn by_value() -> spec_fn(int) -> int {
    |cell: int| cell
}

/// The weight that makes `count` of `weigh`.
spec fn by_match(value: int) -> spec_fn(int) -> int {
    |cell: int|
        if cell == value {
            1int
        } else {
            0int
        }
}

/// The weight that makes `count_from` of `weigh`.
spec fn by_reach(value: int) -> spec_fn(int) -> int {
    |cell: int|
        if cell >= value {
            1int
        } else {
            0int
        }
}

/// Sums and counts are weighings.
proof fn lemma_tally_weighs(line: Seq<int>, value: int)
    ensures
        sum(line) == weigh(line, by_value()),
        count(line, value) == weigh(line, by_match(value)),
        count_from(line, value) == weigh(line, by_reach(value)),
    decreases line.len(),
{
    if line.len() > 0 {
        lemma_tally_weighs(line.drop_last(), value);
    }
}

/// The weight of two lines laid end to end.
proof fn lemma_weigh_concat(front: Seq<int>, back: Seq<int>, weight: spec_fn(int) -> int)
    ensures
        weigh(front + back, weight) == weigh(front, weight) + weigh(back, weight),
    decreases back.len(),
{
    if back.len() == 0 {
        assert(front + back =~= front);
    } else {
        lemma_weigh_concat(front, back.drop_last(), weight);
        assert((front + back).drop_last() =~= front + back.drop_last());
    }
}

/// The weight of a line of four cells, cell by cell.
proof fn lemma_weigh_of_four(line: Seq<int>, weight: spec_fn(int) -> int)
    requires
        line.len() == 4,
    ensures
        weigh(line, weight) == weight(line[0]) + weight(line[1]) + weight(line[2]) + weight(
            line[3],
        ),
{
    reveal_with_fuel(weigh, 5);
}

/// What a change of one cell does to the weight of a line.
proof fn lemma_weigh_update(line: Seq<int>, p: int, cell: int, weight: spec_fn(int) -> int)
    requires
        0 <= p < line.len(),
    ensures
        weigh(line.update(p, cell), weight) == weigh(line, weight) - weight(line[p]) + weight(cell),
    decreases line.len(),
{
    let changed = line.update(p, cell);
    if p == line.len() - 1 {
        assert(changed.drop_last() =~= line.drop_last());
    } else {
        lemma_weigh_update(line.drop_last(), p, cell, weight);
        assert(changed.drop_last() =~= line.drop_last().update(p, cell));
    }
}

/// Empty cells weigh nothing where 0 weighs nothing.
proof fn lemma_weigh_tiles_of(line: Seq<int>, weight: spec_fn(int) -> int)
    requires
        weight(0) == 0,
    ensures
        weigh(tiles_of(line), weight) == weigh(line, weight),
    decreases line.len(),
{
    if line.len() > 0 {
        lemma_weigh_tiles_of(line.drop_last(), weight);
        assert(tiles_of(line.drop_last()).push(line.last()).drop_last() =~= tiles_of(
            line.drop_last(),
        ));
    }
}

/// The cells of a board are its four rows laid end to end.
proof fn lemma_cells_by_rows(board: Board)
    requires
        is_board(board),
    ensures
        cells(board) == board[0] + board[1] + board[2] + board[3],
        cells(board).len() == GRID_SIZE * GRID_SIZE,
{
    reveal_with_fuel(Seq::flatten, 5);
    assert(cells(board) =~= board[0] + board[1] + board[2] + board[3]);
}

/// The weight of the cell at place `pos` of line `line`.
spec fn weight_at(
    board: Board,
    direction: Direction,
    line: int,
    pos: int,
    weight: spec_fn(int) -> int,
) -> int {
    weight(board[row_of(direction, line, pos)][col_of(direction, line, pos)])
}

/// The weight of a line of the board, cell by cell.
spec fn weight_along(
    board: Board,
    direction: Direction,
    line: int,
    weight: spec_fn(int) -> int,
) -> int {
    weight_at(board, direction, line, 0, weight) + weight_at(board, direction, line, 1, weight)
        + weight_at(board, direction, line, 2, weight) + weight_at(
        board,
        direction,
        line,
        3,
        weight,
    )
}

/// The weight of the four lines of a board.
spec fn weigh_by_lines(board: Board, direction: Direction, weight: spec_fn(int) -> int) -> int {
    weigh(line_of(board, direction, 0), weight) + weigh(line_of(board, direction, 1), weight)
        + weigh(line_of(board, direction, 2), weight) + weigh(line_of(board, direction, 3), weight)
}

/// The weight of a line of the board is that of its four cells.
proof fn lemma_weigh_line(
    board: Board,
    direction: Direction,
    line: int,
    weight: spec_fn(int) -> int,
)
    requires
        is_board(board),
        0 <= line < GRID_SIZE,
    ensures
        weigh(line_of(board, direction, line), weight) == weight_along(
            board,
            direction,
            line,
            weight,
        ),
{
    lemma_weigh_of_four(line_of(board, direction, line), weight);
}

/// The weight of a board is that of its rows.
proof fn lemma_weigh_by_rows(board: Board, weight: spec_fn(int) -> int)
    requires
        is_board(board),
    ensures
        weigh(cells(board), weight) == weigh_by_lines(board, Direction::Left, weight),
{
    lemma_cells_by_rows(board);
    lemma_weigh_concat(board[0], board[1], weight);
    lemma_weigh_concat(board[0] + board[1], board[2], weight);
    lemma_weigh_concat(board[0] + board[1] + board[2], board[3], weight);
    assert(line_of(board, Direction::Left, 0) =~= board[0]);
    assert(line_of(board, Direction::Left, 1) =~= board[1]);
    assert(line_of(board, Direction::Left, 2) =~= board[2]);
    assert(line_of(board, Direction::Left, 3) =~= board[3]);
}

/// The cells of the lines of a board weigh the same whichever way the lines
/// run.
proof fn lemma_weights_agree(board: Board, direction: Direction, weight: spec_fn(int) -> int)
    requires
        is_board(board),
    ensures
        weight_along(board, direction, 0, weight) + weight_along(board, direction, 1, weight)
            + weight_along(board, direction, 2, weight) + weight_along(board, direction, 3, weight)
            == weight_along(board, Direction::Left, 0, weight) + weight_along(
            board,
            Direction::Left,
            1,
            weight,
        ) + weight_along(board, Direction::Left, 2, weight) + weight_along(
            board,
            Direction::Left,
            3,
            weight,
        ),
{
    match direction {
        Direction::Left => {},
        Direction::Right => {},
        Direction::Up => {},
        Direction::Down => {},
    }
}

/// Whichever way the lines run, together they hold every cell once.
proof fn lemma_weigh_by_lines(board: Board, direction: Direction, weight: spec_fn(int) -> int)
    requires
        is_board(board),
    ensures
        weigh(cells(board), weight) == weigh_by_lines(board, direction, weight),
{
    lemma_weigh_by_rows(board, weight);
    lemma_weights_agree(board, direction, weight);
    lemma_weigh_line(board, direction, 0, weight);
    lemma_weigh_line(board, direction, 1, weight);
    lemma_weigh_line(board, direction, 2, weight);
    lemma_weigh_line(board, direction, 3, weight);
    lemma_weigh_line(board, Direction::Left, 0, weight);
    lemma_weigh_line(board, Direction::Left, 1, weight);
    lemma_weigh_line(board, Direction::Left, 2, weight);
    lemma_weigh_line(board, Direction::Left, 3, weight);
}

/// The sum of the four lines of a board.
spec fn sum_by_lines(board: Board, direction: Direction) -> int {
    sum(line_of(board, direction, 0)) + sum(line_of(board, direction, 1)) + sum(
        line_of(board, direction, 2),
    ) + sum(line_of(board, direction, 3))
}

/// How often `value` occurs on the four lines of a board.
spec fn count_by_lines(board: Board, direction: Direction, value: int) -> nat {
    count(line_of(board, direction, 0), value) + count(line_of(board, direction, 1), value)
        + count(line_of(board, direction, 2), value) + count(line_of(board, direction, 3), value)
}

/// How often `value` or more occurs on the four lines of a board.
spec fn count_from_by_lines(board: Board, direction: Direction, value: int) -> nat {
    count_from(line_of(board, direction, 0), value) + count_from(
        line_of(board, direction, 1),
        value,
    ) + count_from(line_of(board, direction, 2), value) + count_from(
        line_of(board, direction, 3),
        value,
    )
}

/// The sum and the counts of a board are those of its lines, whichever way
/// the lines run.
proof fn lemma_tally_by_lines(board: Board, direction: Direction, value: int)
    requires
        is_board(board),
    ensures
        total(board) == sum_by_lines(board, direction),
        count_of(board, value) == count_by_lines(board, direction, value),
        count_from_of(board, value) == count_from_by_lines(board, direction, value),
{
    lemma_weigh_by_lines(board, direction, by_value());
    lemma_weigh_by_lines(board, direction, by_match(value));
    lemma_weigh_by_lines(board, direction, by_reach(value));
    lemma_tally_weighs(cells(board), value);
    lemma_tally_weighs(line_of(board, direction, 0), value);
    lemma_tally_weighs(line_of(board, direction, 1), value);
    lemma_tally_weighs(line_of(board, direction, 2), value);
    lemma_tally_weighs(line_of(board, direction, 3), value);
}

/// Each cell is either empty or a tile.
pub proof fn lemma_tiles_and_gaps(line: Seq<int>)
    ensures
        tiles_of(line).len() + count(line, 0) == line.len(),
    decreases line.len(),
{
    if line.len() > 0 {
        lemma_tiles_and_gaps(line.drop_last());
    }
}

/// Empty cells add nothing to the sum of a line, and no cell that holds a
/// non-zero value is lost among its tiles.
pub proof fn lemma_tally_tiles_of(line: Seq<int>, value: int)
    ensures
        sum(tiles_of(line)) == sum(line),
        value != 0 ==> count(tiles_of(line), value) == count(line, value),
        value > 0 ==> count_from(tiles_of(line), value) == count_from(line, value),
{
    lemma_tally_weighs(line, value);
    lemma_tally_weighs(tiles_of(line), value);
    lemma_weigh_tiles_of(line, by_value());
    if value != 0 {
        lemma_weigh_tiles_of(line, by_match(value));
    }
    if value > 0 {
        lemma_weigh_tiles_of(line, by_reach(value));
    }
}

/// Settling keeps the sum of the tiles; a value occurs afterwards at most as
/// often as it and its half occurred before.
pub proof fn lemma_tally_settle(tiles: Seq<int>, value: int)
    ensures
        sum(settle(tiles).tiles) == sum(tiles),
        count(settle(tiles).tiles, value) <= count(tiles, value) + count_halves(tiles, value),
    decreases tiles.len(),
{
    if tiles.len() > 0 {
        let rest = tiles.drop_last();
        let last = tiles.last();
        let before = settle(rest);
        lemma_tally_settle(rest, value);
        if before.tiles.len() > 0 && !before.sealed && before.tiles.last() == last {
            assert(before.tiles.drop_last().push(2 * last).drop_last() =~= before.tiles.drop_last());
        } else {
            assert(before.tiles.push(last).drop_last() =~= before.tiles);
        }
    }
}

/// 1 where the last settled tile is free to merge and holds `half` or more
/// but less than twice `half`: a merge would then add a tile of twice `half`
/// or more.
spec fn pending(settled: Settled, half: int) -> int {
    if settled.tiles.len() > 0 && !settled.sealed && half <= settled.tiles.last() < 2 * half {
        1
    } else {
        0
    }
}

/// Settling makes a tile of twice `half` or more only of one that was there
/// or of two tiles of `half` or more.
proof fn lemma_reach_settle(tiles: Seq<int>, half: int)
    requires
        half >= 0,
    ensures
        2 * count_from(settle(tiles).tiles, 2 * half) + pending(settle(tiles), half) <= count_from(
            tiles,
            2 * half,
        ) + count_from(tiles, half),
    decreases tiles.len(),
{
    if tiles.len() > 0 {
        let rest = tiles.drop_last();
        let last = tiles.last();
        let before = settle(rest);
        lemma_reach_settle(rest, half);
        if before.tiles.len() > 0 && !before.sealed && before.tiles.last() == last {
            assert(before.tiles.drop_last().push(2 * last).drop_last() =~= before.tiles.drop_last());
        } else {
            assert(before.tiles.push(last).drop_last() =~= before.tiles);
        }
    }
}

/// A move keeps the sum of a line. Each non-zero value occurs afterwards at
/// most as often as it and its half occurred before: every tile is either
/// kept or is the double of a tile that was there. No move adds a tile.
pub proof fn lemma_slide_line_tally(line: Seq<int>, value: int)
    ensures
        sum(slide_line(line)) == sum(line),
        value != 0 ==> count(slide_line(line), value) <= count(line, value) + count_halves(
            line,
            value,
        ),
        tiles_of(slide_line(line)).len() <= tiles_of(line).len(),
{
    crate::line::lemma_tiles_of_slide_line(line);
    crate::line::lemma_settle_bounds(tiles_of(line));
    lemma_tally_tiles_of(slide_line(line), value);
    lemma_tally_settle(tiles_of(line), value);
    lemma_tally_tiles_of(line, value);
    if value != 0 && value % 2 == 0 {
        lemma_tally_tiles_of(line, value / 2);
    }
}

/// After a move twice as many tiles of a line hold twice `half` or more as
/// before, at most, where each tile that held `half` or more counts for one
/// half: such a tile is one that was there already or is made of two tiles of
/// `half` or more.
pub proof fn lemma_slide_line_reach(line: Seq<int>, half: int)
    requires
        half > 0,
    ensures
        2 * count_from(slide_line(line), 2 * half) <= count_from(line, 2 * half) + count_from(
            line,
            half,
        ),
{
    crate::line::lemma_tiles_of_slide_line(line);
    lemma_tally_tiles_of(slide_line(line), 2 * half);
    lemma_reach_settle(tiles_of(line), half);
    lemma_tally_tiles_of(line, 2 * half);
    lemma_tally_tiles_of(line, half);
}

/// A move keeps the sum of all tile values. Each non-zero value occurs
/// afterwards at most as often as it and its half occurred before: the tiles
/// after a move are tiles that were there, unchanged, and doubles of tiles that
/// were there. No move adds a tile.
pub proof fn lemma_slide_tally(board: Board, direction: Direction, value: int)
    requires
        is_board(board),
    ensures
        total(slide(board, direction)) == total(board),
        value != 0 ==> count_of(slide(board, direction), value) <= count_of(board, value)
            + count_halves_of(board, value),
        tile_count(slide(board, direction)) <= tile_count(board),
{
    let after = slide(board, direction);
    crate::board::lemma_slide_lines(board, direction);
    lemma_tally_by_lines(board, direction, value);
    lemma_tally_by_lines(after, direction, value);
    lemma_tally_by_lines(board, direction, value / 2);
    lemma_tally_by_lines(board, direction, 0);
    lemma_tally_by_lines(after, direction, 0);
    lemma_cells_by_rows(board);
    lemma_cells_by_rows(after);
    lemma_tiles_and_gaps(cells(board));
    lemma_tiles_and_gaps(cells(after));
    assert forall|line: int| 0 <= line < GRID_SIZE implies {
        let before = line_of(board, direction, line);
        let slid = #[trigger] line_of(after, direction, line);
        &&& sum(slid) == sum(before)
        &&& value != 0 ==> count(slid, value) <= count(before, value) + count_halves(before, value)
        &&& count(slid, 0) >= count(before, 0)
    } by {
        let before = line_of(board, direction, line);
        lemma_slide_line_tally(before, value);
        lemma_tiles_and_gaps(before);
        lemma_tiles_and_gaps(slide_line(before));
    }
}

/// A move that leaves a line as many tiles as it had has merged none, and
/// keeps every tile of the line.
pub proof fn lemma_slide_line_without_merge(line: Seq<int>)
    requires
        tiles_of(slide_line(line)).len() == tiles_of(line).len(),
    ensures
        tiles_of(slide_line(line)) == tiles_of(line),
{
    crate::line::lemma_tiles_of_slide_line(line);
    crate::line::lemma_settle_fixed(tiles_of(line));
}

/// A move that leaves the board as many tiles as it had has merged none: it
/// keeps every tile, so that each non-zero value occurs as often afterwards as
/// before, and it keeps the sum of the tiles.
pub proof fn lemma_slide_without_merge(board: Board, direction: Direction, value: int)
    requires
        is_board(board),
        tile_count(slide(board, direction)) == tile_count(board),
        value != 0,
    ensures
        count_of(slide(board, direction), value) == count_of(board, value),
        total(slide(board, direction)) == total(board),
{
    let after = slide(board, direction);
    crate::board::lemma_slide_lines(board, direction);
    lemma_slide_tally(board, direction, value);
    lemma_tally_by_lines(board, direction, value);
    lemma_tally_by_lines(after, direction, value);
    lemma_tally_by_lines(board, direction, 0);
    lemma_tally_by_lines(after, direction, 0);
    lemma_cells_by_rows(board);
    lemma_cells_by_rows(after);
    lemma_tiles_and_gaps(cells(board));
    lemma_tiles_and_gaps(cells(after));
    assert forall|line: int| 0 <= line < GRID_SIZE implies count(
        #[trigger] line_of(after, direction, line),
        0,
    ) >= count(line_of(board, direction, line), 0) by {
        let before = line_of(board, direction, line);
        lemma_slide_line_tally(before, value);
        lemma_tiles_and_gaps(before);
        lemma_tiles_and_gaps(slide_line(before));
    }
    assert forall|line: int| 0 <= line < GRID_SIZE implies count(
        #[trigger] line_of(after, direction, line),
        value,
    ) == count(line_of(board, direction, line), value) by {
        let before = line_of(board, direction, line);
        assert(count(line_of(after, direction, line), 0) == count(before, 0));
        lemma_tiles_and_gaps(before);
        lemma_tiles_and_gaps(slide_line(before));
        lemma_slide_line_without_merge(before);
        lemma_tally_tiles_of(before, value);
        lemma_tally_tiles_of(slide_line(before), value);
    }
}

/// After a move twice as many tiles hold twice `half` or more as before, at
/// most, where each tile that held `half` or more counts for one half.
pub proof fn lemma_slide_reach(board: Board, direction: Direction, half: int)
    requires
        is_board(board),
        half > 0,
    ensures
        2 * count_from_of(slide(board, direction), 2 * half) <= count_from_of(board, 2 * half)
            + count_from_of(board, half),
{
    let after = slide(board, direction);
    crate::board::lemma_slide_lines(board, direction);
    lemma_tally_by_lines(board, direction, 2 * half);
    lemma_tally_by_lines(board, direction, half);
    lemma_tally_by_lines(after, direction, 2 * half);
    assert forall|line: int| 0 <= line < GRID_SIZE implies 2 * count_from(
        #[trigger] line_of(after, direction, line),
        2 * half,
    ) <= count_from(line_of(board, direction, line), 2 * half) + count_from(
        line_of(board, direction, line),
        half,
    ) by {
        lemma_slide_line_reach(line_of(board, direction, line), half);
    }
}

/// A tile put into an empty cell adds its value to the sum and one to the
/// number of tiles; it adds one to the tiles that hold `value` or more where
/// it is one of them.
pub proof fn lemma_place_tally(board: Board, r: int, c: int, tile: int, value: int)
    requires
        is_board(board),
        in_grid(r, c),
        board[r][c] == 0,
        tile != 0,
        value > 0,
    ensures
        is_board(place(board, r, c, tile)),
        total(place(board, r, c, tile)) == total(board) + tile,
        tile_count(place(board, r, c, tile)) == tile_count(board) + 1,
        count_from_of(place(board, r, c, tile), value) == count_from_of(board, value) + (if tile
            >= value {
            1int
        } else {
            0int
        }),
{
    let after = place(board, r, c, tile);
    lemma_cells_by_rows(board);
    lemma_cells_by_rows(after);
    let p = GRID_SIZE * r + c;
    assert(cells(after) =~= cells(board).update(p, tile));
    assert(cells(board)[p] == board[r][c]);
    lemma_tally_weighs(cells(board), 0);
    lemma_tally_weighs(cells(after), 0);
    lemma_tally_weighs(cells(board), value);
    lemma_tally_weighs(cells(after), value);
    lemma_weigh_update(cells(board), p, tile, by_value());
    lemma_weigh_update(cells(board), p, tile, by_match(0));
    lemma_weigh_update(cells(board), p, tile, by_reach(value));
    lemma_tiles_and_gaps(cells(board));
    lemma_tiles_and_gaps(cells(after));
}

/// A board without a tile has no tile to count and every cell to spare.
pub proof fn lemma_blank(board: Board)
    requires
        is_board(board),
        forall|r: int, c: int| in_grid(r, c) ==> (#[trigger] board[r][c]) == 0,
    ensures
        tile_count(board) == 0,
        total(board) == 0,
        forall|value: int| value > 0 ==> #[trigger] count_from_of(board, value) == 0,
        has_empty(board),
        is_well_formed(board),
{
    lemma_cells_by_rows(board);
    assert(in_grid(0, 0) && board[0][0] == 0);
    assert forall|p: int| 0 <= p < cells(board).len() implies cells(board)[p] == 0 by {
        assert(in_grid(p / 4, p % 4));
        assert(cells(board)[p] == board[p / 4][p % 4]);
    }
    lemma_all_gaps(cells(board));
    assert forall|value: int| value > 0 implies #[trigger] count_from_of(board, value) == 0 by {
        lemma_none_from(cells(board), value);
    }
}

/// A line of empty cells has no tile and sums to nothing.
proof fn lemma_all_gaps(line: Seq<int>)
    requires
        forall|p: int| 0 <= p < line.len() ==> line[p] == 0,
    ensures
        tiles_of(line).len() == 0,
        sum(line) == 0,
    decreases line.len(),
{
    if line.len() > 0 {
        lemma_all_gaps(line.drop_last());
    }
}

/// Where every cell is below `value`, none holds `value` or more.
proof fn lemma_none_from(line: Seq<int>, value: int)
    requires
        forall|p: int| 0 <= p < line.len() ==> line[p] < value,
    ensures
        count_from(line, value) == 0,
    decreases line.len(),
{
    if line.len() > 0 {
        lemma_none_from(line.drop_last(), value);
    }
}

/// A cell that holds `value` or more is counted.
proof fn lemma_some_from(line: Seq<int>, p: int, value: int)
    requires
        0 <= p < line.len(),
        line[p] >= value,
    ensures
        count_from(line, value) >= 1,
    decreases line.len(),
{
    if p < line.len() - 1 {
        lemma_some_from(line.drop_last(), p, value);
    }
}

/// No more cells hold `value` or more than there are cells.
proof fn lemma_count_from_bound(line: Seq<int>, value: int)
    ensures
        count_from(line, value) <= line.len(),
    decreases line.len(),
{
    if line.len() > 0 {
        lemma_count_from_bound(line.drop_last(), value);
    }
}

/// No more cells of a board hold `value` or more than the board has cells,
/// and where none does, every cell is below `value`.
pub proof fn lemma_count_from_of(board: Board, value: int)
    requires
        is_board(board),
    ensures
        count_from_of(board, value) <= GRID_SIZE * GRID_SIZE,
        count_from_of(board, value) == 0 ==> forall|r: int, c: int|
            in_grid(r, c) ==> (#[trigger] board[r][c]) < value,
{
    lemma_cells_by_rows(board);
    lemma_count_from_bound(cells(board), value);
    if count_from_of(board, value) == 0 {
        assert forall|r: int, c: int| in_grid(r, c) implies (#[trigger] board[r][c]) < value by {
            let p = GRID_SIZE * r + c;
            assert(cells(board)[p] == board[r][c]);
            if board[r][c] >= value {
                lemma_some_from(cells(board), p, value);
            }
        }
    }
}

/// A board with fewer tiles than cells has an empty cell.
pub proof fn lemma_room_for_more(board: Board)
    requires
        is_board(board),
        tile_count(board) < GRID_SIZE * GRID_SIZE,
    ensures
        has_empty(board),
{
    lemma_cells_by_rows(board);
    crate::line::lemma_tiles_of_bounds(cells(board));
    if forall|p: int| 0 <= p < cells(board).len() ==> cells(board)[p] != 0 {
        crate::line::lemma_tiles_of_full(cells(board));
    } else {
        let p = choose|p: int| 0 <= p < cells(board).len() && cells(board)[p] == 0;
        let r = p / 4;
        let c = p % 4;
        assert(in_grid(r, c));
        assert(board[r][c] == cells(board)[p]);
    }
}

} // verus!
