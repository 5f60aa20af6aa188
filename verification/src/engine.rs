//! The grid engine: sliding the tiles toward an edge.
//!
//! A move goes through the lines one by one. On each line it takes the tiles
//! in turn, nearest the edge first, and pushes each toward the edge a cell at
//! a time until it meets the edge, a tile it cannot join, or a tile of its own
//! value that has not taken in a merge during this move.

use crate::board::{
    col_of, has_empty, in_grid, is_board, is_settled, is_well_formed, is_within, line_of,
    line_through, place_on_line, row_of, slide, Board, Direction, GRID_SIZE,
};
use crate::capacity::is_within_capacity;
use crate::game::GameState;
use crate::line::{absorb, merges_once, settle, slide_line, tiles_of};
use crate::tally::{count_halves_of, count_of, tile_count, total};
use vstd::prelude::*;

verus! {

impl GameState {
    /// Slides all tiles toward the edge that `direction` names and merges equal
    /// tiles that meet, each tile at most once. Returns whether any cell
    /// changed.
    ///
    /// The outcome must fit the cells: no merge may produce a value above
    /// `u32::MAX`. That holds on every grid within capacity, and so throughout
    /// a game (`lemma_capacity_fits`), and wherever every tile is at most
    /// `u32::MAX / 2` (`lemma_slide_within`); `move_fits` tells it of any grid.
    pub fn move_tiles(&mut self, direction: Direction) -> (moved: bool)
        requires
            is_within(slide(old(self)@, direction), u32::MAX as int),
        ensures
            final(self)@ == slide(old(self)@, direction),
            moved == (final(self)@ != old(self)@),
            moved == !is_settled(old(self)@, direction),
            moved ==> has_empty(final(self)@),
            total(final(self)@) == total(old(self)@),
            tile_count(final(self)@) <= tile_count(old(self)@),
            forall|value: int|
                value != 0 ==> #[trigger] count_of(final(self)@, value) <= count_of(
                    old(self)@,
                    value,
                ) + count_halves_of(old(self)@, value),
            tile_count(final(self)@) == tile_count(old(self)@) ==> forall|value: int|
                value != 0 ==> #[trigger] count_of(final(self)@, value) == count_of(
                    old(self)@,
                    value,
                ),
            forall|line: int|
                0 <= line < GRID_SIZE ==> merges_once(
                    line_of(old(self)@, direction, line),
                    #[trigger] line_of(final(self)@, direction, line),
                ),
            is_well_formed(old(self)@) ==> is_well_formed(final(self)@),
            is_within_capacity(old(self)@) ==> is_within_capacity(final(self)@),
            final(self).game_over == old(self).game_over,
    {
        let moved = match direction {
            Direction::Up => self.move_up(),
            Direction::Down => self.move_down(),
            Direction::Left => self.move_left(),
            Direction::Right => self.move_right(),
        };
        proof {
            let before = old(self)@;
            old(self).lemma_view_is_board();
            crate::laws::lemma_slide_fixed(before, direction);
            crate::laws::lemma_slide_merges_once(before, direction);
            if moved {
                crate::laws::lemma_moved_leaves_room(before, direction);
            }
            assert forall|value: int| value != 0 implies #[trigger] count_of(self@, value)
                <= count_of(before, value) + count_halves_of(before, value) by {
                crate::tally::lemma_slide_tally(before, direction, value);
            }
            crate::tally::lemma_slide_tally(before, direction, 0);
            if tile_count(self@) == tile_count(before) {
                assert forall|value: int| value != 0 implies #[trigger] count_of(self@, value)
                    == count_of(before, value) by {
                    crate::tally::lemma_slide_without_merge(before, direction, value);
                }
            }
        }
        moved
    }

    /// Slides all tiles toward the right edge. Returns whether any cell
    /// changed.
    pub fn move_right(&mut self) -> (moved: bool)
        requires
            is_within(slide(old(self)@, Direction::Right), u32::MAX as int),
        ensures
            final(self)@ == slide(old(self)@, Direction::Right),
            moved == (final(self)@ != old(self)@),
            is_well_formed(old(self)@) ==> is_well_formed(final(self)@),
            is_within_capacity(old(self)@) ==> is_within_capacity(final(self)@),
            final(self).game_over == old(self).game_over,
    {
        self.shift(Direction::Right)
    }

    /// Slides all tiles toward the left edge. Returns whether any cell changed.
    pub fn move_left(&mut self) -> (moved: bool)
        requires
            is_within(slide(old(self)@, Direction::Left), u32::MAX as int),
        ensures
            final(self)@ == slide(old(self)@, Direction::Left),
            moved == (final(self)@ != old(self)@),
            is_well_formed(old(self)@) ==> is_well_formed(final(self)@),
            is_within_capacity(old(self)@) ==> is_within_capacity(final(self)@),
            final(self).game_over == old(self).game_over,
    {
        self.shift(Direction::Left)
    }

    /// Slides all tiles toward the top edge. Returns whether any cell changed.
    pub fn move_up(&mut self) -> (moved: bool)
        requires
            is_within(slide(old(self)@, Direction::Up), u32::MAX as int),
        ensures
            final(self)@ == slide(old(self)@, Direction::Up),
            moved == (final(self)@ != old(self)@),
            is_well_formed(old(self)@) ==> is_well_formed(final(self)@),
            is_within_capacity(old(self)@) ==> is_within_capacity(final(self)@),
            final(self).game_over == old(self).game_over,
    {
        self.shift(Direction::Up)
    }

    /// Slides all tiles toward the bottom edge. Returns whether any cell
    /// changed.
    pub fn move_down(&mut self) -> (moved: bool)
        requires
            is_within(slide(old(self)@, Direction::Down), u32::MAX as int),
        ensures
            final(self)@ == slide(old(self)@, Direction::Down),
            moved == (final(self)@ != old(self)@),
            is_well_formed(old(self)@) ==> is_well_formed(final(self)@),
            is_within_capacity(old(self)@) ==> is_within_capacity(final(self)@),
            final(self).game_over == old(self).game_over,
    {
        self.shift(Direction::Down)
    }

    /// Whether a move in `direction` can be made: whether every tile that it
    /// would produce fits a cell. Only a merge of two tiles above `u32::MAX / 2`
    /// does not.
    pub fn move_fits(&self, direction: Direction) -> (fits: bool)
        ensures
            fits == is_within(slide(self@, direction), u32::MAX as int),
    {
        let mut line: usize = 0;
        proof {
            self.lemma_view_is_board();
            crate::board::lemma_slide_lines(self@, direction);
        }
        while line < GRID_SIZE
            invariant
                line <= GRID_SIZE,
                is_board(self@),
                forall|l: int, p: int|
                    0 <= l < line && 0 <= p < GRID_SIZE ==> (#[trigger] slide_line(
                        line_of(self@, direction, l),
                    )[p]) <= u32::MAX,
            decreases GRID_SIZE - line,
        {
            if !self.line_fits(direction, line) {
                proof {
                    if is_within(slide(self@, direction), u32::MAX as int) {
                        lemma_fits_by_line(self@, direction, line as int);
                    }
                }
                return false;
            }
            line += 1;
        }
        proof {
            assert forall|r: int, c: int| in_grid(r, c) implies (#[trigger] slide(
                self@,
                direction,
            )[r][c]) <= u32::MAX by {
                let l = line_through(direction, r, c);
                let p = place_on_line(direction, r, c);
                assert(slide_line(line_of(self@, direction, l))[p] <= u32::MAX);
            }
        }
        true
    }
}

impl GameState {
    /// Slides every line toward the edge that `direction` names and says
    /// whether the grid changed.
    fn shift(&mut self, direction: Direction) -> (moved: bool)
        requires
            is_within(slide(old(self)@, direction), u32::MAX as int),
        ensures
            final(self)@ == slide(old(self)@, direction),
            moved == (final(self)@ != old(self)@),
            is_well_formed(old(self)@) ==> is_well_formed(final(self)@),
            is_within_capacity(old(self)@) ==> is_within_capacity(final(self)@),
            final(self).game_over == old(self).game_over,
    {
        let ghost board = self@;
        let mut moved = false;
        let mut marks: Marks = [[false; GRID_SIZE]; GRID_SIZE];
        let mut line: usize = 0;
        proof {
            crate::board::lemma_slide_lines(board, direction);
        }
        while line < GRID_SIZE
            invariant
                line <= GRID_SIZE,
                is_board(board),
                is_within(slide(board, direction), u32::MAX as int),
                forall|l: int|
                    0 <= l < line ==> #[trigger] line_of(self@, direction, l) == slide_line(
                        line_of(board, direction, l),
                    ),
                forall|l: int|
                    line <= l < GRID_SIZE ==> #[trigger] line_of(self@, direction, l) == line_of(
                        board,
                        direction,
                        l,
                    ),
                forall|l: int, p: int|
                    line <= l < GRID_SIZE && 0 <= p < GRID_SIZE ==> !(#[trigger] marks_of(
                        marks,
                        direction,
                        l,
                    )[p]),
                moved == (exists|l: int|
                    0 <= l < line && #[trigger] line_of(self@, direction, l) != line_of(
                        board,
                        direction,
                        l,
                    )),
                self.game_over == old(self).game_over,
                board == old(self)@,
            decreases GRID_SIZE - line,
        {
            let ghost before = self@;
            proof {
                lemma_fits_by_line(board, direction, line as int);
            }
            let stirred = self.shift_line(&mut marks, direction, line);
            if stirred {
                moved = true;
            }
            proof {
                assert forall|l: int| 0 <= l < line + 1 implies #[trigger] line_of(
                    self@,
                    direction,
                    l,
                ) == slide_line(line_of(board, direction, l)) by {
                    if l < line {
                        assert(line_of(self@, direction, l) == line_of(before, direction, l));
                    }
                }
                if stirred {
                    assert(line_of(self@, direction, line as int) != line_of(
                        board,
                        direction,
                        line as int,
                    ));
                } else if moved {
                    let l = choose|l: int|
                        0 <= l < line && #[trigger] line_of(before, direction, l) != line_of(
                            board,
                            direction,
                            l,
                        );
                    assert(line_of(self@, direction, l) == line_of(before, direction, l));
                } else {
                    assert forall|l: int| 0 <= l < line + 1 implies #[trigger] line_of(
                        self@,
                        direction,
                        l,
                    ) == line_of(board, direction, l) by {
                        if l < line {
                            assert(line_of(self@, direction, l) == line_of(before, direction, l));
                        }
                    }
                }
            }
            line += 1;
        }
        proof {
            self.lemma_view_is_board();
            crate::board::lemma_equal_by_lines(self@, slide(board, direction), direction);
            if !moved {
                crate::board::lemma_equal_by_lines(self@, board, direction);
            }
            if is_well_formed(board) {
                crate::laws::lemma_slide_well_formed(board, direction);
            }
            if is_within_capacity(board) {
                crate::capacity::lemma_slide_within_capacity(board, direction);
            }
        }
        moved
    }

    /// Slides one line toward its edge and says whether it changed.
    fn shift_line(&mut self, marks: &mut Marks, direction: Direction, line: usize) -> (moved: bool)
        requires
            line < GRID_SIZE,
            forall|p: int|
                0 <= p < GRID_SIZE ==> !marks_of(*old(marks), direction, line as int)[p],
            forall|p: int|
                0 <= p < GRID_SIZE ==> slide_line(line_of(old(self)@, direction, line as int))[p]
                    <= u32::MAX,
        ensures
            line_of(final(self)@, direction, line as int) == slide_line(
                line_of(old(self)@, direction, line as int),
            ),
            moved == (line_of(final(self)@, direction, line as int) != line_of(
                old(self)@,
                direction,
                line as int,
            )),
            forall|other: int|
                0 <= other < GRID_SIZE && other != line ==> #[trigger] line_of(
                    final(self)@,
                    direction,
                    other,
                ) == line_of(old(self)@, direction, other),
            forall|other: int|
                0 <= other < GRID_SIZE && other != line ==> #[trigger] marks_of(
                    *final(marks),
                    direction,
                    other,
                ) == marks_of(*old(marks), direction, other),
            final(self).game_over == old(self).game_over,
    {
        let ghost start = line_of(self@, direction, line as int);
        let ghost board = self@;
        let ghost all_marks = *marks;
        let mut moved = false;
        let mut pos: usize = 1;
        proof {
            lemma_progress_start(start, marks_of(*marks, direction, line as int));
            lemma_progress_step(start, start, marks_of(*marks, direction, line as int), 0);
            if start[0] != 0 {
                assert(cells_after(start, marks_of(*marks, direction, line as int), 0, 0) =~= start);
            }
        }
        while pos < GRID_SIZE
            invariant
                line < GRID_SIZE,
                1 <= pos <= GRID_SIZE,
                start.len() == GRID_SIZE,
                in_progress(
                    start,
                    line_of(self@, direction, line as int),
                    marks_of(*marks, direction, line as int),
                    pos as int,
                ),
                forall|p: int| 0 <= p < GRID_SIZE ==> slide_line(start)[p] <= u32::MAX,
                moved == !same_upto(line_of(self@, direction, line as int), start, pos as int),
                forall|other: int|
                    0 <= other < GRID_SIZE && other != line ==> #[trigger] line_of(
                        self@,
                        direction,
                        other,
                    ) == line_of(board, direction, other),
                forall|other: int|
                    0 <= other < GRID_SIZE && other != line ==> #[trigger] marks_of(
                        *marks,
                        direction,
                        other,
                    ) == marks_of(all_marks, direction, other),
                self.game_over == old(self).game_over,
                start == line_of(old(self)@, direction, line as int),
                board == old(self)@,
                all_marks == *old(marks),
            decreases GRID_SIZE - pos,
        {
            let ghost cells = line_of(self@, direction, line as int);
            let ghost flags = marks_of(*marks, direction, line as int);
            let ghost settled = settle(tiles_of(start.take(pos as int))).tiles.len() as int;
            proof {
                lemma_progress_step(start, cells, flags, pos as int);
            }
            if self.tile(direction, line, pos) != 0 {
                let stirred = self.advance(marks, direction, line, pos, Ghost(settled));
                if stirred {
                    moved = true;
                }
                proof {
                    let next = line_of(self@, direction, line as int);
                    if stirred {
                        assert(next[pos as int] == 0);
                    } else {
                        assert(next =~= cells);
                    }
                }
            }
            pos += 1;
        }
        proof {
            lemma_progress_done(
                start,
                line_of(self@, direction, line as int),
                marks_of(*marks, direction, line as int),
            );
            if !moved {
                assert(line_of(self@, direction, line as int) =~= start);
            }
        }
        moved
    }

    /// Pushes the tile at place `from` of a line toward the edge, a cell at a
    /// time, until it comes to rest or joins the tile in its way. Says whether
    /// anything changed.
    fn advance(
        &mut self,
        marks: &mut Marks,
        direction: Direction,
        line: usize,
        from: usize,
        Ghost(settled): Ghost<int>,
    ) -> (moved: bool)
        requires
            line < GRID_SIZE,
            from < GRID_SIZE,
            0 <= settled <= from,
            forall|p: int|
                0 <= p < settled ==> line_of(old(self)@, direction, line as int)[p] != 0,
            forall|p: int|
                settled <= p < from ==> line_of(old(self)@, direction, line as int)[p] == 0,
            line_of(old(self)@, direction, line as int)[from as int] != 0,
            joins(
                line_of(old(self)@, direction, line as int),
                marks_of(*old(marks), direction, line as int),
                settled,
                from as int,
            ) ==> 2 * line_of(old(self)@, direction, line as int)[from as int] <= u32::MAX,
        ensures
            line_of(final(self)@, direction, line as int) == cells_after(
                line_of(old(self)@, direction, line as int),
                marks_of(*old(marks), direction, line as int),
                settled,
                from as int,
            ),
            marks_of(*final(marks), direction, line as int) == marks_after(
                line_of(old(self)@, direction, line as int),
                marks_of(*old(marks), direction, line as int),
                settled,
                from as int,
            ),
            moved == (settled < from || joins(
                line_of(old(self)@, direction, line as int),
                marks_of(*old(marks), direction, line as int),
                settled,
                from as int,
            )),
            forall|other: int|
                0 <= other < GRID_SIZE && other != line ==> #[trigger] line_of(
                    final(self)@,
                    direction,
                    other,
                ) == line_of(old(self)@, direction, other),
            forall|other: int|
                0 <= other < GRID_SIZE && other != line ==> #[trigger] marks_of(
                    *final(marks),
                    direction,
                    other,
                ) == marks_of(*old(marks), direction, other),
            final(self).game_over == old(self).game_over,
    {
        let ghost cells = line_of(self@, direction, line as int);
        let ghost flags = marks_of(*marks, direction, line as int);
        let ghost board = self@;
        let ghost all_marks = *marks;
        let value = self.tile(direction, line, from);
        let mut at = from;
        let mut moved = false;
        assert(cells.update(from as int, 0).update(at as int, value as int) =~= cells);
        while at > 0
            invariant
                line < GRID_SIZE,
                from < GRID_SIZE,
                settled <= at <= from,
                cells.len() == GRID_SIZE,
                flags.len() == GRID_SIZE,
                value != 0,
                value == cells[from as int],
                forall|p: int| 0 <= p < settled ==> cells[p] != 0,
                forall|p: int| settled <= p < from ==> cells[p] == 0,
                joins(cells, flags, settled, from as int) ==> 2 * value <= u32::MAX,
                line_of(self@, direction, line as int) == cells.update(from as int, 0).update(
                    at as int,
                    value as int,
                ),
                marks_of(*marks, direction, line as int) == flags,
                moved == (at < from),
                forall|other: int|
                    0 <= other < GRID_SIZE && other != line ==> #[trigger] line_of(
                        self@,
                        direction,
                        other,
                    ) == line_of(board, direction, other),
                forall|other: int|
                    0 <= other < GRID_SIZE && other != line ==> #[trigger] marks_of(
                        *marks,
                        direction,
                        other,
                    ) == marks_of(all_marks, direction, other),
                self.game_over == old(self).game_over,
                cells == line_of(old(self)@, direction, line as int),
                flags == marks_of(*old(marks), direction, line as int),
                board == old(self)@,
                all_marks == *old(marks),
            decreases at,
        {
            let ahead = self.tile(direction, line, at - 1);
            if ahead == 0 {
                self.set_tile(direction, line, at - 1, value);
                self.set_tile(direction, line, at, 0);
                moved = true;
                at -= 1;
                assert(line_of(self@, direction, line as int) =~= cells.update(
                    from as int,
                    0,
                ).update(at as int, value as int));
            } else if ahead == value && !is_marked(marks, direction, line, at - 1) {
                assert(at == settled);
                self.set_tile(direction, line, at - 1, ahead * 2);
                self.set_tile(direction, line, at, 0);
                mark(marks, direction, line, at - 1);
                assert(line_of(self@, direction, line as int) =~= cells_after(
                    cells,
                    flags,
                    settled,
                    from as int,
                ));
                return true;
            } else {
                assert(at == settled);
                return moved;
            }
        }
        moved
    }

    /// Whether every tile that a move would produce on one line fits a cell.
    fn line_fits(&self, direction: Direction, line: usize) -> (fits: bool)
        requires
            line < GRID_SIZE,
        ensures
            fits == (forall|p: int|
                0 <= p < GRID_SIZE ==> (#[trigger] slide_line(
                    line_of(self@, direction, line as int),
                )[p]) <= u32::MAX),
    {
        let ghost start = line_of(self@, direction, line as int);
        let mut last: u32 = 0;
        let mut open = false;
        let mut pos: usize = 0;
        proof {
            self.lemma_view_is_board();
            assert(start.take(0) =~= Seq::<int>::empty());
        }
        while pos < GRID_SIZE
            invariant
                line < GRID_SIZE,
                pos <= GRID_SIZE,
                start == line_of(self@, direction, line as int),
                forall|p: int| 0 <= p < GRID_SIZE ==> 0 <= #[trigger] start[p] <= u32::MAX,
                open == (settle(tiles_of(start.take(pos as int))).tiles.len() > 0 && !settle(
                    tiles_of(start.take(pos as int)),
                ).sealed),
                open ==> last == settle(tiles_of(start.take(pos as int))).tiles.last(),
                forall|t: int|
                    0 <= t < settle(tiles_of(start.take(pos as int))).tiles.len() ==> (
                    #[trigger] settle(tiles_of(start.take(pos as int))).tiles[t]) <= u32::MAX,
            decreases GRID_SIZE - pos,
        {
            let tile = self.tile(direction, line, pos);
            proof {
                let seen = start.take(pos as int);
                assert(start.take(pos + 1) =~= seen.push(tile as int));
                crate::line::lemma_tiles_of_push(seen, tile as int);
                if tile != 0 {
                    assert(tiles_of(seen).push(tile as int).drop_last() =~= tiles_of(seen));
                }
            }
            if tile != 0 {
                if open && last == tile {
                    if tile > u32::MAX / 2 {
                        proof {
                            lemma_sealed_tile_stays(start, pos + 1);
                        }
                        return false;
                    }
                    open = false;
                } else {
                    last = tile;
                    open = true;
                }
            }
            pos += 1;
        }
        proof {
            crate::line::lemma_slide_line_settles(start);
            assert(start.take(GRID_SIZE as int) =~= start);
        }
        true
    }
}

/// The marks that tell which cells have taken in a merge during the current
/// move.
type Marks = [[bool; GRID_SIZE]; GRID_SIZE];

/// The marks along line `line`, read from the target edge.
spec fn marks_of(marks: Marks, direction: Direction, line: int) -> Seq<bool> {
    Seq::new(
        GRID_SIZE as nat,
        |pos: int| marks[row_of(direction, line, pos)][col_of(direction, line, pos)],
    )
}

/// The row and the column of the cell at place `pos` of line `line`.
fn cell_at(direction: Direction, line: usize, pos: usize) -> (cell: (usize, usize))
    requires
        line < GRID_SIZE,
        pos < GRID_SIZE,
    ensures
        cell.0 == row_of(direction, line as int, pos as int),
        cell.1 == col_of(direction, line as int, pos as int),
        cell.0 < GRID_SIZE,
        cell.1 < GRID_SIZE,
{
    match direction {
        Direction::Left => (line, pos),
        Direction::Right => (line, GRID_SIZE - 1 - pos),
        Direction::Up => (pos, line),
        Direction::Down => (GRID_SIZE - 1 - pos, line),
    }
}

/// Whether the cell at place `pos` of line `line` has taken in a merge.
fn is_marked(marks: &Marks, direction: Direction, line: usize, pos: usize) -> (marked: bool)
    requires
        line < GRID_SIZE,
        pos < GRID_SIZE,
    ensures
        marked == marks_of(*marks, direction, line as int)[pos as int],
{
    let (r, c) = cell_at(direction, line, pos);
    marks[r][c]
}

/// Notes that the cell at place `pos` of line `line` has taken in a merge.
fn mark(marks: &mut Marks, direction: Direction, line: usize, pos: usize)
    requires
        line < GRID_SIZE,
        pos < GRID_SIZE,
    ensures
        marks_of(*final(marks), direction, line as int) == marks_of(
            *old(marks),
            direction,
            line as int,
        ).update(pos as int, true),
        forall|other: int|
            0 <= other < GRID_SIZE && other != line ==> #[trigger] marks_of(
                *final(marks),
                direction,
                other,
            ) == marks_of(*old(marks), direction, other),
{
    let (r, c) = cell_at(direction, line, pos);
    marks[r][c] = true;
    assert(marks_of(*marks, direction, line as int) =~= marks_of(
        *old(marks),
        direction,
        line as int,
    ).update(pos as int, true));
    assert forall|other: int| 0 <= other < GRID_SIZE && other != line implies #[trigger] marks_of(
        *marks,
        direction,
        other,
    ) == marks_of(*old(marks), direction, other) by {
        assert(marks_of(*marks, direction, other) =~= marks_of(*old(marks), direction, other));
    }
}

impl GameState {
    /// The value at place `pos` of line `line`.
    fn tile(&self, direction: Direction, line: usize, pos: usize) -> (value: u32)
        requires
            line < GRID_SIZE,
            pos < GRID_SIZE,
        ensures
            value == line_of(self@, direction, line as int)[pos as int],
    {
        let (r, c) = cell_at(direction, line, pos);
        self.grid[r][c]
    }

    /// Puts `value` at place `pos` of line `line`.
    fn set_tile(&mut self, direction: Direction, line: usize, pos: usize, value: u32)
        requires
            line < GRID_SIZE,
            pos < GRID_SIZE,
        ensures
            line_of(final(self)@, direction, line as int) == line_of(
                old(self)@,
                direction,
                line as int,
            ).update(pos as int, value as int),
            forall|other: int|
                0 <= other < GRID_SIZE && other != line ==> #[trigger] line_of(
                    final(self)@,
                    direction,
                    other,
                ) == line_of(old(self)@, direction, other),
            final(self).game_over == old(self).game_over,
    {
        let (r, c) = cell_at(direction, line, pos);
        self.grid[r][c] = value;
        assert(line_of(self@, direction, line as int) =~= line_of(
            old(self)@,
            direction,
            line as int,
        ).update(pos as int, value as int));
        assert forall|other: int| 0 <= other < GRID_SIZE && other != line implies #[trigger] line_of(
            self@,
            direction,
            other,
        ) == line_of(old(self)@, direction, other) by {
            assert(line_of(self@, direction, other) =~= line_of(old(self)@, direction, other));
        }
    }
}

/// The tile at place `from` meets a settled tile of its own value that has not
/// taken in a merge: the two become one.
spec fn joins(cells: Seq<int>, marks: Seq<bool>, settled: int, from: int) -> bool {
    settled > 0 && cells[settled - 1] == cells[from] && !marks[settled - 1]
}

/// The line once the tile at place `from` has come to rest, where the first
/// `settled` places hold the tiles that rest already.
spec fn cells_after(cells: Seq<int>, marks: Seq<bool>, settled: int, from: int) -> Seq<int> {
    if joins(cells, marks, settled, from) {
        cells.update(from, 0).update(settled - 1, 2 * cells[from])
    } else {
        cells.update(from, 0).update(settled, cells[from])
    }
}

/// The marks once the tile at place `from` has come to rest.
spec fn marks_after(cells: Seq<int>, marks: Seq<bool>, settled: int, from: int) -> Seq<bool> {
    if joins(cells, marks, settled, from) {
        marks.update(settled - 1, true)
    } else {
        marks
    }
}

/// The two lines agree on their first `n` places.
spec fn same_upto(first: Seq<int>, second: Seq<int>, n: int) -> bool {
    forall|p: int| 0 <= p < n ==> first[p] == second[p]
}

/// The state of a line whose first `done` places have been dealt with: the
/// tiles that stood there rest against the edge as `settle` says, the places
/// behind them are empty, the rest of the line is as it was at the start, and
/// the only mark that may be set among the places still to fill is that of the
/// last resting tile.
spec fn in_progress(start: Seq<int>, cells: Seq<int>, marks: Seq<bool>, done: int) -> bool {
    let resting = settle(tiles_of(start.take(done)));
    let settled = resting.tiles.len() as int;
    &&& cells.len() == start.len()
    &&& marks.len() == start.len()
    &&& 0 <= done <= start.len()
    &&& settled <= done
    &&& forall|p: int| 0 <= p < settled ==> cells[p] == resting.tiles[p]
    &&& forall|p: int| settled <= p < done ==> cells[p] == 0
    &&& forall|p: int| done <= p < start.len() ==> cells[p] == start[p]
    &&& settled > 0 ==> marks[settled - 1] == resting.sealed
    &&& forall|p: int| settled <= p < start.len() ==> !marks[p]
}

/// A merged tile stays where it is for the rest of the move: once the first
/// `done` places of a line have led to a merge, the slid line shows the merged
/// tile.
proof fn lemma_sealed_tile_stays(start: Seq<int>, done: int)
    requires
        0 <= done <= start.len(),
        settle(tiles_of(start.take(done))).sealed,
    ensures
        ({
            let resting = settle(tiles_of(start.take(done)));
            &&& 0 < resting.tiles.len() <= start.len()
            &&& slide_line(start)[resting.tiles.len() - 1] == resting.tiles.last()
        }),
{
    let seen = tiles_of(start.take(done));
    let all = tiles_of(start);
    crate::line::lemma_slide_line_settles(start);
    assert(start =~= start.take(done) + start.skip(done));
    crate::line::lemma_tiles_of_concat(start.take(done), start.skip(done));
    assert(all.take(seen.len() as int) =~= seen);
    crate::line::lemma_settle_prefix(all, seen.len() as int);
    crate::line::lemma_tiles_of_bounds(start);
    crate::line::lemma_settle_bounds(all);
    crate::line::lemma_settle_bounds(seen);
}

/// Dealing with one more place keeps the line in progress. Where the place
/// holds a tile that joins another, the merged tile is the one that the slid
/// line shows at that place.
proof fn lemma_progress_step(start: Seq<int>, cells: Seq<int>, marks: Seq<bool>, done: int)
    requires
        in_progress(start, cells, marks, done),
        done < start.len(),
    ensures
        ({
            let settled = settle(tiles_of(start.take(done))).tiles.len() as int;
            if start[done] == 0 {
                in_progress(start, cells, marks, done + 1)
            } else {
                &&& 0 <= settled <= done
                &&& forall|p: int| 0 <= p < settled ==> cells[p] != 0
                &&& forall|p: int| settled <= p < done ==> cells[p] == 0
                &&& cells[done] == start[done]
                &&& in_progress(
                    start,
                    cells_after(cells, marks, settled, done),
                    marks_after(cells, marks, settled, done),
                    done + 1,
                )
                &&& joins(cells, marks, settled, done) ==> 2 * cells[done] == slide_line(
                    start,
                )[settled - 1]
            }
        }),
{
    let seen = start.take(done);
    let tiles = tiles_of(seen);
    let resting = settle(tiles);
    let settled = resting.tiles.len() as int;
    let tile = start[done];
    assert(start.take(done + 1) =~= seen.push(tile));
    crate::line::lemma_tiles_of_push(seen, tile);
    crate::line::lemma_tiles_of_bounds(seen);
    crate::line::lemma_settle_bounds(tiles);
    if tile != 0 {
        let more = tiles.push(tile);
        assert(more.drop_last() =~= tiles);
        assert(settle(more) == absorb(resting, tile));
        let next = cells_after(cells, marks, settled, done);
        let next_marks = marks_after(cells, marks, settled, done);
        assert(in_progress(start, next, next_marks, done + 1));
        if joins(cells, marks, settled, done) {
            lemma_sealed_tile_stays(start, done + 1);
        }
    }
}

/// A line with nothing dealt with yet is in progress, whatever it holds.
proof fn lemma_progress_start(start: Seq<int>, marks: Seq<bool>)
    requires
        marks.len() == start.len(),
        forall|p: int| 0 <= p < marks.len() ==> !marks[p],
    ensures
        in_progress(start, start, marks, 0),
{
    assert(start.take(0) =~= Seq::<int>::empty());
}

/// A line that has been dealt with to its end is the slid line.
proof fn lemma_progress_done(start: Seq<int>, cells: Seq<int>, marks: Seq<bool>)
    requires
        in_progress(start, cells, marks, start.len() as int),
    ensures
        cells == slide_line(start),
{
    crate::line::lemma_slide_line_settles(start);
    assert(start.take(start.len() as int) =~= start);
    assert(cells =~= slide_line(start));
}

/// Where the slid board fits a machine integer, so does each slid line.
proof fn lemma_fits_by_line(board: Board, direction: Direction, line: int)
    requires
        is_board(board),
        0 <= line < GRID_SIZE,
        is_within(slide(board, direction), u32::MAX as int),
    ensures
        forall|p: int|
            0 <= p < GRID_SIZE ==> slide_line(line_of(board, direction, line))[p] <= u32::MAX,
{
    crate::board::lemma_slide_lines(board, direction);
    assert forall|p: int| 0 <= p < GRID_SIZE implies slide_line(
        line_of(board, direction, line),
    )[p] <= u32::MAX by {
        let r = row_of(direction, line, p);
        let c = col_of(direction, line, p);
        assert(in_grid(r, c));
        assert(line_of(slide(board, direction), direction, line)[p] == slide(
            board,
            direction,
        )[r][c]);
    }
}

} // verus!
