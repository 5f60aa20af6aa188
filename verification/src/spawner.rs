//! The tile spawner: a new tile of value 2 or 4 in an empty cell.
//!
//! The cell is drawn evenly among the empty ones; the value is 2 nine times
//! out of ten and 4 otherwise. `spawn_tile_at` does the same with a cell and a
//! draw that the caller supplies.

use crate::board::{
    has_empty, in_grid, is_board, is_tile_value, is_well_formed, place, Board, GRID_SIZE,
};
use crate::capacity::is_within_capacity;
use crate::game::GameState;
use crate::random::{choose_cell, random_ratio};
use crate::tally::{tile_count, total};
use vstd::arithmetic::power2::is_pow2;
use vstd::prelude::*;

verus! {

/// A new tile is a small one in `SMALL_TILE_CHANCES` cases out of
/// `SPAWN_CHANCES`.
pub const SMALL_TILE_CHANCES: u32 = 9;

/// See `SMALL_TILE_CHANCES`.
pub const SPAWN_CHANCES: u32 = 10;

/// The value of a new tile that is a small one.
pub const SMALL_TILE: u32 = 2;

/// The value of a new tile that is not a small one.
pub const LARGE_TILE: u32 = 4;

/// The value of a new tile.
pub open spec fn new_tile(small: bool) -> int {
    if small {
        SMALL_TILE as int
    } else {
        LARGE_TILE as int
    }
}

/// `first` comes before `second` when the grid is read row by row.
pub open spec fn reads_before(first: (usize, usize), second: (usize, usize)) -> bool {
    first.0 < second.0 || (first.0 == second.0 && first.1 < second.1)
}

/// `after` is `before` with a new tile in one of its empty cells.
pub open spec fn is_spawn(before: Board, after: Board) -> bool {
    exists|r: int, c: int, small: bool|
        in_grid(r, c) && before[r][c] == 0 && after == #[trigger] place(
            before,
            r,
            c,
            new_tile(small),
        )
}

/// A new tile in an empty cell adds one tile, overwrites none, and keeps a
/// well-formed grid well formed.
pub proof fn lemma_spawn(before: Board, after: Board)
    requires
        is_board(before),
        is_spawn(before, after),
    ensures
        is_board(after),
        tile_count(after) == tile_count(before) + 1,
        total(after) == total(before) + 2 || total(after) == total(before) + 4,
        forall|r: int, c: int|
            in_grid(r, c) && before[r][c] != 0 ==> (#[trigger] after[r][c]) == before[r][c],
        forall|r: int, c: int|
            in_grid(r, c) && before[r][c] == 0 ==> (#[trigger] after[r][c]) == 0 || after[r][c]
                == 2 || after[r][c] == 4,
        is_well_formed(before) ==> is_well_formed(after),
{
    let (r, c, small) = choose|r: int, c: int, small: bool|
        in_grid(r, c) && before[r][c] == 0 && after == #[trigger] place(
            before,
            r,
            c,
            new_tile(small),
        );
    crate::tally::lemma_place_tally(before, r, c, new_tile(small), 1);
    if is_well_formed(before) {
        assert(is_tile_value(new_tile(small))) by {
            reveal_with_fuel(is_pow2, 3);
        }
        assert forall|i: int, j: int| in_grid(i, j) implies is_tile_value(
            #[trigger] after[i][j],
        ) by {
            if i != r || j != c {
                assert(is_tile_value(before[i][j]));
            }
        }
    }
}

impl GameState {
    /// The empty cells, each as its row and its column, in reading order.
    pub fn empty_cells(&self) -> (cells: Vec<(usize, usize)>)
        ensures
            forall|k: int|
                0 <= k < cells.len() ==> {
                    let cell = #[trigger] cells[k];
                    in_grid(cell.0 as int, cell.1 as int) && self@[cell.0 as int][cell.1 as int]
                        == 0
                },
            forall|r: int, c: int|
                in_grid(r, c) && (#[trigger] self@[r][c]) == 0 ==> cells@.contains(
                    (r as usize, c as usize),
                ),
            forall|k: int, l: int|
                0 <= k < l < cells.len() ==> reads_before(#[trigger] cells[k], #[trigger] cells[l]),
            (cells.len() > 0) == has_empty(self@),
    {
        let mut cells: Vec<(usize, usize)> = Vec::new();
        let mut i: usize = 0;
        while i < GRID_SIZE
            invariant
                i <= GRID_SIZE,
                forall|k: int|
                    0 <= k < cells.len() ==> {
                        let cell = #[trigger] cells[k];
                        in_grid(cell.0 as int, cell.1 as int) && self@[cell.0 as int][cell.1 as int]
                            == 0 && cell.0 < i
                    },
                forall|r: int, c: int|
                    in_grid(r, c) && r < i && (#[trigger] self@[r][c]) == 0 ==> cells@.contains(
                        (r as usize, c as usize),
                    ),
                forall|k: int, l: int|
                    0 <= k < l < cells.len() ==> reads_before(
                        #[trigger] cells[k],
                        #[trigger] cells[l],
                    ),
            decreases GRID_SIZE - i,
        {
            let mut j: usize = 0;
            while j < GRID_SIZE
                invariant
                    i < GRID_SIZE,
                    j <= GRID_SIZE,
                    forall|k: int|
                        0 <= k < cells.len() ==> {
                            let cell = #[trigger] cells[k];
                            in_grid(cell.0 as int, cell.1 as int)
                                && self@[cell.0 as int][cell.1 as int] == 0 && reads_before(
                                cell,
                                (i, j),
                            )
                        },
                    forall|r: int, c: int|
                        in_grid(r, c) && (r < i || (r == i && c < j)) && (#[trigger] self@[r][c])
                            == 0 ==> cells@.contains((r as usize, c as usize)),
                    forall|k: int, l: int|
                        0 <= k < l < cells.len() ==> reads_before(
                            #[trigger] cells[k],
                            #[trigger] cells[l],
                        ),
                decreases GRID_SIZE - j,
            {
                if self.grid[i][j] == 0 {
                    let ghost found = cells@;
                    cells.push((i, j));
                    proof {
                        assert(cells@[found.len() as int] == (i, j));
                        assert forall|r: int, c: int|
                            in_grid(r, c) && (r < i || (r == i && c < j + 1)) && (
                            #[trigger] self@[r][c]) == 0 implies cells@.contains(
                            (r as usize, c as usize),
                        ) by {
                            if r == i && c == j {
                                assert(cells@[found.len() as int] == (r as usize, c as usize));
                            } else {
                                let k = choose|k: int|
                                    0 <= k < found.len() && found[k] == (r as usize, c as usize);
                                assert(cells@[k] == found[k]);
                            }
                        }
                    }
                }
                j += 1;
            }
            i += 1;
        }
        proof {
            if has_empty(self@) {
                let (r, c) = choose|r: int, c: int| in_grid(r, c) && (#[trigger] self@[r][c]) == 0;
                assert(cells@.contains((r as usize, c as usize)));
            }
            if cells.len() > 0 {
                let cell = cells[0];
                assert(in_grid(cell.0 as int, cell.1 as int) && self@[cell.0 as int][cell.1 as int]
                    == 0);
            }
        }
        cells
    }

    /// Puts a new tile into the cell in row `row`, column `col`, provided that
    /// the cell lies on the grid and is empty: a 2 where `small` is set, a 4
    /// otherwise. Returns whether it did; where it did not, nothing changes.
    pub fn spawn_tile_at(&mut self, row: usize, col: usize, small: bool) -> (placed: bool)
        ensures
            placed == (in_grid(row as int, col as int) && old(self)@[row as int][col as int] == 0),
            placed ==> final(self)@ == place(old(self)@, row as int, col as int, new_tile(small)),
            placed ==> is_spawn(old(self)@, final(self)@),
            !placed ==> final(self)@ == old(self)@,
            is_well_formed(old(self)@) ==> is_well_formed(final(self)@),
            is_within_capacity(old(self)@) ==> is_within_capacity(final(self)@),
            final(self).game_over == old(self).game_over,
    {
        if row < GRID_SIZE && col < GRID_SIZE && self.grid[row][col] == 0 {
            self.grid[row][col] = if small {
                SMALL_TILE
            } else {
                LARGE_TILE
            };
            proof {
                let after = place(old(self)@, row as int, col as int, new_tile(small));
                assert forall|r: int| 0 <= r < GRID_SIZE implies #[trigger] self@[r] == after[r] by {
                    assert(self@[r] =~= after[r]);
                }
                assert(self@ =~= after);
                old(self).lemma_view_is_board();
                lemma_spawn(old(self)@, self@);
                if is_within_capacity(old(self)@) {
                    crate::capacity::lemma_spawn_within_capacity(old(self)@, self@);
                }
            }
            true
        } else {
            false
        }
    }

    /// Puts a new tile into an empty cell drawn at random: a 2 nine times out
    /// of ten, a 4 otherwise. Where no cell is empty, nothing changes.
    ///
    /// Whatever is drawn, exactly one empty cell takes the new tile and no
    /// other cell changes.
    pub fn add_random_tile(&mut self)
        ensures
            has_empty(old(self)@) ==> is_spawn(old(self)@, final(self)@),
            !has_empty(old(self)@) ==> final(self)@ == old(self)@,
            tile_count(final(self)@) == tile_count(old(self)@) + (if has_empty(old(self)@) {
                1int
            } else {
                0int
            }),
            forall|r: int, c: int|
                in_grid(r, c) && old(self)@[r][c] != 0 ==> (#[trigger] final(self)@[r][c]) == old(
                    self,
                )@[r][c],
            is_well_formed(old(self)@) ==> is_well_formed(final(self)@),
            is_within_capacity(old(self)@) ==> is_within_capacity(final(self)@),
            final(self).game_over == old(self).game_over,
    {
        let empty = self.empty_cells();
        match choose_cell(&empty) {
            Some((row, col)) => {
                proof {
                    let k = choose|k: int| 0 <= k < empty@.len() && empty@[k] == (row, col);
                    assert(empty[k] == (row, col));
                }
                let small = random_ratio(SMALL_TILE_CHANCES, SPAWN_CHANCES);
                self.spawn_tile_at(row, col, small);
                proof {
                    old(self).lemma_view_is_board();
                    lemma_spawn(old(self)@, self@);
                }
            },
            None => {},
        }
    }
}

} // verus!
