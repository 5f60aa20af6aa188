//! The terminal-state detector: whether any move is still possible.

use crate::board::{
    has_empty, has_moves, in_grid, is_playable_at, slide, Direction, GRID_SIZE,
};
use crate::game::GameState;
use vstd::prelude::*;

verus! {

impl GameState {
    /// Whether some cell is empty.
    pub fn has_empty_cell(&self) -> (found: bool)
        ensures
            found == has_empty(self@),
    {
        let mut i: usize = 0;
        while i < GRID_SIZE
            invariant
                i <= GRID_SIZE,
                forall|r: int, c: int| 0 <= r < i && 0 <= c < GRID_SIZE ==> self@[r][c] != 0,
            decreases GRID_SIZE - i,
        {
            let mut j: usize = 0;
            while j < GRID_SIZE
                invariant
                    i < GRID_SIZE,
                    j <= GRID_SIZE,
                    forall|r: int, c: int| 0 <= r < i && 0 <= c < GRID_SIZE ==> self@[r][c] != 0,
                    forall|c: int| 0 <= c < j ==> self@[i as int][c] != 0,
                decreases GRID_SIZE - j,
            {
                if self.grid[i][j] == 0 {
                    assert(in_grid(i as int, j as int) && self@[i as int][j as int] == 0);
                    return true;
                }
                j += 1;
            }
            i += 1;
        }
        false
    }

    /// Whether some move is still possible: some cell is empty, or holds the
    /// same value as its right or its lower neighbour.
    pub fn has_moves_available(&self) -> (available: bool)
        ensures
            available == has_moves(self@),
            has_empty(self@) ==> available,
    {
        let mut i: usize = 0;
        while i < GRID_SIZE
            invariant
                i <= GRID_SIZE,
                forall|r: int, c: int|
                    0 <= r < i && 0 <= c < GRID_SIZE ==> !is_playable_at(self@, r, c),
            decreases GRID_SIZE - i,
        {
            let mut j: usize = 0;
            while j < GRID_SIZE
                invariant
                    i < GRID_SIZE,
                    j <= GRID_SIZE,
                    forall|r: int, c: int|
                        0 <= r < i && 0 <= c < GRID_SIZE ==> !is_playable_at(self@, r, c),
                    forall|c: int| 0 <= c < j ==> !is_playable_at(self@, i as int, c),
                decreases GRID_SIZE - j,
            {
                if self.grid[i][j] == 0 {
                    assert(in_grid(i as int, j as int) && is_playable_at(self@, i as int, j as int));
                    return true;
                }
                let current = self.grid[i][j];
                if j < GRID_SIZE - 1 && current == self.grid[i][j + 1] {
                    assert(in_grid(i as int, j as int) && is_playable_at(self@, i as int, j as int));
                    return true;
                }
                if i < GRID_SIZE - 1 && current == self.grid[i + 1][j] {
                    assert(in_grid(i as int, j as int) && is_playable_at(self@, i as int, j as int));
                    return true;
                }
                j += 1;
            }
            i += 1;
        }
        proof {
            if has_empty(self@) {
                let (r, c) = choose|r: int, c: int| in_grid(r, c) && (#[trigger] self@[r][c]) == 0;
                assert(is_playable_at(self@, r, c));
            }
        }
        false
    }

    /// Whether the game is over: no cell is empty and no two neighbours are
    /// equal. A grid with an empty cell is never over; a full grid is over
    /// exactly when no move in any direction would change it.
    pub fn check_game_over(&self) -> (over: bool)
        ensures
            over == !has_moves(self@),
            has_empty(self@) ==> !over,
            over == (!has_empty(self@) && forall|direction: Direction|
                #[trigger] slide(self@, direction) == self@),
    {
        proof {
            self.lemma_view_is_board();
            crate::laws::lemma_stuck(self@);
        }
        !self.has_moves_available()
    }
}

} // verus!
