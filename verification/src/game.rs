//! The game session: the grid of tiles, whether the game has ended, and the
//! turn that a command of the player sets off.

use crate::board::{
    has_moves, in_grid, is_board, is_well_formed, is_within, slide, Board, Direction, GRID_SIZE,
};
use crate::capacity::is_within_capacity;
use crate::spawner::is_spawn;
use crate::tally::tile_count;
use vstd::prelude::*;

verus! {

/// A game in progress: the tiles on the grid and whether the game has ended.
#[derive(Clone, Copy, Debug)]
pub struct GameState {
    /// The value of each cell, row by row; 0 marks an empty cell.
    pub grid: [[u32; GRID_SIZE]; GRID_SIZE],
    /// Set once no move is possible any more.
    pub game_over: bool,
}

/// What the player asks for.
#[derive(Clone, Copy, Debug)]
pub enum Command {
    /// Slide the tiles toward an edge.
    Slide(Direction),
    /// Start over once the game has ended.
    Restart,
}

impl View for GameState {
    type V = Board;

    /// The grid as a board.
    open spec fn view(&self) -> Board {
        Seq::new(
            GRID_SIZE as nat,
            |r: int| Seq::new(GRID_SIZE as nat, |c: int| self.grid[r][c] as int),
        )
    }
}

/// The board at the start of a game: two tiles, each a 2 or a 4.
pub open spec fn is_opening(board: Board) -> bool {
    &&& tile_count(board) == 2
    &&& forall|r: int, c: int|
        in_grid(r, c) ==> (#[trigger] board[r][c]) == 0 || board[r][c] == 2 || board[r][c] == 4
}

/// What a turn makes of the board `before` when the player slides the tiles
/// in `direction`: nothing where the slide changes nothing; otherwise the slid
/// board with one new tile, and the game is over exactly when that board
/// allows no further move.
pub open spec fn is_turn(
    before: Board,
    direction: Direction,
    after: Board,
    over: bool,
) -> bool {
    if slide(before, direction) == before {
        after == before && !over
    } else {
        is_spawn(slide(before, direction), after) && over == !has_moves(after)
    }
}

impl GameState {
    /// A game state always shows a board whose cells fit a machine integer.
    pub proof fn lemma_view_is_board(&self)
        ensures
            is_board(self@),
            forall|r: int, c: int|
                0 <= r < GRID_SIZE && 0 <= c < GRID_SIZE ==> 0 <= (#[trigger] self@[r][c])
                    <= u32::MAX,
    {
    }

    /// A fresh game: an empty grid onto which two tiles have been spawned.
    pub fn new() -> (state: GameState)
        ensures
            is_opening(state@),
            is_well_formed(state@),
            is_within_capacity(state@),
            !state.game_over,
    {
        let mut state = GameState { grid: [[0; GRID_SIZE]; GRID_SIZE], game_over: false };
        state.deal();
        state
    }

    /// Starts over: clears the grid and the end-of-game flag, then spawns two
    /// tiles.
    pub fn restart_game(&mut self)
        ensures
            is_opening(final(self)@),
            is_well_formed(final(self)@),
            is_within_capacity(final(self)@),
            !final(self).game_over,
    {
        self.grid = [[0; GRID_SIZE]; GRID_SIZE];
        self.game_over = false;
        self.deal();
    }

    /// Spawns the two tiles that a game starts with.
    fn deal(&mut self)
        requires
            forall|r: int, c: int| in_grid(r, c) ==> (#[trigger] old(self)@[r][c]) == 0,
        ensures
            is_opening(final(self)@),
            is_well_formed(final(self)@),
            is_within_capacity(final(self)@),
            final(self).game_over == old(self).game_over,
    {
        let ghost blank = self@;
        proof {
            self.lemma_view_is_board();
            crate::tally::lemma_blank(blank);
            crate::capacity::lemma_blank_within_capacity(blank);
        }
        self.add_random_tile();
        let ghost one = self@;
        proof {
            crate::spawner::lemma_spawn(blank, one);
            crate::tally::lemma_room_for_more(one);
        }
        self.add_random_tile();
        proof {
            crate::spawner::lemma_spawn(one, self@);
        }
    }

    /// Whether the game has ended.
    pub fn is_over(&self) -> (over: bool)
        ensures
            over == self.game_over,
    {
        self.game_over
    }

    /// Carries out a command of the player.
    ///
    /// While the game is on, a slide that changes the grid is followed by a new
    /// tile, and the game ends if the grid then allows no move; a slide that
    /// changes nothing, and a restart, are ignored. Once the game has ended,
    /// only a restart has any effect.
    pub fn handle_command(&mut self, command: Command)
        requires
            !old(self).game_over ==> (command matches Command::Slide(direction) ==> is_within(
                slide(old(self)@, direction),
                u32::MAX as int,
            )),
        ensures
            match command {
                Command::Restart => if old(self).game_over {
                    is_opening(final(self)@) && !final(self).game_over
                } else {
                    final(self)@ == old(self)@ && !final(self).game_over
                },
                Command::Slide(direction) => if old(self).game_over {
                    final(self)@ == old(self)@ && final(self).game_over
                } else {
                    is_turn(old(self)@, direction, final(self)@, final(self).game_over)
                },
            },
            is_well_formed(old(self)@) ==> is_well_formed(final(self)@),
            is_within_capacity(old(self)@) ==> is_within_capacity(final(self)@),
    {
        if self.game_over {
            match command {
                Command::Restart => {
                    self.restart_game();
                },
                Command::Slide(_) => {},
            }
        } else {
            match command {
                Command::Slide(direction) => {
                    if self.move_tiles(direction) {
                        self.add_random_tile();
                        if !self.has_empty_cell() && self.check_game_over() {
                            self.game_over = true;
                        }
                        proof {
                            crate::board::lemma_empty_allows_move(self@);
                        }
                    }
                },
                Command::Restart => {},
            }
        }
    }
}

} // verus!
