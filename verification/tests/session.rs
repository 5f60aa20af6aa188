use rust_2048_game::{Command, Direction, GameState, GRID_SIZE};

fn state_with(grid: [[u32; GRID_SIZE]; GRID_SIZE]) -> GameState {
    let mut state = GameState::new();
    state.grid = grid;
    state.game_over = false;
    state
}

fn tiles(grid: &[[u32; GRID_SIZE]; GRID_SIZE]) -> usize {
    grid.iter().flatten().filter(|&&v| v != 0).count()
}

fn is_opening(state: &GameState) -> bool {
    tiles(&state.grid) == 2
        && state.grid.iter().flatten().all(|&v| v == 0 || v == 2 || v == 4)
        && !state.game_over
}

fn is_within_capacity(grid: &[[u32; GRID_SIZE]; GRID_SIZE]) -> bool {
    (1..=18u32).all(|k| {
        let from = 1u64 << k;
        let count = grid.iter().flatten().filter(|&&v| v as u64 >= from).count();
        count + k as usize <= 18
    })
}

#[test]
fn large_tiles_are_scarce_in_play() {
    let directions = [Direction::Left, Direction::Up, Direction::Left, Direction::Down];
    for round in 0..20 {
        let mut state = GameState::new();
        assert!(is_within_capacity(&state.grid));
        let mut turns = 0;
        while !state.is_over() && turns < 100_000 {
            let before = state.grid;
            state.handle_command(Command::Slide(directions[(turns + round) % 4]));
            if state.grid == before {
                state.handle_command(Command::Slide(Direction::Right));
            }
            assert!(is_within_capacity(&state.grid));
            turns += 1;
        }
        assert!(state.is_over());
    }
}

#[test]
fn a_new_game_starts_with_two_tiles() {
    for _ in 0..200 {
        let state = GameState::new();
        assert!(is_opening(&state));
        assert!(!state.is_over());
        assert!(!state.check_game_over());
    }
}

#[test]
fn a_restart_clears_the_grid_and_the_flag() {
    let mut state = state_with([[2, 4, 8, 16], [4, 2, 16, 8], [8, 16, 2, 4], [16, 8, 4, 2]]);
    state.game_over = true;
    state.restart_game();
    assert!(is_opening(&state));
}

#[test]
fn the_grid_size_is_four() {
    assert_eq!(GRID_SIZE, 4);
    let state = GameState::new();
    assert_eq!(state.grid.len(), 4);
    assert_eq!(state.grid[0].len(), 4);
}

#[test]
fn a_slide_that_changes_the_grid_is_followed_by_one_new_tile() {
    for _ in 0..50 {
        let mut state = state_with([[0, 2, 0, 2], [0, 0, 0, 0], [4, 0, 0, 0], [0, 0, 8, 8]]);
        state.handle_command(Command::Slide(Direction::Left));
        let slid = [[4, 0, 0, 0], [0, 0, 0, 0], [4, 0, 0, 0], [16, 0, 0, 0]];
        let mut fresh = Vec::new();
        for i in 0..GRID_SIZE {
            for j in 0..GRID_SIZE {
                if slid[i][j] != 0 {
                    assert_eq!(state.grid[i][j], slid[i][j]);
                } else if state.grid[i][j] != 0 {
                    fresh.push(state.grid[i][j]);
                }
            }
        }
        assert_eq!(fresh.len(), 1);
        assert!(fresh[0] == 2 || fresh[0] == 4);
        assert!(!state.is_over());
    }
}

#[test]
fn a_slide_that_changes_nothing_brings_no_new_tile() {
    let grid = [[2, 4, 0, 0], [4, 0, 0, 0], [0, 0, 0, 0], [8, 16, 32, 0]];
    let mut state = state_with(grid);
    state.handle_command(Command::Slide(Direction::Left));
    assert_eq!(state.grid, grid);
    assert!(!state.is_over());
}

#[test]
fn the_game_ends_when_the_new_tile_leaves_no_move() {
    for _ in 0..50 {
        let mut state =
            state_with([[0, 8, 16, 8], [16, 8, 16, 32], [8, 16, 8, 16], [16, 8, 16, 8]]);
        state.handle_command(Command::Slide(Direction::Left));
        let new_tile = state.grid[0][3];
        assert!(new_tile == 2 || new_tile == 4);
        assert_eq!(
            state.grid,
            [[8, 16, 8, new_tile], [16, 8, 16, 32], [8, 16, 8, 16], [16, 8, 16, 8]]
        );
        assert!(state.is_over());
        assert!(state.game_over);
    }
}

#[test]
fn the_game_goes_on_while_a_full_grid_holds_a_pair() {
    for _ in 0..50 {
        let mut state =
            state_with([[0, 8, 16, 8], [16, 8, 16, 32], [8, 16, 8, 16], [8, 32, 16, 8]]);
        state.handle_command(Command::Slide(Direction::Left));
        let new_tile = state.grid[0][3];
        assert!(new_tile == 2 || new_tile == 4);
        assert_eq!(
            state.grid,
            [[8, 16, 8, new_tile], [16, 8, 16, 32], [8, 16, 8, 16], [8, 32, 16, 8]]
        );
        assert!(!state.is_over());
    }
}

#[test]
fn a_stuck_grid_that_no_slide_changes_is_not_flagged() {
    let grid = [[2, 4, 8, 16], [4, 2, 16, 8], [8, 16, 2, 4], [16, 8, 4, 2]];
    let mut state = state_with(grid);
    for direction in [Direction::Up, Direction::Down, Direction::Left, Direction::Right] {
        state.handle_command(Command::Slide(direction));
        assert_eq!(state.grid, grid);
        assert!(!state.is_over());
    }
}

#[test]
fn once_the_game_is_over_slides_are_ignored() {
    let grid = [[2, 2, 0, 0], [0, 0, 0, 0], [0, 0, 0, 0], [0, 0, 0, 0]];
    let mut state = state_with(grid);
    state.game_over = true;
    for direction in [Direction::Up, Direction::Down, Direction::Left, Direction::Right] {
        state.handle_command(Command::Slide(direction));
        assert_eq!(state.grid, grid);
        assert!(state.is_over());
    }
}

#[test]
fn once_the_game_is_over_a_restart_starts_a_new_game() {
    let mut state = state_with([[2, 4, 8, 16], [4, 2, 16, 8], [8, 16, 2, 4], [16, 8, 4, 2]]);
    state.game_over = true;
    state.handle_command(Command::Restart);
    assert!(is_opening(&state));
}

#[test]
fn while_the_game_is_on_a_restart_is_ignored() {
    let grid = [[2, 2, 0, 0], [0, 0, 0, 0], [0, 0, 0, 0], [0, 0, 64, 0]];
    let mut state = state_with(grid);
    state.handle_command(Command::Restart);
    assert_eq!(state.grid, grid);
    assert!(!state.is_over());
}

#[test]
fn a_game_can_be_played_to_its_end() {
    let directions = [Direction::Left, Direction::Down, Direction::Right, Direction::Up];
    for _ in 0..20 {
        let mut state = GameState::new();
        let mut turns = 0;
        while !state.is_over() && turns < 100_000 {
            let before = state.grid;
            let sum_before: u64 = before.iter().flatten().map(|&v| v as u64).sum();
            state.handle_command(Command::Slide(directions[turns % 4]));
            let sum_after: u64 = state.grid.iter().flatten().map(|&v| v as u64).sum();
            if state.grid == before {
                assert_eq!(sum_after, sum_before);
            } else {
                assert!(sum_after == sum_before + 2 || sum_after == sum_before + 4);
            }
            for row in state.grid {
                for cell in row {
                    assert!(cell == 0 || (cell >= 2 && cell.is_power_of_two()));
                    assert!(cell <= 131072);
                }
            }
            assert!(is_within_capacity(&state.grid));
            turns += 1;
        }
        assert!(state.is_over());
        assert!(state.check_game_over());
        assert_eq!(tiles(&state.grid), GRID_SIZE * GRID_SIZE);
    }
}
