use rust_2048_game::{Direction, GameState, GRID_SIZE};

fn state_with(grid: [[u32; GRID_SIZE]; GRID_SIZE]) -> GameState {
    let mut state = GameState::new();
    state.grid = grid;
    state.game_over = false;
    state
}

#[test]
fn a_full_grid_of_equal_tiles_is_not_over() {
    let state = state_with([[2; GRID_SIZE]; GRID_SIZE]);
    assert!(!state.check_game_over());
    assert!(state.has_moves_available());
}

#[test]
fn a_full_checkerboard_is_over() {
    let mut grid = [[0u32; GRID_SIZE]; GRID_SIZE];
    for i in 0..GRID_SIZE {
        for j in 0..GRID_SIZE {
            grid[i][j] = if (i + j) % 2 == 0 { 2 } else { 4 };
        }
    }
    let state = state_with(grid);
    assert!(state.check_game_over());
    assert!(!state.has_moves_available());
    assert!(!state.has_empty_cell());
}

#[test]
fn an_empty_grid_is_not_over() {
    let state = state_with([[0; GRID_SIZE]; GRID_SIZE]);
    assert!(!state.check_game_over());
    assert!(state.has_moves_available());
    assert!(state.has_empty_cell());
}

#[test]
fn one_empty_cell_keeps_the_game_going() {
    for hole_row in 0..GRID_SIZE {
        for hole_col in 0..GRID_SIZE {
            let mut grid = [[0u32; GRID_SIZE]; GRID_SIZE];
            for i in 0..GRID_SIZE {
                for j in 0..GRID_SIZE {
                    grid[i][j] = if (i + j) % 2 == 0 { 2 } else { 4 };
                }
            }
            grid[hole_row][hole_col] = 0;
            let state = state_with(grid);
            assert!(!state.check_game_over());
            assert!(state.has_moves_available());
            assert!(state.has_empty_cell());
        }
    }
}

#[test]
fn one_equal_pair_in_a_row_keeps_the_game_going() {
    let state = state_with([[2, 4, 8, 16], [4, 8, 16, 32], [8, 16, 32, 64], [16, 32, 128, 128]]);
    assert!(state.has_moves_available());
    assert!(!state.check_game_over());
    assert!(!state.has_empty_cell());
}

#[test]
fn one_equal_pair_in_a_column_keeps_the_game_going() {
    let state = state_with([[2, 4, 8, 16], [4, 8, 16, 32], [8, 16, 32, 64], [16, 32, 128, 64]]);
    assert!(state.has_moves_available());
    assert!(!state.check_game_over());
}

#[test]
fn equal_tiles_that_only_touch_at_a_corner_do_not_count() {
    let state = state_with([[2, 4, 8, 16], [4, 2, 16, 8], [8, 16, 2, 4], [16, 8, 4, 2]]);
    assert!(!state.has_moves_available());
    assert!(state.check_game_over());
}

#[test]
fn the_check_changes_nothing() {
    let grid = [[2, 4, 8, 16], [4, 8, 16, 32], [8, 16, 32, 64], [16, 32, 128, 64]];
    let state = state_with(grid);
    state.check_game_over();
    state.has_moves_available();
    assert_eq!(state.grid, grid);
    assert!(!state.game_over);
    assert!(!state.is_over());
}

#[test]
fn a_full_grid_is_over_exactly_when_no_move_changes_it() {
    let grids = [
        [[2, 4, 8, 16], [4, 2, 16, 8], [8, 16, 2, 4], [16, 8, 4, 2]],
        [[2, 4, 8, 16], [4, 8, 16, 32], [8, 16, 32, 64], [16, 32, 128, 128]],
        [[2, 4, 8, 16], [4, 8, 16, 32], [8, 16, 32, 64], [16, 32, 128, 64]],
        [[2, 4, 2, 4], [4, 2, 4, 2], [2, 4, 2, 4], [4, 2, 4, 4]],
        [[2; GRID_SIZE]; GRID_SIZE],
    ];
    for grid in grids {
        let state = state_with(grid);
        let mut some_move_changes = false;
        for direction in [Direction::Up, Direction::Down, Direction::Left, Direction::Right] {
            let mut moved_state = state_with(grid);
            if moved_state.move_tiles(direction) {
                some_move_changes = true;
            }
        }
        assert_eq!(state.check_game_over(), !some_move_changes);
    }
}
