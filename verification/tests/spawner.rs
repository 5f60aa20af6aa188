use rust_2048_game::{GameState, GRID_SIZE};

fn state_with(grid: [[u32; GRID_SIZE]; GRID_SIZE]) -> GameState {
    let mut state = GameState::new();
    state.grid = grid;
    state.game_over = false;
    state
}

fn tiles(grid: &[[u32; GRID_SIZE]; GRID_SIZE]) -> usize {
    grid.iter().flatten().filter(|&&v| v != 0).count()
}

fn checkerboard() -> [[u32; GRID_SIZE]; GRID_SIZE] {
    let mut grid = [[0u32; GRID_SIZE]; GRID_SIZE];
    for i in 0..GRID_SIZE {
        for j in 0..GRID_SIZE {
            grid[i][j] = if (i + j) % 2 == 0 { 8 } else { 16 };
        }
    }
    grid
}

#[test]
fn two_spawns_on_an_empty_grid_make_two_tiles() {
    for _ in 0..200 {
        let mut state = state_with([[0; GRID_SIZE]; GRID_SIZE]);
        state.add_random_tile();
        assert_eq!(tiles(&state.grid), 1);
        state.add_random_tile();
        assert_eq!(tiles(&state.grid), 2);
        for row in state.grid {
            for cell in row {
                assert!(cell == 0 || cell == 2 || cell == 4);
            }
        }
    }
}

#[test]
fn a_spawn_on_a_full_grid_changes_nothing() {
    let grid = checkerboard();
    let mut state = state_with(grid);
    state.add_random_tile();
    assert_eq!(state.grid, grid);
    assert!(!state.game_over);
}

#[test]
fn a_spawn_fills_the_only_empty_cell() {
    for row in 0..GRID_SIZE {
        for col in 0..GRID_SIZE {
            let mut grid = checkerboard();
            grid[row][col] = 0;
            let mut state = state_with(grid);
            state.add_random_tile();
            assert!(state.grid[row][col] == 2 || state.grid[row][col] == 4);
            let mut expected = grid;
            expected[row][col] = state.grid[row][col];
            assert_eq!(state.grid, expected);
        }
    }
}

#[test]
fn a_spawn_adds_one_tile_and_overwrites_none() {
    let mut state = state_with([[2, 0, 0, 4], [0, 8, 0, 0], [0, 0, 16, 0], [32, 0, 0, 64]]);
    for expected in 7..=16 {
        let before = state.grid;
        state.add_random_tile();
        assert_eq!(tiles(&state.grid), expected);
        let mut changed = 0;
        for i in 0..GRID_SIZE {
            for j in 0..GRID_SIZE {
                if before[i][j] != 0 {
                    assert_eq!(state.grid[i][j], before[i][j]);
                } else if state.grid[i][j] != 0 {
                    assert!(state.grid[i][j] == 2 || state.grid[i][j] == 4);
                    changed += 1;
                }
            }
        }
        assert_eq!(changed, 1);
    }
    let full = state.grid;
    state.add_random_tile();
    assert_eq!(state.grid, full);
}

#[test]
fn spawns_favour_the_small_tile_nine_to_one() {
    let mut small = 0u32;
    let mut large = 0u32;
    for _ in 0..4000 {
        let mut state = state_with([[0; GRID_SIZE]; GRID_SIZE]);
        state.add_random_tile();
        for row in state.grid {
            for cell in row {
                match cell {
                    0 => {}
                    2 => small += 1,
                    4 => large += 1,
                    other => panic!("a spawn made the tile {}", other),
                }
            }
        }
    }
    assert_eq!(small + large, 4000);
    assert!(small > 3400 && small < 3800, "{} small tiles out of 4000", small);
    assert!(large > 200, "{} large tiles out of 4000", large);
}

#[test]
fn spawns_reach_every_cell() {
    let mut hits = [[0u32; GRID_SIZE]; GRID_SIZE];
    for _ in 0..4000 {
        let mut state = state_with([[0; GRID_SIZE]; GRID_SIZE]);
        state.add_random_tile();
        for i in 0..GRID_SIZE {
            for j in 0..GRID_SIZE {
                if state.grid[i][j] != 0 {
                    hits[i][j] += 1;
                }
            }
        }
    }
    for row in hits {
        for count in row {
            assert!(count > 100 && count < 450, "a cell was drawn {} times out of 4000", count);
        }
    }
}

#[test]
fn empty_cells_come_in_reading_order() {
    let state = state_with([[2, 0, 0, 4], [0, 8, 0, 0], [16, 16, 16, 16], [0, 0, 0, 64]]);
    assert_eq!(
        state.empty_cells(),
        vec![(0, 1), (0, 2), (1, 0), (1, 2), (1, 3), (3, 0), (3, 1), (3, 2)]
    );
    assert!(state_with(checkerboard()).empty_cells().is_empty());
    assert_eq!(state_with([[0; GRID_SIZE]; GRID_SIZE]).empty_cells().len(), 16);
}

#[test]
fn spawn_tile_at_puts_a_two_or_a_four() {
    let mut state = state_with([[0; GRID_SIZE]; GRID_SIZE]);
    assert!(state.spawn_tile_at(1, 2, true));
    assert_eq!(state.grid, [[0, 0, 0, 0], [0, 0, 2, 0], [0, 0, 0, 0], [0, 0, 0, 0]]);
    assert!(state.spawn_tile_at(3, 0, false));
    assert_eq!(state.grid, [[0, 0, 0, 0], [0, 0, 2, 0], [0, 0, 0, 0], [4, 0, 0, 0]]);
}

#[test]
fn spawn_tile_at_refuses_a_cell_that_holds_a_tile() {
    let grid = [[0, 0, 0, 0], [0, 0, 8, 0], [0, 0, 0, 0], [0, 0, 0, 0]];
    let mut state = state_with(grid);
    assert!(!state.spawn_tile_at(1, 2, true));
    assert!(!state.spawn_tile_at(1, 2, false));
    assert_eq!(state.grid, grid);
}

#[test]
fn spawn_tile_at_refuses_a_cell_off_the_grid() {
    let mut state = state_with([[0; GRID_SIZE]; GRID_SIZE]);
    assert!(!state.spawn_tile_at(GRID_SIZE, 0, true));
    assert!(!state.spawn_tile_at(0, GRID_SIZE, true));
    assert!(!state.spawn_tile_at(usize::MAX, usize::MAX, false));
    assert_eq!(state.grid, [[0; GRID_SIZE]; GRID_SIZE]);
}
