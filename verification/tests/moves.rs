use rust_2048_game::{Direction, GameState, GRID_SIZE};

fn state_with(grid: [[u32; GRID_SIZE]; GRID_SIZE]) -> GameState {
    let mut state = GameState::new();
    state.grid = grid;
    state.game_over = false;
    state
}

fn total(grid: &[[u32; GRID_SIZE]; GRID_SIZE]) -> u64 {
    grid.iter().flatten().map(|&v| v as u64).sum()
}

fn sorted_tiles(grid: &[[u32; GRID_SIZE]; GRID_SIZE]) -> Vec<u32> {
    let mut tiles: Vec<u32> = grid.iter().flatten().copied().filter(|&v| v != 0).collect();
    tiles.sort();
    tiles
}

#[test]
fn move_right_merges_the_pair_next_to_a_larger_tile() {
    let mut state = state_with([[2, 2, 4, 0], [0, 0, 0, 0], [0, 0, 0, 0], [0, 0, 0, 0]]);
    let moved = state.move_tiles(Direction::Right);
    assert!(moved);
    assert_eq!(state.grid[0], [0, 0, 4, 4]);
    assert_eq!(state.grid[1], [0, 0, 0, 0]);
    assert_eq!(state.grid[2], [0, 0, 0, 0]);
    assert_eq!(state.grid[3], [0, 0, 0, 0]);
}

#[test]
fn move_right_leaves_a_packed_alternating_row_alone() {
    let mut state = state_with([[2, 4, 2, 4], [0, 0, 0, 0], [0, 0, 0, 0], [0, 0, 0, 0]]);
    let moved = state.move_tiles(Direction::Right);
    assert!(!moved);
    assert_eq!(state.grid, [[2, 4, 2, 4], [0, 0, 0, 0], [0, 0, 0, 0], [0, 0, 0, 0]]);
}

#[test]
fn move_right_on_every_row() {
    let mut state = state_with([[2, 0, 0, 2], [4, 4, 4, 4], [0, 8, 0, 0], [2, 2, 2, 0]]);
    assert!(state.move_right());
    assert_eq!(state.grid, [[0, 0, 0, 4], [0, 0, 8, 8], [0, 0, 0, 8], [0, 0, 2, 4]]);
}

#[test]
fn move_left_on_every_row() {
    let mut state = state_with([[2, 0, 0, 2], [4, 4, 4, 4], [0, 8, 0, 0], [0, 2, 2, 2]]);
    assert!(state.move_left());
    assert_eq!(state.grid, [[4, 0, 0, 0], [8, 8, 0, 0], [8, 0, 0, 0], [4, 2, 0, 0]]);
}

#[test]
fn move_up_on_every_column() {
    let mut state = state_with([[2, 4, 0, 0], [0, 4, 8, 2], [0, 4, 0, 2], [2, 4, 0, 2]]);
    assert!(state.move_up());
    assert_eq!(state.grid, [[4, 8, 8, 4], [0, 8, 0, 2], [0, 0, 0, 0], [0, 0, 0, 0]]);
}

#[test]
fn move_down_on_every_column() {
    let mut state = state_with([[2, 4, 0, 2], [0, 4, 8, 2], [0, 4, 0, 2], [2, 4, 0, 0]]);
    assert!(state.move_down());
    assert_eq!(state.grid, [[0, 0, 0, 0], [0, 0, 0, 0], [0, 8, 0, 2], [4, 8, 8, 4]]);
}

#[test]
fn move_tiles_goes_the_way_of_the_named_move() {
    let grid = [[2, 2, 0, 4], [0, 4, 4, 0], [8, 0, 2, 2], [2, 0, 0, 2]];
    let cases = [
        (Direction::Up, 0),
        (Direction::Down, 1),
        (Direction::Left, 2),
        (Direction::Right, 3),
    ];
    for (direction, which) in cases {
        let mut by_name = state_with(grid);
        let moved_by_name = match which {
            0 => by_name.move_up(),
            1 => by_name.move_down(),
            2 => by_name.move_left(),
            _ => by_name.move_right(),
        };
        let mut dispatched = state_with(grid);
        let moved = dispatched.move_tiles(direction);
        assert_eq!(moved, moved_by_name);
        assert_eq!(dispatched.grid, by_name.grid);
    }
}

#[test]
fn a_lone_tile_only_slides() {
    let mut state = state_with([[0, 0, 0, 0], [0, 0, 2, 0], [0, 0, 0, 0], [0, 0, 0, 0]]);
    assert!(state.move_tiles(Direction::Left));
    assert_eq!(state.grid, [[0, 0, 0, 0], [2, 0, 0, 0], [0, 0, 0, 0], [0, 0, 0, 0]]);
    assert!(state.move_tiles(Direction::Down));
    assert_eq!(state.grid, [[0, 0, 0, 0], [0, 0, 0, 0], [0, 0, 0, 0], [2, 0, 0, 0]]);
    assert!(!state.move_tiles(Direction::Down));
    assert!(!state.move_tiles(Direction::Left));
}

#[test]
fn an_empty_grid_does_not_move() {
    let mut state = state_with([[0; GRID_SIZE]; GRID_SIZE]);
    for direction in [Direction::Up, Direction::Down, Direction::Left, Direction::Right] {
        assert!(!state.move_tiles(direction));
        assert_eq!(state.grid, [[0; GRID_SIZE]; GRID_SIZE]);
    }
}

#[test]
fn a_merged_tile_does_not_merge_again() {
    let mut state = state_with([[2, 2, 4, 0], [2, 2, 2, 2], [4, 0, 2, 2], [8, 4, 4, 0]]);
    assert!(state.move_tiles(Direction::Left));
    assert_eq!(state.grid, [[4, 4, 0, 0], [4, 4, 0, 0], [4, 4, 0, 0], [8, 8, 0, 0]]);
}

#[test]
fn a_tile_that_slides_far_still_merges_once() {
    let mut state = state_with([[4, 0, 0, 4], [2, 0, 2, 4], [0, 0, 0, 0], [0, 0, 0, 0]]);
    assert!(state.move_tiles(Direction::Left));
    assert_eq!(state.grid, [[8, 0, 0, 0], [4, 4, 0, 0], [0, 0, 0, 0], [0, 0, 0, 0]]);
}

#[test]
fn of_three_equal_tiles_the_two_nearest_the_edge_merge() {
    let mut state = state_with([[2, 2, 2, 0], [0, 0, 0, 0], [0, 0, 0, 0], [0, 0, 0, 0]]);
    assert!(state.move_tiles(Direction::Right));
    assert_eq!(state.grid[0], [0, 0, 2, 4]);
    let mut state = state_with([[2, 2, 2, 0], [0, 0, 0, 0], [0, 0, 0, 0], [0, 0, 0, 0]]);
    assert!(state.move_tiles(Direction::Left));
    assert_eq!(state.grid[0], [4, 2, 0, 0]);
}

#[test]
fn a_second_move_changes_nothing_once_no_pair_is_left() {
    let grid = [[0, 2, 0, 4], [2, 2, 0, 8], [0, 0, 0, 0], [16, 0, 16, 2]];
    let mut state = state_with(grid);
    assert!(state.move_tiles(Direction::Left));
    assert_eq!(state.grid, [[2, 4, 0, 0], [4, 8, 0, 0], [0, 0, 0, 0], [32, 2, 0, 0]]);
    let settled = state.grid;
    assert!(!state.move_tiles(Direction::Left));
    assert_eq!(state.grid, settled);
}

#[test]
fn a_second_move_merges_the_pair_that_the_first_one_made() {
    let mut state = state_with([[2, 2, 4, 0], [0, 0, 0, 0], [0, 0, 0, 0], [0, 0, 0, 0]]);
    assert!(state.move_tiles(Direction::Right));
    assert_eq!(state.grid[0], [0, 0, 4, 4]);
    assert!(state.move_tiles(Direction::Right));
    assert_eq!(state.grid[0], [0, 0, 0, 8]);
    assert!(!state.move_tiles(Direction::Right));
}

#[test]
fn a_move_keeps_the_sum_of_the_tiles() {
    let grid = [[2, 2, 4, 4], [8, 0, 8, 16], [2, 4, 2, 4], [0, 0, 32, 32]];
    for direction in [Direction::Up, Direction::Down, Direction::Left, Direction::Right] {
        let mut state = state_with(grid);
        state.move_tiles(direction);
        assert_eq!(total(&state.grid), 120);
    }
}

#[test]
fn the_tiles_after_a_move_are_old_tiles_and_doubles() {
    let mut state = state_with([[2, 2, 4, 4], [8, 0, 8, 16], [2, 4, 2, 4], [0, 0, 32, 32]]);
    assert!(state.move_tiles(Direction::Left));
    assert_eq!(state.grid, [[4, 8, 0, 0], [16, 16, 0, 0], [2, 4, 2, 4], [64, 0, 0, 0]]);
    assert_eq!(sorted_tiles(&state.grid), vec![2, 2, 4, 4, 4, 8, 16, 16, 64]);
}

#[test]
fn a_move_that_changes_the_grid_leaves_an_empty_cell() {
    let mut state = state_with([[2, 2, 4, 8], [4, 8, 16, 32], [2, 4, 8, 16], [4, 8, 16, 32]]);
    assert!(state.move_tiles(Direction::Left));
    assert_eq!(state.grid[0], [4, 4, 8, 0]);
    assert!(state.has_empty_cell());
}

#[test]
fn a_move_reports_a_change_exactly_when_a_cell_differs() {
    let grids = [
        [[2, 4, 8, 16], [4, 8, 16, 32], [2, 4, 8, 16], [4, 8, 16, 32]],
        [[2, 0, 0, 0], [4, 0, 0, 0], [2, 4, 0, 0], [4, 8, 16, 0]],
        [[0, 0, 0, 2], [0, 0, 0, 0], [2, 4, 0, 0], [4, 4, 16, 0]],
    ];
    for grid in grids {
        for direction in [Direction::Up, Direction::Down, Direction::Left, Direction::Right] {
            let mut state = state_with(grid);
            let moved = state.move_tiles(direction);
            assert_eq!(moved, state.grid != grid);
        }
    }
}

#[test]
fn a_move_leaves_the_end_of_game_flag_alone() {
    let mut state = state_with([[2, 2, 0, 0], [0, 0, 0, 0], [0, 0, 0, 0], [0, 0, 0, 0]]);
    state.game_over = true;
    assert!(state.move_tiles(Direction::Left));
    assert!(state.game_over);
}

#[test]
fn the_largest_tiles_that_fit_merge() {
    let half = 1u32 << 30;
    let mut state = state_with([[half, half, 0, 0], [0, 0, 0, 0], [0, 0, 0, 0], [0, 0, 0, 0]]);
    assert!(state.move_tiles(Direction::Left));
    assert_eq!(state.grid[0], [1u32 << 31, 0, 0, 0]);
    assert!(state.move_tiles(Direction::Right));
    assert_eq!(state.grid[0], [0, 0, 0, 1u32 << 31]);
}

#[test]
fn a_move_on_a_stuck_grid_changes_nothing() {
    let grid = [[2, 4, 8, 16], [4, 2, 16, 8], [8, 16, 2, 4], [16, 8, 4, 2]];
    for direction in [Direction::Up, Direction::Down, Direction::Left, Direction::Right] {
        let mut state = state_with(grid);
        assert!(!state.move_tiles(direction));
        assert_eq!(state.grid, grid);
    }
}

#[test]
fn a_move_fits_unless_a_merge_outgrows_the_cell() {
    let top = 1u32 << 31;
    let state = state_with([[top, top, 0, 0], [0, 0, 0, 0], [2, 2, 0, 0], [0, 0, 0, 0]]);
    assert!(!state.move_fits(Direction::Left));
    assert!(!state.move_fits(Direction::Right));
    assert!(state.move_fits(Direction::Up));
    assert!(state.move_fits(Direction::Down));

    let state = state_with([[top, 0, 0, 0], [0, 0, 0, 0], [top, 0, 0, 0], [0, 0, 0, 0]]);
    assert!(state.move_fits(Direction::Left));
    assert!(state.move_fits(Direction::Right));
    assert!(!state.move_fits(Direction::Up));
    assert!(!state.move_fits(Direction::Down));

    let state = state_with([[top, 4, top, 0], [0, 0, 0, 0], [0, 0, 0, 0], [0, 0, 0, 0]]);
    for direction in [Direction::Up, Direction::Down, Direction::Left, Direction::Right] {
        assert!(state.move_fits(direction));
    }

    let state = state_with([[u32::MAX, u32::MAX, 0, 0], [0; 4], [0; 4], [0; 4]]);
    assert!(!state.move_fits(Direction::Left));
    let state = state_with([[u32::MAX, 1, u32::MAX, 0], [0; 4], [0; 4], [0; 4]]);
    assert!(state.move_fits(Direction::Left));
}

#[test]
fn a_merged_tile_shields_the_large_tile_behind_it() {
    let top = 1u32 << 31;
    let half = 1u32 << 30;
    let mut state = state_with([[half, half, top, 0], [0, 0, 0, 0], [0, 0, 0, 0], [0, 0, 0, 0]]);
    assert!(state.move_fits(Direction::Left));
    assert!(state.move_tiles(Direction::Left));
    assert_eq!(state.grid[0], [top, top, 0, 0]);
    assert!(!state.move_fits(Direction::Left));
}

#[test]
fn a_tile_of_the_largest_value_slides() {
    let top = 1u32 << 31;
    let mut state = state_with([[0, 0, top, 0], [0, 0, 0, 0], [0, 0, 0, 0], [0, 0, 0, 0]]);
    assert!(state.move_fits(Direction::Left));
    assert!(state.move_tiles(Direction::Left));
    assert_eq!(state.grid[0], [top, 0, 0, 0]);
}

#[test]
fn a_move_adds_no_tile_and_loses_one_for_each_merge() {
    let mut state = state_with([[2, 2, 4, 4], [8, 0, 8, 16], [2, 4, 2, 4], [0, 0, 32, 32]]);
    assert_eq!(sorted_tiles(&state.grid).len(), 13);
    assert!(state.move_tiles(Direction::Right));
    assert_eq!(state.grid, [[0, 0, 4, 8], [0, 0, 16, 16], [2, 4, 2, 4], [0, 0, 0, 64]]);
    assert_eq!(sorted_tiles(&state.grid).len(), 9);
}

/// The line after a move toward its front, worked out on a list of tiles.
fn by_the_book(line: [u32; GRID_SIZE]) -> [u32; GRID_SIZE] {
    let tiles: Vec<u32> = line.iter().copied().filter(|&v| v != 0).collect();
    let mut merged = Vec::new();
    let mut next = 0;
    while next < tiles.len() {
        if next + 1 < tiles.len() && tiles[next] == tiles[next + 1] {
            merged.push(2 * tiles[next]);
            next += 2;
        } else {
            merged.push(tiles[next]);
            next += 1;
        }
    }
    let mut slid = [0; GRID_SIZE];
    slid[..merged.len()].copy_from_slice(&merged);
    slid
}

fn reversed(mut line: [u32; GRID_SIZE]) -> [u32; GRID_SIZE] {
    line.reverse();
    line
}

#[test]
fn every_line_of_small_tiles_moves_by_the_book() {
    let values = [0u32, 2, 4, 8];
    for code in 0..256usize {
        let line = [
            values[code % 4],
            values[code / 4 % 4],
            values[code / 16 % 4],
            values[code / 64 % 4],
        ];
        for at in 0..GRID_SIZE {
            let mut rows = [[0u32; GRID_SIZE]; GRID_SIZE];
            rows[at] = line;
            let mut columns = [[0u32; GRID_SIZE]; GRID_SIZE];
            for k in 0..GRID_SIZE {
                columns[k][at] = line[k];
            }

            let mut state = state_with(rows);
            let moved = state.move_tiles(Direction::Left);
            let mut expected = [[0u32; GRID_SIZE]; GRID_SIZE];
            expected[at] = by_the_book(line);
            assert_eq!(state.grid, expected);
            assert_eq!(moved, expected != rows);

            let mut state = state_with(rows);
            let moved = state.move_tiles(Direction::Right);
            let mut expected = [[0u32; GRID_SIZE]; GRID_SIZE];
            expected[at] = reversed(by_the_book(reversed(line)));
            assert_eq!(state.grid, expected);
            assert_eq!(moved, expected != rows);

            let mut state = state_with(columns);
            let moved = state.move_tiles(Direction::Up);
            let slid = by_the_book(line);
            let mut expected = [[0u32; GRID_SIZE]; GRID_SIZE];
            for k in 0..GRID_SIZE {
                expected[k][at] = slid[k];
            }
            assert_eq!(state.grid, expected);
            assert_eq!(moved, expected != columns);

            let mut state = state_with(columns);
            let moved = state.move_tiles(Direction::Down);
            let slid = reversed(by_the_book(reversed(line)));
            let mut expected = [[0u32; GRID_SIZE]; GRID_SIZE];
            for k in 0..GRID_SIZE {
                expected[k][at] = slid[k];
            }
            assert_eq!(state.grid, expected);
            assert_eq!(moved, expected != columns);
        }
    }
}

#[test]
fn the_lines_of_a_grid_move_apart_from_each_other() {
    let grid = [[2, 2, 4, 4], [0, 8, 8, 8], [16, 0, 0, 16], [2, 4, 2, 0]];
    let mut state = state_with(grid);
    assert!(state.move_tiles(Direction::Left));
    for row in 0..GRID_SIZE {
        assert_eq!(state.grid[row], by_the_book(grid[row]));
    }
    let mut state = state_with(grid);
    assert!(state.move_tiles(Direction::Down));
    for col in 0..GRID_SIZE {
        let column = [grid[3][col], grid[2][col], grid[1][col], grid[0][col]];
        let slid = by_the_book(column);
        for k in 0..GRID_SIZE {
            assert_eq!(state.grid[3 - k][col], slid[k]);
        }
    }
}

#[test]
fn a_move_without_a_merge_keeps_every_tile() {
    let grid = [[0, 2, 0, 4], [8, 0, 0, 2], [0, 0, 0, 0], [4, 2, 4, 0]];
    for direction in [Direction::Left, Direction::Right] {
        let mut state = state_with(grid);
        assert!(state.move_tiles(direction));
        assert_eq!(sorted_tiles(&state.grid), sorted_tiles(&grid));
        assert_eq!(total(&state.grid), total(&grid));
    }
    let mut state = state_with(grid);
    assert!(state.move_tiles(Direction::Left));
    assert_eq!(state.grid, [[2, 4, 0, 0], [8, 2, 0, 0], [0, 0, 0, 0], [4, 2, 4, 0]]);
}
