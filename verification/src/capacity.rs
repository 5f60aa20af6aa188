//! How large the tiles can grow on a grid of sixteen cells.
//!
//! A tile of 2^k is made of two tiles of 2^(k-1) that lie on the grid at the
//! same time, and so on down to the tiles that are spawned. Large tiles are
//! therefore scarce: counted from the largest down, each further tile must be
//! a rank lower. A grid that play has brought about never holds a tile above
//! 131072, and no move on it ever outgrows a cell.

use crate::board::{
    in_grid, is_board, is_tile_value, is_well_formed, is_within, place, slide, Board, Direction,
    GRID_SIZE,
};
use crate::spawner::{is_spawn, new_tile};
use crate::tally::count_from_of;
use vstd::arithmetic::power2::{is_pow2, lemma2_to64, lemma_pow2_pos, lemma_pow2_unfold, pow2};
use vstd::prelude::*;

verus! {

/// The largest `k` for which a grid within capacity may hold a tile of 2^k or
/// more, plus one: the number of cells plus two.
pub open spec fn top_rank() -> nat {
    (GRID_SIZE * GRID_SIZE + 2) as nat
}

/// Large tiles are as scarce as play makes them: for every `k` from 1 up to
/// `top_rank()`, the cells that hold 2^k or more number `top_rank() - k` at
/// most. In particular no cell holds 2^`top_rank()` or more.
pub open spec fn is_within_capacity(board: Board) -> bool {
    forall|k: nat|
        1 <= k <= top_rank() ==> #[trigger] count_from_of(board, pow2(k) as int) + k <= top_rank()
}

/// An empty grid is within capacity.
pub proof fn lemma_blank_within_capacity(board: Board)
    requires
        is_board(board),
        forall|r: int, c: int| in_grid(r, c) ==> (#[trigger] board[r][c]) == 0,
    ensures
        is_within_capacity(board),
{
    crate::tally::lemma_blank(board);
    assert forall|k: nat| 1 <= k <= top_rank() implies #[trigger] count_from_of(
        board,
        pow2(k) as int,
    ) + k <= top_rank() by {
        lemma_pow2_pos(k);
    }
}

/// A new tile keeps a grid within capacity.
pub proof fn lemma_spawn_within_capacity(before: Board, after: Board)
    requires
        is_board(before),
        is_within_capacity(before),
        is_spawn(before, after),
    ensures
        is_within_capacity(after),
{
    let (r, c, small) = choose|r: int, c: int, small: bool|
        in_grid(r, c) && before[r][c] == 0 && after == #[trigger] place(
            before,
            r,
            c,
            new_tile(small),
        );
    lemma2_to64();
    assert forall|k: nat| 1 <= k <= top_rank() implies #[trigger] count_from_of(
        after,
        pow2(k) as int,
    ) + k <= top_rank() by {
        lemma_pow2_pos(k);
        crate::tally::lemma_place_tally(before, r, c, new_tile(small), pow2(k) as int);
        crate::tally::lemma_count_from_of(after, pow2(k) as int);
        if k >= 3 {
            lemma_rank_grows(3, k);
            assert(count_from_of(before, pow2(k) as int) + k <= top_rank());
        }
    }
}

/// A higher rank is a larger tile.
proof fn lemma_rank_grows(low: nat, high: nat)
    requires
        low <= high,
    ensures
        pow2(low) <= pow2(high),
    decreases high - low,
{
    if low < high {
        lemma_rank_grows(low, (high - 1) as nat);
        lemma_pow2_unfold(high);
    }
}

/// A move keeps a grid within capacity.
pub proof fn lemma_slide_within_capacity(board: Board, direction: Direction)
    requires
        is_board(board),
        is_within_capacity(board),
    ensures
        is_within_capacity(slide(board, direction)),
{
    let after = slide(board, direction);
    crate::board::lemma_slide_lines(board, direction);
    assert forall|k: nat| 1 <= k <= top_rank() implies #[trigger] count_from_of(
        after,
        pow2(k) as int,
    ) + k <= top_rank() by {
        if k == 1 {
            crate::tally::lemma_count_from_of(after, pow2(k) as int);
        } else {
            let lower = (k - 1) as nat;
            lemma_pow2_unfold(k);
            lemma_pow2_pos(lower);
            crate::tally::lemma_slide_reach(board, direction, pow2(lower) as int);
            assert(count_from_of(board, pow2(k) as int) + k <= top_rank());
            assert(count_from_of(board, pow2(lower) as int) + lower <= top_rank());
        }
    }
}

/// On a grid within capacity every cell is below 262144.
pub proof fn lemma_capacity_bounds_tiles(board: Board)
    requires
        is_board(board),
        is_within_capacity(board),
    ensures
        is_within(board, 262143),
{
    lemma2_to64();
    assert(count_from_of(board, pow2(18) as int) + 18 <= top_rank());
    crate::tally::lemma_count_from_of(board, pow2(18) as int);
    assert forall|r: int, c: int| in_grid(r, c) implies (#[trigger] board[r][c]) <= 262143 by {
        assert(board[r][c] < pow2(18));
    }
}

/// A power of two above 2^k is 2^(k+1) at least.
proof fn lemma_next_power(value: int, k: nat)
    requires
        is_pow2(value),
        value > pow2(k),
    ensures
        value >= pow2(k + 1),
    decreases k,
{
    reveal(is_pow2);
    lemma_pow2_pos(k);
    lemma_pow2_unfold(k + 1);
    if k == 0 {
        lemma2_to64();
    } else {
        lemma_pow2_unfold(k);
        lemma_next_power(value / 2, (k - 1) as nat);
    }
}

/// On a well-formed grid within capacity no tile is above 131072.
pub proof fn lemma_largest_tile(board: Board)
    requires
        is_board(board),
        is_well_formed(board),
        is_within_capacity(board),
    ensures
        is_within(board, 131072),
{
    lemma2_to64();
    lemma_capacity_bounds_tiles(board);
    assert forall|r: int, c: int| in_grid(r, c) implies (#[trigger] board[r][c]) <= 131072 by {
        let value = board[r][c];
        assert(is_tile_value(value));
        if value > 131072 {
            lemma_next_power(value, 17);
        }
    }
}

/// On a grid within capacity every move can be made: none outgrows a cell.
pub proof fn lemma_capacity_fits(board: Board, direction: Direction)
    requires
        is_board(board),
        is_within_capacity(board),
    ensures
        is_within(slide(board, direction), u32::MAX as int),
{
    crate::board::lemma_slide_lines(board, direction);
    lemma_slide_within_capacity(board, direction);
    lemma_capacity_bounds_tiles(slide(board, direction));
    assert forall|r: int, c: int| in_grid(r, c) implies (#[trigger] slide(
        board,
        direction,
    )[r][c]) <= u32::MAX by {
        assert(slide(board, direction)[r][c] <= 262143);
    }
}

} // verus!
