//! One line of the grid, read from the edge the tiles travel to.
//!
//! A line is a sequence of cell values; index 0 is the cell nearest the target
//! edge. Sliding a line keeps its tiles in order, lets each tile join at most
//! one merge, and packs the outcome against the edge.

use vstd::prelude::*;

verus! {

/// The tiles of a line: its non-zero cells, nearest the edge first.
pub open spec fn tiles_of(line: Seq<int>) -> Seq<int>
    decreases line.len(),
{
    if line.len() == 0 {
        Seq::empty()
    } else if line.last() == 0 {
        tiles_of(line.drop_last())
    } else {
        tiles_of(line.drop_last()).push(line.last())
    }
}

/// The tiles merged pairwise from the edge: where the two tiles nearest the
/// edge are equal, they become one tile of twice the value and the tiles
/// behind them are merged in the same way; otherwise the nearest tile stays
/// and the tiles from the second one on are merged in the same way.
pub open spec fn merge_pairs(tiles: Seq<int>) -> Seq<int>
    decreases tiles.len(),
{
    if tiles.len() < 2 {
        tiles
    } else if tiles[0] == tiles[1] {
        seq![2 * tiles[0]] + merge_pairs(tiles.skip(2))
    } else {
        seq![tiles[0]] + merge_pairs(tiles.skip(1))
    }
}

/// The line of `len` cells that holds `tiles` against the edge and is empty
/// behind them.
pub open spec fn pad(tiles: Seq<int>, len: nat) -> Seq<int> {
    Seq::new(len, |p: int| if p < tiles.len() { tiles[p] } else { 0 })
}

/// The line after one move toward its edge: its tiles, merged pairwise from
/// the edge, lie packed against the edge.
pub open spec fn slide_line(line: Seq<int>) -> Seq<int> {
    pad(merge_pairs(tiles_of(line)), line.len())
}

/// No tile of the line has an empty cell between itself and the edge.
pub open spec fn is_packed(line: Seq<int>) -> bool {
    forall|p: int, q: int| 0 <= p < q < line.len() && line[p] == 0 ==> line[q] == 0
}

/// Two neighbouring tiles hold the same value.
pub open spec fn has_equal_neighbours(tiles: Seq<int>) -> bool {
    exists|p: int| 0 <= p && p + 1 < tiles.len() && #[trigger] tiles[p] == tiles[p + 1]
}

/// Tiles that have come to rest against the edge. A move can also be told
/// tile by tile: the tiles of a line arrive one after the other, nearest the
/// edge first, and each either joins the last one that rests or comes to rest
/// behind it. `lemma_settle_merges_pairs` shows that this merges the tiles
/// pairwise.
///
/// `sealed` tells whether the tile farthest from the edge is the product of a
/// merge, and so refuses another one during the same move.
pub struct Settled {
    pub tiles: Seq<int>,
    pub sealed: bool,
}

/// The state before any tile has arrived.
pub open spec fn nothing_settled() -> Settled {
    Settled { tiles: Seq::empty(), sealed: false }
}

/// One more tile arrives behind the settled ones.
///
/// It merges with the last settled tile when both hold the same value and that
/// tile is not sealed; otherwise it comes to rest behind it.
pub open spec fn absorb(settled: Settled, tile: int) -> Settled {
    if settled.tiles.len() > 0 && !settled.sealed && settled.tiles.last() == tile {
        Settled { tiles: settled.tiles.drop_last().push(2 * tile), sealed: true }
    } else {
        Settled { tiles: settled.tiles.push(tile), sealed: false }
    }
}

/// Lets the tiles arrive one after the other, nearest the edge first.
pub open spec fn settle(tiles: Seq<int>) -> Settled
    decreases tiles.len(),
{
    if tiles.len() == 0 {
        nothing_settled()
    } else {
        absorb(settle(tiles.drop_last()), tiles.last())
    }
}

/// Where group `g` ends: at the start of the next group, or with the tiles.
pub open spec fn group_end(before: Seq<int>, starts: Seq<int>, g: int) -> int {
    if g + 1 < starts.len() {
        starts[g + 1]
    } else {
        before.len() as int
    }
}

/// Group `g` holds one tile of `before`, which `after` keeps as it is, or two
/// equal tiles, which `after` holds as one tile of twice the value.
pub open spec fn is_group(before: Seq<int>, after: Seq<int>, starts: Seq<int>, g: int) -> bool {
    let start = starts[g];
    let end = group_end(before, starts, g);
    &&& 0 <= start < end <= before.len()
    &&& {
        ||| end == start + 1 && after[g] == before[start]
        ||| end == start + 2 && before[start] == before[start + 1] && after[g] == 2 * before[start]
    }
}

/// `starts` cuts the tiles `before` into consecutive groups, one for each tile
/// of `after`, in the same order.
///
/// Every tile of `before` lies in exactly one group, so none takes part in
/// more than one merge, and no tile of `after` is more than the double of a
/// tile of `before`.
pub open spec fn is_grouping(before: Seq<int>, after: Seq<int>, starts: Seq<int>) -> bool {
    &&& starts.len() == after.len()
    &&& after.len() == 0 ==> before.len() == 0
    &&& after.len() > 0 ==> starts[0] == 0
    &&& forall|g: int| 0 <= g < after.len() ==> #[trigger] is_group(before, after, starts, g)
}

/// Between the two lines no tile has taken part in more than one merge: the
/// tiles of `before` fall into consecutive groups of one tile or of two equal
/// tiles, and `after` holds one tile for each group, in the same order.
pub open spec fn merges_once(before: Seq<int>, after: Seq<int>) -> bool {
    exists|starts: Seq<int>| is_grouping(tiles_of(before), tiles_of(after), starts)
}

/// `value` is the value of a tile of the line, or twice that.
pub open spec fn is_kept_or_doubled(value: int, line: Seq<int>) -> bool {
    exists|q: int|
        0 <= q < line.len() && (#[trigger] line[q]) != 0 && (value == line[q] || value == 2
            * line[q])
}

/// The tiles of a line with one more cell behind it.
pub proof fn lemma_tiles_of_push(line: Seq<int>, cell: int)
    ensures
        tiles_of(line.push(cell)) == if cell == 0 {
            tiles_of(line)
        } else {
            tiles_of(line).push(cell)
        },
{
    assert(line.push(cell).drop_last() =~= line);
}

/// The tiles of two lines laid end to end.
pub proof fn lemma_tiles_of_concat(front: Seq<int>, back: Seq<int>)
    ensures
        tiles_of(front + back) == tiles_of(front) + tiles_of(back),
    decreases back.len(),
{
    if back.len() > 0 {
        lemma_tiles_of_concat(front, back.drop_last());
        assert((front + back).drop_last() =~= front + back.drop_last());
        assert(tiles_of(front) + tiles_of(back.drop_last()).push(back.last()) =~= (tiles_of(front)
            + tiles_of(back.drop_last())).push(back.last()));
    }
}

/// Every tile is a non-zero cell of the line, and no line has more tiles
/// than cells.
pub proof fn lemma_tiles_of_bounds(line: Seq<int>)
    ensures
        tiles_of(line).len() <= line.len(),
        forall|t: int| 0 <= t < tiles_of(line).len() ==> #[trigger] tiles_of(line)[t] != 0,
        forall|t: int| 0 <= t < tiles_of(line).len() ==> line.contains(#[trigger] tiles_of(line)[t]),
    decreases line.len(),
{
    if line.len() > 0 {
        let rest = line.drop_last();
        lemma_tiles_of_bounds(rest);
        assert forall|t: int| 0 <= t < tiles_of(line).len() implies line.contains(
            #[trigger] tiles_of(line)[t],
        ) by {
            if t < tiles_of(rest).len() {
                let p = choose|p: int| 0 <= p < rest.len() && rest[p] == tiles_of(rest)[t];
                assert(line[p] == tiles_of(line)[t]);
            } else {
                assert(line[line.len() - 1] == tiles_of(line)[t]);
            }
        }
    }
}

/// A line without an empty cell is its own sequence of tiles.
pub proof fn lemma_tiles_of_full(line: Seq<int>)
    requires
        forall|p: int| 0 <= p < line.len() ==> line[p] != 0,
    ensures
        tiles_of(line) == line,
    decreases line.len(),
{
    if line.len() > 0 {
        lemma_tiles_of_full(line.drop_last());
    }
}

/// A line whose every cell is a tile has no empty cell.
pub proof fn lemma_tiles_of_len_full(line: Seq<int>)
    requires
        tiles_of(line).len() == line.len(),
    ensures
        tiles_of(line) == line,
    decreases line.len(),
{
    if line.len() > 0 {
        lemma_tiles_of_bounds(line.drop_last());
        lemma_tiles_of_len_full(line.drop_last());
    }
}

/// Padding adds no tile.
pub proof fn lemma_tiles_of_pad(tiles: Seq<int>, len: nat)
    requires
        tiles.len() <= len,
        forall|t: int| 0 <= t < tiles.len() ==> tiles[t] != 0,
    ensures
        tiles_of(pad(tiles, len)) == tiles,
    decreases len,
{
    if len == tiles.len() {
        assert(pad(tiles, len) =~= tiles);
        lemma_tiles_of_full(tiles);
    } else {
        lemma_tiles_of_pad(tiles, (len - 1) as nat);
        assert(pad(tiles, len).drop_last() =~= pad(tiles, (len - 1) as nat));
    }
}

/// A packed line is its tiles followed by empty cells.
pub proof fn lemma_packed_is_padded(line: Seq<int>)
    requires
        is_packed(line),
    ensures
        line == pad(tiles_of(line), line.len()),
    decreases line.len(),
{
    lemma_tiles_of_bounds(line);
    if line.len() > 0 {
        let rest = line.drop_last();
        assert forall|p: int, q: int| 0 <= p < q < rest.len() && rest[p] == 0 implies rest[q]
            == 0 by {
            assert(line[p] == 0);
        }
        lemma_packed_is_padded(rest);
        lemma_tiles_of_bounds(rest);
        if line.last() != 0 {
            assert forall|p: int| 0 <= p < rest.len() implies rest[p] != 0 by {
                assert(line[p] == rest[p]);
            }
            lemma_tiles_of_full(rest);
        }
        assert(line =~= pad(tiles_of(line), line.len())) by {
            assert forall|p: int| 0 <= p < line.len() implies line[p] == pad(
                tiles_of(line),
                line.len(),
            )[p] by {
                if p < rest.len() {
                    assert(line[p] == rest[p]);
                }
            }
        }
    }
}

/// What settling does to the number of tiles, to their being non-zero, and to
/// the tile farthest from the edge.
pub proof fn lemma_settle_bounds(tiles: Seq<int>)
    ensures
        settle(tiles).tiles.len() <= tiles.len(),
        tiles.len() <= 2 * settle(tiles).tiles.len(),
        tiles.len() > 0 ==> settle(tiles).tiles.len() > 0,
        tiles.len() > 0 && !settle(tiles).sealed ==> settle(tiles).tiles.last() == tiles.last(),
        tiles.len() > 0 && settle(tiles).sealed ==> settle(tiles).tiles.last() == 2 * tiles.last(),
        (forall|t: int| 0 <= t < tiles.len() ==> tiles[t] != 0) ==> (forall|t: int|
            0 <= t < settle(tiles).tiles.len() ==> #[trigger] settle(tiles).tiles[t] != 0),
    decreases tiles.len(),
{
    if tiles.len() > 0 {
        let rest = tiles.drop_last();
        lemma_settle_bounds(rest);
        lemma_settle_pairs(rest);
        if forall|t: int| 0 <= t < tiles.len() ==> tiles[t] != 0 {
            assert forall|t: int| 0 <= t < rest.len() implies rest[t] != 0 by {
                assert(rest[t] == tiles[t]);
            }
        }
    }
}

/// Settling pairs tiles off: each settled tile stands for one tile or for
/// two, and a sealed one stands for two.
proof fn lemma_settle_pairs(tiles: Seq<int>)
    ensures
        tiles.len() <= 2 * settle(tiles).tiles.len() - (if settle(tiles).sealed {
            0int
        } else if tiles.len() > 0 {
            1int
        } else {
            0int
        }),
    decreases tiles.len(),
{
    if tiles.len() > 0 {
        lemma_settle_pairs(tiles.drop_last());
    }
}

/// Settling changes nothing exactly when no two neighbouring tiles are equal.
pub proof fn lemma_settle_fixed(tiles: Seq<int>)
    ensures
        settle(tiles).tiles.len() <= tiles.len(),
        has_equal_neighbours(tiles) <==> settle(tiles).tiles.len() < tiles.len(),
        !has_equal_neighbours(tiles) ==> settle(tiles) == (Settled { tiles, sealed: false }),
    decreases tiles.len(),
{
    if tiles.len() == 0 {
        assert(settle(tiles).tiles =~= tiles);
    } else {
        let rest = tiles.drop_last();
        let last = tiles.last();
        let before = settle(rest);
        lemma_settle_fixed(rest);
        if has_equal_neighbours(rest) {
            let p = choose|p: int| 0 <= p && p + 1 < rest.len() && #[trigger] rest[p] == rest[p + 1];
            assert(tiles[p] == tiles[p + 1]);
        } else if rest.len() > 0 && rest.last() == last {
            let p = tiles.len() - 2;
            assert(tiles[p] == tiles[p + 1]);
        } else {
            assert(settle(tiles).tiles =~= tiles);
            assert forall|p: int| 0 <= p && p + 1 < tiles.len() implies #[trigger] tiles[p]
                != tiles[p + 1] by {
                if p + 1 < rest.len() {
                    assert(rest[p] == tiles[p]);
                }
            }
        }
    }
}

/// Tiles that arrive later leave the settled ones alone, but for the last
/// one while it is not sealed.
pub proof fn lemma_settle_prefix(tiles: Seq<int>, n: int)
    requires
        0 <= n <= tiles.len(),
    ensures
        settle(tiles.take(n)).tiles.len() <= settle(tiles).tiles.len(),
        forall|t: int|
            0 <= t < settle(tiles.take(n)).tiles.len() - 1 ==> #[trigger] settle(tiles).tiles[t]
                == settle(tiles.take(n)).tiles[t],
        settle(tiles.take(n)).sealed ==> settle(tiles).tiles[settle(tiles.take(n)).tiles.len() - 1]
            == settle(tiles.take(n)).tiles.last(),
        settle(tiles.take(n)).sealed && settle(tiles.take(n)).tiles.len() == settle(
            tiles,
        ).tiles.len() ==> settle(tiles).sealed,
    decreases tiles.len(),
{
    if n == tiles.len() {
        assert(tiles.take(n) =~= tiles);
    } else {
        let rest = tiles.drop_last();
        assert(rest.take(n) =~= tiles.take(n));
        lemma_settle_prefix(rest, n);
    }
}

/// A first tile that differs from the second settles on its own, and the
/// tiles behind it settle as they would without it.
proof fn lemma_settle_front_single(tiles: Seq<int>)
    requires
        tiles.len() >= 1,
        tiles.len() >= 2 ==> tiles[0] != tiles[1],
    ensures
        settle(tiles).tiles == seq![tiles[0]] + settle(tiles.skip(1)).tiles,
        settle(tiles).sealed == settle(tiles.skip(1)).sealed,
    decreases tiles.len(),
{
    if tiles.len() == 1 {
        assert(tiles.drop_last() =~= Seq::<int>::empty());
        assert(tiles.skip(1) =~= Seq::<int>::empty());
    } else {
        let rest = tiles.drop_last();
        lemma_settle_front_single(rest);
        assert(tiles.skip(1).drop_last() =~= rest.skip(1));
        if settle(rest.skip(1)).tiles.len() == 0 {
            assert(rest.len() == 1) by {
                lemma_settle_bounds(rest.skip(1));
            }
        }
    }
}

/// Two equal first tiles settle as one sealed tile, and the tiles behind
/// them settle as they would without them.
proof fn lemma_settle_front_pair(tiles: Seq<int>)
    requires
        tiles.len() >= 2,
        tiles[0] == tiles[1],
    ensures
        settle(tiles).tiles == seq![2 * tiles[0]] + settle(tiles.skip(2)).tiles,
        tiles.len() >= 3 ==> settle(tiles).sealed == settle(tiles.skip(2)).sealed,
        tiles.len() == 2 ==> settle(tiles).sealed,
    decreases tiles.len(),
{
    let rest = tiles.drop_last();
    if tiles.len() == 2 {
        assert(settle(rest) == absorb(settle(rest.drop_last()), rest.last()));
    } else {
        lemma_settle_front_pair(rest);
        assert(tiles.skip(2).drop_last() =~= rest.skip(2));
        if settle(rest.skip(2)).tiles.len() == 0 {
            assert(rest.len() == 2) by {
                lemma_settle_bounds(rest.skip(2));
            }
        }
    }
}

/// Settling the tiles one after the other merges them pairwise from the
/// edge.
pub proof fn lemma_settle_merges_pairs(tiles: Seq<int>)
    ensures
        settle(tiles).tiles == merge_pairs(tiles),
    decreases tiles.len(),
{
    if tiles.len() == 1 {
        lemma_settle_front_single(tiles);
    } else if tiles.len() >= 2 && tiles[0] == tiles[1] {
        lemma_settle_front_pair(tiles);
        lemma_settle_merges_pairs(tiles.skip(2));
    } else if tiles.len() >= 2 {
        lemma_settle_front_single(tiles);
        lemma_settle_merges_pairs(tiles.skip(1));
    }
}

/// A move lets the tiles of a line settle one after the other.
pub proof fn lemma_slide_line_settles(line: Seq<int>)
    ensures
        slide_line(line) == pad(settle(tiles_of(line)).tiles, line.len()),
{
    lemma_settle_merges_pairs(tiles_of(line));
}

/// The tiles of a slid line are the settled tiles of the line.
pub proof fn lemma_tiles_of_slide_line(line: Seq<int>)
    ensures
        tiles_of(slide_line(line)) == settle(tiles_of(line)).tiles,
        slide_line(line).len() == line.len(),
        is_packed(slide_line(line)),
{
    let tiles = tiles_of(line);
    lemma_slide_line_settles(line);
    lemma_tiles_of_bounds(line);
    lemma_settle_bounds(tiles);
    lemma_tiles_of_pad(settle(tiles).tiles, line.len());
}

/// A move leaves a line as it is exactly when the line is packed and no two
/// neighbouring tiles are equal.
pub proof fn lemma_slide_line_fixed(line: Seq<int>)
    ensures
        slide_line(line) == line <==> is_packed(line) && !has_equal_neighbours(tiles_of(line)),
{
    let tiles = tiles_of(line);
    lemma_slide_line_settles(line);
    lemma_tiles_of_slide_line(line);
    lemma_settle_fixed(tiles);
    if is_packed(line) && !has_equal_neighbours(tiles) {
        lemma_packed_is_padded(line);
    }
}

/// A move that changes a line leaves its last cell empty.
pub proof fn lemma_slide_line_room(line: Seq<int>)
    requires
        line.len() > 0,
        slide_line(line) != line,
    ensures
        slide_line(line)[line.len() - 1] == 0,
{
    let tiles = tiles_of(line);
    let after = settle(tiles).tiles;
    lemma_slide_line_settles(line);
    lemma_tiles_of_bounds(line);
    lemma_settle_fixed(tiles);
    if after.len() == line.len() {
        lemma_tiles_of_len_full(line);
        assert(slide_line(line) =~= line);
    }
}

/// A tile that joins the last group, which held one tile, leaves every other
/// group as it was.
proof fn lemma_group_joined(tiles: Seq<int>, starts: Seq<int>)
    requires
        tiles.len() > 0,
        is_grouping(tiles.drop_last(), settle(tiles.drop_last()).tiles, starts),
        settle(tiles.drop_last()).tiles.len() > 0,
        !settle(tiles.drop_last()).sealed,
        settle(tiles.drop_last()).tiles.last() == tiles.last(),
        starts.last() == tiles.len() - 2,
    ensures
        is_grouping(tiles, settle(tiles).tiles, starts),
{
    let rest = tiles.drop_last();
    let before = settle(rest).tiles;
    let after = settle(tiles).tiles;
    assert forall|g: int| 0 <= g < after.len() implies #[trigger] is_group(
        tiles,
        after,
        starts,
        g,
    ) by {
        assert(is_group(rest, before, starts, g));
    }
}

/// A tile that comes to rest on its own forms a new last group and leaves
/// every other group as it was.
proof fn lemma_group_added(tiles: Seq<int>, inner: Seq<int>)
    requires
        tiles.len() > 0,
        is_grouping(tiles.drop_last(), settle(tiles.drop_last()).tiles, inner),
        settle(tiles).tiles == settle(tiles.drop_last()).tiles.push(tiles.last()),
    ensures
        is_grouping(tiles, settle(tiles).tiles, inner.push(tiles.len() - 1)),
{
    let rest = tiles.drop_last();
    let before = settle(rest).tiles;
    let after = settle(tiles).tiles;
    let starts = inner.push(tiles.len() - 1);
    assert forall|g: int| 0 <= g < after.len() implies #[trigger] is_group(
        tiles,
        after,
        starts,
        g,
    ) by {
        if g + 1 < after.len() {
            assert(is_group(rest, before, inner, g));
        }
    }
}

/// The grouping that settling makes. The last group holds two tiles exactly
/// when the outcome is sealed.
pub proof fn lemma_settle_groups(tiles: Seq<int>) -> (starts: Seq<int>)
    ensures
        is_grouping(tiles, settle(tiles).tiles, starts),
        tiles.len() > 0 ==> starts.len() > 0 && starts.last() == tiles.len() - (if settle(
            tiles,
        ).sealed {
            2int
        } else {
            1int
        }),
    decreases tiles.len(),
{
    if tiles.len() == 0 {
        Seq::empty()
    } else {
        let rest = tiles.drop_last();
        let before = settle(rest);
        let inner = lemma_settle_groups(rest);
        lemma_settle_bounds(rest);
        if before.tiles.len() > 0 && !before.sealed && before.tiles.last() == tiles.last() {
            lemma_group_joined(tiles, inner);
            inner
        } else {
            lemma_group_added(tiles, inner);
            inner.push(tiles.len() - 1)
        }
    }
}

/// In one move no tile takes part in two merges, however far it slides.
pub proof fn lemma_slide_line_merges_once(line: Seq<int>)
    ensures
        merges_once(line, slide_line(line)),
{
    lemma_tiles_of_slide_line(line);
    let starts = lemma_settle_groups(tiles_of(line));
    assert(is_grouping(tiles_of(line), tiles_of(slide_line(line)), starts));
}

/// After a move each tile of a line holds the value of a tile that was there
/// before, or twice that.
pub proof fn lemma_slide_line_values(line: Seq<int>)
    ensures
        forall|p: int|
            0 <= p < line.len() && (#[trigger] slide_line(line)[p]) != 0 ==> is_kept_or_doubled(
                slide_line(line)[p],
                line,
            ),
{
    let tiles = tiles_of(line);
    let after = settle(tiles).tiles;
    let starts = lemma_settle_groups(tiles);
    lemma_slide_line_settles(line);
    lemma_tiles_of_bounds(line);
    assert forall|p: int| 0 <= p < line.len() && (#[trigger] slide_line(line)[p])
        != 0 implies is_kept_or_doubled(slide_line(line)[p], line) by {
        assert(is_group(tiles, after, starts, p));
        let tile = tiles[starts[p]];
        assert(line.contains(tile));
        let q = choose|q: int| 0 <= q < line.len() && line[q] == tile;
        assert(line[q] != 0);
    }
}

} // verus!
