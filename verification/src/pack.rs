//! A shift, stated on the tiles in the order in which the shift takes them:
//! each run of tiles of one lane is slid and set against the wall.

use crate::direction::BoardShift;
use crate::grid::{Points, Position, Tile};
use crate::lanes::Tally;
use crate::line::{lemma_gain_bounds, merged, non_negative};
use vstd::prelude::*;

verus! {

/// The tiles stand in the order in which the shift takes them, and no two of
/// them share a cell.
pub open spec fn ordered(shift: BoardShift, tiles: Seq<Tile>) -> bool {
    forall|i: int, j: int|
        0 <= i < j < tiles.len() ==> shift.precedes(
            (#[trigger] tiles[i]).position,
            (#[trigger] tiles[j]).position,
        )
}

/// The lane of a tile.
pub open spec fn lane(shift: BoardShift, tile: Tile) -> int {
    shift.lane_of(tile.position@)
}

/// The number of tiles at the front of the sequence that lie in the lane of
/// the first one.
pub open spec fn run_len(shift: BoardShift, tiles: Seq<Tile>) -> int
    decreases tiles.len(),
{
    if tiles.len() == 0 {
        0
    } else if tiles.len() >= 2 && lane(shift, tiles[1]) == lane(shift, tiles[0]) {
        1 + run_len(shift, tiles.skip(1))
    } else {
        1
    }
}

/// The values of the tiles at the front of the sequence that lie in the lane
/// of the first one.
pub open spec fn run_values(shift: BoardShift, tiles: Seq<Tile>) -> Seq<int> {
    Seq::new(run_len(shift, tiles) as nat, |j: int| tiles[j].points.value as int)
}

/// The tile of the given value in a lane at a depth.
pub open spec fn tile_at(shift: BoardShift, size: u8, lane: int, depth: int, value: int) -> Tile {
    let cell = shift.cell_at(size as int, lane, depth);
    Tile {
        position: Position { x: cell.0 as u8, y: cell.1 as u8 },
        points: Points { value: value as u32 },
    }
}

/// Tiles of the given values, set side by side in a lane from depth `from`
/// on.
pub open spec fn place_line(
    shift: BoardShift,
    size: u8,
    lane: int,
    from: int,
    values: Seq<int>,
) -> Seq<Tile> {
    Seq::new(values.len(), |j: int| tile_at(shift, size, lane, from + j, values[j]))
}

/// The tiles after the shift. The first run is slid and set into its lane
/// from depth `from` on; every later run is slid and set against the wall.
pub open spec fn packed(shift: BoardShift, size: u8, tiles: Seq<Tile>, from: int) -> Seq<Tile>
    decreases tiles.len(),
{
    let n = run_len(shift, tiles);
    if tiles.len() == 0 || n < 1 || n > tiles.len() {
        Seq::empty()
    } else {
        place_line(shift, size, lane(shift, tiles[0]), from, merged(run_values(shift, tiles)))
            + packed(shift, size, tiles.skip(n), 0)
    }
}

/// A count summed over the runs of the sequence.
pub open spec fn run_sum(shift: BoardShift, tiles: Seq<Tile>, tally: Tally) -> int
    decreases tiles.len(),
{
    let n = run_len(shift, tiles);
    if tiles.len() == 0 || n < 1 || n > tiles.len() {
        0
    } else {
        tally.of(run_values(shift, tiles)) + run_sum(shift, tiles.skip(n), tally)
    }
}

/// The first run is not empty, holds tiles of one lane only, and ends where
/// the sequence ends or the lane changes.
pub proof fn lemma_run_len(shift: BoardShift, tiles: Seq<Tile>)
    requires
        tiles.len() > 0,
    ensures
        1 <= run_len(shift, tiles) <= tiles.len(),
        forall|j: int|
            0 <= j < run_len(shift, tiles) ==> lane(shift, #[trigger] tiles[j]) == lane(
                shift,
                tiles[0],
            ),
        run_len(shift, tiles) < tiles.len() ==> lane(shift, tiles[run_len(shift, tiles)]) != lane(
            shift,
            tiles[0],
        ),
    decreases tiles.len(),
{
    if tiles.len() >= 2 && lane(shift, tiles[1]) == lane(shift, tiles[0]) {
        let tail = tiles.skip(1);
        lemma_run_len(shift, tail);
        assert forall|j: int| 0 <= j < run_len(shift, tiles) implies lane(shift, #[trigger] tiles[j])
            == lane(shift, tiles[0]) by {
            if j > 0 {
                assert(tiles[j] == tail[j - 1]);
            }
        }
        if run_len(shift, tiles) < tiles.len() {
            assert(tiles[run_len(shift, tiles)] == tail[run_len(shift, tail)]);
        }
    }
}

/// Without its first tile, a run of two or more tiles is the run of what is
/// left, with the values that are left.
pub proof fn lemma_run_tail(shift: BoardShift, tiles: Seq<Tile>)
    requires
        run_len(shift, tiles) >= 2,
    ensures
        tiles.len() >= 2,
        lane(shift, tiles[1]) == lane(shift, tiles[0]),
        run_len(shift, tiles.skip(1)) == run_len(shift, tiles) - 1,
        run_values(shift, tiles.skip(1)) == run_values(shift, tiles).skip(1),
{
    lemma_run_len(shift, tiles.skip(1));
    assert(run_values(shift, tiles.skip(1)) =~= run_values(shift, tiles).skip(1));
}

/// The score earned over the runs is not negative.
pub proof fn lemma_run_sum_gain(shift: BoardShift, tiles: Seq<Tile>)
    ensures
        0 <= run_sum(shift, tiles, Tally::Gain),
    decreases tiles.len(),
{
    let n = run_len(shift, tiles);
    if !(tiles.len() == 0 || n < 1 || n > tiles.len()) {
        lemma_run_sum_gain(shift, tiles.skip(n));
        assert(non_negative(run_values(shift, tiles)));
        lemma_gain_bounds(run_values(shift, tiles));
    }
}

/// One step of the walk over the tiles. The first tile takes the depth
/// `from` of its lane; it swallows the second one where both lie in one lane
/// and show one value. What follows goes on at the next depth while the lane
/// lasts, and against the wall in a new lane.
pub proof fn lemma_packed_step(shift: BoardShift, size: u8, tiles: Seq<Tile>, from: int)
    requires
        tiles.len() > 0,
    ensures
        ({
            let merge = tiles.len() >= 2 && lane(shift, tiles[1]) == lane(shift, tiles[0])
                && tiles[1].points.value == tiles[0].points.value;
            let taken: int = if merge { 2 } else { 1 };
            let value: int = if merge {
                tiles[0].points.value + tiles[1].points.value
            } else {
                tiles[0].points.value as int
            };
            let rest = tiles.skip(taken);
            let next: int = if rest.len() > 0 && lane(shift, rest[0]) == lane(shift, tiles[0]) {
                from + 1
            } else {
                0
            };
            &&& packed(shift, size, tiles, from) == seq![
                tile_at(shift, size, lane(shift, tiles[0]), from, value),
            ] + packed(shift, size, rest, next)
            &&& run_sum(shift, tiles, Tally::Gain) == (if merge { value } else { 0 }) + run_sum(
                shift,
                rest,
                Tally::Gain,
            )
            &&& run_sum(shift, tiles, Tally::Merges) == (if merge { 1int } else { 0 }) + run_sum(
                shift,
                rest,
                Tally::Merges,
            )
        }),
{
    let merge = tiles.len() >= 2 && lane(shift, tiles[1]) == lane(shift, tiles[0])
        && tiles[1].points.value == tiles[0].points.value;
    let taken: int = if merge { 2 } else { 1 };
    let value: int = if merge {
        tiles[0].points.value + tiles[1].points.value
    } else {
        tiles[0].points.value as int
    };
    let rest = tiles.skip(taken);
    let n = run_len(shift, tiles);
    let here = lane(shift, tiles[0]);
    let values = run_values(shift, tiles);
    let head = seq![tile_at(shift, size, here, from, value)];
    lemma_run_len(shift, tiles);
    // What is left of the first run once the step has taken its tiles.
    let left = values.skip(taken);
    assert(merged(values) == seq![value] + merged(left)) by {
        if merge {
            assert(values[0] == values[1]);
        } else if n >= 2 {
            assert(values[0] != values[1]);
        }
    }
    assert(Tally::Gain.of(values) == (if merge { value } else { 0 }) + Tally::Gain.of(left));
    assert(Tally::Merges.of(values) == (if merge { 1int } else { 0 }) + Tally::Merges.of(left));
    if n == taken {
        // The run ends with this step.
        assert(left =~= Seq::<int>::empty());
        assert(place_line(shift, size, here, from, merged(values)) =~= head);
        if rest.len() > 0 {
            assert(rest[0] == tiles[n]);
        }
    } else {
        // The run goes on.
        assert(n > taken) by {
            if merge {
                assert(n >= 2);
            }
        }
        lemma_run_tail(shift, tiles);
        if merge {
            lemma_run_tail(shift, tiles.skip(1));
            assert(tiles.skip(1).skip(1) =~= rest);
            assert(values.skip(1).skip(1) =~= left);
        }
        assert(run_len(shift, rest) == n - taken);
        assert(run_values(shift, rest) == left);
        assert(rest[0] == tiles[taken]);
        assert(lane(shift, rest[0]) == here);
        assert(rest.skip(n - taken) =~= tiles.skip(n));
        let tail = place_line(shift, size, here, from + 1, merged(left));
        assert(place_line(shift, size, here, from, merged(values)) =~= head + tail);
        assert((head + tail) + packed(shift, size, tiles.skip(n), 0) =~= head + (tail + packed(
            shift,
            size,
            tiles.skip(n),
            0,
        )));
    }
}

} // verus!
