//! From the tiles in the order of a shift to the grid: the runs of the
//! sequence are the lanes of the board.

use crate::direction::BoardShift;
use crate::grid::{
    distinct_positions, grid_of, lemma_grid_domain, lemma_grid_value, within_board, Position, Tile,
};
use crate::lanes::{
    agree_on_lane, lane_is_empty, lane_sum, lane_values, lemma_cell_round_trip,
    lemma_lane_depth_of_cell, lemma_lane_sum_of_empty_grid, lemma_lane_sum_split,
    lemma_lane_values_agree, lemma_lane_values_empty, lemma_lane_values_len, line_of, shifted,
    Tally,
};
use crate::line::{lemma_gain_bounds, lemma_merged_bounds, lemma_merged_len, merged};
use crate::pack::{
    lane, lemma_run_len, lemma_run_sum_gain, ordered, packed, place_line, run_len, run_sum,
    run_values,
};
use vstd::prelude::*;

verus! {

/// The depth of a tile on a board of the given size.
pub open spec fn depth(shift: BoardShift, size: int, tile: Tile) -> int {
    shift.depth_of(size, tile.position@)
}

/// Of two positions of one lane, the shift takes the one nearer to the wall
/// first.
pub proof fn lemma_precedes_in_lane(shift: BoardShift, size: int, a: Position, b: Position)
    requires
        shift.precedes(a, b),
        shift.lane_of(a@) == shift.lane_of(b@),
    ensures
        shift.depth_of(size, a@) < shift.depth_of(size, b@),
{
}

/// Once the shift has left a lane, it does not come back to it.
pub proof fn lemma_lane_left_behind(shift: BoardShift, a: Position, b: Position, c: Position)
    requires
        shift.precedes(a, b),
        shift.lane_of(a@) != shift.lane_of(b@),
        b == c || shift.precedes(b, c),
    ensures
        shift.lane_of(c@) != shift.lane_of(a@),
{
}

/// Tiles in the order of a shift lie on cells of their own.
pub proof fn lemma_ordered_distinct(shift: BoardShift, tiles: Seq<Tile>)
    requires
        ordered(shift, tiles),
    ensures
        distinct_positions(tiles),
{
    assert forall|i: int, j: int| 0 <= i < j < tiles.len() implies (#[trigger] tiles[i]).position
        != (#[trigger] tiles[j]).position by {
        assert(shift.precedes(tiles[i].position, tiles[j].position));
    }
}

/// What follows a tile in the order of a shift is in that order too, and
/// lies on the board as well.
pub proof fn lemma_ordered_skip(shift: BoardShift, size: int, tiles: Seq<Tile>, n: int)
    requires
        ordered(shift, tiles),
        within_board(tiles, size),
        0 <= n <= tiles.len(),
    ensures
        ordered(shift, tiles.skip(n)),
        within_board(tiles.skip(n), size),
{
    let rest = tiles.skip(n);
    assert forall|i: int, j: int| 0 <= i < j < rest.len() implies shift.precedes(
        (#[trigger] rest[i]).position,
        (#[trigger] rest[j]).position,
    ) by {
        assert(rest[i] == tiles[i + n] && rest[j] == tiles[j + n]);
    }
    assert forall|i: int| 0 <= i < rest.len() implies (#[trigger] rest[i]).position.x < size
        && rest[i].position.y < size by {
        assert(rest[i] == tiles[i + n]);
    }
}

/// The first run of tiles in the order of a shift holds every tile of its
/// lane, nearer to the wall first.
pub proof fn lemma_run_is_lane(shift: BoardShift, size: int, tiles: Seq<Tile>)
    requires
        ordered(shift, tiles),
        within_board(tiles, size),
        tiles.len() > 0,
    ensures
        forall|j: int|
            run_len(shift, tiles) <= j < tiles.len() ==> lane(shift, #[trigger] tiles[j]) != lane(
                shift,
                tiles[0],
            ),
        forall|i: int, j: int|
            0 <= i < j < run_len(shift, tiles) ==> depth(shift, size, #[trigger] tiles[i]) < depth(
                shift,
                size,
                #[trigger] tiles[j],
            ),
        forall|j: int|
            0 <= j < tiles.len() ==> 0 <= lane(shift, #[trigger] tiles[j]) < size && 0 <= depth(
                shift,
                size,
                tiles[j],
            ) < size,
{
    let n = run_len(shift, tiles);
    lemma_run_len(shift, tiles);
    assert forall|j: int| n <= j < tiles.len() implies lane(shift, #[trigger] tiles[j]) != lane(
        shift,
        tiles[0],
    ) by {
        assert(shift.precedes(tiles[0].position, tiles[n].position));
        if n < j {
            assert(shift.precedes(tiles[n].position, tiles[j].position));
        }
        lemma_lane_left_behind(shift, tiles[0].position, tiles[n].position, tiles[j].position);
    }
    assert forall|i: int, j: int| 0 <= i < j < n implies depth(shift, size, #[trigger] tiles[i])
        < depth(shift, size, #[trigger] tiles[j]) by {
        assert(lane(shift, tiles[i]) == lane(shift, tiles[0]));
        assert(lane(shift, tiles[j]) == lane(shift, tiles[0]));
        lemma_precedes_in_lane(shift, size, tiles[i].position, tiles[j].position);
    }
    assert forall|j: int| 0 <= j < tiles.len() implies 0 <= lane(shift, #[trigger] tiles[j]) < size
        && 0 <= depth(shift, size, tiles[j]) < size by {
        lemma_cell_round_trip(shift, size, tiles[j].position@);
    }
}

/// The values of the first run from its tile number `k` on are the values
/// that the grid holds in the run's lane from depth `from` on, where the
/// tiles before number `k` are those that lie nearer to the wall than
/// `from`.
pub proof fn lemma_run_is_line_from(
    shift: BoardShift,
    size: int,
    tiles: Seq<Tile>,
    k: int,
    from: int,
)
    requires
        ordered(shift, tiles),
        within_board(tiles, size),
        tiles.len() > 0,
        0 <= k <= run_len(shift, tiles),
        0 <= from <= size,
        forall|j: int|
            0 <= j < run_len(shift, tiles) ==> (j < k <==> depth(shift, size, #[trigger] tiles[j])
                < from),
    ensures
        lane_values(grid_of(tiles), shift, size, lane(shift, tiles[0]), from) == run_values(
            shift,
            tiles,
        ).skip(k),
    decreases size - from,
{
    let n = run_len(shift, tiles);
    let here = lane(shift, tiles[0]);
    let grid = grid_of(tiles);
    let values = run_values(shift, tiles);
    lemma_run_len(shift, tiles);
    lemma_run_is_lane(shift, size, tiles);
    lemma_ordered_distinct(shift, tiles);
    if from >= size {
        if k < n {
            assert(depth(shift, size, tiles[k]) < from);
        }
        assert(values.skip(k) =~= Seq::<int>::empty());
    } else {
        let cell = shift.cell_at(size, here, from);
        if k < n && depth(shift, size, tiles[k]) == from {
            lemma_cell_round_trip(shift, size, tiles[k].position@);
            assert(tiles[k].position@ == cell);
            lemma_grid_value(tiles, k);
            assert forall|j: int| 0 <= j < n implies (j < k + 1 <==> depth(
                shift,
                size,
                #[trigger] tiles[j],
            ) < from + 1) by {
                if j < k {
                    assert(depth(shift, size, tiles[j]) < from);
                } else if j > k {
                    assert(depth(shift, size, tiles[k]) < depth(shift, size, tiles[j]));
                }
            }
            lemma_run_is_line_from(shift, size, tiles, k + 1, from + 1);
            assert(seq![values[k]] + values.skip(k + 1) =~= values.skip(k));
        } else {
            if grid.contains_key(cell) {
                lemma_grid_domain(tiles, cell);
                let i = choose|i: int| 0 <= i < tiles.len() && (#[trigger] tiles[i]).position@ == cell;
                lemma_lane_depth_of_cell(shift, size, here, from);
                assert(lane(shift, tiles[i]) == here);
                assert(i < n);
                assert(depth(shift, size, tiles[i]) == from);
                assert(!(i < k));
                assert(k < n);
                if k < i {
                    assert(depth(shift, size, tiles[k]) < depth(shift, size, tiles[i]));
                }
                assert(!(depth(shift, size, tiles[k]) < from));
                assert(false);
            }
            assert forall|j: int| 0 <= j < n implies (j < k <==> depth(
                shift,
                size,
                #[trigger] tiles[j],
            ) < from + 1) by {
                if j < k {
                    assert(depth(shift, size, tiles[j]) < from);
                } else {
                    assert(!(depth(shift, size, tiles[j]) < from));
                    if j > k {
                        assert(depth(shift, size, tiles[k]) < depth(shift, size, tiles[j]));
                    }
                    assert(!(depth(shift, size, tiles[k]) < from));
                }
            }
            lemma_run_is_line_from(shift, size, tiles, k, from + 1);
        }
    }
}

/// The first run of tiles in the order of a shift is one lane of the grid;
/// the tiles behind it leave that lane empty and hold every other lane as
/// the whole sequence does.
pub proof fn lemma_first_run(shift: BoardShift, size: int, tiles: Seq<Tile>)
    requires
        ordered(shift, tiles),
        within_board(tiles, size),
        tiles.len() > 0,
    ensures
        ({
            let here = lane(shift, tiles[0]);
            let rest = tiles.skip(run_len(shift, tiles));
            &&& 0 <= here < size
            &&& 1 <= run_len(shift, tiles) <= tiles.len()
            &&& run_values(shift, tiles) == line_of(grid_of(tiles), shift, size, here)
            &&& lane_is_empty(grid_of(rest), shift, size, here, 0)
            &&& forall|other: int|
                other != here ==> agree_on_lane(grid_of(tiles), grid_of(rest), shift, size, other, 0)
            &&& ordered(shift, rest)
            &&& within_board(rest, size)
        }),
{
    let n = run_len(shift, tiles);
    let here = lane(shift, tiles[0]);
    let rest = tiles.skip(n);
    lemma_run_len(shift, tiles);
    lemma_run_is_lane(shift, size, tiles);
    lemma_ordered_skip(shift, size, tiles, n);
    lemma_ordered_distinct(shift, tiles);
    lemma_ordered_distinct(shift, rest);
    assert(0 <= lane(shift, tiles[0]) < size);
    // The run is the lane.
    lemma_run_is_line_from(shift, size, tiles, 0, 0);
    assert(run_values(shift, tiles).skip(0) =~= run_values(shift, tiles));
    // The rest leaves the lane empty.
    assert forall|at: int| 0 <= at < size implies !grid_of(rest).contains_key(
        #[trigger] shift.cell_at(size, here, at),
    ) by {
        let cell = shift.cell_at(size, here, at);
        if grid_of(rest).contains_key(cell) {
            lemma_grid_domain(rest, cell);
            let i = choose|i: int| 0 <= i < rest.len() && (#[trigger] rest[i]).position@ == cell;
            assert(rest[i] == tiles[i + n]);
            lemma_lane_depth_of_cell(shift, size, here, at);
            assert(lane(shift, tiles[i + n]) == here);
        }
    }
    // The rest holds the other lanes unchanged.
    assert forall|other: int| other != here implies agree_on_lane(
        grid_of(tiles),
        grid_of(rest),
        shift,
        size,
        other,
        0,
    ) by {
        assert forall|at: int| 0 <= at < size implies ({
            let cell = #[trigger] shift.cell_at(size, other, at);
            grid_of(tiles).contains_key(cell) == grid_of(rest).contains_key(cell) && (grid_of(
                tiles,
            ).contains_key(cell) ==> grid_of(tiles)[cell] == grid_of(rest)[cell])
        }) by {
            let cell = shift.cell_at(size, other, at);
            lemma_lane_depth_of_cell(shift, size, other, at);
            lemma_grid_domain(tiles, cell);
            lemma_grid_domain(rest, cell);
            if grid_of(tiles).contains_key(cell) {
                let i = choose|i: int| 0 <= i < tiles.len() && (#[trigger] tiles[i]).position@ == cell;
                assert(lane(shift, tiles[i]) == other);
                assert(i >= n);
                assert(rest[i - n] == tiles[i]);
                lemma_grid_value(tiles, i);
                lemma_grid_value(rest, i - n);
            }
            if grid_of(rest).contains_key(cell) {
                let i = choose|i: int| 0 <= i < rest.len() && (#[trigger] rest[i]).position@ == cell;
                assert(rest[i] == tiles[i + n]);
            }
        }
    }
}

/// A count over the runs of tiles in the order of a shift is the count over
/// the lanes of their grid.
pub proof fn lemma_run_sum_is_lane_sum(shift: BoardShift, size: int, tiles: Seq<Tile>, tally: Tally)
    requires
        ordered(shift, tiles),
        within_board(tiles, size),
    ensures
        run_sum(shift, tiles, tally) == lane_sum(grid_of(tiles), shift, size, tally, size),
    decreases tiles.len(),
{
    if tiles.len() == 0 {
        lemma_lane_sum_of_empty_grid(shift, size, tally, size);
    } else {
        let rest = tiles.skip(run_len(shift, tiles));
        lemma_first_run(shift, size, tiles);
        lemma_run_sum_is_lane_sum(shift, size, rest, tally);
        lemma_lane_sum_split(
            grid_of(tiles),
            grid_of(rest),
            shift,
            size,
            tally,
            lane(shift, tiles[0]),
            size,
        );
    }
}

/// Tiles set side by side against the wall of a lane lie where they were
/// set and show what they were given.
pub proof fn lemma_place_line(shift: BoardShift, size: u8, here: int, values: Seq<int>)
    requires
        0 <= here < size,
        values.len() <= size,
        forall|j: int| 0 <= j < values.len() ==> 0 <= #[trigger] values[j] <= u32::MAX,
    ensures
        place_line(shift, size, here, 0, values).len() == values.len(),
        forall|j: int|
            0 <= j < values.len() ==> {
                let tile = #[trigger] place_line(shift, size, here, 0, values)[j];
                &&& tile.position@ == shift.cell_at(size as int, here, j)
                &&& tile.points.value == values[j]
                &&& lane(shift, tile) == here
                &&& depth(shift, size as int, tile) == j
                &&& tile.position.x < size
                &&& tile.position.y < size
            },
{
    assert forall|j: int| 0 <= j < values.len() implies ({
        let tile = #[trigger] place_line(shift, size, here, 0, values)[j];
        &&& tile.position@ == shift.cell_at(size as int, here, j)
        &&& tile.points.value == values[j]
        &&& lane(shift, tile) == here
        &&& depth(shift, size as int, tile) == j
        &&& tile.position.x < size
        &&& tile.position.y < size
    }) by {
        lemma_lane_depth_of_cell(shift, size as int, here, j);
    }
}

/// The tiles after a shift lie on the board, each on a cell of its own, and
/// their grid is the shifted grid of the tiles before.
pub proof fn lemma_packed_grid(shift: BoardShift, size: u8, tiles: Seq<Tile>)
    requires
        ordered(shift, tiles),
        within_board(tiles, size as int),
        run_sum(shift, tiles, Tally::Gain) <= u32::MAX,
    ensures
        within_board(packed(shift, size, tiles, 0), size as int),
        distinct_positions(packed(shift, size, tiles, 0)),
        grid_of(packed(shift, size, tiles, 0)) == shifted(grid_of(tiles), shift, size as int),
    decreases tiles.len(),
{
    let out = packed(shift, size, tiles, 0);
    let grid = grid_of(tiles);
    let wide = size as int;
    if tiles.len() == 0 {
        assert forall|cell: (int, int)| !shifted(grid, shift, wide).contains_key(cell) by {
            lemma_lane_values_empty(grid, shift, wide, shift.lane_of(cell), 0);
        }
        assert(grid_of(out) =~= shifted(grid, shift, wide));
    } else {
        let n = run_len(shift, tiles);
        let here = lane(shift, tiles[0]);
        let rest = tiles.skip(n);
        let rest_grid = grid_of(rest);
        let line = run_values(shift, tiles);
        let front = place_line(shift, size, here, 0, merged(line));
        let back = packed(shift, size, rest, 0);
        lemma_first_run(shift, wide, tiles);
        lemma_run_sum_gain(shift, rest);
        lemma_gain_bounds_of_run(shift, tiles);
        lemma_packed_grid(shift, size, rest);
        assert(out == front + back);
        // The first run, slid and set against the wall.
        lemma_lane_values_len(grid, shift, wide, here, 0);
        lemma_merged_len(line);
        lemma_merged_bounds(line, u32::MAX as int);
        lemma_place_line(shift, size, here, merged(line));
        lemma_lane_values_empty(rest_grid, shift, wide, here, 0);
        // No tile of the rest lies in the lane of the first run.
        assert forall|i: int| 0 <= i < back.len() implies lane(shift, #[trigger] back[i])
            != here by {
            lemma_grid_value(back, i);
            assert(shifted(rest_grid, shift, wide).contains_key(back[i].position@));
        }
        assert forall|i: int| 0 <= i < out.len() implies (#[trigger] out[i]).position.x < wide
            && out[i].position.y < wide by {
            if i < front.len() {
                assert(out[i] == front[i]);
            } else {
                assert(out[i] == back[i - front.len()]);
            }
        }
        assert forall|i: int, j: int| 0 <= i < j < out.len() implies (#[trigger] out[i]).position
            != (#[trigger] out[j]).position by {
            if j < front.len() {
                assert(out[i] == front[i] && out[j] == front[j]);
                assert(depth(shift, wide, front[i]) != depth(shift, wide, front[j]));
            } else if i < front.len() {
                assert(out[i] == front[i] && out[j] == back[j - front.len()]);
                assert(lane(shift, front[i]) != lane(shift, back[j - front.len()]));
            } else {
                assert(out[i] == back[i - front.len()] && out[j] == back[j - front.len()]);
            }
        }
        assert forall|cell: (int, int)|
            #![trigger grid_of(out).contains_key(cell)]
            #![trigger shifted(grid, shift, wide).contains_key(cell)]
            grid_of(out).contains_key(cell) == shifted(grid, shift, wide).contains_key(cell) && (
            grid_of(out).contains_key(cell) ==> grid_of(out)[cell] == shifted(
                grid,
                shift,
                wide,
            )[cell]) by {
            let across = shift.lane_of(cell);
            let at = shift.depth_of(wide, cell);
            lemma_cell_round_trip(shift, wide, cell);
            lemma_grid_domain(out, cell);
            lemma_grid_domain(back, cell);
            if across != here {
                lemma_lane_values_agree(grid, rest_grid, shift, wide, across, 0);
            }
            if shifted(grid, shift, wide).contains_key(cell) {
                if across == here {
                    assert(out[at] == front[at]);
                    assert(out[at].position@ == cell);
                    lemma_grid_value(out, at);
                } else {
                    assert(shifted(rest_grid, shift, wide).contains_key(cell));
                    let i = choose|i: int| 0 <= i < back.len() && (#[trigger] back[i]).position@ == cell;
                    assert(out[front.len() + i] == back[i]);
                    lemma_grid_value(out, front.len() + i);
                    lemma_grid_value(back, i);
                }
            }
            if grid_of(out).contains_key(cell) {
                let i = choose|i: int| 0 <= i < out.len() && (#[trigger] out[i]).position@ == cell;
                if i < front.len() {
                    assert(out[i] == front[i]);
                    lemma_lane_depth_of_cell(shift, wide, here, i);
                } else {
                    assert(out[i] == back[i - front.len()]);
                    assert(back[i - front.len()].position@ == cell);
                    assert(grid_of(back).contains_key(cell));
                    assert(across != here);
                }
            }
        }
        assert(grid_of(out) =~= shifted(grid, shift, wide));
    }
}

/// The first run earns no more than all runs together.
pub proof fn lemma_gain_bounds_of_run(shift: BoardShift, tiles: Seq<Tile>)
    requires
        tiles.len() > 0,
    ensures
        Tally::Gain.of(run_values(shift, tiles)) <= run_sum(shift, tiles, Tally::Gain),
        run_sum(shift, tiles.skip(run_len(shift, tiles)), Tally::Gain) <= run_sum(
            shift,
            tiles,
            Tally::Gain,
        ),
{
    lemma_run_len(shift, tiles);
    lemma_run_sum_gain(shift, tiles.skip(run_len(shift, tiles)));
    lemma_run_sum_gain(shift, tiles);
    lemma_gain_bounds(run_values(shift, tiles));
}

/// Of two positions of one lane, the shift takes the one nearer to the wall
/// first.
pub proof fn lemma_in_lane_precedes(shift: BoardShift, size: int, a: Position, b: Position)
    requires
        shift.lane_of(a@) == shift.lane_of(b@),
        shift.depth_of(size, a@) < shift.depth_of(size, b@),
    ensures
        shift.precedes(a, b),
{
}

/// Where the shift takes one lane before another, it takes every position
/// of the one before every position of the other.
pub proof fn lemma_lane_precedes(
    shift: BoardShift,
    a: Position,
    b: Position,
    c: Position,
    d: Position,
)
    requires
        shift.precedes(a, b),
        shift.lane_of(a@) != shift.lane_of(b@),
        shift.lane_of(c@) == shift.lane_of(a@),
        shift.lane_of(d@) == shift.lane_of(b@),
    ensures
        shift.precedes(c, d),
{
}

/// The tiles after a shift stand in the order of the shift again.
pub proof fn lemma_packed_ordered(shift: BoardShift, size: u8, tiles: Seq<Tile>)
    requires
        ordered(shift, tiles),
        within_board(tiles, size as int),
        run_sum(shift, tiles, Tally::Gain) <= u32::MAX,
    ensures
        ordered(shift, packed(shift, size, tiles, 0)),
    decreases tiles.len(),
{
    let out = packed(shift, size, tiles, 0);
    let wide = size as int;
    if tiles.len() > 0 {
        let n = run_len(shift, tiles);
        let here = lane(shift, tiles[0]);
        let rest = tiles.skip(n);
        let rest_grid = grid_of(rest);
        let line = run_values(shift, tiles);
        let front = place_line(shift, size, here, 0, merged(line));
        let back = packed(shift, size, rest, 0);
        lemma_first_run(shift, wide, tiles);
        lemma_gain_bounds_of_run(shift, tiles);
        lemma_packed_grid(shift, size, rest);
        lemma_packed_ordered(shift, size, rest);
        lemma_lane_values_len(grid_of(tiles), shift, wide, here, 0);
        lemma_merged_len(line);
        lemma_merged_bounds(line, u32::MAX as int);
        lemma_place_line(shift, size, here, merged(line));
        assert(out == front + back);
        assert forall|i: int, j: int| 0 <= i < j < out.len() implies shift.precedes(
            (#[trigger] out[i]).position,
            (#[trigger] out[j]).position,
        ) by {
            if j < front.len() {
                assert(out[i] == front[i] && out[j] == front[j]);
                lemma_in_lane_precedes(shift, wide, front[i].position, front[j].position);
            } else if i < front.len() {
                let behind = back[j - front.len()];
                assert(out[i] == front[i] && out[j] == behind);
                // Some tile of the rest lies in the lane of the tile behind.
                let across = lane(shift, behind);
                lemma_grid_value(back, j - front.len());
                assert(shifted(rest_grid, shift, wide).contains_key(behind.position@));
                lemma_merged_len(line_of(rest_grid, shift, wide, across));
                if lane_is_empty(rest_grid, shift, wide, across, 0) {
                    lemma_lane_values_empty(rest_grid, shift, wide, across, 0);
                }
                let at = choose|at: int|
                    0 <= at < wide && rest_grid.contains_key(
                        #[trigger] shift.cell_at(wide, across, at),
                    );
                let cell = shift.cell_at(wide, across, at);
                lemma_grid_domain(rest, cell);
                let k = choose|k: int| 0 <= k < rest.len() && (#[trigger] rest[k]).position@ == cell;
                lemma_lane_depth_of_cell(shift, wide, across, at);
                assert(rest[k] == tiles[k + n]);
                assert(shift.precedes(tiles[0].position, tiles[k + n].position));
                lemma_run_is_lane(shift, wide, tiles);
                lemma_lane_precedes(
                    shift,
                    tiles[0].position,
                    tiles[k + n].position,
                    front[i].position,
                    behind.position,
                );
            } else {
                assert(out[i] == back[i - front.len()] && out[j] == back[j - front.len()]);
            }
        }
    }
}

} // verus!
