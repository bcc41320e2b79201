//! A shift, stated on the grid: every lane is read from the wall that the
//! tiles slide towards, slid on its own, and written back against the wall.

use crate::direction::BoardShift;
use crate::line::{gain, merge_count, merged};
use vstd::prelude::*;

verus! {

/// The cell lies on a board of the given size.
pub open spec fn on_board(size: int, cell: (int, int)) -> bool {
    0 <= cell.0 < size && 0 <= cell.1 < size
}

/// The values of a lane at depth `from` and beyond, nearest to the wall
/// first. Empty cells are passed over.
pub open spec fn lane_values(
    grid: Map<(int, int), int>,
    shift: BoardShift,
    size: int,
    lane: int,
    from: int,
) -> Seq<int>
    decreases size - from,
{
    if from >= size {
        Seq::empty()
    } else {
        let cell = shift.cell_at(size, lane, from);
        let beyond = lane_values(grid, shift, size, lane, from + 1);
        if grid.contains_key(cell) {
            seq![grid[cell]] + beyond
        } else {
            beyond
        }
    }
}

/// The values of a whole lane, nearest to the wall first.
pub open spec fn line_of(grid: Map<(int, int), int>, shift: BoardShift, size: int, lane: int) -> Seq<
    int,
> {
    lane_values(grid, shift, size, lane, 0)
}

/// The grid after a shift. A cell is occupied exactly when its depth is
/// smaller than the number of tiles that its lane holds after the slide, and
/// it then holds the tile of that number.
pub open spec fn shifted(grid: Map<(int, int), int>, shift: BoardShift, size: int) -> Map<
    (int, int),
    int,
> {
    Map::new(
        |cell: (int, int)|
            on_board(size, cell) && shift.depth_of(size, cell) < merged(
                line_of(grid, shift, size, shift.lane_of(cell)),
            ).len(),
        |cell: (int, int)|
            merged(line_of(grid, shift, size, shift.lane_of(cell)))[shift.depth_of(size, cell)],
    )
}

/// What is counted over the lanes of a board.
pub enum Tally {
    /// The score that the slide of a lane earns.
    Gain,
    /// The number of merges in the slide of a lane.
    Merges,
}

impl Tally {
    /// The count for one lane.
    pub open spec fn of(self, line: Seq<int>) -> int {
        match self {
            Tally::Gain => gain(line),
            Tally::Merges => merge_count(line),
        }
    }
}

/// The count summed over the lanes `0` up to, not including, `lanes`.
pub open spec fn lane_sum(
    grid: Map<(int, int), int>,
    shift: BoardShift,
    size: int,
    tally: Tally,
    lanes: int,
) -> int
    decreases lanes,
{
    if lanes <= 0 {
        0
    } else {
        lane_sum(grid, shift, size, tally, lanes - 1) + tally.of(
            line_of(grid, shift, size, lanes - 1),
        )
    }
}

/// The score that a shift of the whole board earns.
pub open spec fn shift_gain(grid: Map<(int, int), int>, shift: BoardShift, size: int) -> int {
    lane_sum(grid, shift, size, Tally::Gain, size)
}

/// The number of merges in a shift of the whole board.
pub open spec fn shift_merges(grid: Map<(int, int), int>, shift: BoardShift, size: int) -> int {
    lane_sum(grid, shift, size, Tally::Merges, size)
}

/// Two grids agree on a lane from depth `from` on: each cell there is
/// occupied in both or in neither, and by the same value.
pub open spec fn agree_on_lane(
    a: Map<(int, int), int>,
    b: Map<(int, int), int>,
    shift: BoardShift,
    size: int,
    lane: int,
    from: int,
) -> bool {
    forall|depth: int|
        from <= depth < size ==> {
            let cell = #[trigger] shift.cell_at(size, lane, depth);
            a.contains_key(cell) == b.contains_key(cell) && (a.contains_key(cell) ==> a[cell]
                == b[cell])
        }
}

/// A lane holds no tile at depth `from` or beyond.
pub open spec fn lane_is_empty(
    grid: Map<(int, int), int>,
    shift: BoardShift,
    size: int,
    lane: int,
    from: int,
) -> bool {
    forall|depth: int|
        from <= depth < size ==> !grid.contains_key(#[trigger] shift.cell_at(size, lane, depth))
}

/// A cell is found again from its lane and its depth, and the other way
/// round.
pub proof fn lemma_cell_round_trip(shift: BoardShift, size: int, cell: (int, int))
    ensures
        shift.cell_at(size, shift.lane_of(cell), shift.depth_of(size, cell)) == cell,
        on_board(size, cell) ==> 0 <= shift.lane_of(cell) < size && 0 <= shift.depth_of(size, cell)
            < size,
{
}

/// The lane and the depth of the cell that lies in a lane at a depth are
/// that lane and that depth.
pub proof fn lemma_lane_depth_of_cell(shift: BoardShift, size: int, lane: int, depth: int)
    ensures
        shift.lane_of(shift.cell_at(size, lane, depth)) == lane,
        shift.depth_of(size, shift.cell_at(size, lane, depth)) == depth,
        0 <= lane < size && 0 <= depth < size ==> on_board(size, shift.cell_at(size, lane, depth)),
{
}

/// A lane holds at most one value for each of its cells.
pub proof fn lemma_lane_values_len(
    grid: Map<(int, int), int>,
    shift: BoardShift,
    size: int,
    lane: int,
    from: int,
)
    requires
        0 <= from,
    ensures
        lane_values(grid, shift, size, lane, from).len() <= if from <= size {
            size - from
        } else {
            0
        },
    decreases size - from,
{
    if from < size {
        lemma_lane_values_len(grid, shift, size, lane, from + 1);
    }
}

/// Grids that agree on a lane hold the same values there.
pub proof fn lemma_lane_values_agree(
    a: Map<(int, int), int>,
    b: Map<(int, int), int>,
    shift: BoardShift,
    size: int,
    lane: int,
    from: int,
)
    requires
        agree_on_lane(a, b, shift, size, lane, from),
    ensures
        lane_values(a, shift, size, lane, from) == lane_values(b, shift, size, lane, from),
    decreases size - from,
{
    if from < size {
        assert(agree_on_lane(a, b, shift, size, lane, from + 1));
        lemma_lane_values_agree(a, b, shift, size, lane, from + 1);
        let cell = shift.cell_at(size, lane, from);
        assert(a.contains_key(cell) == b.contains_key(cell));
    }
}

/// An empty lane holds no values.
pub proof fn lemma_lane_values_empty(
    grid: Map<(int, int), int>,
    shift: BoardShift,
    size: int,
    lane: int,
    from: int,
)
    requires
        lane_is_empty(grid, shift, size, lane, from),
    ensures
        lane_values(grid, shift, size, lane, from) == Seq::<int>::empty(),
    decreases size - from,
{
    if from < size {
        assert(lane_is_empty(grid, shift, size, lane, from + 1));
        lemma_lane_values_empty(grid, shift, size, lane, from + 1);
        assert(!grid.contains_key(shift.cell_at(size, lane, from)));
    }
}

/// Nothing is counted on a board without tiles.
pub proof fn lemma_lane_sum_of_empty_grid(shift: BoardShift, size: int, tally: Tally, lanes: int)
    ensures
        lane_sum(Map::empty(), shift, size, tally, lanes) == 0,
    decreases lanes,
{
    if lanes > 0 {
        lemma_lane_sum_of_empty_grid(shift, size, tally, lanes - 1);
        lemma_lane_values_empty(Map::empty(), shift, size, lanes - 1, 0);
    }
}

/// Where a grid differs from another only by the tiles of one lane, which
/// the other leaves empty, its count is the other's count and that lane's.
pub proof fn lemma_lane_sum_split(
    whole: Map<(int, int), int>,
    rest: Map<(int, int), int>,
    shift: BoardShift,
    size: int,
    tally: Tally,
    lane: int,
    lanes: int,
)
    requires
        lane_is_empty(rest, shift, size, lane, 0),
        forall|other: int| other != lane ==> agree_on_lane(whole, rest, shift, size, other, 0),
    ensures
        lane_sum(whole, shift, size, tally, lanes) == lane_sum(rest, shift, size, tally, lanes) + if 0
            <= lane < lanes {
            tally.of(line_of(whole, shift, size, lane))
        } else {
            0
        },
    decreases lanes,
{
    if lanes > 0 {
        lemma_lane_sum_split(whole, rest, shift, size, tally, lane, lanes - 1);
        if lanes - 1 == lane {
            lemma_lane_values_empty(rest, shift, size, lane, 0);
        } else {
            lemma_lane_values_agree(whole, rest, shift, size, lanes - 1, 0);
        }
    }
}

} // verus!
