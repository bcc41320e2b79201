//! Laws of the shift, stated on the grid.

use crate::bridge::{lemma_ordered_distinct, lemma_run_sum_is_lane_sum};
use crate::cells::{all_cells, all_positions, lemma_all_cells, lemma_cell_index};
use crate::direction::BoardShift;
use crate::game::adjacent;
use crate::grid::{
    distinct_positions, grid_of, lemma_grid_domain, lemma_grid_value, lemma_same_tiles,
    lemma_total_add,
    lemma_total_is_sum, lemma_total_of_same_tiles, total, values_of, within_board, Board,
    Position, Tile,
};
use crate::lanes::{
    lane_is_empty, lane_sum, lane_values, lemma_cell_round_trip, lemma_lane_depth_of_cell,
    lemma_lane_values_empty, lemma_lane_values_len, line_of, on_board, shift_gain, shift_merges,
    shifted, Tally,
};
use crate::line::{lemma_gain_bounds, lemma_merged_settled, no_equal_neighbours};
use crate::pack::{lemma_run_len, ordered, run_len, run_sum, run_values};
use vstd::prelude::*;
use vstd::relations::total_ordering;
use vstd::seq_lib::seq_to_set_is_finite;
use vstd::set_lib::{lemma_len_subset, lemma_subset_equality};

verus! {

/// Every occupied cell of the grid lies on a board of the given size.
pub open spec fn grid_on_board(grid: Map<(int, int), int>, size: int) -> bool {
    forall|cell: (int, int)| #[trigger] grid.contains_key(cell) ==> on_board(size, cell)
}

/// No tile of the grid can move or merge in a shift: every tile that does
/// not lie at the wall has a tile between itself and the wall, right beside
/// it, and that tile shows another value.
pub open spec fn settled(grid: Map<(int, int), int>, shift: BoardShift, size: int) -> bool {
    forall|cell: (int, int)|
        #[trigger] grid.contains_key(cell) && shift.depth_of(size, cell) > 0 ==> {
            let before = shift.cell_at(size, shift.lane_of(cell), shift.depth_of(size, cell) - 1);
            grid.contains_key(before) && grid[before] != grid[cell]
        }
}

impl Board {
    /// The grid of a well-formed board lies on the board.
    pub proof fn lemma_view_on_board(&self)
        requires
            self.wf(),
        ensures
            grid_on_board(self@, self.size as int),
    {
        assert forall|cell: (int, int)| #[trigger] self@.contains_key(cell) implies on_board(
            self.size as int,
            cell,
        ) by {
            lemma_grid_domain(self.tiles@, cell);
            let i = choose|i: int|
                0 <= i < self.tiles@.len() && (#[trigger] self.tiles@[i]).position@ == cell;
            assert(self.tiles@[i].position.x < self.size);
        }
    }
}

/// On a settled grid, a lane that is empty at one depth is empty at every
/// greater depth.
proof fn lemma_settled_gap(
    grid: Map<(int, int), int>,
    shift: BoardShift,
    size: int,
    lane: int,
    gap: int,
    depth: int,
)
    requires
        settled(grid, shift, size),
        0 <= gap <= depth,
        !grid.contains_key(shift.cell_at(size, lane, gap)),
    ensures
        !grid.contains_key(shift.cell_at(size, lane, depth)),
    decreases depth - gap,
{
    if gap < depth {
        lemma_settled_gap(grid, shift, size, lane, gap, depth - 1);
        lemma_lane_depth_of_cell(shift, size, lane, depth);
    }
}

/// On a settled grid, the values of a lane from a depth on are the values
/// of its cells from that depth on, one for each cell up to the first empty
/// one.
proof fn lemma_settled_lane(
    grid: Map<(int, int), int>,
    shift: BoardShift,
    size: int,
    lane: int,
    from: int,
)
    requires
        settled(grid, shift, size),
        0 <= from,
    ensures
        forall|depth: int|
            from <= depth < size ==> {
                let cell = #[trigger] shift.cell_at(size, lane, depth);
                let values = lane_values(grid, shift, size, lane, from);
                &&& grid.contains_key(cell) <==> depth - from < values.len()
                &&& grid.contains_key(cell) ==> values[depth - from] == grid[cell]
            },
    decreases size - from,
{
    if from < size {
        let values = lane_values(grid, shift, size, lane, from);
        let first = shift.cell_at(size, lane, from);
        if grid.contains_key(first) {
            lemma_settled_lane(grid, shift, size, lane, from + 1);
            let beyond = lane_values(grid, shift, size, lane, from + 1);
            assert forall|depth: int| from <= depth < size implies ({
                let cell = #[trigger] shift.cell_at(size, lane, depth);
                &&& grid.contains_key(cell) <==> depth - from < values.len()
                &&& grid.contains_key(cell) ==> values[depth - from] == grid[cell]
            }) by {
                if depth > from {
                    let cell = shift.cell_at(size, lane, depth);
                    assert(grid.contains_key(cell) <==> depth - (from + 1) < beyond.len());
                    if grid.contains_key(cell) {
                        assert(values[depth - from] == beyond[depth - (from + 1)]);
                    }
                }
            }
        } else {
            assert forall|depth: int| from <= depth < size implies !grid.contains_key(
                #[trigger] shift.cell_at(size, lane, depth),
            ) by {
                lemma_settled_gap(grid, shift, size, lane, from, depth);
            }
            assert(lane_is_empty(grid, shift, size, lane, from));
            lemma_lane_values_empty(grid, shift, size, lane, from);
        }
    }
}

/// On a settled grid, no lane holds two equal neighbours.
proof fn lemma_settled_line(grid: Map<(int, int), int>, shift: BoardShift, size: int, lane: int)
    requires
        settled(grid, shift, size),
    ensures
        no_equal_neighbours(line_of(grid, shift, size, lane)),
        forall|depth: int|
            0 <= depth < size ==> {
                let cell = #[trigger] shift.cell_at(size, lane, depth);
                let line = line_of(grid, shift, size, lane);
                &&& grid.contains_key(cell) <==> depth < line.len()
                &&& grid.contains_key(cell) ==> line[depth] == grid[cell]
            },
{
    let line = line_of(grid, shift, size, lane);
    lemma_settled_lane(grid, shift, size, lane, 0);
    lemma_lane_values_len(grid, shift, size, lane, 0);
    assert forall|i: int| 0 <= i && i + 1 < line.len() implies #[trigger] line[i] != line[i + 1] by {
        let near = shift.cell_at(size, lane, i);
        let far = shift.cell_at(size, lane, i + 1);
        lemma_lane_depth_of_cell(shift, size, lane, i + 1);
        assert(grid.contains_key(near) && grid.contains_key(far));
    }
}

/// On a settled grid, nothing is counted over the lanes.
proof fn lemma_settled_sum(
    grid: Map<(int, int), int>,
    shift: BoardShift,
    size: int,
    tally: Tally,
    lanes: int,
)
    requires
        settled(grid, shift, size),
    ensures
        lane_sum(grid, shift, size, tally, lanes) == 0,
    decreases lanes,
{
    if lanes > 0 {
        lemma_settled_sum(grid, shift, size, tally, lanes - 1);
        lemma_settled_line(grid, shift, size, lanes - 1);
        lemma_merged_settled(line_of(grid, shift, size, lanes - 1));
    }
}

/// A shift in a direction in which no tile can move or merge leaves every
/// tile where it is, and earns nothing.
pub proof fn lemma_settled_shift(grid: Map<(int, int), int>, shift: BoardShift, size: int)
    requires
        grid_on_board(grid, size),
        settled(grid, shift, size),
    ensures
        shifted(grid, shift, size) == grid,
        shift_gain(grid, shift, size) == 0,
        shift_merges(grid, shift, size) == 0,
{
    lemma_settled_sum(grid, shift, size, Tally::Gain, size);
    lemma_settled_sum(grid, shift, size, Tally::Merges, size);
    assert forall|cell: (int, int)|
        #![trigger grid.contains_key(cell)]
        #![trigger shifted(grid, shift, size).contains_key(cell)]
        grid.contains_key(cell) == shifted(grid, shift, size).contains_key(cell) && (
        grid.contains_key(cell) ==> grid[cell] == shifted(grid, shift, size)[cell]) by {
        let lane = shift.lane_of(cell);
        lemma_cell_round_trip(shift, size, cell);
        if on_board(size, cell) {
            lemma_settled_line(grid, shift, size, lane);
            lemma_merged_settled(line_of(grid, shift, size, lane));
            assert(shift.cell_at(size, lane, shift.depth_of(size, cell)) == cell);
        }
    }
    assert(shifted(grid, shift, size) =~= grid);
}

/// The order in which a shift takes tiles: by their positions, and tiles on
/// one cell by their values.
pub open spec fn takes_first(shift: BoardShift) -> spec_fn(Tile, Tile) -> bool {
    |a: Tile, b: Tile|
        shift.precedes(a.position, b.position) || (a.position == b.position && a.points.value
            <= b.points.value)
}

/// The tiles of a board can be put in the order of any shift.
pub proof fn lemma_tiles_in_order(shift: BoardShift, tiles: Seq<Tile>, size: int) -> (sorted: Seq<
    Tile,
>)
    requires
        within_board(tiles, size),
        distinct_positions(tiles),
    ensures
        sorted.to_multiset() == tiles.to_multiset(),
        ordered(shift, sorted),
        within_board(sorted, size),
        grid_of(sorted) == grid_of(tiles),
        total(sorted) == total(tiles),
{
    let first = takes_first(shift);
    assert(total_ordering(first)) by {
        assert forall|a: Tile, b: Tile| #[trigger] first(a, b) && first(b, a) implies a == b by {
            shift.lemma_precedes_total(a.position, b.position);
        }
        assert forall|a: Tile, b: Tile| #[trigger] first(a, b) || #[trigger] first(b, a) by {
            shift.lemma_precedes_total(a.position, b.position);
        }
        assert forall|a: Tile, b: Tile, c: Tile| #[trigger]
            first(a, b) && #[trigger] first(b, c) implies first(a, c) by {}
    }
    let sorted = tiles.sort_by(first);
    tiles.lemma_sort_by_ensures(first);
    lemma_same_tiles(tiles, sorted, size);
    lemma_total_of_same_tiles(tiles, sorted);
    assert forall|i: int, j: int| 0 <= i < j < sorted.len() implies shift.precedes(
        (#[trigger] sorted[i]).position,
        (#[trigger] sorted[j]).position,
    ) by {
        assert(first(sorted[i], sorted[j]));
    }
    sorted
}

/// The runs of a sequence of tiles earn no more than the sum of its values.
proof fn lemma_run_gain_within_total(shift: BoardShift, tiles: Seq<Tile>)
    ensures
        0 <= run_sum(shift, tiles, Tally::Gain) <= total(tiles),
    decreases tiles.len(),
{
    if tiles.len() > 0 {
        let n = run_len(shift, tiles);
        lemma_run_len(shift, tiles);
        let run = tiles.take(n);
        let rest = tiles.skip(n);
        lemma_run_gain_within_total(shift, rest);
        lemma_gain_bounds(run_values(shift, tiles));
        assert(values_of(run) =~= run_values(shift, tiles));
        lemma_total_is_sum(run);
        lemma_total_add(run, rest);
        assert(run + rest =~= tiles);
    }
}

impl Board {
    /// A shift earns no more than the sum of the values on the board.
    pub proof fn lemma_gain_within_total(&self, shift: BoardShift)
        requires
            self.wf(),
        ensures
            0 <= shift_gain(self@, shift, self.size as int) <= total(self.tiles@),
    {
        let sorted = lemma_tiles_in_order(shift, self.tiles@, self.size as int);
        lemma_run_sum_is_lane_sum(shift, self.size as int, sorted, Tally::Gain);
        lemma_run_gain_within_total(shift, sorted);
    }
}

/// The positions of the tiles, in their order.
pub open spec fn positions_of(tiles: Seq<Tile>) -> Seq<Position> {
    Seq::new(tiles.len(), |i: int| tiles[i].position)
}

/// The positions of the tiles of a well-formed board, as a set, lie among
/// the cells of the board; both sets are finite, and each is as large as
/// its sequence is long.
proof fn lemma_positions_among_cells(board: &Board)
    requires
        board.wf(),
    ensures
        positions_of(board.tiles@).to_set().subset_of(all_positions(board.size).to_set()),
        positions_of(board.tiles@).to_set().finite(),
        all_positions(board.size).to_set().finite(),
        positions_of(board.tiles@).to_set().len() == board.tiles@.len(),
        all_positions(board.size).to_set().len() == board.size * board.size,
{
    let held = positions_of(board.tiles@);
    let all = all_positions(board.size);
    lemma_all_cells(board.size);
    assert(held.no_duplicates()) by {
        assert forall|i: int, j: int| 0 <= i < held.len() && 0 <= j < held.len() && i != j implies held[i]
            != held[j] by {
            if i < j {
                assert(board.tiles@[i].position != board.tiles@[j].position);
            } else {
                assert(board.tiles@[j].position != board.tiles@[i].position);
            }
        }
    }
    assert(all.no_duplicates()) by {
        assert forall|i: int, j: int| 0 <= i < all.len() && 0 <= j < all.len() && i != j implies all[i]
            != all[j] by {
            assert(all_cells(board.size)[i] != all_cells(board.size)[j]);
        }
    }
    held.unique_seq_to_set();
    all.unique_seq_to_set();
    seq_to_set_is_finite(held);
    seq_to_set_is_finite(all);
    assert forall|pos: Position| held.to_set().contains(pos) implies all.to_set().contains(pos) by {
        let i = choose|i: int| 0 <= i < held.len() && held[i] == pos;
        assert(board.tiles@[i].position.x < board.size);
        lemma_cell_index(board.size, pos.x, pos.y);
        assert(all[pos.x * board.size + pos.y] == pos);
    }
}

impl Board {
    /// A well-formed board holds no more tiles than it has cells.
    pub proof fn lemma_tiles_fit(&self)
        requires
            self.wf(),
        ensures
            self.tiles@.len() <= self.size * self.size,
    {
        lemma_positions_among_cells(self);
        lemma_len_subset(
            positions_of(self.tiles@).to_set(),
            all_positions(self.size).to_set(),
        );
    }

    /// On a well-formed board that holds as many tiles as it has cells,
    /// every cell holds a tile.
    pub proof fn lemma_full_board(&self, pos: Position)
        requires
            self.wf(),
            self.is_full(),
            pos.x < self.size,
            pos.y < self.size,
        ensures
            self@.contains_key(pos@),
    {
        let held = positions_of(self.tiles@);
        let all = all_positions(self.size);
        lemma_positions_among_cells(self);
        lemma_subset_equality(held.to_set(), all.to_set());
        lemma_all_cells(self.size);
        lemma_cell_index(self.size, pos.x, pos.y);
        assert(all[pos.x * self.size + pos.y] == pos);
        assert(all.to_set().contains(pos));
        assert(held.to_set().contains(pos));
        let i = choose|i: int| 0 <= i < held.len() && held[i] == pos;
        assert(self.tiles@[i].position@ == pos@);
        lemma_grid_domain(self.tiles@, pos@);
    }

    /// A well-formed board that holds as many tiles as it has cells has no
    /// free cell.
    pub proof fn lemma_full_board_has_no_free_cell(&self)
        requires
            self.wf(),
            self.is_full(),
        ensures
            forall|pos: Position| !self.is_free(pos),
    {
        assert forall|pos: Position| !self.is_free(pos) by {
            if pos.x < self.size && pos.y < self.size {
                self.lemma_full_board(pos);
            }
        }
    }

    /// No shift changes a board on which the game is over, and none earns
    /// anything there.
    pub proof fn lemma_terminal_stays(&self, shift: BoardShift)
        requires
            self.wf(),
            self.is_terminal(),
        ensures
            shifted(self@, shift, self.size as int) == self@,
            shift_gain(self@, shift, self.size as int) == 0,
            shift_merges(self@, shift, self.size as int) == 0,
    {
        let size = self.size as int;
        let grid = self@;
        self.lemma_view_on_board();
        assert forall|cell: (int, int)|
            #[trigger] grid.contains_key(cell) && shift.depth_of(size, cell) > 0 implies ({
            let before = shift.cell_at(size, shift.lane_of(cell), shift.depth_of(size, cell) - 1);
            grid.contains_key(before) && grid[before] != grid[cell]
        }) by {
            let before = shift.cell_at(size, shift.lane_of(cell), shift.depth_of(size, cell) - 1);
            lemma_cell_round_trip(shift, size, cell);
            lemma_lane_depth_of_cell(
                shift,
                size,
                shift.lane_of(cell),
                shift.depth_of(size, cell) - 1,
            );
            assert(on_board(size, before));
            self.lemma_full_board(Position { x: before.0 as u8, y: before.1 as u8 });
            assert(adjacent(before, cell));
            assert(grid.contains_key(before) && grid.contains_key(cell));
        }
        lemma_settled_shift(grid, shift, size);
    }
}

/// Without its first tile, a sequence of tiles on cells of their own holds
/// every cell of its grid but the cell of that tile, with the same values.
proof fn lemma_grid_of_tail(tiles: Seq<Tile>, cell: (int, int))
    requires
        distinct_positions(tiles),
        tiles.len() > 0,
    ensures
        grid_of(tiles.skip(1)).contains_key(cell) <==> grid_of(tiles).contains_key(cell) && cell
            != tiles[0].position@,
        grid_of(tiles.skip(1)).contains_key(cell) ==> grid_of(tiles.skip(1))[cell] == grid_of(
            tiles,
        )[cell],
        distinct_positions(tiles.skip(1)),
{
    let tail = tiles.skip(1);
    assert forall|i: int, j: int| 0 <= i < j < tail.len() implies (#[trigger] tail[i]).position != (
    #[trigger] tail[j]).position by {
        assert(tail[i] == tiles[i + 1] && tail[j] == tiles[j + 1]);
    }
    lemma_grid_domain(tiles, cell);
    lemma_grid_domain(tail, cell);
    if grid_of(tail).contains_key(cell) {
        let i = choose|i: int| 0 <= i < tail.len() && (#[trigger] tail[i]).position@ == cell;
        assert(tail[i] == tiles[i + 1]);
        assert(tiles[0].position != tiles[i + 1].position);
        lemma_grid_value(tail, i);
        lemma_grid_value(tiles, i + 1);
    }
    if grid_of(tiles).contains_key(cell) && cell != tiles[0].position@ {
        let i = choose|i: int| 0 <= i < tiles.len() && (#[trigger] tiles[i]).position@ == cell;
        assert(tail[i - 1] == tiles[i]);
    }
}

/// The grid and the shift determine the tiles in the order of the shift:
/// two such sequences with one grid are the same sequence.
pub proof fn lemma_ordered_determined(shift: BoardShift, a: Seq<Tile>, b: Seq<Tile>)
    requires
        ordered(shift, a),
        ordered(shift, b),
        grid_of(a) == grid_of(b),
    ensures
        a == b,
    decreases a.len(),
{
    lemma_ordered_distinct(shift, a);
    lemma_ordered_distinct(shift, b);
    if a.len() == 0 {
        if b.len() > 0 {
            lemma_grid_value(b, 0);
        }
        assert(a =~= b);
    } else {
        lemma_grid_value(a, 0);
        lemma_grid_domain(b, a[0].position@);
        let j = choose|j: int| 0 <= j < b.len() && (#[trigger] b[j]).position@ == a[0].position@;
        lemma_grid_value(b, 0);
        lemma_grid_domain(a, b[0].position@);
        let i = choose|i: int| 0 <= i < a.len() && (#[trigger] a[i]).position@ == b[0].position@;
        shift.lemma_precedes_total(a[0].position, b[0].position);
        if j > 0 {
            assert(shift.precedes(b[0].position, b[j].position));
        }
        if i > 0 {
            assert(shift.precedes(a[0].position, a[i].position));
        }
        assert(a[0].position == b[0].position);
        assert(a[0] == b[0]);
        assert forall|cell: (int, int)|
            #![trigger grid_of(a.skip(1)).contains_key(cell)]
            #![trigger grid_of(b.skip(1)).contains_key(cell)]
            grid_of(a.skip(1)).contains_key(cell) == grid_of(b.skip(1)).contains_key(cell) && (
            grid_of(a.skip(1)).contains_key(cell) ==> grid_of(a.skip(1))[cell] == grid_of(
                b.skip(1),
            )[cell]) by {
            lemma_grid_of_tail(a, cell);
            lemma_grid_of_tail(b, cell);
        }
        assert(grid_of(a.skip(1)) =~= grid_of(b.skip(1)));
        assert(ordered(shift, a.skip(1))) by {
            assert forall|k: int, l: int| 0 <= k < l < a.skip(1).len() implies shift.precedes(
                (#[trigger] a.skip(1)[k]).position,
                (#[trigger] a.skip(1)[l]).position,
            ) by {
                assert(a.skip(1)[k] == a[k + 1] && a.skip(1)[l] == a[l + 1]);
            }
        }
        assert(ordered(shift, b.skip(1))) by {
            assert forall|k: int, l: int| 0 <= k < l < b.skip(1).len() implies shift.precedes(
                (#[trigger] b.skip(1)[k]).position,
                (#[trigger] b.skip(1)[l]).position,
            ) by {
                assert(b.skip(1)[k] == b[k + 1] && b.skip(1)[l] == b[l + 1]);
            }
        }
        lemma_ordered_determined(shift, a.skip(1), b.skip(1));
        assert(a =~= seq![a[0]] + a.skip(1));
        assert(b =~= seq![b[0]] + b.skip(1));
    }
}

} // verus!
