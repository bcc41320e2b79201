//! The board, its tiles, and the mathematical grid they stand for.

use crate::line::sum;
use vstd::prelude::*;
use vstd::seq_lib::{commutative_foldl, lemma_fold_left_permutation};

verus! {

/// A cell of the board. `x` counts columns from the left edge and `y` counts
/// rows from the bottom edge.
#[derive(Debug, Clone, Copy, PartialEq, Eq, Hash, Structural)]
pub struct Position {
    pub x: u8,
    pub y: u8,
}

impl View for Position {
    type V = (int, int);

    open spec fn view(&self) -> (int, int) {
        (self.x as int, self.y as int)
    }
}

/// The number shown on a tile.
#[derive(Debug, Clone, Copy, PartialEq, Eq, Structural)]
pub struct Points {
    pub value: u32,
}

/// A live tile: where it lies and what it is worth.
#[derive(Debug, Clone, Copy, PartialEq, Eq, Structural)]
pub struct Tile {
    pub position: Position,
    pub points: Points,
}

/// The value every freshly placed tile starts with.
pub const NEW_TILE_VALUE: u32 = 2;

/// The grid that a sequence of tiles stands for: a map from occupied cells to
/// the value lying there. Where two tiles claim one cell, the later one wins.
pub open spec fn grid_of(tiles: Seq<Tile>) -> Map<(int, int), int>
    decreases tiles.len(),
{
    if tiles.len() == 0 {
        Map::empty()
    } else {
        grid_of(tiles.drop_last()).insert(
            tiles.last().position@,
            tiles.last().points.value as int,
        )
    }
}

/// No two tiles of the sequence share a cell.
pub open spec fn distinct_positions(tiles: Seq<Tile>) -> bool {
    forall|i: int, j: int|
        0 <= i < j < tiles.len() ==> (#[trigger] tiles[i]).position != (#[trigger] tiles[j]).position
}

/// Every tile of the sequence lies on a board of the given size.
pub open spec fn within_board(tiles: Seq<Tile>, size: int) -> bool {
    forall|i: int|
        0 <= i < tiles.len() ==> (#[trigger] tiles[i]).position.x < size && tiles[i].position.y
            < size
}

/// A cell is occupied exactly when some tile lies on it.
pub proof fn lemma_grid_domain(tiles: Seq<Tile>, cell: (int, int))
    ensures
        grid_of(tiles).contains_key(cell) <==> exists|i: int|
            0 <= i < tiles.len() && (#[trigger] tiles[i]).position@ == cell,
    decreases tiles.len(),
{
    if tiles.len() > 0 {
        let front = tiles.drop_last();
        lemma_grid_domain(front, cell);
        if grid_of(tiles).contains_key(cell) {
            if tiles.last().position@ == cell {
                assert(tiles[tiles.len() - 1].position@ == cell);
            } else {
                let i = choose|i: int| 0 <= i < front.len() && (#[trigger] front[i]).position@ == cell;
                assert(tiles[i].position@ == cell);
            }
        }
        if exists|i: int| 0 <= i < tiles.len() && (#[trigger] tiles[i]).position@ == cell {
            let i = choose|i: int| 0 <= i < tiles.len() && (#[trigger] tiles[i]).position@ == cell;
            if i < front.len() {
                assert(front[i].position@ == cell);
            }
        }
    }
}

/// Where no two tiles share a cell, the grid holds each tile's value at the
/// tile's own cell.
pub proof fn lemma_grid_value(tiles: Seq<Tile>, i: int)
    requires
        distinct_positions(tiles),
        0 <= i < tiles.len(),
    ensures
        grid_of(tiles).contains_key(tiles[i].position@),
        grid_of(tiles)[tiles[i].position@] == tiles[i].points.value,
    decreases tiles.len(),
{
    let front = tiles.drop_last();
    if i < tiles.len() - 1 {
        assert(front[i] == tiles[i]);
        assert(tiles[i].position != tiles[tiles.len() - 1].position);
        assert(distinct_positions(front)) by {
            assert forall|a: int, b: int| 0 <= a < b < front.len() implies (
            #[trigger] front[a]).position != (#[trigger] front[b]).position by {
                assert(front[a] == tiles[a] && front[b] == tiles[b]);
            }
        }
        lemma_grid_value(front, i);
    }
}

/// The sum of the values of the tiles.
pub open spec fn total(tiles: Seq<Tile>) -> int
    decreases tiles.len(),
{
    if tiles.len() == 0 {
        0
    } else {
        tiles[0].points.value + total(tiles.skip(1))
    }
}

/// The values of the tiles, in their order.
pub open spec fn values_of(tiles: Seq<Tile>) -> Seq<int> {
    Seq::new(tiles.len(), |j: int| tiles[j].points.value as int)
}

/// Adds the value of a tile to a running sum.
pub open spec fn add_points() -> spec_fn(int, Tile) -> int {
    |acc: int, tile: Tile| acc + tile.points.value
}

/// The sum of the values of the tiles is the sum of the sequence of their
/// values.
pub proof fn lemma_total_is_sum(tiles: Seq<Tile>)
    ensures
        total(tiles) == sum(values_of(tiles)),
    decreases tiles.len(),
{
    if tiles.len() > 0 {
        lemma_total_is_sum(tiles.skip(1));
        assert(values_of(tiles).skip(1) =~= values_of(tiles.skip(1)));
    }
}

/// The sum over two sequences of tiles, one behind the other, is the sum of
/// their sums.
pub proof fn lemma_total_add(a: Seq<Tile>, b: Seq<Tile>)
    ensures
        total(a + b) == total(a) + total(b),
    decreases a.len(),
{
    if a.len() == 0 {
        assert(a + b =~= b);
    } else {
        lemma_total_add(a.skip(1), b);
        assert((a + b).skip(1) =~= a.skip(1) + b);
    }
}

/// The sum of the values, computed as a fold from the left that starts at
/// `acc`.
proof fn lemma_total_is_fold(tiles: Seq<Tile>, acc: int)
    ensures
        tiles.fold_left_alt(acc, add_points()) == acc + total(tiles),
    decreases tiles.len(),
{
    if tiles.len() > 0 {
        assert(tiles.subrange(1, tiles.len() as int) =~= tiles.skip(1));
        lemma_total_is_fold(tiles.skip(1), add_points()(acc, tiles[0]));
    }
}

/// The sum of the values does not depend on the order of the tiles.
pub proof fn lemma_total_of_same_tiles(a: Seq<Tile>, b: Seq<Tile>)
    requires
        a.to_multiset() == b.to_multiset(),
    ensures
        total(a) == total(b),
{
    lemma_total_is_fold(a, 0);
    lemma_total_is_fold(b, 0);
    a.lemma_fold_left_alt(0, add_points());
    b.lemma_fold_left_alt(0, add_points());
    assert(commutative_foldl(add_points()));
    lemma_fold_left_permutation(a, b, add_points(), 0);
}

/// Two sequences that hold the same tiles stand for one board: if the tiles
/// of one lie on the board, each on a cell of its own, so do the tiles of
/// the other, and both have the same grid.
pub proof fn lemma_same_tiles(a: Seq<Tile>, b: Seq<Tile>, size: int)
    requires
        a.to_multiset() == b.to_multiset(),
        within_board(a, size),
        distinct_positions(a),
    ensures
        a.len() == b.len(),
        within_board(b, size),
        distinct_positions(b),
        grid_of(a) == grid_of(b),
{
    a.to_multiset_ensures();
    b.to_multiset_ensures();
    // Every tile of one sequence stands in the other.
    assert forall|j: int| 0 <= j < b.len() implies a.contains(#[trigger] b[j]) by {
        assert(b.contains(b[j]));
        assert(b.to_multiset().count(b[j]) > 0);
    }
    assert forall|i: int| 0 <= i < a.len() implies b.contains(#[trigger] a[i]) by {
        assert(a.contains(a[i]));
        assert(a.to_multiset().count(a[i]) > 0);
    }
    assert forall|j: int| 0 <= j < b.len() implies (#[trigger] b[j]).position.x < size
        && b[j].position.y < size by {
        let i = choose|i: int| 0 <= i < a.len() && a[i] == b[j];
        assert(a[i].position.x < size);
    }
    // No tile stands twice in either.
    assert(a.no_duplicates()) by {
        assert forall|i: int, j: int| 0 <= i < a.len() && 0 <= j < a.len() && i != j implies a[i]
            != a[j] by {
            if i < j {
                assert(a[i].position != a[j].position);
            } else {
                assert(a[j].position != a[i].position);
            }
        }
    }
    a.lemma_multiset_has_no_duplicates();
    b.lemma_multiset_has_no_duplicates_conv();
    assert forall|i: int, j: int| 0 <= i < j < b.len() implies (#[trigger] b[i]).position != (
    #[trigger] b[j]).position by {
        let k = choose|k: int| 0 <= k < a.len() && a[k] == b[i];
        let l = choose|l: int| 0 <= l < a.len() && a[l] == b[j];
        assert(b[i] != b[j]);
        if k < l {
            assert(a[k].position != a[l].position);
        } else if l < k {
            assert(a[l].position != a[k].position);
        }
    }
    assert forall|cell: (int, int)|
        #![trigger grid_of(a).contains_key(cell)]
        #![trigger grid_of(b).contains_key(cell)]
        grid_of(a).contains_key(cell) == grid_of(b).contains_key(cell) && (grid_of(a).contains_key(
            cell,
        ) ==> grid_of(a)[cell] == grid_of(b)[cell]) by {
        lemma_grid_domain(a, cell);
        lemma_grid_domain(b, cell);
        if grid_of(a).contains_key(cell) {
            let i = choose|i: int| 0 <= i < a.len() && (#[trigger] a[i]).position@ == cell;
            let j = choose|j: int| 0 <= j < b.len() && b[j] == a[i];
            assert(b[j].position@ == cell);
            lemma_grid_value(a, i);
            lemma_grid_value(b, j);
        }
        if grid_of(b).contains_key(cell) {
            let j = choose|j: int| 0 <= j < b.len() && (#[trigger] b[j]).position@ == cell;
            let i = choose|i: int| 0 <= i < a.len() && a[i] == b[j];
            assert(a[i].position@ == cell);
        }
    }
    assert(grid_of(a) =~= grid_of(b));
}

/// The board: its side length and the tiles that lie on it, in no particular
/// order.
#[derive(Debug, Clone)]
pub struct Board {
    pub size: u8,
    pub tiles: Vec<Tile>,
}

impl View for Board {
    type V = Map<(int, int), int>;

    open spec fn view(&self) -> Map<(int, int), int> {
        grid_of(self.tiles@)
    }
}

impl Board {
    /// The standing invariant of a board: every tile lies on it, and no two
    /// tiles share a cell.
    pub open spec fn wf(&self) -> bool {
        &&& within_board(self.tiles@, self.size as int)
        &&& distinct_positions(self.tiles@)
    }

    /// An empty board with `size` cells along each side.
    pub fn new(size: u8) -> (board: Board)
        ensures
            board.size == size,
            board.tiles@ == Seq::<Tile>::empty(),
            board.wf(),
    {
        Board { size, tiles: Vec::new() }
    }

    /// Whether the board is well formed: every tile lies on it, and no two
    /// tiles share a cell.
    pub fn is_well_formed(&self) -> (ok: bool)
        ensures
            ok == self.wf(),
    {
        let mut i: usize = 0;
        while i < self.tiles.len()
            invariant
                i <= self.tiles.len(),
                within_board(self.tiles@.take(i as int), self.size as int),
                distinct_positions(self.tiles@.take(i as int)),
            decreases self.tiles.len() - i,
        {
            let tile = &self.tiles[i];
            if tile.position.x >= self.size || tile.position.y >= self.size {
                return false;
            }
            let mut j: usize = 0;
            while j < i
                invariant
                    j <= i < self.tiles.len(),
                    *tile == self.tiles@[i as int],
                    forall|k: int| 0 <= k < j ==> (#[trigger] self.tiles@[k]).position != tile.position,
                decreases i - j,
            {
                if self.tiles[j].position == tile.position {
                    return false;
                }
                j = j + 1;
            }
            proof {
                let seen = self.tiles@.take(i as int);
                let more = self.tiles@.take(i + 1);
                assert forall|k: int| 0 <= k < more.len() implies (#[trigger] more[k]).position.x
                    < self.size && more[k].position.y < self.size by {
                    if k < i {
                        assert(more[k] == seen[k]);
                    }
                }
                assert forall|a: int, b: int| 0 <= a < b < more.len() implies (#[trigger] more[a]).position
                    != (#[trigger] more[b]).position by {
                    if b < i {
                        assert(more[a] == seen[a] && more[b] == seen[b]);
                    } else {
                        assert(more[a] == self.tiles@[a]);
                    }
                }
            }
            i = i + 1;
        }
        proof {
            assert(self.tiles@.take(i as int) =~= self.tiles@);
        }
        true
    }

    /// The sum of the values of all tiles on the board.
    pub fn total_points(&self) -> (sum: u128)
        ensures
            sum == total(self.tiles@),
    {
        let mut sum: u128 = 0;
        let mut i: usize = 0;
        while i < self.tiles.len()
            invariant
                i <= self.tiles.len(),
                sum == total(self.tiles@.take(i as int)),
                sum <= i * u32::MAX,
            decreases self.tiles.len() - i,
        {
            proof {
                let seen = self.tiles@.take(i as int);
                let one = seq![self.tiles@[i as int]];
                lemma_total_add(seen, one);
                assert(seen + one =~= self.tiles@.take(i + 1));
                assert(one.skip(1) =~= Seq::<Tile>::empty());
                assert(total(one) == one[0].points.value + total(one.skip(1)));
                assert((i + 1) * u32::MAX == i * u32::MAX + u32::MAX) by (nonlinear_arith);
                assert(i * u32::MAX <= usize::MAX * u32::MAX) by (nonlinear_arith)
                    requires
                        i <= usize::MAX,
                ;
                assert(usize::MAX * u32::MAX <= u64::MAX * u32::MAX) by (nonlinear_arith)
                    requires
                        usize::MAX <= u64::MAX,
                ;
            }
            sum = sum + self.tiles[i].points.value as u128;
            i = i + 1;
        }
        proof {
            assert(self.tiles@.take(i as int) =~= self.tiles@);
        }
        sum
    }

    /// Puts a fresh tile on the cell `pos`.
    pub fn spawn_tile(&mut self, pos: Position)
        ensures
            final(self).size == old(self).size,
            final(self).tiles@ == old(self).tiles@.push(
                Tile { position: pos, points: Points { value: NEW_TILE_VALUE } },
            ),
            final(self)@ == old(self)@.insert(pos@, NEW_TILE_VALUE as int),
            old(self).wf() && pos.x < old(self).size && pos.y < old(self).size
                && !old(self)@.contains_key(pos@) ==> final(self).wf(),
    {
        let tile = Tile { position: pos, points: Points { value: NEW_TILE_VALUE } };
        proof {
            let after = self.tiles@.push(tile);
            assert(after.drop_last() =~= self.tiles@);
            if self.wf() && pos.x < self.size && pos.y < self.size && !self@.contains_key(pos@) {
                assert forall|i: int, j: int| 0 <= i < j < after.len() implies (
                #[trigger] after[i]).position != (#[trigger] after[j]).position by {
                    if j == after.len() - 1 {
                        lemma_grid_domain(self.tiles@, pos@);
                        assert(self.tiles@[i].position@ != pos@);
                    }
                }
            }
        }
        self.tiles.push(tile);
    }
}

} // verus!
