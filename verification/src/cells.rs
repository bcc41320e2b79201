//! The cells of a board, one by one: all of them, the value on one of them,
//! and those that hold no tile.

use crate::grid::{grid_of, Board, Position};
use itertools::Itertools;
use vstd::arithmetic::div_mod::{
    lemma_div_pos_is_pos, lemma_fundamental_div_mod, lemma_fundamental_div_mod_converse,
    lemma_mod_bound, lemma_multiply_divide_lt,
};
use vstd::prelude::*;

verus! {

/// All cells of a board of the given size as pairs `(x, y)`: column by
/// column from the left, and each column from the bottom upwards.
pub open spec fn all_cells(size: u8) -> Seq<(u8, u8)> {
    Seq::new((size * size) as nat, |i: int| ((i / size as int) as u8, (i % size as int) as u8))
}

/// All cells of a board of the given size as positions, in the order of
/// `all_cells`.
pub open spec fn all_positions(size: u8) -> Seq<Position> {
    Seq::new(
        all_cells(size).len(),
        |i: int| Position { x: all_cells(size)[i].0, y: all_cells(size)[i].1 },
    )
}

/// The test that a position holds no tile of the grid.
pub open spec fn free_in(grid: Map<(int, int), int>) -> spec_fn(Position) -> bool {
    |pos: Position| !grid.contains_key(pos@)
}

/// Every cell of `all_cells` lies on the board, at the index that its
/// coordinates give.
pub proof fn lemma_all_cells(size: u8)
    ensures
        all_cells(size).len() == size * size,
        forall|i: int|
            0 <= i < size * size ==> {
                let cell = #[trigger] all_cells(size)[i];
                cell.0 < size && cell.1 < size && cell.0 * size + cell.1 == i
            },
        all_cells(size).no_duplicates(),
{
    let n = size as int;
    assert forall|i: int| 0 <= i < size * size implies ({
        let cell = #[trigger] all_cells(size)[i];
        cell.0 < size && cell.1 < size && cell.0 * size + cell.1 == i
    }) by {
        assert(n > 0) by (nonlinear_arith)
            requires
                0 <= i < n * n,
                0 <= n,
        ;
        lemma_mod_bound(i, n);
        lemma_multiply_divide_lt(i, n, n);
        lemma_div_pos_is_pos(i, n);
        lemma_fundamental_div_mod(i, n);
        assert(n * (i / n) == (i / n) * n) by (nonlinear_arith);
    }
    assert forall|i: int, j: int|
        0 <= i < all_cells(size).len() && 0 <= j < all_cells(size).len() && i != j implies all_cells(
        size,
    )[i] != all_cells(size)[j] by {
        let a = all_cells(size)[i];
        let b = all_cells(size)[j];
        assert(a.0 * size + a.1 == i);
        assert(b.0 * size + b.1 == j);
    }
}

/// The cell `(x, y)` of a board stands in `all_cells` at index `x * size + y`.
pub proof fn lemma_cell_index(size: u8, x: u8, y: u8)
    requires
        x < size,
        y < size,
    ensures
        0 <= x * size + y < size * size,
        all_cells(size)[x * size + y] == (x, y),
{
    let n = size as int;
    let i = x * size + y;
    assert(0 <= x * n + y < n * n) by (nonlinear_arith)
        requires
            0 <= x < n,
            0 <= y < n,
    ;
    lemma_fundamental_div_mod_converse(i, n, x as int, y as int);
}

/// All cells of a board of the given size, by `Itertools::cartesian_product`
/// of the range of columns with the range of rows.
///
/// Trusted: the product runs through the first range once and, for each of
/// its items, through the second range from its start, so the pair `(x, y)`
/// comes at index `x * size + y`.
#[verifier::external_body]
pub(crate) fn cell_pairs(size: u8) -> (cells: Vec<(u8, u8)>)
    ensures
        cells@ == all_cells(size),
{
    (0..size).cartesian_product(0..size).collect()
}

impl Board {
    /// The cells of the board that hold no tile, in the order of
    /// `all_cells`.
    pub open spec fn free_cells(&self) -> Seq<Position> {
        all_positions(self.size).filter(free_in(self@))
    }

    /// The position lies on the board and holds no tile.
    pub open spec fn is_free(&self, pos: Position) -> bool {
        pos.x < self.size && pos.y < self.size && !self@.contains_key(pos@)
    }

    /// The free cells are the positions that are free.
    pub proof fn lemma_free_cells(&self, pos: Position)
        ensures
            self.free_cells().contains(pos) <==> self.is_free(pos),
    {
        let all = all_positions(self.size);
        lemma_all_cells(self.size);
        if self.free_cells().contains(pos) {
            all.lemma_filter_contains_rev(free_in(self@), pos);
            let i = choose|i: int| 0 <= i < all.len() && all[i] == pos;
            assert(all_cells(self.size)[i].0 < self.size);
        }
        if self.is_free(pos) {
            lemma_cell_index(self.size, pos.x, pos.y);
            let i = pos.x * self.size + pos.y;
            assert(all[i] == pos);
            all.lemma_filter_contains(free_in(self@), i);
        }
    }

    /// The value on a cell, if a tile lies there.
    pub fn value_at(&self, pos: &Position) -> (value: Option<u32>)
        ensures
            match value {
                Some(v) => self@.contains_key(pos@) && self@[pos@] == v,
                None => !self@.contains_key(pos@),
            },
    {
        let mut found: Option<u32> = None;
        let mut i: usize = 0;
        while i < self.tiles.len()
            invariant
                i <= self.tiles.len(),
                match found {
                    Some(v) => grid_of(self.tiles@.take(i as int)).contains_key(pos@) && grid_of(
                        self.tiles@.take(i as int),
                    )[pos@] == v,
                    None => !grid_of(self.tiles@.take(i as int)).contains_key(pos@),
                },
            decreases self.tiles.len() - i,
        {
            proof {
                assert(self.tiles@.take(i + 1).drop_last() =~= self.tiles@.take(i as int));
            }
            let tile = &self.tiles[i];
            if tile.position.x == pos.x && tile.position.y == pos.y {
                found = Some(tile.points.value);
            }
            i = i + 1;
        }
        proof {
            assert(self.tiles@.take(i as int) =~= self.tiles@);
        }
        found
    }

    /// Whether a tile lies on the cell.
    pub fn is_occupied(&self, pos: &Position) -> (occupied: bool)
        ensures
            occupied == self@.contains_key(pos@),
    {
        self.value_at(pos).is_some()
    }

    /// The cells of the board that hold no tile.
    pub fn empty_cells(&self) -> (free: Vec<Position>)
        ensures
            free@ == self.free_cells(),
    {
        let cells = cell_pairs(self.size);
        let mut free: Vec<Position> = Vec::new();
        let mut i: usize = 0;
        while i < cells.len()
            invariant
                i <= cells.len(),
                cells@ == all_cells(self.size),
                free@ == all_positions(self.size).take(i as int).filter(free_in(self@)),
            decreases cells.len() - i,
        {
            let pos = Position { x: cells[i].0, y: cells[i].1 };
            proof {
                let all = all_positions(self.size);
                assert(all.take(i + 1) =~= all.take(i as int).push(pos));
                all.take(i as int).lemma_filter_push(pos, free_in(self@));
            }
            if !self.is_occupied(&pos) {
                free.push(pos);
            }
            i = i + 1;
        }
        proof {
            let all = all_positions(self.size);
            assert(all.take(i as int) =~= all);
        }
        free
    }
}

} // verus!
