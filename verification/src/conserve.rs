//! What a shift keeps: the sum of the values on the board, and the number of
//! tiles but for one tile lost in each merge.

use crate::direction::BoardShift;
use crate::grid::{lemma_total_add, lemma_total_is_sum, total, values_of, Tile};
use crate::lanes::Tally;
use crate::line::{lemma_gain_bounds, lemma_merged_bounds, lemma_merged_len, lemma_merged_sum, merged};
use crate::pack::{
    lane, lemma_run_len, lemma_run_sum_gain, packed, place_line, run_len, run_sum, run_values,
};
use vstd::prelude::*;

verus! {

/// The walk over the tiles loses one tile in each merge, and no other.
pub proof fn lemma_packed_len(shift: BoardShift, size: u8, tiles: Seq<Tile>)
    ensures
        packed(shift, size, tiles, 0).len() + run_sum(shift, tiles, Tally::Merges) == tiles.len(),
    decreases tiles.len(),
{
    if tiles.len() > 0 {
        lemma_run_len(shift, tiles);
        lemma_packed_len(shift, size, tiles.skip(run_len(shift, tiles)));
        lemma_merged_len(run_values(shift, tiles));
    }
}

/// The walk over the tiles keeps the sum of their values, where no merge
/// goes beyond what a tile can show.
pub proof fn lemma_packed_total(shift: BoardShift, size: u8, tiles: Seq<Tile>)
    requires
        run_sum(shift, tiles, Tally::Gain) <= u32::MAX,
    ensures
        total(packed(shift, size, tiles, 0)) == total(tiles),
    decreases tiles.len(),
{
    if tiles.len() > 0 {
        let n = run_len(shift, tiles);
        let rest = tiles.skip(n);
        let run = tiles.take(n);
        let line = run_values(shift, tiles);
        let front = place_line(shift, size, lane(shift, tiles[0]), 0, merged(line));
        let back = packed(shift, size, rest, 0);
        lemma_run_len(shift, tiles);
        lemma_run_sum_gain(shift, rest);
        lemma_gain_bounds(line);
        lemma_packed_total(shift, size, rest);
        lemma_merged_bounds(line, u32::MAX as int);
        lemma_merged_sum(line);
        assert(values_of(front) =~= merged(line));
        assert(values_of(run) =~= line);
        lemma_total_is_sum(front);
        lemma_total_is_sum(run);
        lemma_total_add(front, back);
        lemma_total_add(run, rest);
        assert(run + rest =~= tiles);
    }
}

} // verus!
