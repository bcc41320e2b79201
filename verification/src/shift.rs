//! Shifting the board: the tiles are put in the order of the shift, walked
//! once, and set against the wall, merging equal neighbours on the way.

use crate::bridge::{lemma_packed_grid, lemma_packed_ordered, lemma_run_sum_is_lane_sum};
use crate::conserve::{lemma_packed_len, lemma_packed_total};
use crate::direction::{first_shift, BoardShift, Key};
use crate::game::Game;
use crate::grid::{
    grid_of, lemma_same_tiles, lemma_total_of_same_tiles, total, within_board, Board, Tile,
};
use crate::laws::lemma_ordered_determined;
use crate::lanes::{shift_gain, shift_merges, shifted, Tally};
use crate::pack::{lemma_packed_step, lemma_run_sum_gain, ordered, packed, run_sum};
use itertools::Itertools;
use vstd::prelude::*;

verus! {

/// The tiles in the order in which the shift takes them, by
/// `Itertools::sorted_by` with `BoardShift::sort` as the comparison.
///
/// Trusted: the result holds the same tiles as the argument, each as often,
/// and no tile of it stands behind one that the shift takes later. That the
/// sort is stable is not stated.
#[verifier::external_body]
fn sorted_tiles(shift: &BoardShift, tiles: &Vec<Tile>) -> (sorted: Vec<Tile>)
    ensures
        sorted@.to_multiset() == tiles@.to_multiset(),
        forall|i: int, j: int|
            0 <= i < j < sorted@.len() ==> !shift.precedes(
                (#[trigger] sorted@[j]).position,
                (#[trigger] sorted@[i]).position,
            ),
{
    tiles.iter().copied().sorted_by(|a, b| shift.sort(&a.position, &b.position)).collect()
}

impl BoardShift {
    /// Walks the tiles, which stand in the order of the shift, and returns
    /// them as they lie after the shift, together with the score earned.
    pub fn slide(&self, board_size: u8, sorted: &Vec<Tile>) -> (result: (Vec<Tile>, u32))
        requires
            ordered(*self, sorted@),
            within_board(sorted@, board_size as int),
            run_sum(*self, sorted@, Tally::Gain) <= u32::MAX,
        ensures
            result.0@ == packed(*self, board_size, sorted@, 0),
            result.1 == run_sum(*self, sorted@, Tally::Gain),
    {
        let mut out: Vec<Tile> = Vec::new();
        let mut gained: u32 = 0;
        let mut column: u8 = 0;
        let mut i: usize = 0;
        proof {
            assert(sorted@.skip(0) =~= sorted@);
        }
        while i < sorted.len()
            invariant
                i <= sorted.len(),
                ordered(*self, sorted@),
                within_board(sorted@, board_size as int),
                run_sum(*self, sorted@, Tally::Gain) <= u32::MAX,
                packed(*self, board_size, sorted@, 0) == out@ + packed(
                    *self,
                    board_size,
                    sorted@.skip(i as int),
                    column as int,
                ),
                run_sum(*self, sorted@, Tally::Gain) == gained + run_sum(
                    *self,
                    sorted@.skip(i as int),
                    Tally::Gain,
                ),
                i < sorted.len() ==> column <= self.depth_of(
                    board_size as int,
                    sorted@[i as int].position@,
                ),
            decreases sorted.len() - i,
        {
            let ghost start = i as int;
            let ghost ahead = sorted@.skip(start);
            let ghost before = out@;
            let ghost depth = column as int;
            proof {
                lemma_packed_step(*self, board_size, ahead, depth);
                assert(ahead[0] == sorted@[start]);
                if start + 1 < sorted.len() {
                    assert(ahead[1] == sorted@[start + 1]);
                    assert(self.precedes(sorted@[start].position, sorted@[start + 1].position));
                }
                if start + 2 < sorted.len() {
                    assert(self.precedes(sorted@[start + 1].position, sorted@[start + 2].position));
                }
                assert(ahead.skip(1) =~= sorted@.skip(start + 1));
                lemma_run_sum_gain(*self, sorted@.skip(start + 1));
                if start + 2 <= sorted.len() {
                    assert(ahead.skip(2) =~= sorted@.skip(start + 2));
                    lemma_run_sum_gain(*self, sorted@.skip(start + 2));
                }
            }
            let mut tile = sorted[i];
            self.set_col(board_size, &mut tile.position, column);
            i = i + 1;
            if i < sorted.len() {
                let tile_next = sorted[i];
                if self.get_row(&tile.position) != self.get_row(&tile_next.position) {
                    column = 0;
                } else if tile.points.value != tile_next.points.value {
                    column = column + 1;
                } else {
                    i = i + 1;
                    tile.points.value = tile.points.value + tile_next.points.value;
                    gained = gained + tile.points.value;
                    if i < sorted.len() {
                        let future = sorted[i];
                        if self.get_row(&tile.position) != self.get_row(&future.position) {
                            column = 0;
                        } else {
                            column = column + 1;
                        }
                    }
                }
            }
            out.push(tile);
            proof {
                let after = sorted@.skip(i as int);
                assert(out@ == before.push(tile));
                assert(packed(*self, board_size, ahead, depth) == seq![tile] + packed(
                    *self,
                    board_size,
                    after,
                    column as int,
                ));
                assert(before + (seq![tile] + packed(*self, board_size, after, column as int))
                    =~= before.push(tile) + packed(*self, board_size, after, column as int));
            }
        }
        proof {
            assert(sorted@.skip(i as int) =~= Seq::<Tile>::empty());
            assert(out@ + Seq::<Tile>::empty() =~= out@);
        }
        (out, gained)
    }

    /// What a shift makes of a board and a score. The grid becomes the
    /// shifted grid, the board stays well formed, and its tiles stand in the
    /// order of the shift. The score grows by what the merges earned; the
    /// best score takes up the score as it stood before the shift. The sum
    /// of the values on the board stays, and the board loses one tile in
    /// each merge.
    pub open spec fn moves(self, before: Board, game: Game, after: Board, after_game: Game) -> bool {
        let size = before.size as int;
        &&& after.size == before.size
        &&& after.wf()
        &&& after@ == shifted(before@, self, size)
        &&& ordered(self, after.tiles@)
        &&& after_game.score == game.score + shift_gain(before@, self, size)
        &&& after_game.score_best == if game.score_best < game.score {
            game.score
        } else {
            game.score_best
        }
        &&& total(after.tiles@) == total(before.tiles@)
        &&& after.tiles@.len() + shift_merges(before@, self, size) == before.tiles@.len()
    }

    /// Shifts the board: every tile slides towards the wall of the shift,
    /// equal neighbours merge, and the score takes what the merges earned.
    /// Returns whether the shift changed the board.
    pub fn apply(&self, board: &mut Board, game: &mut Game) -> (moved: bool)
        requires
            old(board).wf(),
            old(game).score + shift_gain(old(board)@, *self, old(board).size as int) <= u32::MAX,
        ensures
            self.moves(*old(board), *old(game), *final(board), *final(game)),
            moved == (final(board)@ != old(board)@),
    {
        if game.score_best < game.score {
            game.score_best = game.score;
        }
        let sorted = sorted_tiles(self, &board.tiles);
        proof {
            let size = board.size as int;
            lemma_same_tiles(board.tiles@, sorted@, size);
            lemma_total_of_same_tiles(board.tiles@, sorted@);
            assert forall|i: int, j: int| 0 <= i < j < sorted@.len() implies self.precedes(
                (#[trigger] sorted@[i]).position,
                (#[trigger] sorted@[j]).position,
            ) by {
                self.lemma_precedes_total(sorted@[i].position, sorted@[j].position);
            }
            lemma_run_sum_is_lane_sum(*self, size, sorted@, Tally::Gain);
            lemma_run_sum_is_lane_sum(*self, size, sorted@, Tally::Merges);
            lemma_packed_grid(*self, board.size, sorted@);
            lemma_packed_ordered(*self, board.size, sorted@);
            lemma_packed_len(*self, board.size, sorted@);
            lemma_packed_total(*self, board.size, sorted@);
        }
        let (tiles, gained) = self.slide(board.size, &sorted);
        let moved = !same_tiles(&sorted, &tiles);
        proof {
            if grid_of(tiles@) == grid_of(sorted@) {
                lemma_ordered_determined(*self, tiles@, sorted@);
            }
        }
        board.tiles = tiles;
        game.score = game.score + gained;
        moved
    }
}

/// Whether two sequences hold the same tiles in the same order.
fn same_tiles(a: &Vec<Tile>, b: &Vec<Tile>) -> (same: bool)
    ensures
        same == (a@ == b@),
{
    if a.len() != b.len() {
        return false;
    }
    let mut i: usize = 0;
    while i < a.len()
        invariant
            i <= a.len(),
            a.len() == b.len(),
            forall|k: int| 0 <= k < i ==> a@[k] == b@[k],
        decreases a.len() - i,
    {
        if a[i] != b[i] {
            return false;
        }
        i = i + 1;
    }
    proof {
        assert(a@ =~= b@);
    }
    true
}

/// The shift that the first key asks for that asks for one.
pub fn find_shift(input: &Vec<Key>) -> (shift: Option<BoardShift>)
    ensures
        shift == first_shift(input@),
{
    let mut i: usize = 0;
    proof {
        assert(input@.skip(0) =~= input@);
    }
    while i < input.len()
        invariant
            i <= input.len(),
            first_shift(input@) == first_shift(input@.skip(i as int)),
        decreases input.len() - i,
    {
        proof {
            assert(input@.skip(i as int)[0] == input@[i as int]);
            assert(input@.skip(i as int).skip(1) =~= input@.skip(i + 1));
        }
        match BoardShift::try_from(&input[i]) {
            Ok(shift) => {
                return Some(shift);
            },
            Err(_) => {},
        }
        i = i + 1;
    }
    None
}

/// One tick of the game's input: the first key that asks for a shift has
/// the board shifted; without such a key nothing happens. Returns whether a
/// new tile is due, which it is after every shift, also after one that left
/// the board as it was. A caller that wants a new tile only after a change
/// of the board goes by what `BoardShift::apply` returns.
pub fn board_shift(input: &Vec<Key>, board: &mut Board, game: &mut Game) -> (new_tile: bool)
    requires
        old(board).wf(),
        match first_shift(input@) {
            Some(shift) => old(game).score + shift_gain(
                old(board)@,
                shift,
                old(board).size as int,
            ) <= u32::MAX,
            None => true,
        },
    ensures
        new_tile == first_shift(input@).is_some(),
        match first_shift(input@) {
            Some(shift) => shift.moves(*old(board), *old(game), *final(board), *final(game)),
            None => *final(board) == *old(board) && *final(game) == *old(game),
        },
{
    match find_shift(input) {
        Some(shift) => {
            shift.apply(board, game);
            true
        },
        None => false,
    }
}

/// `board_shift` for a caller that cannot vouch for the board: the board is
/// tested first. Nothing happens, and nothing is returned, where the board
/// is not well formed, or where the score and the values of all tiles
/// together go beyond what a score can hold.
pub fn checked_board_shift(input: &Vec<Key>, board: &mut Board, game: &mut Game) -> (outcome:
    Option<bool>)
    ensures
        outcome is Some <==> old(board).wf() && old(game).score + total(old(board).tiles@)
            <= u32::MAX,
        match outcome {
            Some(new_tile) => {
                &&& new_tile == first_shift(input@).is_some()
                &&& match first_shift(input@) {
                    Some(shift) => shift.moves(*old(board), *old(game), *final(board), *final(game)),
                    None => *final(board) == *old(board) && *final(game) == *old(game),
                }
            },
            None => *final(board) == *old(board) && *final(game) == *old(game),
        },
{
    if !board.is_well_formed() {
        return None;
    }
    if board.total_points() > (u32::MAX - game.score) as u128 {
        return None;
    }
    proof {
        match first_shift(input@) {
            Some(shift) => {
                board.lemma_gain_within_total(shift);
            },
            None => {},
        }
    }
    Some(board_shift(input, board, game))
}

} // verus!
