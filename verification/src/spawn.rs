//! New tiles: one on a free cell after a shift, and two at the start of a
//! game. Which cells they take is left to chance.

use crate::cells::{all_cells, cell_pairs, lemma_all_cells};
use crate::grid::{Board, Points, Position, Tile, NEW_TILE_VALUE};
use rand::rngs::ThreadRng;
use rand::seq::IteratorRandom;
use vstd::prelude::*;

verus! {

/// The random number generator of the running thread, `rand`'s `ThreadRng`.
/// Nothing is known of what it holds.
#[verifier::external_type_specification]
#[verifier::external_body]
pub struct ExThreadRng(ThreadRng);

/// `rand::thread_rng` hands out the generator of the running thread.
/// Nothing is stated of it.
pub assume_specification[ rand::thread_rng ]() -> (rng: ThreadRng)
;

/// One of the given positions, drawn by `IteratorRandom::choose`.
///
/// Trusted: the draw gives nothing exactly when there is nothing to draw
/// from, and otherwise one of the given positions. Which one is left open.
#[verifier::external_body]
fn choose_position(cells: &Vec<Position>, rng: &mut ThreadRng) -> (choice: Option<Position>)
    ensures
        match choice {
            Some(pos) => cells@.contains(pos),
            None => cells@.len() == 0,
        },
{
    cells.iter().copied().choose(rng)
}

/// Up to `amount` of the given cells, drawn by
/// `IteratorRandom::choose_multiple`.
///
/// Trusted: the draw gives `amount` cells, or all of them where there are
/// fewer, and no cell more often than it was given. Which cells, and in
/// which order, is left open. The draw reserves room for `amount` cells
/// first, which must not take more bytes than `isize::MAX`.
#[verifier::external_body]
fn choose_cells(cells: &Vec<(u8, u8)>, rng: &mut ThreadRng, amount: usize) -> (picks: Vec<(u8, u8)>)
    requires
        2 * amount <= isize::MAX,
    ensures
        picks@.len() == if amount <= cells@.len() {
            amount as nat
        } else {
            cells@.len()
        },
        picks@.to_multiset().subset_of(cells@.to_multiset()),
{
    cells.iter().copied().choose_multiple(rng, amount)
}

/// The tile that is put on a cell when the cell is chosen for a new tile.
pub open spec fn new_tile(pos: Position) -> Tile {
    Tile { position: pos, points: Points { value: NEW_TILE_VALUE } }
}

/// The new tiles for a sequence of chosen cells.
pub open spec fn new_tiles(cells: Seq<(u8, u8)>) -> Seq<Tile> {
    Seq::new(cells.len(), |i: int| new_tile(Position { x: cells[i].0, y: cells[i].1 }))
}

/// A choice of starting cells: as many as asked for, or every cell of a
/// board that has fewer; each on the board, and none twice.
pub open spec fn starting_choice(size: u8, amount: nat, picks: Seq<(u8, u8)>) -> bool {
    &&& picks.len() == if amount <= size * size {
        amount
    } else {
        (size * size) as nat
    }
    &&& picks.no_duplicates()
    &&& forall|i: int| 0 <= i < picks.len() ==> (#[trigger] picks[i]).0 < size && picks[i].1 < size
}

/// Cells drawn from a sequence without repetition, none more often than it
/// stands there, are cells of that sequence and differ from each other.
pub proof fn lemma_picks_of_distinct(picks: Seq<(u8, u8)>, cells: Seq<(u8, u8)>)
    requires
        picks.to_multiset().subset_of(cells.to_multiset()),
        cells.no_duplicates(),
    ensures
        picks.no_duplicates(),
        forall|i: int| 0 <= i < picks.len() ==> cells.contains(#[trigger] picks[i]),
{
    picks.to_multiset_ensures();
    cells.to_multiset_ensures();
    cells.lemma_multiset_has_no_duplicates();
    assert forall|cell: (u8, u8)| picks.to_multiset().contains(cell) implies picks.to_multiset().count(
        cell,
    ) == 1 by {
        assert(picks.to_multiset().count(cell) <= cells.to_multiset().count(cell));
    }
    picks.lemma_multiset_has_no_duplicates_conv();
    assert forall|i: int| 0 <= i < picks.len() implies cells.contains(#[trigger] picks[i]) by {
        assert(picks.contains(picks[i]));
        assert(picks.to_multiset().count(picks[i]) <= cells.to_multiset().count(picks[i]));
    }
}

/// Puts a new tile on the chosen cell, if one was chosen.
pub fn spawn_chosen(board: &mut Board, choice: Option<Position>)
    ensures
        final(board).size == old(board).size,
        final(board).tiles@ == match choice {
            Some(pos) => old(board).tiles@.push(new_tile(pos)),
            None => old(board).tiles@,
        },
        old(board).wf() && (choice is Some ==> old(board).is_free(choice->Some_0))
            ==> final(board).wf(),
{
    if let Some(pos) = choice {
        board.spawn_tile(pos);
    }
}

/// Puts one new tile on a free cell of the board, drawn at random, and
/// returns the cell. A full board is left as it is.
pub fn new_tile_handler(board: &mut Board) -> (spawned: Option<Position>)
    ensures
        final(board).size == old(board).size,
        match spawned {
            Some(pos) => old(board).is_free(pos) && final(board).tiles@ == old(board).tiles@.push(
                new_tile(pos),
            ),
            None => final(board).tiles@ == old(board).tiles@ && forall|pos: Position|
                !old(board).is_free(pos),
        },
        forall|pos: Position|
            old(board).is_free(pos) && (forall|other: Position|
                old(board).is_free(other) ==> other == pos) ==> spawned == Some(pos),
        old(board).wf() && old(board).is_full() ==> spawned is None,
        old(board).wf() ==> final(board).wf(),
{
    let mut rng = rand::thread_rng();
    let free = board.empty_cells();
    let possible_position = choose_position(&free, &mut rng);
    proof {
        if board.wf() && board.is_full() {
            board.lemma_full_board_has_no_free_cell();
        }
        match possible_position {
            Some(pos) => {
                board.lemma_free_cells(pos);
            },
            None => {
                assert forall|pos: Position| !board.is_free(pos) by {
                    board.lemma_free_cells(pos);
                }
            },
        }
    }
    spawn_chosen(board, possible_position);
    possible_position
}

/// Puts a new tile on each of the given cells, in their order.
pub fn place_tiles(board: &mut Board, cells: &Vec<(u8, u8)>)
    ensures
        final(board).size == old(board).size,
        final(board).tiles@ == old(board).tiles@ + new_tiles(cells@),
{
    let mut i: usize = 0;
    proof {
        assert(board.tiles@ + new_tiles(cells@).take(0) =~= board.tiles@);
    }
    while i < cells.len()
        invariant
            i <= cells.len(),
            board.size == old(board).size,
            board.tiles@ == old(board).tiles@ + new_tiles(cells@).take(i as int),
        decreases cells.len() - i,
    {
        let pos = Position { x: cells[i].0, y: cells[i].1 };
        proof {
            let placed = new_tiles(cells@);
            assert(placed.take(i + 1) =~= placed.take(i as int).push(new_tile(pos)));
            assert((old(board).tiles@ + placed.take(i as int)).push(new_tile(pos))
                =~= old(board).tiles@ + placed.take(i + 1));
        }
        board.spawn_tile(pos);
        i = i + 1;
    }
    proof {
        assert(new_tiles(cells@).take(i as int) =~= new_tiles(cells@));
    }
}

/// Puts the two starting tiles on cells of the board drawn at random, and
/// returns the cells. A board with fewer than two cells gets a tile on each
/// cell it has.
pub fn spawn_tiles(board: &mut Board) -> (picks: Vec<(u8, u8)>)
    ensures
        final(board).size == old(board).size,
        starting_choice(old(board).size, 2, picks@),
        final(board).tiles@ == old(board).tiles@ + new_tiles(picks@),
        old(board).tiles@.len() == 0 ==> final(board).wf(),
{
    let mut rng = rand::thread_rng();
    let cells = cell_pairs(board.size);
    let starting_tiles = choose_cells(&cells, &mut rng, 2);
    proof {
        lemma_all_cells(board.size);
        lemma_picks_of_distinct(starting_tiles@, cells@);
        assert forall|i: int| 0 <= i < starting_tiles@.len() implies (#[trigger] starting_tiles@[i]).0
            < board.size && starting_tiles@[i].1 < board.size by {
            let cell = starting_tiles@[i];
            assert(cells@.contains(cell));
            let k = choose|k: int| 0 <= k < cells@.len() && cells@[k] == cell;
            assert(all_cells(board.size)[k].0 < board.size);
        }
    }
    place_tiles(board, &starting_tiles);
    proof {
        if old(board).tiles@.len() == 0 {
            let placed = new_tiles(starting_tiles@);
            assert(board.tiles@ =~= placed);
            assert forall|i: int, j: int| 0 <= i < j < placed.len() implies (#[trigger] placed[i]).position
                != (#[trigger] placed[j]).position by {
                assert(starting_tiles@[i] != starting_tiles@[j]);
            }
        }
    }
    starting_tiles
}

} // verus!
