//! The score and the phase of a session: when a game is over, and what the
//! button that ends and restarts a game does.

use crate::grid::{lemma_grid_domain, lemma_grid_value, Board, Position, Tile};
use vstd::prelude::*;

verus! {

/// The score of the running game and the best score seen so far.
#[derive(Debug, Clone, Copy, PartialEq, Eq, Structural)]
pub struct Game {
    pub score: u32,
    pub score_best: u32,
}

impl Default for Game {
    fn default() -> (game: Game)
        ensures
            game.score == 0,
            game.score_best == 0,
    {
        Game { score: 0, score_best: 0 }
    }
}

/// The phase of a session.
#[derive(Debug, Clone, Copy, PartialEq, Eq, Hash, Structural)]
pub enum RunState {
    Playing,
    GameOver,
}

impl Default for RunState {
    fn default() -> (state: RunState)
        ensures
            state == RunState::Playing,
    {
        RunState::Playing
    }
}

impl RunState {
    /// The other phase.
    pub open spec fn toggled(self) -> RunState {
        match self {
            RunState::Playing => RunState::GameOver,
            RunState::GameOver => RunState::Playing,
        }
    }
}

/// What the pointer does to the button.
#[derive(Debug, Clone, Copy, PartialEq, Eq, Structural)]
pub enum Interaction {
    Pressed,
    Hovered,
    Idle,
}

/// The look of the button.
#[derive(Debug, Clone, Copy, PartialEq, Eq, Structural)]
pub enum ButtonShade {
    Pressed,
    Hovered,
    Normal,
}

/// Two cells lie side by side in a row or in a column.
pub open spec fn adjacent(a: (int, int), b: (int, int)) -> bool {
    ||| a.0 == b.0 && (a.1 == b.1 + 1 || b.1 == a.1 + 1)
    ||| a.1 == b.1 && (a.0 == b.0 + 1 || b.0 == a.0 + 1)
}

/// Some tile of the grid has a neighbour of its own value, so that a shift
/// can merge the two.
pub open spec fn can_merge(grid: Map<(int, int), int>) -> bool {
    exists|a: (int, int), b: (int, int)|
        #![trigger grid.contains_key(a), grid.contains_key(b)]
        grid.contains_key(a) && grid.contains_key(b) && adjacent(a, b) && grid[a] == grid[b]
}

impl Board {
    /// The board holds as many tiles as it has cells.
    pub open spec fn is_full(&self) -> bool {
        self.tiles@.len() == self.size * self.size
    }

    /// The board is full, and no tile has a neighbour of its own value: no
    /// shift can change it.
    pub open spec fn is_terminal(&self) -> bool {
        self.is_full() && !can_merge(self@)
    }

    /// A cell beside `cell`, on the board, holds the value.
    pub open spec fn value_beside(&self, cell: (int, int), value: int) -> bool {
        exists|b: (int, int)|
            #![trigger self@.contains_key(b)]
            0 <= b.0 < self.size && 0 <= b.1 < self.size && adjacent(cell, b) && self@.contains_key(
                b,
            ) && self@[b] == value
    }

    /// Whether the cell `(x, y)` lies on the board and holds the value.
    fn holds(&self, x: u8, y: u8, value: u32) -> (found: bool)
        ensures
            found == (x < self.size && y < self.size && self@.contains_key((x as int, y as int))
                && self@[(x as int, y as int)] == value),
    {
        if x < self.size && y < self.size {
            match self.value_at(&Position { x, y }) {
                Some(v) => v == value,
                None => false,
            }
        } else {
            false
        }
    }

    /// Whether one of the four cells beside `pos`, as far as they lie on the
    /// board, holds the value.
    pub fn neighbour_holds(&self, pos: &Position, value: u32) -> (found: bool)
        ensures
            found == self.value_beside(pos@, value as int),
    {
        let left = pos.x > 0 && self.holds(pos.x - 1, pos.y, value);
        let above = pos.y < u8::MAX && self.holds(pos.x, pos.y + 1, value);
        let right = pos.x < u8::MAX && self.holds(pos.x + 1, pos.y, value);
        let below = pos.y > 0 && self.holds(pos.x, pos.y - 1, value);
        proof {
            if left {
                assert(self@.contains_key((pos.x - 1, pos.y as int)));
            }
            if above {
                assert(self@.contains_key((pos.x as int, pos.y + 1)));
            }
            if right {
                assert(self@.contains_key((pos.x + 1, pos.y as int)));
            }
            if below {
                assert(self@.contains_key((pos.x as int, pos.y - 1)));
            }
        }
        left || above || right || below
    }

    /// Whether a shift can merge two tiles of the board.
    pub fn has_move(&self) -> (found: bool)
        requires
            self.wf(),
        ensures
            found == can_merge(self@),
    {
        let mut i: usize = 0;
        while i < self.tiles.len()
            invariant
                i <= self.tiles.len(),
                self.wf(),
                forall|k: int|
                    0 <= k < i ==> !self.value_beside(
                        (#[trigger] self.tiles@[k]).position@,
                        self.tiles@[k].points.value as int,
                    ),
            decreases self.tiles.len() - i,
        {
            let tile = &self.tiles[i];
            if self.neighbour_holds(&tile.position, tile.points.value) {
                proof {
                    let a = tile.position@;
                    let b = choose|b: (int, int)|
                        #![trigger self@.contains_key(b)]
                        0 <= b.0 < self.size && 0 <= b.1 < self.size && adjacent(a, b)
                            && self@.contains_key(b) && self@[b] == tile.points.value;
                    lemma_grid_value(self.tiles@, i as int);
                    assert(self@.contains_key(a) && self@.contains_key(b));
                }
                return true;
            }
            i = i + 1;
        }
        proof {
            if can_merge(self@) {
                let (a, b) = choose|a: (int, int), b: (int, int)|
                    #![trigger self@.contains_key(a), self@.contains_key(b)]
                    self@.contains_key(a) && self@.contains_key(b) && adjacent(a, b) && self@[a]
                        == self@[b];
                lemma_grid_domain(self.tiles@, a);
                lemma_grid_domain(self.tiles@, b);
                let k = choose|k: int|
                    0 <= k < self.tiles@.len() && (#[trigger] self.tiles@[k]).position@ == a;
                let l = choose|l: int|
                    0 <= l < self.tiles@.len() && (#[trigger] self.tiles@[l]).position@ == b;
                lemma_grid_value(self.tiles@, k);
                assert(self.tiles@[l].position.x < self.size);
                assert(self.value_beside(a, self.tiles@[k].points.value as int));
                assert(false);
            }
        }
        false
    }
}

/// Ends the game on a board that no shift can change: a full board on which
/// no tile has a neighbour of its own value. Any other board leaves the
/// phase as it is.
pub fn end_game(board: &Board, run_state: &mut RunState)
    requires
        board.wf(),
    ensures
        *final(run_state) == if board.is_terminal() {
            RunState::GameOver
        } else {
            *old(run_state)
        },
{
    let side = board.size as usize;
    assert(side * side <= 255 * 255) by (nonlinear_arith)
        requires
            0 <= side <= 255,
    ;
    if board.tiles.len() == side * side {
        let has_move = board.has_move();
        if has_move == false {
            *run_state = RunState::GameOver;
        }
    }
}

/// Clears the board and the score for a new game. The best score stays.
pub fn game_reset(board: &mut Board, game: &mut Game)
    ensures
        final(board).size == old(board).size,
        final(board).tiles@ == Seq::<Tile>::empty(),
        final(board).wf(),
        final(game).score == 0,
        final(game).score_best == old(game).score_best,
{
    board.tiles.clear();
    game.score = 0;
}

/// What the button does with the pointer on it: it takes the shade of the
/// interaction, and a press asks for the other phase.
pub fn button_interaction(interaction: Interaction, run_state: RunState) -> (response: (
    ButtonShade,
    Option<RunState>,
))
    ensures
        response == match interaction {
            Interaction::Pressed => (ButtonShade::Pressed, Some(run_state.toggled())),
            Interaction::Hovered => (ButtonShade::Hovered, None::<RunState>),
            Interaction::Idle => (ButtonShade::Normal, None::<RunState>),
        },
{
    match interaction {
        Interaction::Pressed => {
            let next = match run_state {
                RunState::Playing => RunState::GameOver,
                RunState::GameOver => RunState::Playing,
            };
            (ButtonShade::Pressed, Some(next))
        },
        Interaction::Hovered => (ButtonShade::Hovered, None),
        Interaction::Idle => (ButtonShade::Normal, None),
    }
}

/// The label of the button: what a press will do.
pub fn button_text(run_state: RunState) -> (label: &'static str)
    ensures
        label@ == match run_state {
            RunState::Playing => "End Game"@,
            RunState::GameOver => "New Game"@,
        },
{
    match run_state {
        RunState::Playing => "End Game",
        RunState::GameOver => "New Game",
    }
}

} // verus!
