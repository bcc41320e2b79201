//! The four directions of a shift, and how each of them reads the board:
//! which cells form a lane, how far a cell lies from the wall that the tiles
//! slide towards, and in which order the tiles are taken.

use crate::grid::Position;
use std::cmp::Ordering;
use vstd::prelude::*;

verus! {

/// A key of the keyboard, as far as the game tells keys apart.
#[derive(Debug, Clone, Copy, PartialEq, Eq, Structural)]
pub enum Key {
    ArrowLeft,
    ArrowUp,
    ArrowRight,
    ArrowDown,
    Other,
}

impl Key {
    /// The shift that the key asks for, if it asks for one.
    pub open spec fn shift(self) -> Option<BoardShift> {
        match self {
            Key::ArrowLeft => Some(BoardShift::Left),
            Key::ArrowUp => Some(BoardShift::Up),
            Key::ArrowRight => Some(BoardShift::Right),
            Key::ArrowDown => Some(BoardShift::Down),
            Key::Other => None,
        }
    }
}

/// The shift that the first key asks for that asks for one.
pub open spec fn first_shift(keys: Seq<Key>) -> Option<BoardShift>
    decreases keys.len(),
{
    if keys.len() == 0 {
        None
    } else if keys[0].shift().is_some() {
        keys[0].shift()
    } else {
        first_shift(keys.skip(1))
    }
}

/// The direction in which all tiles slide.
#[derive(Debug, Clone, Copy, PartialEq, Eq, Structural)]
pub enum BoardShift {
    Left,
    Right,
    Up,
    Down,
}

impl BoardShift {
    /// The lane that a cell belongs to: its row for a horizontal shift, its
    /// column for a vertical one.
    pub open spec fn lane_of(self, cell: (int, int)) -> int {
        match self {
            BoardShift::Left | BoardShift::Right => cell.1,
            BoardShift::Up | BoardShift::Down => cell.0,
        }
    }

    /// The number of cells between a cell and the wall that the tiles slide
    /// towards, on a board of the given size.
    pub open spec fn depth_of(self, size: int, cell: (int, int)) -> int {
        match self {
            BoardShift::Left => cell.0,
            BoardShift::Right => size - 1 - cell.0,
            BoardShift::Up => size - 1 - cell.1,
            BoardShift::Down => cell.1,
        }
    }

    /// The cell of a lane at the given depth.
    pub open spec fn cell_at(self, size: int, lane: int, depth: int) -> (int, int) {
        match self {
            BoardShift::Left => (depth, lane),
            BoardShift::Right => (size - 1 - depth, lane),
            BoardShift::Up => (lane, size - 1 - depth),
            BoardShift::Down => (lane, depth),
        }
    }

    /// The order in which a shift takes the tiles: lane by lane, and within a
    /// lane from the wall outwards.
    pub open spec fn precedes(self, a: Position, b: Position) -> bool {
        match self {
            BoardShift::Left => a.y < b.y || (a.y == b.y && a.x < b.x),
            BoardShift::Right => b.y < a.y || (a.y == b.y && b.x < a.x),
            BoardShift::Up => b.x < a.x || (a.x == b.x && b.y < a.y),
            BoardShift::Down => a.x < b.x || (a.x == b.x && a.y < b.y),
        }
    }

    /// The position that a tile at `pos` takes when it becomes number `idx`
    /// of its lane, counted from the wall.
    pub open spec fn placed(self, board_size: u8, pos: Position, idx: u8) -> Position {
        match self {
            BoardShift::Left => Position { x: idx, y: pos.y },
            BoardShift::Right => Position { x: (board_size - 1 - idx) as u8, y: pos.y },
            BoardShift::Up => Position { x: pos.x, y: (board_size - 1 - idx) as u8 },
            BoardShift::Down => Position { x: pos.x, y: idx },
        }
    }

    /// The shift that a key asks for. Only the four arrow keys ask for one.
    pub fn try_from(value: &Key) -> (shift: Result<BoardShift, &'static str>)
        ensures
            match value.shift() {
                Some(asked) => shift == Ok::<BoardShift, &'static str>(asked),
                None => shift is Err && shift->Err_0@ == "not a valid board_shift key"@,
            },
    {
        match value {
            Key::ArrowLeft => Ok(BoardShift::Left),
            Key::ArrowUp => Ok(BoardShift::Up),
            Key::ArrowRight => Ok(BoardShift::Right),
            Key::ArrowDown => Ok(BoardShift::Down),
            Key::Other => Err("not a valid board_shift key"),
        }
    }

    /// The total order of the positions that `sort` computes: two different
    /// positions are never level.
    pub proof fn lemma_precedes_total(self, a: Position, b: Position)
        ensures
            a == b || self.precedes(a, b) || self.precedes(b, a),
            !(self.precedes(a, b) && self.precedes(b, a)),
            !self.precedes(a, a),
    {
    }

    /// Compares two positions in the order in which this shift takes the
    /// tiles.
    pub fn sort(&self, a: &Position, b: &Position) -> (order: Ordering)
        ensures
            match order {
                Ordering::Less => self.precedes(*a, *b),
                Ordering::Equal => *a == *b,
                Ordering::Greater => self.precedes(*b, *a),
            },
    {
        match self {
            BoardShift::Left => match Ord::cmp(&a.y, &b.y) {
                Ordering::Equal => Ord::cmp(&a.x, &b.x),
                ordering => ordering,
            },
            BoardShift::Right => match Ord::cmp(&b.y, &a.y) {
                Ordering::Equal => Ord::cmp(&b.x, &a.x),
                ordering => ordering,
            },
            BoardShift::Up => match Ord::cmp(&b.x, &a.x) {
                Ordering::Equal => Ord::cmp(&b.y, &a.y),
                ordering => ordering,
            },
            BoardShift::Down => match Ord::cmp(&a.x, &b.x) {
                Ordering::Equal => Ord::cmp(&a.y, &b.y),
                ordering => ordering,
            },
        }
    }

    /// Moves a position to number `idx` of its lane, counted from the wall
    /// that the tiles slide towards.
    pub fn set_col(&self, board_size: u8, pos: &mut Position, idx: u8)
        requires
            (*self == BoardShift::Right || *self == BoardShift::Up) ==> idx < board_size,
        ensures
            *final(pos) == self.placed(board_size, *old(pos), idx),
    {
        match self {
            BoardShift::Left => {
                pos.x = idx;
            },
            BoardShift::Right => {
                pos.x = board_size - 1 - idx;
            },
            BoardShift::Up => {
                pos.y = board_size - 1 - idx;
            },
            BoardShift::Down => {
                pos.y = idx;
            },
        }
    }

    /// The lane of a position: its row for a horizontal shift, its column for
    /// a vertical one.
    pub fn get_row(&self, pos: &Position) -> (row: u8)
        ensures
            row == self.lane_of(pos@),
    {
        match self {
            BoardShift::Left | BoardShift::Right => pos.y,
            BoardShift::Up | BoardShift::Down => pos.x,
        }
    }
}

} // verus!
