use vstd::prelude::*;
use crate::grid::Position;
use core::cmp::Ordering;

verus! {

/// A key press as the engine sees it: one of the four arrows, or anything else.
#[derive(Clone, Copy, Debug, PartialEq, Eq, Structural)]
pub enum Key {
    Left,
    Right,
    Up,
    Down,
    Other,
}

/// The direction in which all tiles slide. `Up` moves towards larger `y`.
#[derive(Clone, Copy, Debug, PartialEq, Eq, Structural)]
pub enum BoardShift {
    Left,
    Right,
    Up,
    Down,
}

/// Lexicographic comparison of two pairs of integers.
pub open spec fn cmp_pairs(a0: int, a1: int, b0: int, b1: int) -> Ordering {
    if a0 < b0 {
        Ordering::Less
    } else if a0 > b0 {
        Ordering::Greater
    } else if a1 < b1 {
        Ordering::Less
    } else if a1 > b1 {
        Ordering::Greater
    } else {
        Ordering::Equal
    }
}

impl BoardShift {
    /// The row (for `Left` and `Right`) or column (for `Up` and `Down`) that a
    /// position belongs to: tiles slide only within it.
    pub open spec fn line_of(self, p: Position) -> int {
        match self {
            BoardShift::Left | BoardShift::Right => p.y as int,
            BoardShift::Up | BoardShift::Down => p.x as int,
        }
    }

    /// How far a position is from the leading edge of its line, up to a
    /// constant: a smaller rank is closer to where tiles slide to.
    pub open spec fn rank_of(self, p: Position) -> int {
        match self {
            BoardShift::Left => p.x as int,
            BoardShift::Right => -(p.x as int),
            BoardShift::Up => -(p.y as int),
            BoardShift::Down => p.y as int,
        }
    }

    /// The distance of a position from the leading edge on a board of side `size`.
    pub open spec fn travel_index(self, size: int, p: Position) -> int {
        match self {
            BoardShift::Left | BoardShift::Down => self.rank_of(p),
            BoardShift::Right | BoardShift::Up => size - 1 + self.rank_of(p),
        }
    }

    /// The position in the line of `p` that lies `slot` cells from the leading edge.
    pub open spec fn place(self, size: int, p: Position, slot: int) -> Position {
        match self {
            BoardShift::Left => Position { x: slot as u8, y: p.y },
            BoardShift::Right => Position { x: (size - 1 - slot) as u8, y: p.y },
            BoardShift::Up => Position { x: p.x, y: (size - 1 - slot) as u8 },
            BoardShift::Down => Position { x: p.x, y: slot as u8 },
        }
    }

    /// The scan order of a shift: by line, then from the leading edge backwards.
    pub open spec fn scan_cmp(self, a: Position, b: Position) -> Ordering {
        cmp_pairs(self.line_of(a), self.rank_of(a), self.line_of(b), self.rank_of(b))
    }

    /// The direction that a key stands for, if any.
    pub open spec fn of_key(key: Key) -> Option<BoardShift> {
        match key {
            Key::Left => Some(BoardShift::Left),
            Key::Right => Some(BoardShift::Right),
            Key::Up => Some(BoardShift::Up),
            Key::Down => Some(BoardShift::Down),
            Key::Other => None,
        }
    }

    /// Compares two positions in the scan order of this direction: rows
    /// ascending for `Left` and `Right`, columns ascending for `Up` and
    /// `Down`; within a line, `x` ascending for `Left`, `x` descending for
    /// `Right`, `y` descending for `Up` and `y` ascending for `Down`.
    pub fn sort(&self, a: &Position, b: &Position) -> (r: Ordering)
        ensures
            r == self.scan_cmp(*a, *b),
    {
        let (a0, a1, b0, b1): (u8, u8, u8, u8) = match self {
            BoardShift::Left => (a.y, a.x, b.y, b.x),
            BoardShift::Right => (a.y, b.x, b.y, a.x),
            BoardShift::Up => (a.x, b.y, b.x, a.y),
            BoardShift::Down => (a.x, a.y, b.x, b.y),
        };
        if a0 < b0 {
            Ordering::Less
        } else if a0 > b0 {
            Ordering::Greater
        } else if a1 < b1 {
            Ordering::Less
        } else if a1 > b1 {
            Ordering::Greater
        } else {
            Ordering::Equal
        }
    }

    /// Moves `position` to `index` cells from the leading edge of its line.
    pub fn set_column_position(&self, board_size: u8, position: &mut Position, index: u8)
        requires
            index < board_size,
        ensures
            *final(position) == self.place(board_size as int, *old(position), index as int),
    {
        match self {
            BoardShift::Left => {
                position.x = index;
            },
            BoardShift::Right => {
                position.x = board_size - 1 - index;
            },
            BoardShift::Up => {
                position.y = board_size - 1 - index;
            },
            BoardShift::Down => {
                position.y = index;
            },
        }
    }

    /// The line of `position` along this direction.
    pub fn get_row_position(&self, position: &Position) -> (r: u8)
        ensures
            r as int == self.line_of(*position),
    {
        match self {
            BoardShift::Left | BoardShift::Right => position.y,
            BoardShift::Up | BoardShift::Down => position.x,
        }
    }

    /// The direction of an arrow key; any other key is refused with an empty message.
    pub fn try_from(key: &Key) -> (r: Result<BoardShift, &'static str>)
        ensures
            r == match BoardShift::of_key(*key) {
                Some(d) => Ok(d),
                None => Err(""),
            },
    {
        match key {
            Key::Left => Ok(BoardShift::Left),
            Key::Right => Ok(BoardShift::Right),
            Key::Up => Ok(BoardShift::Up),
            Key::Down => Ok(BoardShift::Down),
            Key::Other => Err(""),
        }
    }
}

} // verus!
