use vstd::prelude::*;

verus! {

/// One of the nine positions of a 3x3 grid, used both for the regions of a
/// game and for the tiles of a region.
///
/// Positions are numbered row by row from the upper left: `UpperLeft` is 0,
/// `Up` is 1, `UpperRight` is 2, and so on down to `LowerRight` at 8.
#[derive(Clone, Copy, Debug, PartialEq, Eq, Structural)]
pub enum BoardIndex {
    UpperLeft,
    UpperRight,
    LowerLeft,
    LowerRight,
    Up,
    Down,
    Left,
    Right,
    Center,
}

/// The number of positions on a 3x3 grid.
pub const N: usize = 9;

/// The number of winning lines on a 3x3 grid: three rows, three columns and
/// the two diagonals.
pub const N_LINES: usize = 8;

impl BoardIndex {
    /// The row-major number of this position.
    pub open spec fn as_int(self) -> int {
        match self {
            BoardIndex::UpperLeft => 0,
            BoardIndex::Up => 1,
            BoardIndex::UpperRight => 2,
            BoardIndex::Left => 3,
            BoardIndex::Center => 4,
            BoardIndex::Right => 5,
            BoardIndex::LowerLeft => 6,
            BoardIndex::Down => 7,
            BoardIndex::LowerRight => 8,
        }
    }

    /// Returns the row-major number of this position.
    pub fn to_usize(self) -> (r: usize)
        ensures
            r == self.as_int(),
    {
        match self {
            BoardIndex::UpperLeft => 0,
            BoardIndex::Up => 1,
            BoardIndex::UpperRight => 2,
            BoardIndex::Left => 3,
            BoardIndex::Center => 4,
            BoardIndex::Right => 5,
            BoardIndex::LowerLeft => 6,
            BoardIndex::Down => 7,
            BoardIndex::LowerRight => 8,
        }
    }

    /// The position with row-major number `i`, for `i` in `0..9`.
    pub open spec fn from_int(i: int) -> BoardIndex {
        if i == 0 {
            BoardIndex::UpperLeft
        } else if i == 1 {
            BoardIndex::Up
        } else if i == 2 {
            BoardIndex::UpperRight
        } else if i == 3 {
            BoardIndex::Left
        } else if i == 4 {
            BoardIndex::Center
        } else if i == 5 {
            BoardIndex::Right
        } else if i == 6 {
            BoardIndex::LowerLeft
        } else if i == 7 {
            BoardIndex::Down
        } else {
            BoardIndex::LowerRight
        }
    }

    /// Returns the position with row-major number `i`, or `None` when `i` is
    /// out of range.
    pub fn from_usize(i: usize) -> (r: Option<BoardIndex>)
        ensures
            i < N ==> r == Some(BoardIndex::from_int(i as int)),
            i >= N ==> r is None,
    {
        match i {
            0 => Some(BoardIndex::UpperLeft),
            1 => Some(BoardIndex::Up),
            2 => Some(BoardIndex::UpperRight),
            3 => Some(BoardIndex::Left),
            4 => Some(BoardIndex::Center),
            5 => Some(BoardIndex::Right),
            6 => Some(BoardIndex::LowerLeft),
            7 => Some(BoardIndex::Down),
            8 => Some(BoardIndex::LowerRight),
            _ => None,
        }
    }
}

/// Round trip between positions and their numbers.
pub proof fn lemma_index_round_trip()
    ensures
        forall|b: BoardIndex| BoardIndex::from_int(#[trigger] b.as_int()) == b,
        forall|i: int| 0 <= i < N ==> (#[trigger] BoardIndex::from_int(i)).as_int() == i,
{
    assert forall|i: int| 0 <= i < N implies (#[trigger] BoardIndex::from_int(i)).as_int()
        == i by {
        if i == 0 {
        } else if i == 1 {
        } else if i == 2 {
        } else if i == 3 {
        } else if i == 4 {
        } else if i == 5 {
        } else if i == 6 {
        } else if i == 7 {
        } else {
        }
    }
}

/// The `l`-th winning line, as a triple of row-major position numbers.
///
/// Lines 0 to 2 are the rows, 3 to 5 the columns, 6 and 7 the diagonals.
pub open spec fn spec_line(l: int) -> (int, int, int) {
    if l == 0 {
        (0, 1, 2)
    } else if l == 1 {
        (3, 4, 5)
    } else if l == 2 {
        (6, 7, 8)
    } else if l == 3 {
        (0, 3, 6)
    } else if l == 4 {
        (1, 4, 7)
    } else if l == 5 {
        (2, 5, 8)
    } else if l == 6 {
        (0, 4, 8)
    } else {
        (6, 4, 2)
    }
}

/// Returns the `l`-th winning line as a triple of position numbers, each
/// less than 9.
pub fn line(l: usize) -> (r: (usize, usize, usize))
    requires
        l < N_LINES,
    ensures
        r.0 == spec_line(l as int).0,
        r.1 == spec_line(l as int).1,
        r.2 == spec_line(l as int).2,
        r.0 < N && r.1 < N && r.2 < N,
{
    match l {
        0 => (0, 1, 2),
        1 => (3, 4, 5),
        2 => (6, 7, 8),
        3 => (0, 3, 6),
        4 => (1, 4, 7),
        5 => (2, 5, 8),
        6 => (0, 4, 8),
        _ => (6, 4, 2),
    }
}

} // verus!
