//! Positions and directions on a rectangular grid.

use vstd::prelude::*;

verus! {

/// A row index. Row 0 is the southern (bottom) row.
#[derive(Default, Debug, Copy, Clone, PartialEq, Eq, Hash, PartialOrd, Ord, Structural)]
pub struct Row(pub usize);

/// A column index. Column 0 is the western (left) column.
#[derive(Default, Debug, Copy, Clone, PartialEq, Eq, Hash, PartialOrd, Ord, Structural)]
pub struct Col(pub usize);

/// A position on the grid. Positions are ordered by row, then by column.
#[derive(Default, Debug, Copy, Clone, PartialEq, Eq, Hash, PartialOrd, Ord, Structural)]
pub struct GridPos {
    pub row: Row,
    pub col: Col,
}

impl GridPos {
    pub fn new(row: Row, col: Col) -> (pos: Self)
        ensures
            pos == (GridPos { row, col }),
    {
        GridPos { row: row, col: col }
    }

    /// The position at the given row and column numbers.
    pub open spec fn at(row: int, col: int) -> GridPos {
        GridPos { row: Row(row as usize), col: Col(col as usize) }
    }

    /// Strict row-major order: by row, then by column.
    pub open spec fn precedes(self, other: GridPos) -> bool {
        self.row.0 < other.row.0 || (self.row.0 == other.row.0 && self.col.0 < other.col.0)
    }
}

/// One of the four sides of a cell.
#[derive(Debug, Copy, Clone, PartialEq, Eq, Structural)]
pub enum Direction {
    North,
    East,
    South,
    West,
}

impl Direction {
    /// The opposite direction.
    pub open spec fn reversed(self) -> Direction {
        match self {
            Direction::North => Direction::South,
            Direction::East => Direction::West,
            Direction::South => Direction::North,
            Direction::West => Direction::East,
        }
    }

    /// The order in which the four directions are visited.
    pub open spec fn all() -> Seq<Direction> {
        seq![Direction::North, Direction::South, Direction::East, Direction::West]
    }

    pub fn reverse_dir(&self) -> (reverse: Direction)
        ensures
            reverse == self.reversed(),
    {
        match self {
            Direction::North => Direction::South,
            Direction::East => Direction::West,
            Direction::South => Direction::North,
            Direction::West => Direction::East,
        }
    }

    /// The four directions, each once: north, south, east, west.
    pub fn iter() -> (dirs: [Direction; 4])
        ensures
            dirs@ == Direction::all(),
    {
        let dirs = [Direction::North, Direction::South, Direction::East, Direction::West];
        assert(dirs@ =~= Direction::all());
        dirs
    }
}

/// Reversing a direction twice gives the direction back, and a direction is
/// never its own reverse.
pub proof fn lemma_reverse_involutive(dir: Direction)
    ensures
        dir.reversed().reversed() == dir,
        dir.reversed() != dir,
{
}

} // verus!
