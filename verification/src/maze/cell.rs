//! Cell values of a grid.

use vstd::prelude::*;

verus! {

/// Direction of a wall or path segment between two neighbouring cells.
#[derive(Debug, Clone, Copy, PartialEq, Eq, Structural)]
pub enum Orientation {
    Horizontal,
    Vertical,
}

/// Kinds of path cell.
#[derive(Debug, Clone, Copy, PartialEq, Eq, Structural)]
pub enum PathType {
    /// Part of the solution route, drawn along the given orientation.
    Route(Orientation),
    /// Open and untouched.
    Empty,
    /// Reached during traversal or solving.
    Visited,
    /// Where solving starts.
    Start,
    /// Where solving ends.
    Goal,
    /// The player.
    Pacman,
    /// An opponent.
    Phantom,
}

/// Kinds of wall cell.
#[derive(Debug, Clone, Copy, PartialEq, Eq, Structural)]
pub enum WallType {
    /// A solid wall.
    Wall,
    /// A wall highlighted by a generator as a candidate.
    Mark,
}

/// One cell of a grid: open path or wall.
#[derive(Debug, Clone, Copy, PartialEq, Eq, Structural)]
pub enum GridCell {
    Path(PathType),
    Wall(WallType),
}

impl GridCell {
    /// An open, untouched path cell.
    pub open spec fn spec_empty() -> GridCell {
        GridCell::Path(PathType::Empty)
    }

    /// An open, untouched path cell.
    #[verifier::when_used_as_spec(spec_empty)]
    pub fn empty() -> (r: GridCell)
        ensures
            r == GridCell::Path(PathType::Empty),
    {
        GridCell::Path(PathType::Empty)
    }

    /// A solid wall.
    pub open spec fn spec_wall() -> GridCell {
        GridCell::Wall(WallType::Wall)
    }

    /// A solid wall.
    #[verifier::when_used_as_spec(spec_wall)]
    pub fn wall() -> (r: GridCell)
        ensures
            r == GridCell::Wall(WallType::Wall),
    {
        GridCell::Wall(WallType::Wall)
    }

    /// A wall highlighted as a candidate.
    pub open spec fn spec_mark() -> GridCell {
        GridCell::Wall(WallType::Mark)
    }

    /// A wall highlighted as a candidate.
    #[verifier::when_used_as_spec(spec_mark)]
    pub fn mark() -> (r: GridCell)
        ensures
            r == GridCell::Wall(WallType::Mark),
    {
        GridCell::Wall(WallType::Mark)
    }

    /// The goal cell.
    pub open spec fn spec_goal() -> GridCell {
        GridCell::Path(PathType::Goal)
    }

    /// The goal cell.
    #[verifier::when_used_as_spec(spec_goal)]
    pub fn goal() -> (r: GridCell)
        ensures
            r == GridCell::Path(PathType::Goal),
    {
        GridCell::Path(PathType::Goal)
    }

    /// The start cell.
    pub open spec fn spec_start() -> GridCell {
        GridCell::Path(PathType::Start)
    }

    /// The start cell.
    #[verifier::when_used_as_spec(spec_start)]
    pub fn start() -> (r: GridCell)
        ensures
            r == GridCell::Path(PathType::Start),
    {
        GridCell::Path(PathType::Start)
    }

    /// A path cell that a traversal has reached.
    pub open spec fn spec_visited() -> GridCell {
        GridCell::Path(PathType::Visited)
    }

    /// A path cell that a traversal has reached.
    #[verifier::when_used_as_spec(spec_visited)]
    pub fn visited() -> (r: GridCell)
        ensures
            r == GridCell::Path(PathType::Visited),
    {
        GridCell::Path(PathType::Visited)
    }

    /// The cell the player stands on.
    pub open spec fn spec_pacman() -> GridCell {
        GridCell::Path(PathType::Pacman)
    }

    /// The cell the player stands on.
    #[verifier::when_used_as_spec(spec_pacman)]
    pub fn pacman() -> (r: GridCell)
        ensures
            r == GridCell::Path(PathType::Pacman),
    {
        GridCell::Path(PathType::Pacman)
    }

    /// Terminal columns that one rendered cell occupies.
    pub const CELL_WIDTH: u16 = 2;

    /// Whether the cell is a wall of either kind.
    pub open spec fn spec_is_wall(&self) -> bool {
        self is Wall
    }

    /// Whether the cell is a wall of either kind.
    #[verifier::when_used_as_spec(spec_is_wall)]
    pub fn is_wall(&self) -> (r: bool)
        ensures
            r == self.spec_is_wall(),
    {
        match self {
            GridCell::Wall(_) => true,
            GridCell::Path(_) => false,
        }
    }
}

} // verus!
