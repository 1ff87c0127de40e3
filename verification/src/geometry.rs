//! Sizes, coordinates and the four directions of the grid.

use vstd::prelude::*;

verus! {

/// The size of a grid, in cells.
#[derive(Debug, Clone, Copy, PartialEq, Eq, Structural)]
pub struct Geometry {
    pub width: usize,
    pub height: usize,
}

/// A position on the grid, counted from the top left corner.
#[derive(Debug, Clone, Copy, PartialEq, Eq, Structural)]
pub struct Coord {
    pub x: usize,
    pub y: usize,
}

/// One of the four directions in which a position has a neighbour.
#[derive(Debug, Clone, Copy, PartialEq, Eq, Structural)]
pub enum Direction {
    Up,
    Down,
    Left,
    Right,
}

impl Direction {
    /// The direction that points the other way.
    pub open spec fn reversed(self) -> Direction {
        match self {
            Direction::Up => Direction::Down,
            Direction::Down => Direction::Up,
            Direction::Left => Direction::Right,
            Direction::Right => Direction::Left,
        }
    }

    /// The change of `x` that one step in this direction makes.
    pub open spec fn dx(self) -> int {
        match self {
            Direction::Left => -1,
            Direction::Right => 1,
            _ => 0,
        }
    }

    /// The change of `y` that one step in this direction makes.
    pub open spec fn dy(self) -> int {
        match self {
            Direction::Up => -1,
            Direction::Down => 1,
            _ => 0,
        }
    }
}

/// The direction opposite to `dir`.
pub fn opposite(dir: &Direction) -> (r: Direction)
    ensures
        r == dir.reversed(),
{
    match *dir {
        Direction::Up => Direction::Down,
        Direction::Down => Direction::Up,
        Direction::Left => Direction::Right,
        Direction::Right => Direction::Left,
    }
}

/// Turning round twice gives the direction one started with, and a step
/// followed by a step the other way ends where it began.
pub proof fn lemma_opposite_involution(dir: Direction)
    ensures
        dir.reversed().reversed() == dir,
        dir.reversed() != dir,
        dir.dx() + dir.reversed().dx() == 0,
        dir.dy() + dir.reversed().dy() == 0,
{
}

} // verus!
