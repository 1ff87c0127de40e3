//! Where chance enters: the draws themselves, and what each draw decides.
//!
//! Every decision is a function of the numbers drawn, so that a run can be
//! replayed from its draws.

use crate::geometry::{Coord, Direction};
use crate::maze::{Maze, BIAS_RANGE};
use vstd::prelude::*;

verus! {

/// Calls `rand::random::<u64>()`, which hands out the next 64 bits of the
/// thread's generator. Nothing is claimed of the number.
#[verifier::external_body]
pub(crate) fn random_u64() -> (r: u64) {
    rand::random::<u64>()
}

/// Calls `rand::random::<u8>()`, which hands out 8 bits of the thread's
/// generator. Nothing is claimed of the number.
#[verifier::external_body]
pub(crate) fn random_u8() -> (r: u8) {
    rand::random::<u8>()
}

/// The numbers that one step of a generator may draw.
#[derive(Debug, Clone, Copy, PartialEq, Eq, Structural)]
pub struct Draws {
    /// Picks an item in a list.
    pub pick: u64,
    /// Decides between the vertical and the horizontal candidates.
    pub side: u64,
    /// Decides between the two axes at a corner.
    pub turn: u64,
    /// Decides between the two directions of an axis.
    pub coin: u8,
}

/// The share of `BIAS_RANGE` at which a draw of 64 bits falls: its 53 high bits.
pub open spec fn share(draw: u64) -> int {
    draw as int / 2048
}

/// Whether `draw` falls under a bias of `bias` out of `BIAS_RANGE`.
pub fn under_bias(draw: u64, bias: u64) -> (b: bool)
    ensures
        b == (share(draw) < bias),
        share(draw) < BIAS_RANGE,
{
    assert(draw >> 11 == draw / 2048) by (bit_vector);
    assert(draw >> 11 < 0x20_0000_0000_0000u64) by (bit_vector);
    (draw >> 11) < bias
}

/// The index that `draw` picks in a list of `len` items.
pub fn pick_index(draw: u64, len: usize) -> (i: usize)
    requires
        len > 0,
    ensures
        i == draw as int % len as int,
        i < len,
{
    (draw % (len as u64)) as usize
}

/// The side on which a coin falls: `first` for an even number, else `second`.
pub open spec fn flip(coin: u8, first: Direction, second: Direction) -> Direction {
    if coin % 2 == 0 {
        first
    } else {
        second
    }
}

/// The direction in which the wall at `w` is tried first.
///
/// A slot between an upper and a lower room goes up or down, one between a left
/// and a right room goes left or right, as the coin falls. A corner goes left or
/// right if `turn` falls under the bias, else up or down. A room has no
/// direction.
pub open spec fn spec_wall_direction(w: Coord, turn: u64, coin: u8, bias: int) -> Option<
    Direction,
> {
    if w.x % 2 == 0 && w.y % 2 == 1 {
        Some(flip(coin, Direction::Up, Direction::Down))
    } else if w.x % 2 == 1 && w.y % 2 == 0 {
        Some(flip(coin, Direction::Left, Direction::Right))
    } else if w.x % 2 == 1 && w.y % 2 == 1 {
        if share(turn) < bias {
            Some(flip(coin, Direction::Left, Direction::Right))
        } else {
            Some(flip(coin, Direction::Up, Direction::Down))
        }
    } else {
        None
    }
}

/// The side on which the coin falls.
fn toss(coin: u8, first: Direction, second: Direction) -> (d: Direction)
    ensures
        d == flip(coin, first, second),
{
    if coin % 2 == 0 {
        first
    } else {
        second
    }
}

/// The direction in which the wall at `w` is tried first, for the given draws.
pub fn wall_direction(w: &Coord, turn: u64, coin: u8, bias: u64) -> (d: Option<Direction>)
    ensures
        d == spec_wall_direction(*w, turn, coin, bias as int),
{
    if w.x % 2 == 0 && w.y % 2 == 1 {
        Some(toss(coin, Direction::Up, Direction::Down))
    } else if w.x % 2 == 1 && w.y % 2 == 0 {
        Some(toss(coin, Direction::Left, Direction::Right))
    } else if w.x % 2 == 1 && w.y % 2 == 1 {
        if under_bias(turn, bias) {
            Some(toss(coin, Direction::Left, Direction::Right))
        } else {
            Some(toss(coin, Direction::Up, Direction::Down))
        }
    } else {
        None
    }
}

impl Maze {
    /// A direction for the wall at `w`, drawn at random: see
    /// `spec_wall_direction`. A room draws nothing, a corner draws twice.
    pub fn get_random_wall_direction(&self, w: &Coord) -> (d: Option<Direction>)
        requires
            self.wf(),
        ensures
            exists|turn: u64, coin: u8| d == spec_wall_direction(*w, turn, coin, self@.bias),
    {
        let turn: u64 = if w.x % 2 == 1 && w.y % 2 == 1 {
            random_u64()
        } else {
            0
        };
        let coin: u8 = if w.x % 2 == 0 && w.y % 2 == 0 {
            0
        } else {
            random_u8()
        };
        wall_direction(w, turn, coin, self.vertical_bias())
    }
}

} // verus!
