use vstd::prelude::*;

use crate::chooser::Chooser;

verus! {

/// Direction of pointer travel across the pixel grid.
#[derive(Clone, Copy, Debug, PartialEq, Eq, Structural, Hash)]
pub enum Direction {
    Up,
    Down,
    Left,
    Right,
}

impl Direction {
    /// Rotation by a quarter turn: the Left chooser turns counter-clockwise,
    /// the Right chooser clockwise.
    pub open spec fn spec_rotate(self, r: Chooser) -> Direction {
        match (self, r) {
            (Direction::Up, Chooser::Left) => Direction::Left,
            (Direction::Up, Chooser::Right) => Direction::Right,
            (Direction::Left, Chooser::Left) => Direction::Down,
            (Direction::Left, Chooser::Right) => Direction::Up,
            (Direction::Down, Chooser::Left) => Direction::Right,
            (Direction::Down, Chooser::Right) => Direction::Left,
            (Direction::Right, Chooser::Left) => Direction::Up,
            (Direction::Right, Chooser::Right) => Direction::Down,
        }
    }

    pub fn rotate(&self, r: Chooser) -> (d: Direction)
        ensures
            d == self.spec_rotate(r),
    {
        match (self, r) {
            (Direction::Up, Chooser::Left) => Direction::Left,
            (Direction::Up, Chooser::Right) => Direction::Right,
            (Direction::Left, Chooser::Left) => Direction::Down,
            (Direction::Left, Chooser::Right) => Direction::Up,
            (Direction::Down, Chooser::Left) => Direction::Right,
            (Direction::Down, Chooser::Right) => Direction::Left,
            (Direction::Right, Chooser::Left) => Direction::Up,
            (Direction::Right, Chooser::Right) => Direction::Down,
        }
    }

    /// One quarter turn clockwise.
    pub open spec fn spec_clockwise(self) -> Direction {
        self.spec_rotate(Chooser::Right)
    }

    pub fn clockwise(&self) -> (d: Direction)
        ensures
            d == self.spec_clockwise(),
    {
        self.rotate(Chooser::Right)
    }
}

} // verus!
