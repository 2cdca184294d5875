//! The snake: where its head is, where it is heading, and how long it is.

use vstd::prelude::*;
use crate::field::{N2, N_POINTS};

verus! {

/// The four ways the snake can head.
#[derive(Copy, Clone, Debug, PartialEq, Eq, Structural)]
pub enum Direction {
    Up,
    Down,
    Left,
    Right,
}

impl Direction {
    /// The direction that points the other way.
    pub open spec fn opposite(self) -> Direction {
        match self {
            Direction::Up => Direction::Down,
            Direction::Down => Direction::Up,
            Direction::Left => Direction::Right,
            Direction::Right => Direction::Left,
        }
    }

    /// Whether `other` points exactly the other way.
    pub fn is_opposite(&self, other: &Self) -> (r: bool)
        ensures
            r == (*other == self.opposite()),
    {
        match (*self, *other) {
            (Direction::Up, Direction::Down) => true,
            (Direction::Down, Direction::Up) => true,
            (Direction::Left, Direction::Right) => true,
            (Direction::Right, Direction::Left) => true,
            _ => false,
        }
    }
}

/// The cell one step away from `position` in direction `d`: a row is twelve
/// cells long.
pub open spec fn step_from(position: int, d: Direction) -> int {
    match d {
        Direction::Up => position - 12,
        Direction::Down => position + 12,
        Direction::Left => position - 1,
        Direction::Right => position + 1,
    }
}

/// The direction after a request to turn: a request to reverse is ignored.
pub open spec fn turned(current: Direction, requested: Direction) -> Direction {
    if requested == current.opposite() {
        current
    } else {
        requested
    }
}

/// The cell on which a snake starts: row 6, column 6 of the twelve, right
/// beside the centre of the grid.
pub const START: usize = 78;

/// The snake, without its body: the grid keeps that.
pub struct Snake {
    direction: Direction,
    length: i32,
    position: usize,
}

impl Snake {
    /// Where the snake is heading.
    pub closed spec fn direction(&self) -> Direction {
        self.direction
    }

    /// How many cells the snake is long.
    pub closed spec fn length(&self) -> int {
        self.length as int
    }

    /// The cell of the head.
    pub closed spec fn position(&self) -> int {
        self.position as int
    }

    /// A snake of length two beside the centre of the grid, heading down.
    pub fn new() -> (r: Self)
        ensures
            r.direction() == Direction::Down,
            r.length() == 2,
            r.position() == START,
    {
        Snake { direction: Direction::Down, length: 2, position: N_POINTS / 2 + N2 / 2 }
    }

    /// Moves the head one step in the current direction. Nothing is checked
    /// against the grid here: the border catches a head that leaves the
    /// playable area.
    pub fn make_move(&mut self)
        requires
            0 <= step_from(old(self).position(), old(self).direction()) <= usize::MAX,
        ensures
            final(self).position() == step_from(old(self).position(), old(self).direction()),
            final(self).direction() == old(self).direction(),
            final(self).length() == old(self).length(),
    {
        match self.direction {
            Direction::Up => self.position -= N2,
            Direction::Down => self.position += N2,
            Direction::Left => self.position -= 1,
            Direction::Right => self.position += 1,
        }
    }

    /// Turns to `direction`, unless that would reverse the snake into its
    /// own neck.
    pub fn change_direction(&mut self, direction: Direction)
        ensures
            final(self).direction() == turned(old(self).direction(), direction),
            final(self).length() == old(self).length(),
            final(self).position() == old(self).position(),
    {
        if !self.direction.is_opposite(&direction) {
            self.direction = direction;
        }
    }

    /// Grows the snake by one segment.
    pub fn increase_length(&mut self)
        requires
            old(self).length() < i32::MAX,
        ensures
            final(self).length() == old(self).length() + 1,
            final(self).direction() == old(self).direction(),
            final(self).position() == old(self).position(),
    {
        self.length += 1;
    }

    /// Where the snake is heading.
    pub fn get_direction(&self) -> (r: Direction)
        ensures
            r == self.direction(),
    {
        self.direction
    }

    /// How many cells the snake is long.
    pub fn get_length(&self) -> (r: i32)
        ensures
            r == self.length(),
    {
        self.length
    }

    /// The cell of the head.
    pub fn get_position(&self) -> (r: usize)
        ensures
            r == self.position(),
    {
        self.position
    }
}

} // verus!
