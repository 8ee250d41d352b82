//! The six directions of the hexagonal grid as the interface orders them.

use vstd::prelude::*;
use crate::types::ZInt;

verus! {

/// A direction on the screen's hexagonal grid.
#[derive(Clone, Copy, Debug, PartialEq, Eq, Structural)]
pub enum Dir {
    NorthEast,
    East,
    SouthEast,
    SouthWest,
    West,
    NorthWest,
}

/// The number of a direction, clockwise from north-east.
pub open spec fn dir_number(d: Dir) -> int {
    match d {
        Dir::NorthEast => 0,
        Dir::East => 1,
        Dir::SouthEast => 2,
        Dir::SouthWest => 3,
        Dir::West => 4,
        Dir::NorthWest => 5,
    }
}

impl Dir {
    /// The direction numbered `n`.
    pub fn from_int(n: ZInt) -> (d: Dir)
        requires
            0 <= n < 6,
        ensures
            dir_number(d) == n,
    {
        match n {
            0 => Dir::NorthEast,
            1 => Dir::East,
            2 => Dir::SouthEast,
            3 => Dir::SouthWest,
            4 => Dir::West,
            _ => Dir::NorthWest,
        }
    }

    /// The number of this direction.
    pub fn to_int(&self) -> (n: ZInt)
        ensures
            n == dir_number(*self),
    {
        match *self {
            Dir::NorthEast => 0,
            Dir::East => 1,
            Dir::SouthEast => 2,
            Dir::SouthWest => 3,
            Dir::West => 4,
            Dir::NorthWest => 5,
        }
    }
}

/// Law: numbering a direction and taking the direction of that number
/// gives the direction back, and every number from zero to five is the
/// number of exactly one direction.
pub proof fn lemma_dir_number_roundtrip(d: Dir, e: Dir)
    ensures
        0 <= dir_number(d) < 6,
        dir_number(d) == dir_number(e) ==> d == e,
{
}

/// The directions in order of their numbers.
pub struct DirIter {
    index: ZInt,
}

impl DirIter {
    /// How many directions have been handed out.
    pub closed spec fn position(&self) -> int {
        self.index as int
    }

    /// An iterator at the first direction.
    pub fn new() -> (it: DirIter)
        ensures
            it.position() == 0,
    {
        DirIter { index: 0 }
    }

    /// The next direction, or `None` after the sixth.
    pub fn next(&mut self) -> (r: Option<Dir>)
        requires
            0 <= old(self).position() <= 6,
        ensures
            old(self).position() < 6 ==> (r matches Some(d) && dir_number(d) == old(self).position()
                && final(self).position() == old(self).position() + 1),
            old(self).position() == 6 ==> r is None && final(self).position() == 6,
    {
        if self.index == 6 {
            None
        } else {
            let d = Dir::from_int(self.index);
            self.index = self.index + 1;
            Some(d)
        }
    }
}

} // verus!
