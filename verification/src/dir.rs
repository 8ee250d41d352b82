//! The six directions of the hexagonal grid and neighbourhood of tiles.

use vstd::prelude::*;
use crate::types::{ZInt, MapPos, steps_fit};

verus! {

/// One of the six directions from a hexagonal tile to its neighbours.
#[derive(Clone, Copy, Debug, PartialEq, Eq, Structural)]
pub enum Dir {
    SouthEast,
    East,
    NorthEast,
    NorthWest,
    West,
    SouthWest,
}

/// The number of a direction, `0` to `5`.
pub open spec fn dir_index(d: Dir) -> int {
    match d {
        Dir::SouthEast => 0,
        Dir::East => 1,
        Dir::NorthEast => 2,
        Dir::NorthWest => 3,
        Dir::West => 4,
        Dir::SouthWest => 5,
    }
}

/// The direction with number `n` (meaningful for `0 <= n < 6`).
pub open spec fn dir_of_index(n: int) -> Dir {
    if n == 0 {
        Dir::SouthEast
    } else if n == 1 {
        Dir::East
    } else if n == 2 {
        Dir::NorthEast
    } else if n == 3 {
        Dir::NorthWest
    } else if n == 4 {
        Dir::West
    } else {
        Dir::SouthWest
    }
}

/// The row `y` is odd.
pub open spec fn is_odd_row(y: int) -> bool {
    y % 2 != 0
}

/// Column offset from a tile in row `y` to its neighbour in direction `d`.
pub open spec fn diff_x(y: int, d: Dir) -> int {
    if !is_odd_row(y) {
        match d {
            Dir::SouthEast => 1,
            Dir::East => 1,
            Dir::NorthEast => 1,
            Dir::NorthWest => 0,
            Dir::West => -1,
            Dir::SouthWest => 0,
        }
    } else {
        match d {
            Dir::SouthEast => 0,
            Dir::East => 1,
            Dir::NorthEast => 0,
            Dir::NorthWest => -1,
            Dir::West => -1,
            Dir::SouthWest => -1,
        }
    }
}

/// Row offset from a tile to its neighbour in direction `d`.
pub open spec fn diff_y(d: Dir) -> int {
    match d {
        Dir::SouthEast => -1,
        Dir::East => 0,
        Dir::NorthEast => 1,
        Dir::NorthWest => 1,
        Dir::West => 0,
        Dir::SouthWest => -1,
    }
}

/// The neighbour of `p` in direction `d`.
pub open spec fn neighbour(p: MapPos, d: Dir) -> MapPos {
    MapPos { x: (p.x + diff_x(p.y as int, d)) as i32, y: (p.y + diff_y(d)) as i32 }
}

/// `q` is one of the six neighbours of `p`.
pub open spec fn is_neighbour(p: MapPos, q: MapPos) -> bool {
    exists|d: Dir| neighbour(p, d) == q
}

impl Dir {
    /// The direction with the given number; the numbers `0` to `5` stand
    /// for `SouthEast`, `East`, `NorthEast`, `NorthWest`, `West`, `SouthWest`.
    pub fn from_int(n: ZInt) -> (d: Dir)
        requires
            0 <= n < 6,
        ensures
            d == dir_of_index(n as int),
            dir_index(d) == n,
    {
        if n == 0 {
            Dir::SouthEast
        } else if n == 1 {
            Dir::East
        } else if n == 2 {
            Dir::NorthEast
        } else if n == 3 {
            Dir::NorthWest
        } else if n == 4 {
            Dir::West
        } else {
            Dir::SouthWest
        }
    }

    /// The number of this direction.
    pub fn to_int(&self) -> (n: ZInt)
        ensures
            n == dir_index(*self),
            0 <= n < 6,
            dir_of_index(n as int) == *self,
    {
        match *self {
            Dir::SouthEast => 0,
            Dir::East => 1,
            Dir::NorthEast => 2,
            Dir::NorthWest => 3,
            Dir::West => 4,
            Dir::SouthWest => 5,
        }
    }

    /// The neighbour of `pos` in direction `dir`.
    pub fn get_neighbour_pos(pos: &MapPos, dir: &Dir) -> (r: MapPos)
        requires
            steps_fit(*pos),
        ensures
            r == neighbour(*pos, *dir),
    {
        let odd = pos.y % 2 != 0;
        let (dx, dy): (ZInt, ZInt) = if !odd {
            match *dir {
                Dir::SouthEast => (1, -1),
                Dir::East => (1, 0),
                Dir::NorthEast => (1, 1),
                Dir::NorthWest => (0, 1),
                Dir::West => (-1, 0),
                Dir::SouthWest => (0, -1),
            }
        } else {
            match *dir {
                Dir::SouthEast => (0, -1),
                Dir::East => (1, 0),
                Dir::NorthEast => (0, 1),
                Dir::NorthWest => (-1, 1),
                Dir::West => (-1, 0),
                Dir::SouthWest => (-1, -1),
            }
        };
        MapPos { x: pos.x + dx, y: pos.y + dy }
    }

    /// The direction in which `to` lies as a neighbour of `from`.
    pub fn get_dir_from_to(from: &MapPos, to: &MapPos) -> (d: Dir)
        requires
            steps_fit(*from),
            is_neighbour(*from, *to),
        ensures
            neighbour(*from, d) == *to,
    {
        let mut i: ZInt = 0;
        while i < 6
            invariant
                0 <= i <= 6,
                steps_fit(*from),
                forall|j: int| 0 <= j < i ==> neighbour(*from, #[trigger] dir_of_index(j)) != *to,
            decreases 6 - i,
        {
            let dir = Dir::from_int(i);
            let pos = Dir::get_neighbour_pos(from, &dir);
            if pos == *to {
                return dir;
            }
            i = i + 1;
        }
        proof {
            let w = choose|w: Dir| neighbour(*from, w) == *to;
            assert(dir_of_index(dir_index(w)) == w);
        }
        Dir::SouthEast
    }
}

/// Iterator over the six directions in the order of their numbers.
pub struct DirIter {
    index: ZInt,
}

impl DirIter {
    /// The number of directions this iterator has yielded.
    pub closed spec fn yielded(&self) -> int {
        self.index as int
    }

    #[verifier::type_invariant]
    closed spec fn inv(&self) -> bool {
        0 <= self.index <= 6
    }

    /// Gives the next direction, or `None` after all six were given.
    pub fn next(&mut self) -> (r: Option<Dir>)
        ensures
            old(self).yielded() < 6 ==> r == Some(dir_of_index(old(self).yielded()))
                && final(self).yielded() == old(self).yielded() + 1,
            old(self).yielded() >= 6 ==> r.is_none() && final(self).yielded() == old(self).yielded(),
            0 <= final(self).yielded() <= 6,
    {
        proof { use_type_invariant(&*self); }
        if self.index > 5 {
            None
        } else {
            let d = Dir::from_int(self.index);
            self.index = self.index + 1;
            Some(d)
        }
    }
}

/// An iterator over all six directions, starting from `SouthEast`.
pub fn dirs() -> (it: DirIter)
    ensures
        it.yielded() == 0,
{
    DirIter { index: 0 }
}


/// The direction pointing back: `dir_index` shifted by three.
pub open spec fn opposite(d: Dir) -> Dir {
    match d {
        Dir::SouthEast => Dir::NorthWest,
        Dir::East => Dir::West,
        Dir::NorthEast => Dir::SouthWest,
        Dir::NorthWest => Dir::SouthEast,
        Dir::West => Dir::East,
        Dir::SouthWest => Dir::NorthEast,
    }
}

/// Law: stepping in a direction and then in the opposite one returns to
/// the start, so each tile is a neighbour of each of its neighbours.
pub proof fn lemma_neighbour_opposite(p: MapPos, d: Dir)
    requires
        steps_fit(p),
    ensures
        steps_fit(neighbour(p, d)) ==> neighbour(neighbour(p, d), opposite(d)) == p,
        steps_fit(neighbour(p, d)) ==> is_neighbour(neighbour(p, d), p),
{
    let y = p.y as int;
    assert((y + 1) % 2 != 0 <==> y % 2 == 0);
    assert((y - 1) % 2 != 0 <==> y % 2 == 0);
    if steps_fit(neighbour(p, d)) {
        assert(neighbour(neighbour(p, d), opposite(d)) == p);
    }
}

/// Law: distinct directions lead to distinct neighbours, so the direction
/// from a tile to a neighbour is unique and `get_dir_from_to` inverts
/// `get_neighbour_pos`.
pub proof fn lemma_neighbour_injective(p: MapPos, d1: Dir, d2: Dir)
    requires
        steps_fit(p),
        neighbour(p, d1) == neighbour(p, d2),
    ensures
        d1 == d2,
{
}

/// Law: numbering of directions is a bijection between the six
/// directions and `0..6`.
pub proof fn lemma_dir_index_roundtrip(d: Dir, n: int)
    ensures
        dir_of_index(dir_index(d)) == d,
        0 <= dir_index(d) < 6,
        0 <= n < 6 ==> dir_index(dir_of_index(n)) == n,
{
}
} // verus!
