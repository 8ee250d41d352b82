//! Basic value types shared by all modules.

use vstd::prelude::*;

verus! {

/// The integer type used for all game quantities.
pub type ZInt = i32;

/// Width and height of a rectangular area.
#[derive(Clone, Copy, Debug, PartialEq, Eq, Structural)]
pub struct Size2 {
    pub w: ZInt,
    pub h: ZInt,
}

/// Position of a hexagonal tile (offset coordinates: column `x`, row `y`).
#[derive(Clone, Copy, Debug, PartialEq, Eq, Structural)]
pub struct MapPos {
    pub x: ZInt,
    pub y: ZInt,
}

/// Bound on coordinates under which all position arithmetic of the
/// library stays within `i32`.
pub const COORD_LIMIT: i32 = 0x400_0000;

/// The coordinates of `p` lie within `COORD_LIMIT` in absolute value.
pub open spec fn coords_fit(p: MapPos) -> bool {
    -COORD_LIMIT <= p.x <= COORD_LIMIT && -COORD_LIMIT <= p.y <= COORD_LIMIT
}

/// Both coordinates of `p` can be moved by one step without overflow.
pub open spec fn steps_fit(p: MapPos) -> bool {
    i32::MIN < p.x < i32::MAX && i32::MIN < p.y < i32::MAX
}

/// Movement points of a unit or a cost of movement.
#[derive(Clone, Copy, Debug, PartialEq, Eq, Structural)]
pub struct MovePoints {
    pub n: ZInt,
}

/// Identifier of a player.
#[derive(Clone, Copy, Debug, PartialEq, Eq, Structural, Hash, PartialOrd, Ord)]
pub struct PlayerId {
    pub id: ZInt,
}

/// Identifier of a unit.
#[derive(Clone, Copy, Debug, PartialEq, Eq, Structural, Hash, PartialOrd, Ord)]
pub struct UnitId {
    pub id: ZInt,
}

} // verus!
