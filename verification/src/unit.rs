//! Units and the types of units and weapons.

use vstd::prelude::*;
use crate::types::{ZInt, MapPos, MovePoints, PlayerId, UnitId};

verus! {

/// Index of a unit type in the database.
#[derive(Clone, Copy, Debug, PartialEq, Eq, Structural, Hash, PartialOrd, Ord)]
pub struct UnitTypeId {
    pub id: ZInt,
}

/// Broad class of a unit type.
#[derive(Clone, Copy, Debug, PartialEq, Eq, Structural)]
pub enum UnitClass {
    Infantry,
    Vehicle,
}

/// Whether a unit fires at enemies moving in its sight.
#[derive(Clone, Copy, Debug, PartialEq, Eq, Structural)]
pub enum ReactionFireMode {
    Normal,
    HoldFire,
}

/// A unit on the map.
#[derive(Clone, Copy, Debug, PartialEq, Eq, Structural)]
pub struct Unit {
    pub id: UnitId,
    pub pos: MapPos,
    pub player_id: PlayerId,
    pub type_id: UnitTypeId,
    pub move_points: MovePoints,
    pub attack_points: ZInt,
    /// Known only to the unit's owner: `None` where the unit is seen
    /// with partial information.
    pub reactive_attack_points: Option<ZInt>,
    pub reaction_fire_mode: ReactionFireMode,
    pub count: ZInt,
    pub morale: ZInt,
    pub passenger_id: Option<UnitId>,
}

/// A kind of weapon.
#[derive(Clone, Debug)]
pub struct WeaponType {
    pub name: String,
    pub damage: ZInt,
    pub ap: ZInt,
    pub accuracy: ZInt,
    pub max_distance: ZInt,
    pub min_distance: ZInt,
    pub is_inderect: bool,
    pub reaction_fire: bool,
}

/// Index of a weapon type in the database.
#[derive(Clone, Copy, Debug, PartialEq, Eq, Structural)]
pub struct WeaponTypeId {
    pub id: ZInt,
}

/// A kind of unit.
#[derive(Clone, Debug)]
pub struct UnitType {
    pub name: String,
    pub class: UnitClass,
    pub count: ZInt,
    pub size: ZInt,
    pub armor: ZInt,
    pub toughness: ZInt,
    pub weapon_skill: ZInt,
    pub weapon_type_id: WeaponTypeId,
    pub move_points: MovePoints,
    pub attack_points: ZInt,
    pub reactive_attack_points: ZInt,
    pub los_range: ZInt,
    pub cover_los_range: ZInt,
    pub is_transporter: bool,
}

} // verus!
