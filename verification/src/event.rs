//! Commands of players and the events that the core derives from them.

use vstd::prelude::*;
use crate::types::{ZInt, MapPos, MovePoints, PlayerId, UnitId};
use crate::unit::{UnitTypeId, ReactionFireMode};

verus! {

/// Whether an attack is made in the attacker's turn or as a reaction.
#[derive(Clone, Copy, Debug, PartialEq, Eq, Structural)]
pub enum FireMode {
    Active,
    Reactive,
}

/// How a unit moves: fast, or carefully at double cost.
#[derive(Clone, Copy, Debug, PartialEq, Eq, Structural)]
pub enum MoveMode {
    Fast,
    Hunt,
}

/// What a player asks the core to do.
#[derive(Clone, Debug, PartialEq, Eq)]
pub enum Command {
    Move { unit_id: UnitId, path: Vec<MapPos>, mode: MoveMode },
    EndTurn,
    CreateUnit { pos: MapPos },
    AttackUnit { attacker_id: UnitId, defender_id: UnitId },
    LoadUnit { transporter_id: UnitId, passenger_id: UnitId },
    UnloadUnit { transporter_id: UnitId, passenger_id: UnitId, pos: MapPos },
    SetReactionFireMode { unit_id: UnitId, mode: ReactionFireMode },
}

/// What a player may know of a unit.
#[derive(Clone, Copy, Debug, PartialEq, Eq, Structural)]
pub struct UnitInfo {
    pub unit_id: UnitId,
    pub pos: MapPos,
    pub type_id: UnitTypeId,
    pub player_id: PlayerId,
    pub passenger_id: Option<UnitId>,
}

/// The outcome of one attack.
#[derive(Clone, Copy, Debug, PartialEq, Eq, Structural)]
pub struct AttackInfo {
    pub attacker_id: Option<UnitId>,
    pub defender_id: UnitId,
    pub mode: FireMode,
    pub killed: ZInt,
    pub suppression: ZInt,
    pub remove_move_points: bool,
    pub is_ambush: bool,
}

/// A change of the game state.
#[derive(Clone, Copy, Debug, PartialEq, Eq, Structural)]
pub enum CoreEvent {
    Move { unit_id: UnitId, from: MapPos, to: MapPos, mode: MoveMode, cost: MovePoints },
    EndTurn { old_id: PlayerId, new_id: PlayerId },
    CreateUnit { unit_info: UnitInfo },
    AttackUnit { attack_info: AttackInfo },
    ShowUnit { unit_info: UnitInfo },
    HideUnit { unit_id: UnitId },
    LoadUnit { transporter_id: UnitId, passenger_id: UnitId },
    UnloadUnit { unit_info: UnitInfo, transporter_id: UnitId },
    SetReactionFireMode { unit_id: UnitId, mode: ReactionFireMode },
}

} // verus!

verus! {

/// What a player may know of `u`.
pub open spec fn info_of(u: crate::unit::Unit) -> UnitInfo {
    UnitInfo {
        unit_id: u.id,
        pos: u.pos,
        type_id: u.type_id,
        player_id: u.player_id,
        passenger_id: u.passenger_id,
    }
}

/// What a player may know of `unit`.
pub fn unit_to_info(unit: &crate::unit::Unit) -> (info: UnitInfo)
    ensures
        info == info_of(*unit),
{
    UnitInfo {
        unit_id: unit.id,
        pos: unit.pos,
        type_id: unit.type_id,
        player_id: unit.player_id,
        passenger_id: unit.passenger_id,
    }
}

} // verus!
