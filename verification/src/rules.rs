//! The rules that commands must obey, and queries on units that the
//! interface asks of the core.

use vstd::prelude::*;
use crate::types::{ZInt, Size2, MapPos, PlayerId, UnitId, coords_fit};
use crate::unit::{Unit, UnitClass, UnitType};
use crate::db::Db;
use crate::map::{inboard, small_size, distance, hex_distance};
use crate::sight::Sight;
use crate::fow::{sight_fits, units_inboard, seen_from, sight_range};
use crate::state::{InternalState, has_unit, unit_of, unit_index, units_at_spec, ids_distinct,
    lemma_unit_index_unique};
use crate::event::{Command, FireMode, MoveMode};
use crate::pathfinder::{UNITS_LIMIT, cost_context, path_cost_spec, path_inboard, tile_cost,
    tile_cost_spec, lemma_tile_cost_bounds, lemma_path_cost_monotone};

verus! {

/// Why a command was refused.
#[derive(Clone, Copy, Debug, PartialEq, Eq, Structural)]
pub enum CommandError {
    TileIsOccupied,
    NotEnoughMovePoints,
    NotEnoughAttackPoints,
    NotEnoughReactiveAttackPoints,
    BadMorale,
    OutOfRange,
    TooClose,
    NoLos,
    BadTransporterClass,
    BadPassengerClass,
    TransporterIsNotEmpty,
    TransporterIsEmpty,
    TransporterIsTooFarAway,
    PassengerHasNotEnoughMovePoints,
    UnloadDistanceIsTooBig,
    DestinationTileIsNotEmpty,
    BadUnitId,
    BadTransporterId,
    BadPassengerId,
    BadAttackerId,
    BadDefenderId,
    BadPath,
}

/// The message for each refusal.
pub open spec fn error_text(e: CommandError) -> Seq<char> {
    match e {
        CommandError::TileIsOccupied => "Tile is occupied"@,
        CommandError::NotEnoughMovePoints => "Not enough move points"@,
        CommandError::NotEnoughAttackPoints => "No attack points"@,
        CommandError::NotEnoughReactiveAttackPoints => "No reactive attack points"@,
        CommandError::BadMorale => "Can`t attack when suppresset"@,
        CommandError::OutOfRange => "Out of range"@,
        CommandError::TooClose => "Too close"@,
        CommandError::NoLos => "No Line of Sight"@,
        CommandError::BadTransporterClass => "Bad transporter class"@,
        CommandError::BadPassengerClass => "Bad passenger class"@,
        CommandError::TransporterIsNotEmpty => "Transporter is not empty"@,
        CommandError::TransporterIsEmpty => "Transporter is empty"@,
        CommandError::TransporterIsTooFarAway => "Transporter is too far away"@,
        CommandError::PassengerHasNotEnoughMovePoints => "Passenger has not enough move points"@,
        CommandError::UnloadDistanceIsTooBig => "Unload pos it too far away"@,
        CommandError::DestinationTileIsNotEmpty => "Destination tile is not empty"@,
        CommandError::BadUnitId => "Bad unit id"@,
        CommandError::BadTransporterId => "Bad transporter id"@,
        CommandError::BadPassengerId => "Bad passenger id"@,
        CommandError::BadAttackerId => "Bad attacker id"@,
        CommandError::BadDefenderId => "Bad defender id"@,
        CommandError::BadPath => "Bad path"@,
    }
}

impl CommandError {
    /// The message for this refusal.
    pub fn to_str(&self) -> (s: &'static str)
        ensures
            s@ == error_text(*self),
    {
        match *self {
            CommandError::TileIsOccupied => "Tile is occupied",
            CommandError::NotEnoughMovePoints => "Not enough move points",
            CommandError::NotEnoughAttackPoints => "No attack points",
            CommandError::NotEnoughReactiveAttackPoints => "No reactive attack points",
            CommandError::BadMorale => "Can`t attack when suppresset",
            CommandError::OutOfRange => "Out of range",
            CommandError::TooClose => "Too close",
            CommandError::NoLos => "No Line of Sight",
            CommandError::BadTransporterClass => "Bad transporter class",
            CommandError::BadPassengerClass => "Bad passenger class",
            CommandError::TransporterIsNotEmpty => "Transporter is not empty",
            CommandError::TransporterIsEmpty => "Transporter is empty",
            CommandError::TransporterIsTooFarAway => "Transporter is too far away",
            CommandError::PassengerHasNotEnoughMovePoints => "Passenger has not enough move points",
            CommandError::UnloadDistanceIsTooBig => "Unload pos it too far away",
            CommandError::DestinationTileIsNotEmpty => "Destination tile is not empty",
            CommandError::BadUnitId => "Bad unit id",
            CommandError::BadTransporterId => "Bad transporter id",
            CommandError::BadPassengerId => "Bad passenger id",
            CommandError::BadAttackerId => "Bad attacker id",
            CommandError::BadDefenderId => "Bad defender id",
            CommandError::BadPath => "Bad path",
        }
    }
}

/// The factor by which a move mode multiplies move costs.
pub open spec fn cost_factor(mode: MoveMode) -> int {
    match mode {
        MoveMode::Fast => 1,
        MoveMode::Hunt => 2,
    }
}

/// The factor by which `mode` multiplies move costs.
pub fn move_cost_modifier(mode: &MoveMode) -> (n: ZInt)
    ensures
        n == cost_factor(*mode),
{
    match *mode {
        MoveMode::Fast => 1,
        MoveMode::Hunt => 2,
    }
}

/// Morale below which a unit refuses to attack.
pub const MINIMAL_OK_MORALE: ZInt = 50;

/// Whether a unit of type `unit_type` on `from` has a line of sight to `to`.
pub fn los(sight: &Sight, unit_type: &UnitType, from: &MapPos, to: &MapPos) -> (b: bool)
    requires
        sight.wf(),
        sight.covers(unit_type.los_range as int),
        inboard(sight.spec_size(), *from),
    ensures
        inboard(sight.spec_size(), *to) ==> b == seen_from(*sight, unit_type.los_range as int, *from, *to),
        !inboard(sight.spec_size(), *to) ==> b == (*from == *to),
        *from == *to ==> b,
        b ==> *from == *to || (inboard(sight.spec_size(), *to) && hex_distance(*from, *to) <= unit_type.los_range),
{
    if *from == *to {
        return true;
    }
    let size = sight.size();
    if !(to.x >= 0 && to.y >= 0 && to.x < size.w && to.y < size.h) {
        return false;
    }
    sight.can_see(unit_type.los_range, from, to)
}

/// What the checks of commands need of the state: a consistent database,
/// state and sight table, all units on a small map, and a bounded number
/// of units whose reactive attack points are known.
pub open spec fn rules_context(db: Db, state: InternalState, sight: Sight) -> bool {
    &&& db.wf()
    &&& state.wf(db)
    &&& small_size(state.spec_map().spec_size())
    &&& sight_fits(db, sight, state.spec_map().spec_size())
    &&& units_inboard(state.spec_units(), state.spec_map().spec_size())
    &&& state.spec_units().len() <= UNITS_LIMIT
    &&& forall|i: int| 0 <= i < state.spec_units().len()
        ==> (#[trigger] state.spec_units()[i]).reactive_attack_points is Some
}

/// The outcome of checking an attack by `attacker_id` on `defender_id`:
/// both must exist; the attacker needs a point of the kind `mode` uses,
/// enough morale, the defender within its weapon's range and in its
/// sight; the first check that fails names the refusal.
pub open spec fn attack_check(
    db: Db,
    units: Seq<Unit>,
    sight: Sight,
    attacker_id: UnitId,
    defender_id: UnitId,
    mode: FireMode,
) -> Result<(), CommandError> {
    if !has_unit(units, attacker_id) {
        Err(CommandError::BadAttackerId)
    } else if !has_unit(units, defender_id) {
        Err(CommandError::BadDefenderId)
    } else {
        let attacker = unit_of(units, attacker_id);
        let defender = unit_of(units, defender_id);
        let weapon = db.spec_weapon_of(attacker.type_id);
        let d = hex_distance(attacker.pos, defender.pos);
        if mode == FireMode::Active && attacker.attack_points <= 0 {
            Err(CommandError::NotEnoughAttackPoints)
        } else if mode == FireMode::Reactive && attacker.reactive_attack_points->0 <= 0 {
            Err(CommandError::NotEnoughReactiveAttackPoints)
        } else if attacker.morale < MINIMAL_OK_MORALE {
            Err(CommandError::BadMorale)
        } else if d > weapon.max_distance {
            Err(CommandError::OutOfRange)
        } else if d < weapon.min_distance {
            Err(CommandError::TooClose)
        } else if !seen_from(sight, sight_range(db, attacker), attacker.pos, defender.pos) {
            Err(CommandError::NoLos)
        } else {
            Ok(())
        }
    }
}

/// Facts on the units of a state in `rules_context`.
proof fn lemma_unit_facts(db: Db, state: InternalState, sight: Sight, id: UnitId)
    requires
        rules_context(db, state, sight),
        has_unit(state.spec_units(), id),
    ensures
        inboard(state.spec_map().spec_size(), unit_of(state.spec_units(), id).pos),
        coords_fit(unit_of(state.spec_units(), id).pos),
        db.valid_unit_type_id(unit_of(state.spec_units(), id).type_id),
        unit_of(state.spec_units(), id).reactive_attack_points is Some,
        sight.covers(sight_range(db, unit_of(state.spec_units(), id))),
        0 <= db.spec_unit_type(unit_of(state.spec_units(), id).type_id).weapon_type_id.id
            < db.weapon_types().len(),
{
    let i = unit_index(state.spec_units(), id);
    assert(0 <= i < state.spec_units().len());
    let t = state.spec_units()[i].type_id;
    assert(db.valid_unit_type_id(t));
    assert(db.unit_types()[t.id as int] == db.spec_unit_type(t));
}

/// Whether `attacker_id` may attack `defender_id` in mode `mode`.
pub fn check_attack(
    db: &Db,
    state: &InternalState,
    sight: &Sight,
    attacker_id: &UnitId,
    defender_id: &UnitId,
    fire_mode: &FireMode,
) -> (r: Result<(), CommandError>)
    requires
        rules_context(*db, *state, *sight),
    ensures
        r == attack_check(*db, state.spec_units(), *sight, *attacker_id, *defender_id, *fire_mode),
{
    if state.get_unit(*attacker_id).is_none() {
        return Err(CommandError::BadAttackerId);
    }
    if state.get_unit(*defender_id).is_none() {
        return Err(CommandError::BadDefenderId);
    }
    let attacker = state.unit(*attacker_id);
    let defender = state.unit(*defender_id);
    proof {
        lemma_unit_facts(*db, *state, *sight, *attacker_id);
        lemma_unit_facts(*db, *state, *sight, *defender_id);
    }
    let reactive_attack_points = attacker.reactive_attack_points.unwrap();
    match *fire_mode {
        FireMode::Active => if attacker.attack_points <= 0 {
            return Err(CommandError::NotEnoughAttackPoints);
        },
        FireMode::Reactive => if reactive_attack_points <= 0 {
            return Err(CommandError::NotEnoughReactiveAttackPoints);
        },
    }
    if attacker.morale < MINIMAL_OK_MORALE {
        return Err(CommandError::BadMorale);
    }
    let attacker_type = db.unit_type(&attacker.type_id);
    let weapon_type = db.weapon_type(&attacker_type.weapon_type_id);
    proof { crate::map::lemma_coords_fit_distance(attacker.pos, defender.pos); }
    if distance(&attacker.pos, &defender.pos) > weapon_type.max_distance {
        return Err(CommandError::OutOfRange);
    }
    if distance(&attacker.pos, &defender.pos) < weapon_type.min_distance {
        return Err(CommandError::TooClose);
    }
    if !los(sight, attacker_type, &attacker.pos, &defender.pos) {
        return Err(CommandError::NoLos);
    }
    Ok(())
}

/// Some unit stands on `pos`.
pub open spec fn occupied(units: Seq<Unit>, pos: MapPos) -> bool {
    units_at_spec(units, pos).len() > 0
}

/// Some tile of `path` is occupied.
pub open spec fn path_blocked(units: Seq<Unit>, path: Seq<MapPos>) -> bool {
    exists|i: int| 0 <= i < path.len() && occupied(units, #[trigger] path[i])
}

/// All tiles of `path` lie on the map of `size`.
pub open spec fn path_on_map(size: Size2, path: Seq<MapPos>) -> bool {
    forall|i: int| 0 <= i < path.len() ==> inboard(size, #[trigger] path[i])
}

/// The positions a command names all lie on the map of `size`.
pub open spec fn command_on_map(size: Size2, command: Command) -> bool {
    match command {
        Command::Move { path, .. } => path_on_map(size, path@),
        Command::CreateUnit { pos } => inboard(size, pos),
        Command::UnloadUnit { pos, .. } => inboard(size, pos),
        _ => true,
    }
}

/// Whether the positions `command` names all lie on the map of `size`.
pub fn is_command_on_map(size: &Size2, command: &Command) -> (b: bool)
    ensures
        b == command_on_map(*size, *command),
{
    match command {
        Command::Move { path, .. } => {
            let mut i: usize = 0;
            while i < path.len()
                invariant
                    command_on_map(*size, *command) == path_on_map(*size, path@),
                    0 <= i <= path@.len(),
                    forall|k: int| 0 <= k < i ==> inboard(*size, #[trigger] path@[k]),
                decreases path@.len() - i,
            {
                let p = path[i];
                if !(p.x >= 0 && p.y >= 0 && p.x < size.w && p.y < size.h) {
                    assert(!inboard(*size, path@[i as int]));
                    return false;
                }
                i = i + 1;
            }
            assert(path_on_map(*size, path@));
            true
        },
        Command::CreateUnit { pos } => pos.x >= 0 && pos.y >= 0 && pos.x < size.w && pos.y < size.h,
        Command::UnloadUnit { pos, .. } => pos.x >= 0 && pos.y >= 0 && pos.x < size.w && pos.y < size.h,
        _ => true,
    }
}

/// The outcome of checking `command` against `state`: the first rule it
/// breaks, or `Ok`.
///
/// A new unit needs a free tile. A move needs an existing unit, a path
/// of free tiles and enough move points for the path's cost, doubled
/// when hunting. An attack is checked as an active attack. A load needs
/// an existing empty transporter next to (or on) an existing infantry
/// passenger with move points left; an unload an existing transporter
/// with a passenger and a free tile next to it. A change of reaction
/// fire mode needs an existing unit. The end of a turn is always
/// accepted.
pub open spec fn command_check(db: Db, state: InternalState, sight: Sight, command: Command) -> Result<
    (),
    CommandError,
> {
    let units = state.spec_units();
    match command {
        Command::EndTurn => Ok(()),
        Command::CreateUnit { pos } => if occupied(units, pos) {
            Err(CommandError::TileIsOccupied)
        } else {
            Ok(())
        },
        Command::Move { unit_id, path, mode } => {
            let unit = unit_of(units, unit_id);
            if !has_unit(units, unit_id) {
                Err(CommandError::BadUnitId)
            } else if path_blocked(units, path@) {
                Err(CommandError::BadPath)
            } else if path_cost_spec(db, state, unit, path@) * cost_factor(mode) > unit.move_points.n {
                Err(CommandError::NotEnoughMovePoints)
            } else {
                Ok(())
            }
        },
        Command::AttackUnit { attacker_id, defender_id } => attack_check(
            db,
            units,
            sight,
            attacker_id,
            defender_id,
            FireMode::Active,
        ),
        Command::LoadUnit { transporter_id, passenger_id } => {
            let transporter = unit_of(units, transporter_id);
            let passenger = unit_of(units, passenger_id);
            if !has_unit(units, transporter_id) {
                Err(CommandError::BadTransporterId)
            } else if !has_unit(units, passenger_id) {
                Err(CommandError::BadPassengerId)
            } else if !db.spec_unit_type(transporter.type_id).is_transporter {
                Err(CommandError::BadTransporterClass)
            } else if db.spec_unit_type(passenger.type_id).class != UnitClass::Infantry {
                Err(CommandError::BadPassengerClass)
            } else if transporter.passenger_id is Some {
                Err(CommandError::TransporterIsNotEmpty)
            } else if hex_distance(transporter.pos, passenger.pos) > 1 {
                Err(CommandError::TransporterIsTooFarAway)
            } else if passenger.move_points.n == 0 {
                Err(CommandError::PassengerHasNotEnoughMovePoints)
            } else {
                Ok(())
            }
        },
        Command::UnloadUnit { transporter_id, passenger_id, pos } => {
            let transporter = unit_of(units, transporter_id);
            if !has_unit(units, transporter_id) {
                Err(CommandError::BadTransporterId)
            } else if !has_unit(units, passenger_id) {
                Err(CommandError::BadPassengerId)
            } else if !db.spec_unit_type(transporter.type_id).is_transporter {
                Err(CommandError::BadTransporterClass)
            } else if hex_distance(transporter.pos, pos) > 1 {
                Err(CommandError::UnloadDistanceIsTooBig)
            } else if transporter.passenger_id is None {
                Err(CommandError::TransporterIsEmpty)
            } else if occupied(units, pos) {
                Err(CommandError::DestinationTileIsNotEmpty)
            } else {
                Ok(())
            }
        },
        Command::SetReactionFireMode { unit_id, .. } => if !has_unit(units, unit_id) {
            Err(CommandError::BadUnitId)
        } else {
            Ok(())
        },
    }
}

/// Whether `unit` can walk `path` in mode `mode`: `NotEnoughMovePoints`
/// where the path costs more than its move points.
fn check_path_cost(db: &Db, state: &InternalState, unit: &Unit, path: &Vec<MapPos>, mode: &MoveMode)
    -> (r: Result<(), CommandError>)
    requires
        cost_context(*db, *state, *unit),
        path_inboard(*state, path@),
    ensures
        r == (if path_cost_spec(*db, *state, *unit, path@) * cost_factor(*mode) <= unit.move_points.n {
            Ok::<(), CommandError>(())
        } else {
            Err(CommandError::NotEnoughMovePoints)
        }),
{
    let modifier: i64 = move_cost_modifier(mode) as i64;
    let mut cost: i64 = 0;
    let mut i: usize = 0;
    while i < path.len()
        invariant
            cost_context(*db, *state, *unit),
            path_inboard(*state, path@),
            modifier == cost_factor(*mode),
            0 <= i <= path@.len(),
            cost == path_cost_spec(*db, *state, *unit, path@.take(i as int)) * modifier,
            0 <= cost,
            i > 0 ==> cost <= unit.move_points.n,
        decreases path@.len() - i,
    {
        proof {
            assert(path@.take(i + 1).drop_last() == path@.take(i as int));
            assert(path@.take(i + 1).last() == path@[i as int]);
            lemma_tile_cost_bounds(*db, *state, *unit, path@[i as int]);
        }
        let c = tile_cost(db, state, unit, &path[i]);
        cost = cost + c.n as i64 * modifier;
        if cost > unit.move_points.n as i64 {
            proof {
                lemma_path_cost_monotone(*db, *state, *unit, path@, i + 1, path@.len() as int);
                assert(path@.take(path@.len() as int) == path@);
            }
            return Err(CommandError::NotEnoughMovePoints);
        }
        i = i + 1;
    }
    proof { assert(path@.take(path@.len() as int) == path@); }
    if cost > unit.move_points.n as i64 {
        return Err(CommandError::NotEnoughMovePoints);
    }
    Ok(())
}

/// The first tile of `path` that some unit stands on, if any.
fn first_occupied(state: &InternalState, path: &Vec<MapPos>) -> (r: bool)
    ensures
        r == path_blocked(state.spec_units(), path@),
{
    let mut i: usize = 0;
    while i < path.len()
        invariant
            0 <= i <= path@.len(),
            forall|j: int| 0 <= j < i ==> !occupied(state.spec_units(), #[trigger] path@[j]),
        decreases path@.len() - i,
    {
        if state.is_tile_occupied(&path[i]) {
            return true;
        }
        i = i + 1;
    }
    false
}

/// Whether `command` may be carried out in `state`.
pub fn check_command(db: &Db, state: &InternalState, sight: &Sight, command: &Command)
    -> (r: Result<(), CommandError>)
    requires
        rules_context(*db, *state, *sight),
        *command is Move ==> command_on_map(state.spec_map().spec_size(), *command),
        *command matches Command::UnloadUnit { transporter_id, pos, .. } ==> (has_unit(state.spec_units(), transporter_id)
            ==> crate::map::distance_fits(unit_of(state.spec_units(), transporter_id).pos, pos)),
    ensures
        r == command_check(*db, *state, *sight, *command),
{
    match command {
        Command::EndTurn => Ok(()),
        Command::CreateUnit { pos } => {
            if state.is_tile_occupied(pos) {
                Err(CommandError::TileIsOccupied)
            } else {
                Ok(())
            }
        },
        Command::Move { unit_id, path, mode } => {
            if state.get_unit(*unit_id).is_none() {
                return Err(CommandError::BadUnitId);
            }
            if first_occupied(state, path) {
                return Err(CommandError::BadPath);
            }
            let unit = state.unit(*unit_id);
            proof { lemma_unit_facts(*db, *state, *sight, *unit_id); }
            check_path_cost(db, state, &unit, path, mode)
        },
        Command::AttackUnit { attacker_id, defender_id } => {
            check_attack(db, state, sight, attacker_id, defender_id, &FireMode::Active)
        },
        Command::LoadUnit { transporter_id, passenger_id } => {
            if state.get_unit(*transporter_id).is_none() {
                return Err(CommandError::BadTransporterId);
            }
            if state.get_unit(*passenger_id).is_none() {
                return Err(CommandError::BadPassengerId);
            }
            let passenger = state.unit(*passenger_id);
            let pos = passenger.pos;
            let transporter = state.unit(*transporter_id);
            proof {
                lemma_unit_facts(*db, *state, *sight, *transporter_id);
                lemma_unit_facts(*db, *state, *sight, *passenger_id);
            }
            if !db.unit_type(&transporter.type_id).is_transporter {
                return Err(CommandError::BadTransporterClass);
            }
            match db.unit_type(&passenger.type_id).class {
                UnitClass::Infantry => {},
                _ => {
                    return Err(CommandError::BadPassengerClass);
                },
            }
            if transporter.passenger_id.is_some() {
                return Err(CommandError::TransporterIsNotEmpty);
            }
            proof { crate::map::lemma_coords_fit_distance(transporter.pos, pos); }
            if distance(&transporter.pos, &pos) > 1 {
                return Err(CommandError::TransporterIsTooFarAway);
            }
            if passenger.move_points.n == 0 {
                return Err(CommandError::PassengerHasNotEnoughMovePoints);
            }
            Ok(())
        },
        Command::UnloadUnit { transporter_id, passenger_id, pos } => {
            if state.get_unit(*transporter_id).is_none() {
                return Err(CommandError::BadTransporterId);
            }
            if state.get_unit(*passenger_id).is_none() {
                return Err(CommandError::BadPassengerId);
            }
            let transporter = state.unit(*transporter_id);
            proof {
                lemma_unit_facts(*db, *state, *sight, *transporter_id);
            }
            if !db.unit_type(&transporter.type_id).is_transporter {
                return Err(CommandError::BadTransporterClass);
            }
            if distance(&transporter.pos, pos) > 1 {
                return Err(CommandError::UnloadDistanceIsTooBig);
            }
            if transporter.passenger_id.is_none() {
                return Err(CommandError::TransporterIsEmpty);
            }
            if state.is_tile_occupied(pos) {
                return Err(CommandError::DestinationTileIsNotEmpty);
            }
            Ok(())
        },
        Command::SetReactionFireMode { unit_id, .. } => {
            if state.get_unit(*unit_id).is_none() {
                Err(CommandError::BadUnitId)
            } else {
                Ok(())
            }
        },
    }
}

/// The id of the last transporter among `units`, if any.
pub open spec fn last_transporter(db: Db, units: Seq<Unit>) -> Option<UnitId>
    decreases units.len(),
{
    if units.len() == 0 {
        None
    } else if db.spec_unit_type(units.last().type_id).is_transporter {
        Some(units.last().id)
    } else {
        last_transporter(db, units.drop_last())
    }
}

/// The id of the last transporter among `units`, if any.
pub fn find_transporter_id(db: &Db, units: &Vec<Unit>) -> (r: Option<UnitId>)
    requires
        forall|i: int| 0 <= i < units@.len() ==> db.valid_unit_type_id(#[trigger] units@[i].type_id),
    ensures
        r == last_transporter(*db, units@),
{
    let mut transporter_id: Option<UnitId> = None;
    let mut i: usize = 0;
    while i < units.len()
        invariant
            0 <= i <= units@.len(),
            forall|k: int| 0 <= k < units@.len() ==> db.valid_unit_type_id(#[trigger] units@[k].type_id),
            transporter_id == last_transporter(*db, units@.take(i as int)),
        decreases units@.len() - i,
    {
        assert(units@.take(i + 1).drop_last() == units@.take(i as int));
        let unit = units[i];
        let unit_type = db.unit_type(&unit.type_id);
        if unit_type.is_transporter {
            transporter_id = Some(unit.id);
        }
        i = i + 1;
    }
    assert(units@.take(units@.len() as int) == units@);
    transporter_id
}

/// Several units share a tile only as a transporter and its passenger:
/// there is a transporter among them, and every other one is the
/// passenger of the last transporter.
pub open spec fn stack_ok(db: Db, units: Seq<Unit>, here: Seq<Unit>) -> bool {
    here.len() > 1 ==> {
        &&& last_transporter(db, here) is Some
        &&& has_unit(units, last_transporter(db, here)->0)
        &&& forall|i: int| 0 <= i < here.len() ==> (#[trigger] here[i]).id == last_transporter(db, here)->0
            || unit_of(units, last_transporter(db, here)->0).passenger_id == Some(here[i].id)
    }
}

/// The unit a click on `pos` selects: the only unit there, the
/// transporter where it carries the other, or none.
pub open spec fn unit_id_at(db: Db, units: Seq<Unit>, pos: MapPos) -> Option<UnitId> {
    let here = units_at_spec(units, pos);
    if here.len() == 0 {
        None
    } else if here.len() == 1 {
        Some(here[0].id)
    } else {
        last_transporter(db, here)
    }
}

/// Every unit of `units_at_spec(units, pos)` is one of `units`.
proof fn lemma_units_at_members(units: Seq<Unit>, pos: MapPos)
    ensures
        forall|i: int| 0 <= i < units_at_spec(units, pos).len() ==> exists|j: int| 0 <= j < units.len()
            && units[j] == #[trigger] units_at_spec(units, pos)[i],
    decreases units.len(),
{
    if units.len() > 0 {
        lemma_units_at_members(units.drop_last(), pos);
        let rest = units_at_spec(units.drop_last(), pos);
        assert forall|i: int| 0 <= i < units_at_spec(units, pos).len() implies exists|j: int| 0 <= j < units.len()
            && units[j] == #[trigger] units_at_spec(units, pos)[i] by {
            if i < rest.len() {
                let j = choose|j: int| 0 <= j < units.drop_last().len() && units.drop_last()[j] == rest[i];
                assert(units[j] == units.drop_last()[j]);
            } else {
                assert(units[units.len() - 1] == units.last());
            }
        }
    }
}

/// The units on `pos` stand on `pos`.
proof fn lemma_units_at_pos(units: Seq<Unit>, pos: MapPos)
    ensures
        forall|k: int| 0 <= k < units_at_spec(units, pos).len() ==> (#[trigger] units_at_spec(units, pos)[k]).pos == pos,
    decreases units.len(),
{
    if units.len() > 0 {
        let init = units.drop_last();
        lemma_units_at_pos(init, pos);
        let rest = units_at_spec(init, pos);
        let here = units_at_spec(units, pos);
        assert forall|k: int| 0 <= k < here.len() implies (#[trigger] here[k]).pos == pos by {
            if k < rest.len() {
                assert(here[k] == rest[k]);
            }
        }
    }
}

/// A unit standing on `pos` is among the units on `pos`.
proof fn lemma_units_at_contains(units: Seq<Unit>, pos: MapPos, j: int)
    requires
        0 <= j < units.len(),
        units[j].pos == pos,
    ensures
        exists|k: int| 0 <= k < units_at_spec(units, pos).len() && units_at_spec(units, pos)[k] == units[j],
    decreases units.len(),
{
    let init = units.drop_last();
    let rest = units_at_spec(init, pos);
    let here = units_at_spec(units, pos);
    if j < init.len() {
        assert(init[j] == units[j]);
        lemma_units_at_contains(init, pos, j);
        let k = choose|k: int| 0 <= k < rest.len() && rest[k] == init[j];
        assert(here[k] == rest[k]);
    } else {
        assert(here[here.len() - 1] == units[j]);
    }
}

/// Two units on `pos` make at least two units there.
proof fn lemma_units_at_two(units: Seq<Unit>, pos: MapPos, i: int, j: int)
    requires
        0 <= i < j < units.len(),
        units[i].pos == pos,
        units[j].pos == pos,
    ensures
        units_at_spec(units, pos).len() >= 2,
    decreases units.len(),
{
    let init = units.drop_last();
    if j < units.len() - 1 {
        assert(init[i] == units[i] && init[j] == units[j]);
        lemma_units_at_two(init, pos, i, j);
    } else {
        assert(init[i] == units[i]);
        crate::state::lemma_units_at_member(init, i);
    }
}

/// At least two units on `pos` stand at two places of `units`.
proof fn lemma_units_at_two_back(units: Seq<Unit>, pos: MapPos)
    requires
        units_at_spec(units, pos).len() >= 2,
    ensures
        exists|i: int, j: int| 0 <= i < j < units.len() && (#[trigger] units[i]).pos == pos && (#[trigger] units[j]).pos == pos,
    decreases units.len(),
{
    let init = units.drop_last();
    let rest = units_at_spec(init, pos);
    if units.last().pos == pos && rest.len() >= 1 {
        lemma_units_at_members(init, pos);
        lemma_units_at_pos(init, pos);
        assert(rest[0].pos == pos);
        let i = choose|i: int| 0 <= i < init.len() && init[i] == #[trigger] rest[0];
        assert(units[i] == init[i]);
        assert(units[units.len() - 1] == units.last());
        assert(units[i].pos == pos && units[units.len() - 1].pos == pos);
    } else {
        lemma_units_at_two_back(init, pos);
        let (i, j) = choose|i: int, j: int| 0 <= i < j < init.len() && (#[trigger] init[i]).pos == pos
            && (#[trigger] init[j]).pos == pos;
        assert(units[i] == init[i] && units[j] == init[j]);
    }
}

/// The last transporter of `here` is one of them, and there is one where
/// any of them is a transporter.
proof fn lemma_last_transporter(db: Db, here: Seq<Unit>)
    ensures
        last_transporter(db, here) matches Some(id) ==> exists|k: int| 0 <= k < here.len() && (#[trigger] here[k]).id == id
            && db.spec_unit_type(here[k].type_id).is_transporter,
        (exists|k: int| 0 <= k < here.len() && db.spec_unit_type((#[trigger] here[k]).type_id).is_transporter)
            ==> last_transporter(db, here) is Some,
    decreases here.len(),
{
    if here.len() > 0 {
        let init = here.drop_last();
        lemma_last_transporter(db, init);
        if !db.spec_unit_type(here.last().type_id).is_transporter {
            if last_transporter(db, init) is Some {
                let k = choose|k: int| 0 <= k < init.len() && (#[trigger] init[k]).id == last_transporter(db, init)->0
                    && db.spec_unit_type(init[k].type_id).is_transporter;
                assert(here[k] == init[k]);
            }
            if exists|k: int| 0 <= k < here.len() && db.spec_unit_type((#[trigger] here[k]).type_id).is_transporter {
                let k = choose|k: int| 0 <= k < here.len() && db.spec_unit_type((#[trigger] here[k]).type_id).is_transporter;
                assert(k < init.len());
                assert(init[k] == here[k]);
            }
        } else {
            assert(here[here.len() - 1] == here.last());
        }
    }
}

/// Law: a click on a tile selects nothing where no unit stands there, the
/// unit where just one stands there, and always a unit that stands there;
/// where several units stand there and one of them is a transporter, it
/// selects a transporter.
pub proof fn lemma_unit_at_selects(db: Db, units: Seq<Unit>, pos: MapPos)
    ensures
        (forall|i: int| 0 <= i < units.len() ==> (#[trigger] units[i]).pos != pos) ==> unit_id_at(db, units, pos) is None,
        (exists|i: int| 0 <= i < units.len() && (#[trigger] units[i]).pos == pos && forall|j: int| 0 <= j < units.len()
            && (#[trigger] units[j]).pos == pos ==> j == i) ==> unit_id_at(db, units, pos) is Some,
        unit_id_at(db, units, pos) is Some ==> exists|i: int| 0 <= i < units.len() && (#[trigger] units[i]).pos == pos
            && units[i].id == unit_id_at(db, units, pos)->0,
        (exists|i: int, j: int| 0 <= i < j < units.len() && (#[trigger] units[i]).pos == pos && (#[trigger] units[j]).pos == pos)
            && (exists|k: int| 0 <= k < units.len() && (#[trigger] units[k]).pos == pos
            && db.spec_unit_type(units[k].type_id).is_transporter) ==> unit_id_at(db, units, pos) is Some
            && exists|i: int| 0 <= i < units.len() && (#[trigger] units[i]).pos == pos
            && units[i].id == unit_id_at(db, units, pos)->0 && db.spec_unit_type(units[i].type_id).is_transporter,
{
    let here = units_at_spec(units, pos);
    assert((forall|i: int| 0 <= i < units.len() ==> (#[trigger] units[i]).pos != pos) ==> unit_id_at(db, units, pos) is None) by {
        if here.len() > 0 {
            lemma_units_at_members(units, pos);
            lemma_units_at_pos(units, pos);
            assert(here[0].pos == pos);
            let j = choose|j: int| 0 <= j < units.len() && units[j] == #[trigger] here[0];
            assert(units[j].pos == pos);
        }
    }
    assert((exists|i: int| 0 <= i < units.len() && (#[trigger] units[i]).pos == pos && forall|j: int| 0 <= j < units.len()
        && (#[trigger] units[j]).pos == pos ==> j == i) ==> unit_id_at(db, units, pos) is Some) by {
        if exists|i: int| 0 <= i < units.len() && (#[trigger] units[i]).pos == pos && forall|j: int| 0 <= j < units.len()
            && (#[trigger] units[j]).pos == pos ==> j == i {
            let i = choose|i: int| 0 <= i < units.len() && (#[trigger] units[i]).pos == pos && forall|j: int| 0 <= j < units.len()
                && (#[trigger] units[j]).pos == pos ==> j == i;
            crate::state::lemma_units_at_member(units, i);
            if here.len() >= 2 {
                lemma_units_at_two_back(units, pos);
                let (a, b) = choose|a: int, b: int| 0 <= a < b < units.len() && (#[trigger] units[a]).pos == pos
                    && (#[trigger] units[b]).pos == pos;
                assert(a == i && b == i);
            }
        }
    }
    assert(unit_id_at(db, units, pos) is Some ==> exists|i: int| 0 <= i < units.len() && (#[trigger] units[i]).pos == pos
        && units[i].id == unit_id_at(db, units, pos)->0) by {
        if unit_id_at(db, units, pos) is Some {
            lemma_units_at_members(units, pos);
            lemma_units_at_pos(units, pos);
            lemma_last_transporter(db, here);
            let id = unit_id_at(db, units, pos)->0;
            let k = if here.len() == 1 {
                0
            } else {
                choose|k: int| 0 <= k < here.len() && (#[trigger] here[k]).id == id
                    && db.spec_unit_type(here[k].type_id).is_transporter
            };
            assert(here[k].id == id);
            assert(here[k].pos == pos);
            let j = choose|j: int| 0 <= j < units.len() && units[j] == #[trigger] here[k];
            assert(units[j].pos == pos && units[j].id == id);
        }
    }
    assert((exists|i: int, j: int| 0 <= i < j < units.len() && (#[trigger] units[i]).pos == pos && (#[trigger] units[j]).pos == pos)
        && (exists|k: int| 0 <= k < units.len() && (#[trigger] units[k]).pos == pos
        && db.spec_unit_type(units[k].type_id).is_transporter) ==> unit_id_at(db, units, pos) is Some
        && exists|i: int| 0 <= i < units.len() && (#[trigger] units[i]).pos == pos
        && units[i].id == unit_id_at(db, units, pos)->0 && db.spec_unit_type(units[i].type_id).is_transporter) by {
        if (exists|i: int, j: int| 0 <= i < j < units.len() && (#[trigger] units[i]).pos == pos && (#[trigger] units[j]).pos == pos)
            && (exists|k: int| 0 <= k < units.len() && (#[trigger] units[k]).pos == pos
            && db.spec_unit_type(units[k].type_id).is_transporter) {
            let (i, j) = choose|i: int, j: int| 0 <= i < j < units.len() && (#[trigger] units[i]).pos == pos
                && (#[trigger] units[j]).pos == pos;
            lemma_units_at_two(units, pos, i, j);
            let k = choose|k: int| 0 <= k < units.len() && (#[trigger] units[k]).pos == pos
                && db.spec_unit_type(units[k].type_id).is_transporter;
            lemma_units_at_contains(units, pos, k);
            let h = choose|h: int| 0 <= h < here.len() && here[h] == units[k];
            assert(db.spec_unit_type(here[h].type_id).is_transporter);
            lemma_last_transporter(db, here);
            let id = unit_id_at(db, units, pos)->0;
            let k2 = choose|k2: int| 0 <= k2 < here.len() && (#[trigger] here[k2]).id == id
                && db.spec_unit_type(here[k2].type_id).is_transporter;
            lemma_units_at_members(units, pos);
            lemma_units_at_pos(units, pos);
            assert(here[k2].pos == pos);
            let j2 = choose|j2: int| 0 <= j2 < units.len() && units[j2] == #[trigger] here[k2];
            assert(units[j2].pos == pos && units[j2].id == id && db.spec_unit_type(units[j2].type_id).is_transporter);
        }
    }
}

/// The unit a click on `pos` selects.
pub fn get_unit_id_at(db: &Db, state: &InternalState, pos: &MapPos) -> (r: Option<UnitId>)
    requires
        db.wf(),
        state.wf(*db),
        stack_ok(*db, state.spec_units(), units_at_spec(state.spec_units(), *pos)),
    ensures
        r == unit_id_at(*db, state.spec_units(), *pos),
{
    let units_at = state.units_at(pos);
    proof {
        lemma_units_at_members(state.spec_units(), *pos);
        assert forall|i: int| 0 <= i < units_at@.len() implies db.valid_unit_type_id(#[trigger] units_at@[i].type_id) by {
            let j = choose|j: int| 0 <= j < state.spec_units().len() && state.spec_units()[j] == units_at@[i];
            assert(db.valid_unit_type_id(state.spec_units()[j].type_id));
        }
    }
    if units_at.len() == 1 {
        Some(units_at[0].id)
    } else if units_at.len() > 1 {
        let transporter_id = find_transporter_id(db, &units_at).unwrap();
        Some(transporter_id)
    } else {
        None
    }
}

/// The index of the first occurrence of `id` in `ids`.
pub open spec fn first_index_of(ids: Seq<UnitId>, id: UnitId) -> int {
    choose|i: int| 0 <= i < ids.len() && ids[i] == id && forall|j: int| 0 <= j < i ==> ids[j] != id
}

/// The ids of the units of `player_id`, in the order of `units`.
pub open spec fn player_unit_ids(units: Seq<Unit>, player_id: PlayerId) -> Seq<UnitId>
    decreases units.len(),
{
    if units.len() == 0 {
        Seq::empty()
    } else if units.last().player_id == player_id {
        player_unit_ids(units.drop_last(), player_id).push(units.last().id)
    } else {
        player_unit_ids(units.drop_last(), player_id)
    }
}

/// The ids of the units of `player_id`.
fn collect_player_unit_ids(state: &InternalState, player_id: &PlayerId) -> (r: Vec<UnitId>)
    ensures
        r@ == player_unit_ids(state.spec_units(), *player_id),
{
    let units = state.units();
    let mut r: Vec<UnitId> = Vec::new();
    let mut i: usize = 0;
    while i < units.len()
        invariant
            units@ == state.spec_units(),
            0 <= i <= units@.len(),
            r@ == player_unit_ids(units@.take(i as int), *player_id),
        decreases units@.len() - i,
    {
        assert(units@.take(i + 1).drop_last() == units@.take(i as int));
        if units[i].player_id == *player_id {
            r.push(units[i].id);
        }
        i = i + 1;
    }
    assert(units@.take(units@.len() as int) == units@);
    r
}

/// The first position of `id` in `ids`.
fn position_of(ids: &Vec<UnitId>, id: UnitId) -> (k: usize)
    requires
        ids@.contains(id),
    ensures
        k < ids@.len(),
        ids@[k as int] == id,
        forall|j: int| 0 <= j < k ==> ids@[j] != id,
{
    let mut i: usize = 0;
    while i < ids.len()
        invariant
            0 <= i <= ids@.len(),
            ids@.contains(id),
            forall|j: int| 0 <= j < i ==> ids@[j] != id,
        decreases ids@.len() - i,
    {
        if ids[i] == id {
            return i;
        }
        i = i + 1;
    }
    proof {
        let j = choose|j: int| 0 <= j < ids@.len() && ids@[j] == id;
        assert(ids@[j] == id);
    }
    0
}

/// The unit of `player_id` after `unit_id` in the order of units,
/// wrapping around to the first one after the last one.
pub fn find_next_player_unit_id(state: &InternalState, player_id: &PlayerId, unit_id: &UnitId) -> (r: UnitId)
    requires
        player_unit_ids(state.spec_units(), *player_id).contains(*unit_id),
    ensures
        ({
            let ids = player_unit_ids(state.spec_units(), *player_id);
            let k = first_index_of(ids, *unit_id);
            r == ids[(k + 1) % (ids.len() as int)]
        }),
{
    let ids = collect_player_unit_ids(state, player_id);
    let k = position_of(&ids, *unit_id);
    proof {
        let s = ids@;
        let f = first_index_of(s, *unit_id);
        assert(0 <= f < s.len() && s[f] == *unit_id && forall|j: int| 0 <= j < f ==> s[j] != *unit_id);
        assert(!(f < k as int));
        assert(!(f > k as int));
    }
    let n: usize = ids.len();
    let next = if k + 1 == n { 0 } else { k + 1 };
    proof {
        let n = ids@.len() as int;
        assert((k + 1) % n == next as int) by (nonlinear_arith)
            requires 0 <= k < n, next == (if k + 1 == n { 0 } else { k + 1 });
    }
    ids[next]
}

/// The unit of `player_id` before `unit_id` in the order of units,
/// wrapping around to the last one before the first one.
pub fn find_prev_player_unit_id(state: &InternalState, player_id: &PlayerId, unit_id: &UnitId) -> (r: UnitId)
    requires
        player_unit_ids(state.spec_units(), *player_id).contains(*unit_id),
    ensures
        ({
            let ids = player_unit_ids(state.spec_units(), *player_id);
            let k = first_index_of(ids, *unit_id);
            r == ids[(k + ids.len() - 1) % (ids.len() as int)]
        }),
{
    let ids = collect_player_unit_ids(state, player_id);
    let k = position_of(&ids, *unit_id);
    proof {
        let s = ids@;
        let f = first_index_of(s, *unit_id);
        assert(0 <= f < s.len() && s[f] == *unit_id && forall|j: int| 0 <= j < f ==> s[j] != *unit_id);
        assert(!(f < k as int));
        assert(!(f > k as int));
    }
    let n: usize = ids.len();
    let prev = if k == 0 { n - 1 } else { k - 1 };
    proof {
        let n = ids@.len() as int;
        assert((k + n - 1) % n == prev as int) by (nonlinear_arith)
            requires 0 <= k < n, prev == (if k == 0 { n - 1 } else { k - 1 });
    }
    ids[prev]
}

/// The ids of a player's units are distinct where all unit ids are,
/// and each is the id of one of the units.
proof fn lemma_player_unit_ids_distinct(units: Seq<Unit>, player_id: PlayerId)
    requires
        ids_distinct(units),
    ensures
        ({
            let ids = player_unit_ids(units, player_id);
            &&& forall|a: int, b: int| 0 <= a < ids.len() && 0 <= b < ids.len() && a != b ==> #[trigger] ids[a] != #[trigger] ids[b]
            &&& forall|k: int| 0 <= k < ids.len() ==> exists|i: int| 0 <= i < units.len() && units[i].id == #[trigger] ids[k]
        }),
    decreases units.len(),
{
    if units.len() > 0 {
        let init = units.drop_last();
        assert(ids_distinct(init)) by {
            assert forall|i: int, j: int| 0 <= i < init.len() && 0 <= j < init.len() && i != j
                implies (#[trigger] init[i]).id != (#[trigger] init[j]).id by {
                assert(init[i] == units[i] && init[j] == units[j]);
            }
        }
        lemma_player_unit_ids_distinct(init, player_id);
        let prev = player_unit_ids(init, player_id);
        let ids = player_unit_ids(units, player_id);
        assert forall|k: int| 0 <= k < prev.len() implies exists|i: int| 0 <= i < units.len() && units[i].id == #[trigger] prev[k] by {
            let i = choose|i: int| 0 <= i < init.len() && init[i].id == prev[k];
            assert(units[i] == init[i]);
        }
        if units.last().player_id == player_id {
            assert forall|k: int| 0 <= k < ids.len() implies exists|i: int| 0 <= i < units.len() && units[i].id == #[trigger] ids[k] by {
                if k < prev.len() {
                    assert(ids[k] == prev[k]);
                } else {
                    assert(units[units.len() - 1].id == ids[k]);
                }
            }
            assert forall|a: int, b: int| 0 <= a < ids.len() && 0 <= b < ids.len() && a != b implies #[trigger] ids[a] != #[trigger] ids[b] by {
                if a < prev.len() && b < prev.len() {
                    assert(ids[a] == prev[a] && ids[b] == prev[b]);
                } else if a < prev.len() {
                    let i = choose|i: int| 0 <= i < init.len() && init[i].id == prev[a];
                    assert(units[i] == init[i]);
                    assert(ids[a] == prev[a]);
                    assert(units[i].id != units[units.len() - 1].id);
                } else if b < prev.len() {
                    let i = choose|i: int| 0 <= i < init.len() && init[i].id == prev[b];
                    assert(units[i] == init[i]);
                    assert(ids[b] == prev[b]);
                    assert(units[i].id != units[units.len() - 1].id);
                }
            }
        }
    }
}

/// In a sequence of distinct ids, the first index of the id at `m` is `m`.
proof fn lemma_first_index_distinct(ids: Seq<UnitId>, m: int)
    requires
        0 <= m < ids.len(),
        forall|a: int, b: int| 0 <= a < ids.len() && 0 <= b < ids.len() && a != b ==> #[trigger] ids[a] != #[trigger] ids[b],
    ensures
        first_index_of(ids, ids[m]) == m,
{
    assert(0 <= m < ids.len() && ids[m] == ids[m] && forall|j: int| 0 <= j < m ==> ids[j] != ids[m]);
    let f = first_index_of(ids, ids[m]);
    assert(ids[f] == ids[m]);
}

/// Law: among the units of a player, going to the next unit and then to
/// the previous one (or to the previous and then the next) comes back to
/// the unit; both lie among the player's units, and a player with a
/// single unit gets that unit both ways.
pub proof fn lemma_next_prev_inverse(units: Seq<Unit>, player_id: PlayerId, unit_id: UnitId)
    requires
        ids_distinct(units),
        player_unit_ids(units, player_id).contains(unit_id),
    ensures
        ({
            let ids = player_unit_ids(units, player_id);
            let n = ids.len() as int;
            let k = first_index_of(ids, unit_id);
            let next = ids[(k + 1) % n];
            let prev = ids[(k + n - 1) % n];
            &&& ids.contains(next)
            &&& ids.contains(prev)
            &&& ids[(first_index_of(ids, next) + n - 1) % n] == unit_id
            &&& ids[(first_index_of(ids, prev) + 1) % n] == unit_id
            &&& n == 1 ==> next == unit_id && prev == unit_id
        }),
{
    let ids = player_unit_ids(units, player_id);
    let n = ids.len() as int;
    lemma_player_unit_ids_distinct(units, player_id);
    let w = choose|i: int| 0 <= i < ids.len() && ids[i] == unit_id;
    lemma_first_index_distinct(ids, w);
    let k = first_index_of(ids, unit_id);
    assert(k == w);
    let kn = if k + 1 == n { 0 } else { k + 1 };
    let kp = if k == 0 { n - 1 } else { k - 1 };
    assert((k + 1) % n == kn) by (nonlinear_arith) requires 0 <= k < n, kn == (if k + 1 == n { 0 } else { k + 1 });
    assert((k + n - 1) % n == kp) by (nonlinear_arith) requires 0 <= k < n, kp == (if k == 0 { n - 1 } else { k - 1 });
    lemma_first_index_distinct(ids, kn);
    lemma_first_index_distinct(ids, kp);
    let a = if kn == 0 { n - 1 } else { kn - 1 };
    let b = if kp + 1 == n { 0 } else { kp + 1 };
    assert((kn + n - 1) % n == a) by (nonlinear_arith) requires 0 <= kn < n, a == (if kn == 0 { n - 1 } else { kn - 1 });
    assert((kp + 1) % n == b) by (nonlinear_arith) requires 0 <= kp < n, b == (if kp + 1 == n { 0 } else { kp + 1 });
    assert(ids[kn] == ids[(k + 1) % n]);
    assert(ids[kp] == ids[(k + n - 1) % n]);
}

} // verus!
