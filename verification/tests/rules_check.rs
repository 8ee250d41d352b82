use zoc::types::{Size2, MapPos, MovePoints, PlayerId, UnitId};
use zoc::unit::{UnitTypeId, ReactionFireMode};
use zoc::db::Db;
use zoc::state::InternalState;
use zoc::sight::Sight;
use zoc::map::distance;
use zoc::event::{Command, CoreEvent, UnitInfo, AttackInfo, FireMode, MoveMode};
use zoc::rules::{check_command, los, CommandError, move_cost_modifier, get_unit_id_at,
    find_next_player_unit_id, find_prev_player_unit_id};

const TANK: i32 = 0;
const TRUCK: i32 = 1;
const SOLDIER: i32 = 2;

fn size() -> Size2 {
    Size2 { w: 10, h: 8 }
}

fn pos(x: i32, y: i32) -> MapPos {
    MapPos { x, y }
}

fn create(db: &Db, state: &mut InternalState, id: i32, p: MapPos, type_id: i32, player: i32) {
    state.apply_event(
        db,
        &CoreEvent::CreateUnit {
            unit_info: UnitInfo {
                unit_id: UnitId { id },
                pos: p,
                type_id: UnitTypeId { id: type_id },
                player_id: PlayerId { id: player },
                passenger_id: None,
            },
        },
    );
}

fn full_sight() -> Sight {
    let mut sight = Sight::new(&size(), vec![6, 8]).unwrap();
    for range in [6, 8] {
        for fy in 0..8 {
            for fx in 0..10 {
                for ty in 0..8 {
                    for tx in 0..10 {
                        if distance(&pos(fx, fy), &pos(tx, ty)) <= range {
                            sight.mark(range, &pos(fx, fy), &pos(tx, ty));
                        }
                    }
                }
            }
        }
    }
    sight
}

fn blind_sight() -> Sight {
    Sight::new(&size(), vec![6, 8]).unwrap()
}

fn setup() -> (Db, InternalState) {
    let db = Db::new();
    let mut state = InternalState::new(&size());
    create(&db, &mut state, 0, pos(0, 0), SOLDIER, 0);
    create(&db, &mut state, 1, pos(1, 0), TANK, 0);
    create(&db, &mut state, 2, pos(3, 0), SOLDIER, 1);
    create(&db, &mut state, 3, pos(0, 2), TRUCK, 0);
    (db, state)
}

fn check(db: &Db, state: &InternalState, sight: &Sight, command: Command) -> Result<(), CommandError> {
    check_command(db, state, sight, &command)
}

#[test]
fn end_turn_is_always_accepted() {
    let (db, state) = setup();
    assert_eq!(check(&db, &state, &blind_sight(), Command::EndTurn), Ok(()));
}

#[test]
fn create_unit_needs_a_free_tile() {
    let (db, state) = setup();
    let sight = blind_sight();
    assert_eq!(check(&db, &state, &sight, Command::CreateUnit { pos: pos(0, 0) }), Err(CommandError::TileIsOccupied));
    assert_eq!(check(&db, &state, &sight, Command::CreateUnit { pos: pos(5, 5) }), Ok(()));
}

#[test]
fn move_checks_unit_path_and_points() {
    let (db, state) = setup();
    let sight = blind_sight();
    let walk = |path: Vec<MapPos>, mode: MoveMode, id: i32| Command::Move { unit_id: UnitId { id }, path, mode };
    assert_eq!(check(&db, &state, &sight, walk(vec![pos(0, 1)], MoveMode::Fast, 99)), Err(CommandError::BadUnitId));
    assert_eq!(check(&db, &state, &sight, walk(vec![pos(1, 0)], MoveMode::Fast, 0)), Err(CommandError::BadPath));
    // a soldier has four move points; plain tiles cost one each
    let four = vec![pos(0, 1), pos(1, 1), pos(2, 1), pos(3, 1)];
    assert_eq!(check(&db, &state, &sight, walk(four.clone(), MoveMode::Fast, 0)), Ok(()));
    let mut five = four.clone();
    five.push(pos(4, 1));
    assert_eq!(check(&db, &state, &sight, walk(five, MoveMode::Fast, 0)), Err(CommandError::NotEnoughMovePoints));
    // hunting doubles the cost
    assert_eq!(check(&db, &state, &sight, walk(four[..2].to_vec(), MoveMode::Hunt, 0)), Ok(()));
    assert_eq!(check(&db, &state, &sight, walk(four[..3].to_vec(), MoveMode::Hunt, 0)), Err(CommandError::NotEnoughMovePoints));
    // trees cost a soldier two
    let through_trees = vec![pos(4, 3), pos(4, 4)];
    let mut state2 = InternalState::new(&size());
    create(&db, &mut state2, 0, pos(3, 3), SOLDIER, 0);
    assert_eq!(check(&db, &state2, &sight, walk(through_trees.clone(), MoveMode::Fast, 0)), Ok(()));
    assert_eq!(check(&db, &state2, &sight, walk(through_trees, MoveMode::Hunt, 0)), Err(CommandError::NotEnoughMovePoints));
}

#[test]
fn attack_checks() {
    let (db, state) = setup();
    let full = full_sight();
    let attack = |a: i32, d: i32| Command::AttackUnit { attacker_id: UnitId { id: a }, defender_id: UnitId { id: d } };
    assert_eq!(check(&db, &state, &full, attack(9, 2)), Err(CommandError::BadAttackerId));
    assert_eq!(check(&db, &state, &full, attack(0, 9)), Err(CommandError::BadDefenderId));
    // soldier (0,0) to soldier (3,0): distance 3, rifle reaches 3
    assert_eq!(check(&db, &state, &full, attack(0, 2)), Ok(()));
    // without sight: no line of sight
    assert_eq!(check(&db, &state, &blind_sight(), attack(0, 2)), Err(CommandError::NoLos));
    // tank (1,0) to soldier (3,0): distance 2, cannon from 2 to 5
    assert_eq!(check(&db, &state, &full, attack(1, 2)), Ok(()));
    // tank next to the soldier (0,0): too close for the cannon
    assert_eq!(check(&db, &state, &full, attack(1, 0)), Err(CommandError::TooClose));
    let mut far = InternalState::new(&size());
    create(&db, &mut far, 0, pos(0, 0), SOLDIER, 0);
    create(&db, &mut far, 1, pos(4, 0), SOLDIER, 1);
    assert_eq!(check(&db, &far, &full, attack(0, 1)), Err(CommandError::OutOfRange));
}

fn hit(db: &Db, state: &mut InternalState, attacker: i32, defender: i32, mode: FireMode, suppression: i32) {
    state.apply_event(
        db,
        &CoreEvent::AttackUnit {
            attack_info: AttackInfo {
                attacker_id: Some(UnitId { id: attacker }),
                defender_id: UnitId { id: defender },
                mode,
                killed: 0,
                suppression,
                remove_move_points: false,
                is_ambush: false,
            },
        },
    );
}

#[test]
fn attack_needs_points_and_morale() {
    let (db, mut state) = setup();
    let full = full_sight();
    let attack = Command::AttackUnit { attacker_id: UnitId { id: 0 }, defender_id: UnitId { id: 2 } };
    // two active attacks use up the soldier's attack points
    hit(&db, &mut state, 0, 2, FireMode::Active, 0);
    hit(&db, &mut state, 0, 2, FireMode::Active, 0);
    assert_eq!(check(&db, &state, &full, attack.clone()), Err(CommandError::NotEnoughAttackPoints));
    // a suppressed unit refuses to attack
    let (db, mut state) = setup();
    hit(&db, &mut state, 2, 0, FireMode::Reactive, 60);
    assert_eq!(state.unit(UnitId { id: 0 }).morale, 40);
    assert_eq!(check(&db, &state, &full, attack), Err(CommandError::BadMorale));
}

#[test]
fn load_checks() {
    let (db, state) = setup();
    let sight = blind_sight();
    let load = |t: i32, p: i32| Command::LoadUnit { transporter_id: UnitId { id: t }, passenger_id: UnitId { id: p } };
    assert_eq!(check(&db, &state, &sight, load(9, 0)), Err(CommandError::BadTransporterId));
    assert_eq!(check(&db, &state, &sight, load(3, 9)), Err(CommandError::BadPassengerId));
    assert_eq!(check(&db, &state, &sight, load(1, 0)), Err(CommandError::BadTransporterClass));
    assert_eq!(check(&db, &state, &sight, load(3, 1)), Err(CommandError::BadPassengerClass));
    // truck (0,2), soldier (0,0): two tiles apart
    assert_eq!(check(&db, &state, &sight, load(3, 0)), Err(CommandError::TransporterIsTooFarAway));
    let mut near = InternalState::new(&size());
    create(&db, &mut near, 0, pos(0, 1), SOLDIER, 0);
    create(&db, &mut near, 1, pos(0, 2), TRUCK, 0);
    create(&db, &mut near, 2, pos(1, 1), SOLDIER, 0);
    assert_eq!(check(&db, &near, &sight, load(1, 0)), Ok(()));
    near.apply_event(&db, &CoreEvent::LoadUnit { transporter_id: UnitId { id: 1 }, passenger_id: UnitId { id: 0 } });
    assert_eq!(check(&db, &near, &sight, load(1, 2)), Err(CommandError::TransporterIsNotEmpty));
    // a passenger without move points cannot board
    let mut tired = InternalState::new(&size());
    create(&db, &mut tired, 0, pos(0, 1), SOLDIER, 0);
    create(&db, &mut tired, 1, pos(0, 2), TRUCK, 0);
    tired.apply_event(
        &db,
        &CoreEvent::Move {
            unit_id: UnitId { id: 0 },
            from: pos(0, 1),
            to: pos(1, 1),
            mode: MoveMode::Fast,
            cost: MovePoints { n: 4 },
        },
    );
    assert_eq!(check(&db, &tired, &sight, load(1, 0)), Err(CommandError::PassengerHasNotEnoughMovePoints));
}

#[test]
fn unload_checks() {
    let db = Db::new();
    let sight = blind_sight();
    let mut state = InternalState::new(&size());
    create(&db, &mut state, 0, pos(0, 1), SOLDIER, 0);
    create(&db, &mut state, 1, pos(0, 2), TRUCK, 0);
    create(&db, &mut state, 2, pos(1, 2), TANK, 0);
    let unload = |t: i32, p: i32, to: MapPos| Command::UnloadUnit {
        transporter_id: UnitId { id: t },
        passenger_id: UnitId { id: p },
        pos: to,
    };
    assert_eq!(check(&db, &state, &sight, unload(9, 0, pos(0, 3))), Err(CommandError::BadTransporterId));
    assert_eq!(check(&db, &state, &sight, unload(1, 9, pos(0, 3))), Err(CommandError::BadPassengerId));
    assert_eq!(check(&db, &state, &sight, unload(2, 0, pos(1, 3))), Err(CommandError::BadTransporterClass));
    assert_eq!(check(&db, &state, &sight, unload(1, 0, pos(0, 3))), Err(CommandError::TransporterIsEmpty));
    state.apply_event(&db, &CoreEvent::LoadUnit { transporter_id: UnitId { id: 1 }, passenger_id: UnitId { id: 0 } });
    assert_eq!(check(&db, &state, &sight, unload(1, 0, pos(5, 5))), Err(CommandError::UnloadDistanceIsTooBig));
    assert_eq!(check(&db, &state, &sight, unload(1, 0, pos(1, 2))), Err(CommandError::DestinationTileIsNotEmpty));
    assert_eq!(check(&db, &state, &sight, unload(1, 0, pos(0, 3))), Ok(()));
}

#[test]
fn set_reaction_fire_mode_checks() {
    let (db, state) = setup();
    let sight = blind_sight();
    let set = |id: i32| Command::SetReactionFireMode { unit_id: UnitId { id }, mode: ReactionFireMode::HoldFire };
    assert_eq!(check(&db, &state, &sight, set(9)), Err(CommandError::BadUnitId));
    assert_eq!(check(&db, &state, &sight, set(0)), Ok(()));
}

#[test]
fn error_messages() {
    let all = [
        (CommandError::TileIsOccupied, "Tile is occupied"),
        (CommandError::NotEnoughMovePoints, "Not enough move points"),
        (CommandError::NotEnoughAttackPoints, "No attack points"),
        (CommandError::NotEnoughReactiveAttackPoints, "No reactive attack points"),
        (CommandError::BadMorale, "Can`t attack when suppresset"),
        (CommandError::OutOfRange, "Out of range"),
        (CommandError::TooClose, "Too close"),
        (CommandError::NoLos, "No Line of Sight"),
        (CommandError::BadTransporterClass, "Bad transporter class"),
        (CommandError::BadPassengerClass, "Bad passenger class"),
        (CommandError::TransporterIsNotEmpty, "Transporter is not empty"),
        (CommandError::TransporterIsEmpty, "Transporter is empty"),
        (CommandError::TransporterIsTooFarAway, "Transporter is too far away"),
        (CommandError::PassengerHasNotEnoughMovePoints, "Passenger has not enough move points"),
        (CommandError::UnloadDistanceIsTooBig, "Unload pos it too far away"),
        (CommandError::DestinationTileIsNotEmpty, "Destination tile is not empty"),
        (CommandError::BadUnitId, "Bad unit id"),
        (CommandError::BadTransporterId, "Bad transporter id"),
        (CommandError::BadPassengerId, "Bad passenger id"),
        (CommandError::BadAttackerId, "Bad attacker id"),
        (CommandError::BadDefenderId, "Bad defender id"),
        (CommandError::BadPath, "Bad path"),
    ];
    for (e, text) in all.iter() {
        assert_eq!(e.to_str(), *text);
    }
}

#[test]
fn move_cost_factors() {
    assert_eq!(move_cost_modifier(&MoveMode::Fast), 1);
    assert_eq!(move_cost_modifier(&MoveMode::Hunt), 2);
}

#[test]
fn unit_at_tile_prefers_transporter() {
    let db = Db::new();
    let mut state = InternalState::new(&size());
    create(&db, &mut state, 0, pos(0, 1), SOLDIER, 0);
    create(&db, &mut state, 1, pos(0, 2), TRUCK, 0);
    assert_eq!(get_unit_id_at(&db, &state, &pos(0, 1)), Some(UnitId { id: 0 }));
    assert_eq!(get_unit_id_at(&db, &state, &pos(5, 5)), None);
    state.apply_event(&db, &CoreEvent::LoadUnit { transporter_id: UnitId { id: 1 }, passenger_id: UnitId { id: 0 } });
    assert_eq!(get_unit_id_at(&db, &state, &pos(0, 2)), Some(UnitId { id: 1 }));
}

#[test]
fn next_and_previous_units_wrap_around() {
    let (_db, state) = setup();
    let p0 = PlayerId { id: 0 };
    // player 0 owns units 0, 1 and 3, in this order
    assert_eq!(find_next_player_unit_id(&state, &p0, &UnitId { id: 0 }), UnitId { id: 1 });
    assert_eq!(find_next_player_unit_id(&state, &p0, &UnitId { id: 1 }), UnitId { id: 3 });
    assert_eq!(find_next_player_unit_id(&state, &p0, &UnitId { id: 3 }), UnitId { id: 0 });
    assert_eq!(find_prev_player_unit_id(&state, &p0, &UnitId { id: 0 }), UnitId { id: 3 });
    assert_eq!(find_prev_player_unit_id(&state, &p0, &UnitId { id: 3 }), UnitId { id: 1 });
    let p1 = PlayerId { id: 1 };
    assert_eq!(find_next_player_unit_id(&state, &p1, &UnitId { id: 2 }), UnitId { id: 2 });
    assert_eq!(find_prev_player_unit_id(&state, &p1, &UnitId { id: 2 }), UnitId { id: 2 });
}

#[test]
fn off_map_creation_passes_the_check() {
    let (db, state) = setup();
    assert_eq!(check(&db, &state, &full_sight(), Command::CreateUnit { pos: pos(20, 20) }), Ok(()));
}

#[test]
fn no_line_of_sight_off_the_map() {
    let db = Db::new();
    let sight = full_sight();
    let soldier = db.unit_type(&UnitTypeId { id: SOLDIER });
    assert!(los(&sight, soldier, &pos(0, 0), &pos(0, 0)));
    assert!(los(&sight, soldier, &pos(0, 0), &pos(1, 0)));
    assert!(!los(&sight, soldier, &pos(0, 0), &pos(-1, 0)));
    assert!(!los(&sight, soldier, &pos(0, 0), &pos(10, 0)));
}
