use zoc::types::{Size2, MapPos, MovePoints, PlayerId, UnitId};
use zoc::unit::{UnitTypeId, ReactionFireMode};
use zoc::db::Db;
use zoc::map::{Terrain, distance};
use zoc::state::InternalState;
use zoc::event::{CoreEvent, UnitInfo, AttackInfo, FireMode, MoveMode};
use zoc::pathfinder::{Pathfinder, tile_cost, path_cost, truncate_path};

fn size() -> Size2 {
    Size2 { w: 10, h: 8 }
}

fn pos(x: i32, y: i32) -> MapPos {
    MapPos { x, y }
}

fn info(id: i32, p: MapPos, type_id: i32, player: i32) -> UnitInfo {
    UnitInfo {
        unit_id: UnitId { id },
        pos: p,
        type_id: UnitTypeId { id: type_id },
        player_id: PlayerId { id: player },
        passenger_id: None,
    }
}

#[test]
fn db_holds_the_builtin_types() {
    let db = Db::new();
    assert_eq!(db.unit_types_count(), 4);
    assert_eq!(db.unit_type_id("tank"), UnitTypeId { id: 0 });
    assert_eq!(db.unit_type_id("truck"), UnitTypeId { id: 1 });
    assert_eq!(db.unit_type_id("soldier"), UnitTypeId { id: 2 });
    assert_eq!(db.unit_type_id("scout"), UnitTypeId { id: 3 });
    let soldier = db.unit_type(&UnitTypeId { id: 2 });
    assert_eq!(soldier.count, 4);
    assert_eq!(soldier.move_points, MovePoints { n: 4 });
    let rifle = db.weapon_type(&soldier.weapon_type_id);
    assert_eq!(rifle.name, "rifle");
    assert_eq!(rifle.max_distance, 3);
    assert_eq!(db.weapon_type_id("cannon").id, 0);
}

#[test]
fn new_state_has_three_trees() {
    let state = InternalState::new(&size());
    assert_eq!(state.units().len(), 0);
    let map = state.map();
    assert_eq!(*map.tile(&pos(4, 3)), Terrain::Trees);
    assert_eq!(*map.tile(&pos(4, 4)), Terrain::Trees);
    assert_eq!(*map.tile(&pos(4, 5)), Terrain::Trees);
    assert_eq!(*map.tile(&pos(4, 6)), Terrain::Plain);
    assert_eq!(*map.tile(&pos(0, 0)), Terrain::Plain);
}

#[test]
fn create_then_hide_restores_units() {
    let db = Db::new();
    let mut state = InternalState::new(&size());
    state.apply_event(&db, &CoreEvent::CreateUnit { unit_info: info(7, pos(2, 2), 2, 0) });
    let before = state.units().clone();
    state.apply_event(&db, &CoreEvent::ShowUnit { unit_info: info(8, pos(3, 3), 0, 1) });
    assert_eq!(state.units().len(), 2);
    // a shown unit's reactive points and passenger are not known
    assert_eq!(state.unit(UnitId { id: 8 }).reactive_attack_points, None);
    state.apply_event(&db, &CoreEvent::HideUnit { unit_id: UnitId { id: 8 } });
    assert_eq!(*state.units(), before);
    state.apply_event(&db, &CoreEvent::HideUnit { unit_id: UnitId { id: 7 } });
    assert_eq!(state.units().len(), 0);
}

#[test]
fn end_turn_refreshes_and_converts() {
    let db = Db::new();
    let mut state = InternalState::new(&size());
    state.apply_event(&db, &CoreEvent::CreateUnit { unit_info: info(0, pos(0, 0), 2, 0) });
    state.apply_event(&db, &CoreEvent::CreateUnit { unit_info: info(1, pos(5, 0), 2, 1) });
    state.apply_event(
        &db,
        &CoreEvent::Move { unit_id: UnitId { id: 0 }, from: pos(0, 0), to: pos(0, 1), mode: MoveMode::Fast, cost: MovePoints { n: 3 } },
    );
    assert_eq!(state.unit(UnitId { id: 0 }).move_points, MovePoints { n: 1 });
    state.apply_event(&db, &CoreEvent::EndTurn { old_id: PlayerId { id: 0 }, new_id: PlayerId { id: 1 } });
    let u0 = state.unit(UnitId { id: 0 });
    // the old player's unused attack points become reactive ones
    assert_eq!(u0.attack_points, 0);
    assert_eq!(u0.reactive_attack_points, Some(1 + 2));
    let u1 = state.unit(UnitId { id: 1 });
    assert_eq!(u1.morale, 110);
    state.apply_event(&db, &CoreEvent::EndTurn { old_id: PlayerId { id: 1 }, new_id: PlayerId { id: 0 } });
    let u0 = state.unit(UnitId { id: 0 });
    assert_eq!(u0.move_points, MovePoints { n: 4 });
    assert_eq!(u0.attack_points, 2);
    assert_eq!(u0.reactive_attack_points, Some(1));
    assert_eq!(u0.morale, 110);
}

#[test]
fn attacks_kill_and_spend_points() {
    let db = Db::new();
    let mut state = InternalState::new(&size());
    state.apply_event(&db, &CoreEvent::CreateUnit { unit_info: info(0, pos(0, 0), 0, 0) });
    state.apply_event(&db, &CoreEvent::CreateUnit { unit_info: info(1, pos(3, 0), 2, 1) });
    let attack = |killed: i32| CoreEvent::AttackUnit {
        attack_info: AttackInfo {
            attacker_id: Some(UnitId { id: 0 }),
            defender_id: UnitId { id: 1 },
            mode: FireMode::Active,
            killed,
            suppression: 10 + 20 * killed,
            remove_move_points: true,
            is_ambush: false,
        },
    };
    state.apply_event(&db, &attack(1));
    let d = state.unit(UnitId { id: 1 });
    assert_eq!(d.count, 3);
    assert_eq!(d.morale, 70);
    assert_eq!(d.move_points, MovePoints { n: 0 });
    assert_eq!(state.unit(UnitId { id: 0 }).attack_points, 1);
    state.apply_event(&db, &attack(3));
    assert!(state.get_unit(UnitId { id: 1 }).is_none());
    assert_eq!(state.unit(UnitId { id: 0 }).attack_points, 0);
}

#[test]
fn transporter_carries_its_passenger() {
    let db = Db::new();
    let mut state = InternalState::new(&size());
    state.apply_event(&db, &CoreEvent::CreateUnit { unit_info: info(0, pos(0, 1), 2, 0) });
    state.apply_event(&db, &CoreEvent::CreateUnit { unit_info: info(1, pos(0, 2), 1, 0) });
    state.apply_event(&db, &CoreEvent::LoadUnit { transporter_id: UnitId { id: 1 }, passenger_id: UnitId { id: 0 } });
    assert_eq!(state.unit(UnitId { id: 0 }).pos, pos(0, 2));
    assert_eq!(state.unit(UnitId { id: 0 }).move_points, MovePoints { n: 0 });
    assert_eq!(state.unit(UnitId { id: 1 }).passenger_id, Some(UnitId { id: 0 }));
    state.apply_event(
        &db,
        &CoreEvent::Move { unit_id: UnitId { id: 1 }, from: pos(0, 2), to: pos(1, 2), mode: MoveMode::Fast, cost: MovePoints { n: 1 } },
    );
    assert_eq!(state.unit(UnitId { id: 0 }).pos, pos(1, 2));
    assert_eq!(state.units_at(&pos(1, 2)).len(), 2);
    state.apply_event(
        &db,
        &CoreEvent::UnloadUnit { unit_info: UnitInfo { pos: pos(2, 2), ..info(0, pos(0, 0), 2, 0) }, transporter_id: UnitId { id: 1 } },
    );
    assert_eq!(state.unit(UnitId { id: 0 }).pos, pos(2, 2));
    assert_eq!(state.unit(UnitId { id: 1 }).passenger_id, None);
    state.apply_event(&db, &CoreEvent::SetReactionFireMode { unit_id: UnitId { id: 0 }, mode: ReactionFireMode::HoldFire });
    assert_eq!(state.unit(UnitId { id: 0 }).reaction_fire_mode, ReactionFireMode::HoldFire);
}

#[test]
fn can_apply_refuses_unknown_units() {
    let db = Db::new();
    let state = InternalState::new(&size());
    assert!(!state.can_apply(&db, &CoreEvent::HideUnit { unit_id: UnitId { id: 3 } }));
    assert!(state.can_apply(&db, &CoreEvent::CreateUnit { unit_info: info(3, pos(0, 0), 2, 0) }));
    assert!(!state.can_apply(&db, &CoreEvent::CreateUnit { unit_info: info(3, pos(0, 0), 9, 0) }));
}

#[test]
fn distances() {
    assert_eq!(distance(&pos(0, 0), &pos(0, 0)), 0);
    assert_eq!(distance(&pos(0, 0), &pos(2, 0)), 2);
    assert_eq!(distance(&pos(0, 0), &pos(3, 0)), 3);
    assert_eq!(distance(&pos(0, 0), &pos(0, 1)), 1);
    assert_eq!(distance(&pos(0, 0), &pos(1, 2)), 2);
    assert_eq!(distance(&pos(2, 5), &pos(7, 1)), distance(&pos(7, 1), &pos(2, 5)));
}

#[test]
fn movement_costs_and_paths() {
    let db = Db::new();
    let mut state = InternalState::new(&size());
    state.apply_event(&db, &CoreEvent::CreateUnit { unit_info: info(0, pos(2, 4), 2, 0) });
    state.apply_event(&db, &CoreEvent::CreateUnit { unit_info: info(1, pos(6, 4), 0, 1) });
    let soldier = state.unit(UnitId { id: 0 });
    let tank = state.unit(UnitId { id: 1 });
    assert_eq!(tile_cost(&db, &state, &soldier, &pos(3, 4)).n, 1);
    assert_eq!(tile_cost(&db, &state, &soldier, &pos(4, 4)).n, 2);
    assert_eq!(tile_cost(&db, &state, &tank, &pos(4, 4)).n, 5);
    // a tile with a unit on it costs one more
    assert_eq!(tile_cost(&db, &state, &soldier, &pos(6, 4)).n, 2);
    let path = vec![pos(3, 4), pos(4, 4), pos(5, 4)];
    assert_eq!(path_cost(&db, &state, &soldier, &path).n, 4);
    let cut = truncate_path(&db, &state, &[pos(3, 4), pos(4, 4), pos(5, 4), pos(6, 3)], &soldier);
    assert_eq!(cut, path);
    let mut pf = Pathfinder::new(&size());
    pf.fill_map(&db, &state, &soldier);
    assert_eq!(pf.get_map().tile(&pos(2, 4)).cost().n, 0);
    assert_eq!(pf.get_map().tile(&pos(3, 4)).cost().n, 1);
    // around the trees is as cheap as through them for a soldier
    assert_eq!(pf.get_map().tile(&pos(5, 4)).cost().n, 4);
    let p = pf.get_path(&pos(5, 4)).unwrap();
    assert_eq!(p.len() as i32 >= 3, true);
    assert_eq!(*p.last().unwrap(), pos(5, 4));
    assert_eq!(path_cost(&db, &state, &soldier, &p).n, 4);
    assert!(pf.get_path(&pos(2, 4)).is_none());
}
