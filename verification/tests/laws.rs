use zoc::types::{Size2, MapPos, MovePoints, PlayerId, UnitId};
use zoc::unit::UnitTypeId;
use zoc::db::Db;
use zoc::map::{ring_iter, spiral_iter, distance};
use zoc::state::InternalState;
use zoc::event::{Command, CoreEvent, UnitInfo};
use zoc::pathfinder::{Pathfinder, truncate_path};
use zoc::rules::{find_next_player_unit_id, find_prev_player_unit_id};
use zoc::ai::Ai;

fn size() -> Size2 {
    Size2 { w: 10, h: 8 }
}

fn pos(x: i32, y: i32) -> MapPos {
    MapPos { x, y }
}

fn info(id: i32, p: MapPos, type_id: i32, player: i32) -> UnitInfo {
    UnitInfo {
        unit_id: UnitId { id },
        pos: p,
        type_id: UnitTypeId { id: type_id },
        player_id: PlayerId { id: player },
        passenger_id: None,
    }
}

fn collect_ring(center: MapPos, radius: i32) -> Vec<MapPos> {
    let mut it = ring_iter(&center, radius);
    let mut out = Vec::new();
    while let Some(p) = it.next() {
        out.push(p);
    }
    assert!(it.next().is_none());
    out
}

#[test]
fn ring_tiles_are_distinct_neighbours_at_the_radius() {
    let center = pos(5, 5);
    for radius in 1..4 {
        let ring = collect_ring(center, radius);
        assert_eq!(ring.len() as i32, 6 * radius);
        for (i, p) in ring.iter().enumerate() {
            assert_eq!(distance(&center, p), radius);
            let q = ring[(i + 1) % ring.len()];
            assert_eq!(distance(p, &q), 1);
            for p2 in ring.iter().skip(i + 1) {
                assert_ne!(p, p2);
            }
        }
    }
}

#[test]
fn spiral_has_all_rings_and_not_the_centre() {
    let center = pos(5, 5);
    let mut it = spiral_iter(&center, 3);
    let mut out = Vec::new();
    while let Some(p) = it.next() {
        out.push(p);
    }
    assert!(it.next().is_none());
    assert_eq!(out.len(), 3 * 3 * 4);
    for p in &out {
        assert_ne!(*p, center);
        let d = distance(&center, p);
        assert!(1 <= d && d <= 3);
    }
}

#[test]
fn distance_far_from_the_origin() {
    assert_eq!(distance(&pos(100_000_000, 0), &pos(0, 0)), 100_000_000);
    assert_eq!(distance(&pos(0, 200_000_000), &pos(0, 0)), 200_000_000);
}

#[test]
fn truncation_keeps_affordable_paths_and_drops_dear_first_steps() {
    let db = Db::new();
    let mut state = InternalState::new(&size());
    state.apply_event(&db, &CoreEvent::CreateUnit { unit_info: info(0, pos(2, 4), 2, 0) });
    let soldier = state.unit(UnitId { id: 0 });
    let path = vec![pos(3, 4), pos(4, 4)];
    assert_eq!(truncate_path(&db, &state, &path, &soldier), path);
    let mut tired = soldier;
    tired.move_points = MovePoints { n: 1 };
    // the trees at (4, 4) cost the soldier two points
    assert!(truncate_path(&db, &state, &[pos(4, 4), pos(5, 4)], &tired).is_empty());
}

#[test]
fn path_is_missing_only_for_the_start_and_unreached_tiles() {
    let db = Db::new();
    let mut state = InternalState::new(&size());
    state.apply_event(&db, &CoreEvent::CreateUnit { unit_info: info(0, pos(2, 4), 2, 0) });
    let soldier = state.unit(UnitId { id: 0 });
    let mut pf = Pathfinder::new(&size());
    pf.fill_map(&db, &state, &soldier);
    assert!(pf.get_path(&pos(2, 4)).is_none());
    let p = pf.get_path(&pos(9, 7)).unwrap();
    assert_eq!(*p.last().unwrap(), pos(9, 7));
    assert_eq!(distance(&pos(2, 4), &p[0]), 1);
}

#[test]
fn next_and_previous_unit_undo_each_other() {
    let db = Db::new();
    let mut state = InternalState::new(&size());
    for (id, x, player) in [(0, 1, 0), (1, 2, 1), (2, 3, 0), (3, 4, 0)] {
        state.apply_event(&db, &CoreEvent::CreateUnit { unit_info: info(id, pos(x, 1), 2, player) });
    }
    let p0 = PlayerId { id: 0 };
    for id in [0, 2, 3] {
        let u = UnitId { id };
        let next = find_next_player_unit_id(&state, &p0, &u);
        assert_eq!(find_prev_player_unit_id(&state, &p0, &next), u);
        let prev = find_prev_player_unit_id(&state, &p0, &u);
        assert_eq!(find_next_player_unit_id(&state, &p0, &prev), u);
    }
}

#[test]
fn computer_attacks_the_first_enemy_within_weapon_range() {
    let db = Db::new();
    let mut ai = Ai::new(&PlayerId { id: 1 }, &size());
    // a computer soldier next to an enemy soldier: in range of its rifle
    ai.apply_event(&db, &CoreEvent::CreateUnit { unit_info: info(0, pos(5, 1), 2, 1) });
    ai.apply_event(&db, &CoreEvent::CreateUnit { unit_info: info(1, pos(6, 1), 2, 0) });
    match ai.get_command(&db) {
        Command::AttackUnit { attacker_id, defender_id } => {
            assert_eq!(attacker_id, UnitId { id: 0 });
            assert_eq!(defender_id, UnitId { id: 1 });
        },
        _ => panic!("expected an attack"),
    }
}

#[test]
fn computer_moves_towards_a_far_enemy() {
    let db = Db::new();
    let mut ai = Ai::new(&PlayerId { id: 1 }, &size());
    ai.apply_event(&db, &CoreEvent::CreateUnit { unit_info: info(0, pos(9, 1), 2, 1) });
    ai.apply_event(&db, &CoreEvent::CreateUnit { unit_info: info(1, pos(0, 1), 2, 0) });
    match ai.get_command(&db) {
        Command::Move { unit_id, path, .. } => {
            assert_eq!(unit_id, UnitId { id: 0 });
            assert!(!path.is_empty());
            assert_eq!(distance(&pos(9, 1), &path[0]), 1);
        },
        _ => panic!("expected a move"),
    }
}
