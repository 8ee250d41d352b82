use zoc::types::{Size2, MapPos, PlayerId, UnitId};
use zoc::unit::UnitTypeId;
use zoc::db::Db;
use zoc::dir::{Dir as MapDir, dirs};
use zoc::map::{HexMap, MapPosIter};
use zoc::misc::clamp;
use zoc::sight::Sight;
use zoc::fow::Fow;
use zoc::state::InternalState;
use zoc::event::{CoreEvent, UnitInfo, MoveMode, AttackInfo, FireMode};
use zoc::types::MovePoints;
use zoc::filter::{filter_events, get_visible_enemies, show_or_hide_passive_enemies};
use zoc::view::dir::{Dir, DirIter};
use zoc::view::gui::{is_tap, point_in_rect, ScreenPos, ScreenSize, GuiIds};
use zoc::view::mesh::{MeshIdAllocator, MeshIdManager, MeshId, SlotId, building_mesh_id, wireframe_building_mesh_id};
use zoc::view::scene::{NodeId, vec_rem_opt, vec_rem};
use zoc::view::reinforcements::Options;
use zoc::view::score::{target_score, winner_id, game_is_over, Score};

fn pos(x: i32, y: i32) -> MapPos {
    MapPos { x, y }
}

#[test]
fn clamp_limits() {
    assert_eq!(clamp(5, 1, 4), 4);
    assert_eq!(clamp(0, 1, 4), 1);
    assert_eq!(clamp(3, 1, 4), 3);
}

#[test]
fn screen_directions() {
    for n in 0..6 {
        assert_eq!(Dir::from_int(n).to_int(), n);
    }
    assert_eq!(Dir::from_int(0), Dir::NorthEast);
    assert_eq!(Dir::from_int(5), Dir::NorthWest);
    let mut it = DirIter::new();
    let mut count = 0;
    while let Some(d) = it.next() {
        assert_eq!(d.to_int(), count);
        count += 1;
    }
    assert_eq!(count, 6);
    assert!(it.next().is_none());
}

#[test]
fn map_directions() {
    let mut it = dirs();
    let mut count = 0;
    while let Some(d) = it.next() {
        let p = pos(3, 3);
        let n = MapDir::get_neighbour_pos(&p, &d);
        assert_eq!(MapDir::get_dir_from_to(&p, &n), d);
        assert_eq!(MapDir::from_int(d.to_int()), d);
        count += 1;
    }
    assert_eq!(count, 6);
    // odd and even rows shift differently
    assert_eq!(MapDir::get_neighbour_pos(&pos(0, 0), &MapDir::East), pos(1, 0));
    assert_eq!(MapDir::get_neighbour_pos(&pos(0, 1), &MapDir::West), pos(-1, 1));
}

#[test]
fn taps_and_rectangles() {
    let p = |x: i32, y: i32| ScreenPos { x, y };
    assert!(is_tap(p(100, 100), p(110, 95)));
    assert!(!is_tap(p(100, 100), p(120, 100)));
    assert!(!is_tap(p(100, 130), p(100, 100)));
    let dim = ScreenSize { w: 10, h: 5 };
    assert!(point_in_rect(p(10, 10), p(10, 10), dim));
    assert!(point_in_rect(p(20, 15), p(10, 10), dim));
    assert!(!point_in_rect(p(21, 15), p(10, 10), dim));
    assert!(!point_in_rect(p(9, 12), p(10, 10), dim));
}

#[test]
fn ids_count_up() {
    let mut gui = GuiIds::new();
    assert_eq!(gui.new_gui_id().id, 1);
    assert_eq!(gui.new_gui_id().id, 2);
    let mut meshes = MeshIdAllocator::new();
    assert_eq!(meshes.allocate_id().id, 0);
    assert_eq!(meshes.allocate_id().id, 1);
    assert_eq!(target_score().n, 5);
    assert_eq!(Options::new().unit_types.len(), 0);
}

#[test]
fn removing_node_ids() {
    let n = |id: i32| NodeId { id };
    let mut v = vec![n(1), n(2), n(3), n(4)];
    assert_eq!(vec_rem_opt(&mut v, n(2)), Some(n(2)));
    assert_eq!(v, vec![n(1), n(4), n(3)]);
    assert_eq!(vec_rem_opt(&mut v, n(9)), None);
    assert_eq!(v, vec![n(1), n(4), n(3)]);
    vec_rem(&mut v, n(3));
    assert_eq!(v, vec![n(1), n(4)]);
}

#[test]
fn map_tiles_and_iteration() {
    let size = Size2 { w: 3, h: 2 };
    let mut m = HexMap::new(&size, 0u8);
    m.set_tile(&pos(2, 1), 7);
    assert_eq!(*m.tile(&pos(2, 1)), 7);
    assert_eq!(*m.tile(&pos(1, 1)), 0);
    assert!(m.is_inboard(&pos(2, 1)));
    assert!(!m.is_inboard(&pos(3, 0)));
    let mut it = MapPosIter::new(&size);
    let mut seen = Vec::new();
    while let Some(p) = it.next() {
        seen.push((p.x, p.y));
    }
    assert_eq!(seen, vec![(0, 0), (1, 0), (2, 0), (0, 1), (1, 1), (2, 1)]);
}

#[test]
fn sight_table() {
    let size = Size2 { w: 4, h: 4 };
    let mut sight = Sight::new(&size, vec![6, 8]).unwrap();
    assert!(sight.has_range(6) && sight.has_range(8) && !sight.has_range(7));
    assert!(!sight.can_see(6, &pos(0, 0), &pos(1, 1)));
    sight.mark(6, &pos(0, 0), &pos(1, 1));
    assert!(sight.can_see(6, &pos(0, 0), &pos(1, 1)));
    assert!(!sight.can_see(8, &pos(0, 0), &pos(1, 1)));
    assert!(!sight.can_see(6, &pos(1, 1), &pos(0, 0)));
}

fn info(id: i32, p: MapPos, type_id: i32, player: i32) -> UnitInfo {
    UnitInfo {
        unit_id: UnitId { id },
        pos: p,
        type_id: UnitTypeId { id: type_id },
        player_id: PlayerId { id: player },
        passenger_id: None,
    }
}

#[test]
fn fog_of_war_follows_units() {
    let db = Db::new();
    let size = Size2 { w: 10, h: 8 };
    let mut sight = Sight::new(&size, vec![6, 8]).unwrap();
    sight.mark(6, &pos(0, 0), &pos(1, 0));
    let mut state = InternalState::new(&size);
    let mut fow = Fow::new(&size, &PlayerId { id: 0 });
    assert!(!fow.is_visible(&pos(0, 0)));
    let create = CoreEvent::CreateUnit { unit_info: info(0, pos(0, 0), 2, 0) };
    state.apply_event(&db, &create);
    fow.apply_event(&db, &state, &sight, &create);
    assert!(fow.is_visible(&pos(0, 0)));
    assert!(fow.is_visible(&pos(1, 0)));
    assert!(!fow.is_visible(&pos(2, 0)));
    // an enemy's unit shows nothing
    let mut other = Fow::new(&size, &PlayerId { id: 1 });
    other.apply_event(&db, &state, &sight, &create);
    assert!(!other.is_visible(&pos(0, 0)));
    // a new turn shows exactly what the units see
    let mv = CoreEvent::Move { unit_id: UnitId { id: 0 }, from: pos(0, 0), to: pos(0, 1), mode: MoveMode::Fast, cost: MovePoints { n: 1 } };
    state.apply_event(&db, &mv);
    let end = CoreEvent::EndTurn { old_id: PlayerId { id: 1 }, new_id: PlayerId { id: 0 } };
    state.apply_event(&db, &end);
    fow.apply_event(&db, &state, &sight, &end);
    assert!(fow.is_visible(&pos(0, 1)));
    assert!(!fow.is_visible(&pos(0, 0)));
    assert!(!fow.is_visible(&pos(1, 0)));
}

#[test]
fn filtering_events() {
    let db = Db::new();
    let size = Size2 { w: 10, h: 8 };
    let sight = Sight::new(&size, vec![6, 8]).unwrap();
    let mut state = InternalState::new(&size);
    let mine = CoreEvent::CreateUnit { unit_info: info(0, pos(0, 0), 2, 0) };
    let theirs = CoreEvent::CreateUnit { unit_info: info(1, pos(5, 5), 2, 1) };
    state.apply_event(&db, &mine);
    state.apply_event(&db, &theirs);
    let mut fow = Fow::new(&size, &PlayerId { id: 0 });
    fow.apply_event(&db, &state, &sight, &mine);
    let p0 = PlayerId { id: 0 };
    // own events pass, an unseen enemy's do not
    let (events, active) = filter_events(&state, &p0, &fow, &mine);
    assert_eq!(events, vec![mine]);
    assert_eq!(active, vec![UnitId { id: 0 }]);
    let (events, active) = filter_events(&state, &p0, &fow, &theirs);
    assert!(events.is_empty() && active.is_empty());
    // the enemy walks into sight: it is shown first, then its move
    let mv = CoreEvent::Move { unit_id: UnitId { id: 1 }, from: pos(5, 5), to: pos(0, 0), mode: MoveMode::Fast, cost: MovePoints { n: 1 } };
    state.apply_event(&db, &mv);
    let (events, active) = filter_events(&state, &p0, &fow, &mv);
    assert_eq!(events.len(), 2);
    assert!(matches!(events[0], CoreEvent::ShowUnit { unit_info } if unit_info.pos == pos(5, 5)));
    assert_eq!(events[1], mv);
    assert_eq!(active, vec![UnitId { id: 1 }]);
    // the visible enemy, and show and hide events for passive ones
    let seen = get_visible_enemies(&state, &fow, &p0);
    assert_eq!(seen, vec![UnitId { id: 1 }]);
    let shown = show_or_hide_passive_enemies(state.units(), &vec![], &vec![], &seen);
    assert_eq!(shown.len(), 1);
    assert!(matches!(shown[0], CoreEvent::ShowUnit { unit_info } if unit_info.unit_id == UnitId { id: 1 }));
    let hidden = show_or_hide_passive_enemies(state.units(), &vec![], &seen, &vec![]);
    assert_eq!(hidden, vec![CoreEvent::HideUnit { unit_id: UnitId { id: 1 } }]);
    let none = show_or_hide_passive_enemies(state.units(), &seen, &vec![], &seen);
    assert!(none.is_empty());
}

#[test]
fn ambush_hides_the_attacker_from_its_victim() {
    let db = Db::new();
    let size = Size2 { w: 10, h: 8 };
    let sight = Sight::new(&size, vec![6, 8]).unwrap();
    let mut state = InternalState::new(&size);
    state.apply_event(&db, &CoreEvent::CreateUnit { unit_info: info(0, pos(0, 0), 2, 0) });
    state.apply_event(&db, &CoreEvent::CreateUnit { unit_info: info(1, pos(2, 0), 2, 1) });
    let mut fow = Fow::new(&size, &PlayerId { id: 0 });
    fow.apply_event(&db, &state, &sight, &CoreEvent::CreateUnit { unit_info: info(0, pos(0, 0), 2, 0) });
    let attack = |is_ambush: bool| CoreEvent::AttackUnit {
        attack_info: AttackInfo {
            attacker_id: Some(UnitId { id: 1 }),
            defender_id: UnitId { id: 0 },
            mode: FireMode::Active,
            killed: 1,
            suppression: 30,
            remove_move_points: false,
            is_ambush,
        },
    };
    let p0 = PlayerId { id: 0 };
    let (events, active) = filter_events(&state, &p0, &fow, &attack(true));
    assert_eq!(events.len(), 1);
    assert!(matches!(events[0], CoreEvent::AttackUnit { attack_info } if attack_info.attacker_id.is_none() && attack_info.killed == 1));
    assert_eq!(active, vec![UnitId { id: 0 }]);
    // without ambush the unseen attacker is shown first
    let (events, active) = filter_events(&state, &p0, &fow, &attack(false));
    assert_eq!(events.len(), 2);
    assert!(matches!(events[0], CoreEvent::ShowUnit { unit_info } if unit_info.unit_id == UnitId { id: 1 }));
    assert_eq!(events[1], attack(false));
    assert_eq!(active, vec![UnitId { id: 1 }, UnitId { id: 0 }]);
    // the attacker's own player always sees the whole attack
    let (events, _) = filter_events(&state, &PlayerId { id: 1 }, &fow, &attack(true));
    assert_eq!(events, vec![attack(true)]);
}

#[test]
fn winner_and_end_of_game() {
    let s = |id: i32, n: i32| (PlayerId { id }, Score { n });
    assert_eq!(winner_id(&vec![s(0, 0), s(1, 0)]), PlayerId { id: 0 });
    assert_eq!(winner_id(&vec![s(0, 2), s(1, 3)]), PlayerId { id: 1 });
    assert_eq!(winner_id(&vec![s(1, 3), s(0, 3)]), PlayerId { id: 1 });
    assert!(!game_is_over(&vec![s(0, 4), s(1, 0)]));
    assert!(game_is_over(&vec![s(0, 4), s(1, 5)]));
}

fn mesh_ids() -> MeshIdManager {
    let m = |id: i32| MeshId { id };
    MeshIdManager {
        big_building_mesh_id: m(0),
        building_mesh_id: m(1),
        big_building_mesh_w_id: m(2),
        building_mesh_w_id: m(3),
        road_mesh_id: m(4),
        trees_mesh_id: m(5),
        shell_mesh_id: m(6),
        marker_mesh_id: m(7),
        walkable_mesh_id: m(8),
        targets_mesh_id: m(9),
        map_mesh_id: m(10),
        water_mesh_id: m(11),
        selection_marker_mesh_id: m(12),
        smoke_mesh_id: m(13),
        fow_tile_mesh_id: m(14),
        reinforcement_sector_tile_mesh_id: m(15),
    }
}

#[test]
fn building_meshes_by_slot() {
    let ids = mesh_ids();
    assert_eq!(building_mesh_id(&ids, &SlotId::Id(2)), MeshId { id: 1 });
    assert_eq!(building_mesh_id(&ids, &SlotId::WholeTile), MeshId { id: 0 });
    assert_eq!(wireframe_building_mesh_id(&ids, &SlotId::Id(0)), MeshId { id: 3 });
    assert_eq!(wireframe_building_mesh_id(&ids, &SlotId::WholeTile), MeshId { id: 2 });
}

#[test]
fn seen_again_needs_no_unit() {
    // an id seen before and still seen is neither shown nor hidden, even
    // when it names no known unit
    let none = show_or_hide_passive_enemies(&vec![], &vec![], &vec![UnitId { id: 7 }], &vec![UnitId { id: 7 }]);
    assert!(none.is_empty());
}
