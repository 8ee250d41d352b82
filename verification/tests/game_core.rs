use zoc::types::{Size2, MapPos, MovePoints, PlayerId, UnitId};
use zoc::unit::{UnitTypeId, ReactionFireMode};
use zoc::sight::Sight;
use zoc::map::distance;
use zoc::event::{Command, CoreEvent, MoveMode, FireMode};
use zoc::rules::CommandError;
use zoc::game::{Core, Options, GameType, get_players_list, ShotDice};

fn pos(x: i32, y: i32) -> MapPos {
    MapPos { x, y }
}

fn sight(see_all: bool) -> Sight {
    let size = Size2 { w: 10, h: 8 };
    let mut sight = Sight::new(&size, vec![6, 8]).unwrap();
    if see_all {
        for range in [6, 8] {
            for fy in 0..8 {
                for fx in 0..10 {
                    for ty in 0..8 {
                        for tx in 0..10 {
                            if distance(&pos(fx, fy), &pos(tx, ty)) <= range {
                            sight.mark(range, &pos(fx, fy), &pos(tx, ty));
                        }
                        }
                    }
                }
            }
        }
    }
    sight
}

fn drain(core: &mut Core) -> Vec<CoreEvent> {
    let mut events = Vec::new();
    while let Some(e) = core.get_event() {
        events.push(e);
    }
    events
}

#[test]
fn new_game_places_fourteen_units() {
    let core = Core::new(&Options::default(), sight(false));
    let units = core.state().units();
    assert_eq!(units.len(), 14);
    assert_eq!(units[0].pos, pos(0, 1));
    assert_eq!(units[0].type_id, UnitTypeId { id: 0 });
    assert_eq!(units[0].player_id, PlayerId { id: 0 });
    assert_eq!(units[11].pos, pos(8, 4));
    assert_eq!(units[11].type_id, UnitTypeId { id: 1 });
    assert_eq!(units[13].player_id, PlayerId { id: 1 });
    for (i, u) in units.iter().enumerate() {
        assert_eq!(u.id, UnitId { id: i as i32 });
    }
    assert_eq!(core.player_id(), PlayerId { id: 0 });
    assert!(!core.player().is_ai);
    assert_eq!(core.map_size(), Size2 { w: 10, h: 8 });
}

#[test]
fn players_lists() {
    let hot = get_players_list(&GameType::Hotseat);
    assert_eq!(hot.len(), 2);
    assert!(!hot[0].is_ai && !hot[1].is_ai);
    let single = get_players_list(&GameType::SingleVsAi);
    assert!(!single[0].is_ai && single[1].is_ai);
    assert_eq!(GameType::default(), GameType::Hotseat);
}

#[test]
fn own_units_are_always_shown_enemies_only_in_sight() {
    let mut blind = Core::new(&Options::default(), sight(false));
    let events = drain(&mut blind);
    // player 0 is told of its seven units, and sees nothing of player 1
    assert_eq!(events.len(), 7);
    for e in &events {
        match e {
            CoreEvent::CreateUnit { unit_info } => assert_eq!(unit_info.player_id, PlayerId { id: 0 }),
            _ => panic!("unexpected event"),
        }
    }
    let mut seeing = Core::new(&Options::default(), sight(true));
    let events = drain(&mut seeing);
    // with every tile within range in sight, the enemy still stands beyond
    // the range of all of player 0's units
    assert_eq!(events.iter().filter(|e| matches!(e, CoreEvent::CreateUnit { .. })).count(), 7);
}

#[test]
fn create_unit_command() {
    let mut core = Core::new(&Options::default(), sight(false));
    drain(&mut core);
    assert_eq!(core.do_command(&Command::CreateUnit { pos: pos(0, 1) }), Err(CommandError::TileIsOccupied));
    assert_eq!(core.do_command(&Command::CreateUnit { pos: pos(3, 3) }), Ok(()));
    let u = *core.state().units().last().unwrap();
    assert_eq!(u.id, UnitId { id: 14 });
    assert_eq!(u.pos, pos(3, 3));
    assert_eq!(u.type_id, UnitTypeId { id: 2 });
    assert_eq!(u.player_id, PlayerId { id: 0 });
    match core.get_event() {
        Some(CoreEvent::CreateUnit { unit_info }) => assert_eq!(unit_info.unit_id, UnitId { id: 14 }),
        _ => panic!("expected the new unit"),
    }
}

#[test]
fn end_turn_passes_to_the_other_player_and_back() {
    let mut core = Core::new(&Options::default(), sight(false));
    assert_eq!(core.next_player_id(&PlayerId { id: 0 }), PlayerId { id: 1 });
    assert_eq!(core.next_player_id(&PlayerId { id: 1 }), PlayerId { id: 0 });
    assert_eq!(core.do_command(&Command::EndTurn), Ok(()));
    assert_eq!(core.player_id(), PlayerId { id: 1 });
    let events = drain(&mut core);
    assert!(events.iter().any(|e| matches!(e, CoreEvent::EndTurn { .. })));
    assert_eq!(core.do_command(&Command::EndTurn), Ok(()));
    assert_eq!(core.player_id(), PlayerId { id: 0 });
}

#[test]
fn refused_command_changes_nothing() {
    let mut core = Core::new(&Options::default(), sight(false));
    drain(&mut core);
    let before = core.state().units().clone();
    let r = core.do_command(&Command::Move { unit_id: UnitId { id: 99 }, path: vec![pos(1, 1)], mode: MoveMode::Fast });
    assert_eq!(r, Err(CommandError::BadUnitId));
    assert_eq!(*core.state().units(), before);
    assert!(core.get_event().is_none());
}

#[test]
fn move_command_moves_step_by_step() {
    let mut core = Core::new(&Options::default(), sight(false));
    drain(&mut core);
    // the soldier at (0, 2) walks two tiles
    let r = core.do_command(&Command::Move { unit_id: UnitId { id: 1 }, path: vec![pos(1, 2), pos(2, 2)], mode: MoveMode::Fast });
    assert_eq!(r, Ok(()));
    let u = core.state().unit(UnitId { id: 1 });
    assert_eq!(u.pos, pos(2, 2));
    assert_eq!(u.move_points, MovePoints { n: 2 });
    let moves: Vec<CoreEvent> = drain(&mut core).into_iter().filter(|e| matches!(e, CoreEvent::Move { .. })).collect();
    assert_eq!(moves.len(), 2);
}

#[test]
fn reaction_fire_mode_command() {
    let mut core = Core::new(&Options::default(), sight(false));
    let r = core.do_command(&Command::SetReactionFireMode { unit_id: UnitId { id: 1 }, mode: ReactionFireMode::HoldFire });
    assert_eq!(r, Ok(()));
    assert_eq!(core.state().unit(UnitId { id: 1 }).reaction_fire_mode, ReactionFireMode::HoldFire);
}

/// A game with a soldier of each player two tiles apart: unit 14 of
/// player 0 on (2, 2), unit 15 of player 1 on (4, 2); player 0 to move.
fn duel() -> Core {
    let mut core = Core::new(&Options::default(), sight(true));
    assert_eq!(core.do_command(&Command::CreateUnit { pos: pos(2, 2) }), Ok(()));
    assert_eq!(core.do_command(&Command::EndTurn), Ok(()));
    assert_eq!(core.do_command(&Command::CreateUnit { pos: pos(4, 2) }), Ok(()));
    assert_eq!(core.do_command(&Command::EndTurn), Ok(()));
    core
}

#[test]
fn attacks_spend_points_and_never_kill_more_than_there_are() {
    for _ in 0..10 {
        let mut core = duel();
        let attack = Command::AttackUnit { attacker_id: UnitId { id: 14 }, defender_id: UnitId { id: 15 } };
        assert_eq!(core.do_command(&attack), Ok(()));
        // the attacker may fall to reaction fire; if it stands, it spent a point
        if let Some(attacker) = core.state().get_unit(UnitId { id: 14 }) {
            assert_eq!(attacker.attack_points, 1);
        }
        match core.state().get_unit(UnitId { id: 15 }) {
            Some(after) => assert!(after.count >= 1 && after.count <= 4),
            None => {},
        }
        let attacks: Vec<CoreEvent> = drain(&mut core)
            .into_iter()
            .filter(|e| matches!(e, CoreEvent::AttackUnit { .. }))
            .collect();
        assert!(attacks.len() >= 1);
        match attacks[0] {
            CoreEvent::AttackUnit { attack_info } => {
                assert_eq!(attack_info.attacker_id, Some(UnitId { id: 14 }));
                assert!(attack_info.killed >= 0 && attack_info.killed <= 4);
                assert_eq!(attack_info.suppression, 10 + 20 * attack_info.killed);
            },
            _ => unreachable!(),
        }
    }
}

#[test]
fn dice_outcomes_vary() {
    // with fair dice a soldier's shot at a soldier hits one time in five,
    // and kills one to four men when it hits; sixty shots that all kill
    // exactly one man would mean the dice never roll
    let mut kills = Vec::new();
    for _ in 0..60 {
        let mut core = duel();
        let attack = Command::AttackUnit { attacker_id: UnitId { id: 14 }, defender_id: UnitId { id: 15 } };
        assert_eq!(core.do_command(&attack), Ok(()));
        for e in drain(&mut core) {
            if let CoreEvent::AttackUnit { attack_info } = e {
                if attack_info.attacker_id == Some(UnitId { id: 14 }) {
                    kills.push(attack_info.killed);
                }
            }
        }
    }
    assert_eq!(kills.len(), 60);
    assert!(kills.iter().any(|k| *k != 1));
}

#[test]
fn computer_plays_its_turn_and_hands_it_back() {
    let mut core = Core::new(&Options { game_type: GameType::SingleVsAi }, sight(true));
    drain(&mut core);
    assert_eq!(core.do_command(&Command::EndTurn), Ok(()));
    assert_eq!(core.player_id(), PlayerId { id: 0 });
    assert!(core.state().units().len() <= 14);
}

#[test]
fn attack_outcome_follows_the_dice() {
    let core = duel();
    let a = core.state().unit(UnitId { id: 14 });
    let d = core.state().unit(UnitId { id: 15 });
    // soldier on soldier with a rifle at distance 2: hit below -1, pierce below 5, wound below 0
    let hits = ShotDice { hit: -5, pierce: 4, wound: -1, casualties: 3, ambush: 5 };
    let info = core.attack_outcome(&a, &d, FireMode::Active, &hits, true);
    assert_eq!(info.killed, 3);
    assert_eq!(info.suppression, 70);
    assert_eq!(info.attacker_id, Some(UnitId { id: 14 }));
    assert_eq!(info.defender_id, UnitId { id: 15 });
    assert!(!info.is_ambush);
    let missed = ShotDice { hit: -1, ..hits };
    let info = core.attack_outcome(&a, &d, FireMode::Active, &missed, false);
    assert_eq!(info.killed, 0);
    assert_eq!(info.suppression, 10);
    assert!(info.is_ambush);
    let not_ambush = ShotDice { ambush: 3, wound: 0, ..hits };
    let info = core.attack_outcome(&a, &d, FireMode::Reactive, &not_ambush, false);
    assert_eq!(info.killed, 0);
    assert!(!info.is_ambush);
    assert_eq!(info.mode, FireMode::Reactive);
}
