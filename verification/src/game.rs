//! The game core: it checks and carries out players' commands, keeps the
//! full game state, and queues for each player the events it may see.

use vstd::prelude::*;
use rand::Rng;
use crate::types::{ZInt, Size2, MapPos, MovePoints, PlayerId, UnitId};
use crate::unit::{Unit, UnitClass, UnitTypeId, ReactionFireMode};
use crate::db::{Db, standard_unit_types, standard_weapon_types};
use crate::map::{inboard, hex_distance, distance, small_size};
use crate::sight::Sight;
use crate::fow::{Fow, sight_fits, units_inboard, seen_from, sight_range};
use crate::state::{InternalState, has_unit, unit_of, unit_index, ids_distinct, apply_event_spec,
    event_applicable};
use crate::event::{Command, CoreEvent, UnitInfo, AttackInfo, FireMode, MoveMode, info_of,
    unit_to_info};
use crate::rules::{rules_context, attack_check, check_attack, MINIMAL_OK_MORALE};
use crate::pathfinder::UNITS_LIMIT;

verus! {

/// A random integer `r` with `low <= r < high`.
///
/// Calls `rand::Rng::gen_range` with the range `low..high` on
/// `rand::thread_rng()`. The contract claims only that the result lies
/// in the range, as the crate's documentation promises for a non-empty
/// range; which value comes out rests on chance.
#[verifier::external_body]
fn random_in(low: ZInt, high: ZInt) -> (r: ZInt)
    requires
        low < high,
    ensures
        low <= r < high,
{
    rand::thread_rng().gen_range(low..high)
}

/// The dice of one shot: the hit, pierce and wound tests, each rolled in
/// `-5..5`; the casualty roll in `1..5`; and the ambush roll in `1..10`.
#[derive(Clone, Copy, Debug, PartialEq, Eq, Structural)]
pub struct ShotDice {
    pub hit: ZInt,
    pub pierce: ZInt,
    pub wound: ZInt,
    pub casualties: ZInt,
    pub ambush: ZInt,
}

/// Each die of `d` lies in its range.
pub open spec fn dice_in_range(d: ShotDice) -> bool {
    &&& -5 <= d.hit < 5
    &&& -5 <= d.pierce < 5
    &&& -5 <= d.wound < 5
    &&& 1 <= d.casualties < 5
    &&& 1 <= d.ambush < 10
}

/// Rolls the dice of one shot.
fn roll_dice() -> (d: ShotDice)
    ensures
        dice_in_range(d),
{
    let hit = random_in(-5, 5);
    let pierce = random_in(-5, 5);
    let wound = random_in(-5, 5);
    let casualties = random_in(1, 5);
    let ambush = random_in(1, 10);
    ShotDice { hit, pierce, wound, casualties, ambush }
}

/// What decides a game: whether the second player is the computer.
#[derive(Clone, Copy, Debug, PartialEq, Eq, Structural)]
pub enum GameType {
    Hotseat,
    SingleVsAi,
}

impl Default for GameType {
    fn default() -> (r: GameType)
        ensures
            r == GameType::Hotseat,
    {
        GameType::Hotseat
    }
}

/// How a game is set up.
#[derive(Clone, Copy, Debug, PartialEq, Eq, Structural)]
pub struct Options {
    pub game_type: GameType,
}

impl Default for Options {
    fn default() -> (r: Options)
        ensures
            r.game_type == GameType::Hotseat,
    {
        Options { game_type: GameType::Hotseat }
    }
}

/// A participant of the game.
#[derive(Clone, Copy, Debug, PartialEq, Eq, Structural)]
pub struct Player {
    pub id: PlayerId,
    pub is_ai: bool,
}

/// The two players of a game of the given type: the first one human,
/// the second one the computer in a single-player game.
pub open spec fn players_of(game_type: GameType) -> Seq<Player> {
    seq![
        Player { id: PlayerId { id: 0 }, is_ai: false },
        Player { id: PlayerId { id: 1 }, is_ai: game_type == GameType::SingleVsAi },
    ]
}

/// The two players of a game of the given type.
pub fn get_players_list(game_type: &GameType) -> (players: Vec<Player>)
    ensures
        players@ == players_of(*game_type),
{
    let mut players: Vec<Player> = Vec::new();
    players.push(Player { id: PlayerId { id: 0 }, is_ai: false });
    players.push(Player { id: PlayerId { id: 1 }, is_ai: *game_type == GameType::SingleVsAi });
    proof { assert(players@ =~= players_of(*game_type)); }
    players
}

/// The player after `id` among `count` players, wrapping around to the
/// first one after the last one.
pub open spec fn next_player_spec(id: int, count: int) -> int {
    if id + 1 == count {
        0
    } else {
        id + 1
    }
}

/// What the core keeps true of each of its units: it stands on the
/// map, its reactive attack points are known and it belongs to one of
/// the two players.
pub open spec fn unit_ok(u: Unit, size: Size2) -> bool {
    &&& inboard(size, u.pos)
    &&& u.reactive_attack_points is Some
    &&& 0 <= u.player_id.id < 2
    &&& u.count >= 1
}

/// Every unit of `units` is `unit_ok`.
pub open spec fn units_ok(units: Seq<Unit>, size: Size2) -> bool {
    forall|i: int| 0 <= i < units.len() ==> unit_ok(#[trigger] units[i], size)
}

/// What the core requires of an event it makes, besides that the state
/// can take it: a move starts where its unit stands and ends on the map;
/// a new unit stands on the map and belongs to a player; an attack names
/// an existing attacker other than the defender; an unload moves an
/// existing passenger onto the map; shows and hides are for players'
/// views only.
pub open spec fn core_event_ok(units: Seq<Unit>, size: Size2, event: CoreEvent) -> bool {
    match event {
        CoreEvent::Move { unit_id, from, to, .. } => {
            &&& has_unit(units, unit_id)
            &&& from == unit_of(units, unit_id).pos
            &&& inboard(size, to)
        },
        CoreEvent::EndTurn { .. } => true,
        CoreEvent::CreateUnit { unit_info } => inboard(size, unit_info.pos) && 0 <= unit_info.player_id.id < 2,
        CoreEvent::AttackUnit { attack_info } => match attack_info.attacker_id {
            Some(a) => a != attack_info.defender_id && has_unit(units, a),
            None => false,
        },
        CoreEvent::ShowUnit { .. } => false,
        CoreEvent::HideUnit { .. } => false,
        CoreEvent::LoadUnit { .. } => true,
        CoreEvent::UnloadUnit { unit_info, .. } => has_unit(units, unit_info.unit_id) && inboard(
            size,
            unit_info.pos,
        ),
        CoreEvent::SetReactionFireMode { .. } => true,
    }
}

/// Replacing a unit by a good one with the same id keeps all units good.
proof fn lemma_with_unit_ok(units: Seq<Unit>, size: Size2, id: UnitId, u: Unit)
    requires
        ids_distinct(units),
        has_unit(units, id),
        u.id == id,
        units_ok(units, size),
        unit_ok(u, size),
    ensures
        units_ok(crate::state::with_unit(units, id, u), size),
{
    let k = unit_index(units, id);
    assert(0 <= k < units.len());
    let n = crate::state::with_unit(units, id, u);
    assert forall|i: int| 0 <= i < n.len() implies unit_ok(#[trigger] n[i], size) by {
        if i != k {
            assert(n[i] == units[i]);
        }
    }
}

/// Removing a unit keeps all units good.
proof fn lemma_without_unit_ok(units: Seq<Unit>, size: Size2, id: UnitId)
    requires
        has_unit(units, id),
        units_ok(units, size),
    ensures
        units_ok(crate::state::without_unit(units, id), size),
{
    let k = unit_index(units, id);
    assert(0 <= k < units.len());
    let n = crate::state::without_unit(units, id);
    assert forall|i: int| 0 <= i < n.len() implies unit_ok(#[trigger] n[i], size) by {
        if i < k {
            assert(n[i] == units[i]);
        } else {
            assert(n[i] == units[i + 1]);
        }
    }
}

/// What an event the core makes does to its units: they stay good, the
/// views can follow it, ids are only added by a new unit and the number
/// of units grows only then.
#[verifier::spinoff_prover]
#[verifier::rlimit(50)]
proof fn lemma_core_event_effects(db: Db, units: Seq<Unit>, size: Size2, event: CoreEvent)
    requires
        db.wf(),
        ids_distinct(units),
        forall|i: int| 0 <= i < units.len() ==> db.valid_unit_type_id((#[trigger] units[i]).type_id),
        forall|t: UnitTypeId| db.valid_unit_type_id(t) ==> #[trigger] db.spec_unit_type(t).count >= 1,
        units_ok(units, size),
        event_applicable(db, units, event),
        core_event_ok(units, size, event),
    ensures
        ({
            let n = apply_event_spec(db, units, event);
            &&& units_ok(n, size)
            &&& crate::filter::filter_ok(n, size, event)
            &&& crate::fow::fow_event_ok(db, n, size, event)
            &&& forall|x: UnitId| #[trigger] has_unit(n, x) ==> has_unit(units, x) || (event matches CoreEvent::CreateUnit { unit_info } && x == unit_info.unit_id)
            &&& forall|x: UnitId| #[trigger] has_unit(units, x) && !(event matches CoreEvent::AttackUnit { attack_info } && x == attack_info.defender_id) ==> has_unit(n, x)
            &&& if event is CreateUnit { n.len() == units.len() + 1 } else { n.len() <= units.len() }
        }),
{
    let n = apply_event_spec(db, units, event);
    match event {
        CoreEvent::Move { unit_id, from, to, cost, .. } => {
            let u = unit_of(units, unit_id);
            let k = unit_index(units, unit_id);
            assert(units[k].id == unit_id);
            assert(unit_ok(units[k], size));
            let nu = Unit { pos: to, move_points: MovePoints { n: (u.move_points.n - cost.n) as i32 }, ..u };
            let u1 = crate::state::with_unit(units, unit_id, nu);
            crate::state::lemma_with_unit_distinct(units, unit_id, nu);
            lemma_with_unit_ok(units, size, unit_id, nu);
            match u.passenger_id {
                Some(p) => {
                    let pu = Unit { pos: to, ..unit_of(u1, p) };
                    let kp = unit_index(u1, p);
                    assert(u1[kp].id == p);
                    assert(unit_ok(u1[kp], size));
                    crate::state::lemma_with_unit_distinct(u1, p, pu);
                    lemma_with_unit_ok(u1, size, p, pu);
                    assert(n == crate::state::with_unit(u1, p, pu));
                },
                None => {},
            }
        },
        CoreEvent::EndTurn { old_id, new_id } => {
            assert forall|i: int| 0 <= i < n.len() implies unit_ok(#[trigger] n[i], size) by {
                assert(unit_ok(units[i], size));
            }
            assert forall|x: UnitId| #[trigger] has_unit(n, x) implies has_unit(units, x) by {
                let j = choose|j: int| 0 <= j < n.len() && (#[trigger] n[j]).id == x;
                assert(units[j].id == x);
            }
            assert forall|x: UnitId| #[trigger] has_unit(units, x) implies has_unit(n, x) by {
                let j = choose|j: int| 0 <= j < units.len() && (#[trigger] units[j]).id == x;
                assert(n[j].id == x);
            }
        },
        CoreEvent::CreateUnit { unit_info } => {
            crate::state::lemma_push_distinct(units, crate::state::new_unit(db, unit_info, crate::state::InfoLevel::Full));
            assert forall|i: int| 0 <= i < n.len() implies unit_ok(#[trigger] n[i], size) by {
                if i < units.len() {
                    assert(n[i] == units[i]);
                }
            }
        },
        CoreEvent::AttackUnit { attack_info } => {
            let a = attack_info.attacker_id->0;
            let d = unit_of(units, attack_info.defender_id);
            let kd = unit_index(units, attack_info.defender_id);
            assert(units[kd].id == attack_info.defender_id);
            assert(unit_ok(units[kd], size));
            let hd = crate::state::hit_defender(d, attack_info);
            let u1 = crate::state::after_hit(units, attack_info);
            if hd.count <= 0 {
                crate::state::lemma_remove_distinct(units, attack_info.defender_id);
                lemma_without_unit_ok(units, size, attack_info.defender_id);
            } else {
                crate::state::lemma_with_unit_distinct(units, attack_info.defender_id, hd);
                lemma_with_unit_ok(units, size, attack_info.defender_id, hd);
            }
            assert(has_unit(u1, a));
            let au = unit_of(u1, a);
            let ka = unit_index(u1, a);
            assert(u1[ka].id == a);
            assert(unit_ok(u1[ka], size));
            let sa = crate::state::spent_attacker(au, attack_info.mode);
            crate::state::lemma_with_unit_distinct(u1, a, sa);
            lemma_with_unit_ok(u1, size, a, sa);
            assert(n == crate::state::with_unit(u1, a, sa));
        },
        CoreEvent::ShowUnit { .. } => {},
        CoreEvent::HideUnit { .. } => {},
        CoreEvent::LoadUnit { transporter_id, passenger_id } => {
            let t = unit_of(units, transporter_id);
            let kt = unit_index(units, transporter_id);
            assert(units[kt].id == transporter_id);
            assert(unit_ok(units[kt], size));
            let nt = Unit { passenger_id: Some(passenger_id), ..t };
            let u1 = crate::state::with_unit(units, transporter_id, nt);
            crate::state::lemma_with_unit_distinct(units, transporter_id, nt);
            lemma_with_unit_ok(units, size, transporter_id, nt);
            let p = unit_of(u1, passenger_id);
            let kp = unit_index(u1, passenger_id);
            assert(u1[kp].id == passenger_id);
            assert(unit_ok(u1[kp], size));
            let np = Unit { pos: t.pos, move_points: MovePoints { n: 0 }, ..p };
            crate::state::lemma_with_unit_distinct(u1, passenger_id, np);
            lemma_with_unit_ok(u1, size, passenger_id, np);
        },
        CoreEvent::UnloadUnit { unit_info, transporter_id } => {
            let t = unit_of(units, transporter_id);
            let kt = unit_index(units, transporter_id);
            assert(units[kt].id == transporter_id);
            assert(unit_ok(units[kt], size));
            let nt = Unit { passenger_id: None, ..t };
            let u1 = crate::state::with_unit(units, transporter_id, nt);
            crate::state::lemma_with_unit_distinct(units, transporter_id, nt);
            lemma_with_unit_ok(units, size, transporter_id, nt);
            assert(has_unit(u1, unit_info.unit_id));
            let p = unit_of(u1, unit_info.unit_id);
            let kp = unit_index(u1, unit_info.unit_id);
            assert(u1[kp].id == unit_info.unit_id);
            assert(unit_ok(u1[kp], size));
            let np = Unit { pos: unit_info.pos, ..p };
            crate::state::lemma_with_unit_distinct(u1, unit_info.unit_id, np);
            lemma_with_unit_ok(u1, size, unit_info.unit_id, np);
        },
        CoreEvent::SetReactionFireMode { unit_id, mode } => {
            let u = unit_of(units, unit_id);
            let k = unit_index(units, unit_id);
            assert(units[k].id == unit_id);
            assert(unit_ok(units[k], size));
            let nu = Unit { reaction_fire_mode: mode, ..u };
            crate::state::lemma_with_unit_distinct(units, unit_id, nu);
            lemma_with_unit_ok(units, size, unit_id, nu);
        },
    }
}

/// Every event that filtering yields can be followed by the fog of war.
proof fn lemma_filtered_fow_ok(db: Db, units: Seq<Unit>, size: Size2, player_id: PlayerId, fow: Fow, event: CoreEvent)
    requires
        crate::fow::fow_event_ok(db, units, size, event),
    ensures
        forall|k: int| 0 <= k < crate::filter::filter_spec(units, player_id, fow, event).0.len()
            ==> crate::fow::fow_event_ok(db, units, size, #[trigger] crate::filter::filter_spec(units, player_id, fow, event).0[k]),
{
    let f = crate::filter::filter_spec(units, player_id, fow, event).0;
    assert forall|k: int| 0 <= k < f.len() implies crate::fow::fow_event_ok(db, units, size, #[trigger] f[k]) by {
        match event {
            CoreEvent::Move { unit_id, from, to, .. } => {
                let unit = unit_of(units, unit_id);
                if unit.player_id != player_id {
                    let a = crate::filter::only_if(!fow.visible(from) && fow.visible(to), CoreEvent::ShowUnit {
                        unit_info: UnitInfo { pos: from, ..info_of(unit) },
                    });
                    let b = crate::filter::only_if(fow.visible(from) || fow.visible(to), event);
                    let c = crate::filter::only_if(fow.visible(from) && !fow.visible(to), CoreEvent::HideUnit { unit_id: unit.id });
                    assert(f == a + b + c);
                    if k < a.len() {
                        assert(f[k] == a[k]);
                    } else if k < a.len() + b.len() {
                        assert(f[k] == b[k - a.len()]);
                    } else {
                        assert(f[k] == c[k - a.len() - b.len()]);
                    }
                }
            },
            CoreEvent::AttackUnit { attack_info } => {
                let attacker = unit_of(units, attack_info.attacker_id->0);
                let shown = player_id != attacker.player_id && !attack_info.is_ambush;
                let a = crate::filter::only_if(shown && !fow.visible(attacker.pos), CoreEvent::ShowUnit {
                    unit_info: info_of(attacker),
                });
                if k < a.len() {
                    assert(f[k] == a[k]);
                } else {
                    assert(f[k] is AttackUnit);
                }
            },
            CoreEvent::UnloadUnit { .. } => {},
            CoreEvent::LoadUnit { .. } => {},
            CoreEvent::SetReactionFireMode { .. } => {},
            _ => {},
        }
    }
}

/// The ids of visible enemies are ids of units.
proof fn lemma_visible_enemies_exist(units: Seq<Unit>, fow: Fow, player_id: PlayerId)
    ensures
        forall|k: int| 0 <= k < crate::filter::visible_enemies(units, fow, player_id).len()
            ==> has_unit(units, #[trigger] crate::filter::visible_enemies(units, fow, player_id)[k]),
    decreases units.len(),
{
    if units.len() > 0 {
        let init = units.drop_last();
        lemma_visible_enemies_exist(init, fow, player_id);
        let v = crate::filter::visible_enemies(units, fow, player_id);
        let r = crate::filter::visible_enemies(init, fow, player_id);
        assert forall|k: int| 0 <= k < v.len() implies has_unit(units, #[trigger] v[k]) by {
            if k < r.len() {
                assert(v[k] == r[k]);
                assert(has_unit(init, r[k]));
                let j = choose|j: int| 0 <= j < init.len() && (#[trigger] init[j]).id == r[k];
                assert(units[j] == init[j]);
            } else {
                assert(v[k] == units.last().id);
                assert(units[units.len() - 1] == units.last());
            }
        }
    }
}

/// What the core keeps for each player: the events it has yet to see,
/// its fog of war and the enemies it sees.
struct PlayerInfo {
    events: Vec<CoreEvent>,
    fow: Fow,
    visible_enemies: Vec<UnitId>,
}

/// The game: state, players, and each player's view of it.
pub struct Core {
    state: InternalState,
    players: Vec<Player>,
    current_player_id: PlayerId,
    db: Db,
    players_info: Vec<PlayerInfo>,
    next_unit_id: UnitId,
    sight: Sight,
    ai: crate::ai::Ai,
}

impl Core {
    /// The full game state.
    pub closed spec fn spec_state(&self) -> InternalState {
        self.state
    }

    /// The database of unit types.
    pub closed spec fn spec_db(&self) -> Db {
        self.db
    }

    /// The sight table.
    pub closed spec fn spec_sight(&self) -> Sight {
        self.sight
    }

    /// The player whose turn it is.
    pub closed spec fn spec_current_player(&self) -> PlayerId {
        self.current_player_id
    }

    /// The players.
    pub closed spec fn spec_players(&self) -> Seq<Player> {
        self.players@
    }

    /// The events player `i` has yet to see.
    pub closed spec fn spec_events(&self, i: int) -> Seq<CoreEvent> {
        self.players_info@[i].events@
    }

    /// Player `i`'s fog of war.
    pub closed spec fn spec_fow(&self, i: int) -> Fow {
        self.players_info@[i].fow
    }

    /// The computer player.
    pub closed spec fn spec_ai(&self) -> crate::ai::Ai {
        self.ai
    }

    /// The enemies player `i` sees.
    pub closed spec fn spec_visible_enemies(&self, i: int) -> Seq<UnitId> {
        self.players_info@[i].visible_enemies@
    }

    /// The id the next new unit gets.
    pub closed spec fn spec_next_unit_id(&self) -> int {
        self.next_unit_id.id as int
    }

    /// The units.
    pub open spec fn units(&self) -> Seq<Unit> {
        self.spec_state().spec_units()
    }

    /// The size of the map.
    pub open spec fn map_size_spec(&self) -> Size2 {
        self.spec_state().spec_map().spec_size()
    }

    /// Consistency of the game: the built-in database, a state that the
    /// rules can check, good units, two players numbered from zero with a
    /// view each, and unit ids below the next one to hand out.
    pub closed spec fn wf(&self) -> bool {
        &&& self.db.wf()
        &&& standard_unit_types(self.db.unit_types())
        &&& standard_weapon_types(self.db.weapon_types())
        &&& rules_context(self.db, self.state, self.sight)
        &&& units_ok(self.state.spec_units(), self.state.spec_map().spec_size())
        &&& self.players@.len() == 2
        &&& forall|i: int| 0 <= i < 2 ==> (#[trigger] self.players@[i]).id.id == i
        &&& 0 <= self.current_player_id.id < 2
        &&& self.players_info@.len() == 2
        &&& forall|i: int| 0 <= i < 2 ==> {
            &&& (#[trigger] self.players_info@[i]).fow.wf()
            &&& self.players_info@[i].fow.spec_size() == self.state.spec_map().spec_size()
            &&& self.players_info@[i].fow.spec_player_id().id == i
        }
        &&& forall|i: int| 0 <= i < self.state.spec_units().len()
            ==> 0 <= (#[trigger] self.state.spec_units()[i]).id.id < self.next_unit_id.id
        &&& self.state.spec_units().len() <= self.next_unit_id.id <= UNITS_LIMIT
        &&& self.ai.wf(self.db)
        &&& self.ai.spec_id() == (PlayerId { id: 1 })
        &&& self.ai.spec_state().spec_map().spec_size() == self.state.spec_map().spec_size()
    }

    /// Passes the turn from `old_id` to `new_id` where `old_id` has it.
    fn handle_end_turn_event(&mut self, old_id: &PlayerId, new_id: &PlayerId)
        requires
            old(self).wf(),
        ensures
            final(self).wf(),
            final(self).spec_current_player() == if old(self).spec_current_player() == *old_id
                && 0 <= new_id.id < 2 {
                *new_id
            } else {
                old(self).spec_current_player()
            },
            final(self).spec_state() == old(self).spec_state(),
            final(self).spec_db() == old(self).spec_db(),
            final(self).spec_sight() == old(self).spec_sight(),
            final(self).spec_players() == old(self).spec_players(),
            final(self).spec_next_unit_id() == old(self).spec_next_unit_id(),
            forall|i: int| 0 <= i < 2 ==> #[trigger] final(self).spec_events(i) == old(self).spec_events(i),
            forall|i: int| 0 <= i < 2 ==> #[trigger] final(self).spec_fow(i) == old(self).spec_fow(i),
    {
        let mut i: usize = 0;
        while i < self.players.len()
            invariant
                self.wf(),
                self.players@.len() == 2,
                self.current_player_id == old(self).current_player_id,
                self.state == old(self).state,
                self.db == old(self).db,
                self.sight == old(self).sight,
                self.players == old(self).players,
                self.next_unit_id == old(self).next_unit_id,
                self.players_info == old(self).players_info,
                0 <= i <= 2,
                forall|k: int| 0 <= k < i ==> (#[trigger] self.players@[k]).id != *new_id,
            decreases 2 - i,
        {
            let player_id = self.players[i].id;
            if player_id == *new_id {
                if self.current_player_id == *old_id {
                    self.current_player_id = player_id;
                }
                return;
            }
            i = i + 1;
        }
        proof {
            assert(self.players@[0].id.id == 0);
            assert(self.players@[1].id.id == 1);
        }
    }
}

/// `a` is a prefix of `b`.
pub open spec fn is_prefix(a: Seq<CoreEvent>, b: Seq<CoreEvent>) -> bool {
    a.len() <= b.len() && b.subrange(0, a.len() as int) == a
}

/// Every event of `f` was added to the queue `before`, giving `after`.
pub open spec fn all_queued(before: Seq<CoreEvent>, after: Seq<CoreEvent>, f: Seq<CoreEvent>) -> bool {
    forall|k: int| 0 <= k < f.len() ==> exists|n: int| before.len() <= n < after.len() && after[n] == #[trigger] f[k]
}

/// `e` is among the events added to the queue `before`, giving `after`.
pub open spec fn event_queued(before: Seq<CoreEvent>, after: Seq<CoreEvent>, e: CoreEvent) -> bool {
    exists|n: int| before.len() <= n < after.len() && after[n] == e
}

/// The first step of a move of `unit_id` along `path` in mode `mode` in
/// the game `c`: from the unit's tile to the first tile of the path, at
/// the cost of that tile times the mode's factor.
pub open spec fn first_step(c: Core, unit_id: UnitId, path: Seq<MapPos>, mode: MoveMode) -> CoreEvent {
    let u = unit_of(c.units(), unit_id);
    CoreEvent::Move {
        unit_id: unit_id,
        from: u.pos,
        to: path[0],
        mode: mode,
        cost: MovePoints {
            n: (crate::pathfinder::tile_cost_spec(c.spec_db(), c.spec_state(), u, path[0])
                * crate::rules::cost_factor(mode)) as i32,
        },
    }
}

/// `e` is an attack in mode `mode` on `defender_id`.
pub open spec fn is_attack_on(e: CoreEvent, defender_id: UnitId, mode: FireMode) -> bool {
    e matches CoreEvent::AttackUnit { attack_info } && attack_info.defender_id == defender_id
        && attack_info.mode == mode
}

/// Among the events added to the queue `before`, giving `after`, is an
/// attack in mode `mode` on `defender_id`.
pub open spec fn attack_queued(before: Seq<CoreEvent>, after: Seq<CoreEvent>, defender_id: UnitId, mode: FireMode) -> bool {
    exists|n: int| before.len() <= n < after.len() && #[trigger] is_attack_on(after[n], defender_id, mode)
}

/// An attack among the events added after `b1` is among those added after
/// an earlier queue `b0`.
proof fn lemma_attack_queued_earlier(b0: Seq<CoreEvent>, b1: Seq<CoreEvent>, after: Seq<CoreEvent>, d: UnitId, mode: FireMode)
    requires
        b0.len() <= b1.len(),
        attack_queued(b1, after, d, mode),
    ensures
        attack_queued(b0, after, d, mode),
{
    let n = choose|n: int| b1.len() <= n < after.len() && #[trigger] is_attack_on(after[n], d, mode);
    assert(is_attack_on(after[n], d, mode));
}

/// An attack queued stays queued as the queue grows.
proof fn lemma_attack_queued_grows(before: Seq<CoreEvent>, mid: Seq<CoreEvent>, after: Seq<CoreEvent>, d: UnitId, mode: FireMode)
    requires
        attack_queued(before, mid, d, mode),
        is_prefix(mid, after),
    ensures
        attack_queued(before, after, d, mode),
{
    let n = choose|n: int| before.len() <= n < mid.len() && #[trigger] is_attack_on(mid[n], d, mode);
    assert(after.subrange(0, mid.len() as int)[n] == mid[n]);
    assert(is_attack_on(after[n], d, mode));
}

/// An event queued stays queued as the queue grows.
proof fn lemma_queued_grows(before: Seq<CoreEvent>, mid: Seq<CoreEvent>, after: Seq<CoreEvent>, e: CoreEvent)
    requires
        event_queued(before, mid, e),
        is_prefix(mid, after),
    ensures
        event_queued(before, after, e),
{
    let n = choose|n: int| before.len() <= n < mid.len() && mid[n] == e;
    assert(after.subrange(0, mid.len() as int)[n] == mid[n]);
}

/// Queuing the next event of `f` keeps all earlier ones queued.
proof fn lemma_queued_step(ev0: Seq<CoreEvent>, before: Seq<CoreEvent>, after: Seq<CoreEvent>, f: Seq<CoreEvent>, j: int)
    requires
        0 <= j < f.len(),
        all_queued(ev0, before, f.take(j)),
        is_prefix(before, after),
        after.len() > before.len(),
        after[before.len() as int] == f[j],
        ev0.len() <= before.len(),
    ensures
        all_queued(ev0, after, f.take(j + 1)),
{
    assert forall|k: int| 0 <= k < f.take(j + 1).len() implies exists|n: int| ev0.len() <= n < after.len()
        && after[n] == #[trigger] f.take(j + 1)[k] by {
        if k < j {
            assert(f.take(j)[k] == f[k]);
            let n = choose|n: int| ev0.len() <= n < before.len() && before[n] == f.take(j)[k];
            assert(after.subrange(0, before.len() as int)[n] == before[n]);
        } else {
            assert(after[before.len() as int] == f.take(j + 1)[k]);
        }
    }
}

/// Shows `event`, which `state` already reflects, to the player owning
/// `info`: each event the player may see is queued, the fog of war
/// follows it, and enemies that came into or left the player's sight
/// are shown or hidden.
fn follow_event(
    info: &mut PlayerInfo,
    db: &Db,
    state: &InternalState,
    sight: &Sight,
    player_id: &PlayerId,
    event: &CoreEvent,
)
    requires
        old(info).fow.wf(),
        old(info).fow.spec_size() == state.spec_map().spec_size(),
        db.wf(),
        state.wf(*db),
        sight_fits(*db, *sight, state.spec_map().spec_size()),
        units_inboard(state.spec_units(), state.spec_map().spec_size()),
        crate::filter::filter_ok(state.spec_units(), state.spec_map().spec_size(), *event),
        crate::fow::fow_event_ok(*db, state.spec_units(), state.spec_map().spec_size(), *event),
    ensures
        final(info).fow.wf(),
        final(info).fow.spec_size() == old(info).fow.spec_size(),
        final(info).fow.spec_player_id() == old(info).fow.spec_player_id(),
        is_prefix(old(info).events@, final(info).events@),
        all_queued(old(info).events@, final(info).events@,
            crate::filter::filter_spec(state.spec_units(), *player_id, old(info).fow, *event).0),
{
    let (filtered, active) = crate::filter::filter_events(state, player_id, &info.fow, event);
    proof {
        lemma_filtered_fow_ok(*db, state.spec_units(), state.spec_map().spec_size(), *player_id, info.fow, *event);
    }
    let ghost fow0 = info.fow;
    let ghost ev0 = info.events@;
    proof { assert(info.events@.subrange(0, info.events@.len() as int) =~= info.events@); }
    let mut j: usize = 0;
    while j < filtered.len()
        invariant
            info.fow.wf(),
            info.fow.spec_size() == state.spec_map().spec_size(),
            info.fow.spec_player_id() == old(info).fow.spec_player_id(),
            db.wf(),
            state.wf(*db),
            sight_fits(*db, *sight, state.spec_map().spec_size()),
            units_inboard(state.spec_units(), state.spec_map().spec_size()),
            filtered@ == crate::filter::filter_spec(state.spec_units(), *player_id, fow0, *event).0,
            forall|k: int| 0 <= k < filtered@.len()
                ==> crate::fow::fow_event_ok(*db, state.spec_units(), state.spec_map().spec_size(), #[trigger] filtered@[k]),
            0 <= j <= filtered@.len(),
            is_prefix(old(info).events@, info.events@),
            fow0 == old(info).fow,
            ev0 == old(info).events@,
            all_queued(ev0, info.events@, filtered@.take(j as int)),
        decreases filtered@.len() - j,
    {
        let e = filtered[j];
        proof { assert(crate::fow::fow_event_ok(*db, state.spec_units(), state.spec_map().spec_size(), filtered@[j as int])); }
        info.fow.apply_event(db, state, sight, &e);
        let ghost before = info.events@;
        info.events.push(e);
        proof { assert(info.events@.subrange(0, before.len() as int) =~= before); }
        let new_visible = crate::filter::get_visible_enemies(state, &info.fow, player_id);
        proof { lemma_visible_enemies_exist(state.spec_units(), info.fow, *player_id); }
        let show_hide = crate::filter::show_or_hide_passive_enemies(
            state.units(),
            &active,
            &info.visible_enemies,
            &new_visible,
        );
        let ghost fow1 = info.fow;
        let mut k: usize = 0;
        while k < show_hide.len()
            invariant
                info.fow == fow1,
                0 <= k <= show_hide@.len(),
                is_prefix(old(info).events@, before),
                is_prefix(before, info.events@),
                info.events@.len() > before.len(),
                info.events@[before.len() as int] == e,
            decreases show_hide@.len() - k,
        {
            let ghost prev = info.events@;
            info.events.push(show_hide[k]);
            proof {
                assert(info.events@.subrange(0, before.len() as int) =~= prev.subrange(0, before.len() as int));
            }
            k = k + 1;
        }
        info.visible_enemies = new_visible;
        proof {
            assert(info.events@.subrange(0, old(info).events@.len() as int)
                == info.events@.subrange(0, before.len() as int).subrange(0, old(info).events@.len() as int));
            lemma_queued_step(ev0, before, info.events@, filtered@, j as int);
        }
        j = j + 1;
    }
    proof {
        assert(j == filtered@.len());
        assert(filtered@.take(j as int) =~= filtered@);
        assert(all_queued(ev0, info.events@, filtered@));
    }
}

impl Core {
    /// What the core asks of an event it makes: `core_event_ok`, and a new
    /// unit's id handed out already but not yet used.
    pub open spec fn event_ok(&self, event: CoreEvent) -> bool {
        &&& core_event_ok(self.units(), self.map_size_spec(), event)
        &&& event matches CoreEvent::CreateUnit { unit_info } ==> {
            &&& 0 <= unit_info.unit_id.id < self.spec_next_unit_id()
            &&& self.units().len() < self.spec_next_unit_id()
        }
    }

    /// Carries out `event`: applies it to the state where the state can
    /// take it (and drops it otherwise), shows each player what it may
    /// see of it, and passes the turn on at the end of one.
    fn do_core_event(&mut self, event: &CoreEvent)
        requires
            old(self).wf(),
            old(self).event_ok(*event),
        ensures
            final(self).wf(),
            final(self).units() == if event_applicable(old(self).spec_db(), old(self).units(), *event) {
                apply_event_spec(old(self).spec_db(), old(self).units(), *event)
            } else {
                old(self).units()
            },
            final(self).spec_state().spec_map() == old(self).spec_state().spec_map(),
            final(self).spec_db() == old(self).spec_db(),
            final(self).spec_sight() == old(self).spec_sight(),
            final(self).spec_players() == old(self).spec_players(),
            final(self).spec_next_unit_id() == old(self).spec_next_unit_id(),
            final(self).spec_current_player() == match *event {
                CoreEvent::EndTurn { old_id, new_id } => if event_applicable(old(self).spec_db(), old(self).units(), *event)
                    && old(self).spec_current_player() == old_id && 0 <= new_id.id < 2 {
                    new_id
                } else {
                    old(self).spec_current_player()
                },
                _ => old(self).spec_current_player(),
            },
            forall|i: int| 0 <= i < 2 ==> is_prefix(old(self).spec_events(i), #[trigger] final(self).spec_events(i)),
            forall|x: UnitId| #[trigger] has_unit(old(self).units(), x) && !(*event matches CoreEvent::AttackUnit {
                attack_info } && x == attack_info.defender_id) ==> has_unit(final(self).units(), x),
            forall|x: UnitId| #[trigger] has_unit(final(self).units(), x) ==> has_unit(old(self).units(), x) || (
                *event matches CoreEvent::CreateUnit { unit_info } && x == unit_info.unit_id),
            event_applicable(old(self).spec_db(), old(self).units(), *event) ==> forall|i: int| 0 <= i < 2
                ==> #[trigger] all_queued(old(self).spec_events(i), final(self).spec_events(i),
                crate::filter::filter_spec(final(self).units(), PlayerId { id: i as i32 }, old(self).spec_fow(i), *event).0),
    {
        if !self.state.can_apply(&self.db, event) {
            proof {
                assert forall|i: int| 0 <= i < 2 implies is_prefix(old(self).spec_events(i), #[trigger] self.spec_events(i)) by {
                    assert(self.spec_events(i).subrange(0, self.spec_events(i).len() as int) =~= self.spec_events(i));
                }
            }
            return;
        }
        let ghost units0 = self.state.spec_units();
        let ghost size = self.state.spec_map().spec_size();
        proof {
            assert forall|t: UnitTypeId| self.db.valid_unit_type_id(t) implies #[trigger] self.db.spec_unit_type(t).count >= 1 by {
                assert(self.db.unit_types()[t.id as int] == self.db.spec_unit_type(t));
            }
            lemma_core_event_effects(self.db, units0, size, *event);
        }
        self.state.apply_event(&self.db, event);
        proof {
            let n = self.state.spec_units();
            assert forall|i: int| 0 <= i < n.len() implies 0 <= (#[trigger] n[i]).id.id < self.next_unit_id.id by {
                crate::state::lemma_unit_index_unique(n, i);
                assert(has_unit(n, n[i].id));
                if has_unit(units0, n[i].id) {
                    let j = unit_index(units0, n[i].id);
                    assert(units0[j].id == n[i].id);
                }
            }
            assert forall|i: int| 0 <= i < n.len() implies (#[trigger] n[i]).reactive_attack_points is Some by {
                assert(unit_ok(n[i], size));
            }
        }
        let ghost info0 = self.players_info@;
        proof {
            assert forall|k: int| 0 <= k < 2 implies is_prefix(info0[k].events@, #[trigger] self.players_info@[k].events@) by {
                assert(info0[k].events@.subrange(0, info0[k].events@.len() as int) =~= info0[k].events@);
            }
        }
        let mut i: usize = 0;
        while i < 2
            invariant
                self.db.wf(),
                self.state.wf(self.db),
                self.state.spec_map().spec_size() == size,
                sight_fits(self.db, self.sight, size),
                units_inboard(self.state.spec_units(), size),
                crate::filter::filter_ok(self.state.spec_units(), size, *event),
                crate::fow::fow_event_ok(self.db, self.state.spec_units(), size, *event),
                self.players@.len() == 2,
                forall|k: int| 0 <= k < 2 ==> (#[trigger] self.players@[k]).id.id == k,
                self.players_info@.len() == 2,
                info0.len() == 2,
                forall|k: int| 0 <= k < 2 ==> {
                    &&& (#[trigger] self.players_info@[k]).fow.wf()
                    &&& self.players_info@[k].fow.spec_size() == size
                    &&& self.players_info@[k].fow.spec_player_id().id == k
                },
                forall|k: int| 0 <= k < 2 ==> is_prefix(info0[k].events@, #[trigger] self.players_info@[k].events@),
                forall|k: int| i <= k < 2 ==> #[trigger] self.players_info@[k] == info0[k],
                forall|k: int| 0 <= k < i ==> #[trigger] all_queued(info0[k].events@, self.players_info@[k].events@,
                    crate::filter::filter_spec(self.state.spec_units(), PlayerId { id: k as i32 }, info0[k].fow, *event).0),
                self.state.spec_units() == apply_event_spec(old(self).db, units0, *event),
                self.state.spec_map() == old(self).state.spec_map(),
                self.db == old(self).db,
                self.sight == old(self).sight,
                self.players == old(self).players,
                self.next_unit_id == old(self).next_unit_id,
                self.current_player_id == old(self).current_player_id,
                self.ai == old(self).ai,
                0 <= i <= 2,
            decreases 2 - i,
        {
            let player_id = self.players[i].id;
            let ghost prev = self.players_info@;
            let mut info = self.players_info.remove(i);
            proof { assert(info == info0[i as int]); }
            follow_event(&mut info, &self.db, &self.state, &self.sight, &player_id, event);
            self.players_info.insert(i, info);
            proof {
                assert(self.players_info@ =~= prev.update(i as int, info));
                assert(player_id == (PlayerId { id: i as i32 }));
                assert(all_queued(info0[i as int].events@, self.players_info@[i as int].events@,
                    crate::filter::filter_spec(self.state.spec_units(), PlayerId { id: i as i32 }, info0[i as int].fow, *event).0));
            }
            i = i + 1;
        }
        match event {
            CoreEvent::EndTurn { old_id, new_id } => {
                self.handle_end_turn_event(old_id, new_id);
            },
            _ => {},
        }
    }
}

/// The numbers of the built-in unit types and their weapons are small.
proof fn lemma_standard_bounds(db: Db, id: UnitTypeId)
    requires
        db.wf(),
        standard_unit_types(db.unit_types()),
        standard_weapon_types(db.weapon_types()),
        db.valid_unit_type_id(id),
    ensures
        ({
            let t = db.spec_unit_type(id);
            let w = db.spec_weapon_of(id);
            &&& 1 <= t.count <= 4
            &&& 0 <= t.size <= 10 && 0 <= t.armor <= 20 && 0 <= t.toughness <= 10
            &&& 0 <= t.weapon_skill <= 10
            &&& 0 <= w.damage <= 10 && 0 <= w.ap <= 10 && 0 <= w.accuracy <= 10
            &&& 1 <= w.min_distance && w.max_distance <= 10
        }),
{
    let ts = db.unit_types();
    let ws = db.weapon_types();
    assert(0 <= id.id < 4);
    if id.id == 0 {
        assert(ts[0].weapon_type_id.id == 0);
    } else if id.id == 1 {
        assert(ts[1].weapon_type_id.id == 0);
    } else if id.id == 2 {
        assert(ts[2].weapon_type_id.id == 1);
    } else {
        assert(ts[3].weapon_type_id.id == 1);
    }
}

/// The unit's type is known and its numbers are those of a built-in type.
pub open spec fn db_unit_ok(db: Db, u: Unit) -> bool {
    &&& db.valid_unit_type_id(u.type_id)
    &&& 1 <= db.spec_unit_type(u.type_id).count <= 4
    &&& 0 <= db.spec_unit_type(u.type_id).size <= 10
    &&& 0 <= db.spec_unit_type(u.type_id).armor <= 20
    &&& 0 <= db.spec_unit_type(u.type_id).toughness <= 10
    &&& 0 <= db.spec_unit_type(u.type_id).weapon_skill <= 10
    &&& 0 <= db.spec_weapon_of(u.type_id).damage <= 10
    &&& 0 <= db.spec_weapon_of(u.type_id).ap <= 10
    &&& 0 <= db.spec_weapon_of(u.type_id).accuracy <= 10
    &&& 1 <= db.spec_weapon_of(u.type_id).min_distance
    &&& db.spec_weapon_of(u.type_id).max_distance <= 10
    &&& 0 <= db.spec_unit_type(u.type_id).weapon_type_id.id < db.weapon_types().len()
}

/// The three numbers the attack dice must roll below: to hit, to pierce
/// the armor and to wound.
pub open spec fn hit_values(db: Db, attacker: Unit, defender: Unit) -> (int, int, int) {
    let attacker_type = db.spec_unit_type(attacker.type_id);
    let defender_type = db.spec_unit_type(defender.type_id);
    let weapon = db.spec_weapon_of(attacker.type_id);
    (
        -15 + defender_type.size + weapon.accuracy + attacker_type.weapon_skill,
        5 - defender_type.armor + weapon.ap,
        -defender_type.toughness + weapon.damage,
    )
}

/// The defender is within the range of the attacker's weapon.
/// A shot with dice `dice` hits and does harm: the defender is in range
/// and each test die comes out below its number of `hit_values`.
pub open spec fn shot_hits(db: Db, attacker: Unit, defender: Unit, dice: ShotDice) -> bool {
    let v = hit_values(db, attacker, defender);
    &&& in_weapon_range(db, attacker, defender)
    &&& dice.hit < v.0
    &&& dice.pierce < v.1
    &&& dice.wound < v.2
}

/// The men a shot with dice `dice` kills: none on a miss, one of a
/// vehicle, the casualty roll kept between one and the men there are of
/// infantry.
pub open spec fn shot_killed(db: Db, attacker: Unit, defender: Unit, dice: ShotDice) -> int {
    if !shot_hits(db, attacker, defender, dice) {
        0
    } else if db.spec_unit_type(defender.type_id).class == UnitClass::Vehicle {
        1
    } else {
        crate::misc::clamp_spec(dice.casualties as int, 1, defender.count as int)
    }
}

/// The attack that a shot with dice `dice` makes: the men it kills (no
/// more than there are), a suppression of ten plus twenty per man killed,
/// and an ambush where the defender's player does not see the attacker
/// and the ambush roll is above three.
pub open spec fn attack_outcome_spec(db: Db, attacker: Unit, defender: Unit, mode: FireMode, dice: ShotDice, visible: bool) -> AttackInfo {
    let k = shot_killed(db, attacker, defender, dice);
    let killed = if defender.count < k { defender.count as int } else { k };
    AttackInfo {
        attacker_id: Some(attacker.id),
        defender_id: defender.id,
        killed: killed as i32,
        mode: mode,
        suppression: (10 + 20 * killed) as i32,
        remove_move_points: false,
        is_ambush: !visible && dice.ambush > 3,
    }
}

/// Law: a shot harms the defender only if the defender is within the
/// maximum range of the attacker's weapon and each of the three test dice
/// comes out below its number: to hit, below -15 plus the defender type's
/// size, the weapon's accuracy and the attacker type's weapon skill; to
/// pierce, below 5 minus the defender type's armour plus the weapon's
/// armour piercing; to wound, below the weapon's damage minus the
/// defender type's toughness. A shot that passes all of these kills one
/// man of a vehicle and, of infantry, as many men as the casualty roll
/// says, but no more than there are. The suppression is ten plus twenty
/// per man killed, and the shot is an ambush exactly where the defender's
/// player does not see the attacker and the ambush roll is above three.
pub proof fn lemma_attack_outcome(db: Db, attacker: Unit, defender: Unit, mode: FireMode, dice: ShotDice, visible: bool)
    requires
        dice_in_range(dice),
        defender.count >= 1,
    ensures
        ({
            let a = attack_outcome_spec(db, attacker, defender, mode, dice, visible);
            let at = db.spec_unit_type(attacker.type_id);
            let dt = db.spec_unit_type(defender.type_id);
            let w = db.spec_weapon_of(attacker.type_id);
            let passes = hex_distance(attacker.pos, defender.pos) <= w.max_distance
                && dice.hit < -15 + dt.size + w.accuracy + at.weapon_skill
                && dice.pierce < 5 - dt.armor + w.ap
                && dice.wound < w.damage - dt.toughness;
            &&& shot_hits(db, attacker, defender, dice) == passes
            &&& !passes ==> a.killed == 0
            &&& passes && dt.class == UnitClass::Vehicle ==> a.killed == 1
            &&& passes && dt.class == UnitClass::Infantry ==> a.killed == (if dice.casualties < defender.count {
                dice.casualties
            } else {
                defender.count
            })
            &&& 0 <= a.killed <= defender.count
            &&& a.suppression == 10 + 20 * a.killed
            &&& a.is_ambush == (!visible && dice.ambush > 3)
            &&& a.attacker_id == Some(attacker.id)
            &&& a.defender_id == defender.id
            &&& a.mode == mode
            &&& !a.remove_move_points
        }),
{
}

pub open spec fn in_weapon_range(db: Db, attacker: Unit, defender: Unit) -> bool {
    hex_distance(attacker.pos, defender.pos) <= db.spec_weapon_of(attacker.type_id).max_distance
}

impl Core {
    /// What an attack event the core makes holds: it names the attacker,
    /// the defender and the mode; no more men are killed than the defender
    /// has, and none out of the weapon's range; suppression is ten plus
    /// twenty per man killed; move points are kept; and only an attacker
    /// that the defender's player does not see fires from ambush.
    pub open spec fn attack_ok(&self, attacker_id: UnitId, defender_id: UnitId, mode: FireMode, a: AttackInfo) -> bool {
        let attacker = unit_of(self.units(), attacker_id);
        let defender = unit_of(self.units(), defender_id);
        &&& a.attacker_id == Some(attacker_id)
        &&& a.defender_id == defender_id
        &&& a.mode == mode
        &&& 0 <= a.killed <= defender.count
        &&& a.killed <= 4
        &&& a.killed > 0 ==> in_weapon_range(self.spec_db(), attacker, defender)
        &&& a.suppression == 10 + 20 * a.killed
        &&& !a.remove_move_points
        &&& a.is_ambush ==> !self.spec_fow(defender.player_id.id as int).visible(attacker.pos)
    }

    /// `u` is the core's unit of its id.
    pub open spec fn is_unit(&self, u: Unit) -> bool {
        has_unit(self.units(), u.id) && u == unit_of(self.units(), u.id)
    }

    proof fn lemma_unit(&self, u: Unit)
        requires
            self.wf(),
            self.is_unit(u),
        ensures
            db_unit_ok(self.spec_db(), u),
            unit_ok(u, self.map_size_spec()),
            crate::types::coords_fit(u.pos),
            self.spec_sight().covers(sight_range(self.spec_db(), u)),
    {
        let k = unit_index(self.units(), u.id);
        assert(0 <= k < self.units().len());
        assert(unit_ok(self.units()[k], self.map_size_spec()));
        assert(self.db.valid_unit_type_id(self.units()[k].type_id));
        lemma_standard_bounds(self.db, u.type_id);
        assert(self.db.unit_types()[u.type_id.id as int] == self.db.spec_unit_type(u.type_id));
    }

    /// Whether the attacker's shot hits the defender and does harm: the
    /// defender must be in range and the three test dice must come out
    /// below the numbers of `hit_values`.
    fn hit_test(&self, attacker: &Unit, defender: &Unit, dice: &ShotDice) -> (hit: bool)
        requires
            self.wf(),
            self.is_unit(*attacker),
            self.is_unit(*defender),
        ensures
            hit == shot_hits(self.spec_db(), *attacker, *defender, *dice),
    {
        proof {
            self.lemma_unit(*attacker);
            self.lemma_unit(*defender);
        }
        let attacker_type = self.db.unit_type(&attacker.type_id);
        let defender_type = self.db.unit_type(&defender.type_id);
        let weapon_type = self.db.weapon_type(&attacker_type.weapon_type_id);
        proof { crate::map::lemma_coords_fit_distance(attacker.pos, defender.pos); }
        if distance(&attacker.pos, &defender.pos) > weapon_type.max_distance {
            return false;
        }
        let hit_test_v = -15 + defender_type.size + weapon_type.accuracy + attacker_type.weapon_skill;
        let pierce_test_v = 5 + -defender_type.armor + weapon_type.ap;
        let wound_test_v = -defender_type.toughness + weapon_type.damage;
        if !(dice.hit < hit_test_v) {
            return false;
        }
        if !(dice.pierce < pierce_test_v) {
            return false;
        }
        if !(dice.wound < wound_test_v) {
            return false;
        }
        true
    }
}

impl Core {
    /// How many of the defender's men the attacker's shot kills, given
    /// its dice: none on a miss; one of a vehicle; the casualty roll,
    /// kept between one and the men there are, of infantry.
    fn get_killed_count(&self, attacker: &Unit, defender: &Unit, dice: &ShotDice) -> (killed: ZInt)
        requires
            self.wf(),
            self.is_unit(*attacker),
            self.is_unit(*defender),
        ensures
            killed == shot_killed(self.spec_db(), *attacker, *defender, *dice),
    {
        let hit = self.hit_test(attacker, defender, dice);
        if !hit {
            return 0;
        }
        proof { self.lemma_unit(*defender); }
        let defender_type = self.db.unit_type(&defender.type_id);
        match defender_type.class {
            UnitClass::Infantry => crate::misc::clamp(dice.casualties, 1, defender.count),
            UnitClass::Vehicle => 1,
        }
    }

    /// The attack of `attacker` on `defender` in mode `mode` that the
    /// dice `dice` give, where the defender's player does (`visible`) or
    /// does not see the attacker's tile.
    pub fn attack_outcome(&self, attacker: &Unit, defender: &Unit, mode: FireMode, dice: &ShotDice, visible: bool)
        -> (a: AttackInfo)
        requires
            self.wf(),
            self.is_unit(*attacker),
            self.is_unit(*defender),
            dice_in_range(*dice),
        ensures
            a == attack_outcome_spec(self.spec_db(), *attacker, *defender, mode, *dice, visible),
    {
        proof {
            self.lemma_unit(*defender);
            crate::misc::lemma_clamp_in_range(dice.casualties as int, 1, defender.count as int);
        }
        let killed_count = self.get_killed_count(attacker, defender, dice);
        let killed = if defender.count < killed_count { defender.count } else { killed_count };
        AttackInfo {
            attacker_id: Some(attacker.id),
            defender_id: defender.id,
            killed: killed,
            mode: mode,
            suppression: 10 + 20 * killed,
            remove_move_points: false,
            is_ambush: !visible && dice.ambush > 3,
        }
    }

    /// The fog of war of player `i`.
    fn fow_of(&self, player_id: PlayerId) -> (f: &Fow)
        requires
            self.wf(),
            0 <= player_id.id < 2,
        ensures
            *f == self.spec_fow(player_id.id as int),
            f.wf(),
            f.spec_size() == self.map_size_spec(),
    {
        &self.players_info[player_id.id as usize].fow
    }

    /// The attack of `attacker_id` on `defender_id` in mode `fire_mode`,
    /// if the rules allow it: the number of men killed is decided by the
    /// dice, and an attacker unseen by the defender's player fires from
    /// ambush seven times in ten.
    fn command_attack_unit_to_event(&self, attacker_id: &UnitId, defender_id: &UnitId, fire_mode: &FireMode)
        -> (r: Option<CoreEvent>)
        requires
            self.wf(),
            has_unit(self.units(), *attacker_id),
            has_unit(self.units(), *defender_id),
        ensures
            r is Some <== attack_check(self.spec_db(), self.units(), self.spec_sight(), *attacker_id,
                *defender_id, *fire_mode) is Ok,
            r is Some ==> attack_check(self.spec_db(), self.units(), self.spec_sight(), *attacker_id,
                *defender_id, *fire_mode) is Ok,
            r matches Some(e) ==> e matches CoreEvent::AttackUnit { attack_info } && self.attack_ok(
                *attacker_id,
                *defender_id,
                *fire_mode,
                attack_info,
            ),
            r matches Some(e) ==> exists|dice: ShotDice| dice_in_range(dice) && e == (CoreEvent::AttackUnit {
                attack_info: #[trigger] attack_outcome_spec(
                    self.spec_db(),
                    unit_of(self.units(), *attacker_id),
                    unit_of(self.units(), *defender_id),
                    *fire_mode,
                    dice,
                    self.spec_fow(unit_of(self.units(), *defender_id).player_id.id as int).visible(
                        unit_of(self.units(), *attacker_id).pos),
                ),
            }),
    {
        let attacker = self.state.unit(*attacker_id);
        let defender = self.state.unit(*defender_id);
        proof {
            self.lemma_unit(attacker);
            self.lemma_unit(defender);
        }
        let check_attack_result = check_attack(&self.db, &self.state, &self.sight, attacker_id, defender_id, fire_mode);
        if check_attack_result.is_err() {
            return None;
        }
        let dice = roll_dice();
        let fow = self.fow_of(defender.player_id);
        let is_visible = fow.is_visible(&attacker.pos);
        let attack_info = self.attack_outcome(&attacker, &defender, *fire_mode, &dice, is_visible);
        Some(CoreEvent::AttackUnit { attack_info: attack_info })
    }

    /// Whether `attacker`, an enemy of `defender`, fires at it in
    /// reaction: not when holding fire, only where its player sees the
    /// defender, and only as the rules of reactive attacks allow.
    fn can_unit_make_reaction_attack(&self, defender: &Unit, attacker: &Unit) -> (b: bool)
        requires
            self.wf(),
            self.is_unit(*attacker),
            self.is_unit(*defender),
            attacker.player_id != defender.player_id,
        ensures
            b == (attacker.reaction_fire_mode != ReactionFireMode::HoldFire
                && self.spec_fow(attacker.player_id.id as int).visible(defender.pos)
                && attack_check(self.spec_db(), self.units(), self.spec_sight(), attacker.id, defender.id,
                FireMode::Reactive) is Ok),
    {
        proof {
            self.lemma_unit(*attacker);
            self.lemma_unit(*defender);
        }
        if attacker.reaction_fire_mode == ReactionFireMode::HoldFire {
            return false;
        }
        let fow = self.fow_of(attacker.player_id);
        if !fow.is_visible(&defender.pos) {
            return false;
        }
        let check_attack_result = check_attack(
            &self.db,
            &self.state,
            &self.sight,
            &attacker.id,
            &defender.id,
            &FireMode::Reactive,
        );
        check_attack_result.is_ok()
    }
}

/// The cases in which a move that draws no reaction fire is stated to
/// run its whole path: the mover's morale can take a reactive shot, its
/// passenger (if any) is another unit that exists, and the path never
/// stays on a tile from one step to the next.
pub open spec fn move_guard(c: Core, unit_id: UnitId, path: Seq<MapPos>) -> bool {
    let u0 = unit_of(c.units(), unit_id);
    &&& u0.morale - 90 >= i32::MIN
    &&& u0.passenger_id matches Some(p) ==> has_unit(c.units(), p) && p != unit_id
    &&& forall|i: int| 0 <= i < path.len() - 1 ==> #[trigger] path[i] != path[i + 1]
}

/// The units of `st` after the first `j` steps of a move of `unit_id`
/// along `path` in mode `mode` that met no reaction fire: the mover and
/// its passenger stand on the tile of the last step, and the mover has
/// spent the cost of those tiles times the mode's factor (before the first
/// step, the units of `st`).
pub open spec fn moved_units(db: Db, st: InternalState, unit_id: UnitId, path: Seq<MapPos>, mode: MoveMode, j: int) -> Seq<Unit> {
    let units = st.spec_units();
    let u0 = unit_of(units, unit_id);
    let mp = u0.move_points.n - crate::pathfinder::path_cost_spec(db, st, u0, path.take(j)) * crate::rules::cost_factor(mode);
    if j == 0 {
        units
    } else {
        Seq::new(units.len(), |i: int| if units[i].id == unit_id {
            Unit { pos: path[j - 1], move_points: MovePoints { n: mp as i32 }, ..units[i] }
        } else if u0.passenger_id == Some(units[i].id) {
            Unit { pos: path[j - 1], ..units[i] }
        } else {
            units[i]
        })
    }
}

/// One more step of a move that met no reaction fire: its tile costs what
/// it cost before the move, its event can be applied, and applying it
/// gives the units after one more step.
proof fn lemma_move_step(db: Db, st0: InternalState, sj: InternalState, unit_id: UnitId, path: Seq<MapPos>, mode: MoveMode, j: int)
    requires
        crate::pathfinder::cost_context(db, st0, unit_of(st0.spec_units(), unit_id)),
        has_unit(st0.spec_units(), unit_id),
        unit_of(st0.spec_units(), unit_id).passenger_id matches Some(p) ==> has_unit(st0.spec_units(), p) && p != unit_id,
        forall|i: int| 0 <= i < path.len() - 1 ==> #[trigger] path[i] != path[i + 1],
        !crate::rules::path_blocked(st0.spec_units(), path),
        crate::pathfinder::path_cost_spec(db, st0, unit_of(st0.spec_units(), unit_id), path)
            * crate::rules::cost_factor(mode) <= unit_of(st0.spec_units(), unit_id).move_points.n,
        0 <= j < path.len(),
        sj.spec_units() == moved_units(db, st0, unit_id, path, mode, j),
        sj.spec_map() == st0.spec_map(),
    ensures
        ({
            let u0 = unit_of(st0.spec_units(), unit_id);
            let uj = unit_of(sj.spec_units(), unit_id);
            let c = crate::pathfinder::tile_cost_spec(db, st0, u0, path[j]);
            let ev = CoreEvent::Move {
                unit_id: unit_id,
                from: uj.pos,
                to: path[j],
                mode: mode,
                cost: MovePoints { n: (c * crate::rules::cost_factor(mode)) as i32 },
            };
            &&& has_unit(sj.spec_units(), unit_id)
            &&& uj.type_id == u0.type_id
            &&& uj.morale == u0.morale
            &&& uj.pos == (if j == 0 { u0.pos } else { path[j - 1] })
            &&& crate::pathfinder::tile_cost_spec(db, sj, uj, path[j]) == c
            &&& event_applicable(db, sj.spec_units(), ev)
            &&& apply_event_spec(db, sj.spec_units(), ev) == moved_units(db, st0, unit_id, path, mode, j + 1)
            &&& has_unit(moved_units(db, st0, unit_id, path, mode, j + 1), unit_id)
            &&& unit_of(moved_units(db, st0, unit_id, path, mode, j + 1), unit_id).morale == u0.morale
        }),
{
    let units = st0.spec_units();
    let u0 = unit_of(units, unit_id);
    let i0 = unit_index(units, unit_id);
    assert(units[i0].id == unit_id);
    let mj = sj.spec_units();
    let f = crate::rules::cost_factor(mode);
    // the mover keeps its index
    assert(mj[i0].id == unit_id);
    assert(has_unit(mj, unit_id));
    let k = unit_index(mj, unit_id);
    assert(mj[k].id == unit_id);
    assert(units[k].id == unit_id);
    assert(k == i0);
    let uj = mj[i0];
    let to = if j == 0 { u0.pos } else { path[j - 1] };
    // the tile of the step holds as many units as before the move
    crate::state::lemma_units_at_member(units, i0);
    let q = path[j];
    assert(!crate::rules::occupied(units, q));
    assert(u0.pos != q);
    assert(to != q) by {
        if j > 0 {
            assert(path[j - 1] != path[j]);
        }
    }
    match u0.passenger_id {
        Some(p) => {
            let ip = unit_index(units, p);
            assert(units[ip].id == p);
            crate::state::lemma_units_at_member(units, ip);
            assert(units[ip].pos != q);
        },
        None => {},
    }
    assert forall|i: int| 0 <= i < mj.len() implies ((#[trigger] mj[i]).pos == q) == (units[i].pos == q) by {
        if units[i].id != unit_id && u0.passenger_id == Some(units[i].id) {
            let ip = unit_index(units, units[i].id);
            assert(units[ip].id == units[i].id);
            assert(ip == i);
        }
    }
    crate::state::lemma_units_at_same_len(mj, units, q);
    crate::pathfinder::lemma_tile_cost_same(db, sj, st0, uj, u0, q);
    let c = crate::pathfinder::tile_cost_spec(db, st0, u0, q);
    crate::pathfinder::lemma_tile_cost_bounds(db, st0, u0, q);
    // the move points stay within what the path costs
    crate::pathfinder::lemma_path_cost_monotone(db, st0, u0, path, j + 1, path.len() as int);
    assert(path.take(path.len() as int) == path);
    assert(path.take(j + 1).drop_last() == path.take(j));
    assert(path.take(j + 1).last() == q);
    let pj = crate::pathfinder::path_cost_spec(db, st0, u0, path.take(j));
    let pj1 = crate::pathfinder::path_cost_spec(db, st0, u0, path.take(j + 1));
    let pc = crate::pathfinder::path_cost_spec(db, st0, u0, path);
    assert(pj1 == pj + c);
    crate::pathfinder::lemma_path_cost_monotone(db, st0, u0, path, 0, j);
    assert(path.take(0) == Seq::<MapPos>::empty());
    assert(crate::pathfinder::path_cost_spec(db, st0, u0, Seq::<MapPos>::empty()) == 0);
    assert(0 <= pj);
    assert(pj1 * f <= pc * f) by (nonlinear_arith) requires pj1 <= pc, 1 <= f <= 2;
    assert(pj1 * f == pj * f + c * f) by (nonlinear_arith) requires pj1 == pj + c;
    assert(c * f >= 1) by (nonlinear_arith) requires c >= 1, 1 <= f <= 2;
    assert(pj * f >= 0) by (nonlinear_arith) requires pj >= 0, 1 <= f <= 2;
    let ev = CoreEvent::Move { unit_id: unit_id, from: uj.pos, to: q, mode: mode, cost: MovePoints { n: (c * f) as i32 } };
    assert(uj.move_points.n == u0.move_points.n - pj * f);
    assert(unit_of(mj, unit_id) == uj);
    match u0.passenger_id {
        Some(p) => {
            let ip = unit_index(units, p);
            assert(units[ip].id == p);
            assert(mj[ip].id == p);
            assert(has_unit(mj, p));
        },
        None => {},
    }
    assert(event_applicable(db, mj, ev));
    // applying the step
    let nu = Unit { pos: q, move_points: MovePoints { n: (uj.move_points.n - (c * f)) as i32 }, ..uj };
    let u1 = crate::state::with_unit(mj, unit_id, nu);
    let target = moved_units(db, st0, unit_id, path, mode, j + 1);
    let n = apply_event_spec(db, mj, ev);
    match u0.passenger_id {
        Some(p) => {
            let ip = unit_index(units, p);
            assert(units[ip].id == p);
            assert(ip != i0);
            assert(mj[ip].id == p);
            assert(u1[ip] == mj[ip]);
            assert(u1[ip].id == p);
            let kp = unit_index(u1, p);
            assert(u1[kp].id == p);
            assert(units[kp].id == mj[kp].id);
            assert(kp == ip);
            assert(n =~= target);
        },
        None => {
            assert(n =~= target);
        },
    }
    assert(target[i0].id == unit_id);
    let kt = unit_index(target, unit_id);
    assert(target[kt].id == unit_id);
    assert(units[kt].id == unit_id);
}

/// An attack whose defender's numbers can take its losses and
/// suppression, by an attacker with a point of the kind its mode spends,
/// can be applied.
proof fn lemma_attack_applies(db: Db, units: Seq<Unit>, a: AttackInfo)
    requires
        ids_distinct(units),
        has_unit(units, a.defender_id),
        a.attacker_id is Some,
        a.attacker_id->0 != a.defender_id,
        has_unit(units, a.attacker_id->0),
        0 <= a.killed <= unit_of(units, a.defender_id).count,
        0 <= a.suppression,
        unit_of(units, a.defender_id).morale - a.suppression >= i32::MIN,
        a.mode == FireMode::Active ==> unit_of(units, a.attacker_id->0).attack_points >= 1,
        a.mode == FireMode::Reactive ==> unit_of(units, a.attacker_id->0).reactive_attack_points is Some
            && unit_of(units, a.attacker_id->0).reactive_attack_points->0 >= 1,
    ensures
        event_applicable(db, units, CoreEvent::AttackUnit { attack_info: a }),
{
    let d = unit_of(units, a.defender_id);
    let hd = crate::state::hit_defender(d, a);
    if hd.count <= 0 {
        crate::state::lemma_remove_distinct(units, a.defender_id);
    } else {
        crate::state::lemma_with_unit_distinct(units, a.defender_id, hd);
    }
}

/// Unit `e` of the game `c` can fire in reaction at unit `u`: it belongs
/// to another player, does not hold its fire, its player sees `u`'s tile,
/// and the rules allow it a reactive attack on `u`.
pub open spec fn can_react(c: Core, e: Unit, u: Unit) -> bool {
    &&& e.player_id != u.player_id
    &&& e.reaction_fire_mode != ReactionFireMode::HoldFire
    &&& c.spec_fow(e.player_id.id as int).visible(u.pos)
    &&& attack_check(c.spec_db(), c.units(), c.spec_sight(), e.id, u.id, FireMode::Reactive) is Ok
}

/// Some unit of the game `c` can fire in reaction at the unit `unit_id`.
pub open spec fn reaction_possible(c: Core, unit_id: UnitId) -> bool {
    exists|j: int| 0 <= j < c.units().len() && #[trigger] can_react(c, c.units()[j], unit_of(c.units(), unit_id))
}

/// An attack moves nobody: every unit left has the position and the
/// passenger it had.
proof fn lemma_attack_keeps_places(db: Db, units: Seq<Unit>, a: AttackInfo)
    requires
        ids_distinct(units),
        event_applicable(db, units, CoreEvent::AttackUnit { attack_info: a }),
    ensures
        ({
            let n = apply_event_spec(db, units, CoreEvent::AttackUnit { attack_info: a });
            &&& forall|x: UnitId| #[trigger] has_unit(n, x) ==> has_unit(units, x) && unit_of(n, x).pos == unit_of(
                units,
                x,
            ).pos && unit_of(n, x).passenger_id == unit_of(units, x).passenger_id
            &&& forall|x: UnitId| #[trigger] has_unit(n, x) && (a.mode == FireMode::Reactive || a.attacker_id != Some(x))
                ==> unit_of(n, x).attack_points == unit_of(units, x).attack_points
            &&& a.mode == FireMode::Active && a.attacker_id is Some && a.attacker_id->0 != a.defender_id
                && has_unit(units, a.attacker_id->0) ==> has_unit(n, a.attacker_id->0)
                && unit_of(n, a.attacker_id->0).attack_points == unit_of(units, a.attacker_id->0).attack_points - 1
        }),
{
    let d = unit_of(units, a.defender_id);
    let hd = crate::state::hit_defender(d, a);
    let u1 = crate::state::after_hit(units, a);
    if hd.count <= 0 {
        crate::state::lemma_remove_distinct(units, a.defender_id);
    } else {
        crate::state::lemma_with_unit_distinct(units, a.defender_id, hd);
    }
    let n = apply_event_spec(db, units, CoreEvent::AttackUnit { attack_info: a });
    match a.attacker_id {
        Some(id) => if has_unit(u1, id) {
            let sa = crate::state::spent_attacker(unit_of(u1, id), a.mode);
            crate::state::lemma_with_unit_distinct(u1, id, sa);
        },
        None => {},
    }
    assert forall|x: UnitId| #[trigger] has_unit(n, x) implies has_unit(units, x) && unit_of(n, x).pos == unit_of(
        units,
        x,
    ).pos && unit_of(n, x).passenger_id == unit_of(units, x).passenger_id by {
        assert(has_unit(u1, x));
    }
    assert forall|x: UnitId| #[trigger] has_unit(n, x) && (a.mode == FireMode::Reactive || a.attacker_id != Some(x))
        implies unit_of(n, x).attack_points == unit_of(units, x).attack_points by {
        assert(has_unit(u1, x));
    }
    match a.attacker_id {
        Some(id) => if a.mode == FireMode::Active && id != a.defender_id && has_unit(units, id) {
            assert(has_unit(u1, id));
        },
        None => {},
    }
}

/// A move puts the unit and its passenger on the target tile and leaves
/// every other unit as it was.
proof fn lemma_move_places(db: Db, units: Seq<Unit>, unit_id: UnitId, from: MapPos, to: MapPos, mode: MoveMode, cost: MovePoints)
    requires
        ids_distinct(units),
        event_applicable(db, units, CoreEvent::Move { unit_id, from, to, mode, cost }),
    ensures
        ({
            let n = apply_event_spec(db, units, CoreEvent::Move { unit_id, from, to, mode, cost });
            let p = unit_of(units, unit_id).passenger_id;
            &&& has_unit(n, unit_id)
            &&& unit_of(n, unit_id).pos == to
            &&& unit_of(n, unit_id).passenger_id == p
            &&& unit_of(n, unit_id).player_id == unit_of(units, unit_id).player_id
            &&& forall|x: UnitId| x != unit_id && p != Some(x) ==> (#[trigger] has_unit(n, x) == has_unit(units, x))
                && (has_unit(units, x) ==> unit_of(n, x) == unit_of(units, x))
        }),
{
    let u = unit_of(units, unit_id);
    let nu = Unit { pos: to, move_points: MovePoints { n: (u.move_points.n - cost.n) as i32 }, ..u };
    let u1 = crate::state::with_unit(units, unit_id, nu);
    crate::state::lemma_with_unit_distinct(units, unit_id, nu);
    match u.passenger_id {
        Some(p) => {
            let pu = Unit { pos: to, ..unit_of(u1, p) };
            crate::state::lemma_with_unit_distinct(u1, p, pu);
        },
        None => {},
    }
}

/// An unload puts the passenger on its new tile and moves nobody else.
proof fn lemma_unload_places(db: Db, units: Seq<Unit>, info: UnitInfo, transporter_id: UnitId)
    requires
        ids_distinct(units),
        has_unit(units, info.unit_id),
        event_applicable(db, units, CoreEvent::UnloadUnit { unit_info: info, transporter_id }),
    ensures
        ({
            let n = apply_event_spec(db, units, CoreEvent::UnloadUnit { unit_info: info, transporter_id });
            &&& has_unit(n, info.unit_id)
            &&& unit_of(n, info.unit_id).pos == info.pos
            &&& forall|x: UnitId| x != info.unit_id && #[trigger] has_unit(n, x) ==> has_unit(units, x)
                && unit_of(n, x).pos == unit_of(units, x).pos
        }),
{
    let t = unit_of(units, transporter_id);
    let nt = Unit { passenger_id: None, ..t };
    let u1 = crate::state::with_unit(units, transporter_id, nt);
    crate::state::lemma_with_unit_distinct(units, transporter_id, nt);
    let p = Unit { pos: info.pos, ..unit_of(u1, info.unit_id) };
    crate::state::lemma_with_unit_distinct(u1, info.unit_id, p);
}

/// How reaction fire on a unit ended.
#[derive(Clone, Copy, Debug, PartialEq, Eq, Structural)]
pub enum ReactionFireResult {
    Attacked,
    Killed,
    NoFire,
}

impl Core {
    /// The ids of all units, in order.
    fn unit_ids(&self) -> (ids: Vec<UnitId>)
        ensures
            ids@.len() == self.units().len(),
            forall|i: int| 0 <= i < ids@.len() ==> #[trigger] ids@[i] == self.units()[i].id,
    {
        let units = self.state.units();
        let mut ids: Vec<UnitId> = Vec::new();
        let mut i: usize = 0;
        while i < units.len()
            invariant
                units@ == self.units(),
                0 <= i <= units@.len(),
                ids@.len() == i,
                forall|k: int| 0 <= k < i ==> #[trigger] ids@[k] == units@[k].id,
            decreases units@.len() - i,
        {
            ids.push(units[i].id);
            i = i + 1;
        }
        ids
    }

    /// Every enemy of unit `unit_id` that can fires at it, one after the
    /// other, each shot setting `remove_move_points` where that is given,
    /// until the unit is killed.
    fn reaction_fire_internal(&mut self, unit_id: &UnitId, remove_move_points: Option<bool>) -> (r: ReactionFireResult)
        requires
            old(self).wf(),
            has_unit(old(self).units(), *unit_id),
        ensures
            final(self).wf(),
            r == ReactionFireResult::Killed <==> !has_unit(final(self).units(), *unit_id),
            r == ReactionFireResult::NoFire <==> !reaction_possible(*old(self), *unit_id),
            r == ReactionFireResult::NoFire ==> *final(self) == *old(self),
            r != ReactionFireResult::NoFire && unit_of(old(self).units(), *unit_id).morale - 90 >= i32::MIN
                ==> forall|i: int| 0 <= i < 2 ==> #[trigger] attack_queued(old(self).spec_events(i),
                final(self).spec_events(i), *unit_id, FireMode::Reactive),
            forall|x: UnitId| x != *unit_id ==> (#[trigger] has_unit(final(self).units(), x) == has_unit(
                old(self).units(),
                x,
            )),
            forall|x: UnitId| #[trigger] has_unit(final(self).units(), x) ==> unit_of(final(self).units(), x).pos
                == unit_of(old(self).units(), x).pos && unit_of(final(self).units(), x).passenger_id == unit_of(
                old(self).units(),
                x,
            ).passenger_id,
            forall|x: UnitId| #[trigger] has_unit(final(self).units(), x) ==> unit_of(final(self).units(), x).attack_points
                == unit_of(old(self).units(), x).attack_points,
            final(self).spec_state().spec_map() == old(self).spec_state().spec_map(),
            final(self).spec_db() == old(self).spec_db(),
            final(self).spec_sight() == old(self).spec_sight(),
            final(self).spec_players() == old(self).spec_players(),
            final(self).spec_next_unit_id() == old(self).spec_next_unit_id(),
            final(self).spec_current_player() == old(self).spec_current_player(),
            forall|i: int| 0 <= i < 2 ==> is_prefix(old(self).spec_events(i), #[trigger] final(self).spec_events(i)),
    {
        let unit_ids = self.unit_ids();
        let mut result = ReactionFireResult::NoFire;
        proof {
            assert forall|i: int| 0 <= i < 2 implies is_prefix(old(self).spec_events(i), #[trigger] self.spec_events(i)) by {
                assert(self.spec_events(i).subrange(0, self.spec_events(i).len() as int) =~= self.spec_events(i));
            }
        }
        let mut k: usize = 0;
        while k < unit_ids.len()
            invariant
                self.wf(),
                has_unit(self.units(), *unit_id),
                result != ReactionFireResult::Killed,
                result == ReactionFireResult::NoFire ==> *self == *old(self),
                unit_ids@.len() == old(self).units().len(),
                forall|j: int| 0 <= j < unit_ids@.len() ==> #[trigger] unit_ids@[j] == old(self).units()[j].id,
                result == ReactionFireResult::NoFire ==> forall|j: int| 0 <= j < k ==> !#[trigger] can_react(*old(self),
                    old(self).units()[j], unit_of(old(self).units(), *unit_id)),
                result != ReactionFireResult::NoFire ==> reaction_possible(*old(self), *unit_id),
                result != ReactionFireResult::NoFire && unit_of(old(self).units(), *unit_id).morale - 90 >= i32::MIN
                    ==> forall|i: int| 0 <= i < 2 ==> #[trigger] attack_queued(old(self).spec_events(i),
                    self.spec_events(i), *unit_id, FireMode::Reactive),
                forall|x: UnitId| x != *unit_id ==> (#[trigger] has_unit(self.units(), x) == has_unit(
                    old(self).units(),
                    x,
                )),
                forall|x: UnitId| #[trigger] has_unit(self.units(), x) ==> unit_of(self.units(), x).pos
                    == unit_of(old(self).units(), x).pos && unit_of(self.units(), x).passenger_id == unit_of(
                    old(self).units(),
                    x,
                ).passenger_id,
                forall|x: UnitId| #[trigger] has_unit(self.units(), x) ==> unit_of(self.units(), x).attack_points
                    == unit_of(old(self).units(), x).attack_points,
                self.spec_state().spec_map() == old(self).spec_state().spec_map(),
                self.spec_db() == old(self).spec_db(),
                self.spec_sight() == old(self).spec_sight(),
                self.spec_players() == old(self).spec_players(),
                self.spec_next_unit_id() == old(self).spec_next_unit_id(),
                self.spec_current_player() == old(self).spec_current_player(),
                forall|i: int| 0 <= i < 2 ==> is_prefix(old(self).spec_events(i), #[trigger] self.spec_events(i)),
                0 <= k <= unit_ids@.len(),
            decreases unit_ids@.len() - k,
        {
            let enemy_unit_id = unit_ids[k];
            k = k + 1;
            proof {
                if result == ReactionFireResult::NoFire {
                    crate::state::lemma_unit_index_unique(self.units(), k - 1);
                }
            }
            let enemy_unit = match self.state.get_unit(enemy_unit_id) {
                Some(u) => u,
                None => continue,
            };
            let unit = self.state.unit(*unit_id);
            if enemy_unit.player_id == unit.player_id {
                continue;
            }
            if !self.can_unit_make_reaction_attack(&unit, &enemy_unit) {
                continue;
            }
            let event = self.command_attack_unit_to_event(&enemy_unit.id, unit_id, &FireMode::Reactive);
            let event = match event {
                Some(CoreEvent::AttackUnit { attack_info }) => {
                    let mut attack_info = attack_info;
                    match remove_move_points {
                        Some(b) => {
                            attack_info.remove_move_points = b;
                        },
                        None => {},
                    }
                    CoreEvent::AttackUnit { attack_info: attack_info }
                },
                _ => continue,
            };
            let ghost before = *self;
            let ghost was_quiet = result == ReactionFireResult::NoFire;
            proof {
                assert(enemy_unit.id != *unit_id);
                if was_quiet {
                    assert(can_react(*old(self), old(self).units()[k - 1], unit_of(old(self).units(), *unit_id)));
                    let a = event->attack_info;
                    if unit_of(old(self).units(), *unit_id).morale - 90 >= i32::MIN {
                        before.lemma_unit(enemy_unit);
                        lemma_attack_applies(before.spec_db(), before.units(), a);
                    }
                }
            }
            self.do_core_event(&event);
            proof {
                if event_applicable(before.spec_db(), before.units(), event) {
                    lemma_attack_keeps_places(before.spec_db(), before.units(), event->attack_info);
                }
                assert forall|x: UnitId| #[trigger] has_unit(self.units(), x) implies unit_of(self.units(), x).pos
                    == unit_of(old(self).units(), x).pos && unit_of(self.units(), x).passenger_id == unit_of(
                    old(self).units(),
                    x,
                ).passenger_id by {
                    assert(has_unit(before.units(), x));
                }
                assert forall|x: UnitId| #[trigger] has_unit(self.units(), x) implies unit_of(self.units(), x).attack_points
                    == unit_of(old(self).units(), x).attack_points by {
                    assert(has_unit(before.units(), x));
                }
                assert forall|x: UnitId| x != *unit_id implies (#[trigger] has_unit(self.units(), x) == has_unit(
                    old(self).units(), x)) by {
                    assert(has_unit(before.units(), x) ==> has_unit(self.units(), x));
                }
                assert forall|i: int| 0 <= i < 2 implies is_prefix(old(self).spec_events(i), #[trigger] self.spec_events(i)) by {
                    let a = old(self).spec_events(i);
                    let b = before.spec_events(i);
                    let c = self.spec_events(i);
                    assert(is_prefix(a, b));
                    assert(is_prefix(b, c));
                    assert(c.subrange(0, a.len() as int) =~= c.subrange(0, b.len() as int).subrange(0, a.len() as int));
                }
            }
            proof {
                if unit_of(old(self).units(), *unit_id).morale - 90 >= i32::MIN {
                    let a = event->attack_info;
                    assert forall|i: int| 0 <= i < 2 implies #[trigger] attack_queued(old(self).spec_events(i),
                        self.spec_events(i), *unit_id, FireMode::Reactive) by {
                        if was_quiet {
                            let f = crate::filter::filter_spec(self.units(), PlayerId { id: i as i32 }, before.spec_fow(i), event).0;
                            crate::filter::lemma_attacks_reported(self.units(), PlayerId { id: i as i32 }, before.spec_fow(i), a);
                            assert(all_queued(before.spec_events(i), self.spec_events(i), f));
                            let n = choose|n: int| before.spec_events(i).len() <= n < self.spec_events(i).len()
                                && self.spec_events(i)[n] == #[trigger] f[f.len() - 1];
                            assert(is_attack_on(self.spec_events(i)[n], *unit_id, FireMode::Reactive));
                        } else {
                            lemma_attack_queued_grows(old(self).spec_events(i), before.spec_events(i), self.spec_events(i),
                                *unit_id, FireMode::Reactive);
                        }
                    }
                }
            }
            result = ReactionFireResult::Attacked;
            if self.state.get_unit(*unit_id).is_none() {
                return ReactionFireResult::Killed;
            }
        }
        proof {
            if result == ReactionFireResult::NoFire {
                assert forall|j: int| 0 <= j < old(self).units().len() implies !#[trigger] can_react(*old(self),
                    old(self).units()[j], unit_of(old(self).units(), *unit_id)) by {
                    assert(j < k);
                }
            }
        }
        result
    }
}

proof fn lemma_prefix_trans(a: Seq<CoreEvent>, b: Seq<CoreEvent>, c: Seq<CoreEvent>)
    requires
        is_prefix(a, b),
        is_prefix(b, c),
    ensures
        is_prefix(a, c),
{
    assert(c.subrange(0, a.len() as int) =~= c.subrange(0, b.len() as int).subrange(0, a.len() as int));
}

impl Core {
    /// The queues of `self` extend those of `old`.
    pub open spec fn extends_events(&self, old: Core) -> bool {
        forall|i: int| 0 <= i < 2 ==> is_prefix(old.spec_events(i), #[trigger] self.spec_events(i))
    }

    /// `self` has the database, sight table, players and map of `old`.
    pub open spec fn same_frame(&self, old: Core) -> bool {
        &&& self.spec_db() == old.spec_db()
        &&& self.spec_sight() == old.spec_sight()
        &&& self.spec_players() == old.spec_players()
        &&& self.spec_state().spec_map() == old.spec_state().spec_map()
    }

    /// The player after `id`, wrapping around to the first one after the
    /// last one.
    pub fn next_player_id(&self, id: &PlayerId) -> (r: PlayerId)
        requires
            self.wf(),
            id.id < i32::MAX,
        ensures
            r.id == next_player_spec(id.id as int, 2),
    {
        let old_id = id.id;
        let max_id = self.players.len() as ZInt;
        PlayerId { id: if old_id + 1 == max_id { 0 } else { old_id + 1 } }
    }

    /// Hands out the next unit id.
    fn get_new_unit_id(&mut self) -> (id: UnitId)
        requires
            old(self).wf(),
            old(self).spec_next_unit_id() < UNITS_LIMIT,
        ensures
            final(self).wf(),
            id.id == old(self).spec_next_unit_id(),
            final(self).spec_next_unit_id() == old(self).spec_next_unit_id() + 1,
            final(self).spec_state() == old(self).spec_state(),
            final(self).same_frame(*old(self)),
            final(self).spec_current_player() == old(self).spec_current_player(),
            forall|i: int| 0 <= i < 2 ==> #[trigger] final(self).spec_events(i) == old(self).spec_events(i),
    {
        let new_unit_id = self.next_unit_id;
        self.next_unit_id = UnitId { id: self.next_unit_id.id + 1 };
        new_unit_id
    }

    /// The id of the built-in soldier type.
    fn soldier_type_id(&self) -> (id: UnitTypeId)
        requires
            self.wf(),
        ensures
            id.id == 2,
    {
        proof {
            reveal_strlit("tank");
            reveal_strlit("truck");
            reveal_strlit("soldier");
            let ts = self.db.unit_types();
            assert("tank"@.len() == 4 && "truck"@.len() == 5 && "soldier"@.len() == 7);
            assert(ts[0].name@ != "soldier"@);
            assert(ts[1].name@ != "soldier"@);
            assert(ts[2].name@ == "soldier"@);
        }
        self.db.unit_type_id("soldier")
    }
}

impl Core {
    /// Moves unit `unit_id` along `path` tile by tile, each step costing
    /// the tile's cost times the mode's factor and drawing reaction fire,
    /// which ends the move once it hits (and removes the unit's move
    /// points unless it moves carefully).
    fn do_move(&mut self, unit_id: &UnitId, path: &Vec<MapPos>, mode: &MoveMode)
        requires
            old(self).wf(),
            has_unit(old(self).units(), *unit_id),
            forall|i: int| 0 <= i < path@.len() ==> inboard(old(self).map_size_spec(), #[trigger] path@[i]),
            !crate::rules::path_blocked(old(self).units(), path@),
            crate::pathfinder::path_cost_spec(old(self).spec_db(), old(self).spec_state(), unit_of(old(self).units(), *unit_id), path@)
                * crate::rules::cost_factor(*mode) <= unit_of(old(self).units(), *unit_id).move_points.n,
        ensures
            move_guard(*old(self), *unit_id, path@) && !attack_queued(
                old(self).spec_events(unit_of(old(self).units(), *unit_id).player_id.id as int),
                final(self).spec_events(unit_of(old(self).units(), *unit_id).player_id.id as int),
                *unit_id,
                FireMode::Reactive,
            ) ==> final(self).units() == moved_units(old(self).spec_db(), old(self).spec_state(), *unit_id, path@, *mode,
                path@.len() as int),
            final(self).wf(),
            final(self).same_frame(*old(self)),
            final(self).spec_next_unit_id() == old(self).spec_next_unit_id(),
            final(self).spec_current_player() == old(self).spec_current_player(),
            final(self).extends_events(*old(self)),
            forall|x: UnitId| x != *unit_id ==> (#[trigger] has_unit(final(self).units(), x) == has_unit(
                old(self).units(),
                x,
            )),
            forall|x: UnitId| x != *unit_id && unit_of(old(self).units(), *unit_id).passenger_id != Some(x)
                && #[trigger] has_unit(final(self).units(), x) ==> unit_of(final(self).units(), x).pos == unit_of(
                old(self).units(),
                x,
            ).pos,
            has_unit(final(self).units(), *unit_id) ==> unit_of(final(self).units(), *unit_id).pos == unit_of(
                old(self).units(),
                *unit_id,
            ).pos || exists|k: int| 0 <= k < path@.len() && unit_of(final(self).units(), *unit_id).pos == #[trigger] path@[k],
            path@.len() > 0 && event_applicable(old(self).spec_db(), old(self).units(), first_step(*old(self), *unit_id, path@, *mode))
                ==> event_queued(old(self).spec_events(unit_of(old(self).units(), *unit_id).player_id.id as int),
                final(self).spec_events(unit_of(old(self).units(), *unit_id).player_id.id as int),
                first_step(*old(self), *unit_id, path@, *mode)),
    {
        let is_careful_move = *mode == MoveMode::Hunt;
        let ghost p0 = unit_of(old(self).units(), *unit_id).passenger_id;
        proof {
            assert forall|i: int| 0 <= i < 2 implies is_prefix(old(self).spec_events(i), #[trigger] self.spec_events(i)) by {
                assert(self.spec_events(i).subrange(0, self.spec_events(i).len() as int) =~= self.spec_events(i));
            }
        }
        let ghost c0 = *self;
        proof {
            let k = unit_index(self.units(), *unit_id);
            assert(self.units()[k].id == *unit_id);
            self.lemma_unit(self.units()[k]);
        }
        let mut j: usize = 0;
        let mut stopped = false;
        while j < path.len() && !stopped
            invariant
                self.wf(),
                !stopped ==> has_unit(self.units(), *unit_id),
                forall|i: int| 0 <= i < path@.len() ==> inboard(old(self).map_size_spec(), #[trigger] path@[i]),
                self.same_frame(*old(self)),
                self.spec_next_unit_id() == old(self).spec_next_unit_id(),
                self.spec_current_player() == old(self).spec_current_player(),
                self.extends_events(*old(self)),
                forall|x: UnitId| x != *unit_id ==> (#[trigger] has_unit(self.units(), x) == has_unit(
                    old(self).units(),
                    x,
                )),
                p0 == unit_of(old(self).units(), *unit_id).passenger_id,
                has_unit(self.units(), *unit_id) ==> unit_of(self.units(), *unit_id).passenger_id == p0,
                forall|x: UnitId| x != *unit_id && p0 != Some(x) && #[trigger] has_unit(self.units(), x)
                    ==> unit_of(self.units(), x).pos == unit_of(old(self).units(), x).pos,
                has_unit(self.units(), *unit_id) ==> unit_of(self.units(), *unit_id).pos == unit_of(
                    old(self).units(),
                    *unit_id,
                ).pos || exists|k: int| 0 <= k < j && unit_of(self.units(), *unit_id).pos == #[trigger] path@[k],
                0 <= j <= path@.len(),
                j == 0 ==> *self == *old(self),
                stopped ==> j > 0,
                c0 == *old(self),
                0 <= unit_of(old(self).units(), *unit_id).player_id.id < 2,
                c0.wf(),
                !crate::rules::path_blocked(c0.units(), path@),
                crate::pathfinder::path_cost_spec(c0.spec_db(), c0.spec_state(), unit_of(c0.units(), *unit_id), path@)
                    * crate::rules::cost_factor(*mode) <= unit_of(c0.units(), *unit_id).move_points.n,
                !stopped && move_guard(c0, *unit_id, path@) ==> self.units() == moved_units(c0.spec_db(), c0.spec_state(),
                    *unit_id, path@, *mode, j as int),
                stopped && move_guard(c0, *unit_id, path@) ==> attack_queued(
                    c0.spec_events(unit_of(c0.units(), *unit_id).player_id.id as int),
                    self.spec_events(unit_of(c0.units(), *unit_id).player_id.id as int), *unit_id, FireMode::Reactive),
                j > 0 && event_applicable(old(self).spec_db(), old(self).units(), first_step(*old(self), *unit_id, path@, *mode))
                    ==> event_queued(old(self).spec_events(unit_of(old(self).units(), *unit_id).player_id.id as int),
                    self.spec_events(unit_of(old(self).units(), *unit_id).player_id.id as int),
                    first_step(*old(self), *unit_id, path@, *mode)),
            decreases path@.len() - j,
        {
            let ghost st0 = *self;
            let pos = path[j];
            j = j + 1;
            let unit = self.state.unit(*unit_id);
            proof {
                self.lemma_unit(unit);
                assert(inboard(self.map_size_spec(), path@[j - 1]));
                crate::pathfinder::lemma_tile_cost_bounds(self.db, self.state, unit, pos);
            }
            proof {
                if move_guard(c0, *unit_id, path@) {
                    let k0 = unit_index(c0.units(), *unit_id);
                    assert(c0.units()[k0].id == *unit_id);
                    c0.lemma_unit(c0.units()[k0]);
                    lemma_move_step(c0.spec_db(), c0.spec_state(), self.spec_state(), *unit_id, path@, *mode, j - 1);
                }
            }
            let tile_cost = crate::pathfinder::tile_cost(&self.db, &self.state, &unit, &pos);
            let cost = MovePoints { n: tile_cost.n * crate::rules::move_cost_modifier(mode) };
            let event = CoreEvent::Move { unit_id: *unit_id, from: unit.pos, to: pos, mode: *mode, cost: cost };
            let ghost s0 = *self;
            self.do_core_event(&event);
            let ghost s1 = *self;
            proof {
                assert forall|x: UnitId| x != *unit_id implies (#[trigger] has_unit(s1.units(), x) == has_unit(
                    s0.units(), x)) by {
                    if has_unit(s0.units(), x) {
                        assert(has_unit(s1.units(), x));
                    }
                }
                if event_applicable(s0.spec_db(), s0.units(), event) {
                    lemma_move_places(s0.spec_db(), s0.units(), *unit_id, unit.pos, pos, *mode, cost);
                    assert(unit_of(s1.units(), *unit_id).pos == path@[j - 1]);
                }
            }
            proof {
                let owner = unit_of(old(self).units(), *unit_id).player_id.id as int;
                let first = first_step(*old(self), *unit_id, path@, *mode);
                if j == 1 && event_applicable(old(self).spec_db(), old(self).units(), first) {
                    assert(s0 == *old(self));
                    assert(event == first);
                    assert(event_applicable(s0.spec_db(), s0.units(), event));
                    assert(unit_of(s1.units(), *unit_id).player_id == unit.player_id);
                    s0.lemma_unit(unit);
                    assert(0 <= owner < 2);
                    assert(unit == unit_of(old(self).units(), *unit_id));
                    assert((PlayerId { id: owner as i32 }).id == unit.player_id.id);
                    assert(PlayerId { id: owner as i32 } == unit.player_id);
                    crate::filter::lemma_own_events_shown(s1.units(), PlayerId { id: owner as i32 }, s0.spec_fow(owner), event);
                    let f = crate::filter::filter_spec(s1.units(), PlayerId { id: owner as i32 }, s0.spec_fow(owner), event).0;
                    assert(all_queued(s0.spec_events(owner), s1.spec_events(owner), f));
                    assert(f[0] == first);
                    assert(event_queued(old(self).spec_events(owner), s1.spec_events(owner), first));
                }
            }
            let ghost s1b = *self;
            let reaction_fire_result = self.reaction_fire_internal(unit_id, Some(!is_careful_move));
            proof {
                assert forall|x: UnitId| x != *unit_id && p0 != Some(x) && #[trigger] has_unit(self.units(), x)
                    implies unit_of(self.units(), x).pos == unit_of(old(self).units(), x).pos by {
                    assert(has_unit(s1.units(), x));
                    assert(has_unit(s0.units(), x));
                }
                if has_unit(self.units(), *unit_id) {
                    assert(has_unit(s1.units(), *unit_id));
                    if !event_applicable(s0.spec_db(), s0.units(), event) {
                        assert(s1.units() == s0.units());
                    }
                }
                assert forall|i: int| 0 <= i < 2 implies is_prefix(old(self).spec_events(i), #[trigger] self.spec_events(i)) by {
                    lemma_prefix_trans(s0.spec_events(i), s1.spec_events(i), self.spec_events(i));
                    lemma_prefix_trans(old(self).spec_events(i), s0.spec_events(i), self.spec_events(i));
                }
            }
            proof {
                let owner = unit_of(old(self).units(), *unit_id).player_id.id as int;
                let first = first_step(*old(self), *unit_id, path@, *mode);
                if event_applicable(old(self).spec_db(), old(self).units(), first) {
                    if j == 1 {
                        lemma_queued_grows(old(self).spec_events(owner), s1.spec_events(owner), self.spec_events(owner), first);
                    } else {
                        lemma_prefix_trans(st0.spec_events(owner), s1.spec_events(owner), self.spec_events(owner));
                        lemma_queued_grows(old(self).spec_events(owner), st0.spec_events(owner), self.spec_events(owner), first);
                    }
                }
            }
            proof {
                if move_guard(c0, *unit_id, path@) {
                    let owner = unit_of(c0.units(), *unit_id).player_id.id as int;
                    assert(s1.units() == moved_units(c0.spec_db(), c0.spec_state(), *unit_id, path@, *mode, j as int));
                    if reaction_fire_result != ReactionFireResult::NoFire {
                        assert(is_prefix(c0.spec_events(owner), s0.spec_events(owner)));
                        assert(is_prefix(s0.spec_events(owner), s1b.spec_events(owner)));
                        assert(attack_queued(s1b.spec_events(owner), self.spec_events(owner), *unit_id, FireMode::Reactive));
                        lemma_attack_queued_earlier(c0.spec_events(owner), s1b.spec_events(owner), self.spec_events(owner),
                            *unit_id, FireMode::Reactive);
                    }
                }
            }
            if reaction_fire_result != ReactionFireResult::NoFire {
                stopped = true;
            }
        }
    }

    /// Reaction fire on unit `unit_id`.
    fn reaction_fire(&mut self, unit_id: &UnitId)
        requires
            old(self).wf(),
            has_unit(old(self).units(), *unit_id),
        ensures
            final(self).wf(),
            final(self).same_frame(*old(self)),
            final(self).spec_next_unit_id() == old(self).spec_next_unit_id(),
            final(self).spec_current_player() == old(self).spec_current_player(),
            final(self).extends_events(*old(self)),
            forall|x: UnitId| x != *unit_id ==> (#[trigger] has_unit(final(self).units(), x) == has_unit(
                old(self).units(),
                x,
            )),
            forall|x: UnitId| #[trigger] has_unit(final(self).units(), x) ==> unit_of(final(self).units(), x).pos
                == unit_of(old(self).units(), x).pos,
            forall|x: UnitId| #[trigger] has_unit(final(self).units(), x) ==> unit_of(final(self).units(), x).attack_points
                == unit_of(old(self).units(), x).attack_points,
    {
        self.reaction_fire_internal(unit_id, None);
    }
}

impl Core {
    /// What carrying out a command the rules accept does to the units.
    /// The end of a turn applies its event (where the numbers fit) and
    /// passes the turn; a new soldier of the current player gets the next
    /// id; a load and a change of reaction fire mode apply their events.
    /// A move, an attack and an unload rest on the dice and on reaction
    /// fire: of these it is stated that no unit appears; none disappears
    /// but the mover, the attacker or defender, or the unloaded passenger;
    /// and nobody changes tiles but the mover (which stays where it was or
    /// ends on a tile of its path) and its passenger, or the unloaded
    /// passenger (which ends on its new tile). A move queues its first step
    /// for the mover's player, and (in the cases of `move_guard`) a move on
    /// which no reactive attack was reported runs its whole path, paying
    /// its cost times the mode's factor. An attack spends a point of the
    /// attacker's and is reported to every player (where the defender's
    /// morale can take it).
    pub open spec fn command_effect(&self, old: Core, command: Command) -> bool {
        match command {
            Command::EndTurn => {
                let event = CoreEvent::EndTurn {
                    old_id: old.spec_current_player(),
                    new_id: PlayerId { id: next_player_spec(old.spec_current_player().id as int, 2) as i32 },
                };
                if event_applicable(old.spec_db(), old.units(), event) {
                    &&& self.units() == apply_event_spec(old.spec_db(), old.units(), event)
                    &&& self.spec_current_player() == event->new_id
                } else {
                    &&& self.units() == old.units()
                    &&& self.spec_current_player() == old.spec_current_player()
                }
            },
            Command::CreateUnit { pos } => {
                &&& self.units() == old.units().push(crate::state::new_unit(
                    old.spec_db(),
                    UnitInfo {
                        unit_id: UnitId { id: old.spec_next_unit_id() as i32 },
                        pos: pos,
                        type_id: UnitTypeId { id: 2 },
                        player_id: old.spec_current_player(),
                        passenger_id: None,
                    },
                    crate::state::InfoLevel::Full,
                ))
                &&& self.spec_next_unit_id() == old.spec_next_unit_id() + 1
                &&& self.spec_current_player() == old.spec_current_player()
            },
            Command::LoadUnit { transporter_id, passenger_id } => {
                &&& self.units() == crate::state::load_units(old.units(), transporter_id, passenger_id)
                &&& self.spec_current_player() == old.spec_current_player()
            },
            Command::SetReactionFireMode { unit_id, mode } => {
                &&& self.units() == crate::state::with_unit(
                    old.units(),
                    unit_id,
                    Unit { reaction_fire_mode: mode, ..unit_of(old.units(), unit_id) },
                )
                &&& self.spec_current_player() == old.spec_current_player()
            },
            Command::Move { unit_id, path, mode } => {
                &&& move_guard(old, unit_id, path@) && !attack_queued(
                    old.spec_events(unit_of(old.units(), unit_id).player_id.id as int),
                    self.spec_events(unit_of(old.units(), unit_id).player_id.id as int),
                    unit_id,
                    FireMode::Reactive,
                ) ==> self.units() == moved_units(old.spec_db(), old.spec_state(), unit_id, path@, mode, path@.len() as int)
                &&& path@.len() > 0 && (unit_of(old.units(), unit_id).passenger_id matches Some(p) ==> has_unit(old.units(), p))
                    ==> event_queued(old.spec_events(unit_of(old.units(), unit_id).player_id.id as int),
                    self.spec_events(unit_of(old.units(), unit_id).player_id.id as int),
                    first_step(old, unit_id, path@, mode))
                &&& forall|x: UnitId| x != unit_id ==> (#[trigger] has_unit(self.units(), x) == has_unit(old.units(), x))
                &&& forall|x: UnitId| x != unit_id && unit_of(old.units(), unit_id).passenger_id != Some(x)
                    && #[trigger] has_unit(self.units(), x) ==> unit_of(self.units(), x).pos == unit_of(old.units(), x).pos
                &&& has_unit(self.units(), unit_id) ==> unit_of(self.units(), unit_id).pos == unit_of(old.units(), unit_id).pos
                    || exists|k: int| 0 <= k < path@.len() && unit_of(self.units(), unit_id).pos == #[trigger] path@[k]
                &&& self.spec_current_player() == old.spec_current_player()
            },
            Command::AttackUnit { attacker_id, defender_id } => {
                &&& forall|x: UnitId| x != attacker_id && x != defender_id ==> (#[trigger] has_unit(self.units(), x)
                    == has_unit(old.units(), x))
                &&& forall|x: UnitId| #[trigger] has_unit(self.units(), x) ==> unit_of(self.units(), x).pos == unit_of(
                    old.units(),
                    x,
                ).pos
                &&& forall|x: UnitId| x != attacker_id && #[trigger] has_unit(self.units(), x)
                    ==> unit_of(self.units(), x).attack_points == unit_of(old.units(), x).attack_points
                &&& has_unit(self.units(), attacker_id) && unit_of(old.units(), defender_id).morale - 90 >= i32::MIN
                    ==> unit_of(self.units(), attacker_id).attack_points == unit_of(old.units(), attacker_id).attack_points - 1
                &&& unit_of(old.units(), defender_id).morale - 90 >= i32::MIN ==> forall|i: int| 0 <= i < 2
                    ==> #[trigger] attack_queued(old.spec_events(i), self.spec_events(i), defender_id, FireMode::Active)
                &&& self.spec_current_player() == old.spec_current_player()
            },
            Command::UnloadUnit { passenger_id, pos, .. } => {
                &&& forall|x: UnitId| x != passenger_id ==> (#[trigger] has_unit(self.units(), x) == has_unit(old.units(), x))
                &&& forall|x: UnitId| x != passenger_id && #[trigger] has_unit(self.units(), x) ==> unit_of(self.units(), x).pos
                    == unit_of(old.units(), x).pos
                &&& has_unit(self.units(), passenger_id) ==> unit_of(self.units(), passenger_id).pos == pos
                &&& self.spec_current_player() == old.spec_current_player()
            },
        }
    }

    /// The first step of a move that the rules accept can be applied,
    /// where the mover's passenger (if any) exists.
    proof fn lemma_first_step_applies(&self, unit_id: UnitId, path: Seq<MapPos>, mode: MoveMode)
        requires
            self.wf(),
            has_unit(self.units(), unit_id),
            path.len() > 0,
            crate::pathfinder::path_cost_spec(self.spec_db(), self.spec_state(), unit_of(self.units(), unit_id), path)
                * crate::rules::cost_factor(mode) <= unit_of(self.units(), unit_id).move_points.n,
            unit_of(self.units(), unit_id).passenger_id matches Some(p) ==> has_unit(self.units(), p),
        ensures
            event_applicable(self.spec_db(), self.units(), first_step(*self, unit_id, path, mode)),
    {
        let u = unit_of(self.units(), unit_id);
        let k = unit_index(self.units(), unit_id);
        assert(self.units()[k].id == unit_id);
        self.lemma_unit(self.units()[k]);
        let db = self.spec_db();
        let st = self.spec_state();
        crate::pathfinder::lemma_path_cost_monotone(db, st, u, path, 1, path.len() as int);
        assert(path.take(path.len() as int) == path);
        assert(path.take(1).drop_last() == Seq::<MapPos>::empty());
        assert(path.take(1).last() == path[0]);
        assert(crate::pathfinder::path_cost_spec(db, st, u, Seq::<MapPos>::empty()) == 0);
        crate::pathfinder::lemma_tile_cost_bounds(db, st, u, path[0]);
        let c = crate::pathfinder::tile_cost_spec(db, st, u, path[0]);
        let pc = crate::pathfinder::path_cost_spec(db, st, u, path);
        let f = crate::rules::cost_factor(mode);
        assert(c <= pc);
        assert(c * f <= pc * f) by (nonlinear_arith) requires c <= pc, 1 <= f <= 2;
        assert(c * f >= 1) by (nonlinear_arith) requires c >= 1, 1 <= f <= 2;
    }

    /// Checks `command` and, where the rules accept it, carries it out;
    /// returns the outcome of the check.
    #[verifier::rlimit(40)]
    fn simulation_step(&mut self, command: &Command) -> (r: Result<(), crate::rules::CommandError>)
        requires
            old(self).wf(),
            crate::rules::command_on_map(old(self).map_size_spec(), *command),
            command is CreateUnit ==> old(self).spec_next_unit_id() < UNITS_LIMIT,
        ensures
            final(self).wf(),
            r == crate::rules::command_check(old(self).spec_db(), old(self).spec_state(), old(self).spec_sight(), *command),
            final(self).same_frame(*old(self)),
            final(self).extends_events(*old(self)),
            r is Err ==> {
                &&& final(self).units() == old(self).units()
                &&& final(self).spec_current_player() == old(self).spec_current_player()
                &&& final(self).spec_next_unit_id() == old(self).spec_next_unit_id()
                &&& forall|i: int| 0 <= i < 2 ==> #[trigger] final(self).spec_events(i) == old(self).spec_events(i)
                &&& forall|i: int| 0 <= i < 2 ==> #[trigger] final(self).spec_fow(i) == old(self).spec_fow(i)
                &&& forall|i: int| 0 <= i < 2 ==> #[trigger] final(self).spec_visible_enemies(i)
                    == old(self).spec_visible_enemies(i)
            },
            r is Ok ==> final(self).command_effect(*old(self), *command),
            !(command is CreateUnit) ==> final(self).spec_next_unit_id() == old(self).spec_next_unit_id(),
    {
        let check = crate::rules::check_command(&self.db, &self.state, &self.sight, command);
        if check.is_err() {
            proof {
                assert forall|i: int| 0 <= i < 2 implies is_prefix(old(self).spec_events(i), #[trigger] self.spec_events(i)) by {
                    assert(self.spec_events(i).subrange(0, self.spec_events(i).len() as int) =~= self.spec_events(i));
                }
            }
            return check;
        }
        match command {
            Command::EndTurn => {
                let old_id = self.current_player_id;
                let new_id = self.next_player_id(&old_id);
                self.do_core_event(&CoreEvent::EndTurn { old_id: old_id, new_id: new_id });
            },
            Command::CreateUnit { pos } => {
                let unit_id = self.get_new_unit_id();
                let type_id = self.soldier_type_id();
                let event = CoreEvent::CreateUnit {
                    unit_info: UnitInfo {
                        unit_id: unit_id,
                        pos: *pos,
                        type_id: type_id,
                        player_id: self.current_player_id,
                        passenger_id: None,
                    },
                };
                proof {
                    assert(!has_unit(self.units(), unit_id)) by {
                        if has_unit(self.units(), unit_id) {
                            let k = choose|k: int| 0 <= k < self.units().len() && (#[trigger] self.units()[k]).id == unit_id;
                            assert(self.units()[k].id.id < old(self).spec_next_unit_id());
                        }
                    }
                }
                self.do_core_event(&event);
            },
            Command::Move { unit_id, path, mode } => {
                proof {
                    let u = unit_of(self.units(), *unit_id);
                    if path@.len() > 0 && (u.passenger_id matches Some(p) ==> has_unit(self.units(), p)) {
                        self.lemma_first_step_applies(*unit_id, path@, *mode);
                    }
                }
                self.do_move(unit_id, path, mode);
            },
            Command::AttackUnit { attacker_id, defender_id } => {
                match self.command_attack_unit_to_event(attacker_id, defender_id, &FireMode::Active) {
                    Some(event) => {
                        proof {
                            let a = unit_of(self.units(), *attacker_id);
                            let d = unit_of(self.units(), *defender_id);
                            self.lemma_unit(a);
                            assert(*attacker_id != *defender_id) by {
                                if *attacker_id == *defender_id {
                                    crate::map::lemma_distance_symmetric(a.pos, a.pos);
                                }
                            }
                        }
                        let ghost s0 = *self;
                        self.do_core_event(&event);
                        let ghost s1 = *self;
                        proof {
                            if event_applicable(s0.spec_db(), s0.units(), event) {
                                lemma_attack_keeps_places(s0.spec_db(), s0.units(), event->attack_info);
                            }
                        }
                        proof {
                            let a = event->attack_info;
                            let u0 = s0.units();
                            let d = unit_of(u0, *defender_id);
                            if d.morale - 90 >= i32::MIN {
                                let hd = crate::state::hit_defender(d, a);
                                if hd.count <= 0 {
                                    crate::state::lemma_remove_distinct(u0, *defender_id);
                                } else {
                                    crate::state::lemma_with_unit_distinct(u0, *defender_id, hd);
                                }
                                assert(event_applicable(s0.spec_db(), u0, event));
                            }
                        }
                        self.reaction_fire(attacker_id);
                        proof {
                            assert forall|x: UnitId| #[trigger] has_unit(self.units(), x) implies unit_of(self.units(), x).pos
                                == unit_of(old(self).units(), x).pos by {
                                assert(has_unit(s1.units(), x));
                            }
                            assert forall|x: UnitId| x != *attacker_id && #[trigger] has_unit(self.units(), x)
                                implies unit_of(self.units(), x).attack_points == unit_of(old(self).units(), x).attack_points by {
                                assert(has_unit(s1.units(), x));
                            }
                            if has_unit(self.units(), *attacker_id) {
                                assert(has_unit(s1.units(), *attacker_id));
                            }
                            if unit_of(old(self).units(), *defender_id).morale - 90 >= i32::MIN {
                                let a = event->attack_info;
                                assert forall|i: int| 0 <= i < 2 implies #[trigger] attack_queued(
                                    old(self).spec_events(i), self.spec_events(i), *defender_id, FireMode::Active) by {
                                    let f = crate::filter::filter_spec(s1.units(), PlayerId { id: i as i32 }, s0.spec_fow(i), event).0;
                                    crate::filter::lemma_attacks_reported(s1.units(), PlayerId { id: i as i32 }, s0.spec_fow(i), a);
                                    assert(all_queued(s0.spec_events(i), s1.spec_events(i), f));
                                    let n = choose|n: int| s0.spec_events(i).len() <= n < s1.spec_events(i).len()
                                        && s1.spec_events(i)[n] == #[trigger] f[f.len() - 1];
                                    assert(self.spec_events(i).subrange(0, s1.spec_events(i).len() as int)[n] == s1.spec_events(i)[n]);
                                    assert(is_attack_on(self.spec_events(i)[n], *defender_id, FireMode::Active));
                                }
                            }
                            assert forall|i: int| 0 <= i < 2 implies is_prefix(old(self).spec_events(i), #[trigger] self.spec_events(i)) by {
                                lemma_prefix_trans(s0.spec_events(i), s1.spec_events(i), self.spec_events(i));
                            }
                        }
                    },
                    None => {},
                }
            },
            Command::LoadUnit { transporter_id, passenger_id } => {
                self.do_core_event(&CoreEvent::LoadUnit { transporter_id: *transporter_id, passenger_id: *passenger_id });
            },
            Command::UnloadUnit { transporter_id, passenger_id, pos } => {
                let passenger = self.state.unit(*passenger_id);
                let info = unit_to_info(&passenger);
                let event = CoreEvent::UnloadUnit {
                    transporter_id: *transporter_id,
                    unit_info: UnitInfo { pos: *pos, ..info },
                };
                let ghost s0 = *self;
                self.do_core_event(&event);
                let ghost s1 = *self;
                proof {
                    if event_applicable(s0.spec_db(), s0.units(), event) {
                        lemma_unload_places(s0.spec_db(), s0.units(), event->UnloadUnit_unit_info, *transporter_id);
                    }
                }
                self.reaction_fire(passenger_id);
                proof {
                    assert forall|x: UnitId| x != *passenger_id && #[trigger] has_unit(self.units(), x) implies unit_of(
                        self.units(), x).pos == unit_of(old(self).units(), x).pos by {
                        assert(has_unit(s1.units(), x));
                    }
                    if has_unit(self.units(), *passenger_id) {
                        assert(has_unit(s1.units(), *passenger_id));
                    }
                    assert forall|i: int| 0 <= i < 2 implies is_prefix(old(self).spec_events(i), #[trigger] self.spec_events(i)) by {
                        lemma_prefix_trans(s0.spec_events(i), s1.spec_events(i), self.spec_events(i));
                    }
                }
            },
            Command::SetReactionFireMode { unit_id, mode } => {
                self.do_core_event(&CoreEvent::SetReactionFireMode { unit_id: *unit_id, mode: *mode });
            },
        }
        check
    }
}

/// The units a game starts with, in order: their tiles, type ids (tank,
/// truck, soldier, scout) and players.
pub open spec fn initial_placement() -> Seq<(MapPos, int, int)> {
    seq![
        (MapPos { x: 0, y: 1 }, 0, 0),
        (MapPos { x: 0, y: 2 }, 2, 0),
        (MapPos { x: 0, y: 3 }, 3, 0),
        (MapPos { x: 1, y: 3 }, 1, 0),
        (MapPos { x: 0, y: 4 }, 2, 0),
        (MapPos { x: 0, y: 5 }, 0, 0),
        (MapPos { x: 0, y: 6 }, 0, 0),
        (MapPos { x: 9, y: 1 }, 0, 1),
        (MapPos { x: 9, y: 2 }, 2, 1),
        (MapPos { x: 9, y: 3 }, 3, 1),
        (MapPos { x: 9, y: 4 }, 2, 1),
        (MapPos { x: 8, y: 4 }, 1, 1),
        (MapPos { x: 9, y: 5 }, 0, 1),
        (MapPos { x: 9, y: 6 }, 0, 1),
    ]
}

/// The unit of entry `k` of the initial placement, with id `k`.
pub open spec fn initial_unit(db: Db, k: int) -> Unit {
    let (pos, type_id, player) = initial_placement()[k];
    crate::state::new_unit(
        db,
        UnitInfo {
            unit_id: UnitId { id: k as i32 },
            pos: pos,
            type_id: UnitTypeId { id: type_id as i32 },
            player_id: PlayerId { id: player as i32 },
            passenger_id: None,
        },
        crate::state::InfoLevel::Full,
    )
}

/// No unit of `units` stands on `pos`.
proof fn lemma_units_at_empty(units: Seq<Unit>, pos: MapPos)
    requires
        forall|i: int| 0 <= i < units.len() ==> (#[trigger] units[i]).pos != pos,
    ensures
        crate::state::units_at_spec(units, pos).len() == 0,
    decreases units.len(),
{
    if units.len() > 0 {
        assert forall|i: int| 0 <= i < units.drop_last().len() implies (#[trigger] units.drop_last()[i]).pos != pos by {
            assert(units.drop_last()[i] == units[i]);
        }
        lemma_units_at_empty(units.drop_last(), pos);
        assert(units[units.len() - 1] == units.last());
    }
}

impl Core {
    /// Adds a unit of type `type_id` for `player_id` on `pos`, unless the
    /// tile is taken.
    fn add_unit(&mut self, pos: &MapPos, type_id: &UnitTypeId, player_id: &PlayerId)
        requires
            old(self).wf(),
            inboard(old(self).map_size_spec(), *pos),
            old(self).spec_db().valid_unit_type_id(*type_id),
            0 <= player_id.id < 2,
            old(self).spec_next_unit_id() < UNITS_LIMIT,
        ensures
            final(self).wf(),
            final(self).same_frame(*old(self)),
            final(self).spec_current_player() == old(self).spec_current_player(),
            crate::rules::occupied(old(self).units(), *pos) ==> final(self).units() == old(self).units()
                && final(self).spec_next_unit_id() == old(self).spec_next_unit_id(),
            !crate::rules::occupied(old(self).units(), *pos) ==> final(self).units() == old(self).units().push(
                crate::state::new_unit(
                    old(self).spec_db(),
                    UnitInfo {
                        unit_id: UnitId { id: old(self).spec_next_unit_id() as i32 },
                        pos: *pos,
                        type_id: *type_id,
                        player_id: *player_id,
                        passenger_id: None,
                    },
                    crate::state::InfoLevel::Full,
                ),
            ) && final(self).spec_next_unit_id() == old(self).spec_next_unit_id() + 1,
    {
        if self.state.is_tile_occupied(pos) {
            return;
        }
        let new_unit_id = self.get_new_unit_id();
        let event = CoreEvent::CreateUnit {
            unit_info: UnitInfo {
                unit_id: new_unit_id,
                pos: *pos,
                type_id: *type_id,
                player_id: *player_id,
                passenger_id: None,
            },
        };
        proof {
            assert(!has_unit(self.units(), new_unit_id)) by {
                if has_unit(self.units(), new_unit_id) {
                    let k = choose|k: int| 0 <= k < self.units().len() && (#[trigger] self.units()[k]).id == new_unit_id;
                    assert(self.units()[k].id.id < old(self).spec_next_unit_id());
                }
            }
        }
        self.do_core_event(&event);
    }

    /// Places the units a game starts with.
    fn get_units(&mut self)
        requires
            old(self).wf(),
            old(self).units().len() == 0,
            old(self).spec_next_unit_id() == 0,
            old(self).map_size_spec() == (Size2 { w: 10, h: 8 }),
        ensures
            final(self).wf(),
            final(self).same_frame(*old(self)),
            final(self).spec_current_player() == old(self).spec_current_player(),
            final(self).units().len() == 14,
            forall|k: int| 0 <= k < 14 ==> #[trigger] final(self).units()[k] == initial_unit(old(self).spec_db(), k),
            final(self).spec_next_unit_id() == 14,
    {
        let placement: Vec<(MapPos, ZInt, ZInt)> = vec![
            (MapPos { x: 0, y: 1 }, 0, 0),
            (MapPos { x: 0, y: 2 }, 2, 0),
            (MapPos { x: 0, y: 3 }, 3, 0),
            (MapPos { x: 1, y: 3 }, 1, 0),
            (MapPos { x: 0, y: 4 }, 2, 0),
            (MapPos { x: 0, y: 5 }, 0, 0),
            (MapPos { x: 0, y: 6 }, 0, 0),
            (MapPos { x: 9, y: 1 }, 0, 1),
            (MapPos { x: 9, y: 2 }, 2, 1),
            (MapPos { x: 9, y: 3 }, 3, 1),
            (MapPos { x: 9, y: 4 }, 2, 1),
            (MapPos { x: 8, y: 4 }, 1, 1),
            (MapPos { x: 9, y: 5 }, 0, 1),
            (MapPos { x: 9, y: 6 }, 0, 1),
        ];
        proof {
            assert forall|k: int| 0 <= k < 14 implies (#[trigger] placement@[k]).0 == initial_placement()[k].0
                && placement@[k].1 == initial_placement()[k].1 && placement@[k].2 == initial_placement()[k].2 by {
            }
        }
        let mut k: usize = 0;
        while k < placement.len()
            invariant
                self.wf(),
                self.same_frame(*old(self)),
                self.spec_current_player() == old(self).spec_current_player(),
                self.map_size_spec() == (Size2 { w: 10, h: 8 }),
                placement@.len() == 14,
                forall|j: int| 0 <= j < 14 ==> (#[trigger] placement@[j]).0 == initial_placement()[j].0
                    && placement@[j].1 == initial_placement()[j].1 && placement@[j].2 == initial_placement()[j].2,
                0 <= k <= 14,
                self.units().len() == k,
                self.spec_next_unit_id() == k,
                forall|j: int| 0 <= j < k ==> #[trigger] self.units()[j] == initial_unit(old(self).spec_db(), j),
            decreases 14 - k,
        {
            let (pos, type_index, player_index) = placement[k];
            proof {
                assert forall|j: int| 0 <= j < self.units().len() implies (#[trigger] self.units()[j]).pos != pos by {
                    assert(self.units()[j] == initial_unit(old(self).spec_db(), j));
                }
                lemma_units_at_empty(self.units(), pos);
            }
            self.add_unit(&pos, &UnitTypeId { id: type_index }, &PlayerId { id: player_index });
            k = k + 1;
        }
    }
}

/// A sight table fit for a new game: made for its 10 by 8 map and
/// covering the ranges of sight of the built-in unit types (6 and 8).
pub open spec fn sight_for_new_game(sight: Sight) -> bool {
    &&& sight.wf()
    &&& sight.spec_size() == (Size2 { w: 10, h: 8 })
    &&& sight.covers(6)
    &&& sight.covers(8)
}

/// A player's view at the start of a game: nothing queued, nothing seen.
fn new_player_info(map_size: &Size2, player_id: PlayerId) -> (info: PlayerInfo)
    requires
        crate::map::valid_size(*map_size),
    ensures
        info.fow.wf(),
        info.fow.spec_size() == *map_size,
        info.fow.spec_player_id() == player_id,
        info.events@.len() == 0,
{
    PlayerInfo { events: Vec::new(), fow: Fow::new(map_size, &player_id), visible_enemies: Vec::new() }
}

impl Core {
    /// A new game of the given type on the built-in 10 by 8 map, with the
    /// built-in units placed and the first player to move.
    pub fn new(options: &Options, sight: Sight) -> (core: Core)
        requires
            sight_for_new_game(sight),
        ensures
            core.wf(),
            core.spec_players() == players_of(options.game_type),
            core.spec_current_player() == (PlayerId { id: 0 }),
            core.map_size_spec() == (Size2 { w: 10, h: 8 }),
            core.units().len() == 14,
            forall|k: int| 0 <= k < 14 ==> #[trigger] core.units()[k] == initial_unit(core.spec_db(), k),
            core.spec_next_unit_id() == 14,
            core.spec_sight() == sight,
            standard_unit_types(core.spec_db().unit_types()),
            standard_weapon_types(core.spec_db().weapon_types()),
    {
        let map_size = Size2 { w: 10, h: 8 };
        let state = InternalState::new(&map_size);
        let db = Db::new();
        let mut players_info: Vec<PlayerInfo> = Vec::new();
        players_info.push(new_player_info(&map_size, PlayerId { id: 0 }));
        players_info.push(new_player_info(&map_size, PlayerId { id: 1 }));
        let mut core = Core {
            state: state,
            players: get_players_list(&options.game_type),
            current_player_id: PlayerId { id: 0 },
            db: db,
            players_info: players_info,
            next_unit_id: UnitId { id: 0 },
            sight: sight,
            ai: crate::ai::Ai::new(&PlayerId { id: 1 }, &map_size),
        };
        proof {
            let ts = db.unit_types();
            assert forall|i: int| 0 <= i < ts.len() implies sight.covers((#[trigger] ts[i]).los_range as int) by {
                assert(0 <= i < 4);
            }
        }
        core.get_units();
        core
    }

    /// Another unit can be created: its id would stay below `UNITS_LIMIT`.
    pub fn can_create_unit(&self) -> (b: bool)
        requires
            self.wf(),
        ensures
            b == (self.spec_next_unit_id() < UNITS_LIMIT),
    {
        (self.next_unit_id.id as usize) < UNITS_LIMIT
    }

    /// The database of unit types.
    pub fn db(&self) -> (db: &Db)
        ensures
            *db == self.spec_db(),
    {
        &self.db
    }

    /// The full game state.
    pub fn state(&self) -> (s: &InternalState)
        ensures
            *s == self.spec_state(),
    {
        &self.state
    }

    /// The size of the map.
    pub fn map_size(&self) -> (s: Size2)
        ensures
            s == self.map_size_spec(),
    {
        *self.state.map().size()
    }

    /// The player whose turn it is.
    pub fn player_id(&self) -> (id: PlayerId)
        ensures
            id == self.spec_current_player(),
    {
        self.current_player_id
    }

    /// The player whose turn it is.
    pub fn player(&self) -> (p: Player)
        requires
            self.wf(),
        ensures
            p == self.spec_players()[self.spec_current_player().id as int],
            p.id == self.spec_current_player(),
    {
        self.players[self.current_player_id.id as usize]
    }

    /// The next event the player whose turn it is has yet to see,
    /// taken from its queue.
    pub fn get_event(&mut self) -> (r: Option<CoreEvent>)
        requires
            old(self).wf(),
        ensures
            final(self).wf(),
            final(self).same_frame(*old(self)),
            final(self).units() == old(self).units(),
            final(self).spec_current_player() == old(self).spec_current_player(),
            final(self).spec_next_unit_id() == old(self).spec_next_unit_id(),
            final(self).spec_ai() == old(self).spec_ai(),
            ({
                let i = old(self).spec_current_player().id as int;
                let q = old(self).spec_events(i);
                &&& r == if q.len() > 0 { Some(q[0]) } else { None::<CoreEvent> }
                &&& final(self).spec_events(i) == if q.len() > 0 { q.drop_first() } else { q }
                &&& final(self).spec_events(1 - i) == old(self).spec_events(1 - i)
            }),
    {
        let i = self.current_player_id.id as usize;
        let ghost prev = self.players_info@;
        let mut info = self.players_info.remove(i);
        let r = if info.events.len() > 0 {
            Some(info.events.remove(0))
        } else {
            None
        };
        self.players_info.insert(i, info);
        proof {
            assert(self.players_info@ =~= prev.update(i as int, info));
            assert(info.events@ =~= if prev[i as int].events@.len() > 0 { prev[i as int].events@.drop_first() } else { prev[i as int].events@ });
        }
        r
    }
}

/// Law: with two players the turn comes back to a player after two
/// ends of turn.
pub proof fn lemma_next_player_twice(id: int)
    requires
        0 <= id < 2,
    ensures
        0 <= next_player_spec(id, 2) < 2,
        next_player_spec(id, 2) != id,
        next_player_spec(next_player_spec(id, 2), 2) == id,
{
}

/// Law: after a new unit is created on a tile, the tile is occupied by a
/// soldier of the player whose turn it is, at full strength, with the
/// next id.
pub proof fn lemma_created_unit_occupies(old: Core, new: Core, pos: MapPos)
    requires
        new.command_effect(old, Command::CreateUnit { pos }),
    ensures
        crate::rules::occupied(new.units(), pos),
        new.units().len() == old.units().len() + 1,
        ({
            let u = new.units().last();
            &&& u.pos == pos
            &&& u.id.id == old.spec_next_unit_id()
            &&& u.player_id == old.spec_current_player()
            &&& u.type_id.id == 2
            &&& u.count == old.spec_db().spec_unit_type(u.type_id).count
            &&& u.move_points == old.spec_db().spec_unit_type(u.type_id).move_points
        }),
{
    let n = new.units();
    assert(n.drop_last() =~= old.units());
}

/// The attack and move points of the units of `player` among `units`,
/// added up.
pub open spec fn turn_points_spec(units: Seq<Unit>, player: PlayerId) -> int
    decreases units.len(),
{
    if units.len() == 0 {
        0
    } else {
        turn_points_spec(units.drop_last(), player) + if units.last().player_id == player {
            units.last().attack_points + units.last().move_points.n
        } else {
            0
        }
    }
}

impl Core {
    /// The end of the turn now would leave the turn with the computer:
    /// the player it passes to (or, where the end-of-turn event cannot be
    /// applied, the player who keeps it) is the computer.
    pub open spec fn hands_to_computer(&self) -> bool {
        let event = CoreEvent::EndTurn {
            old_id: self.spec_current_player(),
            new_id: PlayerId { id: next_player_spec(self.spec_current_player().id as int, 2) as i32 },
        };
        let next = if event_applicable(self.spec_db(), self.units(), event) {
            event->new_id
        } else {
            self.spec_current_player()
        };
        self.spec_players()[next.id as int].is_ai
    }

    /// The attack and move points of the units of the player whose turn
    /// it is, added up: what the computer's commands use up.
    fn turn_points(&self) -> (n: i64)
        requires
            self.wf(),
        ensures
            n == turn_points_spec(self.units(), self.spec_current_player()),
    {
        let units = self.state.units();
        let ghost player = self.current_player_id;
        let mut n: i64 = 0;
        let mut i: usize = 0;
        while i < units.len()
            invariant
                units@ == self.units(),
                player == self.spec_current_player(),
                units@.len() <= UNITS_LIMIT,
                0 <= i <= units@.len(),
                -0x1_0000_0000 * i <= n <= 0x1_0000_0000 * i,
                n == turn_points_spec(units@.take(i as int), player),
            decreases units@.len() - i,
        {
            let u = units[i];
            proof {
                assert(units@.take(i + 1).drop_last() =~= units@.take(i as int));
                assert(units@.take(i + 1).last() == u);
            }
            if u.player_id == self.current_player_id {
                n = n + u.attack_points as i64 + u.move_points.n as i64;
            }
            i = i + 1;
        }
        proof { assert(units@.take(units@.len() as int) =~= units@); }
        n
    }

    /// Hands every queued event of the player whose turn it is to the
    /// computer player, first to last, and empties that queue.
    fn feed_ai(&mut self)
        requires
            old(self).wf(),
        ensures
            final(self).wf(),
            final(self).same_frame(*old(self)),
            final(self).units() == old(self).units(),
            final(self).spec_current_player() == old(self).spec_current_player(),
            final(self).spec_next_unit_id() == old(self).spec_next_unit_id(),
            ({
                let i = old(self).spec_current_player().id as int;
                let view = old(self).spec_ai().spec_state();
                &&& final(self).spec_events(i).len() == 0
                &&& final(self).spec_events(1 - i) == old(self).spec_events(1 - i)
                &&& final(self).spec_ai().spec_id() == old(self).spec_ai().spec_id()
                &&& final(self).spec_ai().spec_state().spec_map() == view.spec_map()
                &&& final(self).spec_ai().spec_state().spec_units() == crate::ai::ai_view_after(
                    old(self).spec_db(),
                    view.spec_units(),
                    view.spec_map().spec_size(),
                    old(self).spec_events(i),
                )
            }),
    {
        let ghost i = self.current_player_id.id as int;
        let ghost q0 = self.spec_events(i);
        let ghost other = self.spec_events(1 - i);
        let ghost view = self.ai.spec_state();
        let n = self.players_info[self.current_player_id.id as usize].events.len();
        let mut k: usize = 0;
        while k < n
            invariant
                self.wf(),
                self.same_frame(*old(self)),
                self.units() == old(self).units(),
                self.spec_current_player() == old(self).spec_current_player(),
                self.spec_next_unit_id() == old(self).spec_next_unit_id(),
                i == self.spec_current_player().id,
                q0 == old(self).spec_events(i),
                other == old(self).spec_events(1 - i),
                view == old(self).spec_ai().spec_state(),
                n == q0.len(),
                0 <= k <= n,
                self.spec_events(i) == q0.subrange(k as int, n as int),
                self.spec_events(1 - i) == other,
                self.ai.spec_id() == old(self).spec_ai().spec_id(),
                self.ai.spec_state().spec_map() == view.spec_map(),
                self.ai.spec_state().spec_units() == crate::ai::ai_view_after(
                    self.db,
                    view.spec_units(),
                    view.spec_map().spec_size(),
                    q0.take(k as int),
                ),
            decreases n - k,
        {
            let ghost before = *self;
            match self.get_event() {
                Some(event) => {
                    proof {
                        assert(event == q0[k as int]);
                        assert(q0.take(k + 1).drop_last() =~= q0.take(k as int));
                        assert(q0.take(k + 1).last() == q0[k as int]);
                        assert(self.spec_events(i) =~= q0.subrange(k + 1, n as int));
                    }
                    self.ai.apply_event(&self.db, &event);
                },
                None => {},
            }
            k = k + 1;
        }
        proof {
            assert(q0.take(n as int) =~= q0);
        }
    }

    /// The computer plays its turn: it is shown what it has yet to see,
    /// picks a command, and so on until it ends its turn. A command that
    /// is refused, or that uses up none of its units' attack or move
    /// points, would be picked again and again; the computer ends its turn
    /// instead. Whichever way, the last command is the end of the turn,
    /// given while the player who had the turn still has it.
    fn do_ai(&mut self)
        requires
            old(self).wf(),
        ensures
            final(self).wf(),
            final(self).same_frame(*old(self)),
            final(self).spec_next_unit_id() == old(self).spec_next_unit_id(),
            exists|s: Core| s.wf() && s.same_frame(*old(self))
                && s.spec_current_player() == old(self).spec_current_player()
                && #[trigger] final(self).command_effect(s, Command::EndTurn),
    {
        let mut points = self.turn_points();
        while points >= 0
            invariant
                self.wf(),
                self.same_frame(*old(self)),
                self.spec_next_unit_id() == old(self).spec_next_unit_id(),
                self.spec_current_player() == old(self).spec_current_player(),
            decreases points,
        {
            self.feed_ai();
            let command = self.ai.get_command(&self.db);
            let ghost before = *self;
            let r = self.simulation_step(&command);
            match command {
                Command::EndTurn => {
                    proof {
                        assert(self.command_effect(before, Command::EndTurn));
                    }
                    return;
                },
                _ => {},
            }
            let new_points = self.turn_points();
            if r.is_err() || new_points >= points || new_points < 0 {
                let ghost last = *self;
                self.simulation_step(&Command::EndTurn);
                proof {
                    assert(self.command_effect(last, Command::EndTurn));
                }
                return;
            }
            points = new_points;
        }
        let ghost last = *self;
        self.simulation_step(&Command::EndTurn);
        proof {
            assert(self.command_effect(last, Command::EndTurn));
        }
    }

    /// Checks `command` and, where the rules accept it, carries it out;
    /// returns the outcome of the check. Where the command ends the turn
    /// and hands it to the computer, the computer then plays its turn.
    pub fn do_command(&mut self, command: &Command) -> (r: Result<(), crate::rules::CommandError>)
        requires
            old(self).wf(),
            crate::rules::command_on_map(old(self).map_size_spec(), *command),
            command is CreateUnit ==> old(self).spec_next_unit_id() < UNITS_LIMIT,
        ensures
            final(self).wf(),
            r == crate::rules::command_check(old(self).spec_db(), old(self).spec_state(), old(self).spec_sight(), *command),
            final(self).same_frame(*old(self)),
            r is Err ==> {
                &&& final(self).units() == old(self).units()
                &&& final(self).spec_current_player() == old(self).spec_current_player()
                &&& final(self).spec_next_unit_id() == old(self).spec_next_unit_id()
                &&& forall|i: int| 0 <= i < 2 ==> #[trigger] final(self).spec_events(i) == old(self).spec_events(i)
                &&& forall|i: int| 0 <= i < 2 ==> #[trigger] final(self).spec_fow(i) == old(self).spec_fow(i)
                &&& forall|i: int| 0 <= i < 2 ==> #[trigger] final(self).spec_visible_enemies(i)
                    == old(self).spec_visible_enemies(i)
            },
            !(command is EndTurn && r is Ok && old(self).hands_to_computer()) ==> {
                &&& final(self).extends_events(*old(self))
                &&& r is Ok ==> final(self).command_effect(*old(self), *command)
            },
            command is EndTurn && r is Ok && old(self).hands_to_computer() ==> exists|mid: Core| {
                &&& mid.wf()
                &&& mid.same_frame(*old(self))
                &&& #[trigger] mid.command_effect(*old(self), Command::EndTurn)
                &&& mid.extends_events(*old(self))
                &&& mid.spec_next_unit_id() == old(self).spec_next_unit_id()
                &&& exists|s: Core| s.wf() && s.same_frame(mid) && s.spec_current_player() == mid.spec_current_player()
                    && #[trigger] final(self).command_effect(s, Command::EndTurn)
            },
            !(command is CreateUnit) ==> final(self).spec_next_unit_id() == old(self).spec_next_unit_id(),
    {
        let r = self.simulation_step(command);
        let ghost mid = *self;
        match command {
            Command::EndTurn => {
                if r.is_ok() && self.players[self.current_player_id.id as usize].is_ai {
                    self.do_ai();
                    proof {
                        assert(mid.command_effect(*old(self), Command::EndTurn));
                    }
                }
            },
            _ => {},
        }
        r
    }
}

} // verus!
