//! The computer player: it keeps its own view of the game from the
//! events it is shown, attacks what its units can reach and otherwise
//! moves them towards the enemy.

use vstd::prelude::*;
use crate::types::{ZInt, Size2, MapPos, PlayerId, UnitId, coords_fit, steps_fit};
use crate::unit::Unit;
use crate::db::Db;
use crate::map::{inboard, small_size, valid_size, hex_distance, distance};
use crate::dir::{Dir, neighbour};
use crate::state::{InternalState, ids_distinct, has_unit, unit_of, unit_index, apply_event_spec,
    event_applicable};
use crate::event::{Command, CoreEvent, MoveMode};
use crate::fow::units_inboard;
use crate::pathfinder::{Pathfinder, UNITS_LIMIT, cost_context, parents_descend, path_inboard,
    lemma_search_done_descend, truncate_path, path_cost_spec};

verus! {

/// The positions an event names lie on the map of `size`.
pub open spec fn event_on_map(size: Size2, event: CoreEvent) -> bool {
    match event {
        CoreEvent::Move { to, .. } => inboard(size, to),
        CoreEvent::CreateUnit { unit_info } => inboard(size, unit_info.pos),
        CoreEvent::ShowUnit { unit_info } => inboard(size, unit_info.pos),
        CoreEvent::UnloadUnit { unit_info, .. } => inboard(size, unit_info.pos),
        _ => true,
    }
}

/// Whether the positions `event` names lie on the map of `size`.
fn is_event_on_map(size: &Size2, event: &CoreEvent) -> (b: bool)
    ensures
        b == event_on_map(*size, *event),
{
    let on = |p: &MapPos| -> (b: bool)
        ensures
            b == inboard(*size, *p),
        { p.x >= 0 && p.y >= 0 && p.x < size.w && p.y < size.h };
    match event {
        CoreEvent::Move { to, .. } => on(to),
        CoreEvent::CreateUnit { unit_info } => on(&unit_info.pos),
        CoreEvent::ShowUnit { unit_info } => on(&unit_info.pos),
        CoreEvent::UnloadUnit { unit_info, .. } => on(&unit_info.pos),
        _ => true,
    }
}

/// An event on the map keeps all units on it, and adds at most one unit.
proof fn lemma_event_keeps_inboard(db: Db, units: Seq<Unit>, size: Size2, event: CoreEvent)
    requires
        ids_distinct(units),
        units_inboard(units, size),
        event_applicable(db, units, event),
        event_on_map(size, event),
    ensures
        units_inboard(apply_event_spec(db, units, event), size),
        apply_event_spec(db, units, event).len() <= units.len() + 1,
{
    let n = apply_event_spec(db, units, event);
    let all_in = |s: Seq<Unit>| forall|i: int| 0 <= i < s.len() ==> inboard(size, (#[trigger] s[i]).pos);
    match event {
        CoreEvent::Move { unit_id, to, cost, .. } => {
            let u = unit_of(units, unit_id);
            let k = unit_index(units, unit_id);
            assert(units[k].id == unit_id);
            let nu = crate::unit::Unit { pos: to, move_points: crate::types::MovePoints { n: (u.move_points.n - cost.n) as i32 }, ..u };
            let u1 = crate::state::with_unit(units, unit_id, nu);
            crate::state::lemma_with_unit_distinct(units, unit_id, nu);
            assert(all_in(u1)) by {
                assert forall|i: int| 0 <= i < u1.len() implies inboard(size, (#[trigger] u1[i]).pos) by {
                    if i != k {
                        assert(u1[i] == units[i]);
                    }
                }
            }
            match u.passenger_id {
                Some(p) => {
                    let kp = unit_index(u1, p);
                    assert(u1[kp].id == p);
                    assert forall|i: int| 0 <= i < n.len() implies inboard(size, (#[trigger] n[i]).pos) by {
                        if i != kp {
                            assert(n[i] == u1[i]);
                        }
                    }
                },
                None => {},
            }
        },
        CoreEvent::EndTurn { .. } => {
            assert forall|i: int| 0 <= i < n.len() implies inboard(size, (#[trigger] n[i]).pos) by {
                assert(n[i].pos == units[i].pos);
            }
        },
        CoreEvent::CreateUnit { .. } | CoreEvent::ShowUnit { .. } => {
            assert forall|i: int| 0 <= i < n.len() implies inboard(size, (#[trigger] n[i]).pos) by {
                if i < units.len() {
                    assert(n[i] == units[i]);
                }
            }
        },
        CoreEvent::HideUnit { unit_id } => {
            let k = unit_index(units, unit_id);
            assert(units[k].id == unit_id);
            assert forall|i: int| 0 <= i < n.len() implies inboard(size, (#[trigger] n[i]).pos) by {
                if i < k {
                    assert(n[i] == units[i]);
                } else {
                    assert(n[i] == units[i + 1]);
                }
            }
        },
        CoreEvent::AttackUnit { attack_info } => {
            let kd = unit_index(units, attack_info.defender_id);
            assert(units[kd].id == attack_info.defender_id);
            let hd = crate::state::hit_defender(unit_of(units, attack_info.defender_id), attack_info);
            let u1 = crate::state::after_hit(units, attack_info);
            if hd.count <= 0 {
                crate::state::lemma_remove_distinct(units, attack_info.defender_id);
                assert forall|i: int| 0 <= i < u1.len() implies inboard(size, (#[trigger] u1[i]).pos) by {
                    if i < kd {
                        assert(u1[i] == units[i]);
                    } else {
                        assert(u1[i] == units[i + 1]);
                    }
                }
            } else {
                crate::state::lemma_with_unit_distinct(units, attack_info.defender_id, hd);
                assert forall|i: int| 0 <= i < u1.len() implies inboard(size, (#[trigger] u1[i]).pos) by {
                    if i != kd {
                        assert(u1[i] == units[i]);
                    }
                }
            }
            match attack_info.attacker_id {
                Some(a) => if has_unit(u1, a) {
                    let ka = unit_index(u1, a);
                    assert(u1[ka].id == a);
                    assert forall|i: int| 0 <= i < n.len() implies inboard(size, (#[trigger] n[i]).pos) by {
                        if i != ka {
                            assert(n[i] == u1[i]);
                        }
                    }
                },
                None => {},
            }
        },
        CoreEvent::LoadUnit { transporter_id, passenger_id } => {
            let t = unit_of(units, transporter_id);
            let kt = unit_index(units, transporter_id);
            assert(units[kt].id == transporter_id);
            let nt = crate::unit::Unit { passenger_id: Some(passenger_id), ..t };
            let u1 = crate::state::with_unit(units, transporter_id, nt);
            crate::state::lemma_with_unit_distinct(units, transporter_id, nt);
            let kp = unit_index(u1, passenger_id);
            assert(u1[kp].id == passenger_id);
            assert forall|i: int| 0 <= i < n.len() implies inboard(size, (#[trigger] n[i]).pos) by {
                if i != kp && i != kt {
                    assert(n[i] == units[i]);
                }
            }
        },
        CoreEvent::UnloadUnit { unit_info, transporter_id } => {
            let t = unit_of(units, transporter_id);
            let kt = unit_index(units, transporter_id);
            assert(units[kt].id == transporter_id);
            let nt = crate::unit::Unit { passenger_id: None, ..t };
            let u1 = crate::state::with_unit(units, transporter_id, nt);
            crate::state::lemma_with_unit_distinct(units, transporter_id, nt);
            if has_unit(u1, unit_info.unit_id) {
                let kp = unit_index(u1, unit_info.unit_id);
                assert(u1[kp].id == unit_info.unit_id);
                assert forall|i: int| 0 <= i < n.len() implies inboard(size, (#[trigger] n[i]).pos) by {
                    if i != kp && i != kt {
                        assert(n[i] == units[i]);
                    }
                }
            } else {
                assert forall|i: int| 0 <= i < n.len() implies inboard(size, (#[trigger] n[i]).pos) by {
                    if i < units.len() && i != kt {
                        assert(n[i] == units[i]);
                    }
                }
            }
        },
        CoreEvent::SetReactionFireMode { unit_id, mode } => {
            let k = unit_index(units, unit_id);
            assert(units[k].id == unit_id);
            assert forall|i: int| 0 <= i < n.len() implies inboard(size, (#[trigger] n[i]).pos) by {
                if i != k {
                    assert(n[i] == units[i]);
                }
            }
        },
    }
}

/// The computer player and its view of the game.
pub struct Ai {
    id: PlayerId,
    state: InternalState,
    pathfinder: Pathfinder,
}

impl Ai {
    /// The player the computer plays.
    pub closed spec fn spec_id(&self) -> PlayerId {
        self.id
    }

    /// The computer's view of the game.
    pub closed spec fn spec_state(&self) -> InternalState {
        self.state
    }

    /// What its last path search found.
    pub closed spec fn spec_search(&self) -> crate::map::HexMap<crate::pathfinder::Tile> {
        self.pathfinder.spec_map()
    }

    /// Consistency: a view the rules can work on, and a path finder for
    /// its map, ready for a search.
    pub closed spec fn wf(&self, db: Db) -> bool {
        &&& db.wf()
        &&& self.state.wf(db)
        &&& small_size(self.state.spec_map().spec_size())
        &&& units_inboard(self.state.spec_units(), self.state.spec_map().spec_size())
        &&& self.state.spec_units().len() <= UNITS_LIMIT
        &&& self.pathfinder.spec_map().wf()
        &&& self.pathfinder.spec_map().spec_size() == self.state.spec_map().spec_size()
        &&& self.pathfinder.queue().len() == 0
        &&& parents_descend(self.pathfinder.spec_map())
    }

    /// The computer playing `id`, knowing nothing yet, on a map of the
    /// given size.
    pub fn new(id: &PlayerId, map_size: &Size2) -> (ai: Ai)
        requires
            small_size(*map_size),
            map_size.w >= 5,
            map_size.h >= 6,
        ensures
            forall|db: Db| db.wf() ==> #[trigger] ai.wf(db),
            ai.spec_id() == *id,
            ai.spec_state().spec_units().len() == 0,
            ai.spec_state().spec_map().spec_size() == *map_size,
    {
        Ai { id: *id, state: InternalState::new(map_size), pathfinder: Pathfinder::new(map_size) }
    }

    /// Follows an event it is shown; an event that its view cannot take
    /// (or that would make it too large) is ignored.
    pub fn apply_event(&mut self, db: &Db, event: &CoreEvent)
        requires
            old(self).wf(*db),
        ensures
            final(self).wf(*db),
            final(self).spec_id() == old(self).spec_id(),
            final(self).spec_state().spec_map() == old(self).spec_state().spec_map(),
            final(self).spec_state().spec_units() == if event_applicable(*db, old(self).spec_state().spec_units(), *event)
                && event_on_map(old(self).spec_state().spec_map().spec_size(), *event)
                && old(self).spec_state().spec_units().len() < UNITS_LIMIT {
                apply_event_spec(*db, old(self).spec_state().spec_units(), *event)
            } else {
                old(self).spec_state().spec_units()
            },
    {
        proof { self.state.spec_map().lemma_wf_size(); }
        let size = *self.state.map().size();
        if self.state.can_apply(db, event) && is_event_on_map(&size, event) && self.state.units().len() < UNITS_LIMIT {
            proof {
                lemma_event_keeps_inboard(*db, self.state.spec_units(), size, *event);
            }
            self.state.apply_event(db, event);
        }
    }
}

/// The computer's units after it is shown `event`: the event applied
/// where its view can take it, lies on the map of `size` and leaves room
/// for one more unit; else the units unchanged.
pub open spec fn ai_step(db: Db, units: Seq<Unit>, size: Size2, event: CoreEvent) -> Seq<Unit> {
    if event_applicable(db, units, event) && event_on_map(size, event) && units.len() < UNITS_LIMIT {
        apply_event_spec(db, units, event)
    } else {
        units
    }
}

/// The computer's units after it is shown `events`, first to last.
pub open spec fn ai_view_after(db: Db, units: Seq<Unit>, size: Size2, events: Seq<CoreEvent>) -> Seq<Unit>
    decreases events.len(),
{
    if events.len() == 0 {
        units
    } else {
        ai_step(db, ai_view_after(db, units, size, events.drop_last()), size, events.last())
    }
}

/// Unit `a` may attack unit `t` by the computer's simple rule: `a`
/// belongs to `id` and has attack points left, `t` is an enemy, and `t`
/// is within the maximum range of `a`'s weapon.
pub open spec fn can_strike(db: Db, id: PlayerId, a: Unit, t: Unit) -> bool {
    &&& a.player_id == id
    &&& a.attack_points > 0
    &&& t.player_id != id
    &&& hex_distance(a.pos, t.pos) <= db.spec_weapon_of(a.type_id).max_distance
}

/// Some enemy of `id` among `units` is within the range of `u`'s weapon.
pub open spec fn enemy_in_range(db: Db, units: Seq<Unit>, id: PlayerId, u: Unit) -> bool {
    exists|i: int| 0 <= i < units.len() && (#[trigger] units[i]).player_id != id
        && hex_distance(u.pos, units[i].pos) <= db.spec_weapon_of(u.type_id).max_distance
}

/// The computer searches for a move of `u`: its own unit with no enemy in
/// range.
pub open spec fn searches_from(db: Db, units: Seq<Unit>, id: PlayerId, u: Unit) -> bool {
    u.player_id == id && !enemy_in_range(db, units, id, u)
}

/// The path the search `m` records to the picked tile.
pub open spec fn best_path(m: crate::map::HexMap<crate::pathfinder::Tile>, units: Seq<Unit>, size: Size2, id: PlayerId) -> Seq<MapPos> {
    crate::pathfinder::path_spec(m, pick_best(m, units, size, id, units.len() as nat)->0)->0
}

/// After the search `m` from `u`'s tile the computer has a move for
/// `u`: it searches from `u`, a tile is picked, and `u` has move points
/// and can pay for the first step of the path.
pub open spec fn plan_found(db: Db, st: InternalState, id: PlayerId, u: Unit, m: crate::map::HexMap<crate::pathfinder::Tile>) -> bool {
    let units = st.spec_units();
    let size = st.spec_map().spec_size();
    &&& searches_from(db, units, id, u)
    &&& pick_best(m, units, size, id, units.len() as nat) is Some
    &&& u.move_points.n != 0
    &&& crate::pathfinder::tile_cost_spec(db, st, u, best_path(m, units, size, id)[0]) <= u.move_points.n
}

/// `path` is the longest non-empty start of `full` that `u`'s move points
/// pay for.
pub open spec fn affordable_prefix(db: Db, st: InternalState, u: Unit, full: Seq<MapPos>, path: Seq<MapPos>) -> bool {
    &&& 0 < path.len() <= full.len()
    &&& path == full.take(path.len() as int)
    &&& path_cost_spec(db, st, u, path) <= u.move_points.n
    &&& path.len() < full.len() ==> path_cost_spec(db, st, u, full.take(path.len() as int + 1)) > u.move_points.n
}

/// The computer has no move for `u`: it does not search from `u`, or a
/// complete search from `u`'s tile finds none.
pub open spec fn no_plan(db: Db, st: InternalState, id: PlayerId, u: Unit) -> bool {
    !searches_from(db, st.spec_units(), id, u) || exists|m: crate::map::HexMap<crate::pathfinder::Tile>|
        m.spec_size() == st.spec_map().spec_size()
        && #[trigger] crate::pathfinder::search_done(m, u.pos, db, st, u)
        && !plan_found(db, st, id, u, m)
}

/// `q` is a free tile on the map next to an enemy of `id`, and the last
/// search reached it.
pub open spec fn goal_tile(m: crate::map::HexMap<crate::pathfinder::Tile>, units: Seq<Unit>, size: Size2, id: PlayerId, q: MapPos) -> bool {
    &&& exists|i: int, d: Dir| 0 <= i < units.len() && (#[trigger] units[i]).player_id != id
        && #[trigger] neighbour(units[i].pos, d) == q
    &&& inboard(size, q)
    &&& !crate::rules::occupied(units, q)
    &&& crate::pathfinder::path_spec(m, q) is Some
}

/// `q` is on the map, free, and the last search reached it along a path.
pub open spec fn free_goal(m: crate::map::HexMap<crate::pathfinder::Tile>, units: Seq<Unit>, size: Size2, q: MapPos) -> bool {
    &&& inboard(size, q)
    &&& !crate::rules::occupied(units, q)
    &&& crate::pathfinder::path_spec(m, q) is Some
}

/// The running pick after looking at `q`: `q` where it is a free goal
/// and cheaper than the pick so far (or there is none yet); else the pick
/// so far.
pub open spec fn pick_step(
    m: crate::map::HexMap<crate::pathfinder::Tile>,
    units: Seq<Unit>,
    size: Size2,
    acc: Option<MapPos>,
    q: MapPos,
) -> Option<MapPos> {
    if free_goal(m, units, size, q) && (acc is None || crate::pathfinder::cost_at(m, q) < crate::pathfinder::cost_at(m, acc->0)) {
        Some(q)
    } else {
        acc
    }
}

/// The running pick after looking at the first `k` neighbours of `p`, in
/// the order of directions.
pub open spec fn pick_around(
    m: crate::map::HexMap<crate::pathfinder::Tile>,
    units: Seq<Unit>,
    size: Size2,
    acc: Option<MapPos>,
    p: MapPos,
    k: nat,
) -> Option<MapPos>
    decreases k,
{
    if k == 0 {
        acc
    } else {
        pick_step(m, units, size, pick_around(m, units, size, acc, p, (k - 1) as nat), neighbour(p, crate::dir::dir_of_index(k - 1)))
    }
}

/// The pick after looking at the neighbours of the enemies of `id` among
/// the first `n` units: the first cheapest free goal, in the order of
/// units, then of directions.
pub open spec fn pick_best(
    m: crate::map::HexMap<crate::pathfinder::Tile>,
    units: Seq<Unit>,
    size: Size2,
    id: PlayerId,
    n: nat,
) -> Option<MapPos>
    decreases n,
{
    if n == 0 {
        None
    } else {
        let acc = pick_best(m, units, size, id, (n - 1) as nat);
        if units[n - 1].player_id != id {
            pick_around(m, units, size, acc, units[n - 1].pos, 6)
        } else {
            acc
        }
    }
}

impl Ai {
    /// Some enemy is within the range of `unit`'s weapon.
    fn is_close_to_enemies(&self, db: &Db, unit: &Unit) -> (b: bool)
        requires
            self.wf(*db),
            db.valid_unit_type_id(unit.type_id),
            crate::db::Db::wf(db),
            0 <= db.spec_unit_type(unit.type_id).weapon_type_id.id < db.weapon_types().len(),
            coords_fit(unit.pos),
        ensures
            b == exists|i: int| 0 <= i < self.spec_state().spec_units().len()
                && (#[trigger] self.spec_state().spec_units()[i]).player_id != self.spec_id()
                && hex_distance(unit.pos, self.spec_state().spec_units()[i].pos)
                <= db.spec_weapon_of(unit.type_id).max_distance,
    {
        let units = self.state.units();
        let unit_type = db.unit_type(&unit.type_id);
        let max_distance = db.weapon_type(&unit_type.weapon_type_id).max_distance;
        let mut i: usize = 0;
        while i < units.len()
            invariant
                self.wf(*db),
                units@ == self.state.spec_units(),
                coords_fit(unit.pos),
                max_distance == db.spec_weapon_of(unit.type_id).max_distance,
                0 <= i <= units@.len(),
                forall|k: int| 0 <= k < i ==> !((#[trigger] units@[k]).player_id != self.id
                    && hex_distance(unit.pos, units@[k].pos) <= max_distance),
            decreases units@.len() - i,
        {
            let target = units[i];
            proof { self.lemma_inboard_fits(i as int); }
            proof { crate::map::lemma_coords_fit_distance(unit.pos, target.pos); }
            if target.player_id != self.id && distance(&unit.pos, &target.pos) <= max_distance {
                return true;
            }
            i = i + 1;
        }
        false
    }

    proof fn lemma_inboard_fits(&self, i: int)
        requires
            small_size(self.state.spec_map().spec_size()),
            units_inboard(self.state.spec_units(), self.state.spec_map().spec_size()),
            0 <= i < self.state.spec_units().len(),
        ensures
            coords_fit(self.state.spec_units()[i].pos),
            steps_fit(self.state.spec_units()[i].pos),
            inboard(self.state.spec_map().spec_size(), self.state.spec_units()[i].pos),
    {
        assert(inboard(self.state.spec_map().spec_size(), self.state.spec_units()[i].pos));
    }

    /// The cheapest free tile next to an enemy that the last search
    /// reached (the first one found among equally cheap ones).
    fn get_best_pos(&self) -> (r: Option<MapPos>)
        requires
            small_size(self.state.spec_map().spec_size()),
            units_inboard(self.state.spec_units(), self.state.spec_map().spec_size()),
            self.pathfinder.spec_map().wf(),
            self.pathfinder.spec_map().spec_size() == self.state.spec_map().spec_size(),
            parents_descend(self.pathfinder.spec_map()),
        ensures
            ({
                let m = self.pathfinder.spec_map();
                let units = self.state.spec_units();
                let size = self.state.spec_map().spec_size();
                &&& r matches Some(p) ==> goal_tile(m, units, size, self.id, p)
                    && forall|q: MapPos| goal_tile(m, units, size, self.id, q)
                    ==> crate::pathfinder::cost_at(m, p) <= #[trigger] crate::pathfinder::cost_at(m, q)
                &&& r is None ==> forall|q: MapPos| !goal_tile(m, units, size, self.id, q)
                &&& r == pick_best(m, units, size, self.id, units.len() as nat)
            }),
    {
        let ghost m = self.pathfinder.spec_map();
        let ghost size = self.state.spec_map().spec_size();
        let units = self.state.units();
        let mut best_pos: Option<MapPos> = None;
        let mut best_cost: ZInt = 0;
        let mut i: usize = 0;
        while i < units.len()
            invariant
                small_size(size),
                size == self.state.spec_map().spec_size(),
                units@ == self.state.spec_units(),
                units_inboard(units@, size),
                m == self.pathfinder.spec_map(),
                m.wf(),
                m.spec_size() == size,
                parents_descend(m),
                0 <= i <= units@.len(),
                best_pos matches Some(p) ==> goal_tile(m, units@, size, self.id, p)
                    && best_cost == crate::pathfinder::cost_at(m, p),
                forall|q: MapPos| goal_tile(m, units@, size, self.id, q) && (exists|k: int, d: Dir| 0 <= k < i
                    && (#[trigger] units@[k]).player_id != self.id && #[trigger] neighbour(units@[k].pos, d) == q)
                    ==> best_pos is Some && best_cost <= crate::pathfinder::cost_at(m, q),
                best_pos == pick_best(m, units@, size, self.id, i as nat),
            decreases units@.len() - i,
        {
            let enemy = units[i];
            let ghost acc = best_pos;
            proof { self.lemma_inboard_fits(i as int); }
            if enemy.player_id != self.id {
                let mut k: ZInt = 0;
                while k < 6
                    invariant
                        small_size(size),
                        size == self.state.spec_map().spec_size(),
                        units@ == self.state.spec_units(),
                        units_inboard(units@, size),
                        m == self.pathfinder.spec_map(),
                        m.wf(),
                        m.spec_size() == size,
                        parents_descend(m),
                        0 <= i < units@.len(),
                        enemy == units@[i as int],
                        enemy.player_id != self.id,
                        steps_fit(enemy.pos),
                        0 <= k <= 6,
                        best_pos matches Some(p) ==> goal_tile(m, units@, size, self.id, p)
                            && best_cost == crate::pathfinder::cost_at(m, p),
                        forall|q: MapPos| goal_tile(m, units@, size, self.id, q) && ((exists|j: int, d: Dir| 0 <= j < i
                            && (#[trigger] units@[j]).player_id != self.id && #[trigger] neighbour(units@[j].pos, d) == q)
                            || (exists|j: int| 0 <= j < k && #[trigger] neighbour(enemy.pos, crate::dir::dir_of_index(j)) == q))
                            ==> best_pos is Some && best_cost <= crate::pathfinder::cost_at(m, q),
                        acc == pick_best(m, units@, size, self.id, i as nat),
                        best_pos == pick_around(m, units@, size, acc, enemy.pos, k as nat),
                    decreases 6 - k,
                {
                    let dir = Dir::from_int(k);
                    let destination = Dir::get_neighbour_pos(&enemy.pos, &dir);
                    proof {
                        assert(pick_around(m, units@, size, acc, enemy.pos, (k + 1) as nat)
                            == pick_step(m, units@, size, best_pos, destination));
                    }
                    k = k + 1;
                    if !self.state.map().is_inboard(&destination) {
                        continue;
                    }
                    if self.state.is_tile_occupied(&destination) {
                        continue;
                    }
                    let path = self.pathfinder.get_path(&destination);
                    if path.is_none() {
                        continue;
                    }
                    proof {
                        assert(units@[i as int].player_id != self.id && neighbour(units@[i as int].pos, dir) == destination);
                        assert(goal_tile(m, units@, size, self.id, destination));
                    }
                    let cost = self.pathfinder.get_map().tile(&destination).cost().n;
                    match best_pos {
                        Some(_) => {
                            if best_cost > cost {
                                best_cost = cost;
                                best_pos = Some(destination);
                            }
                        },
                        None => {
                            best_cost = cost;
                            best_pos = Some(destination);
                        },
                    }
                }
                proof {
                    assert forall|q: MapPos| goal_tile(m, units@, size, self.id, q) && (exists|j: int, d: Dir| 0 <= j < i + 1
                        && (#[trigger] units@[j]).player_id != self.id && #[trigger] neighbour(units@[j].pos, d) == q)
                        implies best_pos is Some && best_cost <= crate::pathfinder::cost_at(m, q) by {
                        let (j, d) = choose|j: int, d: Dir| 0 <= j < i + 1
                            && (#[trigger] units@[j]).player_id != self.id && #[trigger] neighbour(units@[j].pos, d) == q;
                        if j == i {
                            crate::dir::lemma_dir_index_roundtrip(d, crate::dir::dir_index(d));
                            assert(neighbour(enemy.pos, crate::dir::dir_of_index(crate::dir::dir_index(d))) == q);
                        }
                    }
                }
            }
            i = i + 1;
        }
        best_pos
    }
}

/// All positions of `path` lie on the map of `size`.
fn all_inboard(size: &Size2, path: &Vec<MapPos>) -> (b: bool)
    ensures
        b == forall|i: int| 0 <= i < path@.len() ==> inboard(*size, #[trigger] path@[i]),
{
    let mut i: usize = 0;
    while i < path.len()
        invariant
            0 <= i <= path@.len(),
            forall|k: int| 0 <= k < i ==> inboard(*size, #[trigger] path@[k]),
        decreases path@.len() - i,
    {
        let p = path[i];
        if !(p.x >= 0 && p.y >= 0 && p.x < size.w && p.y < size.h) {
            return false;
        }
        i = i + 1;
    }
    true
}

impl Ai {
    /// The computer's next command: the first attack that one of its
    /// units with attack points left can make on an enemy within the
    /// maximum range of its weapon (in the order of units, then of
    /// targets); else a move of the first unit that has no enemy in range,
    /// has move points and can reach a free tile next to an enemy, along
    /// the path to the cheapest such tile, cut to what its move points pay
    /// for; else the end of its turn.
    pub fn get_command(&mut self, db: &Db) -> (command: Command)
        requires
            old(self).wf(*db),
        ensures
            final(self).wf(*db),
            final(self).spec_state() == old(self).spec_state(),
            final(self).spec_id() == old(self).spec_id(),
            ({
                let st = old(self).spec_state();
                let units = st.spec_units();
                let id = old(self).spec_id();
                let size = st.spec_map().spec_size();
                let strike = exists|i: int, j: int| 0 <= i < units.len() && 0 <= j < units.len()
                    && can_strike(*db, id, #[trigger] units[i], #[trigger] units[j]);
                &&& strike <==> command is AttackUnit
                &&& command matches Command::AttackUnit { attacker_id, defender_id } ==> exists|i: int, j: int|
                    0 <= i < units.len() && 0 <= j < units.len() && can_strike(*db, id, #[trigger] units[i], #[trigger] units[j])
                    && units[i].id == attacker_id && units[j].id == defender_id
                    && forall|i2: int, j2: int| 0 <= i2 < units.len() && 0 <= j2 < units.len() && (i2 < i || (i2 == i && j2 < j))
                    ==> !can_strike(*db, id, #[trigger] units[i2], #[trigger] units[j2])
                &&& command matches Command::Move { unit_id, path, mode } ==> {
                    &&& mode == MoveMode::Fast
                    &&& path@.len() > 0
                    &&& has_unit(units, unit_id)
                    &&& unit_of(units, unit_id).player_id == id
                    &&& forall|k: int| 0 <= k < path@.len() ==> inboard(size, #[trigger] path@[k])
                    &&& path_cost_spec(*db, st, unit_of(units, unit_id), path@)
                        <= unit_of(units, unit_id).move_points.n
                    &&& exists|i: int| 0 <= i < units.len() && (#[trigger] units[i]).id == unit_id && {
                        let m = final(self).spec_search();
                        &&& crate::pathfinder::search_done(m, units[i].pos, *db, st, units[i])
                        &&& plan_found(*db, st, id, units[i], m)
                        &&& affordable_prefix(*db, st, units[i], best_path(m, units, size, id), path@)
                        &&& forall|j: int| 0 <= j < i ==> no_plan(*db, st, id, #[trigger] units[j])
                    }
                }
                &&& command is EndTurn ==> forall|j: int| 0 <= j < units.len() ==> no_plan(*db, st, id, #[trigger] units[j])
                &&& command is AttackUnit || command is Move || command is EndTurn
            }),
    {
        let ghost units0 = self.state.spec_units();
        let ghost id = self.id;
        let n = self.state.units().len();
        let mut i: usize = 0;
        while i < n
            invariant
                self.wf(*db),
                self.state == old(self).state,
                self.state.spec_units() == units0,
                self.id == id,
                id == old(self).id,
                n == units0.len(),
                0 <= i <= n,
                forall|i2: int, j2: int| 0 <= i2 < i && 0 <= j2 < n ==> !can_strike(*db, id, #[trigger] units0[i2], #[trigger] units0[j2]),
            decreases n - i,
        {
            let unit = self.state.units()[i];
            proof {
                self.lemma_inboard_fits(i as int);
                assert(db.valid_unit_type_id(units0[i as int].type_id));
                assert(db.unit_types()[unit.type_id.id as int] == db.spec_unit_type(unit.type_id));
            }
            if unit.player_id == self.id && unit.attack_points > 0 {
                let unit_type = db.unit_type(&unit.type_id);
                let max_distance = db.weapon_type(&unit_type.weapon_type_id).max_distance;
                let mut j: usize = 0;
                while j < n
                    invariant
                        self.wf(*db),
                                inboard(self.state.spec_map().spec_size(), unit.pos),
                        self.state == old(self).state,
                        self.state.spec_units() == units0,
                        self.id == id,
                        id == old(self).id,
                        n == units0.len(),
                        0 <= i < n,
                        unit == units0[i as int],
                        coords_fit(unit.pos),
                        max_distance == db.spec_weapon_of(unit.type_id).max_distance,
                        unit.player_id == id && unit.attack_points > 0,
                        0 <= j <= n,
                        forall|i2: int, j2: int| 0 <= i2 < i && 0 <= j2 < n ==> !can_strike(*db, id, #[trigger] units0[i2], #[trigger] units0[j2]),
                        forall|j2: int| 0 <= j2 < j ==> !can_strike(*db, id, units0[i as int], #[trigger] units0[j2]),
                    decreases n - j,
                {
                    let target = self.state.units()[j];
                    proof { self.lemma_inboard_fits(j as int); }
                    if target.player_id != self.id {
                        proof { crate::map::lemma_coords_fit_distance(unit.pos, target.pos); }
                        let d = distance(&unit.pos, &target.pos);
                        if d <= max_distance {
                            return Command::AttackUnit { attacker_id: unit.id, defender_id: target.id };
                        }
                    }
                    j = j + 1;
                }
            }
            i = i + 1;
        }
        let mut i: usize = 0;
        while i < n
            invariant
                self.wf(*db),
                self.state == old(self).state,
                self.state.spec_units() == units0,
                self.id == id,
                id == old(self).id,
                n == units0.len(),
                0 <= i <= n,
                forall|i2: int, j2: int| 0 <= i2 < n && 0 <= j2 < n ==> !can_strike(*db, id, #[trigger] units0[i2], #[trigger] units0[j2]),
                forall|j: int| 0 <= j < i ==> no_plan(*db, old(self).state, id, #[trigger] units0[j]),
            decreases n - i,
        {
            let planned = self.plan_move(db, i);
            proof {
                let m = self.spec_search();
                let u = units0[i as int];
                if planned is None && searches_from(*db, units0, id, u) {
                    assert(crate::pathfinder::search_done(m, u.pos, *db, self.state, u));
                }
            }
            i = i + 1;
            match planned {
                Some(command) => {
                    proof {
                        let u = units0[i - 1];
                        assert(units0[i - 1].id == u.id);
                    }
                    return command;
                },
                None => {},
            }
        }
        Command::EndTurn
    }
}

impl Ai {
    /// A move for the unit at index `k` of the view, if it belongs to the
    /// computer and has no enemy in range: a search from its tile picks
    /// the cheapest free tile next to an enemy that it reaches (the first
    /// of equally cheap ones, in the order of units, then of directions);
    /// the move goes along the path found to it, cut to the longest part
    /// that the unit's move points pay for, and there is none where the
    /// unit has no move points or cannot pay for the first step.
    fn plan_move(&mut self, db: &Db, k: usize) -> (r: Option<Command>)
        requires
            old(self).wf(*db),
            k < old(self).spec_state().spec_units().len(),
        ensures
            final(self).wf(*db),
            final(self).spec_state() == old(self).spec_state(),
            final(self).spec_id() == old(self).spec_id(),
            ({
                let st = old(self).spec_state();
                let units = st.spec_units();
                let size = st.spec_map().spec_size();
                let id = old(self).spec_id();
                let u = units[k as int];
                let m = final(self).spec_search();
                &&& !searches_from(*db, units, id, u) ==> m == old(self).spec_search()
                &&& searches_from(*db, units, id, u) ==> crate::pathfinder::search_done(m, u.pos, *db, st, u)
                    && m.spec_size() == size
                &&& r is Some <==> plan_found(*db, st, id, u, m)
                &&& r matches Some(command) ==> command matches Command::Move { unit_id, path, mode } && {
                    &&& unit_id == u.id
                    &&& mode == MoveMode::Fast
                    &&& affordable_prefix(*db, st, u, best_path(m, units, size, id), path@)
                    &&& has_unit(units, unit_id)
                    &&& unit_of(units, unit_id) == u
                    &&& unit_of(units, unit_id).player_id == id
                    &&& forall|q: int| 0 <= q < path@.len() ==> inboard(size, #[trigger] path@[q])
                    &&& path_cost_spec(*db, st, unit_of(units, unit_id), path@) <= unit_of(units, unit_id).move_points.n
                }
            }),
    {
        let ghost units0 = self.state.spec_units();
        let unit = self.state.units()[k];
        proof {
            self.lemma_inboard_fits(k as int);
            assert(db.valid_unit_type_id(units0[k as int].type_id));
            assert(db.unit_types()[unit.type_id.id as int] == db.spec_unit_type(unit.type_id));
        }
        if unit.player_id != self.id {
            return None;
        }
        if self.is_close_to_enemies(db, &unit) {
            return None;
        }
        self.pathfinder.fill_map(db, &self.state, &unit);
        proof {
            lemma_search_done_descend(self.pathfinder.spec_map(), unit.pos, *db, self.state, unit);
        }
        self.move_to_best(db, &unit, Ghost(k as int))
    }

    /// After a search from `unit`'s tile: the move along the path to the
    /// picked tile, cut to the longest part that the unit's move points
    /// pay for; none where there is no picked tile, the unit has no move
    /// points or it cannot pay for the first step.
    #[verifier::rlimit(80)]
    #[verifier::spinoff_prover]
    fn move_to_best(&self, db: &Db, unit: &Unit, Ghost(k): Ghost<int>) -> (r: Option<Command>)
        requires
            self.wf(*db),
            0 <= k < self.spec_state().spec_units().len(),
            *unit == self.spec_state().spec_units()[k],
            cost_context(*db, self.spec_state(), *unit),
            crate::pathfinder::search_done(self.spec_search(), unit.pos, *db, self.spec_state(), *unit),
        ensures
            ({
                let st = self.spec_state();
                let units = st.spec_units();
                let size = st.spec_map().spec_size();
                let u = *unit;
                let m = self.spec_search();
                let best = pick_best(m, units, size, self.spec_id(), units.len() as nat);
                let full = best_path(m, units, size, self.spec_id());
                &&& r is Some <==> best is Some && u.move_points.n != 0
                    && crate::pathfinder::tile_cost_spec(*db, st, u, full[0]) <= u.move_points.n
                &&& r matches Some(command) ==> command matches Command::Move { unit_id, path, mode } && {
                    &&& unit_id == u.id
                    &&& mode == MoveMode::Fast
                    &&& affordable_prefix(*db, st, u, full, path@)
                    &&& has_unit(units, unit_id)
                    &&& unit_of(units, unit_id) == u
                    &&& forall|q: int| 0 <= q < path@.len() ==> inboard(size, #[trigger] path@[q])
                }
            }),
    {
        let ghost units0 = self.state.spec_units();
        let unit = *unit;
        let ghost m = self.pathfinder.spec_map();
        let destination = match self.get_best_pos() {
            Some(destination) => destination,
            None => return None,
        };
        proof {
            crate::pathfinder::lemma_cost_at_fits(m, destination);
            crate::pathfinder::lemma_search_path(m, unit.pos, *db, self.state, unit, destination);
        }
        let path = match self.pathfinder.get_path(&destination) {
            Some(path) => path,
            None => return None,
        };
        if unit.move_points.n == 0 {
            return None;
        }
        proof { self.state.spec_map().lemma_wf_size(); }
        if !all_inboard(self.state.map().size(), &path) {
            return None;
        }
        let ghost full = path@;
        let path = truncate_path(db, &self.state, path.as_slice(), &unit);
        proof {
            assert(full.take(1).drop_last() =~= Seq::<MapPos>::empty());
            assert(full.take(1).last() == full[0]);
            assert(path_cost_spec(*db, self.state, unit, Seq::<MapPos>::empty()) == 0);
            assert(path_cost_spec(*db, self.state, unit, full.take(1))
                == crate::pathfinder::tile_cost_spec(*db, self.state, unit, full[0]));
            if path@.len() > 0 {
                crate::pathfinder::lemma_path_cost_monotone(*db, self.state, unit, path@, 1, path@.len() as int);
                assert(path@.take(1) =~= full.take(1));
                assert(path@.take(path@.len() as int) =~= path@);
            }
        }
        if path.len() == 0 {
            return None;
        }
        proof {
            crate::state::lemma_unit_index_unique(units0, k);
            assert forall|q: int| 0 <= q < path@.len() implies inboard(self.state.spec_map().spec_size(), #[trigger] path@[q]) by {
                assert(path@[q] == full[q]);
            }
        }
        Some(Command::Move { unit_id: unit.id, path: path, mode: MoveMode::Fast })
    }
}

} // verus!
