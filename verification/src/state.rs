//! The game state: the map and the units on it, and how events change it.

use vstd::prelude::*;
use crate::types::{ZInt, Size2, MapPos, MovePoints, PlayerId, UnitId};
use crate::unit::{Unit, UnitTypeId, ReactionFireMode};
use crate::db::Db;
use crate::map::{HexMap, Terrain, inboard, valid_size};
use crate::event::{CoreEvent, UnitInfo, AttackInfo, FireMode};

verus! {

/// How much a player knows of a unit that enters its state.
#[derive(Clone, Copy, Debug, PartialEq, Eq, Structural)]
pub enum InfoLevel {
    Full,
    Partial,
}

/// Some unit in `units` has the id `id`.
pub open spec fn has_unit(units: Seq<Unit>, id: UnitId) -> bool {
    exists|i: int| 0 <= i < units.len() && (#[trigger] units[i]).id == id
}

/// No two units share an id.
pub open spec fn ids_distinct(units: Seq<Unit>) -> bool {
    forall|i: int, j: int| 0 <= i < units.len() && 0 <= j < units.len() && i != j
        ==> (#[trigger] units[i]).id != (#[trigger] units[j]).id
}

/// The index of the unit with id `id` (meaningful where it exists).
pub open spec fn unit_index(units: Seq<Unit>, id: UnitId) -> int {
    choose|i: int| 0 <= i < units.len() && (#[trigger] units[i]).id == id
}

/// The unit with id `id` (meaningful where it exists).
pub open spec fn unit_of(units: Seq<Unit>, id: UnitId) -> Unit {
    units[unit_index(units, id)]
}

/// `units` with the unit of id `id` replaced by `u`.
pub open spec fn with_unit(units: Seq<Unit>, id: UnitId, u: Unit) -> Seq<Unit> {
    units.update(unit_index(units, id), u)
}

/// `units` without the unit of id `id`.
pub open spec fn without_unit(units: Seq<Unit>, id: UnitId) -> Seq<Unit> {
    units.remove(unit_index(units, id))
}

/// The units standing on `pos`, in the order of `units`.
pub open spec fn units_at_spec(units: Seq<Unit>, pos: MapPos) -> Seq<Unit>
    decreases units.len(),
{
    if units.len() == 0 {
        Seq::empty()
    } else {
        let rest = units_at_spec(units.drop_last(), pos);
        if units.last().pos == pos {
            rest.push(units.last())
        } else {
            rest
        }
    }
}

/// Two unit lists of one length with units on `pos` at the same places
/// have as many units on `pos`.
pub proof fn lemma_units_at_same_len(a: Seq<Unit>, b: Seq<Unit>, pos: MapPos)
    requires
        a.len() == b.len(),
        forall|i: int| 0 <= i < a.len() ==> ((#[trigger] a[i]).pos == pos) == (b[i].pos == pos),
    ensures
        units_at_spec(a, pos).len() == units_at_spec(b, pos).len(),
    decreases a.len(),
{
    if a.len() > 0 {
        let a2 = a.drop_last();
        let b2 = b.drop_last();
        assert forall|i: int| 0 <= i < a2.len() implies ((#[trigger] a2[i]).pos == pos) == (b2[i].pos == pos) by {
            assert(a2[i] == a[i] && b2[i] == b[i]);
        }
        lemma_units_at_same_len(a2, b2, pos);
        assert(a.last() == a[a.len() - 1]);
    }
}

/// A tile with a unit on it has units on it.
pub proof fn lemma_units_at_member(units: Seq<Unit>, i: int)
    requires
        0 <= i < units.len(),
    ensures
        units_at_spec(units, units[i].pos).len() > 0,
    decreases units.len(),
{
    if i < units.len() - 1 {
        let init = units.drop_last();
        assert(init[i] == units[i]);
        lemma_units_at_member(init, i);
    }
}

/// A freshly created unit of the type and position that `info` gives.
pub open spec fn new_unit(db: Db, info: UnitInfo, level: InfoLevel) -> Unit {
    let t = db.spec_unit_type(info.type_id);
    Unit {
        id: info.unit_id,
        pos: info.pos,
        player_id: info.player_id,
        type_id: info.type_id,
        move_points: t.move_points,
        attack_points: t.attack_points,
        reactive_attack_points: if level == InfoLevel::Full {
            Some(t.reactive_attack_points)
        } else {
            None
        },
        reaction_fire_mode: ReactionFireMode::Normal,
        count: t.count,
        morale: 100,
        passenger_id: if level == InfoLevel::Full {
            info.passenger_id
        } else {
            None
        },
    }
}

/// A unit at the start of its owner's turn: points restored from its
/// type, morale raised by ten.
pub open spec fn refreshed(db: Db, u: Unit) -> Unit {
    let t = db.spec_unit_type(u.type_id);
    Unit {
        move_points: t.move_points,
        attack_points: t.attack_points,
        reactive_attack_points: match u.reactive_attack_points {
            Some(_) => Some(t.reactive_attack_points),
            None => None,
        },
        morale: (u.morale + 10) as i32,
        ..u
    }
}

/// A unit at the end of its owner's turn: unused attack points become
/// reactive attack points.
pub open spec fn ap_converted(u: Unit) -> Unit {
    Unit {
        reactive_attack_points: match u.reactive_attack_points {
            Some(r) => Some((r + u.attack_points) as i32),
            None => None,
        },
        attack_points: 0,
        ..u
    }
}

/// Whether a unit's weapon fires reactively.
pub open spec fn has_reaction_fire(db: Db, u: Unit) -> bool {
    db.spec_weapon_of(u.type_id).reaction_fire
}

/// A unit refreshed if it belongs to `player_id`.
pub open spec fn refresh_step(db: Db, player_id: PlayerId, u: Unit) -> Unit {
    if u.player_id == player_id {
        refreshed(db, u)
    } else {
        u
    }
}

/// A unit's attack points converted if it belongs to `player_id` and
/// its weapon fires reactively.
pub open spec fn convert_step(db: Db, player_id: PlayerId, u: Unit) -> Unit {
    if u.player_id == player_id && has_reaction_fire(db, u) {
        ap_converted(u)
    } else {
        u
    }
}

/// Units after the turn passes from `old_id` to `new_id`: the new
/// player's units are refreshed, then the old player's attack points
/// are converted.
pub open spec fn end_turn_units(db: Db, units: Seq<Unit>, old_id: PlayerId, new_id: PlayerId) -> Seq<Unit> {
    Seq::new(units.len(), |i: int| convert_step(db, old_id, refresh_step(db, new_id, units[i])))
}

/// The defender after an attack, before it may be removed.
pub open spec fn hit_defender(d: Unit, a: AttackInfo) -> Unit {
    Unit {
        count: (d.count - a.killed) as i32,
        morale: (d.morale - a.suppression) as i32,
        move_points: if a.remove_move_points { MovePoints { n: 0 } } else { d.move_points },
        ..d
    }
}

/// The attacker after spending a point for an attack in mode `mode`.
pub open spec fn spent_attacker(u: Unit, mode: FireMode) -> Unit {
    match mode {
        FireMode::Active => Unit { attack_points: (u.attack_points - 1) as i32, ..u },
        FireMode::Reactive => Unit {
            reactive_attack_points: match u.reactive_attack_points {
                Some(r) => Some((r - 1) as i32),
                None => None,
            },
            ..u
        },
    }
}

/// Units after the defender of an attack is hit (and removed if none of
/// it is left).
pub open spec fn after_hit(units: Seq<Unit>, a: AttackInfo) -> Seq<Unit> {
    let d = hit_defender(unit_of(units, a.defender_id), a);
    if d.count <= 0 {
        without_unit(units, a.defender_id)
    } else {
        with_unit(units, a.defender_id, d)
    }
}

/// Units after an attack.
pub open spec fn attack_units(units: Seq<Unit>, a: AttackInfo) -> Seq<Unit> {
    let u1 = after_hit(units, a);
    match a.attacker_id {
        Some(id) => if has_unit(u1, id) {
            with_unit(u1, id, spent_attacker(unit_of(u1, id), a.mode))
        } else {
            u1
        },
        None => u1,
    }
}

/// Units after a move event.
pub open spec fn move_units(units: Seq<Unit>, unit_id: UnitId, to: MapPos, cost: MovePoints) -> Seq<Unit> {
    let u = unit_of(units, unit_id);
    let u1 = with_unit(
        units,
        unit_id,
        Unit { pos: to, move_points: MovePoints { n: (u.move_points.n - cost.n) as i32 }, ..u },
    );
    match u.passenger_id {
        Some(p) => with_unit(u1, p, Unit { pos: to, ..unit_of(u1, p) }),
        None => u1,
    }
}

/// Units after a passenger is loaded into a transporter.
pub open spec fn load_units(units: Seq<Unit>, transporter_id: UnitId, passenger_id: UnitId) -> Seq<Unit> {
    let t = unit_of(units, transporter_id);
    let u1 = with_unit(units, transporter_id, Unit { passenger_id: Some(passenger_id), ..t });
    let p = unit_of(u1, passenger_id);
    with_unit(u1, passenger_id, Unit { pos: t.pos, move_points: MovePoints { n: 0 }, ..p })
}

/// Units after a passenger leaves its transporter.
pub open spec fn unload_units(db: Db, units: Seq<Unit>, info: UnitInfo, transporter_id: UnitId) -> Seq<Unit> {
    let t = unit_of(units, transporter_id);
    let u1 = with_unit(units, transporter_id, Unit { passenger_id: None, ..t });
    if has_unit(u1, info.unit_id) {
        with_unit(u1, info.unit_id, Unit { pos: info.pos, ..unit_of(u1, info.unit_id) })
    } else {
        u1.push(new_unit(db, info, InfoLevel::Partial))
    }
}

/// The units after `event`.
pub open spec fn apply_event_spec(db: Db, units: Seq<Unit>, event: CoreEvent) -> Seq<Unit> {
    match event {
        CoreEvent::Move { unit_id, to, cost, .. } => move_units(units, unit_id, to, cost),
        CoreEvent::EndTurn { old_id, new_id } => end_turn_units(db, units, old_id, new_id),
        CoreEvent::CreateUnit { unit_info } => units.push(new_unit(db, unit_info, InfoLevel::Full)),
        CoreEvent::AttackUnit { attack_info } => attack_units(units, attack_info),
        CoreEvent::ShowUnit { unit_info } => units.push(new_unit(db, unit_info, InfoLevel::Partial)),
        CoreEvent::HideUnit { unit_id } => without_unit(units, unit_id),
        CoreEvent::LoadUnit { transporter_id, passenger_id } => load_units(
            units,
            transporter_id,
            passenger_id,
        ),
        CoreEvent::UnloadUnit { unit_info, transporter_id } => unload_units(
            db,
            units,
            unit_info,
            transporter_id,
        ),
        CoreEvent::SetReactionFireMode { unit_id, mode } => with_unit(
            units,
            unit_id,
            Unit { reaction_fire_mode: mode, ..unit_of(units, unit_id) },
        ),
    }
}

/// Adding `v` to `a` stays within `i32`.
pub open spec fn add_fits(a: int, v: int) -> bool {
    i32::MIN <= a + v <= i32::MAX
}

/// `event` can be applied to `units`: the units it names exist (or, for
/// a new unit, do not), its type is known, and no number leaves `i32`
/// or drops below what the event consumes.
pub open spec fn event_applicable(db: Db, units: Seq<Unit>, event: CoreEvent) -> bool {
    match event {
        CoreEvent::Move { unit_id, to, cost, .. } => {
            &&& has_unit(units, unit_id)
            &&& unit_of(units, unit_id).move_points.n > 0
            &&& add_fits(unit_of(units, unit_id).move_points.n as int, -cost.n)
            &&& unit_of(units, unit_id).move_points.n - cost.n >= 0
            &&& (unit_of(units, unit_id).passenger_id matches Some(p) ==> has_unit(units, p))
        },
        CoreEvent::EndTurn { old_id, new_id } => {
            &&& forall|i: int| 0 <= i < units.len() && (#[trigger] units[i]).player_id == new_id
                ==> add_fits(units[i].morale as int, 10)
            &&& forall|i: int| 0 <= i < units.len() ==> {
                let u = refresh_step(db, new_id, #[trigger] units[i]);
                (u.player_id == old_id && has_reaction_fire(db, u) && u.reactive_attack_points is Some)
                    ==> add_fits(u.reactive_attack_points->0 as int, u.attack_points as int)
            }
        },
        CoreEvent::CreateUnit { unit_info } => {
            &&& !has_unit(units, unit_info.unit_id)
            &&& db.valid_unit_type_id(unit_info.type_id)
        },
        CoreEvent::AttackUnit { attack_info } => {
            let d = unit_of(units, attack_info.defender_id);
            let u1 = after_hit(units, attack_info);
            &&& has_unit(units, attack_info.defender_id)
            &&& add_fits(d.count as int, -attack_info.killed)
            &&& add_fits(d.morale as int, -attack_info.suppression)
            &&& match attack_info.attacker_id {
                Some(id) => has_unit(u1, id) ==> match attack_info.mode {
                    FireMode::Active => unit_of(u1, id).attack_points >= 1,
                    FireMode::Reactive => match unit_of(u1, id).reactive_attack_points {
                        Some(r) => r >= 1,
                        None => true,
                    },
                },
                None => true,
            }
        },
        CoreEvent::ShowUnit { unit_info } => {
            &&& !has_unit(units, unit_info.unit_id)
            &&& db.valid_unit_type_id(unit_info.type_id)
        },
        CoreEvent::HideUnit { unit_id } => has_unit(units, unit_id),
        CoreEvent::LoadUnit { transporter_id, passenger_id } => {
            &&& has_unit(units, transporter_id)
            &&& has_unit(units, passenger_id)
        },
        CoreEvent::UnloadUnit { unit_info, transporter_id } => {
            &&& has_unit(units, transporter_id)
            &&& (!has_unit(units, unit_info.unit_id) ==> db.valid_unit_type_id(unit_info.type_id))
        },
        CoreEvent::SetReactionFireMode { unit_id, .. } => has_unit(units, unit_id),
    }
}

} // verus!

verus! {

/// In a sequence of distinct ids, the unit at `i` is the unit of its id.
pub proof fn lemma_unit_index_unique(units: Seq<Unit>, i: int)
    requires
        ids_distinct(units),
        0 <= i < units.len(),
    ensures
        has_unit(units, units[i].id),
        unit_index(units, units[i].id) == i,
{
    let id = units[i].id;
    assert(has_unit(units, id));
    let j = unit_index(units, id);
    assert(units[j].id == id);
}

/// Replacing a unit by one with the same id keeps ids distinct.
pub proof fn lemma_with_unit_distinct(units: Seq<Unit>, id: UnitId, u: Unit)
    requires
        ids_distinct(units),
        has_unit(units, id),
        u.id == id,
    ensures
        ids_distinct(with_unit(units, id, u)),
        with_unit(units, id, u).len() == units.len(),
        forall|x: UnitId| has_unit(with_unit(units, id, u), x) == has_unit(units, x),
        unit_of(with_unit(units, id, u), id) == u,
        forall|x: UnitId| x != id && has_unit(units, x) ==> unit_of(with_unit(units, id, u), x) == unit_of(units, x),
{
    let k = unit_index(units, id);
    let n = with_unit(units, id, u);
    assert(units[k].id == id);
    assert forall|x: UnitId| has_unit(n, x) == has_unit(units, x) by {
        if has_unit(units, x) {
            let j = unit_index(units, x);
            assert(n[j].id == x);
        }
        if has_unit(n, x) {
            let j = choose|j: int| 0 <= j < n.len() && (#[trigger] n[j]).id == x;
            assert(units[j].id == x);
        }
    }
    lemma_unit_index_unique(n, k);
    assert forall|x: UnitId| x != id && has_unit(units, x) implies unit_of(n, x) == unit_of(units, x) by {
        let j = unit_index(units, x);
        assert(units[j].id == x);
        assert(j != k);
        assert(n[j].id == x);
        lemma_unit_index_unique(n, j);
    }
}

} // verus!

verus! {

/// Appending a unit of a new id keeps ids distinct.
pub proof fn lemma_push_distinct(units: Seq<Unit>, u: Unit)
    requires
        ids_distinct(units),
        !has_unit(units, u.id),
    ensures
        ids_distinct(units.push(u)),
        has_unit(units.push(u), u.id),
        unit_of(units.push(u), u.id) == u,
        forall|x: UnitId| x != u.id ==> has_unit(units.push(u), x) == has_unit(units, x),
        forall|x: UnitId| x != u.id && has_unit(units, x) ==> unit_of(units.push(u), x) == unit_of(units, x),
{
    let n = units.push(u);
    assert(n[units.len() as int] == u);
    assert forall|i: int, j: int| 0 <= i < n.len() && 0 <= j < n.len() && i != j
        implies (#[trigger] n[i]).id != (#[trigger] n[j]).id by {
        if i < units.len() && j < units.len() {
            assert(units[i] == n[i] && units[j] == n[j]);
        } else if i < units.len() {
            assert(units[i] == n[i]);
        } else {
            assert(units[j] == n[j]);
        }
    }
    lemma_unit_index_unique(n, units.len() as int);
    assert forall|x: UnitId| x != u.id implies has_unit(n, x) == has_unit(units, x) by {
        if has_unit(units, x) {
            let j = unit_index(units, x);
            assert(n[j] == units[j]);
        }
        if has_unit(n, x) {
            let j = choose|j: int| 0 <= j < n.len() && (#[trigger] n[j]).id == x;
            assert(j < units.len());
            assert(units[j] == n[j]);
        }
    }
    assert forall|x: UnitId| x != u.id && has_unit(units, x) implies unit_of(n, x) == unit_of(units, x) by {
        let j = unit_index(units, x);
        assert(units[j].id == x);
        assert(n[j] == units[j]);
        lemma_unit_index_unique(n, j);
    }
}

/// Removing a unit keeps ids distinct and removes exactly its id.
pub proof fn lemma_remove_distinct(units: Seq<Unit>, id: UnitId)
    requires
        ids_distinct(units),
        has_unit(units, id),
    ensures
        ids_distinct(without_unit(units, id)),
        !has_unit(without_unit(units, id), id),
        forall|x: UnitId| x != id ==> has_unit(without_unit(units, id), x) == has_unit(units, x),
        forall|x: UnitId| x != id && has_unit(units, x) ==> unit_of(without_unit(units, id), x) == unit_of(units, x),
{
    let k = unit_index(units, id);
    assert(units[k].id == id);
    let n = without_unit(units, id);
    assert forall|i: int| 0 <= i < n.len() implies n[i] == (if i < k { units[i] } else { units[i + 1] }) by {}
    assert forall|i: int, j: int| 0 <= i < n.len() && 0 <= j < n.len() && i != j
        implies (#[trigger] n[i]).id != (#[trigger] n[j]).id by {
        let a = if i < k { i } else { i + 1 };
        let b = if j < k { j } else { j + 1 };
        assert(n[i] == units[a] && n[j] == units[b]);
    }
    assert(!has_unit(n, id)) by {
        if has_unit(n, id) {
            let j = choose|j: int| 0 <= j < n.len() && (#[trigger] n[j]).id == id;
            let b = if j < k { j } else { j + 1 };
            assert(n[j] == units[b]);
        }
    }
    assert forall|x: UnitId| x != id implies has_unit(n, x) == has_unit(units, x) by {
        if has_unit(units, x) {
            let j = unit_index(units, x);
            assert(units[j].id == x);
            let a = if j < k { j } else { j - 1 };
            assert(n[a] == units[j]);
        }
        if has_unit(n, x) {
            let j = choose|j: int| 0 <= j < n.len() && (#[trigger] n[j]).id == x;
            let b = if j < k { j } else { j + 1 };
            assert(n[j] == units[b]);
        }
    }
    assert forall|x: UnitId| x != id && has_unit(units, x) implies unit_of(n, x) == unit_of(units, x) by {
        let j = unit_index(units, x);
        assert(units[j].id == x);
        let a = if j < k { j } else { j - 1 };
        assert(n[a] == units[j]);
        lemma_unit_index_unique(n, a);
    }
}

/// The complete state of a game.
pub struct InternalState {
    units: Vec<Unit>,
    map: HexMap<Terrain>,
}

impl InternalState {
    /// The units, in the order of their creation.
    pub closed spec fn spec_units(&self) -> Seq<Unit> {
        self.units@
    }

    /// The terrain map.
    pub closed spec fn spec_map(&self) -> HexMap<Terrain> {
        self.map
    }

    /// Internal consistency with respect to a database: distinct unit ids,
    /// known unit types, a well-formed map.
    pub open spec fn wf(&self, db: Db) -> bool {
        &&& ids_distinct(self.spec_units())
        &&& self.spec_map().wf()
        &&& forall|i: int| 0 <= i < self.spec_units().len() ==> db.valid_unit_type_id(
            (#[trigger] self.spec_units()[i]).type_id,
        )
    }

    /// A state with no units and a plain map of the given size, but for
    /// trees on the tiles (4, 3), (4, 4) and (4, 5).
    pub fn new(map_size: &Size2) -> (s: InternalState)
        requires
            valid_size(*map_size),
            map_size.w >= 5,
            map_size.h >= 6,
        ensures
            s.spec_units().len() == 0,
            s.spec_map().wf(),
            s.spec_map().spec_size() == *map_size,
            forall|p: MapPos| inboard(*map_size, p) ==> #[trigger] s.spec_map().at(p) == if p.x == 4 && 3 <= p.y <= 5 {
                Terrain::Trees
            } else {
                Terrain::Plain
            },
    {
        let mut map = HexMap::new(map_size, Terrain::Plain);
        map.set_tile(&MapPos { x: 4, y: 3 }, Terrain::Trees);
        map.set_tile(&MapPos { x: 4, y: 4 }, Terrain::Trees);
        map.set_tile(&MapPos { x: 4, y: 5 }, Terrain::Trees);
        InternalState { units: Vec::new(), map: map }
    }

    /// The terrain map.
    pub fn map(&self) -> (m: &HexMap<Terrain>)
        ensures
            *m == self.spec_map(),
    {
        &self.map
    }

    /// The units, in the order of their creation.
    pub fn units(&self) -> (u: &Vec<Unit>)
        ensures
            u@ == self.spec_units(),
    {
        &self.units
    }

    /// The index of the unit with id `id`, if there is one.
    pub fn find_unit(&self, id: UnitId) -> (r: Option<usize>)
        requires
            ids_distinct(self.spec_units()),
        ensures
            r.is_none() <==> !has_unit(self.spec_units(), id),
            r matches Some(i) ==> i == unit_index(self.spec_units(), id) && i < self.spec_units().len()
                && self.spec_units()[i as int].id == id,
    {
        let mut i: usize = 0;
        while i < self.units.len()
            invariant
                0 <= i <= self.units@.len(),
                ids_distinct(self.units@),
                forall|j: int| 0 <= j < i ==> (#[trigger] self.units@[j]).id != id,
            decreases self.units@.len() - i,
        {
            if self.units[i].id == id {
                proof { lemma_unit_index_unique(self.units@, i as int); }
                return Some(i);
            }
            i = i + 1;
        }
        None
    }

    /// The unit with id `id`, if there is one.
    pub fn get_unit(&self, id: UnitId) -> (r: Option<Unit>)
        requires
            ids_distinct(self.spec_units()),
        ensures
            r.is_none() <==> !has_unit(self.spec_units(), id),
            r matches Some(u) ==> u == unit_of(self.spec_units(), id),
    {
        match self.find_unit(id) {
            Some(i) => Some(self.units[i]),
            None => None,
        }
    }

    /// The unit with id `id`.
    pub fn unit(&self, id: UnitId) -> (u: Unit)
        requires
            ids_distinct(self.spec_units()),
            has_unit(self.spec_units(), id),
        ensures
            u == unit_of(self.spec_units(), id),
            u.id == id,
    {
        let i = self.find_unit(id).unwrap();
        self.units[i]
    }

    /// The units standing on `pos`.
    pub fn units_at(&self, pos: &MapPos) -> (r: Vec<Unit>)
        ensures
            r@ == units_at_spec(self.spec_units(), *pos),
    {
        let mut r: Vec<Unit> = Vec::new();
        let mut i: usize = 0;
        while i < self.units.len()
            invariant
                0 <= i <= self.units@.len(),
                r@ == units_at_spec(self.units@.take(i as int), *pos),
            decreases self.units@.len() - i,
        {
            assert(self.units@.take(i + 1).drop_last() == self.units@.take(i as int));
            if self.units[i].pos == *pos {
                r.push(self.units[i]);
            }
            i = i + 1;
        }
        assert(self.units@.take(i as int) == self.units@);
        r
    }

    /// Some unit stands on `pos`.
    pub fn is_tile_occupied(&self, pos: &MapPos) -> (b: bool)
        ensures
            b == (units_at_spec(self.spec_units(), *pos).len() > 0),
    {
        self.units_at(pos).len() > 0
    }
}


impl InternalState {
    /// Replaces the unit at index `i` by `u`, which has the same id and type.
    fn replace_unit(&mut self, db: &Db, i: usize, u: Unit)
        requires
            old(self).wf(*db),
            i < old(self).spec_units().len(),
            u.id == old(self).spec_units()[i as int].id,
            u.type_id == old(self).spec_units()[i as int].type_id,
        ensures
            final(self).wf(*db),
            final(self).spec_map() == old(self).spec_map(),
            final(self).spec_units() == with_unit(old(self).spec_units(), u.id, u),
            final(self).spec_units() == old(self).spec_units().update(i as int, u),
    {
        proof {
            lemma_unit_index_unique(self.units@, i as int);
            lemma_with_unit_distinct(self.units@, u.id, u);
        }
        self.units.set(i, u);
        proof {
            assert forall|j: int| 0 <= j < self.units@.len() implies db.valid_unit_type_id(
                (#[trigger] self.units@[j]).type_id) by {
                assert(self.units@[j].type_id == old(self).units@[j].type_id);
            }
        }
    }

    /// Adds a unit described by `unit_info`, with what `info_level` allows
    /// to be known of it.
    fn add_unit(&mut self, db: &Db, unit_info: &UnitInfo, info_level: InfoLevel)
        requires
            old(self).wf(*db),
            !has_unit(old(self).spec_units(), unit_info.unit_id),
            db.valid_unit_type_id(unit_info.type_id),
        ensures
            final(self).wf(*db),
            final(self).spec_map() == old(self).spec_map(),
            final(self).spec_units() == old(self).spec_units().push(new_unit(*db, *unit_info, info_level)),
    {
        let unit_type = db.unit_type(&unit_info.type_id);
        let full = match info_level {
            InfoLevel::Full => true,
            InfoLevel::Partial => false,
        };
        let u = Unit {
            id: unit_info.unit_id,
            pos: unit_info.pos,
            player_id: unit_info.player_id,
            type_id: unit_info.type_id,
            move_points: unit_type.move_points,
            attack_points: unit_type.attack_points,
            reactive_attack_points: if full {
                Some(unit_type.reactive_attack_points)
            } else {
                None
            },
            reaction_fire_mode: ReactionFireMode::Normal,
            count: unit_type.count,
            morale: 100,
            passenger_id: if full {
                unit_info.passenger_id
            } else {
                None
            },
        };
        proof { lemma_push_distinct(self.units@, u); }
        self.units.push(u);
        proof {
            assert forall|j: int| 0 <= j < self.units@.len() implies db.valid_unit_type_id(
                (#[trigger] self.units@[j]).type_id) by {
                if j < old(self).units@.len() {
                    assert(self.units@[j] == old(self).units@[j]);
                }
            }
        }
    }

    /// Removes the unit at index `i`.
    fn remove_unit(&mut self, db: &Db, i: usize)
        requires
            old(self).wf(*db),
            i < old(self).spec_units().len(),
        ensures
            final(self).wf(*db),
            final(self).spec_map() == old(self).spec_map(),
            final(self).spec_units() == without_unit(old(self).spec_units(), old(self).spec_units()[i as int].id),
    {
        proof {
            lemma_unit_index_unique(self.units@, i as int);
            lemma_remove_distinct(self.units@, self.units@[i as int].id);
        }
        self.units.remove(i);
        proof {
            assert forall|j: int| 0 <= j < self.units@.len() implies db.valid_unit_type_id(
                (#[trigger] self.units@[j]).type_id) by {
                if j < i {
                    assert(self.units@[j] == old(self).units@[j]);
                } else {
                    assert(self.units@[j] == old(self).units@[j + 1]);
                }
            }
        }
    }

    /// Restores the points of the units of `player_id` and raises their morale.
    fn refresh_units(&mut self, db: &Db, player_id: PlayerId)
        requires
            old(self).wf(*db),
            forall|i: int| 0 <= i < old(self).spec_units().len() && (#[trigger] old(self).spec_units()[i]).player_id == player_id
                ==> add_fits(old(self).spec_units()[i].morale as int, 10),
        ensures
            final(self).wf(*db),
            final(self).spec_map() == old(self).spec_map(),
            final(self).spec_units() == Seq::new(old(self).spec_units().len(), |i: int| refresh_step(*db, player_id, old(self).spec_units()[i])),
    {
        let ghost old_units = self.units@;
        let mut i: usize = 0;
        while i < self.units.len()
            invariant
                self.wf(*db),
                self.map == old(self).map,
                old_units == old(self).units@,
                self.units@.len() == old_units.len(),
                0 <= i <= old_units.len(),
                forall|k: int| 0 <= k < old_units.len() && (#[trigger] old_units[k]).player_id == player_id
                    ==> add_fits(old_units[k].morale as int, 10),
                forall|j: int| 0 <= j < i ==> #[trigger] self.units@[j] == refresh_step(*db, player_id, old_units[j]),
                forall|j: int| i <= j < old_units.len() ==> #[trigger] self.units@[j] == old_units[j],
            decreases old_units.len() - i,
        {
            let u = self.units[i];
            if u.player_id == player_id {
                proof { assert(db.valid_unit_type_id(self.units@[i as int].type_id)); }
                let unit_type = db.unit_type(&u.type_id);
                let nu = Unit {
                    move_points: unit_type.move_points,
                    attack_points: unit_type.attack_points,
                    reactive_attack_points: match u.reactive_attack_points {
                        Some(_) => Some(unit_type.reactive_attack_points),
                        None => None,
                    },
                    morale: u.morale + 10,
                    ..u
                };
                self.replace_unit(db, i, nu);
            }
            i = i + 1;
        }
        proof {
            assert(self.units@ =~= Seq::new(old_units.len(), |i: int| refresh_step(*db, player_id, old_units[i])));
        }
    }

    /// Turns the unused attack points of the units of `player_id` whose
    /// weapons fire reactively into reactive attack points.
    fn convert_ap(&mut self, db: &Db, player_id: PlayerId)
        requires
            old(self).wf(*db),
            db.wf(),
            forall|i: int| 0 <= i < old(self).spec_units().len() ==> {
                let u = #[trigger] old(self).spec_units()[i];
                (u.player_id == player_id && has_reaction_fire(*db, u) && u.reactive_attack_points is Some)
                    ==> add_fits(u.reactive_attack_points->0 as int, u.attack_points as int)
            },
        ensures
            final(self).wf(*db),
            final(self).spec_map() == old(self).spec_map(),
            final(self).spec_units() == Seq::new(old(self).spec_units().len(), |i: int| convert_step(*db, player_id, old(self).spec_units()[i])),
    {
        let ghost old_units = self.units@;
        let mut i: usize = 0;
        while i < self.units.len()
            invariant
                self.wf(*db),
                db.wf(),
                self.map == old(self).map,
                old_units == old(self).units@,
                self.units@.len() == old_units.len(),
                0 <= i <= old_units.len(),
                forall|k: int| 0 <= k < old_units.len() ==> {
                    let u = #[trigger] old_units[k];
                    (u.player_id == player_id && has_reaction_fire(*db, u) && u.reactive_attack_points is Some)
                        ==> add_fits(u.reactive_attack_points->0 as int, u.attack_points as int)
                },
                forall|j: int| 0 <= j < i ==> #[trigger] self.units@[j] == convert_step(*db, player_id, old_units[j]),
                forall|j: int| i <= j < old_units.len() ==> #[trigger] self.units@[j] == old_units[j],
            decreases old_units.len() - i,
        {
            let u = self.units[i];
            proof { assert(db.valid_unit_type_id(self.units@[i as int].type_id)); }
            let unit_type = db.unit_type(&u.type_id);
            let weapon_type = db.weapon_type(&unit_type.weapon_type_id);
            if u.player_id == player_id && weapon_type.reaction_fire {
                proof { assert(old_units[i as int] == u); }
                let nu = Unit {
                    reactive_attack_points: match u.reactive_attack_points {
                        Some(r) => Some(r + u.attack_points),
                        None => None,
                    },
                    attack_points: 0,
                    ..u
                };
                self.replace_unit(db, i, nu);
            }
            i = i + 1;
        }
        proof {
            assert(self.units@ =~= Seq::new(old_units.len(), |i: int| convert_step(*db, player_id, old_units[i])));
        }
    }
}


impl InternalState {
    /// Changes the state as `event` says (see `apply_event_spec`).
    pub fn apply_event(&mut self, db: &Db, event: &CoreEvent)
        requires
            old(self).wf(*db),
            db.wf(),
            event_applicable(*db, old(self).spec_units(), *event),
        ensures
            final(self).wf(*db),
            final(self).spec_map() == old(self).spec_map(),
            final(self).spec_units() == apply_event_spec(*db, old(self).spec_units(), *event),
    {
        let ghost units0 = self.units@;
        match event {
            CoreEvent::Move { unit_id, to, cost, .. } => {
                let i = self.find_unit(*unit_id).unwrap();
                let u = self.units[i];
                let nu = Unit { pos: *to, move_points: MovePoints { n: u.move_points.n - cost.n }, ..u };
                self.replace_unit(db, i, nu);
                proof { lemma_with_unit_distinct(units0, *unit_id, nu); }
                match nu.passenger_id {
                    Some(passenger_id) => {
                        let j = self.find_unit(passenger_id).unwrap();
                        let p = self.units[j];
                        self.replace_unit(db, j, Unit { pos: *to, ..p });
                    },
                    None => {},
                }
            },
            CoreEvent::EndTurn { old_id, new_id } => {
                self.refresh_units(db, *new_id);
                proof {
                    assert forall|i: int| 0 <= i < self.units@.len() implies
                        #[trigger] self.units@[i] == refresh_step(*db, *new_id, units0[i]) by {}
                }
                self.convert_ap(db, *old_id);
                proof {
                    assert(self.units@ =~= end_turn_units(*db, units0, *old_id, *new_id));
                }
            },
            CoreEvent::CreateUnit { unit_info } => {
                self.add_unit(db, unit_info, InfoLevel::Full);
            },
            CoreEvent::AttackUnit { attack_info } => {
                let k = self.find_unit(attack_info.defender_id).unwrap();
                let d = self.units[k];
                let nd = Unit {
                    count: d.count - attack_info.killed,
                    morale: d.morale - attack_info.suppression,
                    move_points: if attack_info.remove_move_points {
                        MovePoints { n: 0 }
                    } else {
                        d.move_points
                    },
                    ..d
                };
                if nd.count <= 0 {
                    self.remove_unit(db, k);
                } else {
                    self.replace_unit(db, k, nd);
                }
                let ghost units1 = self.units@;
                match attack_info.attacker_id {
                    Some(attacker_id) => {
                        match self.find_unit(attacker_id) {
                            Some(j) => {
                                let a = self.units[j];
                                match attack_info.mode {
                                    FireMode::Active => {
                                        self.replace_unit(db, j, Unit { attack_points: a.attack_points - 1, ..a });
                                    },
                                    FireMode::Reactive => {
                                        match a.reactive_attack_points {
                                            Some(r) => {
                                                self.replace_unit(
                                                    db,
                                                    j,
                                                    Unit { reactive_attack_points: Some(r - 1), ..a },
                                                );
                                            },
                                            None => {
                                                proof {
                                                    assert(a == spent_attacker(a, FireMode::Reactive));
                                                    assert(units1.update(j as int, a) =~= units1);
                                                }
                                            },
                                        }
                                    },
                                }
                            },
                            None => {},
                        }
                    },
                    None => {},
                }
            },
            CoreEvent::ShowUnit { unit_info } => {
                self.add_unit(db, unit_info, InfoLevel::Partial);
            },
            CoreEvent::HideUnit { unit_id } => {
                let i = self.find_unit(*unit_id).unwrap();
                self.remove_unit(db, i);
            },
            CoreEvent::LoadUnit { transporter_id, passenger_id } => {
                let i = self.find_unit(*transporter_id).unwrap();
                let t = self.units[i];
                let nt = Unit { passenger_id: Some(*passenger_id), ..t };
                self.replace_unit(db, i, nt);
                proof { lemma_with_unit_distinct(units0, *transporter_id, nt); }
                let j = self.find_unit(*passenger_id).unwrap();
                let p = self.units[j];
                self.replace_unit(db, j, Unit { pos: t.pos, move_points: MovePoints { n: 0 }, ..p });
            },
            CoreEvent::UnloadUnit { unit_info, transporter_id } => {
                let i = self.find_unit(*transporter_id).unwrap();
                let t = self.units[i];
                let nt = Unit { passenger_id: None, ..t };
                self.replace_unit(db, i, nt);
                proof { lemma_with_unit_distinct(units0, *transporter_id, nt); }
                match self.find_unit(unit_info.unit_id) {
                    Some(j) => {
                        let u = self.units[j];
                        self.replace_unit(db, j, Unit { pos: unit_info.pos, ..u });
                    },
                    None => {
                        self.add_unit(db, unit_info, InfoLevel::Partial);
                    },
                }
            },
            CoreEvent::SetReactionFireMode { unit_id, mode } => {
                let i = self.find_unit(*unit_id).unwrap();
                let u = self.units[i];
                self.replace_unit(db, i, Unit { reaction_fire_mode: *mode, ..u });
            },
        }
    }
}

impl InternalState {
    /// Whether the end of a turn from `old_id` to `new_id` keeps every
    /// number within `i32`.
    fn end_turn_fits(&self, db: &Db, old_id: PlayerId, new_id: PlayerId) -> (b: bool)
        requires
            self.wf(*db),
            db.wf(),
        ensures
            b == event_applicable(*db, self.spec_units(), CoreEvent::EndTurn { old_id, new_id }),
    {
        let units = &self.units;
        let mut i: usize = 0;
        while i < units.len()
            invariant
                self.wf(*db),
                db.wf(),
                units@ == self.spec_units(),
                0 <= i <= units@.len(),
                forall|k: int| 0 <= k < i && (#[trigger] units@[k]).player_id == new_id
                    ==> add_fits(units@[k].morale as int, 10),
                forall|k: int| 0 <= k < i ==> {
                    let u = refresh_step(*db, new_id, #[trigger] units@[k]);
                    (u.player_id == old_id && has_reaction_fire(*db, u) && u.reactive_attack_points is Some)
                        ==> add_fits(u.reactive_attack_points->0 as int, u.attack_points as int)
                },
            decreases units@.len() - i,
        {
            let u = units[i];
            proof { assert(db.valid_unit_type_id(units@[i as int].type_id)); }
            let unit_type = db.unit_type(&u.type_id);
            let weapon_type = db.weapon_type(&unit_type.weapon_type_id);
            let mut attack_points = u.attack_points;
            let mut reactive = u.reactive_attack_points;
            if u.player_id == new_id {
                if u.morale > i32::MAX - 10 {
                    return false;
                }
                attack_points = unit_type.attack_points;
                reactive = match u.reactive_attack_points {
                    Some(_) => Some(unit_type.reactive_attack_points),
                    None => None,
                };
            }
            if u.player_id == old_id && weapon_type.reaction_fire {
                match reactive {
                    Some(r) => {
                        let sum: i64 = r as i64 + attack_points as i64;
                        if sum < i32::MIN as i64 || sum > i32::MAX as i64 {
                            return false;
                        }
                    },
                    None => {},
                }
            }
            i = i + 1;
        }
        true
    }

    /// Whether `event` can be applied to this state (see `event_applicable`).
    pub fn can_apply(&self, db: &Db, event: &CoreEvent) -> (b: bool)
        requires
            self.wf(*db),
            db.wf(),
        ensures
            b == event_applicable(*db, self.spec_units(), *event),
    {
        match event {
            CoreEvent::Move { unit_id, cost, .. } => {
                match self.find_unit(*unit_id) {
                    None => false,
                    Some(i) => {
                        let u = self.units[i];
                        let left: i64 = u.move_points.n as i64 - cost.n as i64;
                        if u.move_points.n <= 0 || left < 0 || left > i32::MAX as i64 {
                            return false;
                        }
                        match u.passenger_id {
                            Some(p) => self.find_unit(p).is_some(),
                            None => true,
                        }
                    },
                }
            },
            CoreEvent::EndTurn { old_id, new_id } => self.end_turn_fits(db, *old_id, *new_id),
            CoreEvent::CreateUnit { unit_info } => {
                self.find_unit(unit_info.unit_id).is_none() && 0 <= unit_info.type_id.id
                    && unit_info.type_id.id < db.unit_types_count()
            },
            CoreEvent::ShowUnit { unit_info } => {
                self.find_unit(unit_info.unit_id).is_none() && 0 <= unit_info.type_id.id
                    && unit_info.type_id.id < db.unit_types_count()
            },
            CoreEvent::AttackUnit { attack_info } => {
                match self.find_unit(attack_info.defender_id) {
                    None => false,
                    Some(k) => {
                        let d = self.units[k];
                        let count: i64 = d.count as i64 - attack_info.killed as i64;
                        let morale: i64 = d.morale as i64 - attack_info.suppression as i64;
                        if count < i32::MIN as i64 || count > i32::MAX as i64 || morale < i32::MIN as i64
                            || morale > i32::MAX as i64 {
                            return false;
                        }
                        let ghost units = self.spec_units();
                        let ghost nd = hit_defender(d, *attack_info);
                        proof {
                            if nd.count <= 0 {
                                lemma_remove_distinct(units, attack_info.defender_id);
                            } else {
                                lemma_with_unit_distinct(units, attack_info.defender_id, nd);
                            }
                        }
                        match attack_info.attacker_id {
                            None => true,
                            Some(id) => {
                                let a = if id == attack_info.defender_id {
                                    if count <= 0 {
                                        return true;
                                    }
                                    d
                                } else {
                                    match self.find_unit(id) {
                                        None => return true,
                                        Some(j) => self.units[j],
                                    }
                                };
                                match attack_info.mode {
                                    FireMode::Active => a.attack_points >= 1,
                                    FireMode::Reactive => match a.reactive_attack_points {
                                        Some(r) => r >= 1,
                                        None => true,
                                    },
                                }
                            },
                        }
                    },
                }
            },
            CoreEvent::HideUnit { unit_id } => self.find_unit(*unit_id).is_some(),
            CoreEvent::LoadUnit { transporter_id, passenger_id } => {
                self.find_unit(*transporter_id).is_some() && self.find_unit(*passenger_id).is_some()
            },
            CoreEvent::UnloadUnit { unit_info, transporter_id } => {
                self.find_unit(*transporter_id).is_some() && (self.find_unit(unit_info.unit_id).is_some() || (
                0 <= unit_info.type_id.id && unit_info.type_id.id < db.unit_types_count()))
            },
            CoreEvent::SetReactionFireMode { unit_id, .. } => self.find_unit(*unit_id).is_some(),
        }
    }
}

/// Law: a move (one that can be applied) puts the mover on its new tile
/// with the cost taken from its move points, carries its passenger along
/// to the same tile, and leaves every other unit as it was.
pub proof fn lemma_move_applied(db: Db, units: Seq<Unit>, unit_id: UnitId, from: MapPos, to: MapPos, mode: crate::event::MoveMode, cost: MovePoints)
    requires
        ids_distinct(units),
        event_applicable(db, units, CoreEvent::Move { unit_id, from, to, mode, cost }),
        unit_of(units, unit_id).passenger_id != Some(unit_id),
    ensures
        ({
            let n = apply_event_spec(db, units, CoreEvent::Move { unit_id, from, to, mode, cost });
            let u = unit_of(units, unit_id);
            &&& n.len() == units.len()
            &&& has_unit(n, unit_id)
            &&& unit_of(n, unit_id) == (Unit { pos: to, move_points: MovePoints { n: (u.move_points.n - cost.n) as i32 }, ..u })
            &&& u.passenger_id matches Some(p) ==> has_unit(n, p) && unit_of(n, p) == (Unit { pos: to, ..unit_of(units, p) })
            &&& forall|x: UnitId| x != unit_id && u.passenger_id != Some(x) ==> (#[trigger] has_unit(n, x) == has_unit(units, x))
                && (has_unit(units, x) ==> unit_of(n, x) == unit_of(units, x))
        }),
{
    let u = unit_of(units, unit_id);
    let nu = Unit { pos: to, move_points: MovePoints { n: (u.move_points.n - cost.n) as i32 }, ..u };
    lemma_with_unit_distinct(units, unit_id, nu);
    let u1 = with_unit(units, unit_id, nu);
    match u.passenger_id {
        Some(p) => {
            lemma_with_unit_distinct(u1, p, Unit { pos: to, ..unit_of(u1, p) });
        },
        None => {},
    }
}

/// Law: an attack (one that can be applied, by another unit than its
/// target) takes the men killed from the defender and the suppression
/// from its morale, and its move points where the attack says so, and
/// removes the defender where no man is left. The attacker, if it is still
/// there, spends an attack point in active fire, or a reactive attack
/// point (where it counts them) in reaction fire, and nothing else of it
/// changes. Every other unit stays as it was.
pub proof fn lemma_attack_applied(db: Db, units: Seq<Unit>, a: AttackInfo)
    requires
        ids_distinct(units),
        event_applicable(db, units, CoreEvent::AttackUnit { attack_info: a }),
        a.attacker_id is Some ==> a.attacker_id->0 != a.defender_id,
    ensures
        ({
            let n = apply_event_spec(db, units, CoreEvent::AttackUnit { attack_info: a });
            let d = unit_of(units, a.defender_id);
            &&& d.count - a.killed <= 0 ==> !has_unit(n, a.defender_id)
            &&& d.count - a.killed > 0 ==> has_unit(n, a.defender_id) && unit_of(n, a.defender_id) == (Unit {
                count: (d.count - a.killed) as i32,
                morale: (d.morale - a.suppression) as i32,
                move_points: if a.remove_move_points { MovePoints { n: 0 } } else { d.move_points },
                ..d
            })
            &&& forall|x: UnitId| x != a.defender_id && Some(x) != a.attacker_id ==> (#[trigger] has_unit(n, x)
                == has_unit(units, x)) && (has_unit(units, x) ==> unit_of(n, x) == unit_of(units, x))
        }),
        ({
            let n = apply_event_spec(db, units, CoreEvent::AttackUnit { attack_info: a });
            a.attacker_id is Some && has_unit(units, a.attacker_id->0) ==> {
                let id = a.attacker_id->0;
                let u = unit_of(units, id);
                &&& has_unit(n, id)
                &&& a.mode == FireMode::Active ==> unit_of(n, id) == (Unit { attack_points: (u.attack_points - 1) as i32, ..u })
                &&& a.mode == FireMode::Reactive && u.reactive_attack_points is Some ==> unit_of(n, id) == (Unit {
                    reactive_attack_points: Some((u.reactive_attack_points->0 - 1) as i32),
                    ..u
                })
                &&& a.mode == FireMode::Reactive && u.reactive_attack_points is None ==> unit_of(n, id) == u
            }
        }),
{
    let d = unit_of(units, a.defender_id);
    let hd = hit_defender(d, a);
    let u1 = after_hit(units, a);
    if hd.count <= 0 {
        lemma_remove_distinct(units, a.defender_id);
    } else {
        lemma_with_unit_distinct(units, a.defender_id, hd);
    }
    let n = apply_event_spec(db, units, CoreEvent::AttackUnit { attack_info: a });
    match a.attacker_id {
        Some(id) => if has_unit(u1, id) {
            lemma_with_unit_distinct(u1, id, spent_attacker(unit_of(u1, id), a.mode));
        },
        None => {},
    }
    assert forall|x: UnitId| x != a.defender_id && Some(x) != a.attacker_id implies (#[trigger] has_unit(n, x)
        == has_unit(units, x)) && (has_unit(units, x) ==> unit_of(n, x) == unit_of(units, x)) by {
    }
}

/// Law: showing a unit and then hiding it again leaves the units as
/// they were.
pub proof fn lemma_show_then_hide(db: Db, units: Seq<Unit>, info: UnitInfo)
    requires
        ids_distinct(units),
        event_applicable(db, units, CoreEvent::ShowUnit { unit_info: info }),
    ensures
        event_applicable(db, apply_event_spec(db, units, CoreEvent::ShowUnit { unit_info: info }),
            CoreEvent::HideUnit { unit_id: info.unit_id }),
        apply_event_spec(db, apply_event_spec(db, units, CoreEvent::ShowUnit { unit_info: info }),
            CoreEvent::HideUnit { unit_id: info.unit_id }) == units,
{
    let u = new_unit(db, info, InfoLevel::Partial);
    let n = units.push(u);
    lemma_push_distinct(units, u);
    lemma_unit_index_unique(n, units.len() as int);
    assert(n.remove(units.len() as int) =~= units);
}

/// Law: creating a unit and then hiding it leaves the units as they were.
pub proof fn lemma_create_then_hide(db: Db, units: Seq<Unit>, info: UnitInfo)
    requires
        ids_distinct(units),
        event_applicable(db, units, CoreEvent::CreateUnit { unit_info: info }),
    ensures
        apply_event_spec(db, apply_event_spec(db, units, CoreEvent::CreateUnit { unit_info: info }),
            CoreEvent::HideUnit { unit_id: info.unit_id }) == units,
{
    let u = new_unit(db, info, InfoLevel::Full);
    let n = units.push(u);
    lemma_push_distinct(units, u);
    lemma_unit_index_unique(n, units.len() as int);
    assert(n.remove(units.len() as int) =~= units);
}

/// Law: when the turn passes to a player, each of its units has the move
/// points of its type, and no unit changes its id, position, owner or
/// type.
pub proof fn lemma_end_turn_refreshes(db: Db, units: Seq<Unit>, old_id: PlayerId, new_id: PlayerId)
    ensures
        ({
            let n = apply_event_spec(db, units, CoreEvent::EndTurn { old_id, new_id });
            &&& n.len() == units.len()
            &&& forall|i: int| 0 <= i < n.len() && units[i].player_id == new_id
                ==> (#[trigger] n[i]).move_points == db.spec_unit_type(units[i].type_id).move_points
            &&& forall|i: int| 0 <= i < n.len() ==> (#[trigger] n[i]).id == units[i].id && n[i].pos == units[i].pos
                && n[i].player_id == units[i].player_id && n[i].type_id == units[i].type_id
        }),
{
}

} // verus!
