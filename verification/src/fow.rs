//! Fog of war: the tiles a player currently sees.

use vstd::prelude::*;
use crate::types::{ZInt, Size2, MapPos, PlayerId, UnitId, MovePoints};
use crate::unit::Unit;
use crate::db::Db;
use crate::map::{HexMap, inboard, valid_size, MapPosIter, advance, tile_index,
    lemma_advance_next_index, lemma_tile_index_bounds, lemma_tile_index_injective};
use crate::sight::Sight;
use crate::state::{InternalState, has_unit, unit_of};
use crate::event::{CoreEvent, MoveMode, UnitInfo};

verus! {

/// The sight table is made for the map of `size` and covers the sight
/// range of every unit type of `db`.
pub open spec fn sight_fits(db: Db, sight: Sight, size: Size2) -> bool {
    &&& sight.wf()
    &&& sight.spec_size() == size
    &&& forall|i: int| 0 <= i < db.unit_types().len() ==> sight.covers(
        (#[trigger] db.unit_types()[i]).los_range as int,
    )
}

/// Every unit stands on the map of `size`.
pub open spec fn units_inboard(units: Seq<Unit>, size: Size2) -> bool {
    forall|i: int| 0 <= i < units.len() ==> inboard(size, (#[trigger] units[i]).pos)
}

/// A unit with sight range `range` on `origin` sees `pos`: its own tile
/// always, others as the sight table says.
pub open spec fn seen_from(sight: Sight, range: int, origin: MapPos, pos: MapPos) -> bool {
    pos == origin || sight.sees(range, origin, pos)
}

/// Some unit among `units` that belongs to `player_id` sees `pos`.
pub open spec fn seen_by_player(db: Db, sight: Sight, units: Seq<Unit>, player_id: PlayerId, pos: MapPos) -> bool {
    exists|i: int| 0 <= i < units.len() && (#[trigger] units[i]).player_id == player_id
        && seen_from(sight, db.spec_unit_type(units[i].type_id).los_range as int, units[i].pos, pos)
}

/// Sight range of the type of `u`.
pub open spec fn sight_range(db: Db, u: Unit) -> int {
    db.spec_unit_type(u.type_id).los_range as int
}

/// What an event needs for the fog of war to follow it: the positions
/// it names are on the map, and the units and types it names exist.
pub open spec fn fow_event_ok(db: Db, units: Seq<Unit>, size: Size2, event: CoreEvent) -> bool {
    match event {
        CoreEvent::Move { unit_id, to, .. } => has_unit(units, unit_id) && inboard(size, to),
        CoreEvent::CreateUnit { unit_info } => inboard(size, unit_info.pos) && db.valid_unit_type_id(
            unit_info.type_id,
        ),
        _ => true,
    }
}

/// Whether `player_id` sees `pos` after `event`, which `units` already
/// reflect, given whether it saw `pos` before: a move or a creation of
/// one of the player's units shows what the unit sees from its new
/// tile; the start of the player's turn shows exactly what its units
/// see; nothing else changes the player's sight.
pub open spec fn visible_after(
    db: Db,
    sight: Sight,
    units: Seq<Unit>,
    player_id: PlayerId,
    event: CoreEvent,
    was: bool,
    pos: MapPos,
) -> bool {
    match event {
        CoreEvent::Move { unit_id, to, .. } => was || (unit_of(units, unit_id).player_id == player_id
            && seen_from(sight, sight_range(db, unit_of(units, unit_id)), to, pos)),
        CoreEvent::EndTurn { new_id, .. } => if new_id == player_id {
            seen_by_player(db, sight, units, player_id, pos)
        } else {
            was
        },
        CoreEvent::CreateUnit { unit_info } => was || (unit_info.player_id == player_id && seen_from(
            sight,
            db.spec_unit_type(unit_info.type_id).los_range as int,
            unit_info.pos,
            pos,
        )),
        _ => was,
    }
}

/// The tiles that one player sees.
pub struct Fow {
    map: HexMap<bool>,
    player_id: PlayerId,
}

impl Fow {
    /// The player whose sight this is.
    pub closed spec fn spec_player_id(&self) -> PlayerId {
        self.player_id
    }

    /// The size of the map.
    pub closed spec fn spec_size(&self) -> Size2 {
        self.map.spec_size()
    }

    /// The player sees `pos`.
    pub closed spec fn visible(&self, pos: MapPos) -> bool {
        self.map.at(pos)
    }

    /// Internal consistency: one flag per tile.
    pub closed spec fn wf(&self) -> bool {
        self.map.wf()
    }

    /// Nothing seen yet on a map of the given size.
    pub fn new(map_size: &Size2, player_id: &PlayerId) -> (f: Fow)
        requires
            valid_size(*map_size),
        ensures
            f.wf(),
            f.spec_size() == *map_size,
            f.spec_player_id() == *player_id,
            forall|p: MapPos| inboard(*map_size, p) ==> !#[trigger] f.visible(p),
    {
        Fow { map: HexMap::new(map_size, false), player_id: *player_id }
    }

    /// The player whose sight this is.
    pub fn player_id(&self) -> (p: PlayerId)
        ensures
            p == self.spec_player_id(),
    {
        self.player_id
    }

    /// The player sees `pos`.
    pub fn is_visible(&self, pos: &MapPos) -> (b: bool)
        requires
            self.wf(),
            inboard(self.spec_size(), *pos),
        ensures
            b == self.visible(*pos),
    {
        *self.map.tile(pos)
    }

    /// Hides every tile.
    fn clear_fow(&mut self)
        requires
            old(self).wf(),
        ensures
            final(self).wf(),
            final(self).spec_size() == old(self).spec_size(),
            final(self).spec_player_id() == old(self).spec_player_id(),
            forall|p: MapPos| inboard(final(self).spec_size(), p) ==> !#[trigger] final(self).visible(p),
    {
        proof { self.map.lemma_wf_size(); }
        let size = *self.map.size();
        self.map = HexMap::new(&size, false);
    }

    /// Shows every tile that a unit with sight range `range` on `origin`
    /// sees; the other tiles keep their state.
    fn show_seen(&mut self, sight: &Sight, range: ZInt, origin: &MapPos)
        requires
            old(self).wf(),
            sight.wf(),
            sight.spec_size() == old(self).spec_size(),
            sight.covers(range as int),
            inboard(old(self).spec_size(), *origin),
        ensures
            final(self).wf(),
            final(self).spec_size() == old(self).spec_size(),
            final(self).spec_player_id() == old(self).spec_player_id(),
            forall|p: MapPos| inboard(final(self).spec_size(), p) ==> #[trigger] final(self).visible(p)
                == (old(self).visible(p) || seen_from(*sight, range as int, *origin, p)),
    {
        proof { self.map.lemma_wf_size(); }
        let size = *self.map.size();
        self.map.set_tile(origin, true);
        let mut y: ZInt = 0;
        while y < size.h
            invariant
                self.map.wf(),
                self.map.spec_size() == size,
                size == old(self).spec_size(),
                self.player_id == old(self).player_id,
                sight.wf(),
                sight.spec_size() == size,
                sight.covers(range as int),
                inboard(size, *origin),
                0 <= y <= size.h,
                forall|p: MapPos| inboard(size, p) ==> #[trigger] self.map.at(p) == (old(self).visible(p)
                    || p == *origin || (sight.sees(range as int, *origin, p) && p.y < y)),
            decreases size.h - y,
        {
            let mut x: ZInt = 0;
            while x < size.w
                invariant
                    self.map.wf(),
                    self.map.spec_size() == size,
                    size == old(self).spec_size(),
                    self.player_id == old(self).player_id,
                    sight.wf(),
                    sight.spec_size() == size,
                    sight.covers(range as int),
                    inboard(size, *origin),
                    0 <= y < size.h,
                    0 <= x <= size.w,
                    forall|p: MapPos| inboard(size, p) ==> #[trigger] self.map.at(p) == (old(self).visible(p)
                        || p == *origin || (sight.sees(range as int, *origin, p)
                        && (p.y < y || (p.y == y && p.x < x)))),
                decreases size.w - x,
            {
                let pos = MapPos { x: x, y: y };
                if sight.can_see(range, origin, &pos) {
                    self.map.set_tile(&pos, true);
                }
                x = x + 1;
            }
            y = y + 1;
        }
    }

    /// Shows exactly the tiles that the player's units in `state` see.
    fn reset_fow(&mut self, db: &Db, state: &InternalState, sight: &Sight)
        requires
            old(self).wf(),
            state.wf(*db),
            sight_fits(*db, *sight, old(self).spec_size()),
            units_inboard(state.spec_units(), old(self).spec_size()),
        ensures
            final(self).wf(),
            final(self).spec_size() == old(self).spec_size(),
            final(self).spec_player_id() == old(self).spec_player_id(),
            forall|p: MapPos| inboard(final(self).spec_size(), p) ==> #[trigger] final(self).visible(p)
                == seen_by_player(*db, *sight, state.spec_units(), old(self).spec_player_id(), p),
    {
        self.clear_fow();
        let units = state.units();
        let mut i: usize = 0;
        while i < units.len()
            invariant
                self.wf(),
                self.spec_size() == old(self).spec_size(),
                self.spec_player_id() == old(self).spec_player_id(),
                state.wf(*db),
                sight_fits(*db, *sight, old(self).spec_size()),
                units_inboard(state.spec_units(), old(self).spec_size()),
                units@ == state.spec_units(),
                0 <= i <= units@.len(),
                forall|p: MapPos| inboard(self.spec_size(), p) ==> #[trigger] self.visible(p)
                    == seen_by_player(*db, *sight, units@.take(i as int), self.spec_player_id(), p),
            decreases units@.len() - i,
        {
            let unit = units[i];
            let ghost prefix = units@.take(i as int);
            let ghost next = units@.take(i + 1);
            proof {
                assert(next == prefix.push(unit));
                assert(db.valid_unit_type_id(units@[i as int].type_id));
            }
            if unit.player_id == self.player_id {
                let range = db.unit_type(&unit.type_id).los_range;
                proof {
                    assert(db.unit_types()[unit.type_id.id as int].los_range == range);
                    assert(inboard(self.spec_size(), units@[i as int].pos));
                }
                self.show_seen(sight, range, &unit.pos);
            }
            proof {
                assert forall|p: MapPos| inboard(self.spec_size(), p) implies #[trigger] self.visible(p)
                    == seen_by_player(*db, *sight, next, self.spec_player_id(), p) by {
                    let r = db.spec_unit_type(unit.type_id).los_range as int;
                    if seen_by_player(*db, *sight, next, self.spec_player_id(), p) {
                        let j = choose|j: int| 0 <= j < next.len() && (#[trigger] next[j]).player_id
                            == self.spec_player_id() && seen_from(*sight,
                            db.spec_unit_type(next[j].type_id).los_range as int, next[j].pos, p);
                        if j < i {
                            assert(prefix[j] == next[j]);
                        }
                    }
                    if seen_by_player(*db, *sight, prefix, self.spec_player_id(), p) {
                        let j = choose|j: int| 0 <= j < prefix.len() && (#[trigger] prefix[j]).player_id
                            == self.spec_player_id() && seen_from(*sight,
                            db.spec_unit_type(prefix[j].type_id).los_range as int, prefix[j].pos, p);
                        assert(next[j] == prefix[j]);
                    }
                    if unit.player_id == self.spec_player_id() && seen_from(*sight, r, unit.pos, p) {
                        assert(next[i as int] == unit);
                    }
                }
            }
            i = i + 1;
        }
        proof { assert(units@.take(units@.len() as int) == units@); }
    }

    /// Follows `event`, which `state` already reflects.
    pub fn apply_event(&mut self, db: &Db, state: &InternalState, sight: &Sight, event: &CoreEvent)
        requires
            old(self).wf(),
            state.wf(*db),
            db.wf(),
            sight_fits(*db, *sight, old(self).spec_size()),
            units_inboard(state.spec_units(), old(self).spec_size()),
            fow_event_ok(*db, state.spec_units(), old(self).spec_size(), *event),
        ensures
            final(self).wf(),
            final(self).spec_size() == old(self).spec_size(),
            final(self).spec_player_id() == old(self).spec_player_id(),
            forall|p: MapPos| inboard(final(self).spec_size(), p) ==> #[trigger] final(self).visible(p)
                == visible_after(*db, *sight, state.spec_units(), old(self).spec_player_id(), *event,
                old(self).visible(p), p),
    {
        match event {
            CoreEvent::Move { unit_id, to, .. } => {
                let unit = state.unit(*unit_id);
                if unit.player_id == self.player_id {
                    proof {
                        let i = choose|i: int| 0 <= i < state.spec_units().len()
                            && (#[trigger] state.spec_units()[i]).id == *unit_id;
                        assert(db.valid_unit_type_id(state.spec_units()[crate::state::unit_index(state.spec_units(), *unit_id)].type_id));
                    }
                    let range = db.unit_type(&unit.type_id).los_range;
                    proof { assert(db.unit_types()[unit.type_id.id as int].los_range == range); }
                    self.show_seen(sight, range, to);
                }
            },
            CoreEvent::EndTurn { new_id, .. } => {
                if *new_id == self.player_id {
                    self.reset_fow(db, state, sight);
                }
            },
            CoreEvent::CreateUnit { unit_info } => {
                if unit_info.player_id == self.player_id {
                    let range = db.unit_type(&unit_info.type_id).los_range;
                    proof { assert(db.unit_types()[unit_info.type_id.id as int].los_range == range); }
                    self.show_seen(sight, range, &unit_info.pos);
                }
            },
            _ => {},
        }
    }
}

/// Law: after a move of one of a player's units, the player sees the
/// tile the unit moved to and every tile the sight table marks as seen
/// from there at the range of the unit's type, and keeps seeing what it
/// saw; a move of another player's unit changes nothing of its sight.
pub proof fn lemma_move_reveals(
    db: Db,
    sight: Sight,
    units: Seq<Unit>,
    player_id: PlayerId,
    unit_id: UnitId,
    from: MapPos,
    to: MapPos,
    mode: MoveMode,
    cost: MovePoints,
    was: bool,
    pos: MapPos,
)
    ensures
        ({
            let e = CoreEvent::Move { unit_id, from, to, mode, cost };
            let u = unit_of(units, unit_id);
            &&& u.player_id == player_id ==> visible_after(db, sight, units, player_id, e, was, to)
            &&& u.player_id == player_id && sight.sees(db.spec_unit_type(u.type_id).los_range as int, to, pos)
                ==> visible_after(db, sight, units, player_id, e, was, pos)
            &&& was ==> visible_after(db, sight, units, player_id, e, was, pos)
            &&& u.player_id != player_id ==> visible_after(db, sight, units, player_id, e, was, pos) == was
            &&& visible_after(db, sight, units, player_id, e, was, pos) ==> was || pos == to
                || sight.sees(db.spec_unit_type(u.type_id).los_range as int, to, pos)
        }),
{
}

/// Law: after a new unit of a player appears, the player sees its tile
/// and every tile the sight table marks as seen from there at the range
/// of its type, and keeps seeing what it saw; another player's new unit
/// changes nothing of its sight.
pub proof fn lemma_creation_reveals(
    db: Db,
    sight: Sight,
    units: Seq<Unit>,
    player_id: PlayerId,
    info: UnitInfo,
    was: bool,
    pos: MapPos,
)
    ensures
        ({
            let e = CoreEvent::CreateUnit { unit_info: info };
            let range = db.spec_unit_type(info.type_id).los_range as int;
            &&& info.player_id == player_id ==> visible_after(db, sight, units, player_id, e, was, info.pos)
            &&& info.player_id == player_id && sight.sees(range, info.pos, pos)
                ==> visible_after(db, sight, units, player_id, e, was, pos)
            &&& was ==> visible_after(db, sight, units, player_id, e, was, pos)
            &&& info.player_id != player_id ==> visible_after(db, sight, units, player_id, e, was, pos) == was
            &&& visible_after(db, sight, units, player_id, e, was, pos) ==> was || pos == info.pos
                || sight.sees(range, info.pos, pos)
        }),
{
}

/// Law: when a player's turn starts, it sees the tile of each of its
/// units, and every tile it sees is seen by one of its units.
pub proof fn lemma_turn_start_sight(
    db: Db,
    sight: Sight,
    units: Seq<Unit>,
    player_id: PlayerId,
    old_id: PlayerId,
    was: bool,
    pos: MapPos,
)
    ensures
        (exists|i: int| 0 <= i < units.len() && (#[trigger] units[i]).player_id == player_id && units[i].pos == pos)
            ==> visible_after(db, sight, units, player_id, CoreEvent::EndTurn { old_id, new_id: player_id }, was, pos),
        visible_after(db, sight, units, player_id, CoreEvent::EndTurn { old_id, new_id: player_id }, was, pos)
            ==> seen_by_player(db, sight, units, player_id, pos),
{
    if exists|i: int| 0 <= i < units.len() && (#[trigger] units[i]).player_id == player_id && units[i].pos == pos {
        let i = choose|i: int| 0 <= i < units.len() && (#[trigger] units[i]).player_id == player_id && units[i].pos == pos;
        assert(seen_from(sight, db.spec_unit_type(units[i].type_id).los_range as int, units[i].pos, pos));
    }
}

} // verus!
