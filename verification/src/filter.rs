//! What each player learns of an event: events are shown, changed or
//! withheld according to the player's fog of war.

use vstd::prelude::*;
use crate::types::{MapPos, PlayerId, UnitId};
use crate::unit::Unit;
use crate::map::inboard;
use crate::fow::{Fow, units_inboard};
use crate::state::{InternalState, has_unit, unit_of, ids_distinct};
use crate::event::{CoreEvent, UnitInfo, AttackInfo, info_of, unit_to_info};

verus! {

/// The ids of the units of `units` that do not belong to `player_id` and
/// stand on a tile the player sees, in the order of `units`.
pub open spec fn visible_enemies(units: Seq<Unit>, fow: Fow, player_id: PlayerId) -> Seq<UnitId>
    decreases units.len(),
{
    if units.len() == 0 {
        Seq::empty()
    } else {
        let rest = visible_enemies(units.drop_last(), fow, player_id);
        let u = units.last();
        if u.player_id != player_id && fow.visible(u.pos) {
            rest.push(u.id)
        } else {
            rest
        }
    }
}

/// `ShowUnit` events for the ids of `new` that are neither in `old` nor
/// in `active`, in the order of `new`.
pub open spec fn show_events(units: Seq<Unit>, active: Seq<UnitId>, old: Seq<UnitId>, new: Seq<UnitId>) -> Seq<CoreEvent>
    decreases new.len(),
{
    if new.len() == 0 {
        Seq::empty()
    } else {
        let rest = show_events(units, active, old, new.drop_last());
        let id = new.last();
        if !old.contains(id) && !active.contains(id) {
            rest.push(CoreEvent::ShowUnit { unit_info: info_of(unit_of(units, id)) })
        } else {
            rest
        }
    }
}

/// `HideUnit` events for the ids of `old` that are neither in `new` nor
/// in `active`, in the order of `old`.
pub open spec fn hide_events(active: Seq<UnitId>, old: Seq<UnitId>, new: Seq<UnitId>) -> Seq<CoreEvent>
    decreases old.len(),
{
    if old.len() == 0 {
        Seq::empty()
    } else {
        let rest = hide_events(active, old.drop_last(), new);
        let id = old.last();
        if !new.contains(id) && !active.contains(id) {
            rest.push(CoreEvent::HideUnit { unit_id: id })
        } else {
            rest
        }
    }
}

/// `id` is among `ids`.
pub fn contains_id(ids: &Vec<UnitId>, id: UnitId) -> (b: bool)
    ensures
        b == ids@.contains(id),
{
    let mut i: usize = 0;
    while i < ids.len()
        invariant
            0 <= i <= ids@.len(),
            forall|j: int| 0 <= j < i ==> ids@[j] != id,
        decreases ids@.len() - i,
    {
        if ids[i] == id {
            return true;
        }
        i = i + 1;
    }
    false
}

/// The enemy units that the owner of `fow` sees.
pub fn get_visible_enemies(state: &InternalState, fow: &Fow, player_id: &PlayerId) -> (r: Vec<UnitId>)
    requires
        fow.wf(),
        units_inboard(state.spec_units(), fow.spec_size()),
    ensures
        r@ == visible_enemies(state.spec_units(), *fow, *player_id),
{
    let units = state.units();
    let mut r: Vec<UnitId> = Vec::new();
    let mut i: usize = 0;
    while i < units.len()
        invariant
            fow.wf(),
            units_inboard(state.spec_units(), fow.spec_size()),
            units@ == state.spec_units(),
            0 <= i <= units@.len(),
            r@ == visible_enemies(units@.take(i as int), *fow, *player_id),
        decreases units@.len() - i,
    {
        assert(units@.take(i + 1).drop_last() == units@.take(i as int));
        let u = units[i];
        if u.player_id != *player_id && fow.is_visible(&u.pos) {
            r.push(u.id);
        }
        i = i + 1;
    }
    assert(units@.take(units@.len() as int) == units@);
    r
}

/// Events that show the enemies that came into sight and hide those that
/// left it, but for the units in `active`, whose events say so already;
/// each unit shown must be among `units`.
pub fn show_or_hide_passive_enemies(
    units: &Vec<Unit>,
    active_unit_ids: &Vec<UnitId>,
    old: &Vec<UnitId>,
    new: &Vec<UnitId>,
) -> (events: Vec<CoreEvent>)
    requires
        ids_distinct(units@),
        forall|i: int| 0 <= i < new@.len() && !old@.contains(#[trigger] new@[i]) && !active_unit_ids@.contains(new@[i])
            ==> has_unit(units@, new@[i]),
    ensures
        events@ == show_events(units@, active_unit_ids@, old@, new@) + hide_events(
            active_unit_ids@,
            old@,
            new@,
        ),
{
    let mut events: Vec<CoreEvent> = Vec::new();
    let mut i: usize = 0;
    while i < new.len()
        invariant
            ids_distinct(units@),
            forall|k: int| 0 <= k < new@.len() && !old@.contains(#[trigger] new@[k]) && !active_unit_ids@.contains(new@[k])
                ==> has_unit(units@, new@[k]),
            0 <= i <= new@.len(),
            events@ == show_events(units@, active_unit_ids@, old@, new@.take(i as int)),
        decreases new@.len() - i,
    {
        assert(new@.take(i + 1).drop_last() == new@.take(i as int));
        let id = new[i];
        if !contains_id(old, id) && !contains_id(active_unit_ids, id) {
            proof { assert(has_unit(units@, new@[i as int])); }
            let unit = find_unit_in(units, id);
            events.push(CoreEvent::ShowUnit { unit_info: unit_to_info(&unit) });
        }
        i = i + 1;
    }
    assert(new@.take(new@.len() as int) == new@);
    let ghost shown = events@;
    let mut j: usize = 0;
    while j < old.len()
        invariant
            0 <= j <= old@.len(),
            events@ == shown + hide_events(active_unit_ids@, old@.take(j as int), new@),
        decreases old@.len() - j,
    {
        assert(old@.take(j + 1).drop_last() == old@.take(j as int));
        let id = old[j];
        if !contains_id(new, id) && !contains_id(active_unit_ids, id) {
            events.push(CoreEvent::HideUnit { unit_id: id });
        }
        j = j + 1;
    }
    assert(old@.take(old@.len() as int) == old@);
    events
}

/// The unit of id `id` in `units`.
pub fn find_unit_in(units: &Vec<Unit>, id: UnitId) -> (u: Unit)
    requires
        ids_distinct(units@),
        has_unit(units@, id),
    ensures
        u == unit_of(units@, id),
{
    let mut i: usize = 0;
    while i < units.len()
        invariant
            0 <= i <= units@.len(),
            ids_distinct(units@),
            has_unit(units@, id),
            forall|j: int| 0 <= j < i ==> (#[trigger] units@[j]).id != id,
        decreases units@.len() - i,
    {
        if units[i].id == id {
            proof { crate::state::lemma_unit_index_unique(units@, i as int); }
            return units[i];
        }
        i = i + 1;
    }
    proof {
        let k = choose|k: int| 0 <= k < units@.len() && (#[trigger] units@[k]).id == id;
        assert(units@[k].id == id);
    }
    units[0]
}

/// What filtering an event needs: it is one the core makes (no
/// `ShowUnit` or `HideUnit`, an attack with a known attacker), the units
/// it names exist and the tiles it names are on the map.
pub open spec fn filter_ok(units: Seq<Unit>, size: crate::types::Size2, event: CoreEvent) -> bool {
    match event {
        CoreEvent::Move { unit_id, from, to, .. } => has_unit(units, unit_id) && inboard(size, from)
            && inboard(size, to),
        CoreEvent::EndTurn { .. } => true,
        CoreEvent::CreateUnit { unit_info } => has_unit(units, unit_info.unit_id) && inboard(
            size,
            unit_info.pos,
        ),
        CoreEvent::AttackUnit { attack_info } => match attack_info.attacker_id {
            Some(id) => has_unit(units, id),
            None => false,
        },
        CoreEvent::ShowUnit { .. } => false,
        CoreEvent::HideUnit { .. } => false,
        CoreEvent::LoadUnit { passenger_id, .. } => has_unit(units, passenger_id),
        CoreEvent::UnloadUnit { unit_info, transporter_id } => {
            &&& has_unit(units, unit_info.unit_id)
            &&& has_unit(units, transporter_id)
            &&& inboard(size, unit_info.pos)
        },
        CoreEvent::SetReactionFireMode { unit_id, .. } => has_unit(units, unit_id),
    }
}

/// What filtering `event` for `player_id` needs: an event the core makes
/// (not a show or hide event), whose units exist, and whose tiles lie on
/// the map where their visibility is asked (for other players' events
/// only).
pub open spec fn filter_reads_ok(units: Seq<Unit>, size: crate::types::Size2, player_id: PlayerId, event: CoreEvent) -> bool {
    match event {
        CoreEvent::Move { unit_id, from, to, .. } => has_unit(units, unit_id)
            && (unit_of(units, unit_id).player_id != player_id ==> inboard(size, from) && inboard(size, to)),
        CoreEvent::CreateUnit { unit_info } => unit_info.player_id != player_id ==> inboard(size, unit_info.pos),
        CoreEvent::AttackUnit { attack_info } => match attack_info.attacker_id {
            Some(id) => has_unit(units, id),
            None => false,
        },
        CoreEvent::LoadUnit { passenger_id, .. } => has_unit(units, passenger_id),
        CoreEvent::UnloadUnit { unit_info, transporter_id } => {
            &&& has_unit(units, unit_info.unit_id)
            &&& unit_of(units, unit_info.unit_id).player_id != player_id ==> inboard(size, unit_info.pos)
                && has_unit(units, transporter_id)
        },
        CoreEvent::SetReactionFireMode { unit_id, .. } => has_unit(units, unit_id),
        CoreEvent::EndTurn { .. } => true,
        CoreEvent::ShowUnit { .. } => false,
        CoreEvent::HideUnit { .. } => false,
    }
}

/// `event` alone if `b`, else nothing.
pub open spec fn only_if(b: bool, event: CoreEvent) -> Seq<CoreEvent> {
    if b {
        seq![event]
    } else {
        Seq::empty()
    }
}

/// What `player_id`, who sees what `fow` shows, learns of `event`, which
/// `units` already reflect: the events to show and the ids of the units
/// those events speak of.
///
/// A player learns everything of its own units. Of an enemy's move it
/// learns if either end is in sight, with the unit shown before it comes
/// into sight and hidden after it leaves. An enemy's new unit is shown
/// where it is in sight. An attack is always reported; the attacker is
/// shown and named unless it fires from ambush. A load is shown where the
/// passenger is in sight; an unload where the unloaded unit is, with its
/// transporter shown if that was out of sight. A change of reaction fire
/// mode stays with the owner.
pub open spec fn filter_spec(units: Seq<Unit>, player_id: PlayerId, fow: Fow, event: CoreEvent)
    -> (Seq<CoreEvent>, Seq<UnitId>)
{
    match event {
        CoreEvent::Move { unit_id, from, to, .. } => {
            let unit = unit_of(units, unit_id);
            if unit.player_id == player_id {
                (seq![event], Seq::empty())
            } else {
                let prev_vis = fow.visible(from);
                let next_vis = fow.visible(to);
                (
                    only_if(!prev_vis && next_vis, CoreEvent::ShowUnit {
                        unit_info: UnitInfo { pos: from, ..info_of(unit) },
                    }) + only_if(prev_vis || next_vis, event) + only_if(
                        prev_vis && !next_vis,
                        CoreEvent::HideUnit { unit_id: unit.id },
                    ),
                    seq![unit_id],
                )
            }
        },
        CoreEvent::EndTurn { .. } => (seq![event], Seq::empty()),
        CoreEvent::CreateUnit { unit_info } => {
            if player_id == unit_info.player_id || fow.visible(unit_info.pos) {
                (seq![event], seq![unit_info.unit_id])
            } else {
                (Seq::empty(), Seq::empty())
            }
        },
        CoreEvent::AttackUnit { attack_info } => {
            let attacker_id = attack_info.attacker_id->0;
            let attacker = unit_of(units, attacker_id);
            let shown = player_id != attacker.player_id && !attack_info.is_ambush;
            let is_attacker_visible = player_id == attacker.player_id || !attack_info.is_ambush;
            (
                only_if(shown && !fow.visible(attacker.pos), CoreEvent::ShowUnit {
                    unit_info: info_of(attacker),
                }) + seq![CoreEvent::AttackUnit {
                    attack_info: AttackInfo {
                        attacker_id: if is_attacker_visible { Some(attacker_id) } else { None },
                        ..attack_info
                    },
                }],
                (if shown { seq![attacker_id] } else { Seq::empty() }) + seq![attack_info.defender_id],
            )
        },
        CoreEvent::LoadUnit { passenger_id, .. } => {
            let passenger = unit_of(units, passenger_id);
            (only_if(passenger.player_id == player_id || fow.visible(passenger.pos), event), Seq::empty())
        },
        CoreEvent::UnloadUnit { unit_info, transporter_id } => {
            let passenger = unit_of(units, unit_info.unit_id);
            let transporter = unit_of(units, transporter_id);
            if passenger.player_id == player_id {
                (seq![event], seq![unit_info.unit_id])
            } else if fow.visible(unit_info.pos) {
                if !fow.visible(transporter.pos) {
                    (
                        seq![CoreEvent::ShowUnit { unit_info: info_of(transporter) }, event],
                        seq![unit_info.unit_id, transporter_id],
                    )
                } else {
                    (seq![event], seq![unit_info.unit_id])
                }
            } else {
                (Seq::empty(), seq![unit_info.unit_id])
            }
        },
        CoreEvent::SetReactionFireMode { unit_id, .. } => {
            (only_if(unit_of(units, unit_id).player_id == player_id, event), Seq::empty())
        },
        _ => (Seq::empty(), Seq::empty()),
    }
}

/// What the owner of `fow` learns of `event`, which `state` already
/// reflects: the events to show it and the ids of the units they speak of.
pub fn filter_events(state: &InternalState, player_id: &PlayerId, fow: &Fow, event: &CoreEvent)
    -> (r: (Vec<CoreEvent>, Vec<UnitId>))
    requires
        fow.wf(),
        ids_distinct(state.spec_units()),
        units_inboard(state.spec_units(), fow.spec_size()),
        filter_reads_ok(state.spec_units(), fow.spec_size(), *player_id, *event),
    ensures
        r.0@ == filter_spec(state.spec_units(), *player_id, *fow, *event).0,
        r.1@ == filter_spec(state.spec_units(), *player_id, *fow, *event).1,
{
    let mut active_unit_ids: Vec<UnitId> = Vec::new();
    let mut events: Vec<CoreEvent> = Vec::new();
    proof { lemma_units_inboard_of(state.spec_units(), fow.spec_size()); }
    match event {
        CoreEvent::Move { unit_id, from, to, .. } => {
            let unit = state.unit(*unit_id);
            if unit.player_id == *player_id {
                events.push(*event);
            } else {
                let prev_vis = fow.is_visible(from);
                let next_vis = fow.is_visible(to);
                if !prev_vis && next_vis {
                    let info = unit_to_info(&unit);
                    events.push(CoreEvent::ShowUnit { unit_info: UnitInfo { pos: *from, ..info } });
                }
                if prev_vis || next_vis {
                    events.push(*event);
                }
                if prev_vis && !next_vis {
                    events.push(CoreEvent::HideUnit { unit_id: unit.id });
                }
                active_unit_ids.push(*unit_id);
            }
        },
        CoreEvent::EndTurn { .. } => {
            events.push(*event);
        },
        CoreEvent::CreateUnit { unit_info } => {
            if *player_id == unit_info.player_id || fow.is_visible(&unit_info.pos) {
                events.push(*event);
                active_unit_ids.push(unit_info.unit_id);
            }
        },
        CoreEvent::AttackUnit { attack_info } => {
            let attacker_id = attack_info.attacker_id.unwrap();
            let attacker = state.unit(attacker_id);
            if *player_id != attacker.player_id && !attack_info.is_ambush {
                if !fow.is_visible(&attacker.pos) {
                    events.push(CoreEvent::ShowUnit { unit_info: unit_to_info(&attacker) });
                }
                active_unit_ids.push(attacker_id);
            }
            active_unit_ids.push(attack_info.defender_id);
            let is_attacker_visible = *player_id == attacker.player_id || !attack_info.is_ambush;
            let filtered = AttackInfo {
                attacker_id: if is_attacker_visible { Some(attacker_id) } else { None },
                ..*attack_info
            };
            events.push(CoreEvent::AttackUnit { attack_info: filtered });
        },
        CoreEvent::ShowUnit { .. } => {},
        CoreEvent::HideUnit { .. } => {},
        CoreEvent::LoadUnit { passenger_id, .. } => {
            let passenger = state.unit(*passenger_id);
            if passenger.player_id == *player_id {
                events.push(*event);
            } else if fow.is_visible(&passenger.pos) {
                events.push(*event);
            }
        },
        CoreEvent::UnloadUnit { unit_info, transporter_id } => {
            active_unit_ids.push(unit_info.unit_id);
            let passenger = state.unit(unit_info.unit_id);
            if passenger.player_id == *player_id {
                events.push(*event);
            } else if fow.is_visible(&unit_info.pos) {
                let transporter = state.unit(*transporter_id);
                if !fow.is_visible(&transporter.pos) {
                    events.push(CoreEvent::ShowUnit { unit_info: unit_to_info(&transporter) });
                    active_unit_ids.push(*transporter_id);
                }
                events.push(*event);
            }
        },
        CoreEvent::SetReactionFireMode { unit_id, .. } => {
            let unit = state.unit(*unit_id);
            if unit.player_id == *player_id {
                events.push(*event);
            }
        },
    }
    (events, active_unit_ids)
}

/// The unit of each id of `units` stands on the map.
proof fn lemma_units_inboard_of(units: Seq<Unit>, size: crate::types::Size2)
    requires
        units_inboard(units, size),
    ensures
        forall|id: UnitId| has_unit(units, id) ==> inboard(size, #[trigger] unit_of(units, id).pos),
{
    assert forall|id: UnitId| has_unit(units, id) implies inboard(size, #[trigger] unit_of(units, id).pos) by {
        let i = crate::state::unit_index(units, id);
        assert(0 <= i < units.len());
    }
}

/// The unit that acts in `event` (the mover, the new unit, the attacker,
/// the passenger, the unit changing its mode) belongs to `player_id`, or
/// the event is the end of a turn.
pub open spec fn own_event(units: Seq<Unit>, player_id: PlayerId, event: CoreEvent) -> bool {
    match event {
        CoreEvent::Move { unit_id, .. } => unit_of(units, unit_id).player_id == player_id,
        CoreEvent::EndTurn { .. } => true,
        CoreEvent::CreateUnit { unit_info } => unit_info.player_id == player_id,
        CoreEvent::AttackUnit { attack_info } => attack_info.attacker_id is Some && unit_of(
            units,
            attack_info.attacker_id->0,
        ).player_id == player_id,
        CoreEvent::LoadUnit { passenger_id, .. } => unit_of(units, passenger_id).player_id == player_id,
        CoreEvent::UnloadUnit { unit_info, .. } => unit_of(units, unit_info.unit_id).player_id == player_id,
        CoreEvent::SetReactionFireMode { unit_id, .. } => unit_of(units, unit_id).player_id == player_id,
        _ => false,
    }
}

/// Law: a player learns of every event of its own units, and of every
/// end of a turn, exactly as it happened, whatever its fog of war.
pub proof fn lemma_own_events_shown(units: Seq<Unit>, player_id: PlayerId, fow: Fow, event: CoreEvent)
    requires
        own_event(units, player_id, event),
    ensures
        filter_spec(units, player_id, fow, event).0 == seq![event],
{
    match event {
        CoreEvent::AttackUnit { attack_info } => {
            let a = AttackInfo { attacker_id: Some(attack_info.attacker_id->0), ..attack_info };
            assert(a == attack_info);
            assert(Seq::<CoreEvent>::empty() + seq![event] =~= seq![event]);
        },
        CoreEvent::LoadUnit { .. } => {},
        _ => {},
    }
}

/// Law: of another player's move a player learns just what its fog of
/// war lets it see: nothing where both tiles are out of sight; the move
/// alone where both are in sight; the unit shown on the tile it came from
/// (with its type and owner) and then the move, where it comes into
/// sight; and the move and then the unit hidden, where it walks out of
/// sight. The moving unit is named among the units the events speak of.
pub proof fn lemma_enemy_move_filtered(
    units: Seq<Unit>,
    player_id: PlayerId,
    fow: Fow,
    unit_id: UnitId,
    from: MapPos,
    to: MapPos,
    mode: crate::event::MoveMode,
    cost: crate::types::MovePoints,
)
    requires
        has_unit(units, unit_id),
        unit_of(units, unit_id).player_id != player_id,
    ensures
        ({
            let e = CoreEvent::Move { unit_id, from, to, mode, cost };
            let r = filter_spec(units, player_id, fow, e);
            let u = unit_of(units, unit_id);
            &&& !fow.visible(from) && !fow.visible(to) ==> r.0.len() == 0
            &&& fow.visible(from) && fow.visible(to) ==> r.0 == seq![e]
            &&& fow.visible(from) && !fow.visible(to) ==> r.0 == seq![e, CoreEvent::HideUnit { unit_id }]
            &&& !fow.visible(from) && fow.visible(to) ==> r.0.len() == 2 && r.0[1] == e && (r.0[0] matches CoreEvent::ShowUnit {
                unit_info } && unit_info.unit_id == unit_id && unit_info.pos == from && unit_info.type_id == u.type_id
                && unit_info.player_id == u.player_id)
            &&& r.1 == seq![unit_id]
        }),
{
    let i = crate::state::unit_index(units, unit_id);
    assert(units[i].id == unit_id);
    let e = CoreEvent::Move { unit_id, from, to, mode, cost };
    let r = filter_spec(units, player_id, fow, e);
    if fow.visible(from) && !fow.visible(to) {
        assert(r.0 =~= seq![e, CoreEvent::HideUnit { unit_id }]);
    }
    if fow.visible(from) && fow.visible(to) {
        assert(r.0 =~= seq![e]);
    }
}

/// Law: of another player's new unit a player learns, and is told of
/// that unit alone, just where it sees the unit's tile; a player always
/// learns of its own new units.
pub proof fn lemma_creation_filtered(units: Seq<Unit>, player_id: PlayerId, fow: Fow, info: UnitInfo)
    ensures
        ({
            let e = CoreEvent::CreateUnit { unit_info: info };
            let r = filter_spec(units, player_id, fow, e);
            &&& info.player_id == player_id || fow.visible(info.pos) ==> r.0 == seq![e] && r.1 == seq![info.unit_id]
            &&& info.player_id != player_id && !fow.visible(info.pos) ==> r.0.len() == 0 && r.1.len() == 0
        }),
{
}

/// Law: every attack is reported to every player, with its defender,
/// losses and suppression; the attacker is named unless it fires from
/// ambush at another player's unit.
pub proof fn lemma_attacks_reported(units: Seq<Unit>, player_id: PlayerId, fow: Fow, a: AttackInfo)
    requires
        a.attacker_id is Some,
    ensures
        ({
            let f = filter_spec(units, player_id, fow, CoreEvent::AttackUnit { attack_info: a }).0;
            &&& f.len() >= 1
            &&& f.last() matches CoreEvent::AttackUnit { attack_info: shown } && shown.defender_id == a.defender_id
                && shown.killed == a.killed && shown.suppression == a.suppression && shown.mode == a.mode
                && (shown.attacker_id is None <==> (a.is_ambush && unit_of(units, a.attacker_id->0).player_id
                != player_id))
        }),
{
}

/// Law: the enemies a player sees belong to other players and stand on
/// tiles it sees.
pub proof fn lemma_visible_enemies_sound(units: Seq<Unit>, fow: Fow, player_id: PlayerId, k: int)
    requires
        0 <= k < visible_enemies(units, fow, player_id).len(),
    ensures
        exists|i: int| 0 <= i < units.len() && (#[trigger] units[i]).id == visible_enemies(units, fow, player_id)[k]
            && units[i].player_id != player_id && fow.visible(units[i].pos),
    decreases units.len(),
{
    let init = units.drop_last();
    let r = visible_enemies(init, fow, player_id);
    if k < r.len() {
        lemma_visible_enemies_sound(init, fow, player_id, k);
        let i = choose|i: int| 0 <= i < init.len() && (#[trigger] init[i]).id == r[k]
            && init[i].player_id != player_id && fow.visible(init[i].pos);
        assert(units[i] == init[i]);
    } else {
        assert(units[units.len() - 1] == units.last());
    }
}

} // verus!
