//! Movement costs and shortest paths of a unit over the map.

use vstd::prelude::*;
use crate::types::{ZInt, Size2, MapPos, MovePoints};
use crate::unit::{Unit, UnitClass};
use crate::db::Db;
use crate::map::{HexMap, Terrain, inboard, valid_size, tile_index, MapPosIter, advance,
    lemma_advance_next_index, lemma_tile_index_bounds, lemma_tile_index_injective};
use crate::dir::{Dir, dirs, dir_of_index, neighbour, is_neighbour, lemma_neighbour_opposite};
use crate::state::{InternalState, units_at_spec};

verus! {

/// Largest number of units for which tile costs are computed.
pub const UNITS_LIMIT: usize = 0x10_0000;

/// Cost of entering a tile of the given terrain for a unit of the given class.
pub open spec fn terrain_cost(class: UnitClass, terrain: Terrain) -> int {
    match class {
        UnitClass::Infantry => match terrain {
            Terrain::Plain => 1,
            Terrain::Trees => 2,
        },
        UnitClass::Vehicle => match terrain {
            Terrain::Plain => 1,
            Terrain::Trees => 5,
        },
    }
}

/// Cost for `unit` of entering `pos`: the terrain's cost plus one for
/// each unit standing there.
#[verifier::opaque]
pub open spec fn tile_cost_spec(db: Db, state: InternalState, unit: Unit, pos: MapPos) -> int {
    terrain_cost(db.spec_unit_type(unit.type_id).class, state.spec_map().at(pos))
        + units_at_spec(state.spec_units(), pos).len()
}

/// What the cost functions need: a consistent state and database, a
/// known unit type, and a bounded number of units.
pub open spec fn cost_context(db: Db, state: InternalState, unit: Unit) -> bool {
    &&& state.wf(db)
    &&& db.wf()
    &&& db.valid_unit_type_id(unit.type_id)
    &&& state.spec_units().len() <= UNITS_LIMIT
}

proof fn lemma_units_at_len(units: Seq<Unit>, pos: MapPos)
    ensures
        units_at_spec(units, pos).len() <= units.len(),
    decreases units.len(),
{
    if units.len() > 0 {
        lemma_units_at_len(units.drop_last(), pos);
    }
}

/// The cost of a tile is the same in two states with the same map and
/// as many units on the tile, for units of the same type.
pub proof fn lemma_tile_cost_same(db: Db, s1: InternalState, s2: InternalState, u1: Unit, u2: Unit, pos: MapPos)
    requires
        s1.spec_map() == s2.spec_map(),
        u1.type_id == u2.type_id,
        units_at_spec(s1.spec_units(), pos).len() == units_at_spec(s2.spec_units(), pos).len(),
    ensures
        tile_cost_spec(db, s1, u1, pos) == tile_cost_spec(db, s2, u2, pos),
{
    reveal(tile_cost_spec);
}

/// Tile costs lie between one and a bound that keeps sums of them small.
pub proof fn lemma_tile_cost_bounds(db: Db, state: InternalState, unit: Unit, pos: MapPos)
    requires
        cost_context(db, state, unit),
    ensures
        1 <= tile_cost_spec(db, state, unit, pos) <= UNITS_LIMIT + 5,
{
    reveal(tile_cost_spec);
    lemma_units_at_len(state.spec_units(), pos);
}

/// Number of units standing on `pos`.
pub fn obstacles_count(state: &InternalState, pos: &MapPos) -> (n: ZInt)
    requires
        state.spec_units().len() <= UNITS_LIMIT,
    ensures
        n == units_at_spec(state.spec_units(), *pos).len(),
{
    proof { lemma_units_at_len(state.spec_units(), *pos); }
    let units = state.units_at(pos);
    units.len() as ZInt
}

/// Cost for `unit` of entering `pos`.
pub fn tile_cost(db: &Db, state: &InternalState, unit: &Unit, pos: &MapPos) -> (c: MovePoints)
    requires
        cost_context(*db, *state, *unit),
        inboard(state.spec_map().spec_size(), *pos),
    ensures
        c.n == tile_cost_spec(*db, *state, *unit, *pos),
{
    let obstacles_count = obstacles_count(state, pos);
    proof { lemma_units_at_len(state.spec_units(), *pos); }
    let unit_type = db.unit_type(&unit.type_id);
    let tile = state.map().tile(pos);
    let n: ZInt = match unit_type.class {
        UnitClass::Infantry => match tile {
            Terrain::Plain => 1,
            Terrain::Trees => 2,
        },
        UnitClass::Vehicle => match tile {
            Terrain::Plain => 1,
            Terrain::Trees => 5,
        },
    };
    proof { reveal(tile_cost_spec); }
    MovePoints { n: n + obstacles_count }
}

/// Total cost for `unit` of entering the tiles of `path` one by one.
pub open spec fn path_cost_spec(db: Db, state: InternalState, unit: Unit, path: Seq<MapPos>) -> int
    decreases path.len(),
{
    if path.len() == 0 {
        0
    } else {
        path_cost_spec(db, state, unit, path.drop_last()) + tile_cost_spec(db, state, unit, path.last())
    }
}

/// All positions of `path` lie on the state's map.
pub open spec fn path_inboard(state: InternalState, path: Seq<MapPos>) -> bool {
    forall|i: int| 0 <= i < path.len() ==> inboard(state.spec_map().spec_size(), #[trigger] path[i])
}

/// Costs of longer prefixes are larger.
pub proof fn lemma_path_cost_monotone(db: Db, state: InternalState, unit: Unit, path: Seq<MapPos>, i: int, j: int)
    requires
        cost_context(db, state, unit),
        0 <= i <= j <= path.len(),
    ensures
        path_cost_spec(db, state, unit, path.take(i)) + (j - i) <= path_cost_spec(db, state, unit, path.take(j)),
    decreases j - i,
{
    if i < j {
        lemma_path_cost_monotone(db, state, unit, path, i, j - 1);
        assert(path.take(j).drop_last() == path.take(j - 1));
        lemma_tile_cost_bounds(db, state, unit, path.take(j).last());
    }
}

/// Total cost for `unit` of walking along `path`.
pub fn path_cost(db: &Db, state: &InternalState, unit: &Unit, path: &[MapPos]) -> (c: MovePoints)
    requires
        cost_context(*db, *state, *unit),
        path_inboard(*state, path@),
        path_cost_spec(*db, *state, *unit, path@) <= i32::MAX,
    ensures
        c.n == path_cost_spec(*db, *state, *unit, path@),
{
    let mut cost = MovePoints { n: 0 };
    let mut i: usize = 0;
    while i < path.len()
        invariant
            cost_context(*db, *state, *unit),
            path_inboard(*state, path@),
            path_cost_spec(*db, *state, *unit, path@) <= i32::MAX,
            0 <= i <= path@.len(),
            cost.n == path_cost_spec(*db, *state, *unit, path@.take(i as int)),
            0 <= cost.n,
        decreases path@.len() - i,
    {
        proof {
            assert(path@.take(i + 1).drop_last() == path@.take(i as int));
            assert(path@.take(i + 1).last() == path@[i as int]);
            lemma_tile_cost_bounds(*db, *state, *unit, path@[i as int]);
            assert(path_cost_spec(*db, *state, *unit, path@.take(i + 1)) == path_cost_spec(*db, *state, *unit, path@.take(i as int))
                + tile_cost_spec(*db, *state, *unit, path@[i as int]));
            lemma_path_cost_monotone(*db, *state, *unit, path@, i + 1, path@.len() as int);
            assert(path@.take(path@.len() as int) == path@);
        }
        let c = tile_cost(db, state, unit, &path[i]);
        assert(c.n == tile_cost_spec(*db, *state, *unit, path@[i as int]));
        assert(cost.n + c.n == path_cost_spec(*db, *state, *unit, path@.take(i + 1)));
        cost.n = cost.n + c.n;
        i = i + 1;
    }
    proof { assert(path@.take(path@.len() as int) == path@); }
    cost
}

/// Where the first `i + 1` tiles of `path` cost more than `unit`'s move
/// points, so does the whole path, and where `i > 0` the first tile
/// alone does not.
proof fn lemma_truncated_prefix(db: Db, state: InternalState, unit: Unit, path: Seq<MapPos>, i: int)
    requires
        cost_context(db, state, unit),
        0 <= i < path.len(),
        path_cost_spec(db, state, unit, path.take(i + 1)) > unit.move_points.n,
        i > 0 ==> path_cost_spec(db, state, unit, path.take(i)) <= unit.move_points.n,
    ensures
        path_cost_spec(db, state, unit, path) > unit.move_points.n,
        i > 0 ==> tile_cost_spec(db, state, unit, path[0]) <= unit.move_points.n,
{
    lemma_path_cost_monotone(db, state, unit, path, i + 1, path.len() as int);
    assert(path.take(path.len() as int) == path);
    if i > 0 {
        lemma_path_cost_monotone(db, state, unit, path, 1, i);
        assert(path.take(1).drop_last() == Seq::<MapPos>::empty());
        assert(path.take(1).last() == path[0]);
        assert(path_cost_spec(db, state, unit, Seq::<MapPos>::empty()) == 0);
    }
}

/// The longest prefix of `path` that `unit` can walk with its move points.
pub fn truncate_path(db: &Db, state: &InternalState, path: &[MapPos], unit: &Unit) -> (r: Vec<MapPos>)
    requires
        cost_context(*db, *state, *unit),
        path_inboard(*state, path@),
    ensures
        r@.len() <= path@.len(),
        r@ == path@.take(r@.len() as int),
        r@.len() > 0 ==> path_cost_spec(*db, *state, *unit, r@) <= unit.move_points.n,
        r@.len() < path@.len() ==> path_cost_spec(*db, *state, *unit, path@.take(r@.len() as int + 1))
            > unit.move_points.n,
        path_cost_spec(*db, *state, *unit, path@) <= unit.move_points.n ==> r@ == path@,
        path@.len() > 0 && tile_cost_spec(*db, *state, *unit, path@[0]) > unit.move_points.n ==> r@.len() == 0,
{
    let mut new_path: Vec<MapPos> = Vec::new();
    let mut cost: i64 = 0;
    let mut i: usize = 0;
    while i < path.len()
        invariant
            cost_context(*db, *state, *unit),
            path_inboard(*state, path@),
            0 <= i <= path@.len(),
            new_path@ == path@.take(i as int),
            cost == path_cost_spec(*db, *state, *unit, path@.take(i as int)),
            0 <= cost,
            i > 0 ==> cost <= unit.move_points.n,
        decreases path@.len() - i,
    {
        proof {
            assert(path@.take(i + 1).drop_last() == path@.take(i as int));
            lemma_tile_cost_bounds(*db, *state, *unit, path@[i as int]);
        }
        let c = tile_cost(db, state, unit, &path[i]);
        cost = cost + c.n as i64;
        if cost > unit.move_points.n as i64 {
            proof { lemma_truncated_prefix(*db, *state, *unit, path@, i as int); }
            return new_path;
        }
        new_path.push(path[i]);
        i = i + 1;
    }
    proof {
        assert(path@.take(path@.len() as int) == path@);
        if path@.len() > 0 {
            lemma_path_cost_monotone(*db, *state, *unit, path@, 1, path@.len() as int);
            assert(path@.take(1).drop_last() == Seq::<MapPos>::empty());
            assert(path@.take(1).last() == path@[0]);
            assert(path_cost_spec(*db, *state, *unit, Seq::<MapPos>::empty()) == 0);
        }
    }
    new_path
}

/// The cost that marks a tile as not reached.
pub fn max_cost() -> (c: MovePoints)
    ensures
        c.n == i32::MAX,
{
    MovePoints { n: i32::MAX }
}

} // verus!

verus! {

/// What the path search knows of a tile: the cheapest cost found so
/// far and the direction to the tile it is reached from.
#[derive(Clone, Copy, Debug, PartialEq, Eq, Structural)]
pub struct Tile {
    cost: MovePoints,
    parent: Option<Dir>,
}

impl Tile {
    /// The cost of reaching this tile.
    pub closed spec fn spec_cost(&self) -> int {
        self.cost.n as int
    }

    /// The direction to the tile this one is reached from.
    pub closed spec fn spec_parent(&self) -> Option<Dir> {
        self.parent
    }

    /// The direction to the tile this one is reached from.
    pub fn parent(&self) -> (r: &Option<Dir>)
        ensures
            *r == self.spec_parent(),
    {
        &self.parent
    }

    /// The cost of reaching this tile.
    pub fn cost(&self) -> (r: &MovePoints)
        ensures
            r.n == self.spec_cost(),
    {
        &self.cost
    }
}

impl Default for Tile {
    fn default() -> (t: Tile)
        ensures
            t.spec_cost() == 0,
            t.spec_parent().is_none(),
    {
        Tile { cost: MovePoints { n: 0 }, parent: None }
    }
}

/// The cost recorded for `p`.
pub open spec fn cost_at(m: HexMap<Tile>, p: MapPos) -> int {
    m.at(p).spec_cost()
}

/// A recorded cost fits in an `i32`.
pub proof fn lemma_cost_at_fits(m: HexMap<Tile>, p: MapPos)
    ensures
        cost_at(m, p) <= i32::MAX,
{
}

/// The parent direction recorded for `p`.
pub open spec fn parent_at(m: HexMap<Tile>, p: MapPos) -> Option<Dir> {
    m.at(p).spec_parent()
}

/// The recorded costs and parents form a search tree rooted at `start`:
/// the start costs nothing and has no parent; every other tile without a
/// parent is unreached; a tile with a parent is reached, its parent lies on
/// the map, and its cost is at least (with `exact`: equal to) the parent's
/// cost plus the cost of entering the tile.
pub open spec fn search_tree(
    m: HexMap<Tile>,
    start: MapPos,
    db: Db,
    st: InternalState,
    unit: Unit,
    exact: bool,
) -> bool {
    let size = m.spec_size();
    &&& inboard(size, start)
    &&& cost_at(m, start) == 0
    &&& parent_at(m, start).is_none()
    &&& forall|p: MapPos| inboard(size, p) ==> 0 <= #[trigger] cost_at(m, p)
    &&& forall|p: MapPos| inboard(size, p) && p != start && parent_at(m, p).is_none()
        ==> #[trigger] cost_at(m, p) == i32::MAX
    &&& forall|p: MapPos| inboard(size, p) && (#[trigger] parent_at(m, p)).is_some() ==> {
        let q = neighbour(p, parent_at(m, p)->0);
        &&& inboard(size, q)
        &&& cost_at(m, p) < i32::MAX
        &&& if exact {
            cost_at(m, p) == cost_at(m, q) + tile_cost_spec(db, st, unit, p)
        } else {
            cost_at(m, p) >= cost_at(m, q) + tile_cost_spec(db, st, unit, p)
        }
    }
}

/// No neighbour of `p` can be reached more cheaply through `p`.
pub open spec fn relaxed_from(m: HexMap<Tile>, p: MapPos, db: Db, st: InternalState, unit: Unit) -> bool {
    forall|d: Dir| #![trigger neighbour(p, d)] inboard(m.spec_size(), neighbour(p, d))
        ==> cost_at(m, neighbour(p, d)) <= cost_at(m, p) + tile_cost_spec(db, st, unit, neighbour(p, d))
}

/// Every reached tile that is not waiting in `queue` has been relaxed.
pub open spec fn relaxed_outside(
    m: HexMap<Tile>,
    queue: Seq<MapPos>,
    db: Db,
    st: InternalState,
    unit: Unit,
) -> bool {
    forall|p: MapPos| inboard(m.spec_size(), p) && #[trigger] cost_at(m, p) < i32::MAX && !queue.contains(p)
        ==> relaxed_from(m, p, db, st, unit)
}

/// Every tile in `queue` lies on the map and is reached.
pub open spec fn queue_ok(m: HexMap<Tile>, queue: Seq<MapPos>) -> bool {
    forall|k: int| 0 <= k < queue.len() ==> inboard(m.spec_size(), #[trigger] queue[k]) && cost_at(m, queue[k]) < i32::MAX
}

/// The search from `start` is complete: costs are exact shortest-path
/// costs along the recorded parents, and no tile can be reached more
/// cheaply from any reached neighbour.
pub open spec fn search_done(m: HexMap<Tile>, start: MapPos, db: Db, st: InternalState, unit: Unit) -> bool {
    &&& search_tree(m, start, db, st, unit, true)
    &&& forall|p: MapPos| inboard(m.spec_size(), p) && #[trigger] cost_at(m, p) < i32::MAX
        ==> relaxed_from(m, p, db, st, unit)
}

/// Sum of the (non-negative parts of the) costs of a sequence of tiles.
pub open spec fn cost_sum(s: Seq<Tile>) -> int
    decreases s.len(),
{
    if s.len() == 0 {
        0
    } else {
        cost_sum(s.drop_last()) + if s.last().spec_cost() > 0 { s.last().spec_cost() } else { 0 }
    }
}

proof fn lemma_cost_sum_nonneg(s: Seq<Tile>)
    ensures
        cost_sum(s) >= 0,
    decreases s.len(),
{
    if s.len() > 0 {
        lemma_cost_sum_nonneg(s.drop_last());
    }
}

proof fn lemma_cost_sum_update(s: Seq<Tile>, i: int, t: Tile)
    requires
        0 <= i < s.len(),
        0 <= t.spec_cost() < s[i].spec_cost(),
    ensures
        cost_sum(s.update(i, t)) < cost_sum(s),
    decreases s.len(),
{
    let n = s.update(i, t);
    if i == s.len() - 1 {
        assert(n.drop_last() == s.drop_last());
    } else {
        assert(n.drop_last() == s.drop_last().update(i, t));
        lemma_cost_sum_update(s.drop_last(), i, t);
    }
}

/// The map a path search works on.
pub struct Pathfinder {
    queue: Vec<MapPos>,
    map: HexMap<Tile>,
}

impl Pathfinder {
    /// The recorded costs and parents.
    pub closed spec fn spec_map(&self) -> HexMap<Tile> {
        self.map
    }

    /// Tiles waiting to be relaxed.
    pub closed spec fn queue(&self) -> Seq<MapPos> {
        self.queue@
    }

    /// A pathfinder for maps of the given size, with every tile at cost
    /// zero and without parent.
    pub fn new(map_size: &Size2) -> (pf: Pathfinder)
        requires
            valid_size(*map_size),
        ensures
            pf.spec_map().wf(),
            pf.spec_map().spec_size() == *map_size,
            pf.queue().len() == 0,
            parents_descend(pf.spec_map()),
            forall|p: MapPos| inboard(*map_size, p) ==> #[trigger] cost_at(pf.spec_map(), p) == 0
                && parent_at(pf.spec_map(), p).is_none(),
    {
        let t = Tile::default();
        Pathfinder { queue: Vec::new(), map: HexMap::new(map_size, t) }
    }

    /// The recorded costs and parents.
    pub fn get_map(&self) -> (m: &HexMap<Tile>)
        ensures
            *m == self.spec_map(),
    {
        &self.map
    }

    /// Marks every tile as not reached.
    fn clean_map(&mut self)
        requires
            old(self).map.wf(),
            old(self).map.spec_size().w > 0,
        ensures
            final(self).map.wf(),
            final(self).map.spec_size() == old(self).map.spec_size(),
            final(self).queue == old(self).queue,
            forall|p: MapPos| inboard(final(self).map.spec_size(), p) ==> #[trigger] final(self).map.at(p) == (Tile {
                cost: MovePoints { n: i32::MAX },
                parent: None,
            }),
    {
        let ghost size = self.map.spec_size();
        proof { self.map.lemma_wf_size(); }
        let mut it = self.map.get_iter();
        loop
            invariant
                self.map.wf(),
                self.map.spec_size() == size,
                self.queue == old(self).queue,
                size.w > 0,
                valid_size(size),
                it.map_size() == size,
                inboard(size, it.cursor()) || it.cursor() == (MapPos { x: 0, y: size.h }),
                0 <= tile_index(size, it.cursor()) <= size.w * size.h,
                forall|p: MapPos| inboard(size, p) && tile_index(size, p) < tile_index(size, it.cursor())
                    ==> #[trigger] self.map.at(p) == (Tile { cost: MovePoints { n: i32::MAX }, parent: None }),
            ensures
                self.map.wf(),
                self.map.spec_size() == size,
                self.queue == old(self).queue,
                forall|p: MapPos| inboard(size, p) ==> #[trigger] self.map.at(p) == (Tile {
                    cost: MovePoints { n: i32::MAX },
                    parent: None,
                }),
            decreases size.w * size.h - tile_index(size, it.cursor()),
        {
            let ghost cur = it.cursor();
            proof {
                if inboard(size, cur) {
                    lemma_advance_next_index(size, cur);
                    lemma_tile_index_bounds(size, cur);
                }
            }
            match it.next() {
                Some(pos) => {
                    let t = self.map.tile_mut(&pos);
                    t.cost = max_cost();
                    t.parent = None;
                    proof {
                        assert forall|p: MapPos| inboard(size, p) && tile_index(size, p) < tile_index(size, it.cursor())
                            implies #[trigger] self.map.at(p) == (Tile { cost: MovePoints { n: i32::MAX }, parent: None }) by {
                            if p != pos {
                                lemma_tile_index_injective(size, p, pos);
                            }
                        }
                    }
                },
                None => {
                    proof {
                        assert forall|p: MapPos| inboard(size, p) implies #[trigger] self.map.at(p) == (Tile {
                            cost: MovePoints { n: i32::MAX },
                            parent: None,
                        }) by {
                            lemma_tile_index_bounds(size, p);
                        }
                    }
                    break;
                },
            }
        }
    }
}


/// Lowering costs of other tiles keeps a tile relaxed.
proof fn lemma_relaxed_mono(m: HexMap<Tile>, m2: HexMap<Tile>, p: MapPos, db: Db, st: InternalState, unit: Unit)
    requires
        m2.spec_size() == m.spec_size(),
        cost_at(m2, p) == cost_at(m, p),
        forall|q: MapPos| inboard(m.spec_size(), q) ==> #[trigger] cost_at(m2, q) <= cost_at(m, q),
        relaxed_from(m, p, db, st, unit),
    ensures
        relaxed_from(m2, p, db, st, unit),
{
    assert forall|d: Dir| #![trigger neighbour(p, d)] inboard(m2.spec_size(), neighbour(p, d)) implies cost_at(m2, neighbour(p, d))
        <= cost_at(m2, p) + tile_cost_spec(db, st, unit, neighbour(p, d)) by {
        assert(cost_at(m2, neighbour(p, d)) <= cost_at(m, neighbour(p, d)));
    }
}

/// Positions on a map can be stepped from without overflow.
proof fn lemma_inboard_steps_fit(size: Size2, p: MapPos)
    requires
        valid_size(size),
        inboard(size, p),
    ensures
        crate::types::steps_fit(p),
{
}

impl Pathfinder {
    /// Records `start` as reached at no cost and queues it.
    fn push_start_pos_to_queue(&mut self, start: MapPos)
        requires
            old(self).map.wf(),
            inboard(old(self).map.spec_size(), start),
        ensures
            final(self).map.wf(),
            final(self).map.spec_size() == old(self).map.spec_size(),
            final(self).queue@ == old(self).queue@.push(start),
            final(self).map.at(start) == (Tile { cost: MovePoints { n: 0 }, parent: None }),
            forall|p: MapPos| inboard(old(self).map.spec_size(), p) && p != start
                ==> #[trigger] final(self).map.at(p) == old(self).map.at(p),
    {
        self.map.set_tile(&start, Tile { cost: MovePoints { n: 0 }, parent: None });
        self.queue.push(start);
    }

    /// Lowers the cost of `neighbour_pos` (and makes `from_pos` its
    /// parent) if it is cheaper to enter from `from_pos`.
    fn process_neighbour_pos(
        &mut self,
        db: &Db,
        state: &InternalState,
        unit: &Unit,
        from_pos: &MapPos,
        neighbour_pos: &MapPos,
        Ghost(start): Ghost<MapPos>,
        Ghost(dir): Ghost<Dir>,
    )
        requires
            cost_context(*db, *state, *unit),
            old(self).map.wf(),
            old(self).map.spec_size() == state.spec_map().spec_size(),
            search_tree(old(self).map, start, *db, *state, *unit, false),
            queue_ok(old(self).map, old(self).queue@),
            inboard(old(self).map.spec_size(), *from_pos),
            cost_at(old(self).map, *from_pos) < i32::MAX,
            *neighbour_pos == neighbour(*from_pos, dir),
            inboard(old(self).map.spec_size(), *neighbour_pos),
        ensures
            final(self).map.wf(),
            final(self).map.spec_size() == old(self).map.spec_size(),
            search_tree(final(self).map, start, *db, *state, *unit, false),
            queue_ok(final(self).map, final(self).queue@),
            cost_at(final(self).map, *neighbour_pos) <= cost_at(final(self).map, *from_pos)
                + tile_cost_spec(*db, *state, *unit, *neighbour_pos),
            cost_at(final(self).map, *from_pos) == cost_at(old(self).map, *from_pos),
            forall|p: MapPos| inboard(old(self).map.spec_size(), p) && p != *neighbour_pos
                ==> #[trigger] final(self).map.at(p) == old(self).map.at(p),
            cost_at(final(self).map, *neighbour_pos) <= cost_at(old(self).map, *neighbour_pos),
            (final(self).queue@ == old(self).queue@ && final(self).map == old(self).map) || (
                final(self).queue@ == old(self).queue@.push(*neighbour_pos)
                && cost_sum(final(self).map.cells()) < cost_sum(old(self).map.cells())
                && cost_at(final(self).map, *neighbour_pos) < cost_at(old(self).map, *neighbour_pos)),
    {
        let ghost size = self.map.spec_size();
        let ghost m0 = self.map;
        proof {
            self.map.lemma_wf_size();
            lemma_tile_cost_bounds(*db, *state, *unit, *neighbour_pos);
            lemma_inboard_steps_fit(size, *from_pos);
            lemma_inboard_steps_fit(size, *neighbour_pos);
            lemma_neighbour_opposite(*from_pos, dir);
        }
        let old_cost = self.map.tile(from_pos).cost;
        let tile_cost = tile_cost(db, state, unit, neighbour_pos);
        let tile = *self.map.tile(neighbour_pos);
        if tile_cost.n <= i32::MAX - old_cost.n {
            let new_cost = old_cost.n + tile_cost.n;
            if tile.cost.n > new_cost {
                let parent = Dir::get_dir_from_to(neighbour_pos, from_pos);
                let new_tile = Tile { cost: MovePoints { n: new_cost }, parent: Some(parent) };
                proof {
                    m0.lemma_at_cells(*neighbour_pos);
                    lemma_cost_sum_update(m0.cells(), tile_index(size, *neighbour_pos), new_tile);
                }
                self.map.set_tile(neighbour_pos, new_tile);
                self.queue.push(*neighbour_pos);
                proof {
                    let m = self.map;
                    assert(*neighbour_pos != start);
                    assert forall|p: MapPos| inboard(size, p) && (#[trigger] parent_at(m, p)).is_some() implies {
                        let q = neighbour(p, parent_at(m, p)->0);
                        &&& inboard(size, q)
                        &&& cost_at(m, p) < i32::MAX
                        &&& cost_at(m, p) >= cost_at(m, q) + tile_cost_spec(*db, *state, *unit, p)
                    } by {
                        if p != *neighbour_pos {
                            assert(m.at(p) == m0.at(p));
                            let q = neighbour(p, parent_at(m, p)->0);
                            assert(parent_at(m0, p).is_some());
                            if q != *neighbour_pos {
                                assert(m.at(q) == m0.at(q));
                            }
                        }
                    }
                    assert forall|k: int| 0 <= k < self.queue@.len() implies inboard(size, #[trigger] self.queue@[k])
                        && cost_at(m, self.queue@[k]) < i32::MAX by {
                        if k < old(self).queue@.len() {
                            assert(self.queue@[k] == old(self).queue@[k]);
                            if self.queue@[k] != *neighbour_pos {
                                assert(m.at(self.queue@[k]) == m0.at(self.queue@[k]));
                            }
                        }
                    }
                    assert(cost_at(m0, *from_pos) >= 0);
                    assert(m.at(*neighbour_pos) == new_tile);
                    assert forall|p: MapPos| inboard(size, p) implies 0 <= #[trigger] cost_at(m, p) by {
                        if p != *neighbour_pos {
                            assert(m.at(p) == m0.at(p));
                            assert(cost_at(m, p) == cost_at(m0, p));
                        }
                    }
                    assert forall|p: MapPos| inboard(size, p) && p != start && parent_at(m, p).is_none()
                        implies #[trigger] cost_at(m, p) == i32::MAX by {
                        if p != *neighbour_pos {
                            assert(m.at(p) == m0.at(p));
                            assert(cost_at(m, p) == cost_at(m0, p));
                            assert(parent_at(m, p) == parent_at(m0, p));
                        }
                    }
                }
            }
        }
    }
}


impl Pathfinder {
    /// Relaxes the edges from `pos` to each of its neighbours on the map.
    fn try_to_push_neighbours(
        &mut self,
        db: &Db,
        state: &InternalState,
        unit: &Unit,
        pos: MapPos,
        Ghost(start): Ghost<MapPos>,
    )
        requires
            cost_context(*db, *state, *unit),
            old(self).map.wf(),
            old(self).map.spec_size() == state.spec_map().spec_size(),
            search_tree(old(self).map, start, *db, *state, *unit, false),
            queue_ok(old(self).map, old(self).queue@),
            inboard(old(self).map.spec_size(), pos),
            cost_at(old(self).map, pos) < i32::MAX,
        ensures
            final(self).map.wf(),
            final(self).map.spec_size() == old(self).map.spec_size(),
            search_tree(final(self).map, start, *db, *state, *unit, false),
            queue_ok(final(self).map, final(self).queue@),
            relaxed_from(final(self).map, pos, *db, *state, *unit),
            cost_at(final(self).map, pos) == cost_at(old(self).map, pos),
            forall|p: MapPos| inboard(old(self).map.spec_size(), p) ==> #[trigger] cost_at(final(self).map, p)
                <= cost_at(old(self).map, p),
            forall|p: MapPos| inboard(old(self).map.spec_size(), p) && #[trigger] cost_at(final(self).map, p)
                < cost_at(old(self).map, p) ==> final(self).queue@.contains(p),
            final(self).queue@.len() >= old(self).queue@.len(),
            final(self).queue@.subrange(0, old(self).queue@.len() as int) == old(self).queue@,
            (final(self).queue@ == old(self).queue@ && cost_sum(final(self).map.cells()) == cost_sum(
                old(self).map.cells(),
            )) || cost_sum(final(self).map.cells()) < cost_sum(old(self).map.cells()),
    {
        let ghost size = self.map.spec_size();
        let ghost m0 = self.map;
        let ghost q0 = self.queue@;
        proof {
            self.map.lemma_wf_size();
            lemma_inboard_steps_fit(size, pos);
        }
        let mut it = dirs();
        loop
            invariant
                cost_context(*db, *state, *unit),
                self.map.wf(),
                valid_size(size),
                self.map.spec_size() == size,
                size == state.spec_map().spec_size(),
                inboard(size, pos),
                crate::types::steps_fit(pos),
                search_tree(self.map, start, *db, *state, *unit, false),
                queue_ok(self.map, self.queue@),
                cost_at(self.map, pos) == cost_at(m0, pos),
                cost_at(m0, pos) < i32::MAX,
                0 <= it.yielded() <= 6,
                forall|j: int| 0 <= j < it.yielded() && inboard(size, neighbour(pos, #[trigger] dir_of_index(j)))
                    ==> cost_at(self.map, neighbour(pos, dir_of_index(j))) <= cost_at(self.map, pos)
                    + tile_cost_spec(*db, *state, *unit, neighbour(pos, dir_of_index(j))),
                forall|p: MapPos| inboard(size, p) ==> #[trigger] cost_at(self.map, p) <= cost_at(m0, p),
                forall|p: MapPos| inboard(size, p) && #[trigger] cost_at(self.map, p) < cost_at(m0, p)
                    ==> self.queue@.contains(p),
                self.queue@.len() >= q0.len(),
                self.queue@.subrange(0, q0.len() as int) == q0,
                (self.queue@ == q0 && cost_sum(self.map.cells()) == cost_sum(m0.cells())) || cost_sum(
                    self.map.cells(),
                ) < cost_sum(m0.cells()),
            ensures
                self.map.wf(),
                self.map.spec_size() == size,
                search_tree(self.map, start, *db, *state, *unit, false),
                queue_ok(self.map, self.queue@),
                cost_at(self.map, pos) == cost_at(m0, pos),
                forall|j: int| 0 <= j < 6 && inboard(size, neighbour(pos, #[trigger] dir_of_index(j)))
                    ==> cost_at(self.map, neighbour(pos, dir_of_index(j))) <= cost_at(self.map, pos)
                    + tile_cost_spec(*db, *state, *unit, neighbour(pos, dir_of_index(j))),
                forall|p: MapPos| inboard(size, p) ==> #[trigger] cost_at(self.map, p) <= cost_at(m0, p),
                forall|p: MapPos| inboard(size, p) && #[trigger] cost_at(self.map, p) < cost_at(m0, p)
                    ==> self.queue@.contains(p),
                self.queue@.len() >= q0.len(),
                self.queue@.subrange(0, q0.len() as int) == q0,
                (self.queue@ == q0 && cost_sum(self.map.cells()) == cost_sum(m0.cells())) || cost_sum(
                    self.map.cells(),
                ) < cost_sum(m0.cells()),
            decreases 6 - it.yielded(),
        {
            let ghost y0 = it.yielded();
            match it.next() {
                Some(dir) => {
                    let neighbour_pos = Dir::get_neighbour_pos(&pos, &dir);
                    if self.map.is_inboard(&neighbour_pos) {
                        let ghost m1 = self.map;
                        let ghost q1 = self.queue@;
                        self.process_neighbour_pos(db, state, unit, &pos, &neighbour_pos, Ghost(start), Ghost(dir));
                        proof {
                            let m2 = self.map;
                            assert forall|p: MapPos| inboard(size, p) implies #[trigger] cost_at(m2, p) <= cost_at(m0, p) by {
                                if p != neighbour_pos {
                                    assert(m2.at(p) == m1.at(p));
                                    assert(cost_at(m1, p) <= cost_at(m0, p));
                                } else {
                                    assert(cost_at(m1, p) <= cost_at(m0, p));
                                }
                            }
                            assert forall|p: MapPos| inboard(size, p) && #[trigger] cost_at(m2, p) < cost_at(m0, p)
                                implies self.queue@.contains(p) by {
                                if p != neighbour_pos {
                                    assert(m2.at(p) == m1.at(p));
                                    assert(cost_at(m1, p) < cost_at(m0, p));
                                    assert(q1.contains(p));
                                    let k = choose|k: int| 0 <= k < q1.len() && q1[k] == p;
                                    assert(self.queue@[k] == p);
                                } else {
                                    if self.queue@ == q1 {
                                        assert(cost_at(m1, p) < cost_at(m0, p));
                                        assert(q1.contains(p));
                                    } else {
                                        assert(self.queue@[q1.len() as int] == p);
                                    }
                                }
                            }
                            assert forall|j: int| 0 <= j < it.yielded() && inboard(size, neighbour(pos, #[trigger] dir_of_index(j)))
                                implies cost_at(m2, neighbour(pos, dir_of_index(j))) <= cost_at(m2, pos)
                                + tile_cost_spec(*db, *state, *unit, neighbour(pos, dir_of_index(j))) by {
                                let q = neighbour(pos, dir_of_index(j));
                                if j < y0 {
                                    if q != neighbour_pos {
                                        assert(m2.at(q) == m1.at(q));
                                    }
                                }
                            }
                            assert(self.queue@.subrange(0, q0.len() as int) == q0) by {
                                assert(q1.subrange(0, q0.len() as int) == q0);
                                if self.queue@ != q1 {
                                    assert(self.queue@.subrange(0, q0.len() as int) =~= q1.subrange(0, q0.len() as int));
                                }
                            }
                        }
                    } else {
                        proof {
                            assert(dir == dir_of_index(y0));
                        }
                    }
                },
                None => {
                    break;
                },
            }
        }
        proof {
            assert forall|d: Dir| #![trigger neighbour(pos, d)] inboard(self.map.spec_size(), neighbour(pos, d))
                implies cost_at(self.map, neighbour(pos, d)) <= cost_at(self.map, pos)
                + tile_cost_spec(*db, *state, *unit, neighbour(pos, d)) by {
                crate::dir::lemma_dir_index_roundtrip(d, 0);
                assert(dir_of_index(crate::dir::dir_index(d)) == d);
            }
        }
    }
}


impl Pathfinder {
    /// Computes, for every tile, the cheapest cost for `unit` of reaching
    /// it from its position, and the direction it is reached from.
    pub fn fill_map(&mut self, db: &Db, state: &InternalState, unit: &Unit)
        requires
            cost_context(*db, *state, *unit),
            old(self).spec_map().wf(),
            old(self).spec_map().spec_size() == state.spec_map().spec_size(),
            inboard(old(self).spec_map().spec_size(), unit.pos),
            old(self).queue().len() == 0,
        ensures
            final(self).spec_map().wf(),
            final(self).spec_map().spec_size() == old(self).spec_map().spec_size(),
            final(self).queue().len() == 0,
            search_done(final(self).spec_map(), unit.pos, *db, *state, *unit),
    {
        let ghost size = self.map.spec_size();
        let ghost start = unit.pos;
        self.clean_map();
        self.push_start_pos_to_queue(unit.pos);
        proof {
            let m = self.map;
            assert forall|p: MapPos| inboard(size, p) implies 0 <= #[trigger] cost_at(m, p) by {}
            assert forall|p: MapPos| inboard(size, p) && p != start && parent_at(m, p).is_none()
                implies #[trigger] cost_at(m, p) == i32::MAX by {}
            assert forall|p: MapPos| inboard(size, p) && (#[trigger] parent_at(m, p)).is_some()
                implies false by {}
            assert(self.queue@[0] == start);
            assert forall|p: MapPos| inboard(size, p) && #[trigger] cost_at(m, p) < i32::MAX && !self.queue@.contains(p)
                implies relaxed_from(m, p, *db, *state, *unit) by {
                if p != start {
                    assert(cost_at(m, p) == i32::MAX);
                }
            }
        }
        while self.queue.len() != 0
            invariant
                cost_context(*db, *state, *unit),
                self.map.wf(),
                self.map.spec_size() == size,
                size == state.spec_map().spec_size(),
                search_tree(self.map, start, *db, *state, *unit, false),
                queue_ok(self.map, self.queue@),
                relaxed_outside(self.map, self.queue@, *db, *state, *unit),
            decreases cost_sum(self.map.cells()), self.queue@.len(),
        {
            let ghost m0 = self.map;
            let ghost q0 = self.queue@;
            let pos = self.queue.remove(0);
            proof {
                assert(q0[0] == pos);
                assert forall|k: int| 0 <= k < self.queue@.len() implies inboard(size, #[trigger] self.queue@[k])
                    && cost_at(self.map, self.queue@[k]) < i32::MAX by {
                    assert(self.queue@[k] == q0[k + 1]);
                }
                lemma_cost_sum_nonneg(m0.cells());
            }
            let ghost q1 = self.queue@;
            self.try_to_push_neighbours(db, state, unit, pos, Ghost(start));
            proof {
                lemma_cost_sum_nonneg(self.map.cells());
                let m = self.map;
                assert forall|p: MapPos| inboard(size, p) && #[trigger] cost_at(m, p) < i32::MAX && !self.queue@.contains(p)
                    implies relaxed_from(m, p, *db, *state, *unit) by {
                    if p != pos {
                        assert(cost_at(m, p) == cost_at(m0, p));
                        assert(!q1.contains(p)) by {
                            if q1.contains(p) {
                                let k = choose|k: int| 0 <= k < q1.len() && q1[k] == p;
                                assert(self.queue@.subrange(0, q1.len() as int)[k] == p);
                            }
                        }
                        assert(!q0.contains(p)) by {
                            if q0.contains(p) {
                                let k = choose|k: int| 0 <= k < q0.len() && q0[k] == p;
                                assert(k != 0);
                                assert(q1[k - 1] == p);
                            }
                        }
                        lemma_relaxed_mono(m0, m, p, *db, *state, *unit);
                    }
                }
            }
        }
        proof {
            let m = self.map;
            assert forall|p: MapPos| inboard(size, p) && #[trigger] cost_at(m, p) < i32::MAX
                implies relaxed_from(m, p, *db, *state, *unit) by {
                assert(!self.queue@.contains(p));
            }
            assert forall|p: MapPos| inboard(size, p) && (#[trigger] parent_at(m, p)).is_some() implies {
                let q = neighbour(p, parent_at(m, p)->0);
                &&& inboard(size, q)
                &&& cost_at(m, p) < i32::MAX
                &&& cost_at(m, p) == cost_at(m, q) + tile_cost_spec(*db, *state, *unit, p)
            } by {
                let d = parent_at(m, p)->0;
                let q = neighbour(p, d);
                lemma_tile_cost_bounds(*db, *state, *unit, p);
                self.map.lemma_wf_size();
                lemma_inboard_steps_fit(size, p);
                lemma_inboard_steps_fit(size, q);
                crate::dir::lemma_neighbour_opposite(p, d);
                assert(neighbour(q, crate::dir::opposite(d)) == p);
                assert(cost_at(m, q) < i32::MAX);
                assert(relaxed_from(m, q, *db, *state, *unit));
                assert(cost_at(m, neighbour(q, crate::dir::opposite(d))) <= cost_at(m, q)
                    + tile_cost_spec(*db, *state, *unit, neighbour(q, crate::dir::opposite(d))));
            }
        }
    }
}


/// Costs are non-negative and every recorded parent lies on the map and
/// has a smaller cost.
pub open spec fn parents_descend(m: HexMap<Tile>) -> bool {
    &&& forall|p: MapPos| inboard(m.spec_size(), p) ==> 0 <= #[trigger] cost_at(m, p)
    &&& forall|p: MapPos| inboard(m.spec_size(), p) && (#[trigger] parent_at(m, p)).is_some() ==> {
        let q = neighbour(p, parent_at(m, p)->0);
        inboard(m.spec_size(), q) && cost_at(m, q) < cost_at(m, p)
    }
}

/// The tiles from `p` back along the recorded parents, up to (without)
/// the first tile of cost zero; `None` where a tile of positive cost has
/// no parent.
pub open spec fn back_chain(m: HexMap<Tile>, p: MapPos) -> Option<Seq<MapPos>>
    decreases cost_at(m, p),
    when inboard(m.spec_size(), p) && parents_descend(m)
{
    if cost_at(m, p) <= 0 {
        Some(Seq::empty())
    } else {
        match parent_at(m, p) {
            None => None,
            Some(d) => match back_chain(m, neighbour(p, d)) {
                Some(s) => Some(seq![p] + s),
                None => None,
            },
        }
    }
}

/// `s` in reverse order.
pub open spec fn reversed(s: Seq<MapPos>) -> Seq<MapPos> {
    Seq::new(s.len(), |i: int| s[s.len() - 1 - i])
}

/// The path `get_path` gives for `destination`.
pub open spec fn path_spec(m: HexMap<Tile>, destination: MapPos) -> Option<Seq<MapPos>> {
    if cost_at(m, destination) == i32::MAX {
        None
    } else {
        match back_chain(m, destination) {
            Some(s) => if s.len() > 0 {
                Some(reversed(s))
            } else {
                None
            },
            None => None,
        }
    }
}

/// A completed search satisfies the conditions for reading paths.
pub proof fn lemma_search_done_descend(m: HexMap<Tile>, start: MapPos, db: Db, st: InternalState, unit: Unit)
    requires
        cost_context(db, st, unit),
        search_done(m, start, db, st, unit),
    ensures
        parents_descend(m),
{
    assert forall|p: MapPos| inboard(m.spec_size(), p) && (#[trigger] parent_at(m, p)).is_some() implies {
        let q = neighbour(p, parent_at(m, p)->0);
        inboard(m.spec_size(), q) && cost_at(m, q) < cost_at(m, p)
    } by {
        lemma_tile_cost_bounds(db, st, unit, p);
    }
}

impl Pathfinder {
    /// The path from the searched unit's position to `destination` along
    /// the recorded parents, without the starting tile; `None` where the
    /// destination is not reached or is the start.
    pub fn get_path(&self, destination: &MapPos) -> (r: Option<Vec<MapPos>>)
        requires
            self.spec_map().wf(),
            parents_descend(self.spec_map()),
            inboard(self.spec_map().spec_size(), *destination),
        ensures
            match r {
                Some(v) => path_spec(self.spec_map(), *destination) == Some(v@),
                None => path_spec(self.spec_map(), *destination).is_none(),
            },
    {
        let ghost m = self.map;
        let mut path: Vec<MapPos> = Vec::new();
        let mut pos = *destination;
        if self.map.tile(&pos).cost.n == max_cost().n {
            return None;
        }
        while self.map.tile(&pos).cost.n != 0
            invariant
                self.map == m,
                m.wf(),
                parents_descend(m),
                inboard(m.spec_size(), pos),
                cost_at(m, *destination) != i32::MAX,
                back_chain(m, *destination) == match back_chain(m, pos) {
                    Some(s) => Some(path@ + s),
                    None => None,
                },
            decreases cost_at(m, pos),
        {
            let parent_dir = match self.map.tile(&pos).parent() {
                Some(dir) => *dir,
                None => {
                    return None;
                },
            };
            proof {
                assert(back_chain(m, pos) == match back_chain(m, neighbour(pos, parent_dir)) {
                    Some(s) => Some(seq![pos] + s),
                    None => None,
                });
                match back_chain(m, neighbour(pos, parent_dir)) {
                    Some(s) => {
                        assert(path@ + (seq![pos] + s) == path@.push(pos) + s);
                    },
                    None => {},
                }
            }
            path.push(pos);
            proof {
                m.lemma_wf_size();
                lemma_inboard_steps_fit(m.spec_size(), pos);
            }
            pos = Dir::get_neighbour_pos(&pos, &parent_dir);
        }
        proof {
            assert(back_chain(m, pos) == Some(Seq::<MapPos>::empty()));
            assert(path@ + Seq::<MapPos>::empty() == path@);
        }
        if path.len() == 0 {
            return None;
        }
        let mut result: Vec<MapPos> = Vec::new();
        let mut i: usize = path.len();
        while i > 0
            invariant
                0 <= i <= path@.len(),
                result@.len() == path@.len() - i,
                forall|k: int| 0 <= k < result@.len() ==> result@[k] == path@[path@.len() - 1 - k],
            decreases i,
        {
            i = i - 1;
            result.push(path[i]);
        }
        proof {
            assert(result@ =~= reversed(path@));
        }
        Some(result)
    }
}


/// Prepending a tile to a back chain appends its cost to the path's cost.
proof fn lemma_reversed_cost(db: Db, st: InternalState, unit: Unit, p: MapPos, t: Seq<MapPos>)
    ensures
        path_cost_spec(db, st, unit, reversed(seq![p] + t)) == path_cost_spec(db, st, unit, reversed(t))
            + tile_cost_spec(db, st, unit, p),
{
    let s = seq![p] + t;
    assert(reversed(s).drop_last() =~= reversed(t));
    assert(reversed(s).last() == p);
    assert(reversed(s).len() > 0);
}

/// A completed search tree whose parents descend (hidden to keep proofs
/// about chains small).
#[verifier::opaque]
spec fn done_tree(m: HexMap<Tile>, start: MapPos, db: Db, st: InternalState, unit: Unit) -> bool {
    search_tree(m, start, db, st, unit, true) && parents_descend(m)
}

/// One step back from a reached tile other than the start.
proof fn lemma_done_tree_step(m: HexMap<Tile>, start: MapPos, db: Db, st: InternalState, unit: Unit, p: MapPos)
    requires
        cost_context(db, st, unit),
        done_tree(m, start, db, st, unit),
        inboard(m.spec_size(), p),
        0 < cost_at(m, p) < i32::MAX,
    ensures
        parents_descend(m),
        parent_at(m, p) is Some,
        inboard(m.spec_size(), neighbour(p, parent_at(m, p)->0)),
        cost_at(m, p) == cost_at(m, neighbour(p, parent_at(m, p)->0)) + tile_cost_spec(db, st, unit, p),
        cost_at(m, neighbour(p, parent_at(m, p)->0)) == 0 ==> neighbour(p, parent_at(m, p)->0) == start,
        back_chain(m, p) == match back_chain(m, neighbour(p, parent_at(m, p)->0)) {
            Some(t) => Some(seq![p] + t),
            None => None,
        },
{
    reveal(done_tree);
    assert(p != start);
    assert(parent_at(m, p).is_some());
    let q = neighbour(p, parent_at(m, p)->0);
    if cost_at(m, q) == 0 && q != start {
        if parent_at(m, q).is_some() {
            lemma_tile_cost_bounds(db, st, unit, q);
        }
        assert(cost_at(m, q) == i32::MAX);
    }
}

/// Every tile of a back chain steps to the next one through its parent;
/// the last one's parent is the start.
pub open spec fn chain_ok(m: HexMap<Tile>, start: MapPos, s: Seq<MapPos>) -> bool {
    &&& s.len() >= 1
    &&& forall|i: int| 0 <= i < s.len() ==> inboard(m.spec_size(), #[trigger] s[i]) && parent_at(m, s[i]) is Some
    &&& forall|i: int| 0 <= i < s.len() - 1 ==> #[trigger] s[i + 1] == neighbour(s[i], parent_at(m, s[i])->0)
    &&& neighbour(s.last(), parent_at(m, s.last())->0) == start
}

/// The back chain of a reached tile in a completed search leads to the
/// start through the recorded parents.
proof fn lemma_back_chain(m: HexMap<Tile>, start: MapPos, db: Db, st: InternalState, unit: Unit, p: MapPos)
    requires
        cost_context(db, st, unit),
        done_tree(m, start, db, st, unit),
        inboard(m.spec_size(), p),
        0 < cost_at(m, p) < i32::MAX,
    ensures
        parents_descend(m),
        back_chain(m, p) is Some,
        back_chain(m, p)->0[0] == p,
        chain_ok(m, start, back_chain(m, p)->0),
        path_cost_spec(db, st, unit, reversed(back_chain(m, p)->0)) == cost_at(m, p),
    decreases cost_at(m, p),
{
    lemma_done_tree_step(m, start, db, st, unit, p);
    let q = neighbour(p, parent_at(m, p)->0);
    lemma_tile_cost_bounds(db, st, unit, p);
    if cost_at(m, q) == 0 {
        assert(back_chain(m, q) == Some(Seq::<MapPos>::empty()));
        let s = seq![p];
        assert(seq![p] + Seq::<MapPos>::empty() =~= s);
        assert(back_chain(m, p) == Some(s));
        lemma_reversed_cost(db, st, unit, p, Seq::<MapPos>::empty());
        assert(reversed(Seq::<MapPos>::empty()) =~= Seq::<MapPos>::empty());
    } else {
        lemma_back_chain(m, start, db, st, unit, q);
        let t = back_chain(m, q)->0;
        let s = seq![p] + t;
        assert(back_chain(m, p) == Some(s));
        assert(s[0] == p);
        assert(t[0] == q);
        assert(s.last() == t.last());
        assert forall|i: int| 0 <= i < s.len() implies inboard(m.spec_size(), #[trigger] s[i])
            && parent_at(m, s[i]) is Some by {
            if i > 0 {
                assert(s[i] == t[i - 1]);
            }
        }
        assert forall|i: int| 0 <= i < s.len() - 1 implies #[trigger] s[i + 1] == neighbour(s[i], parent_at(m, s[i])->0) by {
            if i == 0 {
                assert(s[1] == t[0]);
            } else {
                let k = i - 1;
                assert(s[i] == t[k]);
                assert(s[i + 1] == t[k + 1]);
                assert(0 <= k < t.len() - 1);
                assert(t[k + 1] == neighbour(t[k], parent_at(m, t[k])->0));
            }
        }
        lemma_reversed_cost(db, st, unit, p, t);
    }
}

/// Law: after a completed search, every tile that is reached at a
/// positive cost has a path: it ends at the tile, starts next to the
/// start, steps from neighbour to neighbour over the map, and its cost
/// for the unit is the recorded cost of the tile.
pub proof fn lemma_search_path(m: HexMap<Tile>, start: MapPos, db: Db, st: InternalState, unit: Unit, dest: MapPos)
    requires
        cost_context(db, st, unit),
        m.wf(),
        search_done(m, start, db, st, unit),
        m.spec_size() == st.spec_map().spec_size(),
        inboard(m.spec_size(), dest),
        0 < cost_at(m, dest) < i32::MAX,
    ensures
        path_spec(m, dest) is Some,
        ({
            let path = path_spec(m, dest)->0;
            &&& path.len() >= 1
            &&& path.last() == dest
            &&& is_neighbour(start, path[0])
            &&& forall|i: int| 0 <= i < path.len() - 1 ==> is_neighbour(#[trigger] path[i], path[i + 1])
            &&& path_inboard(st, path)
            &&& path_cost_spec(db, st, unit, path) == cost_at(m, dest)
        }),
{
    lemma_search_done_descend(m, start, db, st, unit);
    reveal(done_tree);
    lemma_back_chain(m, start, db, st, unit, dest);
    let s = back_chain(m, dest)->0;
    let path = reversed(s);
    assert(path_spec(m, dest) == Some(path));
    assert(path[0] == s.last());
    assert(path.last() == s[0]);
    m.lemma_wf_size();
    let size = m.spec_size();
    assert(is_neighbour(start, path[0])) by {
        let l = s.last();
        assert(inboard(size, s[s.len() - 1]));
        let d = parent_at(m, l)->0;
        lemma_inboard_steps_fit(size, l);
        lemma_neighbour_opposite(l, d);
    }
    assert forall|i: int| 0 <= i < path.len() - 1 implies is_neighbour(#[trigger] path[i], path[i + 1]) by {
        let j = s.len() - 2 - i;
        assert(path[i] == s[j + 1]);
        assert(path[i + 1] == s[j]);
        assert(inboard(size, s[j]));
        let d = parent_at(m, s[j])->0;
        assert(s[j + 1] == neighbour(s[j], d));
        lemma_inboard_steps_fit(size, s[j]);
        lemma_neighbour_opposite(s[j], d);
    }
    assert forall|i: int| 0 <= i < path.len() implies inboard(st.spec_map().spec_size(), #[trigger] path[i]) by {
        assert(path[i] == s[s.len() - 1 - i]);
        assert(inboard(size, s[s.len() - 1 - i]));
    }
}

/// Law: after a completed search from `start`, the path read back for a
/// tile on the map is missing exactly where the tile was not reached or is
/// the start; otherwise it is the walk of `lemma_search_path`, whose cost
/// is the tile's recorded cost.
pub proof fn lemma_path_exists_exactly(m: HexMap<Tile>, start: MapPos, db: Db, st: InternalState, unit: Unit, dest: MapPos)
    requires
        cost_context(db, st, unit),
        m.wf(),
        search_done(m, start, db, st, unit),
        m.spec_size() == st.spec_map().spec_size(),
        inboard(m.spec_size(), dest),
    ensures
        path_spec(m, dest) is None <==> cost_at(m, dest) == i32::MAX || dest == start,
        path_spec(m, dest) matches Some(path) ==> path_cost_spec(db, st, unit, path) == cost_at(m, dest)
            && path.last() == dest && is_neighbour(start, path[0]),
{
    lemma_search_done_descend(m, start, db, st, unit);
    lemma_cost_at_fits(m, dest);
    if dest == start {
        assert(back_chain(m, dest) == Some(Seq::<MapPos>::empty()));
    } else if cost_at(m, dest) != i32::MAX {
        let d = parent_at(m, dest)->0;
        lemma_tile_cost_bounds(db, st, unit, dest);
        assert(cost_at(m, neighbour(dest, d)) >= 0);
        lemma_search_path(m, start, db, st, unit, dest);
    }
}

proof fn lemma_prefix_cost_bound(
    m: HexMap<Tile>,
    start: MapPos,
    db: Db,
    st: InternalState,
    unit: Unit,
    w: Seq<MapPos>,
    k: int,
)
    requires
        cost_context(db, st, unit),
        m.wf(),
        search_done(m, start, db, st, unit),
        m.spec_size() == st.spec_map().spec_size(),
        w.len() >= 1,
        is_neighbour(start, w[0]),
        forall|i: int| 0 <= i < w.len() - 1 ==> is_neighbour(#[trigger] w[i], w[i + 1]),
        path_inboard(st, w),
        path_cost_spec(db, st, unit, w) < i32::MAX,
        0 <= k < w.len(),
    ensures
        cost_at(m, w[k]) <= path_cost_spec(db, st, unit, w.take(k + 1)),
    decreases k,
{
    let size = m.spec_size();
    assert(w.take(k + 1).drop_last() == w.take(k));
    assert(w.take(k + 1).last() == w[k]);
    lemma_path_cost_monotone(db, st, unit, w, k + 1, w.len() as int);
    assert(w.take(w.len() as int) == w);
    assert(inboard(st.spec_map().spec_size(), w[k]));
    if k == 0 {
        let d = choose|d: Dir| neighbour(start, d) == w[0];
        assert(cost_at(m, start) == 0);
        assert(relaxed_from(m, start, db, st, unit));
        assert(inboard(size, neighbour(start, d)));
        assert(w.take(0).len() == 0);
    } else {
        lemma_prefix_cost_bound(m, start, db, st, unit, w, k - 1);
        lemma_path_cost_monotone(db, st, unit, w, k, w.len() as int);
        let prev = w[k - 1];
        assert(is_neighbour(w[k - 1], w[k]));
        let d = choose|d: Dir| neighbour(prev, d) == w[k];
        assert(inboard(st.spec_map().spec_size(), prev));
        assert(cost_at(m, prev) < i32::MAX);
        assert(relaxed_from(m, prev, db, st, unit));
        assert(inboard(size, neighbour(prev, d)));
    }
}

/// Law: after a completed search, no walk from the start costs less than
/// the cost recorded for the tile it ends on; with `lemma_search_path`,
/// the path the search records to a tile is a cheapest one.
pub proof fn lemma_search_optimal(
    m: HexMap<Tile>,
    start: MapPos,
    db: Db,
    st: InternalState,
    unit: Unit,
    w: Seq<MapPos>,
)
    requires
        cost_context(db, st, unit),
        m.wf(),
        search_done(m, start, db, st, unit),
        m.spec_size() == st.spec_map().spec_size(),
        w.len() >= 1,
        is_neighbour(start, w[0]),
        forall|i: int| 0 <= i < w.len() - 1 ==> is_neighbour(#[trigger] w[i], w[i + 1]),
        path_inboard(st, w),
        path_cost_spec(db, st, unit, w) < i32::MAX,
    ensures
        cost_at(m, w.last()) <= path_cost_spec(db, st, unit, w),
{
    lemma_prefix_cost_bound(m, start, db, st, unit, w, w.len() - 1);
    assert(w.take(w.len() as int) == w);
}

/// Law: after a completed search, the path recorded to a tile reached at
/// a positive cost is no dearer than any other walk from the start to it.
pub proof fn lemma_recorded_path_cheapest(
    m: HexMap<Tile>,
    start: MapPos,
    db: Db,
    st: InternalState,
    unit: Unit,
    dest: MapPos,
    w: Seq<MapPos>,
)
    requires
        cost_context(db, st, unit),
        m.wf(),
        search_done(m, start, db, st, unit),
        m.spec_size() == st.spec_map().spec_size(),
        inboard(m.spec_size(), dest),
        0 < cost_at(m, dest) < i32::MAX,
        w.len() >= 1,
        w.last() == dest,
        is_neighbour(start, w[0]),
        forall|i: int| 0 <= i < w.len() - 1 ==> is_neighbour(#[trigger] w[i], w[i + 1]),
        path_inboard(st, w),
        path_cost_spec(db, st, unit, w) < i32::MAX,
    ensures
        path_spec(m, dest) is Some,
        path_cost_spec(db, st, unit, path_spec(m, dest)->0) <= path_cost_spec(db, st, unit, w),
{
    lemma_search_path(m, start, db, st, unit, dest);
    lemma_search_optimal(m, start, db, st, unit, w);
}

} // verus!
