//! Rectangular hexagonal maps, iteration over tiles and hex distance.

use vstd::prelude::*;
use crate::types::{ZInt, Size2, MapPos, coords_fit, COORD_LIMIT};
use crate::dir::{Dir, DirIter, dirs, dir_of_index, neighbour};

verus! {

/// Kind of ground of a tile.
#[derive(Clone, Copy, Debug, PartialEq, Eq, Structural)]
pub enum Terrain {
    Plain,
    Trees,
}

/// `pos` lies on a map of the given size.
pub open spec fn inboard(size: Size2, pos: MapPos) -> bool {
    0 <= pos.x && 0 <= pos.y && pos.x < size.w && pos.y < size.h
}

/// Index of the tile at `pos` in the row-major tile vector.
pub open spec fn tile_index(size: Size2, pos: MapPos) -> int {
    size.w * pos.y + pos.x
}

/// Number of tiles of a map of the given size.
pub open spec fn tiles_count(size: Size2) -> int {
    size.w * size.h
}

/// A size whose tile count is representable.
pub open spec fn valid_size(size: Size2) -> bool {
    0 <= size.w && 0 <= size.h && size.w * size.h <= i32::MAX
}

/// A size small enough that the coordinates of its tiles stay within
/// `COORD_LIMIT`.
pub open spec fn small_size(size: Size2) -> bool {
    valid_size(size) && size.w <= COORD_LIMIT && size.h <= COORD_LIMIT
}

pub proof fn lemma_tile_index_bounds(size: Size2, pos: MapPos)
    requires
        valid_size(size),
        inboard(size, pos),
    ensures
        0 <= tile_index(size, pos) < tiles_count(size),
{
    let w = size.w as int;
    let h = size.h as int;
    let x = pos.x as int;
    let y = pos.y as int;
    assert(w * y + x < w * h) by (nonlinear_arith)
        requires 0 <= x < w, 0 <= y < h;
    assert(0 <= w * y) by (nonlinear_arith)
        requires 0 <= w, 0 <= y;
}

/// A rectangular map holding one value of `T` per tile.
pub struct HexMap<T> {
    tiles: Vec<T>,
    size: Size2,
}

impl<T: Copy> HexMap<T> {
    /// The size of the map.
    pub closed spec fn spec_size(&self) -> Size2 {
        self.size
    }

    /// The value at `pos` (meaningful for positions on the map).
    pub closed spec fn at(&self, pos: MapPos) -> T {
        self.tiles@[tile_index(self.size, pos)]
    }

    /// The values of all tiles in row-major order.
    pub closed spec fn cells(&self) -> Seq<T> {
        self.tiles@
    }

    /// Internal consistency: one value per tile.
    pub closed spec fn wf(&self) -> bool {
        &&& valid_size(self.size)
        &&& self.tiles@.len() == tiles_count(self.size)
    }

    /// A map of the given size with `empty` on every tile.
    pub fn new(size: &Size2, empty: T) -> (m: HexMap<T>)
        requires
            valid_size(*size),
        ensures
            m.wf(),
            m.spec_size() == *size,
            forall|p: MapPos| inboard(*size, p) ==> #[trigger] m.at(p) == empty,
    {
        let tiles_count: ZInt = size.w * size.h;
        let mut tiles: Vec<T> = Vec::new();
        let mut i: ZInt = 0;
        while i < tiles_count
            invariant
                0 <= i <= tiles_count,
                tiles_count == size.w * size.h,
                tiles@.len() == i,
                forall|j: int| 0 <= j < i ==> tiles@[j] == empty,
            decreases tiles_count - i,
        {
            tiles.push(empty);
            i = i + 1;
        }
        let m = HexMap { tiles: tiles, size: *size };
        assert forall|p: MapPos| inboard(*size, p) implies #[trigger] m.at(p) == empty by {
            lemma_tile_index_bounds(*size, p);
        }
        m
    }

    /// The size of the map.
    pub fn size(&self) -> (s: &Size2)
        ensures
            *s == self.spec_size(),
    {
        &self.size
    }

    /// `pos` lies on the map.
    pub fn is_inboard(&self, pos: &MapPos) -> (b: bool)
        ensures
            b == inboard(self.spec_size(), *pos),
    {
        let x = pos.x;
        let y = pos.y;
        x >= 0 && y >= 0 && x < self.size.w && y < self.size.h
    }

    /// The value at `pos`.
    pub fn tile(&self, pos: &MapPos) -> (t: &T)
        requires
            self.wf(),
            inboard(self.spec_size(), *pos),
        ensures
            *t == self.at(*pos),
    {
        proof { lemma_tile_index_bounds(self.size, *pos); }
        let index = self.size.w * pos.y + pos.x;
        &self.tiles[index as usize]
    }

    /// Mutable access to the value at `pos`; all other tiles keep theirs.
    pub fn tile_mut(&mut self, pos: &MapPos) -> (t: &mut T)
        requires
            old(self).wf(),
            inboard(old(self).spec_size(), *pos),
        ensures
            *t == old(self).at(*pos),
            final(self).wf(),
            final(self).spec_size() == old(self).spec_size(),
            final(self).at(*pos) == *final(t),
            forall|p: MapPos| inboard(old(self).spec_size(), p) && p != *pos
                ==> #[trigger] final(self).at(p) == old(self).at(p),
    {
        proof {
            lemma_tile_index_bounds(self.size, *pos);
            assert forall|p: MapPos| inboard(old(self).spec_size(), p) && p != *pos
                implies tile_index(self.size, p) != tile_index(self.size, *pos) by {
                lemma_tile_index_injective(self.size, p, *pos);
            }
            assert forall|v: T, p: MapPos| inboard(old(self).spec_size(), p) && p != *pos
                implies #[trigger] old(self).tiles@.update(tile_index(self.size, *pos), v)[tile_index(self.size, p)]
                    == old(self).at(p) by {
                lemma_tile_index_injective(self.size, p, *pos);
                lemma_tile_index_bounds(self.size, p);
            }
        }
        let index = self.size.w * pos.y + pos.x;
        &mut self.tiles[index as usize]
    }

    /// Replaces the value at `pos`; all other tiles keep theirs.
    pub fn set_tile(&mut self, pos: &MapPos, value: T)
        requires
            old(self).wf(),
            inboard(old(self).spec_size(), *pos),
        ensures
            final(self).wf(),
            final(self).spec_size() == old(self).spec_size(),
            final(self).at(*pos) == value,
            forall|p: MapPos| inboard(old(self).spec_size(), p) && p != *pos
                ==> #[trigger] final(self).at(p) == old(self).at(p),
            final(self).cells() == old(self).cells().update(tile_index(old(self).spec_size(), *pos), value),
    {
        proof { lemma_tile_index_bounds(self.size, *pos); }
        let index = self.size.w * pos.y + pos.x;
        self.tiles.set(index as usize, value);
        proof {
            assert forall|p: MapPos| inboard(old(self).spec_size(), p) && p != *pos
                implies #[trigger] self.at(p) == old(self).at(p) by {
                lemma_tile_index_bounds(self.size, p);
                lemma_tile_index_injective(self.size, p, *pos);
            }
        }
    }
}

pub proof fn lemma_tile_index_injective(size: Size2, a: MapPos, b: MapPos)
    requires
        valid_size(size),
        inboard(size, a),
        inboard(size, b),
        a != b,
    ensures
        tile_index(size, a) != tile_index(size, b),
{
    let w = size.w as int;
    if a.y == b.y {
    } else if a.y < b.y {
        assert(w * a.y + a.x < w * b.y) by (nonlinear_arith)
            requires a.y < b.y, 0 <= a.x < w;
    } else {
        assert(w * b.y + b.x < w * a.y) by (nonlinear_arith)
            requires b.y < a.y, 0 <= b.x < w;
    }
}

} // verus!

verus! {

/// Iterator over all positions of a map, row by row.
pub struct MapPosIter {
    cursor: MapPos,
    map_size: Size2,
}

/// The position after `p` in row-major order on a map of the given size.
pub open spec fn advance(size: Size2, p: MapPos) -> MapPos {
    if p.x + 1 >= size.w {
        MapPos { x: 0, y: (p.y + 1) as i32 }
    } else {
        MapPos { x: (p.x + 1) as i32, y: p.y }
    }
}

impl MapPosIter {
    /// The next position to be yielded (if it still lies on the map).
    pub closed spec fn cursor(&self) -> MapPos {
        self.cursor
    }

    /// The size of the map iterated over.
    pub closed spec fn map_size(&self) -> Size2 {
        self.map_size
    }

    #[verifier::type_invariant]
    closed spec fn inv(&self) -> bool {
        &&& 0 <= self.map_size.w
        &&& 0 <= self.map_size.h
        &&& 0 <= self.cursor.x
        &&& (self.map_size.w == 0 ==> self.cursor.x == 0)
        &&& (self.map_size.w > 0 ==> self.cursor.x < self.map_size.w)
        &&& 0 <= self.cursor.y <= self.map_size.h
    }

    /// An iterator starting at position `(0, 0)`.
    pub fn new(map_size: &Size2) -> (it: MapPosIter)
        requires
            0 <= map_size.w,
            0 <= map_size.h,
        ensures
            it.cursor() == (MapPos { x: 0, y: 0 }),
            it.map_size() == *map_size,
    {
        MapPosIter { cursor: MapPos { x: 0, y: 0 }, map_size: *map_size }
    }

    /// Yields the cursor while it is above the last row, and moves it
    /// to the next position in row-major order.
    pub fn next(&mut self) -> (r: Option<MapPos>)
        ensures
            final(self).map_size() == old(self).map_size(),
            old(self).cursor().y >= old(self).map_size().h ==> r.is_none()
                && final(self).cursor() == old(self).cursor(),
            old(self).cursor().y < old(self).map_size().h ==> r == Some(old(self).cursor())
                && final(self).cursor() == advance(old(self).map_size(), old(self).cursor()),
    {
        proof { use_type_invariant(&*self); }
        if self.cursor.y >= self.map_size.h {
            return None;
        }
        let current_pos = self.cursor;
        if self.cursor.x + 1 >= self.map_size.w {
            self.cursor = MapPos { x: 0, y: self.cursor.y + 1 };
        } else {
            self.cursor = MapPos { x: self.cursor.x + 1, y: self.cursor.y };
        }
        Some(current_pos)
    }
}

impl<T: Copy> HexMap<T> {
    /// A well-formed map has a valid size.
    pub proof fn lemma_wf_size(&self)
        requires
            self.wf(),
        ensures
            valid_size(self.spec_size()),
            self.cells().len() == tiles_count(self.spec_size()),
    {
    }

    /// The value at a tile is the cell at its index.
    pub proof fn lemma_at_cells(&self, p: MapPos)
        requires
            self.wf(),
            inboard(self.spec_size(), p),
        ensures
            self.at(p) == self.cells()[tile_index(self.spec_size(), p)],
            0 <= tile_index(self.spec_size(), p) < self.cells().len(),
            self.cells().len() == tiles_count(self.spec_size()),
    {
        lemma_tile_index_bounds(self.size, p);
    }

    /// An iterator over all positions of this map.
    pub fn get_iter(&self) -> (it: MapPosIter)
        requires
            self.wf(),
        ensures
            it.cursor() == (MapPos { x: 0, y: 0 }),
            it.map_size() == self.spec_size(),
    {
        MapPosIter::new(&self.size)
    }
}

/// The cursor of an iterator over a map of `size` after `n` positions
/// have been yielded.
pub open spec fn iter_cursor(size: Size2, n: nat) -> MapPos
    decreases n,
{
    if n == 0 {
        MapPos { x: 0, y: 0 }
    } else {
        advance(size, iter_cursor(size, (n - 1) as nat))
    }
}

/// Law: an iteration over a map of width at least one yields every tile
/// exactly once, row by row: the `n`-th position (from zero) is column
/// `n % w` of row `n / w`, which lies on the map, for each `n` below the
/// number of tiles; after that many positions the cursor has left the
/// last row, so every later call yields nothing.
pub proof fn lemma_iter_enumerates(size: Size2, n: nat)
    requires
        valid_size(size),
        size.w >= 1,
        n <= tiles_count(size),
    ensures
        n < tiles_count(size) ==> iter_cursor(size, n) == (MapPos { x: ((n as int) % (size.w as int)) as i32, y: ((n as int) / (size.w as int)) as i32 })
            && inboard(size, iter_cursor(size, n)),
        n == tiles_count(size) ==> iter_cursor(size, n) == (MapPos { x: 0, y: size.h }),
    decreases n,
{
    let w = size.w as int;
    let h = size.h as int;
    if n == 0 {
        if tiles_count(size) > 0 {
            assert(h >= 1) by (nonlinear_arith) requires w * h > 0, w >= 1, h >= 0;
        } else {
            assert(h == 0) by (nonlinear_arith) requires w * h == 0, w >= 1, h >= 0;
        }
    } else {
        let m = (n - 1) as nat;
        lemma_iter_enumerates(size, m);
        let q = m as int / w;
        let r = m as int % w;
        vstd::arithmetic::div_mod::lemma_fundamental_div_mod(m as int, w);
        assert(0 <= r < w);
        assert(0 <= q < h) by (nonlinear_arith) requires m == w * q + r, 0 <= r < w, m < w * h, w >= 1, m >= 0;
        assert(w * q + r == q * w + r) by (nonlinear_arith);
        if r + 1 >= w {
            assert(n as int == (q + 1) * w + 0) by (nonlinear_arith) requires n == m + 1, m == w * q + r, r + 1 == w;
            vstd::arithmetic::div_mod::lemma_fundamental_div_mod_converse(n as int, w, q + 1, 0);
            if n < tiles_count(size) {
                assert(q + 1 < h) by (nonlinear_arith) requires n == (q + 1) * w, n < w * h, w >= 1;
            } else {
                assert(q + 1 == h) by (nonlinear_arith) requires n == (q + 1) * w, n == w * h, w >= 1;
            }
        } else {
            assert(n as int == q * w + (r + 1));
            vstd::arithmetic::div_mod::lemma_fundamental_div_mod_converse(n as int, w, q, r + 1);
            assert(n < tiles_count(size)) by (nonlinear_arith) requires n == q * w + r + 1, r + 1 < w, q < h, q >= 0, w * h == tiles_count(size);
        }
    }
}

/// Law: row-major iteration visits the tiles in the order of their
/// indices: from a tile on the map, the next position has the next index,
/// and the iteration ends exactly after the last tile.
pub proof fn lemma_advance_next_index(size: Size2, p: MapPos)
    requires
        valid_size(size),
        inboard(size, p),
    ensures
        tile_index(size, advance(size, p)) == tile_index(size, p) + 1,
        advance(size, p).y < size.h <==> tile_index(size, p) + 1 < tiles_count(size),
        advance(size, p).y < size.h ==> inboard(size, advance(size, p)),
{
    let w = size.w as int;
    let h = size.h as int;
    let x = p.x as int;
    let y = p.y as int;
    if x + 1 >= w {
        assert(w * (y + 1) == w * y + w) by (nonlinear_arith);
        if y + 1 < h {
            assert(w * (y + 1) + 1 <= w * h) by (nonlinear_arith)
                requires y + 2 <= h, w >= 1;
        } else {
            assert(w * (y + 1) == w * h) by (nonlinear_arith)
                requires y + 1 == h;
        }
    } else {
        if y + 1 < h {
            assert(w * (y + 1) <= w * h) by (nonlinear_arith)
                requires y + 1 < h, w >= 0;
            assert(w * (y + 1) == w * y + w) by (nonlinear_arith);
        } else {
            assert(w * h == w * y + w) by (nonlinear_arith)
                requires y + 1 == h;
        }
    }
}

/// Integer half of `y`, rounded toward zero.
pub open spec fn half_toward_zero(y: int) -> int {
    if y >= 0 {
        y / 2
    } else {
        -((-y) / 2)
    }
}

/// Absolute value.
pub open spec fn abs(a: int) -> int {
    if a < 0 {
        -a
    } else {
        a
    }
}

/// Number of steps between two tiles of the hexagonal grid.
pub open spec fn hex_distance(from: MapPos, to: MapPos) -> int {
    let dx = (to.x + half_toward_zero(to.y as int)) - (from.x + half_toward_zero(from.y as int));
    let dy = to.y - from.y;
    (abs(dx) + abs(dy) + abs(dx - dy)) / 2
}

/// The steps of the distance from `from` to `to` stay within `i32`:
/// the shifted columns, their difference, the row difference, the
/// difference of the two, their absolute values and the sums of those.
pub open spec fn distance_fits(from: MapPos, to: MapPos) -> bool {
    let a = to.x + half_toward_zero(to.y as int);
    let b = from.x + half_toward_zero(from.y as int);
    let dx = a - b;
    let dy = to.y - from.y;
    &&& i32::MIN <= a <= i32::MAX
    &&& i32::MIN <= b <= i32::MAX
    &&& i32::MIN < dx <= i32::MAX
    &&& i32::MIN < dy <= i32::MAX
    &&& i32::MIN < dx - dy <= i32::MAX
    &&& abs(dx) + abs(dy) <= i32::MAX
    &&& abs(dx) + abs(dy) + abs(dx - dy) <= i32::MAX
}

/// Tiles whose coordinates lie within `COORD_LIMIT` are within reach of
/// `distance`.
pub proof fn lemma_coords_fit_distance(from: MapPos, to: MapPos)
    requires
        coords_fit(from),
        coords_fit(to),
    ensures
        distance_fits(from, to),
{
}

/// Number of steps between two tiles.
pub fn distance(from: &MapPos, to: &MapPos) -> (d: ZInt)
    requires
        distance_fits(*from, *to),
    ensures
        d == hex_distance(*from, *to),
{
    let dx: ZInt = (to.x + to.y / 2) - (from.x + from.y / 2);
    let dy: ZInt = to.y - from.y;
    let adx: ZInt = if dx < 0 { -dx } else { dx };
    let ady: ZInt = if dy < 0 { -dy } else { dy };
    let ddiff: ZInt = dx - dy;
    let addiff: ZInt = if ddiff < 0 { -ddiff } else { ddiff };
    (adx + ady + addiff) / 2
}

/// Law: distance is symmetric and zero from a tile to itself.
pub proof fn lemma_distance_symmetric(a: MapPos, b: MapPos)
    ensures
        hex_distance(a, b) == hex_distance(b, a),
        hex_distance(a, a) == 0,
{
}

/// Law: on non-negative rows (all rows of a map), a neighbour is at
/// distance one.
pub proof fn lemma_neighbour_distance(p: MapPos, d: Dir)
    requires
        coords_fit(p),
        p.y >= 0,
        neighbour(p, d).y >= 0,
    ensures
        hex_distance(p, neighbour(p, d)) == 1,
{
    let y = p.y as int;
    if y % 2 == 0 {
        assert(half_toward_zero(y) == y / 2);
    } else {
        assert(half_toward_zero(y) == y / 2);
    }
}

} // verus!

verus! {

/// Direction of the `j`-th step (from 0) of the walk around a ring of
/// radius `r`: `r` steps in each of the six directions in order (for a
/// radius of zero: one step in each of the first five directions).
pub open spec fn ring_step_dir(r: int, j: int) -> Dir {
    if r == 0 {
        dir_of_index(j)
    } else if j / r >= 5 {
        Dir::SouthWest
    } else {
        dir_of_index(j / r)
    }
}

/// Position after `k` steps of the walk around a ring of radius `r`
/// that starts at `start`.
pub open spec fn ring_walk(start: MapPos, r: int, k: nat) -> MapPos
    decreases k,
{
    if k == 0 {
        start
    } else {
        neighbour(ring_walk(start, r, (k - 1) as nat), ring_step_dir(r, k - 1))
    }
}

/// Number of positions yielded by a ring iterator of radius `r`.
pub open spec fn ring_len(r: int) -> int {
    if r == 0 {
        5
    } else {
        6 * r
    }
}

/// Where the walk around the ring of radius `r` about `pos` starts:
/// `r` columns to the left of `pos`.
pub open spec fn ring_start(pos: MapPos, r: int) -> MapPos {
    MapPos { x: (pos.x - r) as i32, y: pos.y }
}

/// The centre of the ring of radius `r` whose walk starts at `start`.
pub open spec fn ring_centre(start: MapPos, r: int) -> MapPos {
    MapPos { x: (start.x + r) as i32, y: start.y }
}

/// The positions yielded by a ring iterator of radius `r` about `pos`.
pub open spec fn ring_seq(pos: MapPos, r: int) -> Seq<MapPos> {
    Seq::new(ring_len(r) as nat, |i: int| ring_walk(ring_start(pos, r), r, (i + 1) as nat))
}

/// Each step of a walk changes each coordinate by at most one.
proof fn lemma_ring_walk_bounds(start: MapPos, r: int, k: nat)
    requires
        i32::MIN + k <= start.x <= i32::MAX - k,
        i32::MIN + k <= start.y <= i32::MAX - k,
    ensures
        start.x - k <= ring_walk(start, r, k).x <= start.x + k,
        start.y - k <= ring_walk(start, r, k).y <= start.y + k,
    decreases k,
{
    if k > 0 {
        lemma_ring_walk_bounds(start, r, (k - 1) as nat);
    }
}

proof fn lemma_ring_count(r: int, y: int, s: int)
    requires
        r > 0,
        1 <= y <= 6,
        0 <= s,
        y < 6 ==> s < r,
        y == 6 ==> s <= r,
    ensures
        y < 6 ==> (y - 1) * r + s < 5 * r,
        y == 6 ==> (y - 1) * r == 5 * r,
        (y - 1) * r + s <= 6 * r,
{
    if y < 6 {
        assert((y - 1) * r + r <= 5 * r) by (nonlinear_arith)
            requires y <= 5, r > 0;
    }
    assert((y - 1) * r <= 5 * r) by (nonlinear_arith)
        requires y <= 6, r > 0;
}

/// Iterator over the tiles of a ring about a tile (see `ring_seq`).
pub struct RingIter {
    cursor: MapPos,
    segment_index: ZInt,
    dir_iter: DirIter,
    radius: ZInt,
    dir: Dir,
    start: Ghost<MapPos>,
    count: Ghost<nat>,
}

impl RingIter {
    /// Position where the walk started.
    pub closed spec fn start(&self) -> MapPos {
        self.start@
    }

    /// Radius of the ring.
    pub closed spec fn radius(&self) -> int {
        self.radius as int
    }

    /// Number of positions yielded so far.
    pub closed spec fn count(&self) -> nat {
        self.count@
    }

    /// Internal consistency of the iterator's state.
    pub closed spec fn wf(&self) -> bool {
        let r = self.radius as int;
        let k = self.count@ as int;
        let y = self.dir_iter.yielded();
        &&& 0 <= r
        &&& r == 0 ==> i32::MIN + 6 <= self.start@.x <= i32::MAX - 6 && i32::MIN + 6 <= self.start@.y <= i32::MAX - 6
        &&& r >= 1 ==> ring_fits(ring_centre(self.start@, r), r) && self.start@ == ring_start(ring_centre(self.start@, r), r)
        &&& k <= ring_len(r)
        &&& self.cursor == ring_walk(self.start@, r, self.count@)
        &&& 1 <= y <= 6
        &&& self.dir == dir_of_index(y - 1)
        &&& (r == 0 ==> k == y - 1 && self.segment_index == 0)
        &&& (r > 0 ==> k == (y - 1) * r + self.segment_index
            && 0 <= self.segment_index
            && (y < 6 ==> self.segment_index < r)
            && (y == 6 ==> self.segment_index <= r))
    }

    fn step(&mut self) -> (p: MapPos)
        requires
            i32::MIN < old(self).cursor.x < i32::MAX,
            i32::MIN < old(self).cursor.y < i32::MAX,
        ensures
            p == neighbour(old(self).cursor, old(self).dir),
            *final(self) == (RingIter { cursor: p, ..*old(self) }),
    {
        self.cursor = Dir::get_neighbour_pos(&self.cursor, &self.dir);
        self.cursor
    }

    /// Yields the next position of the ring, or `None` once all were given.
    pub fn next(&mut self) -> (r: Option<MapPos>)
        requires
            old(self).wf(),
        ensures
            final(self).wf(),
            final(self).start() == old(self).start(),
            final(self).radius() == old(self).radius(),
            old(self).count() < ring_len(old(self).radius()) ==> r == Some(
                ring_walk(old(self).start(), old(self).radius(), old(self).count() + 1),
            ) && final(self).count() == old(self).count() + 1,
            old(self).count() >= ring_len(old(self).radius()) ==> r.is_none()
                && final(self).count() == old(self).count(),
    {
        let ghost r = self.radius as int;
        let ghost k = self.count@;
        proof {
            if r == 0 {
                lemma_ring_walk_bounds(self.start@, r, k);
            } else if k < ring_len(r) {
                lemma_ring_walk_offset(ring_centre(self.start@, r), r, k);
            }
            if r > 0 {
                lemma_ring_count(r, self.dir_iter.yielded(), self.segment_index as int);
            }
        }
        if self.segment_index >= self.radius - 1 {
            let next_dir = self.dir_iter.next();
            match next_dir {
                Some(dir) => {
                    proof {
                        if r > 0 {
                            let y = old(self).dir_iter.yielded();
                            vstd::arithmetic::div_mod::lemma_fundamental_div_mod_converse(
                                k as int, r, y - 1, r - 1);
                        }
                    }
                    self.segment_index = 0;
                    let p = self.step();
                    self.dir = dir;
                    self.count = Ghost((k + 1) as nat);
                    proof {
                        if r > 0 {
                            let y = self.dir_iter.yielded();
                            assert((y - 2) * r + r == (y - 1) * r) by (nonlinear_arith);
                        }
                    }
                    Some(p)
                },
                None => {
                    if self.segment_index == self.radius {
                        proof {
                            if r > 0 {
                                assert(5 * r + r == 6 * r);
                            }
                        }
                        None
                    } else {
                        proof {
                            if r > 0 {
                                let s = self.segment_index as int;
                                assert(5 * r + s == k);
                                assert((k as int) / r >= 5) by {
                                    if s < r {
                                        vstd::arithmetic::div_mod::lemma_fundamental_div_mod_converse(
                                            k as int, r, 5, s);
                                    }
                                }
                            } else {
                                assert(false);
                            }
                        }
                        self.segment_index = self.segment_index + 1;
                        let p = self.step();
                        self.count = Ghost((k + 1) as nat);
                        Some(p)
                    }
                },
            }
        } else {
            proof {
                let y = self.dir_iter.yielded();
                let s = self.segment_index as int;
                if y < 6 {
                    vstd::arithmetic::div_mod::lemma_fundamental_div_mod_converse(
                        k as int, r, y - 1, s);
                } else {
                    vstd::arithmetic::div_mod::lemma_fundamental_div_mod_converse(
                        k as int, r, 5, s);
                }
            }
            self.segment_index = self.segment_index + 1;
            let p = self.step();
            self.count = Ghost((k + 1) as nat);
            Some(p)
        }
    }
}

/// An iterator over the ring of tiles of radius `radius` about `pos`.
pub fn ring_iter(pos: &MapPos, radius: ZInt) -> (it: RingIter)
    requires
        0 <= radius,
        radius == 0 ==> i32::MIN + 6 <= pos.x <= i32::MAX - 6 && i32::MIN + 6 <= pos.y <= i32::MAX - 6,
        radius >= 1 ==> ring_fits(*pos, radius as int),
    ensures
        it.wf(),
        it.start() == ring_start(*pos, radius as int),
        it.radius() == radius,
        it.count() == 0,
{
    let mut start = *pos;
    start.x = start.x - radius;
    let mut dir_iter = dirs();
    let first = dir_iter.next();
    let dir = match first {
        Some(d) => d,
        None => Dir::SouthEast,
    };
    RingIter {
        cursor: start,
        segment_index: 0,
        dir_iter: dir_iter,
        radius: radius,
        dir: dir,
        start: Ghost(start),
        count: Ghost(0),
    }
}

} // verus!

verus! {

/// Axial column of `p`: its column shifted by half its row, so that a
/// step in a given direction changes it by the same amount on every row.
pub open spec fn axial_col(p: MapPos) -> int {
    p.x + (p.y as int) / 2
}

/// Change of the axial column by a step in direction `d`.
pub open spec fn dir_dcol(d: Dir) -> int {
    match d {
        Dir::SouthEast => 0,
        Dir::East => 1,
        Dir::NorthEast => 1,
        Dir::NorthWest => 0,
        Dir::West => -1,
        Dir::SouthWest => -1,
    }
}

/// A step changes the axial column by `dir_dcol`.
proof fn lemma_axial_step(p: MapPos, d: Dir)
    requires
        i32::MIN < p.x < i32::MAX,
        i32::MIN < p.y < i32::MAX,
    ensures
        axial_col(neighbour(p, d)) == axial_col(p) + dir_dcol(d),
        neighbour(p, d).y == p.y + crate::dir::diff_y(d),
{
}

/// Offset, in axial column and row, of the position after `k` steps of
/// the walk around the ring of radius `r` (for `0 <= k <= 6 * r`).
pub open spec fn ring_offset(r: int, k: int) -> (int, int) {
    let s = k / r;
    let j = k % r;
    if s == 0 {
        (-r, -j)
    } else if s == 1 {
        (-r + j, -r)
    } else if s == 2 {
        (j, -r + j)
    } else if s == 3 {
        (r, j)
    } else if s == 4 {
        (r - j, r)
    } else if s == 5 {
        (-j, r - j)
    } else {
        (-r, 0)
    }
}

/// The step number (below `6 * r`) whose offset is `(dc, dr)`.
spec fn ring_index(r: int, dc: int, dr: int) -> int {
    if dc == -r && dr <= 0 && dr > -r {
        -dr
    } else if dr < 0 {
        2 * r + dc
    } else if dc == r && dr < r {
        3 * r + dr
    } else {
        5 * r - dc
    }
}

proof fn lemma_ring_index(r: int, k: int)
    requires
        r >= 1,
        0 <= k <= 6 * r,
    ensures
        ring_index(r, ring_offset(r, k).0, ring_offset(r, k).1) == k % (6 * r),
        k == 6 * r ==> ring_offset(r, k) == ring_offset(r, 0),
{
    vstd::arithmetic::div_mod::lemma_fundamental_div_mod(k, r);
    let s = k / r;
    let j = k % r;
    assert(0 <= s <= 6) by (nonlinear_arith) requires k == r * s + j, 0 <= j < r, 0 <= k <= 6 * r, r >= 1;
    assert(s == 6 ==> j == 0) by (nonlinear_arith) requires k == r * s + j, 0 <= j < r, k <= 6 * r;
    if s == 0 {
        assert(k == j) by (nonlinear_arith) requires k == r * s + j, s == 0;
    } else if s == 1 {
        assert(k == r + j) by (nonlinear_arith) requires k == r * s + j, s == 1;
    } else if s == 2 {
        assert(k == 2 * r + j) by (nonlinear_arith) requires k == r * s + j, s == 2;
    } else if s == 3 {
        assert(k == 3 * r + j) by (nonlinear_arith) requires k == r * s + j, s == 3;
    } else if s == 4 {
        assert(k == 4 * r + j) by (nonlinear_arith) requires k == r * s + j, s == 4;
    } else if s == 5 {
        assert(k == 5 * r + j) by (nonlinear_arith) requires k == r * s + j, s == 5;
    } else {
        assert(k == 6 * r) by (nonlinear_arith) requires k == r * s + j, s == 6, j == 0;
    }
    vstd::arithmetic::div_mod::lemma_fundamental_div_mod_converse(0, r, 0, 0);
    if k < 6 * r {
        vstd::arithmetic::div_mod::lemma_fundamental_div_mod_converse(k, 6 * r, 0, k);
    } else {
        vstd::arithmetic::div_mod::lemma_fundamental_div_mod_converse(k, 6 * r, 1, 0);
    }
}

/// The ring of radius `r >= 1` about `pos` stays clear of the limits of
/// `i32` by a step: its tiles lie within `2 * r + 1` columns and `r` rows
/// of `pos`.
pub open spec fn ring_fits(pos: MapPos, r: int) -> bool {
    &&& r >= 1
    &&& i32::MIN + 2 * r + 2 <= pos.x <= i32::MAX - 2 * r - 2
    &&& i32::MIN + r + 2 <= pos.y <= i32::MAX - r - 2
}

/// The walk around the ring of radius `r` about `pos` after `k` steps
/// lies at `ring_offset(r, k)` from `pos`.
proof fn lemma_ring_walk_offset(pos: MapPos, r: int, k: nat)
    requires
        ring_fits(pos, r),
        k <= 6 * r,
    ensures
        ({
            let w = ring_walk(ring_start(pos, r), r, k);
            &&& axial_col(w) == axial_col(pos) + ring_offset(r, k as int).0
            &&& w.y == pos.y + ring_offset(r, k as int).1
            &&& pos.x - 2 * r - 1 <= w.x <= pos.x + 2 * r + 1
            &&& pos.y - r <= w.y <= pos.y + r
        }),
    decreases k,
{
    if k == 0 {
        vstd::arithmetic::div_mod::lemma_fundamental_div_mod_converse(0, r, 0, 0);
    } else {
        let m = (k - 1) as nat;
        lemma_ring_walk_offset(pos, r, m);
        let prev = ring_walk(ring_start(pos, r), r, m);
        vstd::arithmetic::div_mod::lemma_fundamental_div_mod(m as int, r);
        let q = m as int / r;
        let j = m as int % r;
        assert(0 <= q <= 5) by (nonlinear_arith) requires m == r * q + j, 0 <= j < r, 0 <= m < 6 * r, r >= 1;
        assert(r * q == q * r) by (nonlinear_arith);
        let d = ring_step_dir(r, m as int);
        assert(d == dir_of_index(q));
        if j + 1 < r {
            vstd::arithmetic::div_mod::lemma_fundamental_div_mod_converse(k as int, r, q, j + 1);
        } else {
            assert(k as int == (q + 1) * r + 0) by (nonlinear_arith) requires k == m + 1, m == q * r + j, j + 1 == r;
            vstd::arithmetic::div_mod::lemma_fundamental_div_mod_converse(k as int, r, q + 1, 0);
        }
        let off = ring_offset(r, m as int);
        assert(-r <= off.0 <= r && -r <= off.1 <= r);
        assert(i32::MIN < prev.y < i32::MAX);
        assert(i32::MIN < prev.x < i32::MAX);
        lemma_axial_step(prev, d);
    }
}

/// Every offset of the ring walk of radius `r` is at distance `r`.
proof fn lemma_ring_offset_distance(r: int, k: int)
    requires
        r >= 1,
        0 <= k <= 6 * r,
    ensures
        ({
            let o = ring_offset(r, k);
            (abs(o.0) + abs(o.1) + abs(o.0 - o.1)) / 2 == r
        }),
{
    vstd::arithmetic::div_mod::lemma_fundamental_div_mod(k, r);
    let s = k / r;
    let j = k % r;
    assert(0 <= s <= 6) by (nonlinear_arith) requires k == r * s + j, 0 <= j < r, 0 <= k <= 6 * r, r >= 1;
}

/// On non-negative rows, a tile of the ring of radius `r` about `pos` is
/// at distance `r`.
proof fn lemma_ring_walk_distance(pos: MapPos, r: int, k: nat)
    requires
        ring_fits(pos, r),
        pos.y >= r,
        k <= 6 * r,
    ensures
        hex_distance(pos, ring_walk(ring_start(pos, r), r, k)) == r,
{
    lemma_ring_walk_offset(pos, r, k);
    lemma_ring_offset_distance(r, k as int);
    let w = ring_walk(ring_start(pos, r), r, k);
    assert(half_toward_zero(pos.y as int) == pos.y / 2);
    assert(half_toward_zero(w.y as int) == w.y / 2);
}

/// A tile of the ring of radius `r` about `pos` is never `pos` itself.
proof fn lemma_ring_walk_not_centre(pos: MapPos, r: int, k: nat)
    requires
        ring_fits(pos, r),
        k <= 6 * r,
    ensures
        ring_walk(ring_start(pos, r), r, k) != pos,
{
    lemma_ring_walk_offset(pos, r, k);
    lemma_ring_offset_distance(r, k as int);
}

/// Two steps of the ring walk that differ modulo `6 * r` end on
/// different tiles.
proof fn lemma_ring_walk_distinct(pos: MapPos, r: int, a: nat, b: nat)
    requires
        ring_fits(pos, r),
        1 <= a <= 6 * r,
        1 <= b <= 6 * r,
        a != b,
    ensures
        ring_walk(ring_start(pos, r), r, a) != ring_walk(ring_start(pos, r), r, b),
{
    lemma_ring_walk_offset(pos, r, a);
    lemma_ring_walk_offset(pos, r, b);
    lemma_ring_index(r, a as int);
    lemma_ring_index(r, b as int);
    if a < 6 * r {
        vstd::arithmetic::div_mod::lemma_fundamental_div_mod_converse(a as int, 6 * r, 0, a as int);
    } else {
        vstd::arithmetic::div_mod::lemma_fundamental_div_mod_converse(a as int, 6 * r, 1, 0);
    }
    if b < 6 * r {
        vstd::arithmetic::div_mod::lemma_fundamental_div_mod_converse(b as int, 6 * r, 0, b as int);
    } else {
        vstd::arithmetic::div_mod::lemma_fundamental_div_mod_converse(b as int, 6 * r, 1, 0);
    }
}

/// Law: the ring of radius `r >= 1` about `pos` (wherever it stays clear
/// of the limits of `i32`) has `6 * r` tiles, all distinct and none of
/// them `pos`; each follows its predecessor as a neighbour, and the last
/// is a neighbour of the first; on rows that are all non-negative (as on
/// a map) all of them lie at distance `r` from `pos`.
pub proof fn lemma_ring_law(pos: MapPos, r: int)
    requires
        ring_fits(pos, r),
    ensures
        ({
            let ring = ring_seq(pos, r);
            &&& ring.len() == 6 * r
            &&& forall|i: int| 0 <= i < ring.len() ==> #[trigger] ring[i] != pos
            &&& pos.y >= r ==> forall|i: int| 0 <= i < ring.len() ==> hex_distance(pos, #[trigger] ring[i]) == r
            &&& forall|i: int, j: int| 0 <= i < ring.len() && 0 <= j < ring.len() && i != j ==> #[trigger] ring[i] != #[trigger] ring[j]
            &&& forall|i: int| 0 <= i < ring.len() - 1 ==> crate::dir::is_neighbour(#[trigger] ring[i], ring[i + 1])
            &&& crate::dir::is_neighbour(ring[ring.len() - 1], ring[0])
        }),
{
    let ring = ring_seq(pos, r);
    let start = ring_start(pos, r);
    assert forall|i: int| 0 <= i < ring.len() implies #[trigger] ring[i] != pos by {
        lemma_ring_walk_not_centre(pos, r, (i + 1) as nat);
    }
    if pos.y >= r {
        assert forall|i: int| 0 <= i < ring.len() implies hex_distance(pos, #[trigger] ring[i]) == r by {
            lemma_ring_walk_distance(pos, r, (i + 1) as nat);
        }
    }
    assert forall|i: int, j: int| 0 <= i < ring.len() && 0 <= j < ring.len() && i != j implies #[trigger] ring[i] != #[trigger] ring[j] by {
        lemma_ring_walk_distinct(pos, r, (i + 1) as nat, (j + 1) as nat);
    }
    assert forall|i: int| 0 <= i < ring.len() - 1 implies crate::dir::is_neighbour(#[trigger] ring[i], ring[i + 1]) by {
        let d = ring_step_dir(r, i + 1);
        assert(ring[i + 1] == neighbour(ring[i], d));
    }
    lemma_ring_closes(pos, r);
}

/// The ring walk of radius `r` comes back to its start after `6 * r`
/// steps.
proof fn lemma_ring_closes(pos: MapPos, r: int)
    requires
        ring_fits(pos, r),
    ensures
        crate::dir::is_neighbour(ring_seq(pos, r)[6 * r - 1], ring_seq(pos, r)[0]),
{
    let ring = ring_seq(pos, r);
    let start = ring_start(pos, r);
    lemma_ring_walk_offset(pos, r, 0);
    lemma_ring_walk_offset(pos, r, (6 * r) as nat);
    lemma_ring_index(r, 6 * r);
    let w = ring_walk(start, r, (6 * r) as nat);
    assert(ring[6 * r - 1] == w);
    assert(w == start);
    assert(ring[0] == neighbour(start, ring_step_dir(r, 0)));
}

/// The positions yielded by a spiral iterator: the rings of radius
/// `1` to `radius` about `pos`, one after another.
pub open spec fn spiral_seq(pos: MapPos, radius: int) -> Seq<MapPos>
    decreases radius,
{
    if radius <= 0 {
        Seq::empty()
    } else {
        spiral_seq(pos, radius - 1) + ring_seq(pos, radius)
    }
}

/// The spiral of radius `radius` has `3 * radius * (radius + 1)` tiles.
proof fn lemma_spiral_len(pos: MapPos, radius: int)
    requires
        0 <= radius,
    ensures
        spiral_seq(pos, radius).len() == 3 * radius * (radius + 1),
    decreases radius,
{
    if radius == 0 {
        assert(3 * radius * (radius + 1) == 0) by (nonlinear_arith) requires radius == 0;
    } else {
        lemma_spiral_len(pos, radius - 1);
        assert(ring_seq(pos, radius).len() == 6 * radius);
        assert(3 * (radius - 1) * ((radius - 1) + 1) + 6 * radius == 3 * radius * (radius + 1)) by (nonlinear_arith);
    }
}

/// Each tile of the spiral of radius `radius` is a tile of one of its
/// rings.
proof fn lemma_spiral_tile(pos: MapPos, radius: int, i: int)
    requires
        0 <= i < spiral_seq(pos, radius).len(),
    ensures
        exists|r: int, j: int| 1 <= r <= radius && 0 <= j < ring_seq(pos, r).len()
            && spiral_seq(pos, radius)[i] == #[trigger] ring_seq(pos, r)[j],
    decreases radius,
{
    if radius > 0 {
        let prev = spiral_seq(pos, radius - 1);
        if i < prev.len() {
            lemma_spiral_tile(pos, radius - 1, i);
            let (r, j) = choose|r: int, j: int| 1 <= r <= radius - 1 && 0 <= j < ring_seq(pos, r).len()
                && prev[i] == #[trigger] ring_seq(pos, r)[j];
            assert(spiral_seq(pos, radius)[i] == ring_seq(pos, r)[j]);
        } else {
            assert(spiral_seq(pos, radius)[i] == ring_seq(pos, radius)[i - prev.len()]);
        }
    }
}

/// Law: the spiral of radius `radius` about `pos` has `3 * radius *
/// (radius + 1)` tiles; where its rings stay clear of the limits of
/// `i32`, the centre itself never comes out, and where moreover all its
/// rows are non-negative (as on a map), each tile lies at a distance from
/// 1 to `radius` from `pos`.
pub proof fn lemma_spiral_law(pos: MapPos, radius: int)
    requires
        0 <= radius,
    ensures
        spiral_seq(pos, radius).len() == 3 * radius * (radius + 1),
        radius >= 1 && ring_fits(pos, radius) ==> forall|i: int| 0 <= i < spiral_seq(pos, radius).len()
            ==> #[trigger] spiral_seq(pos, radius)[i] != pos,
        radius >= 1 && ring_fits(pos, radius) && pos.y >= radius ==> forall|i: int| 0 <= i < spiral_seq(pos, radius).len()
            ==> 1 <= hex_distance(pos, #[trigger] spiral_seq(pos, radius)[i]) <= radius,
{
    lemma_spiral_len(pos, radius);
    let sp = spiral_seq(pos, radius);
    if radius >= 1 && ring_fits(pos, radius) {
        assert forall|i: int| 0 <= i < sp.len() implies #[trigger] sp[i] != pos
            && (pos.y >= radius ==> 1 <= hex_distance(pos, sp[i]) <= radius) by {
            lemma_spiral_tile(pos, radius, i);
            let (r, j) = choose|r: int, j: int| 1 <= r <= radius && 0 <= j < ring_seq(pos, r).len()
                && sp[i] == #[trigger] ring_seq(pos, r)[j];
            assert(ring_fits(pos, r));
            lemma_ring_law(pos, r);
            assert(ring_seq(pos, r)[j] != pos);
            if pos.y >= radius {
                assert(hex_distance(pos, ring_seq(pos, r)[j]) == r);
            }
        }
    }
}

/// Iterator over the rings of radius `1` to `last_radius` about a tile.
pub struct SpiralIter {
    ring_iter: RingIter,
    radius: ZInt,
    last_radius: ZInt,
    origin: MapPos,
    count: Ghost<nat>,
}

impl SpiralIter {
    /// The tile at the centre of the spiral.
    pub closed spec fn origin(&self) -> MapPos {
        self.origin
    }

    /// Radius of the outermost ring.
    pub closed spec fn last_radius(&self) -> int {
        self.last_radius as int
    }

    /// Number of positions yielded so far.
    pub closed spec fn count(&self) -> nat {
        self.count@
    }

    /// Internal consistency of the iterator's state.
    pub closed spec fn wf(&self) -> bool {
        &&& 1 <= self.radius <= self.last_radius + 1
        &&& ring_fits(self.origin, self.last_radius as int)
        &&& self.ring_iter.wf()
        &&& self.radius <= self.last_radius ==> {
            &&& self.ring_iter.start() == ring_start(self.origin, self.radius as int)
            &&& self.ring_iter.radius() == self.radius
            &&& self.count@ == spiral_seq(self.origin, self.radius - 1).len() + self.ring_iter.count()
        }
        &&& self.radius == self.last_radius + 1 ==> self.count@ == spiral_seq(
            self.origin,
            self.last_radius as int,
        ).len()
    }

    /// Yields the next position of the spiral, or `None` once all were given.
    pub fn next(&mut self) -> (r: Option<MapPos>)
        requires
            old(self).wf(),
        ensures
            final(self).wf(),
            final(self).origin() == old(self).origin(),
            final(self).last_radius() == old(self).last_radius(),
            old(self).count() < spiral_seq(old(self).origin(), old(self).last_radius()).len()
                ==> r == Some(spiral_seq(old(self).origin(), old(self).last_radius())[old(self).count() as int])
                && final(self).count() == old(self).count() + 1,
            old(self).count() >= spiral_seq(old(self).origin(), old(self).last_radius()).len()
                ==> r.is_none() && final(self).count() == old(self).count(),
    {
        let ghost o = self.origin;
        let ghost last = self.last_radius as int;
        if self.radius > self.last_radius {
            return None;
        }
        proof {
            lemma_spiral_prefix(o, self.radius as int, last);
        }
        let ghost c = self.ring_iter.count();
        let pos = self.ring_iter.next();
        proof {
            if c < 6 * self.radius {
                lemma_spiral_index(o, self.radius as int, last, c as int);
            }
        }
        if pos.is_some() {
            self.count = Ghost(self.count@ + 1);
            return pos;
        }
        self.radius = self.radius + 1;
        if self.radius > self.last_radius {
            return None;
        }
        proof {
            lemma_spiral_prefix(o, self.radius as int, last);
        }
        self.ring_iter = ring_iter(&self.origin, self.radius);
        proof {
            lemma_spiral_index(o, self.radius as int, last, 0);
        }
        let pos2 = self.ring_iter.next();
        self.count = Ghost(self.count@ + 1);
        pos2
    }
}

/// The spiral up to `r` is a prefix of the spiral up to `last`.
proof fn lemma_spiral_prefix(o: MapPos, r: int, last: int)
    requires
        1 <= r <= last,
    ensures
        spiral_seq(o, r).len() <= spiral_seq(o, last).len(),
        forall|i: int| 0 <= i < spiral_seq(o, r).len() ==> spiral_seq(o, last)[i] == #[trigger] spiral_seq(o, r)[i],
        spiral_seq(o, r) == spiral_seq(o, r - 1) + ring_seq(o, r),
        ring_seq(o, r).len() == 6 * r,
    decreases last - r,
{
    if r < last {
        lemma_spiral_prefix(o, r + 1, last);
        assert forall|i: int| 0 <= i < spiral_seq(o, r).len() implies spiral_seq(o, last)[i]
            == #[trigger] spiral_seq(o, r)[i] by {
            assert(spiral_seq(o, r + 1)[i] == spiral_seq(o, r)[i]);
        }
    }
}

/// The element of the spiral at index `len(spiral(r - 1)) + c` is the
/// `c`-th element of the ring of radius `r`.
proof fn lemma_spiral_index(o: MapPos, r: int, last: int, c: int)
    requires
        1 <= r <= last,
        0 <= c < 6 * r,
    ensures
        spiral_seq(o, r - 1).len() + c < spiral_seq(o, last).len(),
        spiral_seq(o, last)[spiral_seq(o, r - 1).len() + c] == ring_walk(ring_start(o, r), r, (c + 1) as nat),
{
    lemma_spiral_prefix(o, r, last);
    let k = spiral_seq(o, r - 1).len() + c;
    assert(spiral_seq(o, r)[k] == ring_seq(o, r)[c]);
}

/// An iterator over the rings of radius `1` to `radius` about `pos`.
pub fn spiral_iter(pos: &MapPos, radius: ZInt) -> (it: SpiralIter)
    requires
        ring_fits(*pos, radius as int),
    ensures
        it.wf(),
        it.origin() == *pos,
        it.last_radius() == radius,
        it.count() == 0,
{
    SpiralIter {
        ring_iter: ring_iter(pos, 1),
        radius: 1,
        last_radius: radius,
        origin: *pos,
        count: Ghost(0),
    }
}

} // verus!
