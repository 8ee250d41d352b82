//! Line of sight between tiles, as a table filled in from outside.
//!
//! What a unit sees depends only on the terrain and on the unit's range
//! of sight, so the table is built once per map: for each range that a
//! unit type has, and each pair of tiles, whether the second can be seen
//! from the first.

use vstd::prelude::*;
use crate::types::{ZInt, Size2, MapPos};
use crate::map::{inboard, hex_distance, tile_index, tiles_count, valid_size, lemma_tile_index_bounds,
    lemma_tile_index_injective};

verus! {

/// Largest number of table cells a sight table may have.
pub const SIGHT_CELLS_LIMIT: i64 = 0x4000_0000;

/// Position of the cell for (`slot`, `from`, `to`) in the flat table.
pub open spec fn cell_index(size: Size2, slot: int, from: MapPos, to: MapPos) -> int {
    (slot * tiles_count(size) + tile_index(size, from)) * tiles_count(size) + tile_index(size, to)
}

/// Number of cells of a table over `k` ranges on a map of the given size.
pub open spec fn cells_count(size: Size2, k: int) -> int {
    k * tiles_count(size) * tiles_count(size)
}

proof fn lemma_cell_index_bounds(size: Size2, k: int, slot: int, from: MapPos, to: MapPos)
    requires
        valid_size(size),
        0 <= slot < k,
        inboard(size, from),
        inboard(size, to),
    ensures
        0 <= cell_index(size, slot, from, to) < cells_count(size, k),
{
    lemma_tile_index_bounds(size, from);
    lemma_tile_index_bounds(size, to);
    let n = tiles_count(size);
    let f = tile_index(size, from);
    let t = tile_index(size, to);
    assert((slot * n + f) * n + t < k * n * n && 0 <= (slot * n + f) * n + t) by (nonlinear_arith)
        requires 0 <= slot < k, 0 <= f < n, 0 <= t < n;
}

proof fn lemma_cell_index_injective(
    size: Size2,
    s1: int, f1: MapPos, t1: MapPos,
    s2: int, f2: MapPos, t2: MapPos,
)
    requires
        valid_size(size),
        0 <= s1,
        0 <= s2,
        inboard(size, f1), inboard(size, t1), inboard(size, f2), inboard(size, t2),
        cell_index(size, s1, f1, t1) == cell_index(size, s2, f2, t2),
    ensures
        s1 == s2,
        f1 == f2,
        t1 == t2,
{
    lemma_tile_index_bounds(size, f1);
    lemma_tile_index_bounds(size, t1);
    lemma_tile_index_bounds(size, f2);
    lemma_tile_index_bounds(size, t2);
    let n = tiles_count(size);
    let a1 = s1 * n + tile_index(size, f1);
    let a2 = s2 * n + tile_index(size, f2);
    let b1 = tile_index(size, t1);
    let b2 = tile_index(size, t2);
    assert(a1 == a2 && b1 == b2) by (nonlinear_arith)
        requires a1 * n + b1 == a2 * n + b2, 0 <= b1 < n, 0 <= b2 < n, 0 <= a1, 0 <= a2;
    assert(s1 == s2) by (nonlinear_arith)
        requires s1 * n + tile_index(size, f1) == s2 * n + tile_index(size, f2),
            0 <= tile_index(size, f1) < n, 0 <= tile_index(size, f2) < n, 0 <= s1, 0 <= s2;
    if f1 != f2 {
        lemma_tile_index_injective(size, f1, f2);
    }
    if t1 != t2 {
        lemma_tile_index_injective(size, t1, t2);
    }
}

proof fn lemma_first_occurrence(s: Seq<ZInt>, v: int, i: int)
    requires
        0 <= i < s.len(),
        s[i] == v,
    ensures
        exists|m: int| 0 <= m < s.len() && s[m] == v && forall|j: int| 0 <= j < m ==> s[j] != v,
    decreases i,
{
    if exists|j: int| 0 <= j < i && s[j] == v {
        let j = choose|j: int| 0 <= j < i && s[j] == v;
        lemma_first_occurrence(s, v, j);
    } else {
        assert(forall|j: int| 0 <= j < i ==> s[j] != v);
    }
}

/// Which tiles can be seen from which, for each of a list of ranges.
pub struct Sight {
    size: Size2,
    ranges: Vec<ZInt>,
    seen: Vec<bool>,
}

impl Sight {
    /// The map size the table is for.
    pub closed spec fn spec_size(&self) -> Size2 {
        self.size
    }

    /// The ranges the table covers, in slot order.
    pub closed spec fn spec_ranges(&self) -> Seq<ZInt> {
        self.ranges@
    }

    /// The table covers the range `range`.
    pub open spec fn covers(&self, range: int) -> bool {
        exists|i: int| 0 <= i < self.spec_ranges().len() && self.spec_ranges()[i] == range
    }

    /// The slot of `range` in the table: the first one holding it.
    pub open spec fn slot_of(&self, range: int) -> int {
        choose|i: int| 0 <= i < self.spec_ranges().len() && self.spec_ranges()[i] == range
            && forall|j: int| 0 <= j < i ==> self.spec_ranges()[j] != range
    }

    /// A unit with sight range `range` on `from` sees `to`.
    pub closed spec fn sees(&self, range: int, from: MapPos, to: MapPos) -> bool {
        self.seen@[cell_index(self.size, self.slot_of(range), from, to)]
    }

    /// Internal consistency: one cell per range and pair of tiles, and no
    /// tile seen beyond the range of sight.
    pub closed spec fn wf(&self) -> bool {
        &&& valid_size(self.size)
        &&& self.seen@.len() == cells_count(self.size, self.ranges@.len() as int)
        &&& cells_count(self.size, self.ranges@.len() as int) <= SIGHT_CELLS_LIMIT
        &&& forall|r: int, f: MapPos, t: MapPos| self.covers(r) && inboard(self.size, f) && inboard(self.size, t)
            && #[trigger] self.sees(r, f, t) ==> hex_distance(f, t) <= r
    }

    proof fn lemma_first_slot(&self, range: int)
        requires
            self.covers(range),
        ensures
            0 <= self.slot_of(range) < self.spec_ranges().len(),
            self.spec_ranges()[self.slot_of(range)] == range,
            forall|j: int| 0 <= j < self.slot_of(range) ==> self.spec_ranges()[j] != range,
    {
        let i = choose|i: int| 0 <= i < self.spec_ranges().len() && self.spec_ranges()[i] == range;
        lemma_first_occurrence(self.spec_ranges(), range, i);
    }

    /// An empty table (nothing seen) for a map of `size` and the given
    /// ranges; `None` where the table would be too large.
    pub fn new(size: &Size2, ranges: Vec<ZInt>) -> (r: Option<Sight>)
        requires
            valid_size(*size),
        ensures
            r is Some <==> cells_count(*size, ranges@.len() as int) <= SIGHT_CELLS_LIMIT,
            r matches Some(s) ==> {
                &&& s.wf()
                &&& s.spec_size() == *size
                &&& s.spec_ranges() == ranges@
                &&& forall|range: int, from: MapPos, to: MapPos| !#[trigger] s.sees(range, from, to)
                    || !s.covers(range) || !inboard(*size, from) || !inboard(*size, to)
            },
    {
        let n: i128 = size.w as i128 * size.h as i128;
        let k: i128 = ranges.len() as i128;
        proof {
            assert(0 <= k * n && k * n <= 0x1_0000_0000_0000_0000 * 0x8000_0000) by (nonlinear_arith)
                requires 0 <= k < 0x1_0000_0000_0000_0000, 0 <= n <= 0x8000_0000;
            assert(0 <= (k * n) * n && (k * n) * n <= 0x1_0000_0000_0000_0000 * 0x8000_0000 * 0x8000_0000)
                by (nonlinear_arith)
                requires 0 <= k * n <= 0x1_0000_0000_0000_0000 * 0x8000_0000, 0 <= n <= 0x8000_0000;
        }
        let cells: i128 = k * n * n;
        if cells > SIGHT_CELLS_LIMIT as i128 {
            return None;
        }
        let total: i64 = cells as i64;
        let mut seen: Vec<bool> = Vec::new();
        let mut i: i64 = 0;
        while i < total
            invariant
                0 <= i <= total,
                seen@.len() == i,
                forall|j: int| 0 <= j < i ==> seen@[j] == false,
            decreases total - i,
        {
            seen.push(false);
            i = i + 1;
        }
        let s = Sight { size: *size, ranges: ranges, seen: seen };
        proof {
            assert forall|range: int, from: MapPos, to: MapPos| !#[trigger] s.sees(range, from, to)
                || !s.covers(range) || !inboard(*size, from) || !inboard(*size, to) by {
                if s.covers(range) && inboard(*size, from) && inboard(*size, to) {
                    s.lemma_first_slot(range);
                    lemma_cell_index_bounds(*size, k as int, s.slot_of(range), from, to);
                }
            }
        }
        Some(s)
    }

    /// The map size the table is for.
    pub fn size(&self) -> (s: Size2)
        ensures
            s == self.spec_size(),
    {
        self.size
    }

    /// The slot of `range`, where the table covers it.
    pub fn find_slot(&self, range: ZInt) -> (r: Option<usize>)
        ensures
            r is Some <==> self.covers(range as int),
            r matches Some(i) ==> i == self.slot_of(range as int),
    {
        let mut i: usize = 0;
        while i < self.ranges.len()
            invariant
                0 <= i <= self.ranges@.len(),
                forall|j: int| 0 <= j < i ==> self.ranges@[j] != range,
            decreases self.ranges@.len() - i,
        {
            if self.ranges[i] == range {
                proof {
                    assert(self.spec_ranges()[i as int] == range);
                    self.lemma_first_slot(range as int);
                    let s = self.slot_of(range as int);
                    assert(!(s < i as int));
                    assert(!(s > i as int));
                }
                return Some(i);
            }
            i = i + 1;
        }
        None
    }

    /// The table covers the range `range`.
    pub fn has_range(&self, range: ZInt) -> (b: bool)
        ensures
            b == self.covers(range as int),
    {
        self.find_slot(range).is_some()
    }

    fn index(&self, slot: usize, from: &MapPos, to: &MapPos) -> (i: usize)
        requires
            self.wf(),
            slot < self.ranges@.len(),
            inboard(self.size, *from),
            inboard(self.size, *to),
        ensures
            i == cell_index(self.size, slot as int, *from, *to),
            i < self.seen@.len(),
    {
        proof {
            lemma_cell_index_bounds(self.size, self.ranges@.len() as int, slot as int, *from, *to);
            lemma_tile_index_bounds(self.size, *from);
            lemma_tile_index_bounds(self.size, *to);
        }
        let n: i64 = self.size.w as i64 * self.size.h as i64;
        let fi: i64 = self.size.w as i64 * from.y as i64 + from.x as i64;
        let ti: i64 = self.size.w as i64 * to.y as i64 + to.x as i64;
        proof {
            let k = self.ranges@.len() as int;
            assert(n >= 1) by (nonlinear_arith)
                requires n == self.size.w * self.size.h, self.size.w >= 1, self.size.h >= 1;
            assert(k * n * n <= SIGHT_CELLS_LIMIT);
            assert(slot * n + fi < k * n && (slot * n + fi) * n <= (k * n) * n) by (nonlinear_arith)
                requires 0 <= slot < k, 0 <= fi < n, 0 <= n;
            assert((k * n) * n == k * n * n) by (nonlinear_arith);
            assert(0 <= slot * n) by (nonlinear_arith) requires 0 <= slot, 0 <= n;
            assert(k * n <= k * n * n) by (nonlinear_arith) requires 1 <= n, 0 <= k;
            assert(k <= k * n) by (nonlinear_arith) requires 1 <= n, 0 <= k;
        }
        assert(n == tiles_count(self.size));
        assert(fi == tile_index(self.size, *from));
        assert(ti == tile_index(self.size, *to));
        assert(slot < SIGHT_CELLS_LIMIT);
        let s64: i64 = slot as i64;
        assert(s64 * n + fi == slot * n + fi);
        let a: i64 = s64 * n + fi;
        assert(a * n + ti == cell_index(self.size, slot as int, *from, *to));
        let idx: i64 = a * n + ti;
        idx as usize
    }

    /// Whether a unit with sight range `range` on `from` sees `to`.
    pub fn can_see(&self, range: ZInt, from: &MapPos, to: &MapPos) -> (b: bool)
        requires
            self.wf(),
            self.covers(range as int),
            inboard(self.spec_size(), *from),
            inboard(self.spec_size(), *to),
        ensures
            b == self.sees(range as int, *from, *to),
            b ==> hex_distance(*from, *to) <= range,
    {
        let slot = self.find_slot(range).unwrap();
        proof { self.lemma_first_slot(range as int); }
        let i = self.index(slot, from, to);
        proof {
            if self.sees(range as int, *from, *to) {
                assert(hex_distance(*from, *to) <= range);
            }
        }
        self.seen[i]
    }

    /// Records that a unit with sight range `range` on `from` sees `to`;
    /// every other entry keeps its value.
    pub fn mark(&mut self, range: ZInt, from: &MapPos, to: &MapPos)
        requires
            old(self).wf(),
            old(self).covers(range as int),
            inboard(old(self).spec_size(), *from),
            inboard(old(self).spec_size(), *to),
            hex_distance(*from, *to) <= range,
        ensures
            final(self).wf(),
            final(self).spec_size() == old(self).spec_size(),
            final(self).spec_ranges() == old(self).spec_ranges(),
            final(self).sees(range as int, *from, *to),
            forall|r: int, f: MapPos, t: MapPos|
                old(self).covers(r) && inboard(old(self).spec_size(), f) && inboard(old(self).spec_size(), t)
                && !(r == range && f == *from && t == *to)
                ==> #[trigger] final(self).sees(r, f, t) == old(self).sees(r, f, t),
    {
        let slot = self.find_slot(range).unwrap();
        proof { self.lemma_first_slot(range as int); }
        let i = self.index(slot, from, to);
        self.seen.set(i, true);
        proof {
            assert forall|r: int, f: MapPos, t: MapPos|
                old(self).covers(r) && inboard(old(self).spec_size(), f) && inboard(old(self).spec_size(), t)
                && !(r == range && f == *from && t == *to)
                implies #[trigger] self.sees(r, f, t) == old(self).sees(r, f, t) by {
                old(self).lemma_first_slot(r);
                let s = old(self).slot_of(r);
                lemma_cell_index_bounds(self.size, self.ranges@.len() as int, s, f, t);
                if cell_index(self.size, s, f, t) == i as int {
                    lemma_cell_index_injective(self.size, s, f, t, slot as int, *from, *to);
                    assert(self.ranges@[s] == r);
                }
            }
            assert forall|r: int, f: MapPos, t: MapPos| self.covers(r) && inboard(self.size, f) && inboard(self.size, t)
                && #[trigger] self.sees(r, f, t) implies hex_distance(f, t) <= r by {
                if !(r == range && f == *from && t == *to) {
                    assert(old(self).sees(r, f, t));
                }
            }
        }
    }
}

} // verus!
