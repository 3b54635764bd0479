use vstd::prelude::*;
use vstd::std_specs::vec::vec_index_mut;
use crate::cache::RiskCache;
use crate::cell::{canonical_byte, cell_wf, spec_to_cell, Cell};
use crate::coords::{chunk_point, lemma_chunk_point_injective, spec_chunk_of, spec_offset_of, Coord};
use crate::judges::Judge;
use crate::risk::Risk;

verus! {

/// Sizes this large keep casts to signed 64-bit coordinates safe.
pub const SIZE_LIMIT: usize = 0x4000_0000;

/// How the revealed-cell counter moves on one write: up on a hidden-to-
/// revealed transition, down on the reverse, clamped at the ends of its
/// range.
pub open spec fn bump_revealed(c: usize, was: bool, now: bool) -> usize {
    if was == now {
        c
    } else if now {
        if c < usize::MAX {
            (c + 1) as usize
        } else {
            c
        }
    } else {
        if c > 0 {
            (c - 1) as usize
        } else {
            0
        }
    }
}

/// The engine's aggregate state: the sparse chunked board, the frontier
/// probability cache, and the play parameters.
///
/// Fields are exposed so that specifications can speak about them; callers
/// must only mutate the board and cache through the engine's methods.
#[derive(Clone, Debug, PartialEq)]
pub struct Field {
    /// Sparse board: chunk coordinate to a 64 by 64 block of cell bytes.
    pub chunks: Vec<(Coord, Vec<u8>)>,
    pub risk_cache: RiskCache,
    pub density: Risk,
    pub judge: Judge,
    pub solvable: bool,
    pub size: Option<(usize, usize)>,
    pub cells_revealed: usize,
    pub time_elapsed_ms: u64,
}

impl Field {
    /// The chunk list holds a chunk with this coordinate.
    pub open spec fn chunks_contain(self, c: (int, int)) -> bool {
        exists|i: int|
            0 <= i < self.chunks@.len() && ((#[trigger] self.chunks@[i]).0.0 as int,
            self.chunks@[i].0.1 as int) == c
    }

    /// The index of that chunk (meaningful only under `chunks_contain`).
    pub open spec fn chunk_idx(self, c: (int, int)) -> int {
        choose|i: int|
            0 <= i < self.chunks@.len() && ((#[trigger] self.chunks@[i]).0.0 as int,
            self.chunks@[i].0.1 as int) == c
    }

    /// The stored byte for `p`; absent chunks read as zero.
    pub open spec fn spec_byte_at(self, p: Coord) -> u8 {
        if self.chunks_contain(spec_chunk_of(p)) {
            self.chunks@[self.chunk_idx(spec_chunk_of(p))].1@[spec_offset_of(p)]
        } else {
            0u8
        }
    }

    /// The cell at `p`, ignoring any finite bound.
    pub open spec fn spec_cell_at(self, p: Coord) -> Cell {
        spec_to_cell(self.spec_byte_at(p))
    }

    /// Whether `p` lies inside the finite playing rectangle, if any: a
    /// `w` by `h` block of cells centred on the origin.
    pub open spec fn spec_in_bounds(self, p: Coord) -> bool {
        match self.size {
            Option::None => true,
            Option::Some((w, h)) => {
                &&& -((w as int) / 2) <= p.0 < (w as int + 1) / 2
                &&& -((h as int) / 2) <= p.1 < (h as int + 1) / 2
            },
        }
    }

    /// What `get` returns: out-of-bounds reads see nothing.
    pub open spec fn spec_get(self, p: Coord) -> Option<Cell> {
        if self.spec_in_bounds(p) {
            Some(self.spec_cell_at(p))
        } else {
            None
        }
    }

    /// Chunk coordinates unique, every chunk full-sized with canonical
    /// bytes, the cache ordered, the density a valid fraction, and any
    /// finite size small enough for signed coordinate arithmetic.
    pub open spec fn wf(self) -> bool {
        &&& self.risk_cache.wf()
        &&& self.density.valid()
        &&& forall|i: int, j: int|
            0 <= i < j < self.chunks@.len() ==> (#[trigger] self.chunks@[i]).0 != (
            #[trigger] self.chunks@[j]).0
        &&& forall|i: int|
            0 <= i < self.chunks@.len() ==> (#[trigger] self.chunks@[i]).1@.len() == 4096
        &&& forall|i: int, k: int|
            0 <= i < self.chunks@.len() && 0 <= k < 4096 ==> canonical_byte(
                #[trigger] self.chunks@[i].1@[k],
            )
        &&& match self.size {
            Option::None => true,
            Option::Some((w, h)) => w < SIZE_LIMIT && h < SIZE_LIMIT,
        }
    }

    /// Each stored chunk is its coordinate's unique one.
    pub proof fn lemma_chunk_at(self, i: int)
        requires
            self.wf(),
            0 <= i < self.chunks@.len(),
        ensures
            self.chunks_contain((self.chunks@[i].0.0 as int, self.chunks@[i].0.1 as int)),
            self.chunk_idx((self.chunks@[i].0.0 as int, self.chunks@[i].0.1 as int)) == i,
    {
        let c = (self.chunks@[i].0.0 as int, self.chunks@[i].0.1 as int);
        assert(self.chunks_contain(c));
        let k = self.chunk_idx(c);
        if k != i {
            assert(self.chunks@[k].0 != self.chunks@[i].0);
        }
    }


    /// Two states with the same chunk list read every cell the same way.
    pub proof fn lemma_board_eq(self, other: Field)
        requires
            self.wf(),
            self.chunks == other.chunks,
        ensures
            forall|p: Coord| self.spec_cell_at(p) == other.spec_cell_at(p),
    {
        assert forall|p: Coord| self.spec_cell_at(p) == other.spec_cell_at(p) by {
            let c = spec_chunk_of(p);
            if self.chunks_contain(c) {
                let ia = self.chunk_idx(c);
                assert(0 <= ia < self.chunks@.len() && (self.chunks@[ia].0.0 as int,
                self.chunks@[ia].0.1 as int) == c);
                assert(other.chunks_contain(c)) by {
                    assert((other.chunks@[ia].0.0 as int, other.chunks@[ia].0.1 as int) == c);
                }
                let ib = other.chunk_idx(c);
                assert((other.chunks@[ib].0.0 as int, other.chunks@[ib].0.1 as int) == c);
                if ia != ib {
                    assert(self.chunks@[ia].0.0 == self.chunks@[ib].0.0);
                    assert(self.chunks@[ia].0.1 == self.chunks@[ib].0.1);
                    assert(self.chunks@[ia].0 != self.chunks@[ib].0);
                    assert(false);
                }
                assert(self.spec_byte_at(p) == other.spec_byte_at(p));
            } else {
                if other.chunks_contain(c) {
                    let ib = other.chunk_idx(c);
                    assert((self.chunks@[ib].0.0 as int, self.chunks@[ib].0.1 as int) == c);
                    assert(self.chunks_contain(c));
                    assert(false);
                }
            }
        }
    }

    /// A fresh, empty board with the given parameters.
    pub fn new(density: Risk, judge: Judge, solvable: bool, size: Option<(usize, usize)>) -> (f:
        Field)
        requires
            density.valid(),
            match size {
                Option::None => true,
                Option::Some((w, h)) => w < SIZE_LIMIT && h < SIZE_LIMIT,
            },
        ensures
            f.wf(),
            f.chunks@.len() == 0,
            f.risk_cache.entries@.len() == 0,
            f.density == density,
            f.judge == judge,
            f.solvable == solvable,
            f.size == size,
            f.cells_revealed == 0,
            f.time_elapsed_ms == 0,
            forall|p: Coord| f.spec_cell_at(p) == Cell::Hidden(false),
    {
        let f = Field {
            chunks: Vec::new(),
            risk_cache: RiskCache::new(),
            density,
            judge,
            solvable,
            size,
            cells_revealed: 0,
            time_elapsed_ms: 0,
        };
        proof {
            assert(forall|p: Coord| !f.chunks_contain(spec_chunk_of(p)));
        }
        f
    }

    fn chunk_find(&self, c: Coord) -> (r: Option<usize>)
        requires
            self.wf(),
        ensures
            match r {
                Some(j) => j < self.chunks@.len() && self.chunks@[j as int].0 == c
                    && self.chunks_contain((c.0 as int, c.1 as int)) && self.chunk_idx(
                    (c.0 as int, c.1 as int),
                ) == j,
                None => !self.chunks_contain((c.0 as int, c.1 as int)),
            },
    {
        let n = self.chunks.len();
        let mut i: usize = 0;
        while i < n
            invariant
                n == self.chunks@.len(),
                self.wf(),
                i <= n,
                forall|j: int| 0 <= j < i ==> (#[trigger] self.chunks@[j]).0 != c,
            decreases n - i,
        {
            let e = &self.chunks[i];
            if e.0.0 == c.0 && e.0.1 == c.1 {
                proof {
                    self.lemma_chunk_at(i as int);
                }
                return Some(i);
            }
            i += 1;
        }
        None
    }

    /// The cell at `p`, or nothing outside the finite bound.
    pub fn get(&self, point: Coord) -> (r: Option<Cell>)
        requires
            self.wf(),
        ensures
            r == self.spec_get(point),
            r is Some ==> cell_wf(r.unwrap()),
    {
        if !self.in_bounds(point) {
            return None;
        }
        let (cc, idx) = chunk_point(point);
        match self.chunk_find(cc) {
            Some(j) => {
                let b = self.chunks[j].1[idx];
                Some(crate::cell::CellData { data: b }.to_cell())
            },
            None => {
                proof {
                    assert(self.spec_byte_at(point) == 0u8);
                }
                Some(Cell::Hidden(false))
            },
        }
    }

    fn in_bounds(&self, point: Coord) -> (b: bool)
        requires
            self.wf(),
        ensures
            b == self.spec_in_bounds(point),
    {
        match self.size {
            None => true,
            Some((w, h)) => {
                let wlo = -((w / 2) as i64);
                let whi = ((w + 1) / 2) as i64;
                let hlo = -((h / 2) as i64);
                let hhi = ((h + 1) / 2) as i64;
                wlo <= point.0 && point.0 < whi && hlo <= point.1 && point.1 < hhi
            },
        }
    }

    /// Writes one cell, adjusting the revealed-cell counter on a
    /// hidden/revealed transition. Every other cell keeps its value.
    pub fn set(&mut self, point: Coord, cell: Cell)
        requires
            old(self).wf(),
            cell_wf(cell),
        ensures
            final(self).wf(),
            final(self).spec_cell_at(point) == cell,
            forall|q: Coord| q != point ==> final(self).spec_cell_at(q) == old(self).spec_cell_at(
                q,
            ),
            final(self).cells_revealed == bump_revealed(
                old(self).cells_revealed,
                old(self).spec_cell_at(point) is Revealed,
                cell is Revealed,
            ),
            final(self).risk_cache == old(self).risk_cache,
            final(self).density == old(self).density,
            final(self).judge == old(self).judge,
            final(self).solvable == old(self).solvable,
            final(self).size == old(self).size,
            final(self).time_elapsed_ms == old(self).time_elapsed_ms,
    {
        let (cc, idx) = chunk_point(point);
        let ghost pre = *self;
        let j = match self.chunk_find(cc) {
            Some(j) => j,
            None => {
                let fresh: Vec<u8> = vec![0u8; 4096];
                let j = self.chunks.len();
                self.chunks.push((cc, fresh));
                proof {
                    assert(self.chunks@[j as int].1@.len() == 4096);
                    assert(spec_to_cell(0u8) == Cell::Hidden(false));
                    assert(canonical_byte(0u8));
                    assert forall|a: int, b: int|
                        0 <= a < b < self.chunks@.len() implies (#[trigger] self.chunks@[a]).0 != (
                        #[trigger] self.chunks@[b]).0 by {
                        if b < j {
                            assert(self.chunks@[a] == pre.chunks@[a]);
                            assert(self.chunks@[b] == pre.chunks@[b]);
                        } else {
                            assert(self.chunks@[b].0 == cc);
                            if a < j {
                                assert(self.chunks@[a] == pre.chunks@[a]);
                                pre.lemma_chunk_at(a);
                                assert(!pre.chunks_contain((cc.0 as int, cc.1 as int)));
                            }
                        }
                    }
                    assert forall|i: int|
                        0 <= i < self.chunks@.len() implies (#[trigger] self.chunks@[i]).1@.len()
                        == 4096 by {
                        if i < j {
                            assert(self.chunks@[i] == pre.chunks@[i]);
                        }
                    }
                    assert forall|i: int, k: int|
                        0 <= i < self.chunks@.len() && 0 <= k < 4096 implies canonical_byte(
                        #[trigger] self.chunks@[i].1@[k],
                    ) by {
                        if i < j {
                            assert(self.chunks@[i] == pre.chunks@[i]);
                        } else {
                            assert(self.chunks@[i].1@[k] == 0u8);
                        }
                    }
                    assert(self.wf());
                    assert forall|q: Coord| self.spec_cell_at(q) == pre.spec_cell_at(q) by {
                        self.lemma_push_frame(pre, cc, q);
                    }
                    self.lemma_chunk_at(j as int);
                }
                j
            },
        };
        let ghost mid = *self;
        proof {
            assert(mid.chunks@[j as int].0 == cc);
            mid.lemma_chunk_at(j as int);
        }
        let b = cell.to_data().data;
        let was = {
            let cur = self.chunks[j].1[idx];
            crate::cell::CellData { data: cur }.to_cell().is_revealed()
        };
        let entry = vec_index_mut(&mut self.chunks, j);
        let slot = vec_index_mut(&mut entry.1, idx);
        *slot = b;
        proof {
            assert(self.chunks@ == mid.chunks@.update(
                j as int,
                (cc, self.chunks@[j as int].1),
            ));
            assert(self.chunks@[j as int].1@ == mid.chunks@[j as int].1@.update(idx as int, b));
            crate::cell::lemma_cell_roundtrip(cell);
            assert forall|a: int, b2: int|
                0 <= a < b2 < self.chunks@.len() implies (#[trigger] self.chunks@[a]).0 != (
                #[trigger] self.chunks@[b2]).0 by {
                assert(self.chunks@[a].0 == mid.chunks@[a].0);
                assert(self.chunks@[b2].0 == mid.chunks@[b2].0);
            }
            assert forall|i: int, k: int|
                0 <= i < self.chunks@.len() && 0 <= k < 4096 implies canonical_byte(
                #[trigger] self.chunks@[i].1@[k],
            ) by {
                if i == j as int && k == idx as int {
                } else if i == j as int {
                    assert(self.chunks@[i].1@[k] == mid.chunks@[i].1@[k]);
                } else {
                    assert(self.chunks@[i] == mid.chunks@[i]);
                }
            }
            self.lemma_chunk_at(j as int);
            assert(self.spec_byte_at(point) == b) by {
                assert(spec_chunk_of(point) == (cc.0 as int, cc.1 as int));
                assert(self.chunk_idx(spec_chunk_of(point)) == j as int);
            }
            assert forall|q: Coord| q != point implies self.spec_cell_at(q) == mid.spec_cell_at(
                q,
            ) by {
                self.lemma_update_frame(mid, point, cc, idx as int, j as int, q);
            }
            assert(mid.spec_cell_at(point) == pre.spec_cell_at(point));
        }
        if was != cell.is_revealed() {
            if cell.is_revealed() {
                if self.cells_revealed < usize::MAX {
                    self.cells_revealed = self.cells_revealed + 1;
                }
            } else {
                if self.cells_revealed > 0 {
                    self.cells_revealed = self.cells_revealed - 1;
                }
            }
        }
    }

    proof fn lemma_push_frame(self, pre: Field, cc: Coord, q: Coord)
        requires
            pre.wf(),
            self.chunks@ == pre.chunks@.push((cc, self.chunks@[pre.chunks@.len() as int].1)),
            self.chunks@[pre.chunks@.len() as int].1@.len() == 4096,
            forall|k: int|
                0 <= k < 4096 ==> self.chunks@[pre.chunks@.len() as int].1@[k] == 0u8,
            !pre.chunks_contain((cc.0 as int, cc.1 as int)),
        ensures
            self.spec_cell_at(q) == pre.spec_cell_at(q),
    {
        let n = pre.chunks@.len() as int;
        let c = spec_chunk_of(q);
        if pre.chunks_contain(c) {
            let i = pre.chunk_idx(c);
            assert(pre.chunks@[i] == self.chunks@[i]);
            assert(self.chunks_contain(c));
            let k = self.chunk_idx(c);
            if k != i {
                if k == n {
                    assert((self.chunks@[n].0.0 as int, self.chunks@[n].0.1 as int) == (
                    cc.0 as int,
                    cc.1 as int,
                ));
                    assert(false);
                } else {
                    assert(pre.chunks@[k].0 != pre.chunks@[i].0);
                    assert(false);
                }
            }
        } else {
            if self.chunks_contain(c) {
                let k = self.chunk_idx(c);
                if k < n {
                    assert(pre.chunks@[k] == self.chunks@[k]);
                    assert(pre.chunks_contain(c));
                    assert(false);
                } else {
                    assert(c == (cc.0 as int, cc.1 as int));
                    assert(self.spec_byte_at(q) == self.chunks@[n].1@[spec_offset_of(q)]);
                    crate::coords::lemma_offset_in_range(q);
                    assert(self.spec_byte_at(q) == 0u8);
                }
            }
        }
    }

    proof fn lemma_update_frame(self, mid: Field, point: Coord, cc: Coord, idx: int, j: int, q:
        Coord)
        requires
            mid.wf(),
            q != point,
            0 <= j < mid.chunks@.len(),
            mid.chunks@[j].0 == cc,
            (cc.0 as int, cc.1 as int) == spec_chunk_of(point),
            idx == spec_offset_of(point),
            self.chunks@ == mid.chunks@.update(j, (cc, self.chunks@[j].1)),
            self.chunks@[j].1@ == mid.chunks@[j].1@.update(idx, self.chunks@[j].1@[idx]),
        ensures
            self.spec_cell_at(q) == mid.spec_cell_at(q),
    {
        let c = spec_chunk_of(q);
        assert forall|i: int| 0 <= i < self.chunks@.len() implies (#[trigger] self.chunks@[i]).0
            == mid.chunks@[i].0 by {
            if i != j {
                assert(self.chunks@[i] == mid.chunks@[i]);
            }
        }
        if mid.chunks_contain(c) {
            let i = mid.chunk_idx(c);
            assert(self.chunks_contain(c)) by {
                assert((self.chunks@[i].0.0 as int, self.chunks@[i].0.1 as int) == c);
            }
            let k = self.chunk_idx(c);
            assert((self.chunks@[k].0.0 as int, self.chunks@[k].0.1 as int) == c);
            if k != i {
                assert(mid.chunks@[k].0 != mid.chunks@[i].0);
                assert(false);
            }
            if i == j {
                if spec_offset_of(q) != idx {
                    assert(self.chunks@[j].1@[spec_offset_of(q)]
                        == mid.chunks@[j].1@[spec_offset_of(q)]);
                } else {
                    lemma_chunk_point_injective(point, q);
                    assert(false);
                }
            } else {
                assert(self.chunks@[i] == mid.chunks@[i]);
            }
        } else {
            if self.chunks_contain(c) {
                let k = self.chunk_idx(c);
                assert((mid.chunks@[k].0.0 as int, mid.chunks@[k].0.1 as int) == c);
                assert(mid.chunks_contain(c));
                assert(false);
            }
        }
    }

    /// Flips the player's mark on a hidden, in-bounds cell; anything else is
    /// left alone.
    pub fn toggle_flag(&mut self, point: Coord)
        requires
            old(self).wf(),
        ensures
            final(self).wf(),
            match old(self).spec_get(point) {
                Some(Cell::Hidden(p)) => final(self).spec_cell_at(point) == Cell::Hidden(!p),
                _ => final(self).spec_cell_at(point) == old(self).spec_cell_at(point),
            },
            forall|q: Coord| q != point ==> final(self).spec_cell_at(q) == old(self).spec_cell_at(
                q,
            ),
            final(self).cells_revealed == old(self).cells_revealed,
            final(self).risk_cache == old(self).risk_cache,
            final(self).density == old(self).density,
            final(self).judge == old(self).judge,
            final(self).solvable == old(self).solvable,
            final(self).size == old(self).size,
            final(self).time_elapsed_ms == old(self).time_elapsed_ms,
    {
        match self.get(point) {
            Some(Cell::Hidden(p)) => {
                self.set(point, Cell::Hidden(!p));
            },
            _ => {},
        }
    }

    /// Empties the board and the cache and zeroes the reveal counter; the
    /// play parameters stay.
    pub fn clear(&mut self)
        requires
            old(self).wf(),
        ensures
            final(self).wf(),
            final(self).chunks@.len() == 0,
            final(self).risk_cache.entries@.len() == 0,
            final(self).cells_revealed == 0,
            forall|p: Coord| final(self).spec_cell_at(p) == Cell::Hidden(false),
            final(self).density == old(self).density,
            final(self).judge == old(self).judge,
            final(self).solvable == old(self).solvable,
            final(self).size == old(self).size,
            final(self).time_elapsed_ms == old(self).time_elapsed_ms,
    {
        self.chunks.clear();
        self.risk_cache.clear();
        self.cells_revealed = 0;
        proof {
            assert(forall|p: Coord| !self.chunks_contain(spec_chunk_of(p)));
        }
    }

    pub fn density(&self) -> (d: Risk)
        ensures
            d == self.density,
    {
        self.density
    }

    pub fn risks(&self) -> (r: &RiskCache)
        ensures
            r == &self.risk_cache,
    {
        &self.risk_cache
    }

    /// Adds to the elapsed play time, saturating at the top of the range.
    pub fn pass_time(&mut self, ms: u64)
        ensures
            final(self).time_elapsed_ms == if old(self).time_elapsed_ms + ms <= u64::MAX {
                (old(self).time_elapsed_ms + ms) as u64
            } else {
                u64::MAX
            },
            final(self).chunks == old(self).chunks,
            final(self).risk_cache == old(self).risk_cache,
            final(self).density == old(self).density,
            final(self).judge == old(self).judge,
            final(self).solvable == old(self).solvable,
            final(self).size == old(self).size,
            final(self).cells_revealed == old(self).cells_revealed,
    {
        self.time_elapsed_ms = match self.time_elapsed_ms.checked_add(ms) {
            Some(t) => t,
            None => u64::MAX,
        };
    }

    pub fn cells_revealed(&self) -> (n: usize)
        ensures
            n == self.cells_revealed,
    {
        self.cells_revealed
    }

    pub fn time_elapsed(&self) -> (t: u64)
        ensures
            t == self.time_elapsed_ms,
    {
        self.time_elapsed_ms
    }
}

impl Default for Field {
    /// A fresh unbounded board with density 3/10 under the Kind policy.
    fn default() -> (f: Field)
        ensures
            f.wf(),
            f.chunks@.len() == 0,
            f.risk_cache.entries@.len() == 0,
            f.density == (Risk { num: 3, den: 10 }),
            f.judge == Judge::Kind,
            f.solvable == false,
            f.size == Option::<(usize, usize)>::None,
            f.cells_revealed == 0,
            f.time_elapsed_ms == 0,
            forall|p: Coord| f.spec_cell_at(p) == Cell::Hidden(false),
    {
        Field::new(Risk { num: 3, den: 10 }, Judge::Kind, false, None)
    }
}

} // verus!
