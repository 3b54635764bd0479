use vstd::prelude::*;
use vstd::std_specs::vec::vec_index_mut;
use crate::cell::Cell;
use crate::coords::{adjacents, Coord, spec_coord_inner};
use crate::field::{bump_revealed, Field};
use crate::risk::{risk_from_ratio, Risk};
use crate::rng::random_u64;

verus! {

/// The largest rectangle the solver will slice out of the board.
pub const WORLD_CAP: usize = 0x400000;

/// How many backtracking steps one reveal may spend.
pub const SOLVE_FUEL: u64 = 0x400000;

/// A finite section of the board in which each revealed cell carries its
/// remaining expected mine count and its count of adjacent unknowns.
struct SmallWorld {
    marsh: Vec<Option<(i64, i64)>>,
    ox: i64,
    oy: i64,
    width: usize,
    height: usize,
}

impl SmallWorld {
    spec fn wf(self) -> bool {
        &&& self.marsh@.len() == self.width * self.height
        &&& 1 <= self.width
        &&& 1 <= self.height
        &&& self.width * self.height <= WORLD_CAP
    }

    /// Builds the slice: a revealed cell becomes `Some((n, 0))`, anything
    /// else (hidden or out of bounds) is unconstrained.
    fn new(field: &Field, origin: Coord, dims: (usize, usize)) -> (w: SmallWorld)
        requires
            field.wf(),
            1 <= dims.0,
            1 <= dims.1,
            dims.0 * dims.1 <= WORLD_CAP,
            -0x2000_0000_0000_0000 <= origin.0,
            origin.0 + dims.0 <= 0x2000_0000_0000_0000,
            -0x2000_0000_0000_0000 <= origin.1,
            origin.1 + dims.1 <= 0x2000_0000_0000_0000,
        ensures
            w.wf(),
            w.width == dims.0,
            w.height == dims.1,
            w.ox == origin.0,
            w.oy == origin.1,
            forall|r: int, c: int|
                0 <= r < dims.1 && 0 <= c < dims.0 ==> w.marsh@[r * dims.0 + c] == (
                match #[trigger] field.spec_get(((origin.0 + c) as i64, (origin.1 + r) as i64)) {
                    Some(Cell::Revealed(n)) => Some((n as i64, 0i64)),
                    _ => Option::<(i64, i64)>::None,
                }),
    {
        let (ox, oy) = origin;
        let (width, height) = dims;
        let mut marsh: Vec<Option<(i64, i64)>> = Vec::new();
        let mut row: usize = 0;
        while row < height
            invariant
                field.wf(),
                width * height <= WORLD_CAP,
                1 <= width,
                row <= height,
                marsh@.len() == row * width,
                -0x2000_0000_0000_0000 <= ox,
                ox + width <= 0x2000_0000_0000_0000,
                -0x2000_0000_0000_0000 <= oy,
                oy + height <= 0x2000_0000_0000_0000,
                forall|r2: int, c2: int|
                    0 <= r2 < row && 0 <= c2 < width ==> marsh@[r2 * width + c2] == (
                    match #[trigger] field.spec_get(((ox + c2) as i64, (oy + r2) as i64)) {
                        Some(Cell::Revealed(n)) => Some((n as i64, 0i64)),
                        _ => Option::<(i64, i64)>::None,
                    }),
            decreases height - row,
        {
            let mut col: usize = 0;
            proof {
                assert((row + 1) * width == row * width + width) by (nonlinear_arith);
                assert(row * width + width <= height * width) by (nonlinear_arith)
                    requires
                        row + 1 <= height,
                        1 <= width,
                ;
            }
            while col < width
                invariant
                    field.wf(),
                    col <= width,
                    1 <= width,
                    marsh@.len() == row * width + col,
                    row < height,
                    -0x2000_0000_0000_0000 <= ox,
                    ox + width <= 0x2000_0000_0000_0000,
                    -0x2000_0000_0000_0000 <= oy,
                    oy + height <= 0x2000_0000_0000_0000,
                    forall|r2: int, c2: int|
                        0 <= r2 < row && 0 <= c2 < width ==> marsh@[r2 * width + c2] == (
                        match #[trigger] field.spec_get(((ox + c2) as i64, (oy + r2) as i64)) {
                            Some(Cell::Revealed(n)) => Some((n as i64, 0i64)),
                            _ => Option::<(i64, i64)>::None,
                        }),
                    forall|c2: int|
                        0 <= c2 < col ==> marsh@[row * width + c2] == (
                        match #[trigger] field.spec_get(((ox + c2) as i64, (oy + row) as i64)) {
                            Some(Cell::Revealed(n)) => Some((n as i64, 0i64)),
                            _ => Option::<(i64, i64)>::None,
                        }),
                decreases width - col,
            {
                let x = ox + col as i64;
                let y = oy + row as i64;
                let c = match field.get((x, y)) {
                    Some(Cell::Revealed(n)) => Some((n as i64, 0i64)),
                    _ => None,
                };
                let ghost before = marsh@;
                marsh.push(c);
                proof {
                    assert forall|r2: int, c2: int|
                        0 <= r2 < row && 0 <= c2 < width implies marsh@[r2 * width + c2] == (
                        match #[trigger] field.spec_get(((ox + c2) as i64, (oy + r2) as i64)) {
                            Some(Cell::Revealed(n)) => Some((n as i64, 0i64)),
                            _ => Option::<(i64, i64)>::None,
                        }) by {
                        assert(r2 * width + c2 < row * width) by (nonlinear_arith)
                            requires
                                0 <= r2 < row,
                                0 <= c2 < width,
                        ;
                        assert(marsh@[r2 * width + c2] == before[r2 * width + c2]);
                    }
                    assert forall|c2: int|
                        0 <= c2 < col + 1 implies marsh@[row * width + c2] == (
                        match #[trigger] field.spec_get(((ox + c2) as i64, (oy + row) as i64)) {
                            Some(Cell::Revealed(n)) => Some((n as i64, 0i64)),
                            _ => Option::<(i64, i64)>::None,
                        }) by {
                        if c2 < col {
                            assert(marsh@[row * width + c2] == before[row * width + c2]);
                        } else {
                            assert(marsh@[row * width + c2] == c);
                        }
                    }
                }
                col += 1;
            }
            row += 1;
        }
        proof {
            assert(height * width == width * height) by (nonlinear_arith);
        }
        SmallWorld { marsh, ox, oy, width, height }
    }

    /// The flat index of a coordinate, if it lies inside the slice.
    fn index_of(&self, p: Coord) -> (r: Option<usize>)
        requires
            self.wf(),
            -0x3000_0000_0000_0000 <= p.0 <= 0x3000_0000_0000_0000,
            -0x3000_0000_0000_0000 <= p.1 <= 0x3000_0000_0000_0000,
            -0x3000_0000_0000_0000 <= self.ox <= 0x3000_0000_0000_0000,
            -0x3000_0000_0000_0000 <= self.oy <= 0x3000_0000_0000_0000,
        ensures
            r is Some ==> r.unwrap() < self.marsh@.len(),
    {
        let dx = p.0 - self.ox;
        let dy = p.1 - self.oy;
        if 0 <= dx && dx < self.width as i64 && 0 <= dy && dy < self.height as i64 {
            proof {
                assert((dy as int) * self.width + dx < self.width * self.height)
                    by (nonlinear_arith)
                    requires
                        0 <= dx < self.width,
                        0 <= dy < self.height,
                ;
                assert((dy as int) * self.width <= WORLD_CAP * 1) by (nonlinear_arith)
                    requires
                        0 <= dy,
                        (dy as int) * self.width + dx < self.width * self.height,
                        self.width * self.height <= WORLD_CAP,
                        0 <= dx,
                ;
            }
            let r = (dy as usize) * self.width + dx as usize;
            Some(r)
        } else {
            None
        }
    }

    /// The board coordinate of a flat index.
    fn position_of(&self, pos: usize) -> (p: Coord)
        requires
            self.wf(),
            pos < self.marsh@.len(),
            -0x3000_0000_0000_0000 <= self.ox <= 0x3000_0000_0000_0000,
            -0x3000_0000_0000_0000 <= self.oy <= 0x3000_0000_0000_0000,
    {
        proof {
            assert(pos / self.width < self.height && pos % self.width < self.width
                && self.width <= WORLD_CAP && self.height <= WORLD_CAP) by (nonlinear_arith)
                requires
                    pos < self.width * self.height,
                    self.width * self.height <= WORLD_CAP,
                    1 <= self.width,
                    1 <= self.height,
            ;
        }
        ((pos % self.width) as i64 + self.ox, (pos / self.width) as i64 + self.oy)
    }

    /// The eight flat neighbours of an interior index, or nothing when the
    /// index touches the border of the slice.
    fn adjacents8(&self, pos: usize) -> (r: Option<[usize; 8]>)
        requires
            self.wf(),
            pos < self.marsh@.len(),
        ensures
            match r {
                Some(a) => forall|k: int| 0 <= k < 8 ==> a@[k] < self.marsh@.len(),
                None => true,
            },
    {
        let w = self.width;
        proof {
            assert(pos / w < self.height && pos % w < w) by (nonlinear_arith)
                requires
                    pos < w * self.height,
                    1 <= w,
                    1 <= self.height,
            ;
        }
        let col = pos % w;
        let row = pos / w;
        if col == 0 || col + 1 >= w || row == 0 || row + 1 >= self.height {
            return None;
        }
        proof {
            assert((row + 1) * w + col + 1 < w * self.height) by (nonlinear_arith)
                requires
                    1 <= w,
                    col + 2 <= w,
                    row + 2 <= self.height,
            ;
            assert(row * w == (row - 1) * w + w && (row + 1) * w == row * w + w)
                by (nonlinear_arith);
            assert(pos == row * w + col) by (nonlinear_arith)
                requires
                    1 <= w,
                    col == pos % w,
                    row == pos / w,
            ;
        }
        let above = pos - w;
        let below = pos + w;
        Some(
            [above - 1, above, above + 1, pos - 1, pos + 1, below - 1, below, below + 1],
        )
    }
}


/// One step down, stopping at the bottom of the range.
fn sat_dec(v: i64) -> (r: i64)
    ensures
        r == if v > i64::MIN { v - 1 } else { v as int },
{
    if v > i64::MIN {
        v - 1
    } else {
        v
    }
}

/// One step up, stopping at the top of the range.
fn sat_inc(v: i64) -> (r: i64)
    ensures
        r == if v < i64::MAX { v + 1 } else { v as int },
{
    if v < i64::MAX {
        v + 1
    } else {
        v
    }
}

/// Multiplies `base` into itself `exp` times, refusing on overflow.
fn pow_checked(base: u64, exp: usize) -> (r: Option<u128>)
    ensures
        exp == 0 ==> r == Some(1u128),
        base >= 1 && r is Some ==> r.unwrap() >= 1,
{
    let mut acc: u128 = 1;
    let mut i: usize = 0;
    while i < exp
        invariant
            base >= 1 ==> acc >= 1,
            i == 0 ==> acc == 1,
            i <= exp,
        decreases exp - i,
    {
        let next = match acc.checked_mul(base as u128) {
            Some(v) => v,
            None => { return None; },
        };
        proof {
            if base >= 1 {
                assert(next >= 1) by (nonlinear_arith)
                    requires
                        next == acc * base,
                        acc >= 1,
                        base >= 1,
                ;
            }
        }
        acc = next;
        i += 1;
    }
    Some(acc)
}

/// The binomial coefficient for small arguments, by Pascal's triangle.
fn binom_small(n: usize, k: usize) -> (r: u128)
    requires
        n <= 8,
        k <= n,
    ensures
        k == 0 ==> r == 1,
{
    let mut row: Vec<u128> = Vec::new();
    row.push(1);
    let mut step: usize = 0;
    while step < n
        invariant
            step <= n <= 8,
            row@.len() == step + 1,
            row@[0] == 1,
            forall|j: int| 0 <= j < row@.len() ==> #[trigger] row@[j] <= 0x100,
        decreases n - step,
    {
        let mut next: Vec<u128> = Vec::new();
        next.push(1);
        let mut j: usize = 1;
        while j < row.len()
            invariant
                row@.len() == step + 1,
                step <= 8,
                1 <= j <= row@.len(),
                next@.len() == j,
                next@[0] == 1,
                forall|t: int| 0 <= t < row@.len() ==> #[trigger] row@[t] <= 0x100,
                forall|t: int| 0 <= t < next@.len() ==> #[trigger] next@[t] <= 0x100,
            decreases row@.len() - j,
        {
            let mut v = row[j - 1] + row[j];
            if v > 0x100 {
                v = 0x100;
            }
            next.push(v);
            j += 1;
        }
        next.push(1);
        row = next;
        step += 1;
    }
    if k < row.len() {
        row[k]
    } else {
        1
    }
}

impl Field {
    /// What the judges treat as `p`'s mine probability: the cached value if
    /// present; zero for revealed cells and for the very first click (empty
    /// cache with density below 1); the prior density otherwise.
    pub open spec fn spec_cell_risk(self, p: Coord) -> Risk {
        match self.risk_cache.spec_get(p) {
            Some(r) => r,
            None => if (self.spec_get(p) matches Some(Cell::Revealed(_))) || (
            self.risk_cache.entries@.len() == 0 && self.density.lt(Risk { num: 1, den: 1 })) {
                Risk { num: 0, den: 1 }
            } else {
                self.density
            },
        }
    }

    /// The judges' view of `p`'s mine probability.
    pub fn cell_risk(&self, point: Coord) -> (r: Risk)
        requires
            self.wf(),
        ensures
            r == self.spec_cell_risk(point),
            r.valid(),
    {
        match self.risk_cache.get(point) {
            Some(r) => r,
            None => {
                let revealed = match self.get(point) {
                    Some(Cell::Revealed(_)) => true,
                    _ => false,
                };
                let one = Risk::one();
                if revealed || (self.risk_cache.is_empty() && self.density.lt_exec(&one)) {
                    Risk::zero()
                } else {
                    self.density
                }
            },
        }
    }

    /// Enumerates the mine placements around `point` that are consistent
    /// with every revealed number, draws the number the target will show,
    /// and writes the refreshed frontier probabilities. Never touches the
    /// board itself, never removes a cache entry, and never caches the
    /// target; an empty group draws 0 and leaves the cache exactly as it
    /// was.
    ///
    /// When the slice or the tallies outgrow their bounds — which no state a
    /// reveal can reach produces — the refinement is abandoned: the target
    /// shows 0 and the cache is left as it was.
    fn solve_core(&mut self, point: Coord, first_zero: bool) -> (num: u8)
        requires
            old(self).wf(),
            spec_coord_inner(point),
            !old(self).risk_cache.spec_contains(point),
        ensures
            final(self).wf(),
            num <= 8,
            final(self).chunks == old(self).chunks,
            final(self).density == old(self).density,
            final(self).judge == old(self).judge,
            final(self).solvable == old(self).solvable,
            final(self).size == old(self).size,
            final(self).cells_revealed == old(self).cells_revealed,
            final(self).time_elapsed_ms == old(self).time_elapsed_ms,
            !final(self).risk_cache.spec_contains(point),
            forall|q: Coord|
                old(self).risk_cache.spec_contains(q) ==> final(self).risk_cache.spec_contains(q),
            crate::group::spec_group_from(
                *old(self),
                crate::coords::spec_adj64(point).push(point),
                true,
            ) == Seq::<Coord>::empty() ==> num == 0 && final(self).risk_cache == old(
                self,
            ).risk_cache,
            first_zero && old(self).risk_cache.entries@.len() == 0 && old(self).density.lt(
                Risk { num: 1, den: 1 },
            ) ==> num == 0,
    {
        let mut stack = adjacents(point);
        stack.push(point);
        let group = self.group_from(stack, true);
        if group.len() == 0 {
            return 0;
        }
        // the axis-aligned bounding box of the group, inflated by one cell
        let glen = group.len();
        let mut lx: i64 = i64::MAX;
        let mut hx: i64 = i64::MIN;
        let mut ly: i64 = i64::MAX;
        let mut hy: i64 = i64::MIN;
        let mut gi: usize = 0;
        while gi < glen
            invariant
                glen == group@.len(),
                self.wf(),
                gi <= glen,
                forall|k: int|
                    0 <= k < glen ==> crate::group::spec_group_member(
                        *self,
                        #[trigger] group@[k],
                        true,
                    ),
                gi > 0 ==> -0x2000_0000_0000_0000 + 1 <= lx <= 0x2000_0000_0000_0000,
                gi > 0 ==> -0x2000_0000_0000_0000 <= hx <= 0x2000_0000_0000_0000,
                gi > 0 ==> -0x2000_0000_0000_0000 + 1 <= ly <= 0x2000_0000_0000_0000,
                gi > 0 ==> -0x2000_0000_0000_0000 <= hy <= 0x2000_0000_0000_0000,
                gi == 0 ==> lx == i64::MAX && hx == i64::MIN && ly == i64::MAX && hy == i64::MIN,
            decreases glen - gi,
        {
            let (x, y) = group[gi];
            if gi == 0 {
                lx = x - 1;
                hx = x + 2;
                ly = y - 1;
                hy = y + 2;
            } else {
                if x - 1 < lx {
                    lx = x - 1;
                }
                if x + 2 > hx {
                    hx = x + 2;
                }
                if y - 1 < ly {
                    ly = y - 1;
                }
                if y + 2 > hy {
                    hy = y + 2;
                }
            }
            gi += 1;
        }
        if !(lx < hx && ly < hy) {
            return 0;
        }
        let w128 = (hx as i128) - (lx as i128);
        let h128 = (hy as i128) - (ly as i128);
        proof {
            assert(0 <= w128 * h128 <= 0x4000_0000_0000_0000_0000_0000_0000_0000i128)
                by (nonlinear_arith)
                requires
                    1 <= w128 <= 0x4000_0000_0000_0001,
                    1 <= h128 <= 0x4000_0000_0000_0001,
            ;
        }
        if w128 * h128 > WORLD_CAP as i128 {
            // a frontier this large cannot be enumerated
            return 0;
        }
        proof {
            assert(w128 <= WORLD_CAP && h128 <= WORLD_CAP) by (nonlinear_arith)
                requires
                    1 <= w128,
                    1 <= h128,
                    w128 * h128 <= WORLD_CAP,
            ;
        }
        let width = (hx - lx) as usize;
        let height = (hy - ly) as usize;
        proof {
            assert(width * height == w128 * h128) by (nonlinear_arith)
                requires
                    width == hx - lx,
                    height == hy - ly,
                    w128 == hx - lx,
                    h128 == hy - ly,
            ;
        }
        let mut world = SmallWorld::new(self, (lx, ly), (width, height));
        let target = match world.index_of(point) {
            Some(t) => t,
            None => { return 0; },
        };
        // the target starts at -1 expected mines, so decrementing it can
        // never trip the consistency check; its final value inverted is the
        // number it will display
        {
            let slot = vec_index_mut(&mut world.marsh, target);
            *slot = Some((-1i64, 0i64));
        }
        // subtract the already-certain mines from every number in the slice
        let mut y = ly - 1;
        while y < hy + 1
            invariant
                self.wf(),
                *self == *old(self),
                target < world.marsh@.len(),
                old(self).risk_cache.entries@.len() == 0 ==> world.marsh@[target as int] == Some(
                    (-1i64, 0i64),
                ),
                world.wf(),
                ly - 1 <= y <= hy + 1,
                -0x2000_0000_0000_0000 + 1 <= lx < hx <= 0x2000_0000_0000_0000,
                -0x2000_0000_0000_0000 + 1 <= ly < hy <= 0x2000_0000_0000_0000,
                world.ox == lx,
                world.oy == ly,
                world.width == width,
                world.height == height,
            decreases hy + 1 - y,
        {
            let mut x = lx - 1;
            while x < hx + 1
                invariant
                    self.wf(),
                    *self == *old(self),
                    target < world.marsh@.len(),
                    old(self).risk_cache.entries@.len() == 0 ==> world.marsh@[target as int]
                        == Some((-1i64, 0i64)),
                    world.wf(),
                    lx - 1 <= x <= hx + 1,
                    ly - 1 <= y <= hy,
                    -0x2000_0000_0000_0000 + 1 <= lx < hx <= 0x2000_0000_0000_0000,
                    -0x2000_0000_0000_0000 + 1 <= ly < hy <= 0x2000_0000_0000_0000,
                    world.ox == lx,
                    world.oy == ly,
                    world.width == width,
                    world.height == height,
                decreases hx + 1 - x,
            {
                let certain = match self.risk_cache.get((x, y)) {
                    Some(r) => r.is_one(),
                    None => false,
                };
                if certain {
                    proof {
                        if old(self).risk_cache.entries@.len() == 0 {
                            assert(false);
                        }
                    }
                    let adj = adjacents((x, y));
                    let ghost wlen0 = world.marsh@.len();
                    let mut ak: usize = 0;
                    while ak < 8
                        invariant
                            adj@.len() == 8,
                            world.wf(),
                            world.marsh@.len() == wlen0,
                            world.ox == lx,
                            world.oy == ly,
                            world.width == width,
                            world.height == height,
                            -0x2000_0000_0000_0000 + 1 <= lx < hx <= 0x2000_0000_0000_0000,
                            -0x2000_0000_0000_0000 + 1 <= ly < hy <= 0x2000_0000_0000_0000,
                            forall|k: int|
                                0 <= k < 8 ==> -0x3000_0000_0000_0000 <= (#[trigger] adj@[k]).0
                                    <= 0x3000_0000_0000_0000 && -0x3000_0000_0000_0000 <= adj@[k].1
                                    <= 0x3000_0000_0000_0000,
                        decreases 8 - ak,
                    {
                        let a = adj[ak];
                        match world.index_of(a) {
                            Some(wi) => {
                                let slot = vec_index_mut(&mut world.marsh, wi);
                                match slot {
                                    Some(nu) => {
                                        nu.0 = sat_dec(nu.0);
                                    },
                                    None => {},
                                }
                            },
                            None => {},
                        }
                        ak += 1;
                    }
                }
                x += 1;
            }
            y += 1;
        }
        // split the group tail into constrained unknowns and unconstrained
        // cells; count each unknown into its neighbouring numbers
        let mut unk_idx: Vec<usize> = Vec::new();
        let mut unk_adj: Vec<[usize; 8]> = Vec::new();
        let mut unconstrained: Vec<Coord> = Vec::new();
        let mut gi2: usize = 1;
        let mut degraded = false;
        while gi2 < glen
            invariant
                glen == group@.len(),
                self.wf(),
                *self == *old(self),
                target < world.marsh@.len(),
                old(self).risk_cache.entries@.len() == 0 ==> unk_idx@.len() == 0
                    && world.marsh@[target as int] == Some((-1i64, 0i64)),
                world.wf(),
                1 <= gi2,
                unk_idx@.len() == unk_adj@.len(),
                forall|k: int| 0 <= k < unk_idx@.len() ==> #[trigger] unk_idx@[k] < world.marsh@.len(),
                forall|k: int, e: int|
                    0 <= k < unk_adj@.len() && 0 <= e < 8 ==> (#[trigger] unk_adj@[k]@[e])
                        < world.marsh@.len(),
                forall|k: int|
                    0 <= k < glen ==> crate::group::spec_group_member(
                        *self,
                        #[trigger] group@[k],
                        true,
                    ),
                world.ox == lx,
                world.oy == ly,
                world.width == width,
                world.height == height,
                -0x2000_0000_0000_0000 + 1 <= lx < hx <= 0x2000_0000_0000_0000,
                -0x2000_0000_0000_0000 + 1 <= ly < hy <= 0x2000_0000_0000_0000,
            decreases glen - gi2,
        {
            let pos = group[gi2];
            if !self.risk_cache.contains_key(pos) {
                unconstrained.push(pos);
                gi2 += 1;
                continue ;
            }
            proof {
                if old(self).risk_cache.entries@.len() == 0 {
                    assert(false);
                }
            }
            let wi = match world.index_of(pos) {
                Some(wi) => wi,
                None => {
                    degraded = true;
                    break ;
                },
            };
            let adj8 = match world.adjacents8(wi) {
                Some(a) => a,
                None => {
                    degraded = true;
                    break ;
                },
            };
            let ghost wlen = world.marsh@.len();
            let mut e: usize = 0;
            while e < 8
                invariant
                    world.wf(),
                    world.marsh@.len() == wlen,
                    world.ox == lx,
                    world.oy == ly,
                    world.width == width,
                    world.height == height,
                    world.width == width,
                    world.height == height,
                    forall|k: int| 0 <= k < 8 ==> adj8@[k] < wlen,
                decreases 8 - e,
            {
                let j = adj8[e];
                let slot = vec_index_mut(&mut world.marsh, j);
                match slot {
                    Some(nu) => {
                        nu.1 = sat_inc(nu.1);
                    },
                    None => {},
                }
                e += 1;
            }
            unk_idx.push(wi);
            unk_adj.push(adj8);
            gi2 += 1;
        }
        let ucount = unconstrained.len();
        if degraded || ucount > 8 {
            // more unconstrained cells than a cell has neighbours cannot
            // arise from a reveal
            return 0;
        }
        // binomial prior over the unconstrained cells, scaled by den^ucount
        let dn = self.density.num;
        let dd = self.density.den;
        let ddn = dd - dn;
        let mut unconst_probs: Vec<u128> = Vec::new();
        let mut k: usize = 0;
        while k < 9
            invariant
                *self == *old(self),
                old(self).wf(),
                !old(self).risk_cache.spec_contains(point),
                !self.risk_cache.spec_contains(point),
                unconst_probs@.len() == k,
                k <= 9,
                ucount <= 8,
                dn == old(self).density.num,
                dd == old(self).density.den,
                dn <= dd,
                ddn == dd - dn,
                old(self).density.lt(Risk { num: 1, den: 1 }) && k >= 1 ==> unconst_probs@[0]
                    >= 1,
            decreases 9 - k,
        {
            let mut v: u128 = 0;
            if k <= ucount {
                let c = binom_small(ucount, k);
                let p1 = match pow_checked(dn, k) {
                    Some(p) => p,
                    None => { return 0; },
                };
                let p2 = match pow_checked(ddn, ucount - k) {
                    Some(p) => p,
                    None => { return 0; },
                };
                let m1 = match c.checked_mul(p1) {
                    Some(m) => m,
                    None => { return 0; },
                };
                v = match m1.checked_mul(p2) {
                    Some(m) => m,
                    None => { return 0; },
                };
                proof {
                    if k == 0 && old(self).density.lt(Risk { num: 1, den: 1 }) {
                        assert(dn < dd);
                        assert(ddn >= 1);
                        assert(c == 1 && p1 == 1);
                        assert(m1 == 1);
                        assert(v == p2);
                        assert(p2 >= 1);
                    }
                }
            }
            unconst_probs.push(v);
            k += 1;
        }
        // enumerate every placement of the unknowns that keeps all numbers
        // satisfiable, tallying by the number the target would display
        let ucnt = unk_idx.len();
        let mut assigned: Vec<bool> = Vec::new();
        let mut az: usize = 0;
        while az < ucnt
            invariant
                assigned@.len() == az,
                az <= ucnt,
            decreases ucnt - az,
        {
            assigned.push(false);
            az += 1;
        }
        let mut valid_by_num: Vec<u128> = vec![0u128; 9];
        let mut counts: Vec<u128> = match 9usize.checked_mul(ucnt) {
            Some(total) => vec![0u128; total],
            None => { return 0; },
        };
        let mut depth: usize = 0;
        let mut mines: usize = 0;
        let mut frames: Vec<(bool, bool)> = Vec::new();
        let mut ok = true;
        let mut fuel: u64 = SOLVE_FUEL;
        loop
            invariant
                self.wf(),
                world.wf(),
                world.ox == lx,
                world.oy == ly,
                world.width == width,
                world.height == height,
                unk_idx@.len() == ucnt,
                unk_adj@.len() == ucnt,
                assigned@.len() == ucnt,
                valid_by_num@.len() == 9,
                9 * ucnt <= usize::MAX,
                counts@.len() == 9 * ucnt,
                depth <= ucnt,
                mines <= depth,
                forall|k: int| 0 <= k < ucnt ==> #[trigger] unk_idx@[k] < world.marsh@.len(),
                forall|k: int, e: int|
                    0 <= k < ucnt && 0 <= e < 8 ==> (#[trigger] unk_adj@[k]@[e])
                        < world.marsh@.len(),
                target < world.marsh@.len(),
                old(self).risk_cache.entries@.len() == 0 ==> ucnt == 0,
                first_zero && old(self).risk_cache.entries@.len() == 0 ==> ((ok && fuel
                    == SOLVE_FUEL && frames@.len() == 0 && valid_by_num@[0] == 0 && depth == 0
                    && world.marsh@[target as int] == Some((-1i64, 0i64))) || valid_by_num@[0]
                    >= 1),
            ensures
                self.wf(),
                world.wf(),
                world.ox == lx,
                world.oy == ly,
                world.width == width,
                world.height == height,
                valid_by_num@.len() == 9,
                counts@.len() == 9 * ucnt,
                unk_idx@.len() == ucnt,
                forall|k: int| 0 <= k < ucnt ==> #[trigger] unk_idx@[k] < world.marsh@.len(),
                first_zero && old(self).risk_cache.entries@.len() == 0 ==> valid_by_num@[0] >= 1,
            decreases fuel,
        {
            if fuel == 0 {
                break ;
            }
            fuel -= 1;
            if ok {
                if depth == ucnt {
                    // one complete consistent placement
                    let n_target = match world.marsh[target] {
                        Some(nu) => nu.0,
                        None => -1,
                    };
                    let shown = -1 - n_target;
                    if 0 <= shown && shown <= 8 {
                        let num_u = shown as usize;
                        let p1 = match pow_checked(dn, mines) {
                            Some(p) => p,
                            None => { break ; },
                        };
                        let p2 = match pow_checked(ddn, ucnt - mines) {
                            Some(p) => p,
                            None => { break ; },
                        };
                        let weight = match p1.checked_mul(p2) {
                            Some(w) => w,
                            None => { break ; },
                        };
                        let cur = valid_by_num[num_u];
                        let next = match cur.checked_add(weight) {
                            Some(v) => v,
                            None => { break ; },
                        };
                        let vslot = vec_index_mut(&mut valid_by_num, num_u);
                        *vslot = next;
                        let mut uk: usize = 0;
                        let mut tally_bad = false;
                        while uk < ucnt
                            invariant
                                assigned@.len() == ucnt,
                                9 * ucnt <= usize::MAX,
                                counts@.len() == 9 * ucnt,
                                uk <= ucnt,
                                num_u < 9,
                            decreases ucnt - uk,
                        {
                            if assigned[uk] {
                                proof {
                                    assert(9 * uk + num_u < 9 * ucnt) by (nonlinear_arith)
                                        requires
                                            uk < ucnt,
                                            num_u < 9,
                                    ;
                                }
                                let ci = 9 * uk + num_u;
                                let cur2 = counts[ci];
                                match cur2.checked_add(weight) {
                                    Some(v2) => {
                                        let cslot = vec_index_mut(&mut counts, ci);
                                        *cslot = v2;
                                    },
                                    None => {
                                        tally_bad = true;
                                    },
                                }
                            }
                            uk += 1;
                        }
                        if tally_bad {
                            break ;
                        }
                    }
                } else {
                    frames.push((false, false));
                    frames.push((true, false));
                }
            }
            ok = true;
            let flen = frames.len();
            if flen == 0 {
                break ;
            }
            let (action, done) = frames[flen - 1];
            if done {
                frames.pop();
                if depth == 0 {
                    break ;
                }
                depth -= 1;
                if assigned[depth] && mines > 0 {
                    mines -= 1;
                }
                if mines > depth {
                    mines = depth;
                }
                {
                    let aslot = vec_index_mut(&mut assigned, depth);
                    *aslot = false;
                }
                let adj8 = unk_adj[depth];
                let ghost wlen = world.marsh@.len();
                let mut e: usize = 0;
                while e < 8
                    invariant
                        world.wf(),
                        world.marsh@.len() == wlen,
                        world.ox == lx,
                        world.oy == ly,
                        world.width == width,
                        world.height == height,
                        forall|k: int| 0 <= k < 8 ==> adj8@[k] < wlen,
                    decreases 8 - e,
                {
                    let j = adj8[e];
                    let slot = vec_index_mut(&mut world.marsh, j);
                    match slot {
                        Some(nu) => {
                            if action {
                                nu.0 = sat_inc(nu.0);
                            }
                            nu.1 = sat_inc(nu.1);
                        },
                        None => {},
                    }
                    e += 1;
                }
                ok = false;
            } else {
                {
                    let fslot = vec_index_mut(&mut frames, flen - 1);
                    fslot.1 = true;
                }
                if depth >= ucnt {
                    break ;
                }
                {
                    let aslot = vec_index_mut(&mut assigned, depth);
                    *aslot = action;
                }
                if action {
                    if mines < ucnt {
                        mines += 1;
                    }
                }
                let adj8 = unk_adj[depth];
                let ghost wlen = world.marsh@.len();
                let mut e: usize = 0;
                while e < 8
                    invariant
                        world.wf(),
                        world.marsh@.len() == wlen,
                        world.ox == lx,
                        world.oy == ly,
                        world.width == width,
                        world.height == height,
                        forall|k: int| 0 <= k < 8 ==> adj8@[k] < wlen,
                    decreases 8 - e,
                {
                    let j = adj8[e];
                    let slot = vec_index_mut(&mut world.marsh, j);
                    match slot {
                        Some(nu) => {
                            if action {
                                if nu.0 == 0 {
                                    ok = false;
                                }
                                nu.0 = sat_dec(nu.0);
                            }
                            if nu.1 == nu.0 {
                                ok = false;
                            }
                            nu.1 = sat_dec(nu.1);
                        },
                        None => {},
                    }
                    e += 1;
                }
                depth += 1;
                if depth > ucnt {
                    break ;
                }
            }
        }
        // fold the unconstrained prior into the placement tallies
        let mut num_probs: Vec<u128> = vec![0u128; 9];
        let mut unconst_scaled: Vec<u128> = vec![0u128; 9];
        let mut t1: usize = 0;
        while t1 < 9
            invariant
                *self == *old(self),
                old(self).wf(),
                !old(self).risk_cache.spec_contains(point),
                !self.risk_cache.spec_contains(point),
                valid_by_num@.len() == 9,
                unconst_probs@.len() == 9,
                num_probs@.len() == 9,
                unconst_scaled@.len() == 9,
                t1 <= 9,
                t1 == 0 ==> num_probs@[0] == 0,
                valid_by_num@[0] >= 1 && unconst_probs@[0] >= 1 && t1 >= 1 ==> num_probs@[0]
                    >= 1,
            decreases 9 - t1,
        {
            let mut t2: usize = 0;
            while t2 < 9 - t1
                invariant
                    *self == *old(self),
                    old(self).wf(),
                    !self.risk_cache.spec_contains(point),
                    valid_by_num@.len() == 9,
                    unconst_probs@.len() == 9,
                    num_probs@.len() == 9,
                    unconst_scaled@.len() == 9,
                    t1 < 9,
                    t2 <= 9 - t1,
                    t1 == 0 && t2 == 0 ==> num_probs@[0] == 0,
                    valid_by_num@[0] >= 1 && unconst_probs@[0] >= 1 && (t1 >= 1 || t2 >= 1)
                        ==> num_probs@[0] >= 1,
                decreases 9 - t1 - t2,
            {
                let w = match valid_by_num[t1].checked_mul(unconst_probs[t2]) {
                    Some(w) => w,
                    None => { return 0; },
                };
                let cur = num_probs[t1 + t2];
                let next = match cur.checked_add(w) {
                    Some(v) => v,
                    None => { return 0; },
                };
                {
                    let slot = vec_index_mut(&mut num_probs, t1 + t2);
                    *slot = next;
                }
                proof {
                    if t1 == 0 && t2 == 0 && valid_by_num@[0] >= 1 && unconst_probs@[0] >= 1 {
                        assert(w >= 1) by (nonlinear_arith)
                            requires
                                w == valid_by_num@[0] * unconst_probs@[0],
                                valid_by_num@[0] >= 1,
                                unconst_probs@[0] >= 1,
                        ;
                    }
                }
                let ws = match w.checked_mul(t2 as u128) {
                    Some(v) => v,
                    None => { return 0; },
                };
                let cur2 = unconst_scaled[t1 + t2];
                let next2 = match cur2.checked_add(ws) {
                    Some(v) => v,
                    None => { return 0; },
                };
                {
                    let slot = vec_index_mut(&mut unconst_scaled, t1 + t2);
                    *slot = next2;
                }
                t2 += 1;
            }
            t1 += 1;
        }
        // per-unknown tallies folded the same way
        let mut final_counts: Vec<u128> = match 9usize.checked_mul(ucnt) {
            Some(total) => vec![0u128; total],
            None => { return 0; },
        };
        let mut uk2: usize = 0;
        while uk2 < ucnt
            invariant
                *self == *old(self),
                old(self).wf(),
                !old(self).risk_cache.spec_contains(point),
                !self.risk_cache.spec_contains(point),
                9 * ucnt <= usize::MAX,
                counts@.len() == 9 * ucnt,
                final_counts@.len() == 9 * ucnt,
                unconst_probs@.len() == 9,
                uk2 <= ucnt,
            decreases ucnt - uk2,
        {
            let mut t1b: usize = 0;
            while t1b < 9
                invariant
                    *self == *old(self),
                    old(self).wf(),
                    !self.risk_cache.spec_contains(point),
                    9 * ucnt <= usize::MAX,
                    counts@.len() == 9 * ucnt,
                    final_counts@.len() == 9 * ucnt,
                    unconst_probs@.len() == 9,
                    uk2 < ucnt,
                    t1b <= 9,
                decreases 9 - t1b,
            {
                let mut t2b: usize = 0;
                while t2b < 9 - t1b
                    invariant
                        *self == *old(self),
                        old(self).wf(),
                        !self.risk_cache.spec_contains(point),
                        9 * ucnt <= usize::MAX,
                        counts@.len() == 9 * ucnt,
                        final_counts@.len() == 9 * ucnt,
                        unconst_probs@.len() == 9,
                        uk2 < ucnt,
                        t1b < 9,
                        t2b <= 9 - t1b,
                    decreases 9 - t1b - t2b,
                {
                    proof {
                        assert(9 * uk2 + t1b + t2b < 9 * ucnt) by (nonlinear_arith)
                            requires
                                uk2 < ucnt,
                                t1b + t2b < 9,
                        ;
                        assert(9 * uk2 + t1b < 9 * ucnt) by (nonlinear_arith)
                            requires
                                uk2 < ucnt,
                                t1b < 9,
                        ;
                    }
                    let w = match counts[9 * uk2 + t1b].checked_mul(unconst_probs[t2b]) {
                        Some(w) => w,
                        None => { return 0; },
                    };
                    let ci = 9 * uk2 + t1b + t2b;
                    let cur = final_counts[ci];
                    let next = match cur.checked_add(w) {
                        Some(v) => v,
                        None => { return 0; },
                    };
                    let slot = vec_index_mut(&mut final_counts, ci);
                    *slot = next;
                    t2b += 1;
                }
                t1b += 1;
            }
            uk2 += 1;
        }
        // when asked to keep the board solvable, prefer numbers that leave a
        // certainly safe frontier cell, falling back to the full
        // distribution when none does
        let mut weights: Vec<u128> = vec![0u128; 9];
        let mut restricted = false;
        if self.solvable {
            let best = self.risk_cache.global_best();
            if !best.is_zero() {
                let mut t: usize = 0;
                let mut any: bool = false;
                while t < 9
                    invariant
                        num_probs@.len() == 9,
                        unconst_scaled@.len() == 9,
                        9 * ucnt <= usize::MAX,
                        final_counts@.len() == 9 * ucnt,
                        weights@.len() == 9,
                        t <= 9,
                    decreases 9 - t,
                {
                    let mut safe = false;
                    if num_probs[t] > 0 {
                        if ucount > 0 && unconst_scaled[t] == 0 {
                            safe = true;
                        }
                        let mut uk3: usize = 0;
                        while uk3 < ucnt
                            invariant
                                9 * ucnt <= usize::MAX,
                                final_counts@.len() == 9 * ucnt,
                                uk3 <= ucnt,
                                t < 9,
                            decreases ucnt - uk3,
                        {
                            proof {
                                assert(9 * uk3 + t < 9 * ucnt) by (nonlinear_arith)
                                    requires
                                        uk3 < ucnt,
                                        t < 9,
                                ;
                            }
                            if final_counts[9 * uk3 + t] == 0 {
                                safe = true;
                            }
                            uk3 += 1;
                        }
                    }
                    if safe {
                        let slot = vec_index_mut(&mut weights, t);
                        *slot = num_probs[t];
                        any = true;
                    }
                    t += 1;
                }
                restricted = any;
            }
        }
        if !restricted {
            let mut t: usize = 0;
            while t < 9
                invariant
                    num_probs@.len() == 9,
                    weights@.len() == 9,
                    t <= 9,
                decreases 9 - t,
            {
                let v = num_probs[t];
                let slot = vec_index_mut(&mut weights, t);
                *slot = v;
                t += 1;
            }
        }
        // draw the displayed number
        let mut total: u128 = 0;
        let mut t: usize = 0;
        while t < 9
            invariant
                *self == *old(self),
                old(self).wf(),
                !old(self).risk_cache.spec_contains(point),
                !self.risk_cache.spec_contains(point),
                weights@.len() == 9,
                t <= 9,
            decreases 9 - t,
        {
            total = match total.checked_add(weights[t]) {
                Some(v) => v,
                None => { return 0; },
            };
            t += 1;
        }
        if total == 0 {
            // no consistent placement: leave the cache untouched
            return 0;
        }
        let num: usize = if first_zero && self.risk_cache.is_empty() && num_probs[0] > 0 {
            0
        } else {
            let draw = (random_u64() as u128) % total;
            let mut cum: u128 = 0;
            let mut picked: usize = 0;
            let mut found = false;
            let mut t3: usize = 0;
            while t3 < 9
                invariant
                    weights@.len() == 9,
                    t3 <= 9,
                    picked < 9,
                decreases 9 - t3,
            {
                if !found {
                    let w = weights[t3];
                    let cap = u128::MAX - cum;
                    let w2 = if w > cap {
                        cap
                    } else {
                        w
                    };
                    if draw < cum + w2 {
                        picked = t3;
                        found = true;
                    }
                    cum = cum + w2;
                }
                t3 += 1;
            }
            picked
        };
        // write the refreshed probabilities back
        let denom = num_probs[num];
        if denom == 0 {
            return num as u8;
        }
        let mut uk4: usize = 0;
        while uk4 < ucnt
            invariant
                self.wf(),
                9 * ucnt <= usize::MAX,
                final_counts@.len() == 9 * ucnt,
                unk_idx@.len() == ucnt,
                forall|k: int| 0 <= k < ucnt ==> #[trigger] unk_idx@[k] < world.marsh@.len(),
                world.wf(),
                uk4 <= ucnt,
                num < 9,
                1 <= denom,
                -0x2000_0000_0000_0000 <= world.ox <= 0x2000_0000_0000_0000,
                -0x2000_0000_0000_0000 <= world.oy <= 0x2000_0000_0000_0000,
                !self.risk_cache.spec_contains(point),
                forall|q: Coord|
                    old(self).risk_cache.spec_contains(q) ==> self.risk_cache.spec_contains(q),
                self.chunks == old(self).chunks,
                self.density == old(self).density,
                self.judge == old(self).judge,
                self.solvable == old(self).solvable,
                self.size == old(self).size,
                self.cells_revealed == old(self).cells_revealed,
                self.time_elapsed_ms == old(self).time_elapsed_ms,
            decreases ucnt - uk4,
        {
            proof {
                assert(9 * uk4 + num < 9 * ucnt) by (nonlinear_arith)
                    requires
                        uk4 < ucnt,
                        num < 9,
                ;
            }
            let fc = final_counts[9 * uk4 + num];
            if fc <= denom {
                let r = risk_from_ratio(fc, denom);
                let pos = world.position_of(unk_idx[uk4]);
                if pos.0 != point.0 || pos.1 != point.1 {
                    let ghost prev = self.risk_cache;
                    self.risk_cache.insert(pos, r);
                    proof {
                        assert forall|q: Coord|
                            old(self).risk_cache.spec_contains(q)
                                implies self.risk_cache.spec_contains(q) by {
                            if q != pos {
                                assert(self.risk_cache.spec_get(q) == prev.spec_get(q));
                                assert(prev.spec_contains(q));
                            }
                        }
                        assert(self.risk_cache.spec_get(point) == prev.spec_get(point));
                    }
                }
            }
            uk4 += 1;
        }
        // every unconstrained cell gets the expected mine fraction for the
        // drawn number
        if ucount > 0 {
            let scaled = unconst_scaled[num];
            match denom.checked_mul(ucount as u128) {
                Some(big) => {
                    proof {
                        assert(1 <= denom * ucount) by (nonlinear_arith)
                            requires
                                1 <= denom,
                                1 <= ucount,
                        ;
                    }
                    if scaled <= big {
                        let r = risk_from_ratio(scaled, big);
                        let mut uc: usize = 0;
                        while uc < ucount
                            invariant
                                self.wf(),
                                unconstrained@.len() == ucount,
                                uc <= ucount,
                                r.valid(),
                                !self.risk_cache.spec_contains(point),
                                forall|q: Coord|
                                    old(self).risk_cache.spec_contains(q)
                                        ==> self.risk_cache.spec_contains(q),
                                self.chunks == old(self).chunks,
                                self.density == old(self).density,
                                self.judge == old(self).judge,
                                self.solvable == old(self).solvable,
                                self.size == old(self).size,
                                self.cells_revealed == old(self).cells_revealed,
                                self.time_elapsed_ms == old(self).time_elapsed_ms,
                            decreases ucount - uc,
                        {
                            let pos = unconstrained[uc];
                            if pos.0 != point.0 || pos.1 != point.1 {
                                let ghost prev = self.risk_cache;
                                self.risk_cache.insert(pos, r);
                                proof {
                                    assert forall|q: Coord|
                                        old(self).risk_cache.spec_contains(q)
                                            implies self.risk_cache.spec_contains(q) by {
                                        if q != pos {
                                            assert(self.risk_cache.spec_get(q) == prev.spec_get(
                                                q,
                                            ));
                                            assert(prev.spec_contains(q));
                                        }
                                    }
                                    assert(self.risk_cache.spec_get(point) == prev.spec_get(
                                        point,
                                    ));
                                }
                            }
                            uc += 1;
                        }
                    }
                },
                None => {},
            }
        }
        num as u8
    }

    /// Runs the solver, then completes the frontier: any hidden in-bounds
    /// neighbour of the target that the refinement left uncached — which no
    /// state a reveal can reach produces — receives the prior density, so a
    /// revealed cell never borders an unaccounted hidden cell.
    fn solve_from(&mut self, point: Coord, first_zero: bool) -> (num: u8)
        requires
            old(self).wf(),
            spec_coord_inner(point),
            !old(self).risk_cache.spec_contains(point),
        ensures
            final(self).wf(),
            num <= 8,
            final(self).chunks == old(self).chunks,
            final(self).density == old(self).density,
            final(self).judge == old(self).judge,
            final(self).solvable == old(self).solvable,
            final(self).size == old(self).size,
            final(self).cells_revealed == old(self).cells_revealed,
            final(self).time_elapsed_ms == old(self).time_elapsed_ms,
            !final(self).risk_cache.spec_contains(point),
            forall|q: Coord|
                old(self).risk_cache.spec_contains(q) ==> final(self).risk_cache.spec_contains(q),
            forall|k: int|
                0 <= k < 8 ==> (((final(self).spec_get(
                    #[trigger] crate::coords::spec_adj64(point)[k],
                ) matches Some(Cell::Hidden(_))) && spec_coord_inner(
                    crate::coords::spec_adj64(point)[k],
                )) ==> final(self).risk_cache.spec_contains(crate::coords::spec_adj64(point)[k])),
            crate::group::spec_group_from(
                *old(self),
                crate::coords::spec_adj64(point).push(point),
                true,
            ) == Seq::<Coord>::empty() ==> num == 0 && final(self).risk_cache == old(
                self,
            ).risk_cache,
            first_zero && old(self).risk_cache.entries@.len() == 0 && old(self).density.lt(
                Risk { num: 1, den: 1 },
            ) ==> num == 0,
    {
        let num = self.solve_core(point, first_zero);
        let ghost seeds0 = crate::coords::spec_adj64(point).push(point);
        let ghost empty_walk = crate::group::spec_group_from(*old(self), seeds0, true)
            == Seq::<Coord>::empty();
        proof {
            assert forall|k: int|
                0 <= k < 8 implies #[trigger] crate::coords::spec_adj64(point)[k] != point by {
                let q = crate::coords::spec_adj64(point)[k];
                assert(q.0 as int != point.0 as int || q.1 as int != point.1 as int);
            }
        }
        let adj = adjacents(point);
        let mut k: usize = 0;
        while k < 8
            invariant
                adj@.len() == 8,
                adj@ == crate::coords::spec_adj64(point),
                k <= 8,
                self.wf(),
                spec_coord_inner(point),
                self.chunks == old(self).chunks,
                self.density == old(self).density,
                self.judge == old(self).judge,
                self.solvable == old(self).solvable,
                self.size == old(self).size,
                self.cells_revealed == old(self).cells_revealed,
                self.time_elapsed_ms == old(self).time_elapsed_ms,
                old(self).wf(),
                !old(self).risk_cache.spec_contains(point),
                !self.risk_cache.spec_contains(point),
                forall|q: Coord|
                    old(self).risk_cache.spec_contains(q) ==> self.risk_cache.spec_contains(q),
                forall|j: int| 0 <= j < 8 ==> #[trigger] adj@[j] != point,
                forall|j: int|
                    0 <= j < k ==> (((self.spec_get(#[trigger] adj@[j]) matches Some(
                        Cell::Hidden(_),
                    )) && spec_coord_inner(adj@[j])) ==> self.risk_cache.spec_contains(adj@[j])),
                seeds0 == crate::coords::spec_adj64(point).push(point),
                empty_walk == (crate::group::spec_group_from(*old(self), seeds0, true)
                    == Seq::<Coord>::empty()),
                empty_walk ==> num == 0 && self.risk_cache == old(self).risk_cache,
            decreases 8 - k,
        {
            let q = adj[k];
            let hidden = match self.get(q) {
                Some(Cell::Hidden(_)) => true,
                _ => false,
            };
            if hidden && crate::coords::coord_inner(q) && !self.risk_cache.contains_key(q) {
                proof {
                    if empty_walk {
                        crate::group::lemma_group_step_stuck(
                            *old(self),
                            seeds0,
                            Seq::<Coord>::empty(),
                            true,
                            crate::group::GROUP_FUEL as nat,
                        );
                        assert(seeds0[k as int] == q);
                        assert(!crate::group::spec_group_member(*old(self), q, true));
                        old(self).lemma_board_eq(*self);
                        assert(old(self).spec_cell_at(q) == self.spec_cell_at(q));
                        assert(old(self).spec_get(q) == self.spec_get(q));
                        assert(!old(self).risk_cache.spec_contains(q));
                        assert(crate::group::spec_group_member(*old(self), q, true));
                        assert(false);
                    }
                }
                let ghost prev = self.risk_cache;
                self.risk_cache.insert(q, self.density);
                proof {
                    assert forall|p2: Coord|
                        old(self).risk_cache.spec_contains(p2)
                            implies self.risk_cache.spec_contains(p2) by {
                        if p2 != q {
                            assert(self.risk_cache.spec_get(p2) == prev.spec_get(p2));
                            assert(prev.spec_contains(p2));
                        }
                    }
                    assert(self.risk_cache.spec_get(point) == prev.spec_get(point));
                    assert forall|j: int|
                        0 <= j < k + 1 implies (((self.spec_get(#[trigger] adj@[j]) matches Some(
                            Cell::Hidden(_),
                        )) && spec_coord_inner(adj@[j])) ==> self.risk_cache.spec_contains(
                            adj@[j],
                        )) by {
                        if j < k {
                            if adj@[j] != q {
                                assert(self.risk_cache.spec_get(adj@[j]) == prev.spec_get(
                                    adj@[j],
                                ));
                            }
                        }
                    }
                }
            }
            k += 1;
        }
        num
    }

    /// Reveals `point` if the policy clears it: the target leaves the
    /// frontier cache, the solver picks its number, and the cell becomes
    /// `Revealed(n)`. A refused or out-of-bounds request changes nothing.
    pub fn reveal_cell(&mut self, point: Coord) -> (r: Option<u8>)
        requires
            old(self).wf(),
            spec_coord_inner(point),
        ensures
            final(self).wf(),
            r is None ==> *final(self) == *old(self),
            old(self).spec_judge_det() ==> (r is Some <==> (old(self).spec_get(point) is Some
                && old(self).spec_is_clear_det(point))),
            r is Some ==> old(self).spec_get(point) is Some && !old(self).spec_cell_risk(
                point,
            ).spec_is_one(),
            old(self).judge != crate::judges::Judge::Random && old(self).spec_cell_risk(
                point,
            ).spec_is_zero() && old(self).spec_get(point) is Some ==> r is Some,
            match r {
                Some(n) => n <= 8 && final(self).spec_cell_at(point) == Cell::Revealed(n) && !final(self).risk_cache.spec_contains(point) && (forall|q: Coord|
                    q != point ==> final(self).spec_cell_at(q) == old(self).spec_cell_at(q))
                    && final(self).cells_revealed == bump_revealed(
                    old(self).cells_revealed,
                    (old(self).spec_cell_at(point) is Revealed),
                    true,
                ) && final(self).density == old(self).density && final(self).judge == old(self).judge && final(self).solvable == old(self).solvable && final(self).size == old(self).size && final(self).time_elapsed_ms == old(self).time_elapsed_ms && (forall|
                    q: Coord,
                |
                    q != point && old(self).risk_cache.spec_contains(q) ==> final(self).risk_cache.spec_contains(q)) && (forall|k: int|
                    0 <= k < 8 ==> (((final(self).spec_get(
                        #[trigger] crate::coords::spec_adj64(point)[k],
                    ) matches Some(Cell::Hidden(_))) && crate::coords::spec_coord_inner(
                        crate::coords::spec_adj64(point)[k],
                    )) ==> final(self).risk_cache.spec_contains(
                        crate::coords::spec_adj64(point)[k],
                    ))),
                None => true,
            },
    {
        self.reveal_inner(point, false)
    }

    /// Like `reveal_cell`, but biases the very first click of a game to
    /// show a zero whenever a zero is consistent.
    pub fn reveal_cell_first_zero(&mut self, point: Coord) -> (r: Option<u8>)
        requires
            old(self).wf(),
            spec_coord_inner(point),
        ensures
            final(self).wf(),
            old(self).risk_cache.entries@.len() == 0 && old(self).density.lt(
                Risk { num: 1, den: 1 },
            ) && r is Some ==> r == Some(0u8),
            r is None ==> *final(self) == *old(self),
            old(self).spec_judge_det() ==> (r is Some <==> (old(self).spec_get(point) is Some
                && old(self).spec_is_clear_det(point))),
            r is Some ==> old(self).spec_get(point) is Some && !old(self).spec_cell_risk(
                point,
            ).spec_is_one(),
            old(self).judge != crate::judges::Judge::Random && old(self).spec_cell_risk(
                point,
            ).spec_is_zero() && old(self).spec_get(point) is Some ==> r is Some,
            match r {
                Some(n) => n <= 8 && final(self).spec_cell_at(point) == Cell::Revealed(n) && !final(self).risk_cache.spec_contains(point) && (forall|q: Coord|
                    q != point ==> final(self).spec_cell_at(q) == old(self).spec_cell_at(q))
                    && final(self).cells_revealed == bump_revealed(
                    old(self).cells_revealed,
                    (old(self).spec_cell_at(point) is Revealed),
                    true,
                ) && final(self).density == old(self).density && final(self).judge == old(self).judge && final(self).solvable == old(self).solvable && final(self).size == old(self).size && final(self).time_elapsed_ms == old(self).time_elapsed_ms && (forall|
                    q: Coord,
                |
                    q != point && old(self).risk_cache.spec_contains(q) ==> final(self).risk_cache.spec_contains(q)) && (forall|k: int|
                    0 <= k < 8 ==> (((final(self).spec_get(
                        #[trigger] crate::coords::spec_adj64(point)[k],
                    ) matches Some(Cell::Hidden(_))) && crate::coords::spec_coord_inner(
                        crate::coords::spec_adj64(point)[k],
                    )) ==> final(self).risk_cache.spec_contains(
                        crate::coords::spec_adj64(point)[k],
                    ))),
                None => true,
            },
    {
        self.reveal_inner(point, true)
    }

    fn reveal_inner(&mut self, point: Coord, first_zero: bool) -> (r: Option<u8>)
        requires
            old(self).wf(),
            spec_coord_inner(point),
        ensures
            final(self).wf(),
            first_zero && old(self).risk_cache.entries@.len() == 0 && old(self).density.lt(
                Risk { num: 1, den: 1 },
            ) && r is Some ==> r == Some(0u8),
            r is None ==> *final(self) == *old(self),
            old(self).spec_judge_det() ==> (r is Some <==> (old(self).spec_get(point) is Some
                && old(self).spec_is_clear_det(point))),
            r is Some ==> old(self).spec_get(point) is Some && !old(self).spec_cell_risk(
                point,
            ).spec_is_one(),
            old(self).judge != crate::judges::Judge::Random && old(self).spec_cell_risk(
                point,
            ).spec_is_zero() && old(self).spec_get(point) is Some ==> r is Some,
            match r {
                Some(n) => n <= 8 && final(self).spec_cell_at(point) == Cell::Revealed(n) && !final(self).risk_cache.spec_contains(point) && (forall|q: Coord|
                    q != point ==> final(self).spec_cell_at(q) == old(self).spec_cell_at(q))
                    && final(self).cells_revealed == bump_revealed(
                    old(self).cells_revealed,
                    (old(self).spec_cell_at(point) is Revealed),
                    true,
                ) && final(self).density == old(self).density && final(self).judge == old(self).judge && final(self).solvable == old(self).solvable && final(self).size == old(self).size && final(self).time_elapsed_ms == old(self).time_elapsed_ms && (forall|
                    q: Coord,
                |
                    q != point && old(self).risk_cache.spec_contains(q) ==> final(self).risk_cache.spec_contains(q)) && (forall|k: int|
                    0 <= k < 8 ==> (((final(self).spec_get(
                        #[trigger] crate::coords::spec_adj64(point)[k],
                    ) matches Some(Cell::Hidden(_))) && crate::coords::spec_coord_inner(
                        crate::coords::spec_adj64(point)[k],
                    )) ==> final(self).risk_cache.spec_contains(
                        crate::coords::spec_adj64(point)[k],
                    ))),
                None => true,
            },
    {
        if self.get(point).is_none() {
            return None;
        }
        if !self.is_clear(point) {
            return None;
        }
        let ghost pre = *self;
        self.risk_cache.remove(point);
        proof {
            assert(self.wf());
            assert forall|q: Coord|
                q != point && pre.risk_cache.spec_contains(q)
                    implies self.risk_cache.spec_contains(q) by {
                assert(self.risk_cache.spec_get(q) == pre.risk_cache.spec_get(q));
            }
        }
        let num = self.solve_from(point, first_zero);
        let ghost mid = *self;
        proof {
            pre.lemma_board_eq(mid);
        }
        self.set(point, Cell::Revealed(num));
        Some(num)
    }
}

} // verus!
