use vstd::prelude::*;
use crate::coords::Coord;
use crate::risk::{Risk, lemma_risk_le_trans, lemma_risk_lt_le_trans, lemma_risk_le_lt_trans};

verus! {

/// Lexicographic order on coordinates.
pub open spec fn coord_lt(a: Coord, b: Coord) -> bool {
    a.0 < b.0 || (a.0 == b.0 && a.1 < b.1)
}

/// The strict order the cache keeps its entries in: by probability first,
/// then by coordinate.
pub open spec fn entry_lt(a: (Risk, Coord), b: (Risk, Coord)) -> bool {
    a.0.lt(b.0) || (a.0.eq_val(b.0) && coord_lt(a.1, b.1))
}

/// `entry_lt` is transitive over valid probabilities.
pub proof fn lemma_entry_lt_trans(a: (Risk, Coord), b: (Risk, Coord), c: (Risk, Coord))
    requires
        a.0.valid(),
        b.0.valid(),
        c.0.valid(),
        entry_lt(a, b),
        entry_lt(b, c),
    ensures
        entry_lt(a, c),
{
    if a.0.lt(b.0) {
        if b.0.lt(c.0) {
            lemma_risk_lt_le_trans(a.0, b.0, c.0);
        } else {
            lemma_risk_lt_le_trans(a.0, b.0, c.0);
        }
    } else {
        if b.0.lt(c.0) {
            lemma_risk_le_lt_trans(a.0, b.0, c.0);
        } else {
            lemma_risk_le_trans(a.0, b.0, c.0);
            lemma_risk_le_trans(c.0, b.0, a.0);
        }
    }
}

/// Entries with distinct coordinates are always ordered one way or the other.
pub proof fn lemma_entry_total(a: (Risk, Coord), b: (Risk, Coord))
    requires
        a.0.valid(),
        b.0.valid(),
        a.1 != b.1,
    ensures
        entry_lt(a, b) || entry_lt(b, a),
{
}


/// Runtime check for `entry_lt`.
pub(crate) fn entry_lt_exec(a: &(Risk, Coord), b: &(Risk, Coord)) -> (r: bool)
    ensures
        r == entry_lt(*a, *b),
{
    if a.0.lt_exec(&b.0) {
        true
    } else if a.0.eq_val_exec(&b.0) {
        a.1.0 < b.1.0 || (a.1.0 == b.1.0 && a.1.1 < b.1.1)
    } else {
        false
    }
}

/// Adjacent ordering of valid entries gives the full pairwise ordering.
pub(crate) proof fn lemma_sorted_pairwise(s: Seq<(Risk, Coord)>, i: int, j: int)
    requires
        forall|k: int| 0 <= k < s.len() ==> (#[trigger] s[k]).0.valid(),
        forall|k: int| 0 <= k && k + 1 < s.len() ==> entry_lt(#[trigger] s[k], s[k + 1]),
        0 <= i < j < s.len(),
    ensures
        entry_lt(s[i], s[j]),
    decreases j - i,
{
    if j == i + 1 {
        assert(entry_lt(s[i], s[i + 1]));
    } else {
        lemma_sorted_pairwise(s, i, j - 1);
        assert(entry_lt(s[j - 1], s[j]));
        lemma_entry_lt_trans(s[i], s[j - 1], s[j]);
    }
}

/// The posterior mine probability for every frontier cell, kept sorted by
/// (probability, coordinate) so the global minimum sits at the front.
///
/// The entries are exposed so that specifications can speak about them;
/// callers must only mutate the cache through its methods.
#[derive(Clone, Debug, PartialEq)]
pub struct RiskCache {
    pub entries: Vec<(Risk, Coord)>,
}

impl RiskCache {
    /// Entries strictly sorted (hence coordinates unique) and every
    /// probability a valid fraction.
    pub open spec fn wf(self) -> bool {
        &&& forall|i: int, j: int|
            0 <= i < j < self.entries@.len() ==> #[trigger] entry_lt(
                self.entries@[i],
                self.entries@[j],
            )
        &&& forall|i: int, j: int|
            0 <= i < j < self.entries@.len() ==> (#[trigger] self.entries@[i]).1 != (
            #[trigger] self.entries@[j]).1
        &&& forall|i: int|
            0 <= i < self.entries@.len() ==> (#[trigger] self.entries@[i]).0.valid()
    }

    /// The coordinate has a cached probability.
    pub open spec fn spec_contains(self, p: Coord) -> bool {
        exists|i: int| 0 <= i < self.entries@.len() && (#[trigger] self.entries@[i]).1 == p
    }

    /// The index holding `p`'s entry (meaningful only under `spec_contains`).
    pub open spec fn spec_idx(self, p: Coord) -> int {
        choose|i: int| 0 <= i < self.entries@.len() && (#[trigger] self.entries@[i]).1 == p
    }

    /// The cached probability of `p`, if any.
    pub open spec fn spec_get(self, p: Coord) -> Option<Risk> {
        if self.spec_contains(p) {
            Some(self.entries@[self.spec_idx(p)].0)
        } else {
            None
        }
    }

    /// Every entry is its coordinate's unique one.
    pub proof fn lemma_at(self, i: int)
        requires
            self.wf(),
            0 <= i < self.entries@.len(),
        ensures
            self.spec_contains(self.entries@[i].1),
            self.spec_get(self.entries@[i].1) == Some(self.entries@[i].0),
            self.spec_idx(self.entries@[i].1) == i,
    {
        assert(self.spec_contains(self.entries@[i].1));
        let k = self.spec_idx(self.entries@[i].1);
        if k != i {
            assert(self.entries@[k].1 != self.entries@[i].1);
        }
    }

    pub fn new() -> (c: RiskCache)
        ensures
            c.wf(),
            c.entries@.len() == 0,
            forall|p: Coord| c.spec_get(p) == Option::<Risk>::None,
    {
        RiskCache { entries: Vec::new() }
    }

    pub fn len(&self) -> (n: usize)
        ensures
            n == self.entries@.len(),
    {
        self.entries.len()
    }

    pub fn is_empty(&self) -> (b: bool)
        ensures
            b == (self.entries@.len() == 0),
    {
        self.entries.len() == 0
    }

    pub fn get(&self, point: Coord) -> (r: Option<Risk>)
        requires
            self.wf(),
        ensures
            r == self.spec_get(point),
            r is Some <==> self.spec_contains(point),
            r is Some ==> r.unwrap().valid(),
    {
        let n = self.entries.len();
        let mut i: usize = 0;
        while i < n
            invariant
                n == self.entries@.len(),
                self.wf(),
                forall|j: int| 0 <= j < i ==> (#[trigger] self.entries@[j]).1 != point,
            decreases n - i,
        {
            let e = self.entries[i];
            if e.1.0 == point.0 && e.1.1 == point.1 {
                proof {
                    self.lemma_at(i as int);
                }
                return Some(e.0);
            }
            i += 1;
        }
        None
    }

    pub fn contains_key(&self, point: Coord) -> (b: bool)
        requires
            self.wf(),
        ensures
            b == self.spec_contains(point),
    {
        self.get(point).is_some()
    }

    /// Drops `p`'s entry if it has one; every other entry is untouched.
    pub fn remove(&mut self, point: Coord)
        requires
            old(self).wf(),
        ensures
            final(self).wf(),
            !final(self).spec_contains(point),
            forall|q: Coord| q != point ==> final(self).spec_get(q) == old(self).spec_get(q),
            final(self).entries@.len() == old(self).entries@.len() - (
            if old(self).spec_contains(point) { 1int } else { 0 }),
            forall|i: int|
                0 <= i < final(self).entries@.len() ==> old(self).spec_contains(
                    (#[trigger] final(self).entries@[i]).1,
                ),
    {
        let n = self.entries.len();
        let mut i: usize = 0;
        while i < n
            invariant
                n == self.entries@.len(),
                self.wf(),
                *self == *old(self),
                forall|j: int| 0 <= j < i ==> (#[trigger] self.entries@[j]).1 != point,
            decreases n - i,
        {
            let e = self.entries[i];
            if e.1.0 == point.0 && e.1.1 == point.1 {
                let ghost pre = self.entries@;
                self.entries.remove(i);
                proof {
                    assert(self.entries@ == pre.remove(i as int));
                    assert forall|a: int, b: int|
                        0 <= a < b < self.entries@.len() implies #[trigger] entry_lt(
                        self.entries@[a],
                        self.entries@[b],
                    ) && self.entries@[a].1 != self.entries@[b].1 by {
                        let a0 = if a < i { a } else { a + 1 };
                        let b0 = if b < i { b } else { b + 1 };
                        assert(self.entries@[a] == pre[a0]);
                        assert(self.entries@[b] == pre[b0]);
                    }
                    assert forall|k: int|
                        0 <= k < self.entries@.len() implies (#[trigger] self.entries@[k]).0.valid()
                        && old(self).spec_contains(self.entries@[k].1) by {
                        let k0 = if k < i { k } else { k + 1 };
                        assert(self.entries@[k] == pre[k0]);
                        old(self).lemma_at(k0);
                    }
                    assert(!self.spec_contains(point)) by {
                        if self.spec_contains(point) {
                            let k = self.spec_idx(point);
                            let k0 = if k < i { k } else { k + 1 };
                            assert(pre[k0].1 == point);
                            assert(pre[i as int].1 == point);
                        }
                    }
                    assert forall|q: Coord| q != point implies self.spec_get(q) == old(
                        self,
                    ).spec_get(q) by {
                        if self.spec_contains(q) {
                            let k = self.spec_idx(q);
                            let k0 = if k < i { k } else { k + 1 };
                            assert(self.entries@[k] == pre[k0]);
                            self.lemma_at(k);
                            old(self).lemma_at(k0);
                        } else if old(self).spec_contains(q) {
                            let k0 = old(self).spec_idx(q);
                            assert(pre[k0].1 == q);
                            let k = if k0 < i { k0 } else { k0 - 1 };
                            assert(k0 != i);
                            assert(self.entries@[k] == pre[k0]);
                            self.lemma_at(k);
                        }
                    }
                    old(self).lemma_at(i as int);
                }
                return ;
            }
            i += 1;
        }
        proof {
            assert(!self.spec_contains(point));
        }
    }

    /// Inserts or replaces `p`'s probability, keeping the order.
    pub fn insert(&mut self, point: Coord, risk: Risk)
        requires
            old(self).wf(),
            risk.valid(),
        ensures
            final(self).wf(),
            final(self).spec_contains(point),
            final(self).spec_get(point) == Some(risk),
            forall|q: Coord| q != point ==> final(self).spec_get(q) == old(self).spec_get(q),
            final(self).entries@.len() == old(self).entries@.len() + (
            if old(self).spec_contains(point) { 0int } else { 1 }),
            forall|i: int|
                0 <= i < final(self).entries@.len() ==> (#[trigger] final(self).entries@[i]).1
                    == point || old(self).spec_contains(final(self).entries@[i].1),
    {
        self.remove(point);
        let ghost mid = *self;
        let e = (risk, point);
        let n = self.entries.len();
        let mut i: usize = 0;
        while i < n
            invariant
                n == self.entries@.len(),
                self.wf(),
                *self == mid,
                risk.valid(),
                e == (risk, point),
                i <= n,
                forall|j: int| 0 <= j < i ==> #[trigger] entry_lt(self.entries@[j], e),
            ensures
                n == self.entries@.len(),
                *self == mid,
                i <= n,
                forall|j: int| 0 <= j < i ==> #[trigger] entry_lt(self.entries@[j], e),
                i < n ==> !entry_lt(self.entries@[i as int], e),
            decreases n - i,
        {
            let cur = self.entries[i];
            let cur_lt = if cur.0.lt_exec(&e.0) {
                true
            } else if cur.0.eq_val_exec(&e.0) {
                cur.1.0 < e.1.0 || (cur.1.0 == e.1.0 && cur.1.1 < e.1.1)
            } else {
                false
            };
            if !cur_lt {
                break ;
            }
            i += 1;
        }
        let ghost pre = self.entries@;
        self.entries.insert(i, e);
        proof {
            pre.insert_ensures(i as int, e);
            assert(self.entries@ == pre.insert(i as int, e));
            let ghost ii0 = i as int;
            assert forall|j: int| 0 <= j < ii0 implies #[trigger] self.entries@[j] == pre[j] by {
                assert(pre.insert(ii0, e)[j] == pre[j]);
            }
            assert forall|j: int| ii0 <= j < pre.len() implies #[trigger] self.entries@[j + 1]
                == pre[j] by {
                assert(pre.insert(ii0, e)[j + 1] == pre[j]);
            }
            assert(self.entries@[ii0] == e);
            assert forall|j: int| i < j < self.entries@.len() implies #[trigger] entry_lt(
                e,
                self.entries@[j],
            ) && e.1 != self.entries@[j].1 by {
                let j0 = j - 1;
                assert(self.entries@[j0 + 1] == pre[j0]);
                assert(self.entries@[j] == pre[j - 1]);
                assert(!mid.spec_contains(point));
                mid.lemma_at(j - 1);
                assert(pre[j - 1].1 != point);
                if i < n {
                    assert(!entry_lt(pre[i as int], e));
                    lemma_entry_total(pre[i as int], e);
                    assert(entry_lt(e, pre[i as int]));
                    if j - 1 > i {
                        lemma_entry_lt_trans(e, pre[i as int], pre[j - 1]);
                    }
                } else {
                    assert(false);
                }
            }
            assert forall|a: int, b: int|
                0 <= a < b < self.entries@.len() implies #[trigger] entry_lt(
                self.entries@[a],
                self.entries@[b],
            ) && self.entries@[a].1 != self.entries@[b].1 by {
                let ii = i as int;
                if a < ii && b < ii {
                    assert(self.entries@[a] == pre[a] && self.entries@[b] == pre[b]);
                    mid.lemma_at(a);
                    mid.lemma_at(b);
                } else if a < ii && b == ii {
                    assert(self.entries@[a] == pre[a] && self.entries@[b] == e);
                    assert(entry_lt(pre[a], e));
                    mid.lemma_at(a);
                    assert(!mid.spec_contains(point));
                } else if a < ii && b > ii {
                    let b0 = b - 1;
                    assert(self.entries@[a] == pre[a]);
                    assert(self.entries@[b0 + 1] == pre[b0]);
                    assert(entry_lt(pre[a], e));
                    assert(entry_lt(e, self.entries@[b]));
                    mid.lemma_at(a);
                    mid.lemma_at(b0);
                    lemma_entry_lt_trans(pre[a], e, pre[b0]);
                } else if a == ii {
                    assert(self.entries@[a] == e);
                } else {
                    let a0 = a - 1;
                    let b0 = b - 1;
                    assert(self.entries@[a0 + 1] == pre[a0]);
                    assert(self.entries@[b0 + 1] == pre[b0]);
                }
            }
            assert forall|k: int|
                0 <= k < self.entries@.len() implies (#[trigger] self.entries@[k]).0.valid() && (
                self.entries@[k].1 == point || old(self).spec_contains(self.entries@[k].1)) by {
                let ii = i as int;
                if k < ii {
                    assert(self.entries@[k] == pre[k]);
                    mid.lemma_at(k);
                } else if k == ii {
                } else {
                    let k0 = k - 1;
                    assert(self.entries@[k0 + 1] == pre[k0]);
                    mid.lemma_at(k0);
                }
            }
            assert(self.entries@[i as int] == e);
            self.lemma_at(i as int);
            assert forall|q: Coord| q != point implies self.spec_get(q) == old(self).spec_get(
                q,
            ) by {
                let ii = i as int;
                if self.spec_contains(q) {
                    let k = self.spec_idx(q);
                    self.lemma_at(k);
                    assert(k != ii);
                    let k0 = if k < ii { k } else { k - 1 };
                    assert(self.entries@[k0 + 1] == pre[k0] || k < ii);
                    assert(self.entries@[k] == pre[k0]);
                    mid.lemma_at(k0);
                } else {
                    if mid.spec_contains(q) {
                        let k0 = mid.spec_idx(q);
                        let k = if k0 < ii { k0 } else { k0 + 1 };
                        assert(self.entries@[k] == pre[k0]);
                        self.lemma_at(k);
                    }
                }
            }
        }
    }

    /// Empties the cache.
    pub fn clear(&mut self)
        ensures
            final(self).wf(),
            final(self).entries@.len() == 0,
            forall|p: Coord| final(self).spec_get(p) == Option::<Risk>::None,
    {
        self.entries.clear();
    }

    /// What `global_best` returns.
    pub open spec fn spec_global_best(self) -> Risk {
        if self.entries@.len() == 0 {
            Risk { num: 1, den: 1 }
        } else {
            self.entries@[0].0
        }
    }

    /// The smallest cached probability, or 1 when nothing is cached.
    pub fn global_best(&self) -> (r: Risk)
        requires
            self.wf(),
        ensures
            r == self.spec_global_best(),
            r.valid(),
            self.entries@.len() == 0 ==> r == (Risk { num: 1, den: 1 }),
            self.entries@.len() > 0 ==> r == self.entries@[0].0,
            forall|i: int| 0 <= i < self.entries@.len() ==> r.le((#[trigger] self.entries@[i]).0),
    {
        if self.entries.len() == 0 {
            Risk::one()
        } else {
            let r = self.entries[0].0;
            proof {
                assert forall|i: int| 0 <= i < self.entries@.len() implies r.le(
                    (#[trigger] self.entries@[i]).0,
                ) by {
                    if i > 0 {
                        assert(entry_lt(self.entries@[0], self.entries@[i]));
                    }
                }
            }
            r
        }
    }

    /// All entries, as (coordinate, probability) pairs in cache order.
    pub fn iter(&self) -> (r: Vec<(Coord, Risk)>)
        ensures
            r@.len() == self.entries@.len(),
            forall|i: int|
                0 <= i < r@.len() ==> #[trigger] r@[i] == (
                self.entries@[i].1,
                self.entries@[i].0,
            ),
    {
        let n = self.entries.len();
        let mut out: Vec<(Coord, Risk)> = Vec::new();
        let mut i: usize = 0;
        while i < n
            invariant
                n == self.entries@.len(),
                i <= n,
                out@.len() == i,
                forall|j: int|
                    0 <= j < i ==> #[trigger] out@[j] == (
                    self.entries@[j].1,
                    self.entries@[j].0,
                ),
            decreases n - i,
        {
            let e = self.entries[i];
            out.push((e.1, e.0));
            i += 1;
        }
        out
    }

    /// All cached coordinates, in cache order.
    pub fn keys(&self) -> (r: Vec<Coord>)
        ensures
            r@.len() == self.entries@.len(),
            forall|i: int| 0 <= i < r@.len() ==> #[trigger] r@[i] == self.entries@[i].1,
    {
        let n = self.entries.len();
        let mut out: Vec<Coord> = Vec::new();
        let mut i: usize = 0;
        while i < n
            invariant
                n == self.entries@.len(),
                i <= n,
                out@.len() == i,
                forall|j: int| 0 <= j < i ==> #[trigger] out@[j] == self.entries@[j].1,
            decreases n - i,
        {
            out.push(self.entries[i].1);
            i += 1;
        }
        out
    }

    /// All cached probabilities, in cache order.
    pub fn values(&self) -> (r: Vec<Risk>)
        ensures
            r@.len() == self.entries@.len(),
            forall|i: int| 0 <= i < r@.len() ==> #[trigger] r@[i] == self.entries@[i].0,
    {
        let n = self.entries.len();
        let mut out: Vec<Risk> = Vec::new();
        let mut i: usize = 0;
        while i < n
            invariant
                n == self.entries@.len(),
                i <= n,
                out@.len() == i,
                forall|j: int| 0 <= j < i ==> #[trigger] out@[j] == self.entries@[j].0,
            decreases n - i,
        {
            out.push(self.entries[i].0);
            i += 1;
        }
        out
    }
}

} // verus!
