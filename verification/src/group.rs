use vstd::prelude::*;
use crate::cell::Cell;
use crate::coords::{adjacents, coord_inner, spec_adj64, spec_coord_inner, Coord};
use crate::field::Field;

verus! {

/// How many flood-fill steps a single group walk may take. Frontiers this
/// large are far beyond anything the solver could enumerate anyway.
pub const GROUP_FUEL: usize = 0x100000;

/// Whether the flood fill may take `p` into a group: hidden, inside any
/// finite bound, not a certain mine, and (when cutting on safety) not a
/// certain non-mine. Cells at the very ends of the coordinate range are
/// excluded so neighbour arithmetic stays representable.
pub open spec fn spec_group_member(f: Field, p: Coord, cut_on_safe: bool) -> bool {
    &&& spec_coord_inner(p)
    &&& match f.risk_cache.spec_get(p) {
        Some(r) => !r.spec_is_one() && !(cut_on_safe && r.spec_is_zero()),
        None => true,
    }
    &&& f.spec_get(p) matches Some(Cell::Hidden(_))
}

/// The coordinates pushed while scanning the first `t` neighbours of the
/// revealed neighbour `a`: every one of them except the cell being
/// processed.
pub open spec fn spec_push_inner(f: Field, a: Coord, p: Coord, t: nat) -> Seq<Coord>
    decreases t,
{
    if t == 0 {
        Seq::empty()
    } else {
        spec_push_inner(f, a, p, (t - 1) as nat) + (if spec_adj64(a)[t - 1] != p {
            seq![spec_adj64(a)[t - 1]]
        } else {
            Seq::empty()
        })
    }
}

/// The coordinates pushed while processing `p`: for each of its first `k`
/// neighbours that is revealed, that neighbour's own neighbours.
pub open spec fn spec_push_block(f: Field, p: Coord, k: nat) -> Seq<Coord>
    decreases k,
{
    if k == 0 {
        Seq::empty()
    } else {
        spec_push_block(f, p, (k - 1) as nat) + (if f.spec_get(spec_adj64(p)[k - 1]) matches Some(
            Cell::Revealed(_),
        ) {
            spec_push_inner(f, spec_adj64(p)[k - 1], p, 8)
        } else {
            Seq::empty()
        })
    }
}

/// One fuel-bounded walk of the flood fill, processing the stack top first.
pub open spec fn spec_group_step(
    f: Field,
    stack: Seq<Coord>,
    group: Seq<Coord>,
    cut_on_safe: bool,
    fuel: nat,
) -> Seq<Coord>
    decreases fuel,
{
    if fuel == 0 || stack.len() == 0 {
        group
    } else {
        let p = stack.last();
        let rest = stack.drop_last();
        if group.contains(p) || !spec_group_member(f, p, cut_on_safe) {
            spec_group_step(f, rest, group, cut_on_safe, (fuel - 1) as nat)
        } else {
            spec_group_step(
                f,
                rest + spec_push_block(f, p, 8),
                group.push(p),
                cut_on_safe,
                (fuel - 1) as nat,
            )
        }
    }
}

/// What `group_from` returns.
pub open spec fn spec_group_from(f: Field, seeds: Seq<Coord>, cut_on_safe: bool) -> Seq<Coord> {
    spec_group_step(f, seeds, Seq::empty(), cut_on_safe, GROUP_FUEL as nat)
}


/// A walk only ever extends the group it is given.
pub proof fn lemma_group_step_extends(
    f: Field,
    stack: Seq<Coord>,
    group: Seq<Coord>,
    cut_on_safe: bool,
    fuel: nat,
)
    ensures
        spec_group_step(f, stack, group, cut_on_safe, fuel).len() >= group.len(),
        spec_group_step(f, stack, group, cut_on_safe, fuel).take(group.len() as int) == group,
    decreases fuel,
{
    if fuel == 0 || stack.len() == 0 {
        assert(spec_group_step(f, stack, group, cut_on_safe, fuel).take(group.len() as int)
            =~= group);
    } else {
        let p = stack.last();
        let rest = stack.drop_last();
        if group.contains(p) || !spec_group_member(f, p, cut_on_safe) {
            lemma_group_step_extends(f, rest, group, cut_on_safe, (fuel - 1) as nat);
        } else {
            let bigger = group.push(p);
            lemma_group_step_extends(
                f,
                rest + spec_push_block(f, p, 8),
                bigger,
                cut_on_safe,
                (fuel - 1) as nat,
            );
            let r = spec_group_step(f, stack, group, cut_on_safe, fuel);
            assert(r.take(bigger.len() as int) == bigger);
            assert(r.take(group.len() as int) =~= group) by {
                assert forall|i: int| 0 <= i < group.len() implies r[i] == group[i] by {
                    assert(r.take(bigger.len() as int)[i] == bigger[i]);
                }
            }
        }
    }
}

/// A walk that adds nothing was offered no admissible new cell.
pub proof fn lemma_group_step_stuck(
    f: Field,
    stack: Seq<Coord>,
    group: Seq<Coord>,
    cut_on_safe: bool,
    fuel: nat,
)
    requires
        spec_group_step(f, stack, group, cut_on_safe, fuel).len() == group.len(),
        fuel >= stack.len(),
    ensures
        forall|i: int|
            0 <= i < stack.len() ==> group.contains(#[trigger] stack[i]) || !spec_group_member(
                f,
                stack[i],
                cut_on_safe,
            ),
    decreases stack.len(),
{
    if stack.len() > 0 {
        let p = stack.last();
        let rest = stack.drop_last();
        if group.contains(p) || !spec_group_member(f, p, cut_on_safe) {
            lemma_group_step_stuck(f, rest, group, cut_on_safe, (fuel - 1) as nat);
            assert forall|i: int|
                0 <= i < stack.len() implies group.contains(#[trigger] stack[i])
                || !spec_group_member(f, stack[i], cut_on_safe) by {
                if i < stack.len() - 1 {
                    assert(stack[i] == rest[i]);
                }
            }
        } else {
            lemma_group_step_extends(
                f,
                rest + spec_push_block(f, p, 8),
                group.push(p),
                cut_on_safe,
                (fuel - 1) as nat,
            );
            assert(false);
        }
    }
}

/// Linear membership test on a coordinate list.
pub fn coords_contain(v: &Vec<Coord>, p: Coord) -> (b: bool)
    ensures
        b == v@.contains(p),
{
    let n = v.len();
    let mut i: usize = 0;
    while i < n
        invariant
            n == v@.len(),
            i <= n,
            forall|j: int| 0 <= j < i ==> v@[j] != p,
        decreases n - i,
    {
        let q = v[i];
        if q.0 == p.0 && q.1 == p.1 {
            proof {
                assert(v@[i as int] == p);
            }
            return true;
        }
        i += 1;
    }
    proof {
        if v@.contains(p) {
            let k = choose|k: int| 0 <= k < v@.len() && v@[k] == p;
            assert(v@[k] != p);
        }
    }
    false
}


/// A probability strictly between certain-safe and certain-mine.
pub open spec fn spec_middle(r: crate::risk::Risk) -> bool {
    !r.spec_is_zero() && !r.spec_is_one()
}

/// The coordinates of the cache entries whose probability lies strictly
/// between 0 and 1, in cache order.
pub open spec fn spec_middles(entries: Seq<(crate::risk::Risk, Coord)>) -> Seq<Coord>
    decreases entries.len(),
{
    if entries.len() == 0 {
        Seq::empty()
    } else {
        spec_middles(entries.drop_last()) + (if spec_middle(entries.last().0) {
            seq![entries.last().1]
        } else {
            Seq::empty()
        })
    }
}

impl Field {
    fn is_member(&self, p: Coord, cut_on_safe: bool) -> (b: bool)
        requires
            self.wf(),
        ensures
            b == spec_group_member(*self, p, cut_on_safe),
    {
        if !coord_inner(p) {
            return false;
        }
        match self.risk_cache.get(p) {
            Some(r) => {
                if r.is_one() {
                    return false;
                }
                if cut_on_safe && r.is_zero() {
                    return false;
                }
            },
            None => {},
        }
        match self.get(p) {
            Some(Cell::Hidden(_)) => true,
            _ => false,
        }
    }

    /// Flood fill of the hidden frontier reachable from the seeds through
    /// revealed neighbours. The seeds' top element (the last, popped first)
    /// can only ever appear at the front of the result.
    pub fn group_from(&self, seeds: Vec<Coord>, cut_on_safe: bool) -> (group: Vec<Coord>)
        requires
            self.wf(),
        ensures
            forall|i: int|
                0 <= i < group@.len() ==> spec_group_member(
                    *self,
                    #[trigger] group@[i],
                    cut_on_safe,
                ),
            forall|i: int, j: int| 0 <= i < j < group@.len() ==> group@[i] != group@[j],
            seeds@.len() > 0 && group@.contains(seeds@.last()) ==> group@.len() > 0 && group@[0]
                == seeds@.last(),
            group@ == spec_group_from(*self, seeds@, cut_on_safe),
    {
        let ghost seeds0 = seeds@;
        let ghost s0 = if seeds@.len() > 0 {
            seeds@.last()
        } else {
            (0i64, 0i64)
        };
        let ghost seeded = seeds@.len() > 0;
        let mut stack = seeds;
        let mut group: Vec<Coord> = Vec::new();
        let mut fuel: usize = GROUP_FUEL;
        while fuel > 0
            invariant
                self.wf(),
                forall|i: int|
                    0 <= i < group@.len() ==> spec_group_member(
                        *self,
                        #[trigger] group@[i],
                        cut_on_safe,
                    ),
                forall|i: int, j: int| 0 <= i < j < group@.len() ==> group@[i] != group@[j],
                seeded && spec_group_member(*self, s0, cut_on_safe) ==> (group@.len() > 0
                    && group@[0] == s0) || (group@.len() == 0 && stack@.len() > 0 && stack@.last()
                    == s0),
                seeded && !spec_group_member(*self, s0, cut_on_safe) ==> !group@.contains(s0),
                spec_group_step(*self, stack@, group@, cut_on_safe, fuel as nat)
                    == spec_group_from(*self, seeds0, cut_on_safe),
            ensures
                forall|i: int|
                    0 <= i < group@.len() ==> spec_group_member(
                        *self,
                        #[trigger] group@[i],
                        cut_on_safe,
                    ),
                forall|i: int, j: int| 0 <= i < j < group@.len() ==> group@[i] != group@[j],
                seeded && group@.contains(s0) ==> group@.len() > 0 && group@[0] == s0,
                group@ == spec_group_from(*self, seeds0, cut_on_safe),
            decreases fuel,
        {
            let ghost fuel0 = fuel as nat;
            let ghost stack0 = stack@;
            let ghost group0 = group@;
            fuel -= 1;
            let p = match stack.pop() {
                Some(p) => p,
                None => {
                    proof {
                        assert(spec_group_step(*self, stack0, group0, cut_on_safe, fuel0)
                            == group0);
                    }
                    break ;
                },
            };
            if coords_contain(&group, p) || !self.is_member(p, cut_on_safe) {
                proof {
                    assert(spec_group_step(*self, stack0, group0, cut_on_safe, fuel0)
                        == spec_group_step(*self, stack@, group@, cut_on_safe, fuel as nat));
                }
                continue ;
            }
            let ghost rest0 = stack@;
            let adj = adjacents(p);
            let mut ai: usize = 0;
            while ai < 8
                invariant
                    self.wf(),
                    adj@.len() == 8,
                    adj@ == spec_adj64(p),
                    ai <= 8,
                    stack@ == rest0 + spec_push_block(*self, p, ai as nat),
                    forall|k: int|
                        0 <= k < 8 ==> -crate::coords::COORD_LIMIT <= (#[trigger] adj@[k]).0
                            <= crate::coords::COORD_LIMIT && -crate::coords::COORD_LIMIT
                            <= adj@[k].1 <= crate::coords::COORD_LIMIT,
                decreases 8 - ai,
            {
                let a = adj[ai];
                let revealed = match self.get(a) {
                    Some(Cell::Revealed(_)) => true,
                    _ => false,
                };
                let ghost block0 = spec_push_block(*self, p, ai as nat);
                if revealed {
                    let their = adjacents(a);
                    let mut ti: usize = 0;
                    while ti < 8
                        invariant
                            self.wf(),
                            their@.len() == 8,
                            their@ == spec_adj64(a),
                            ti <= 8,
                            a == spec_adj64(p)[ai as int],
                            ai < 8,
                            adj@ == spec_adj64(p),
                            self.spec_get(a) matches Some(Cell::Revealed(_)),
                            stack@ == rest0 + block0 + spec_push_inner(*self, a, p, ti as nat),
                            block0 == spec_push_block(*self, p, ai as nat),
                        decreases 8 - ti,
                    {
                        let t = their[ti];
                        let ghost st0 = stack@;
                        if t.0 != p.0 || t.1 != p.1 {
                            stack.push(t);
                            proof {
                                assert(t == spec_adj64(a)[ti as int]);
                                assert(t != p);
                                assert(spec_push_inner(*self, a, p, (ti + 1) as nat)
                                    == spec_push_inner(*self, a, p, ti as nat) + seq![t]);
                                assert(stack@ =~= rest0 + block0 + spec_push_inner(
                                    *self,
                                    a,
                                    p,
                                    (ti + 1) as nat,
                                ));
                            }
                        } else {
                            proof {
                                assert(t == spec_adj64(a)[ti as int]);
                                assert(t == p);
                                assert(spec_push_inner(*self, a, p, (ti + 1) as nat)
                                    == spec_push_inner(*self, a, p, ti as nat) + Seq::<
                                    Coord,
                                >::empty());
                                assert(stack@ =~= rest0 + block0 + spec_push_inner(
                                    *self,
                                    a,
                                    p,
                                    (ti + 1) as nat,
                                ));
                            }
                        }
                        ti += 1;
                    }
                    proof {
                        assert(spec_push_block(*self, p, (ai + 1) as nat) == block0
                            + spec_push_inner(*self, spec_adj64(p)[ai as int], p, 8));
                        assert(stack@ =~= rest0 + spec_push_block(*self, p, (ai + 1) as nat));
                    }
                } else {
                    proof {
                        assert(spec_push_block(*self, p, (ai + 1) as nat) == block0 + Seq::<
                            Coord,
                        >::empty());
                        assert(stack@ =~= rest0 + spec_push_block(*self, p, (ai + 1) as nat));
                    }
                }
                ai += 1;
            }
            let ghost before = group@;
            group.push(p);
            proof {
                assert(stack@ == rest0 + spec_push_block(*self, p, 8));
                assert(spec_group_step(*self, stack0, group0, cut_on_safe, fuel0)
                    == spec_group_step(*self, stack@, group@, cut_on_safe, fuel as nat)) by {
                    assert(stack0.last() == p);
                    assert(stack0.drop_last() == rest0);
                    assert(!group0.contains(p));
                    assert(spec_group_member(*self, p, cut_on_safe));
                    assert(group@ == group0.push(p));
                }
                assert(group@.last() == p);
                assert(spec_group_member(*self, p, cut_on_safe));
                assert forall|i: int, j: int|
                    0 <= i < j < group@.len() implies group@[i] != group@[j] by {
                    if j == group@.len() - 1 {
                        assert(group@[i] == before[i]);
                        assert(!before.contains(p));
                    }
                }
                if seeded && !spec_group_member(*self, s0, cut_on_safe) {
                    assert(p != s0);
                    assert(!group@.contains(s0)) by {
                        if group@.contains(s0) {
                            let k = choose|k: int| 0 <= k < group@.len() && group@[k] == s0;
                            if k < group@.len() - 1 {
                                assert(before[k] == s0);
                                assert(before.contains(s0));
                            }
                        }
                    }
                }
            }
        }
        group
    }

    /// Whether every cached probability strictly between 0 and 1 lies in
    /// the single group grown from the first such cell. Trivially true when
    /// no such probability exists.
    pub open spec fn spec_is_one_group(self) -> bool {
        let mids = spec_middles(self.risk_cache.entries@);
        mids.len() == 0 || forall|i: int|
            0 <= i < mids.len() ==> spec_group_from(self, seq![mids[0]], false).contains(
                #[trigger] mids[i],
            )
    }

    /// Whether every cached probability strictly between 0 and 1 lies in one
    /// connected group.
    pub fn is_one_group(&self) -> (b: bool)
        requires
            self.wf(),
        ensures
            b == self.spec_is_one_group(),
    {
        let n = self.risk_cache.len();
        let mut middles: Vec<Coord> = Vec::new();
        let mut i: usize = 0;
        while i < n
            invariant
                n == self.risk_cache.entries@.len(),
                self.wf(),
                i <= n,
                middles@ == spec_middles(self.risk_cache.entries@.take(i as int)),
            decreases n - i,
        {
            let e = self.risk_cache.entries[i];
            proof {
                let t = self.risk_cache.entries@.take(i + 1);
                assert(t.drop_last() =~= self.risk_cache.entries@.take(i as int));
                assert(t.last() == self.risk_cache.entries@[i as int]);
            }
            if !e.0.is_zero() && !e.0.is_one() {
                middles.push(e.1);
            }
            i += 1;
        }
        proof {
            assert(self.risk_cache.entries@.take(n as int) =~= self.risk_cache.entries@);
        }
        if middles.len() == 0 {
            return true;
        }
        let seed = middles[0];
        let mut seeds: Vec<Coord> = Vec::new();
        seeds.push(seed);
        proof {
            assert(seeds@ =~= seq![middles@[0]]);
        }
        let g = self.group_from(seeds, false);
        let m = middles.len();
        let mut k: usize = 0;
        let mut all_in: bool = true;
        while k < m
            invariant
                m == middles@.len(),
                m > 0,
                k <= m,
                self.wf(),
                middles@ == spec_middles(self.risk_cache.entries@),
                g@ == spec_group_from(*self, seq![middles@[0]], false),
                all_in == (forall|j: int| 0 <= j < k ==> g@.contains(#[trigger] middles@[j])),
            decreases m - k,
        {
            let ghost pre = all_in;
            if !coords_contain(&g, middles[k]) {
                all_in = false;
            }
            proof {
                if !all_in && pre {
                    assert(!g@.contains(middles@[k as int]));
                }
                if !pre {
                    let w = choose|w: int| 0 <= w < k && !g@.contains(#[trigger] middles@[w]);
                    assert(!g@.contains(middles@[w]));
                }
            }
            k += 1;
        }
        all_in
    }
}

} // verus!
