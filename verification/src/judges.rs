use vstd::prelude::*;
use crate::coords::Coord;
use crate::field::Field;
use crate::risk::Risk;
use crate::rng::random_u64;

verus! {

/// The fairness policy deciding whether a requested reveal may succeed.
#[derive(Clone, Copy, Debug, PartialEq, Eq, Structural)]
pub enum Judge {
    Random,
    Strict,
    Kind,
    Local,
    Global,
    KaboomGlobal,
    KaboomLocal,
}

impl Field {
    /// The clearance rule shared by the Global policy and the out-of-cache
    /// half of the Local policy.
    pub open spec fn spec_global_clear(self, risk: Risk) -> bool {
        &&& risk.lt(Risk { num: 1, den: 1 })
        &&& risk.le(self.density)
        &&& risk.le(self.risk_cache.spec_global_best())
    }

    /// The policies whose whole decision is a function of the state:
    /// every one but Random, which takes a fresh draw.
    pub open spec fn spec_judge_det(self) -> bool {
        self.judge != Judge::Random
    }

    /// The group the Local policies look at: the flood fill around `p`
    /// without cutting at certainly-safe cells.
    pub open spec fn spec_local_group(self, p: Coord) -> Seq<Coord> {
        crate::group::spec_group_from(self, seq![p], false)
    }

    /// Every cached probability in `g` is at least `risk`.
    pub open spec fn spec_all_at_least(self, risk: Risk, g: Seq<Coord>) -> bool {
        forall|i: int|
            0 <= i < g.len() ==> match self.risk_cache.spec_get(#[trigger] g[i]) {
                Some(q) => risk.le(q),
                None => true,
            }
    }

    /// No cached probability in `g` is exactly zero.
    pub open spec fn spec_none_zero(self, g: Seq<Coord>) -> bool {
        forall|i: int|
            0 <= i < g.len() ==> match self.risk_cache.spec_get(#[trigger] g[i]) {
                Some(q) => !q.spec_is_zero(),
                None => true,
            }
    }

    /// The clearance decision of every deterministic policy.
    pub open spec fn spec_is_clear_det(self, p: Coord) -> bool {
        let r = self.spec_cell_risk(p);
        match self.judge {
            Judge::Kind => !r.spec_is_one(),
            Judge::Strict => r.spec_is_zero(),
            Judge::Global => self.spec_global_clear(r),
            Judge::Local => if !self.risk_cache.spec_contains(p) {
                self.spec_global_clear(r)
            } else {
                !r.spec_is_one() && self.spec_all_at_least(r, self.spec_local_group(p))
            },
            Judge::KaboomGlobal => if r.spec_is_one() {
                false
            } else if r.spec_is_zero() {
                true
            } else {
                self.risk_cache.spec_contains(p)
                    && !self.risk_cache.spec_global_best().spec_is_zero()
            },
            Judge::KaboomLocal => if r.spec_is_one() {
                false
            } else if r.spec_is_zero() {
                true
            } else {
                self.risk_cache.spec_contains(p) && self.spec_none_zero(self.spec_local_group(p))
            },
            _ => false,
        }
    }

    fn global_clear(&self, risk: Risk) -> (b: bool)
        requires
            self.wf(),
            risk.valid(),
        ensures
            b == self.spec_global_clear(risk),
    {
        let one = Risk::one();
        let best = self.risk_cache.global_best();
        risk.lt_exec(&one) && risk.le_exec(&self.density) && risk.le_exec(&best)
    }

    /// Whether the policy allows revealing `p` right now. For the Local and
    /// KaboomLocal policies the answer also depends on the connected group
    /// around `p`; for Random it takes one fresh draw.
    pub fn is_clear(&self, point: Coord) -> (b: bool)
        requires
            self.wf(),
        ensures
            self.spec_judge_det() ==> b == self.spec_is_clear_det(point),
            b ==> !self.spec_cell_risk(point).spec_is_one(),
            self.judge != Judge::Random && self.spec_cell_risk(point).spec_is_zero() ==> b,
    {
        let risk = self.cell_risk(point);
        match self.judge {
            Judge::Random => {
                let draw = random_u64();
                proof {
                    crate::risk::lemma_mul_u64_fits(draw as int, risk.den as int);
                    assert(risk.num * 0x1_0000_0000_0000_0000
                        <= 0xffff_ffff_ffff_ffff_ffff_ffff_ffff_ffff) by (nonlinear_arith)
                        requires
                            0 <= risk.num <= 0xffff_ffff_ffff_ffff,
                    ;
                    if risk.spec_is_one() {
                        assert((draw as int) * (risk.den as int) < (risk.num as int)
                            * 0x1_0000_0000_0000_0000) by (nonlinear_arith)
                            requires
                                0 <= draw < 0x1_0000_0000_0000_0000,
                                risk.num == risk.den,
                                1 <= risk.den,
                        ;
                    }
                }
                (draw as u128) * (risk.den as u128) > (risk.num as u128) * 0x1_0000_0000_0000_0000u128
            },
            Judge::Kind => !risk.is_one(),
            Judge::Strict => {
                proof {
                    if risk.spec_is_zero() {
                        assert(!risk.spec_is_one());
                    }
                }
                risk.is_zero()
            },
            Judge::Global => self.global_clear(risk),
            Judge::Local => {
                if !self.risk_cache.contains_key(point) {
                    self.global_clear(risk)
                } else if risk.is_one() {
                    false
                } else {
                    let mut seeds: Vec<Coord> = Vec::new();
                    seeds.push(point);
                    proof {
                        assert(seeds@ =~= seq![point]);
                    }
                    let group = self.group_from(seeds, false);
                    let n = group.len();
                    let mut all_le: bool = true;
                    let mut i: usize = 0;
                    while i < n
                        invariant
                            n == group@.len(),
                            i <= n,
                            self.wf(),
                            risk.valid(),
                            group@ == self.spec_local_group(point),
                            all_le == self.spec_all_at_least(risk, group@.take(i as int)),
                        decreases n - i,
                    {
                        let ghost pre = all_le;
                        // a group cell with no cached probability constrains
                        // nothing, so it cannot block the reveal
                        match self.risk_cache.get(group[i]) {
                            Some(q) => {
                                if !risk.le_exec(&q) {
                                    all_le = false;
                                }
                            },
                            None => {},
                        }
                        proof {
                            let t = group@.take(i + 1);
                            assert(t.drop_last() =~= group@.take(i as int));
                            assert(t.last() == group@[i as int]);
                            assert forall|j: int|
                                0 <= j < t.len() && all_le implies match self.risk_cache.spec_get(
                                #[trigger] t[j],
                            ) {
                                Some(q) => risk.le(q),
                                None => true,
                            } by {
                                if j < i {
                                    assert(group@.take(i as int)[j] == t[j]);
                                }
                            }
                            if !all_le {
                                if pre {
                                    assert(!self.spec_all_at_least(risk, t)) by {
                                        assert(t[i as int] == group@[i as int]);
                                    }
                                } else {
                                    let w = choose|w: int|
                                        0 <= w < i && !match self.risk_cache.spec_get(
                                            #[trigger] group@.take(i as int)[w],
                                        ) {
                                            Some(q) => risk.le(q),
                                            None => true,
                                        };
                                    assert(t[w] == group@.take(i as int)[w]);
                                    assert(!self.spec_all_at_least(risk, t));
                                }
                            }
                        }
                        i += 1;
                    }
                    proof {
                        assert(group@.take(n as int) =~= group@);
                        if risk.spec_is_zero() {
                            assert forall|i2: int|
                                0 <= i2 < group@.len() implies match self.risk_cache.spec_get(
                                #[trigger] group@[i2],
                            ) {
                                Some(q) => risk.le(q),
                                None => true,
                            } by {
                                match self.risk_cache.spec_get(group@[i2]) {
                                    Some(q) => {
                                        assert(risk.num * q.den <= q.num * risk.den)
                                            by (nonlinear_arith)
                                            requires
                                                risk.num == 0,
                                                q.num >= 0,
                                                risk.den >= 0,
                                        ;
                                    },
                                    None => {},
                                }
                            }
                            assert(all_le);
                        }
                    }
                    all_le
                }
            },
            Judge::KaboomGlobal => {
                if risk.is_one() {
                    false
                } else if risk.is_zero() {
                    true
                } else {
                    let best = self.risk_cache.global_best();
                    self.risk_cache.contains_key(point) && !best.is_zero()
                }
            },
            Judge::KaboomLocal => {
                if risk.is_one() {
                    false
                } else if risk.is_zero() {
                    true
                } else {
                    if !self.risk_cache.contains_key(point) {
                        false
                    } else {
                        let mut seeds: Vec<Coord> = Vec::new();
                        seeds.push(point);
                        proof {
                            assert(seeds@ =~= seq![point]);
                        }
                        let group = self.group_from(seeds, false);
                        let n = group.len();
                        let mut none_zero: bool = true;
                        let mut i: usize = 0;
                        while i < n
                            invariant
                                n == group@.len(),
                                i <= n,
                                self.wf(),
                                group@ == self.spec_local_group(point),
                                none_zero == self.spec_none_zero(group@.take(i as int)),
                            decreases n - i,
                        {
                            let ghost pre = none_zero;
                            match self.risk_cache.get(group[i]) {
                                Some(q) => {
                                    if q.is_zero() {
                                        none_zero = false;
                                    }
                                },
                                None => {},
                            }
                            proof {
                                let t = group@.take(i + 1);
                                assert(t.drop_last() =~= group@.take(i as int));
                                assert(t.last() == group@[i as int]);
                                assert forall|j: int|
                                    0 <= j < t.len() && none_zero implies match self
                                        .risk_cache
                                        .spec_get(#[trigger] t[j]) {
                                    Some(q) => !q.spec_is_zero(),
                                    None => true,
                                } by {
                                    if j < i {
                                        assert(group@.take(i as int)[j] == t[j]);
                                    }
                                }
                                if !none_zero {
                                    if pre {
                                        assert(!self.spec_none_zero(t)) by {
                                            assert(t[i as int] == group@[i as int]);
                                        }
                                    } else {
                                        let w = choose|w: int|
                                            0 <= w < i && !match self.risk_cache.spec_get(
                                                #[trigger] group@.take(i as int)[w],
                                            ) {
                                                Some(q) => !q.spec_is_zero(),
                                                None => true,
                                            };
                                        assert(t[w] == group@.take(i as int)[w]);
                                        assert(!self.spec_none_zero(t));
                                    }
                                }
                            }
                            i += 1;
                        }
                        proof {
                            assert(group@.take(n as int) =~= group@);
                        }
                        none_zero
                    }
                }
            },
        }
    }

    /// Whether `p` is certainly a mine (`Some(true)`), certainly not
    /// (`Some(false)`), or unknown — which only the Random policy leaves open.
    pub fn definite_risk(&self, point: Coord) -> (r: Option<bool>)
        requires
            self.wf(),
        ensures
            self.judge == Judge::Random ==> r == (if self.spec_cell_risk(point).spec_is_zero() {
                Some(false)
            } else if self.spec_cell_risk(point).spec_is_one() {
                Some(true)
            } else {
                Option::<bool>::None
            }),
            self.judge != Judge::Random ==> r is Some,
            self.spec_judge_det() ==> r == Some(!self.spec_is_clear_det(point)),
            r == Some(false) ==> !self.spec_cell_risk(point).spec_is_one(),
            self.judge != Judge::Random && self.spec_cell_risk(point).spec_is_zero() ==> r
                == Some(false),
    {
        match self.judge {
            Judge::Random => {
                let risk = self.cell_risk(point);
                if risk.is_zero() {
                    proof {
                        assert(!risk.spec_is_one());
                    }
                    Some(false)
                } else if risk.is_one() {
                    Some(true)
                } else {
                    None
                }
            },
            _ => Some(!self.is_clear(point)),
        }
    }

    /// What `has_safe` returns: under Random and Strict a certainly-safe
    /// cell must be cached; under every other policy any probability below
    /// 1 still leaves a safe move.
    pub open spec fn spec_has_safe(self) -> bool {
        match self.judge {
            Judge::Random | Judge::Strict => self.risk_cache.spec_global_best().spec_is_zero(),
            _ => !self.risk_cache.spec_global_best().spec_is_one(),
        }
    }

    /// Whether some cell is still certainly safe to reveal.
    pub fn has_safe(&self) -> (b: bool)
        requires
            self.wf(),
        ensures
            b == self.spec_has_safe(),
    {
        let best = self.risk_cache.global_best();
        match self.judge {
            Judge::Random | Judge::Strict => best.is_zero(),
            _ => !best.is_one(),
        }
    }

    /// The cached coordinates that are certainly safe under the policy.
    pub fn safe_frontier(&self) -> (r: Vec<Coord>)
        requires
            self.wf(),
        ensures
            forall|i: int| 0 <= i < r@.len() ==> self.risk_cache.spec_contains(#[trigger] r@[i]),
            forall|i: int, j: int| 0 <= i < j < r@.len() ==> r@[i] != r@[j],
            self.spec_judge_det() ==> forall|i: int|
                0 <= i < r@.len() ==> self.spec_is_clear_det(#[trigger] r@[i]),
            self.spec_judge_det() ==> forall|j: int|
                0 <= j < self.risk_cache.entries@.len() && self.spec_is_clear_det(
                    (#[trigger] self.risk_cache.entries@[j]).1,
                ) ==> r@.contains(self.risk_cache.entries@[j].1),
            self.judge == Judge::Random ==> forall|i: int|
                0 <= i < r@.len() ==> self.spec_cell_risk(#[trigger] r@[i]).spec_is_zero(),
            self.judge == Judge::Random ==> forall|j: int|
                0 <= j < self.risk_cache.entries@.len() && (
                #[trigger] self.risk_cache.entries@[j]).0.spec_is_zero() ==> r@.contains(
                    self.risk_cache.entries@[j].1,
                ),
    {
        let keys = self.risk_cache.keys();
        let n = keys.len();
        let mut out: Vec<Coord> = Vec::new();
        let mut i: usize = 0;
        while i < n
            invariant
                n == keys@.len(),
                n == self.risk_cache.entries@.len(),
                forall|k: int| 0 <= k < n ==> #[trigger] keys@[k] == self.risk_cache.entries@[k].1,
                i <= n,
                self.wf(),
                forall|k: int|
                    0 <= k < out@.len() ==> self.risk_cache.spec_contains(#[trigger] out@[k]),
                forall|a: int, b: int| 0 <= a < b < out@.len() ==> out@[a] != out@[b],
                forall|a: int|
                    0 <= a < out@.len() ==> exists|j: int|
                        0 <= j < i && #[trigger] out@[a] == self.risk_cache.entries@[j].1,
                self.spec_judge_det() ==> forall|k: int|
                    0 <= k < out@.len() ==> self.spec_is_clear_det(#[trigger] out@[k]),
                self.spec_judge_det() ==> forall|j: int|
                    0 <= j < i && self.spec_is_clear_det(
                        (#[trigger] self.risk_cache.entries@[j]).1,
                    ) ==> out@.contains(self.risk_cache.entries@[j].1),
                self.judge == Judge::Random ==> forall|k: int|
                    0 <= k < out@.len() ==> self.spec_cell_risk(#[trigger] out@[k]).spec_is_zero(),
                self.judge == Judge::Random ==> forall|j: int|
                    0 <= j < i && (#[trigger] self.risk_cache.entries@[j]).0.spec_is_zero()
                        ==> out@.contains(self.risk_cache.entries@[j].1),
            decreases n - i,
        {
            let p = keys[i];
            let safe = match self.definite_risk(p) {
                Some(false) => true,
                _ => false,
            };
            proof {
                self.risk_cache.lemma_at(i as int);
            }
            let ghost pre = out@;
            if safe {
                out.push(p);
            }
            proof {
                if safe {
                    assert(out@ == pre.push(p));
                    assert(out@.last() == p);
                    assert forall|a: int, b: int|
                        0 <= a < b < out@.len() implies out@[a] != out@[b] by {
                        if b == out@.len() - 1 {
                            assert(out@[a] == pre[a]);
                            let j = choose|j: int|
                                0 <= j < i && #[trigger] pre[a] == self.risk_cache.entries@[j].1;
                            assert(self.risk_cache.entries@[j].1
                                != self.risk_cache.entries@[i as int].1);
                        } else {
                            assert(out@[a] == pre[a] && out@[b] == pre[b]);
                        }
                    }
                    assert forall|a: int|
                        0 <= a < out@.len() implies exists|j: int|
                        0 <= j < i + 1 && #[trigger] out@[a] == self.risk_cache.entries@[j].1 by {
                        if a == out@.len() - 1 {
                            assert(out@[a] == self.risk_cache.entries@[i as int].1);
                        } else {
                            assert(out@[a] == pre[a]);
                            let j = choose|j: int|
                                0 <= j < i && #[trigger] pre[a] == self.risk_cache.entries@[j].1;
                            assert(out@[a] == self.risk_cache.entries@[j].1);
                        }
                    }
                    assert forall|j: int|
                        0 <= j < i + 1 && self.spec_judge_det() && self.spec_is_clear_det(
                            (#[trigger] self.risk_cache.entries@[j]).1,
                        ) implies out@.contains(self.risk_cache.entries@[j].1) by {
                        if j < i {
                            assert(pre.contains(self.risk_cache.entries@[j].1));
                            let w = choose|w: int|
                                0 <= w < pre.len() && pre[w] == self.risk_cache.entries@[j].1;
                            assert(out@[w] == self.risk_cache.entries@[j].1);
                        } else {
                            assert(out@[out@.len() - 1] == p);
                        }
                    }
                    assert forall|j: int|
                        0 <= j < i + 1 && self.judge == Judge::Random && (
                        #[trigger] self.risk_cache.entries@[j]).0.spec_is_zero() implies
                        out@.contains(self.risk_cache.entries@[j].1) by {
                        if j < i {
                            assert(pre.contains(self.risk_cache.entries@[j].1));
                            let w = choose|w: int|
                                0 <= w < pre.len() && pre[w] == self.risk_cache.entries@[j].1;
                            assert(out@[w] == self.risk_cache.entries@[j].1);
                        } else {
                            assert(out@[out@.len() - 1] == p);
                        }
                    }
                } else {
                    if self.spec_judge_det() {
                        assert(!self.spec_is_clear_det(p));
                    }
                    if self.judge == Judge::Random {
                        assert(self.risk_cache.spec_get(p)
                            == Some(self.risk_cache.entries@[i as int].0));
                        assert(!self.spec_cell_risk(p).spec_is_zero());
                    }
                }
            }
            i += 1;
        }
        out
    }

    /// What `is_won` returns: a finite board whose every cell is revealed or
    /// on the frontier, with no certainly-safe move left.
    pub open spec fn spec_is_won(self) -> bool {
        match self.size {
            Option::None => false,
            Option::Some((w, h)) => w * h == self.cells_revealed
                + self.risk_cache.entries@.len() && !self.spec_has_safe(),
        }
    }

    /// Whether the game is over and won.
    pub fn is_won(&self) -> (b: bool)
        requires
            self.wf(),
        ensures
            b == self.spec_is_won(),
    {
        match self.size {
            None => false,
            Some((w, h)) => {
                proof {
                    crate::risk::lemma_mul_u64_fits(w as int, h as int);
                }
                let prod = (w as u128) * (h as u128);
                let sum = (self.cells_revealed as u128) + (self.risk_cache.len() as u128);
                prod == sum && !self.has_safe()
            },
        }
    }
}

} // verus!
