use vstd::prelude::*;

verus! {

/// An exact probability in [0, 1], kept as the fraction `num / den`.
///
/// The solver's tallies are ratios of weighted placement counts, so every
/// probability the engine ever stores is rational; keeping the fraction exact
/// lets the judges decide "certainly a mine" (value 1) and "certainly safe"
/// (value 0) without rounding doubt.
#[derive(Clone, Copy, Debug, PartialEq, Eq, Structural)]
pub struct Risk {
    pub num: u64,
    pub den: u64,
}

impl Risk {
    /// A proper fraction with a positive denominator.
    pub open spec fn valid(self) -> bool {
        1 <= self.den && self.num <= self.den
    }

    /// Mathematical `self <= other`, by cross-multiplication.
    pub open spec fn le(self, other: Risk) -> bool {
        self.num * other.den <= other.num * self.den
    }

    /// Mathematical `self < other`.
    pub open spec fn lt(self, other: Risk) -> bool {
        self.num * other.den < other.num * self.den
    }

    /// The two fractions denote the same value.
    pub open spec fn eq_val(self, other: Risk) -> bool {
        self.num * other.den == other.num * self.den
    }

    /// The value is exactly 0.
    pub open spec fn spec_is_zero(self) -> bool {
        self.num == 0
    }

    /// The value is exactly 1 (under `valid`).
    pub open spec fn spec_is_one(self) -> bool {
        self.num == self.den
    }

    pub fn zero() -> (r: Risk)
        ensures
            r == (Risk { num: 0, den: 1 }),
    {
        Risk { num: 0, den: 1 }
    }

    pub fn one() -> (r: Risk)
        ensures
            r == (Risk { num: 1, den: 1 }),
    {
        Risk { num: 1, den: 1 }
    }

    /// Builds a fraction, rejecting anything outside [0, 1].
    pub fn new(num: u64, den: u64) -> (r: Option<Risk>)
        ensures
            r.is_some() <==> (1 <= den && num <= den),
            r.is_some() ==> r.unwrap() == (Risk { num, den }) && r.unwrap().valid(),
    {
        if 1 <= den && num <= den {
            Some(Risk { num, den })
        } else {
            None
        }
    }

    pub fn is_zero(&self) -> (b: bool)
        ensures
            b == self.spec_is_zero(),
    {
        self.num == 0
    }

    pub fn is_one(&self) -> (b: bool)
        ensures
            b == self.spec_is_one(),
    {
        self.num == self.den
    }

    pub fn le_exec(&self, other: &Risk) -> (b: bool)
        ensures
            b == self.le(*other),
    {
        proof {
            lemma_mul_u64_fits(self.num as int, other.den as int);
            lemma_mul_u64_fits(other.num as int, self.den as int);
        }
        (self.num as u128) * (other.den as u128) <= (other.num as u128) * (self.den as u128)
    }

    pub fn lt_exec(&self, other: &Risk) -> (b: bool)
        ensures
            b == self.lt(*other),
    {
        proof {
            lemma_mul_u64_fits(self.num as int, other.den as int);
            lemma_mul_u64_fits(other.num as int, self.den as int);
        }
        (self.num as u128) * (other.den as u128) < (other.num as u128) * (self.den as u128)
    }

    pub fn eq_val_exec(&self, other: &Risk) -> (b: bool)
        ensures
            b == self.eq_val(*other),
    {
        proof {
            lemma_mul_u64_fits(self.num as int, other.den as int);
            lemma_mul_u64_fits(other.num as int, self.den as int);
        }
        (self.num as u128) * (other.den as u128) == (other.num as u128) * (self.den as u128)
    }
}

/// The exact ratio `fc / np` squeezed into a 64-bit fraction. The endpoints
/// are kept exact: the result is 0 only for a zero numerator and 1 only when
/// the two sides are equal, so "certainly safe" and "certainly a mine" never
/// arise from rounding. When the ratio already fits, it is taken as is.
pub fn risk_from_ratio(fc: u128, np: u128) -> (r: Risk)
    requires
        1 <= np,
        fc <= np,
    ensures
        r.valid(),
        r.spec_is_zero() <==> fc == 0,
        r.spec_is_one() <==> fc == np,
        np <= 0xffff_ffff_ffff_ffff ==> r == (Risk { num: fc as u64, den: np as u64 }),
{
    if np <= 0xffff_ffff_ffff_ffff {
        return Risk { num: fc as u64, den: np as u64 };
    }
    if fc == 0 {
        return Risk { num: 0, den: 2 };
    }
    if fc == np {
        return Risk { num: 2, den: 2 };
    }
    let mut a = fc;
    let mut b = np;
    while b > 0xffff_ffff_ffff_ffff
        invariant
            a <= b,
            1 <= b,
        decreases b,
    {
        a = a / 2;
        b = b / 2;
    }
    let den: u64 = if b < 2 {
        2
    } else {
        b as u64
    };
    let mut num: u64 = if a > den as u128 {
        den
    } else {
        a as u64
    };
    if num == 0 {
        num = 1;
    }
    if num == den {
        num = den - 1;
    }
    Risk { num, den }
}

/// The product of two 64-bit quantities fits in 128 bits.
pub proof fn lemma_mul_u64_fits(a: int, b: int)
    requires
        0 <= a <= 0xffff_ffff_ffff_ffff,
        0 <= b <= 0xffff_ffff_ffff_ffff,
    ensures
        0 <= a * b <= 0xffff_ffff_ffff_ffff_ffff_ffff_ffff_ffff,
{
    assert(0 <= a * b <= 0xffff_ffff_ffff_ffff_ffff_ffff_ffff_ffff) by (nonlinear_arith)
        requires
            0 <= a <= 0xffff_ffff_ffff_ffff,
            0 <= b <= 0xffff_ffff_ffff_ffff,
    ;
}

/// `le` is transitive over valid fractions.
pub proof fn lemma_risk_le_trans(a: Risk, b: Risk, c: Risk)
    requires
        a.valid(),
        b.valid(),
        c.valid(),
        a.le(b),
        b.le(c),
    ensures
        a.le(c),
{
    assert(a.num * c.den <= c.num * a.den) by (nonlinear_arith)
        requires
            a.num * b.den <= b.num * a.den,
            b.num * c.den <= c.num * b.den,
            1 <= a.den,
            1 <= b.den,
            1 <= c.den,
    ;
}

/// A strict comparison propagates through a non-strict one.
pub proof fn lemma_risk_lt_le_trans(a: Risk, b: Risk, c: Risk)
    requires
        a.valid(),
        b.valid(),
        c.valid(),
        a.lt(b),
        b.le(c),
    ensures
        a.lt(c),
{
    assert(a.num * c.den < c.num * a.den) by (nonlinear_arith)
        requires
            a.num * b.den < b.num * a.den,
            b.num * c.den <= c.num * b.den,
            1 <= a.den,
            1 <= b.den,
            1 <= c.den,
    ;
}

/// A non-strict comparison propagates through a strict one.
pub proof fn lemma_risk_le_lt_trans(a: Risk, b: Risk, c: Risk)
    requires
        a.valid(),
        b.valid(),
        c.valid(),
        a.le(b),
        b.lt(c),
    ensures
        a.lt(c),
{
    assert(a.num * c.den < c.num * a.den) by (nonlinear_arith)
        requires
            a.num * b.den <= b.num * a.den,
            b.num * c.den < c.num * b.den,
            1 <= a.den,
            1 <= b.den,
            1 <= c.den,
    ;
}

/// Every valid fraction lies between 0 and 1.
pub proof fn lemma_risk_bounds(a: Risk)
    requires
        a.valid(),
    ensures
        (Risk { num: 0, den: 1 }).le(a),
        a.le(Risk { num: 1, den: 1 }),
        a.spec_is_zero() <==> a.eq_val(Risk { num: 0, den: 1 }),
        a.spec_is_one() <==> a.eq_val(Risk { num: 1, den: 1 }),
        !a.spec_is_one() <==> a.lt(Risk { num: 1, den: 1 }),
        !a.spec_is_zero() <==> (Risk { num: 0, den: 1 }).lt(a),
{
}

} // verus!
