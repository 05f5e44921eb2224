//! Per-billion fractions (slash fractions, commission) and exact
//! floor-division share arithmetic on balances.

use vstd::prelude::*;
use vstd::arithmetic::div_mod::lemma_div_is_ordered;
use vstd::arithmetic::div_mod::lemma_div_by_multiple;
use vstd::arithmetic::mul::lemma_mul_inequality;
use vstd::arithmetic::mul::lemma_mul_upper_bound;

verus! {

/// Denominator of every fraction: parts per billion.
pub const FRAC_DEN: u32 = 1_000_000_000;

/// The floor of `v * p / d`: the share of `v` that the ratio `p / d` names.
pub open spec fn share_of(v: int, p: int, d: int) -> int {
    v * p / d
}

pub proof fn lemma_share_le(v: int, p: int, d: int)
    requires
        0 <= v,
        0 <= p <= d,
        0 < d,
    ensures
        0 <= share_of(v, p, d) <= v,
{
    lemma_mul_inequality(p, d, v);
    lemma_div_is_ordered(v * p, v * d, d);
    lemma_div_by_multiple(v, d);
    assert(v * p >= 0) by (nonlinear_arith)
        requires 0 <= v && 0 <= p;
    assert(v * p / d >= 0);
}

/// `p1 / d` of `v` never exceeds `p2 / d` of `v` when `p1 <= p2`.
pub proof fn lemma_share_monotone(v: int, p1: int, p2: int, d: int)
    requires
        0 <= v,
        0 <= p1 <= p2,
        0 < d,
    ensures
        share_of(v, p1, d) <= share_of(v, p2, d),
{
    lemma_mul_inequality(p1, p2, v);
    lemma_div_is_ordered(v * p1, v * p2, d);
}

/// The exact floor share `v * p / d`, for `p <= d`.
pub fn mul_div(v: u64, p: u64, d: u64) -> (r: u64)
    requires
        0 < d,
        p <= d,
    ensures
        r == share_of(v as int, p as int, d as int),
        r <= v,
{
    proof {
        lemma_share_le(v as int, p as int, d as int);
        lemma_mul_upper_bound(v as int, u64::MAX as int, p as int, u64::MAX as int);
    }
    (((v as u128) * (p as u128)) / (d as u128)) as u64
}

/// A fraction of a whole, in parts per billion, always in `[0, 1]`.
#[derive(Clone, Copy, PartialEq, Eq, Structural, Debug)]
pub struct Frac {
    parts: u32,
}

impl Frac {
    pub closed spec fn spec_parts(&self) -> int {
        self.parts as int
    }

    /// Every constructed fraction stays at or below one.
    pub open spec fn wf(&self) -> bool {
        0 <= self.spec_parts() <= FRAC_DEN
    }

    /// The fraction `p / 1_000_000_000`, clamped to one.
    pub fn from_parts(p: u32) -> (r: Frac)
        ensures
            r.wf(),
            r.spec_parts() == if p <= FRAC_DEN { p as int } else { FRAC_DEN as int },
    {
        if p <= FRAC_DEN {
            Frac { parts: p }
        } else {
            Frac { parts: FRAC_DEN }
        }
    }

    /// The fraction `p / 100`, clamped to one.
    pub fn from_percent(p: u32) -> (r: Frac)
        ensures
            r.wf(),
            r.spec_parts() == if p <= 100 { p * 10_000_000 } else { FRAC_DEN as int },
    {
        if p <= 100 {
            Frac { parts: p * 10_000_000 }
        } else {
            Frac { parts: FRAC_DEN }
        }
    }

    pub fn zero() -> (r: Frac)
        ensures
            r.wf(),
            r.spec_parts() == 0,
    {
        Frac { parts: 0 }
    }

    pub fn parts(&self) -> (r: u32)
        ensures
            r == self.spec_parts(),
    {
        self.parts
    }

    pub fn is_zero(&self) -> (r: bool)
        ensures
            r == (self.spec_parts() == 0),
    {
        self.parts == 0
    }

    /// The floor of this fraction of `v`.
    pub fn mul_floor(&self, v: u64) -> (r: u64)
        requires
            self.wf(),
        ensures
            r == share_of(v as int, self.spec_parts(), FRAC_DEN as int),
            r <= v,
    {
        proof {
            lemma_share_le(v as int, self.spec_parts(), FRAC_DEN as int);
        }
        (((v as u128) * (self.parts as u128)) / (FRAC_DEN as u128)) as u64
    }
}

} // verus!
