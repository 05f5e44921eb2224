//! Exposure snapshots: a validator's own stake plus its backers, recorded per
//! era and read page by page so no single read grows with the backer count.

use vstd::prelude::*;

verus! {

/// One backer's contribution to a validator's exposure.
#[derive(Clone, Copy, PartialEq, Eq, Structural, Debug)]
pub struct IndividualExposure {
    pub who: u64,
    pub value: u64,
}

/// Sum of the backers' contributions.
pub open spec fn backers_sum(s: Seq<IndividualExposure>) -> int
    decreases s.len(),
{
    if s.len() == 0 {
        0
    } else {
        backers_sum(s.drop_last()) + s.last().value
    }
}

pub proof fn lemma_backers_sum_nonneg(s: Seq<IndividualExposure>)
    ensures
        backers_sum(s) >= 0,
    decreases s.len(),
{
    if s.len() > 0 {
        lemma_backers_sum_nonneg(s.drop_last());
    }
}

/// A validator's full backing for one era: its own stake and every backer.
#[derive(Clone, Debug)]
pub struct Exposure {
    /// The validator's own stake at work.
    pub own: u64,
    /// Own stake plus every backer's contribution.
    pub total: u64,
    /// The backing nominators, in election order.
    pub others: Vec<IndividualExposure>,
}

impl Exposure {
    /// An equal copy of this exposure.
    pub fn duplicate(&self) -> (r: Exposure)
        ensures
            r.own == self.own,
            r.total == self.total,
            r.others@ == self.others@,
    {
        let n = self.others.len();
        let mut list: Vec<IndividualExposure> = Vec::new();
        let mut i: usize = 0;
        while i < n
            invariant
                n == self.others@.len(),
                i <= n,
                list@ == self.others@.take(i as int),
            decreases n - i,
        {
            list.push(self.others[i]);
            proof {
                assert(list@ =~= self.others@.take(i as int + 1));
            }
            i = i + 1;
        }
        proof {
            assert(self.others@.take(n as int) =~= self.others@);
        }
        Exposure { own: self.own, total: self.total, others: list }
    }
}

/// The snapshot invariant: the recorded total is exactly the own stake plus
/// the backers' sum.
pub open spec fn exposure_wf(own: u64, total: u64, others: Seq<IndividualExposure>) -> bool {
    total == own + backers_sum(others)
}

/// Pages an exposure with `n` backers occupies: page zero always exists and
/// carries the validator's own share; each page holds at most `page_size`
/// backers.
pub open spec fn spec_page_count(n: int, page_size: int) -> int {
    if n == 0 {
        1
    } else {
        (n - 1) / page_size + 1
    }
}

/// Number of pages for an exposure with `n` backers.
pub fn page_count_for(n: usize, page_size: usize) -> (r: usize)
    requires
        page_size > 0,
    ensures
        r == spec_page_count(n as int, page_size as int),
        r >= 1,
{
    if n == 0 {
        1
    } else {
        proof {
            vstd::arithmetic::div_mod::lemma_div_nonincreasing(n as int - 1, page_size as int);
            vstd::arithmetic::div_mod::lemma_div_pos_is_pos(n as int - 1, page_size as int);
        }
        (n - 1) / page_size + 1
    }
}

} // verus!
