//! The built-in election: approval-ranked candidates, the configured number
//! of seats, and exposures assembled by splitting each nominator's stake
//! equally over its elected targets. The engine only relies on the contract
//! stated here — a bounded set of distinct candidate winners with sound
//! exposure arithmetic — as it would of any election provider.

use vstd::prelude::*;
use crate::exposure::Exposure;
use crate::exposure::IndividualExposure;
use crate::exposure::backers_sum;
use crate::exposure::exposure_wf;
use crate::state::Staking;
use crate::state::wf_base;
use crate::types::Error;

verus! {

/// Whether a stash is an eligible validator candidate: it is a declared
/// candidate whose active stake meets the validator minimum.
pub open spec fn spec_eligible(s: Staking, st: u64) -> bool {
    &&& s.validators.m().contains_key(st)
    &&& s.spec_active_of(st) is Some
    &&& s.spec_active_of(st).unwrap() >= s.cfg.min_validator_bond
}

/// How many of `targets` sit in `winners`.
fn count_elected(targets: &Vec<u64>, winners: &Vec<u64>) -> (r: usize)
    ensures
        r >= 1 <==> exists|i: int| 0 <= i < targets@.len() && winners@.contains(
            #[trigger] targets@[i],
        ),
        r <= targets@.len(),
{
    let n = targets.len();
    let mut count: usize = 0;
    let mut i: usize = 0;
    while i < n
        invariant
            n == targets@.len(),
            i <= n,
            count <= i,
            count >= 1 <==> exists|j: int| 0 <= j < i && winners@.contains(#[trigger] targets@[j]),
        decreases n - i,
    {
        if crate::state::vec_contains(winners, targets[i]) {
            count = count + 1;
            proof {
                assert(winners@.contains(targets@[i as int]));
            }
        }
        i = i + 1;
    }
    count
}

impl Staking {
    /// Run the election: rank every candidate whose active stake meets the
    /// validator minimum by its own stake plus all approving nominations,
    /// seat at most `validator_count` of them, and record each winner's
    /// exposure. Fails with `ElectionFailed` when no candidate, or fewer
    /// than the configured minimum, can be seated.
    pub fn elect(&self) -> (r: Result<Vec<(u64, Exposure)>, Error>)
        requires
            wf_base(*self),
        ensures
            match r {
                Ok(winners) => {
                    &&& 1 <= winners@.len() <= self.cfg.validator_count
                    &&& winners@.len() >= self.cfg.minimum_validator_count
                    &&& forall|i: int| 0 <= i < winners@.len()
                        ==> self.validators.m().contains_key((#[trigger] winners@[i]).0)
                    &&& forall|i: int, j: int| 0 <= i < j < winners@.len()
                        ==> (#[trigger] winners@[i]).0 != (#[trigger] winners@[j]).0
                    &&& forall|i: int| 0 <= i < winners@.len() ==> exposure_wf(
                        (#[trigger] winners@[i]).1.own,
                        winners@[i].1.total,
                        winners@[i].1.others@,
                    )
                },
                Err(e) => e == Error::ElectionFailed,
            },
            (exists|st: u64| #[trigger] spec_eligible(*self, st))
                && self.cfg.minimum_validator_count <= 1 && self.cfg.validator_count >= 1
                ==> r is Ok,
    {
        // Candidates with their own stake at work.
        let ncand = self.validators.len();
        let mut cand_stash: Vec<u64> = Vec::new();
        let mut cand_own: Vec<u64> = Vec::new();
        let mut cand_score: Vec<u64> = Vec::new();
        let mut i: usize = 0;
        while i < ncand
            invariant
                wf_base(*self),
                ncand == self.validators@.len(),
                i <= ncand,
                cand_stash@.len() == cand_own@.len(),
                cand_stash@.len() == cand_score@.len(),
                forall|j: int| 0 <= j < cand_stash@.len() ==> self.validators.m().contains_key(
                    #[trigger] cand_stash@[j],
                ),
                forall|a: int, b: int| 0 <= a < b < cand_stash@.len() ==> #[trigger] cand_stash@[a]
                    != #[trigger] cand_stash@[b],
                forall|j: int|
                    0 <= j < i && spec_eligible(*self, (#[trigger] self.validators@[j]).0)
                        ==> cand_stash@.contains(self.validators@[j].0),
            decreases ncand - i,
        {
            proof {
                self.validators.lemma_entries_cover();
            }
            let stash = self.validators.at(i).0;
            let ghost prev_cands = cand_stash@;
            if !crate::state::vec_contains(&cand_stash, stash) {
                if let Some(active) = self.active_of(stash) {
                    if active >= self.cfg.min_validator_bond {
                        cand_stash.push(stash);
                        cand_own.push(active);
                        cand_score.push(active);
                    }
                }
            }
            proof {
                assert forall|j: int|
                    0 <= j < i + 1 && spec_eligible(*self, (#[trigger] self.validators@[j]).0)
                        implies cand_stash@.contains(self.validators@[j].0) by {
                    if j < i {
                        let ix = choose|ix: int|
                            0 <= ix < prev_cands.len() && prev_cands[ix]
                                == self.validators@[j].0;
                        assert(cand_stash@[ix] == self.validators@[j].0);
                    } else {
                        if prev_cands.contains(stash) {
                            let ix = choose|ix: int|
                                0 <= ix < prev_cands.len() && prev_cands[ix] == stash;
                            assert(cand_stash@[ix] == stash);
                        } else {
                            assert(cand_stash@.last() == stash);
                        }
                    }
                }
            }
            i = i + 1;
        }
        proof {
            if exists|st: u64| #[trigger] spec_eligible(*self, st) {
                let st = choose|st: u64| #[trigger] spec_eligible(*self, st);
                self.validators.lemma_entries_cover();
                let j = choose|j: int|
                    0 <= j < self.validators@.len() && (#[trigger] self.validators@[j]) == (
                    st,
                    self.validators.m()[st],
                    );
                assert(cand_stash@.contains(self.validators@[j].0));
                assert(cand_stash@.len() >= 1);
            }
        }
        // Add every nominator's stake to each of its targets' scores.
        let nnom = self.nominators.len();
        let mut j: usize = 0;
        while j < nnom
            invariant
                wf_base(*self),
                nnom == self.nominators@.len(),
                j <= nnom,
                cand_stash@.len() == cand_own@.len(),
                cand_stash@.len() == cand_score@.len(),
                forall|p: int| 0 <= p < cand_stash@.len() ==> self.validators.m().contains_key(
                    #[trigger] cand_stash@[p],
                ),
                forall|a: int, b: int| 0 <= a < b < cand_stash@.len() ==> #[trigger] cand_stash@[a]
                    != #[trigger] cand_stash@[b],
            decreases nnom - j,
        {
            let nom = self.nominators.at(j).0;
            let nom_active = match self.active_of(nom) {
                Some(a) => a,
                None => 0,
            };
            let ntars = self.nominators.at(j).1.len();
            let mut t: usize = 0;
            while t < ntars
                invariant
                    wf_base(*self),
                    j < self.nominators@.len(),
                    ntars == self.nominators@[j as int].1@.len(),
                    t <= ntars,
                    cand_stash@.len() == cand_own@.len(),
                    cand_stash@.len() == cand_score@.len(),
                    forall|p: int| 0 <= p < cand_stash@.len() ==> self.validators.m().contains_key(
                        #[trigger] cand_stash@[p],
                    ),
                    forall|a: int, b: int| 0 <= a < b < cand_stash@.len()
                        ==> #[trigger] cand_stash@[a] != #[trigger] cand_stash@[b],
                decreases ntars - t,
            {
                let target = self.nominators.at(j).1[t];
                if let Some(pos) = vec_position(&cand_stash, target) {
                    let bumped = cand_score[pos].saturating_add(nom_active);
                    cand_score[pos] = bumped;
                }
                t = t + 1;
            }
            j = j + 1;
        }
        // Seat the highest-scored candidates, smaller stash first on ties.
        let ncands = cand_stash.len();
        let seats = if self.cfg.validator_count <= ncands {
            self.cfg.validator_count
        } else {
            ncands
        };
        let mut winners: Vec<u64> = Vec::new();
        let mut widx: Vec<usize> = Vec::new();
        let mut taken: Vec<bool> = make_false_vec(ncands);
        let mut s: usize = 0;
        while s < seats
            invariant
                ncands == cand_stash@.len(),
                cand_stash@.len() == cand_score@.len(),
                seats <= ncands,
                s <= seats,
                taken@.len() == ncands,
                winners@.len() == s,
                widx@.len() == s,
                forall|a: int, b: int| 0 <= a < b < cand_stash@.len() ==> #[trigger] cand_stash@[a]
                    != #[trigger] cand_stash@[b],
                forall|p: int| 0 <= p < s ==> (#[trigger] widx@[p]) < ncands,
                forall|p: int| 0 <= p < s ==> #[trigger] winners@[p] == cand_stash@[widx@[p] as int],
                forall|p: int| 0 <= p < s ==> taken@[(#[trigger] widx@[p]) as int],
                forall|a: int, b: int| 0 <= a < b < s ==> #[trigger] widx@[a] != #[trigger] widx@[b],
                forall|q2: int| 0 <= q2 < ncands && (#[trigger] taken@[q2]) ==> exists|p: int|
                    0 <= p < widx@.len() && widx@[p] == q2,
            decreases seats - s,
        {
            let mut best: usize = ncands;
            let mut q: usize = 0;
            while q < ncands
                invariant
                    ncands == cand_stash@.len(),
                    cand_stash@.len() == cand_score@.len(),
                    taken@.len() == ncands,
                    q <= ncands,
                    best <= ncands,
                    best < ncands ==> !taken@[best as int],
                    best == ncands ==> forall|q2: int| 0 <= q2 < q ==> #[trigger] taken@[q2],
                decreases ncands - q,
            {
                if !taken[q] {
                    if best == ncands || cand_score[q] > cand_score[best] || (cand_score[q]
                        == cand_score[best] && cand_stash[q] < cand_stash[best]) {
                        best = q;
                    }
                }
                q = q + 1;
            }
            if best == ncands {
                proof {
                    // Every slot is taken, yet only `s < seats <= ncands`
                    // seats were filled: impossible.
                    let iseq = Seq::new(widx@.len() as nat, |p: int| widx@[p] as int);
                    assert(iseq.no_duplicates()) by {
                        assert forall|a: int, b: int|
                            0 <= a < iseq.len() && 0 <= b < iseq.len() && a != b implies iseq[a]
                            != iseq[b] by {
                            if a < b {
                                assert(widx@[a] != widx@[b]);
                            } else {
                                assert(widx@[b] != widx@[a]);
                            }
                        }
                    }
                    iseq.unique_seq_to_set();
                    vstd::seq_lib::seq_to_set_is_finite::<int>(iseq);
                    vstd::set_lib::lemma_int_range(0, ncands as int);
                    assert forall|q2: int| 0 <= q2 < ncands implies iseq.to_set().contains(
                        q2,
                    ) by {
                        assert(taken@[q2]);
                        let p = choose|p: int| 0 <= p < widx@.len() && widx@[p] == q2;
                        assert(iseq[p] == q2);
                        assert(iseq.contains(q2));
                    }
                    assert(vstd::set_lib::set_int_range(0, ncands as int).subset_of(
                        iseq.to_set(),
                    ));
                    vstd::set_lib::lemma_len_subset(
                        vstd::set_lib::set_int_range(0, ncands as int),
                        iseq.to_set(),
                    );
                    assert(false);
                }
            }
            let ghost prev_taken = taken@;
            let ghost prev_widx = widx@;
            taken[best] = true;
            winners.push(cand_stash[best]);
            widx.push(best);
            proof {
                assert forall|q2: int|
                    0 <= q2 < ncands && (#[trigger] taken@[q2]) implies exists|p: int|
                    0 <= p < widx@.len() && widx@[p] == q2 by {
                    if q2 == best as int {
                        assert(widx@[widx@.len() - 1] == q2);
                    } else {
                        assert(prev_taken[q2]);
                        let p = choose|p: int| 0 <= p < prev_widx.len() && prev_widx[p] == q2;
                        assert(widx@[p] == q2);
                    }
                }
            }
            s = s + 1;
        }
        proof {
            assert forall|a: int, b: int| 0 <= a < b < winners@.len() implies #[trigger] winners@[
                a] != #[trigger] winners@[b] by {
                let ia = widx@[a] as int;
                let ib = widx@[b] as int;
                if ia < ib {
                    assert(cand_stash@[ia] != cand_stash@[ib]);
                } else {
                    assert(cand_stash@[ib] != cand_stash@[ia]);
                }
            }
        }
        if winners.len() == 0 || winners.len() < self.cfg.minimum_validator_count {
            return Err(Error::ElectionFailed);
        }
        // Assemble each winner's exposure.
        let nwin = winners.len();
        let mut out: Vec<(u64, Exposure)> = Vec::new();
        let mut w: usize = 0;
        while w < nwin
            invariant
                wf_base(*self),
                nwin == winners@.len(),
                w <= nwin,
                out@.len() == w,
                forall|p: int| 0 <= p < winners@.len() ==> self.validators.m().contains_key(
                    #[trigger] winners@[p],
                ),
                forall|a: int, b: int| 0 <= a < b < winners@.len() ==> #[trigger] winners@[a]
                    != #[trigger] winners@[b],
                forall|p: int| 0 <= p < out@.len() ==> (#[trigger] out@[p]).0 == winners@[p],
                forall|p: int| 0 <= p < out@.len() ==> exposure_wf(
                    (#[trigger] out@[p]).1.own,
                    out@[p].1.total,
                    out@[p].1.others@,
                ),
            decreases nwin - w,
        {
            let stash = winners[w];
            let own = match self.active_of(stash) {
                Some(a) => a,
                None => 0,
            };
            let mut others: Vec<IndividualExposure> = Vec::new();
            let mut total: u64 = own;
            let mut j2: usize = 0;
            let nnom2 = self.nominators.len();
            while j2 < nnom2
                invariant
                    wf_base(*self),
                    nnom2 == self.nominators@.len(),
                    j2 <= nnom2,
                    total == own + backers_sum(others@),
                decreases nnom2 - j2,
            {
                let nom = self.nominators.at(j2).0;
                let nom_active = match self.active_of(nom) {
                    Some(a) => a,
                    None => 0,
                };
                let k = count_elected(&self.nominators.at(j2).1, &winners);
                let backs = crate::state::vec_contains(&self.nominators.at(j2).1, stash);
                if backs && k >= 1 && nom_active > 0 {
                    let share = nom_active / (k as u64);
                    if share > 0 && total <= u64::MAX - share {
                        let ghost before = others@;
                        others.push(IndividualExposure { who: nom, value: share });
                        proof {
                            assert(others@.drop_last() =~= before);
                        }
                        total = total + share;
                    }
                }
                j2 = j2 + 1;
            }
            out.push((stash, Exposure { own, total, others }));
            w = w + 1;
        }
        Ok(out)
    }
}

/// First position of a value, if any.
fn vec_position(v: &Vec<u64>, x: u64) -> (r: Option<usize>)
    ensures
        match r {
            Some(i) => i < v@.len() && v@[i as int] == x,
            None => !v@.contains(x),
        },
{
    let n = v.len();
    let mut i: usize = 0;
    while i < n
        invariant
            n == v@.len(),
            i <= n,
            forall|j: int| 0 <= j < i ==> v@[j] != x,
        decreases n - i,
    {
        if v[i] == x {
            return Some(i);
        }
        i = i + 1;
    }
    None
}

/// A vector of `n` `false` flags.
fn make_false_vec(n: usize) -> (r: Vec<bool>)
    ensures
        r@.len() == n,
        forall|i: int| 0 <= i < n ==> !(#[trigger] r@[i]),
{
    let mut v: Vec<bool> = Vec::new();
    let mut i: usize = 0;
    while i < n
        invariant
            i <= n,
            v@.len() == i,
            forall|j: int| 0 <= j < i ==> !(#[trigger] v@[j]),
        decreases n - i,
    {
        v.push(false);
        i = i + 1;
    }
    v
}

} // verus!
