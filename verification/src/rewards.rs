//! Reward points, the inflation-curve era payout, and per-page payout
//! claims that refuse to pay the same page twice.

use vstd::prelude::*;
use crate::exposure::spec_page_count;
use crate::exposure::page_count_for;
use crate::frac::FRAC_DEN;
use crate::frac::Frac;
use crate::frac::share_of;
use crate::frac::mul_div;
use crate::frac::lemma_share_monotone;
use crate::config::MILLIS_PER_YEAR;
use crate::state::Staking;
use crate::state::wf_base;
use crate::state::registry_wf;
use crate::state::sat_add;
use crate::types::Error;
use crate::types::Event;
use crate::types::RewardDestination;

verus! {

/// Yearly inflation handed out even with nothing at stake: 2.5%.
pub const MIN_INFLATION_PARTS: u32 = 25_000_000;

/// Yearly inflation at the ideal staking rate: 10%.
pub const MAX_INFLATION_PARTS: u32 = 100_000_000;

/// The ideal fraction of the issuance at stake: one half.
pub const IDEAL_STAKE_PARTS: u32 = 500_000_000;

/// Fraction of the issuance at stake, in parts per billion, clamped to one.
pub open spec fn spec_stake_ratio(staked: u64, issuance: u64) -> int {
    if issuance == 0 {
        0
    } else if staked * FRAC_DEN / (issuance as int) > FRAC_DEN {
        FRAC_DEN as int
    } else {
        staked * FRAC_DEN / (issuance as int)
    }
}

/// The era duration the curve is evaluated over: capped at one year.
pub open spec fn spec_capped_duration(duration_ms: u64) -> int {
    if duration_ms <= MILLIS_PER_YEAR {
        duration_ms as int
    } else {
        MILLIS_PER_YEAR as int
    }
}

/// The largest payout the era could carry: the maximum yearly inflation,
/// prorated by the era's duration.
pub open spec fn spec_era_max(issuance: u64, duration_ms: u64) -> int {
    share_of(
        share_of(issuance as int, MAX_INFLATION_PARTS as int, FRAC_DEN as int),
        spec_capped_duration(duration_ms),
        MILLIS_PER_YEAR as int,
    )
}

/// The floor of the payout: the minimum yearly inflation, prorated.
pub open spec fn spec_era_min(issuance: u64, duration_ms: u64) -> int {
    share_of(
        share_of(issuance as int, MIN_INFLATION_PARTS as int, FRAC_DEN as int),
        spec_capped_duration(duration_ms),
        MILLIS_PER_YEAR as int,
    )
}

/// The era payout of the inflation curve: it climbs linearly from the
/// minimum at zero stake to the maximum at the ideal staking rate, and
/// falls back to the minimum beyond the ideal. The step back to the floor
/// past the ideal is a deliberate simplification of a gradual falloff;
/// everything else relies only on the curve's interface — total stake,
/// issuance and duration in, payout and remainder out.
pub open spec fn spec_era_payout(staked: u64, issuance: u64, duration_ms: u64) -> int {
    let lo = spec_era_min(issuance, duration_ms);
    let hi = spec_era_max(issuance, duration_ms);
    let ratio = spec_stake_ratio(staked, issuance);
    if ratio <= IDEAL_STAKE_PARTS {
        lo + share_of(hi - lo, ratio, IDEAL_STAKE_PARTS as int)
    } else {
        lo
    }
}

/// Evaluate the inflation curve: the payout for the era and the remainder
/// up to the era's maximum.
pub fn era_payout_calc(staked: u64, issuance: u64, duration_ms: u64) -> (r: (u64, u64))
    ensures
        r.0 == spec_era_payout(staked, issuance, duration_ms),
        r.1 == spec_era_max(issuance, duration_ms) - spec_era_payout(
            staked,
            issuance,
            duration_ms,
        ),
        r.0 + r.1 == spec_era_max(issuance, duration_ms),
        r.0 + r.1 <= issuance,
{
    let dur = if duration_ms <= MILLIS_PER_YEAR {
        duration_ms
    } else {
        MILLIS_PER_YEAR
    };
    let max_annual = mul_div(issuance, MAX_INFLATION_PARTS as u64, FRAC_DEN as u64);
    let min_annual = mul_div(issuance, MIN_INFLATION_PARTS as u64, FRAC_DEN as u64);
    let hi = mul_div(max_annual, dur, MILLIS_PER_YEAR);
    let lo = mul_div(min_annual, dur, MILLIS_PER_YEAR);
    proof {
        lemma_share_monotone(issuance as int, MIN_INFLATION_PARTS as int, MAX_INFLATION_PARTS as int, FRAC_DEN as int);
        lemma_share_monotone_value(min_annual as int, max_annual as int, dur as int, MILLIS_PER_YEAR as int);
    }
    let ratio = stake_ratio(staked, issuance);
    let payout = if ratio <= IDEAL_STAKE_PARTS as u64 {
        lo + mul_div(hi - lo, ratio, IDEAL_STAKE_PARTS as u64)
    } else {
        lo
    };
    (payout, hi - payout)
}

/// Larger shares of larger wholes: `share_of` grows with its first argument.
pub proof fn lemma_share_monotone_value(v1: int, v2: int, p: int, d: int)
    requires
        0 <= v1 <= v2,
        0 <= p,
        0 < d,
    ensures
        share_of(v1, p, d) <= share_of(v2, p, d),
{
    vstd::arithmetic::mul::lemma_mul_inequality(v1, v2, p);
    vstd::arithmetic::div_mod::lemma_div_is_ordered(v1 * p, v2 * p, d);
}

/// Fraction of the issuance at stake, clamped to one.
fn stake_ratio(staked: u64, issuance: u64) -> (r: u64)
    ensures
        r == spec_stake_ratio(staked, issuance),
        r <= FRAC_DEN,
{
    if issuance == 0 {
        return 0;
    }
    proof {
        vstd::arithmetic::mul::lemma_mul_upper_bound(
            staked as int,
            u64::MAX as int,
            FRAC_DEN as int,
            FRAC_DEN as int,
        );
    }
    let wide = (staked as u128) * (FRAC_DEN as u128) / (issuance as u128);
    if wide > FRAC_DEN as u128 {
        FRAC_DEN as u64
    } else {
        wide as u64
    }
}

/// One reward-point grant folded into the per-era accumulators: points only
/// land on members of the validator set, and only while the totals fit.
pub open spec fn spec_grant_points(
    ind: Map<(u64, u64), u64>,
    tot: Map<u64, u64>,
    era: u64,
    validset: Seq<u64>,
    v: u64,
    p: u64,
) -> (Map<(u64, u64), u64>, Map<u64, u64>) {
    if validset.contains(v) {
        let oi: int = if ind.contains_key((era, v)) {
            ind[(era, v)] as int
        } else {
            0
        };
        let ot: int = if tot.contains_key(era) {
            tot[era] as int
        } else {
            0
        };
        if oi + p <= u64::MAX && ot + p <= u64::MAX {
            (ind.insert((era, v), (oi + p) as u64), tot.insert(era, (ot + p) as u64))
        } else {
            (ind, tot)
        }
    } else {
        (ind, tot)
    }
}

/// A batch of grants, applied in order.
pub open spec fn spec_grant_points_all(
    ind: Map<(u64, u64), u64>,
    tot: Map<u64, u64>,
    era: u64,
    validset: Seq<u64>,
    pairs: Seq<(u64, u64)>,
) -> (Map<(u64, u64), u64>, Map<u64, u64>)
    decreases pairs.len(),
{
    if pairs.len() == 0 {
        (ind, tot)
    } else {
        let prev = spec_grant_points_all(ind, tot, era, validset, pairs.drop_last());
        spec_grant_points(prev.0, prev.1, era, validset, pairs.last().0, pairs.last().1)
    }
}

/// The validator's share of the era's payout pool: points over total
/// points, zero when the era collected none.
pub open spec fn spec_validator_share(s: Staking, era: u64, stash: u64) -> int {
    let pool = s.eras_validator_reward.m()[era];
    let tot: int = if s.points_total.m().contains_key(era) {
        s.points_total.m()[era] as int
    } else {
        0
    };
    let mine0: int = if s.points_individual.m().contains_key((era, stash)) {
        s.points_individual.m()[(era, stash)] as int
    } else {
        0
    };
    let mine: int = if mine0 <= tot {
        mine0
    } else {
        tot
    };
    if tot == 0 {
        0
    } else {
        share_of(pool as int, mine, tot)
    }
}

/// The commission taken off the validator's share, per its current
/// preferences (absent candidates take none), clamped to one.
pub open spec fn spec_commission_cut(s: Staking, era: u64, stash: u64) -> int {
    let cp0: int = if s.validators.m().contains_key(stash) {
        s.validators.m()[stash].commission_parts as int
    } else {
        0
    };
    let cp: int = if cp0 <= FRAC_DEN {
        cp0
    } else {
        FRAC_DEN as int
    };
    share_of(spec_validator_share(s, era, stash), cp, FRAC_DEN as int)
}

/// What is left of the validator's share after commission, split by stake.
pub open spec fn spec_leftover(s: Staking, era: u64, stash: u64) -> int {
    spec_validator_share(s, era, stash) - spec_commission_cut(s, era, stash)
}

/// The validator's own-stake share of the leftover.
pub open spec fn spec_own_cut(s: Staking, era: u64, stash: u64) -> int {
    let e = s.eras_exposure.m()[(era, stash)];
    let ownc: int = if e.own <= e.total {
        e.own as int
    } else {
        e.total as int
    };
    if e.total == 0 {
        0
    } else {
        share_of(spec_leftover(s, era, stash), ownc, e.total as int)
    }
}

/// What the validator itself is paid for a page: its commission plus its
/// own-stake share, both only on page zero.
pub open spec fn spec_validator_amount(s: Staking, era: u64, stash: u64, page: int) -> int {
    if page == 0 {
        spec_commission_cut(s, era, stash) + spec_own_cut(s, era, stash)
    } else {
        0
    }
}

/// A backer's stake-proportional share of the leftover.
pub open spec fn spec_backer_cut(s: Staking, era: u64, stash: u64, value: u64) -> int {
    let e = s.eras_exposure.m()[(era, stash)];
    let vc: int = if value <= e.total {
        value as int
    } else {
        e.total as int
    };
    if e.total == 0 {
        0
    } else {
        share_of(spec_leftover(s, era, stash), vc, e.total as int)
    }
}

/// The recorded reward destination of a stash; `Stash` when none was set.
pub open spec fn spec_payee_of(s: Staking, stash: u64) -> RewardDestination {
    if s.payees.m().contains_key(stash) {
        s.payees.m()[stash]
    } else {
        RewardDestination::Stash
    }
}

/// The exact effect of crediting one reward: into free balance for `Stash`
/// and `Account`, onto the ledger for `Staked` when a sound ledger can
/// absorb it (free balance otherwise), nowhere for `Nothing`; a `Rewarded`
/// event announces every nonzero credit.
pub open spec fn spec_paid(
    pre: Staking,
    post: Staking,
    stash: u64,
    dest: RewardDestination,
    amount: u64,
) -> bool {
    &&& (dest == RewardDestination::Nothing ==> post == pre)
    &&& (amount == 0 ==> post == pre)
    &&& (amount > 0 && dest != RewardDestination::Nothing ==> post.events@ == pre.events@.push(
        Event::Rewarded { stash, amount },
    ))
    &&& (amount > 0 && dest == RewardDestination::Stash ==> {
        &&& post.balances.m() == pre.balances.m().insert(
            stash,
            crate::state::sat_add(
                if pre.balances.m().contains_key(stash) {
                    pre.balances.m()[stash]
                } else {
                    0
                },
                amount,
            ),
        )
        &&& post.total_issuance == crate::state::sat_add(pre.total_issuance, amount)
        &&& post.ledgers == pre.ledgers
    })
    &&& (amount > 0 ==> (dest matches RewardDestination::Account(a) ==> {
        &&& post.balances.m() == pre.balances.m().insert(
            a,
            crate::state::sat_add(
                if pre.balances.m().contains_key(a) {
                    pre.balances.m()[a]
                } else {
                    0
                },
                amount,
            ),
        )
        &&& post.ledgers == pre.ledgers
    }))
    &&& (amount > 0 && dest == RewardDestination::Staked ==> {
        let sound = crate::slash::spec_bonded_sound(pre, stash);
        let c = pre.bonded.m()[stash];
        let l = pre.ledgers.m()[c]@;
        if sound && l.total + amount <= u64::MAX {
            &&& post.ledgers.m().dom() == pre.ledgers.m().dom()
            &&& post.ledgers.m()[c]@ == (crate::types::LedgerShape {
                total: (l.total + amount) as u64,
                active: (l.active + amount) as u64,
                ..l
            })
            &&& forall|c2: u64|
                c2 != c && pre.ledgers.m().contains_key(c2) ==> #[trigger] post.ledgers.m()[c2]
                    == pre.ledgers.m()[c2]
            &&& post.balances == pre.balances
            &&& post.total_issuance == crate::state::sat_add(pre.total_issuance, amount)
        } else {
            &&& post.balances.m() == pre.balances.m().insert(
                stash,
                crate::state::sat_add(
                    if pre.balances.m().contains_key(stash) {
                        pre.balances.m()[stash]
                    } else {
                        0
                    },
                    amount,
                ),
            )
            &&& post.ledgers == pre.ledgers
        }
    })
    &&& post == (Staking {
        balances: post.balances,
        total_issuance: post.total_issuance,
        ledgers: post.ledgers,
        events: post.events,
        reward_sink: post.reward_sink,
        ..pre
    })
}

/// The claim-marking stage of a payout: the page recorded as claimed and
/// the payout announced; nothing else moves.
pub open spec fn spec_claim_marked(
    pre: Staking,
    post: Staking,
    stash: u64,
    era: u64,
    page: int,
) -> bool {
    &&& post.claimed_pages.m().contains_key((era, stash))
    &&& post.claimed_pages.m()[(era, stash)]@ == (if pre.claimed_pages.m().contains_key(
        (era, stash),
    ) {
        pre.claimed_pages.m()[(era, stash)]@.push(page as u64)
    } else {
        seq![page as u64]
    })
    &&& post.claimed_pages.m().dom() == pre.claimed_pages.m().dom().insert((era, stash))
    &&& (forall|k: (u64, u64)|
        k != (era, stash) && pre.claimed_pages.m().contains_key(k)
            ==> #[trigger] post.claimed_pages.m()[k] == pre.claimed_pages.m()[k])
    &&& post.events@ == pre.events@.push(
        Event::PayoutStarted { era_index: era, validator_stash: stash },
    )
    &&& post == (Staking { claimed_pages: post.claimed_pages, events: post.events, ..pre })
}

/// The state after paying each backer of the page in turn, each receiving
/// its stake-proportional cut at its recorded destination; the amounts are
/// read off `base`, the state the claim was checked against.
pub open spec fn spec_page_payments_along(
    trace: Seq<Staking>,
    base: Staking,
    stash: u64,
    era: u64,
    start: int,
    end: int,
) -> bool {
    &&& trace.len() == end - start + 1
    &&& forall|k: int| 0 <= k < end - start ==> spec_paid(
        #[trigger] trace[k],
        trace[k + 1],
        base.eras_exposure.m()[(era, stash)].others@[start + k].who,
        spec_payee_of(base, base.eras_exposure.m()[(era, stash)].others@[start + k].who),
        spec_backer_cut(
            base,
            era,
            stash,
            base.eras_exposure.m()[(era, stash)].others@[start + k].value,
        ) as u64,
    )
}

/// Every backer of the page paid in turn.
pub open spec fn spec_page_paid(
    pre: Staking,
    post: Staking,
    base: Staking,
    stash: u64,
    era: u64,
    start: int,
    end: int,
) -> bool {
    exists|trace: Seq<Staking>|
        #![trigger spec_page_payments_along(trace, base, stash, era, start, end)]
        {
            &&& spec_page_payments_along(trace, base, stash, era, start, end)
            &&& trace.first() == pre
            &&& trace.last() == post
        }
}

/// The slice of backers a page covers.
pub open spec fn spec_page_start(s: Staking, page: int) -> int {
    page * s.cfg.max_exposure_page_size as int
}

/// One past the last backer index of the page.
pub open spec fn spec_page_end(s: Staking, era: u64, stash: u64, page: int) -> int {
    let len = s.eras_exposure.m()[(era, stash)].others@.len() as int;
    let start = spec_page_start(s, page);
    if len - start > s.cfg.max_exposure_page_size as int {
        start + s.cfg.max_exposure_page_size as int
    } else {
        len
    }
}

/// Claims only grow: everything claimed before stays claimed after.
pub open spec fn claims_extend(pre: Staking, post: Staking) -> bool {
    forall|k: (u64, u64), x: u64|
        pre.claimed_pages.m().contains_key(k) && (#[trigger] pre.claimed_pages.m()[k]@.contains(
            x,
        )) ==> post.claimed_pages.m().contains_key(k) && post.claimed_pages.m()[k]@.contains(x)
}

/// One payout call only grows the claim record.
proof fn lemma_claims_extend_step(pre: Staking, post: Staking, stash: u64, era: u64, page: usize)
    requires
        spec_payout_check(pre, stash, era, page as int) is Ok ==> ({
            &&& post.claimed_pages.m().contains_key((era, stash))
            &&& post.claimed_pages.m()[(era, stash)]@ == (if pre.claimed_pages.m().contains_key(
                (era, stash),
            ) {
                pre.claimed_pages.m()[(era, stash)]@.push(page as u64)
            } else {
                seq![page as u64]
            })
            &&& forall|k: (u64, u64)|
                k != (era, stash) && pre.claimed_pages.m().contains_key(k)
                    ==> #[trigger] post.claimed_pages.m()[k] == pre.claimed_pages.m()[k]
            &&& post.claimed_pages.m().dom() == pre.claimed_pages.m().dom().insert((era, stash))
        }),
        !(spec_payout_check(pre, stash, era, page as int) is Ok) ==> post == pre,
    ensures
        claims_extend(pre, post),
{
    assert forall|k: (u64, u64), x: u64|
        pre.claimed_pages.m().contains_key(k) && (#[trigger] pre.claimed_pages.m()[k]@.contains(
            x,
        )) implies post.claimed_pages.m().contains_key(k) && post.claimed_pages.m()[k]@.contains(
        x,
    ) by {
        if spec_payout_check(pre, stash, era, page as int) is Ok && k == (era, stash) {
            let i = choose|i: int|
                0 <= i < pre.claimed_pages.m()[k]@.len() && pre.claimed_pages.m()[k]@[i] == x;
            assert(post.claimed_pages.m()[k]@[i] == x);
        }
    }
}

/// A page that cannot be claimed stays unclaimable while the era's pool,
/// window, registry link, exposure, and claim record survive.
proof fn lemma_check_err_stable(pre: Staking, post: Staking, stash: u64, era: u64, p: int)
    requires
        spec_payout_check(pre, stash, era, p) is Err,
        post.eras_validator_reward == pre.eras_validator_reward,
        post.cfg == pre.cfg,
        post.current_era == pre.current_era,
        post.bonded == pre.bonded,
        post.eras_exposure == pre.eras_exposure,
        claims_extend(pre, post),
    ensures
        spec_payout_check(post, stash, era, p) is Err,
{
}

/// The outcome of a payout claim, checked in order: the era must have a
/// settled pool inside the claimable window, the stash must be bonded and
/// must have an exposure that era, the page must exist, and the page must
/// not have been claimed before.
pub open spec fn spec_payout_check(s: Staking, stash: u64, era: u64, page: int) -> Result<
    (),
    Error,
> {
    if !s.eras_validator_reward.m().contains_key(era) || era + s.cfg.history_depth
        < s.current_era {
        Err(Error::InvalidEraToReward)
    } else if !s.bonded.m().contains_key(stash) {
        Err(Error::NotStash)
    } else if !s.eras_exposure.m().contains_key((era, stash)) {
        Err(Error::InvalidEraToReward)
    } else if page >= spec_page_count(
        s.eras_exposure.m()[(era, stash)].others@.len() as int,
        s.cfg.max_exposure_page_size as int,
    ) {
        Err(Error::PageNotFound)
    } else if s.claimed_pages.m().contains_key((era, stash)) && s.claimed_pages.m()[
        (era, stash)]@.contains(page as u64) {
        Err(Error::AlreadyClaimed)
    } else {
        Ok(())
    }
}

impl Staking {
    /// Add reward points to validators of the active era's elected set;
    /// pairs naming anyone else are ignored.
    pub fn reward_by_ids(&mut self, pairs: &Vec<(u64, u64)>)
        requires
            wf_base(*old(self)),
        ensures
            wf_base(*final(self)),
            registry_wf(*old(self)) ==> registry_wf(*final(self)),
            ({
                let out = spec_grant_points_all(
                    old(self).points_individual.m(),
                    old(self).points_total.m(),
                    old(self).active_era,
                    old(self).session_validators@,
                    pairs@,
                );
                final(self).points_individual.m() == out.0 && final(self).points_total.m()
                    == out.1
            }),
            *final(self) == (Staking {
                points_individual: final(self).points_individual,
                points_total: final(self).points_total,
                ..*old(self)
            }),
    {
        let era = self.active_era;
        let n = pairs.len();
        let mut i: usize = 0;
        while i < n
            invariant
                wf_base(*self),
                n == pairs@.len(),
                i <= n,
                self.cfg == old(self).cfg,
                self.active_era == old(self).active_era,
                self.session_validators@ == old(self).session_validators@,
                era == self.active_era,
                ({
                    let out = spec_grant_points_all(
                        old(self).points_individual.m(),
                        old(self).points_total.m(),
                        old(self).active_era,
                        old(self).session_validators@,
                        pairs@.take(i as int),
                    );
                    self.points_individual.m() == out.0 && self.points_total.m() == out.1
                }),
                *self == (Staking {
                    points_individual: self.points_individual,
                    points_total: self.points_total,
                    ..*old(self)
                }),
            decreases n - i,
        {
            proof {
                assert(pairs@.take(i as int + 1).drop_last() =~= pairs@.take(i as int));
                assert(pairs@.take(i as int + 1).last() == pairs@[i as int]);
            }
            let (v, p) = (pairs[i].0, pairs[i].1);
            if crate::state::vec_contains(&self.session_validators, v) {
                let oi = match self.points_individual.get((era, v)) {
                    Some(x) => *x,
                    None => 0,
                };
                let ot = match self.points_total.get(era) {
                    Some(x) => *x,
                    None => 0,
                };
                if p <= u64::MAX - oi && p <= u64::MAX - ot {
                    self.points_individual.insert((era, v), oi + p);
                    self.points_total.insert(era, ot + p);
                }
            }
            i = i + 1;
        }
        proof {
            assert(pairs@.take(n as int) =~= pairs@);
        }
    }

    /// Grant one point to every validator of the set in force.
    pub fn reward_all_elected(&mut self)
        requires
            wf_base(*old(self)),
        ensures
            wf_base(*final(self)),
            registry_wf(*old(self)) ==> registry_wf(*final(self)),
            ({
                let out = spec_grant_points_all(
                    old(self).points_individual.m(),
                    old(self).points_total.m(),
                    old(self).active_era,
                    old(self).session_validators@,
                    old(self).session_validators@.map_values(|v: u64| (v, 1u64)),
                );
                final(self).points_individual.m() == out.0 && final(self).points_total.m()
                    == out.1
            }),
            *final(self) == (Staking {
                points_individual: final(self).points_individual,
                points_total: final(self).points_total,
                ..*old(self)
            }),
    {
        let n = self.session_validators.len();
        let mut pairs: Vec<(u64, u64)> = Vec::new();
        let mut i: usize = 0;
        while i < n
            invariant
                wf_base(*self),
                n == self.session_validators@.len(),
                i <= n,
                pairs@ == self.session_validators@.take(i as int).map_values(|v: u64| (v, 1u64)),
            decreases n - i,
        {
            pairs.push((self.session_validators[i], 1));
            proof {
                assert(pairs@ =~= self.session_validators@.take(i as int + 1).map_values(
                    |v: u64| (v, 1u64),
                ));
            }
            i = i + 1;
        }
        proof {
            assert(self.session_validators@.take(n as int) =~= self.session_validators@);
        }
        self.reward_by_ids(&pairs);
    }

    /// Pages of a validator's exposure for an era; zero when it has none.
    pub fn get_page_count(&self, era: u64, stash: u64) -> (r: usize)
        requires
            wf_base(*self),
        ensures
            r == (if self.eras_exposure.m().contains_key((era, stash)) {
                spec_page_count(
                    self.eras_exposure.m()[(era, stash)].others@.len() as int,
                    self.cfg.max_exposure_page_size as int,
                )
            } else {
                0int
            }),
    {
        match self.eras_exposure.get((era, stash)) {
            Some(e) => page_count_for(e.others.len(), self.cfg.max_exposure_page_size),
            None => 0,
        }
    }

    /// Credit a reward according to its destination: into free balance for
    /// `Stash` and `Account`, onto the bonded stake for `Staked` (falling
    /// back to free balance when no sound ledger can absorb it), nowhere for
    /// `Nothing`. Announces `Rewarded` for every nonzero credit.
    fn pay_out(&mut self, stash: u64, dest: RewardDestination, amount: u64)
        requires
            wf_base(*old(self)),
        ensures
            wf_base(*final(self)),
            registry_wf(*old(self)) ==> registry_wf(*final(self)),
            spec_paid(*old(self), *final(self), stash, dest, amount),
            *final(self) == (Staking {
                balances: final(self).balances,
                total_issuance: final(self).total_issuance,
                ledgers: final(self).ledgers,
                events: final(self).events,
                reward_sink: final(self).reward_sink,
                ..*old(self)
            }),
    {
        if amount == 0 {
            return ;
        }
        match dest {
            RewardDestination::Nothing => {},
            RewardDestination::Stash => {
                self.mint_into(stash, amount);
                self.deposit_event(Event::Rewarded { stash, amount });
                self.reward_sink.called = true;
            },
            RewardDestination::Account(a) => {
                self.mint_into(a, amount);
                self.deposit_event(Event::Rewarded { stash, amount });
                self.reward_sink.called = true;
            },
            RewardDestination::Staked => {
                let c = match self.bonded.get(stash) {
                    Some(c) => Some(*c),
                    None => None,
                };
                let mut staked = false;
                if let Some(c) = c {
                    let fits = match self.ledgers.get(c) {
                        Some(l) => crate::registry::ledger_sane(l) && amount <= u64::MAX
                            - l.total,
                        None => false,
                    };
                    if fits {
                        let mut ledger = match self.ledgers.take(c) {
                            Some(l) => l,
                            None => {
                                proof {
                                    assert(false);
                                }
                                return ;
                            },
                        };
                        ledger.add_stake(amount);
                        self.ledgers.insert(c, ledger);
                        self.total_issuance = self.total_issuance.saturating_add(amount);
                        staked = true;
                        proof {
                            assert(self.ledgers.m() =~= old(self).ledgers.m().insert(
                                c,
                                self.ledgers.m()[c],
                            ));
                            assert(self.ledgers.m().dom() =~= old(self).ledgers.m().dom());
                            if registry_wf(*old(self)) {
                                crate::registry::lemma_registry_update_same_stash(
                                    *old(self),
                                    *self,
                                    c,
                                );
                            }
                        }
                    }
                }
                if !staked {
                    self.mint_into(stash, amount);
                }
                self.deposit_event(Event::Rewarded { stash, amount });
                self.reward_sink.called = true;
            },
        }
    }

    /// Pay one page of a validator's era reward. Exactly when every check
    /// passes, the page is marked claimed and the page's portion credited;
    /// re-invoking for the same (era, stash, page) fails with
    /// `AlreadyClaimed` and changes nothing.
    #[verifier::rlimit(60)]
    pub fn payout_stakers_by_page(&mut self, stash: u64, era: u64, page: usize) -> (r: Result<
        (),
        Error,
    >)
        requires
            wf_base(*old(self)),
        ensures
            wf_base(*final(self)),
            registry_wf(*old(self)) ==> registry_wf(*final(self)),
            r == spec_payout_check(*old(self), stash, era, page as int),
            match r {
                Ok(()) => {
                    &&& final(self).claimed_pages.m().contains_key((era, stash))
                    &&& final(self).claimed_pages.m()[(era, stash)]@ == (if old(
                        self,
                    ).claimed_pages.m().contains_key((era, stash)) {
                        old(self).claimed_pages.m()[(era, stash)]@.push(page as u64)
                    } else {
                        seq![page as u64]
                    })
                    &&& forall|k: (u64, u64)|
                        k != (era, stash) && old(self).claimed_pages.m().contains_key(k)
                            ==> #[trigger] final(self).claimed_pages.m()[k] == old(
                            self,
                        ).claimed_pages.m()[k]
                    &&& final(self).claimed_pages.m().dom() == old(
                        self,
                    ).claimed_pages.m().dom().insert((era, stash))
                    &&& final(self).events@.len() > old(self).events@.len()
                    &&& final(self).events@[old(self).events@.len() as int]
                        == Event::PayoutStarted { era_index: era, validator_stash: stash }
                    &&& *final(self) == (Staking {
                        balances: final(self).balances,
                        total_issuance: final(self).total_issuance,
                        ledgers: final(self).ledgers,
                        events: final(self).events,
                        claimed_pages: final(self).claimed_pages,
                        reward_sink: final(self).reward_sink,
                        ..*old(self)
                    })
                    &&& exists|mid1: Staking, mid2: Staking|
                        #![trigger spec_claim_marked(*old(self), mid1, stash, era, page as int), spec_paid(mid1, mid2, stash, spec_payee_of(*old(self), stash), spec_validator_amount(*old(self), era, stash, page as int) as u64)]
                        {
                            &&& spec_claim_marked(*old(self), mid1, stash, era, page as int)
                            &&& spec_paid(
                                mid1,
                                mid2,
                                stash,
                                spec_payee_of(*old(self), stash),
                                spec_validator_amount(*old(self), era, stash, page as int) as u64,
                            )
                            &&& spec_page_paid(
                                mid2,
                                *final(self),
                                *old(self),
                                stash,
                                era,
                                spec_page_start(*old(self), page as int),
                                spec_page_end(*old(self), era, stash, page as int),
                            )
                        }
                },
                Err(_) => *final(self) == *old(self),
            },
    {
        // The claimable window and the era's settled payout pool.
        let pool = match self.eras_validator_reward.get(era) {
            Some(p) => *p,
            None => {
                return Err(Error::InvalidEraToReward);
            },
        };
        if (era as u128) + (self.cfg.history_depth as u128) < (self.current_era as u128) {
            return Err(Error::InvalidEraToReward);
        }
        if !self.bonded.contains_key(stash) {
            return Err(Error::NotStash);
        }
        let (exp_own, exp_total, exp_len) = match self.eras_exposure.get((era, stash)) {
            Some(e) => (e.own, e.total, e.others.len()),
            None => {
                return Err(Error::InvalidEraToReward);
            },
        };
        let page_count = page_count_for(exp_len, self.cfg.max_exposure_page_size);
        if page >= page_count {
            return Err(Error::PageNotFound);
        }
        let already = match self.claimed_pages.get((era, stash)) {
            Some(list) => crate::state::vec_contains(list, page as u64),
            None => false,
        };
        if already {
            return Err(Error::AlreadyClaimed);
        }
        // Mark the page claimed before paying: a replay must fail.
        let mut list = match self.claimed_pages.take((era, stash)) {
            Some(l) => l,
            None => Vec::new(),
        };
        list.push(page as u64);
        self.claimed_pages.insert((era, stash), list);
        let ghost claimed_after = self.claimed_pages;
        self.deposit_event(Event::PayoutStarted { era_index: era, validator_stash: stash });
        proof {
            assert(self.claimed_pages.m().dom() =~= old(self).claimed_pages.m().dom().insert(
                (era, stash),
            ));
        }
        let ghost mid1 = *self;
        proof {
            assert(spec_claim_marked(*old(self), mid1, stash, era, page as int));
        }
        // The validator's share of the pool by reward points.
        let tot_pts = match self.points_total.get(era) {
            Some(x) => *x,
            None => 0,
        };
        let my_pts_raw = match self.points_individual.get((era, stash)) {
            Some(x) => *x,
            None => 0,
        };
        let my_pts = if my_pts_raw <= tot_pts {
            my_pts_raw
        } else {
            tot_pts
        };
        let v_share = if tot_pts == 0 {
            0
        } else {
            mul_div(pool, my_pts, tot_pts)
        };
        // Commission first, the rest split by exposure.
        let commission_parts = match self.validators.get(stash) {
            Some(p) => p.commission_parts,
            None => 0,
        };
        let commission = Frac::from_parts(commission_parts).mul_floor(v_share);
        let leftover = v_share - commission;
        let own_capped = if exp_own <= exp_total {
            exp_own
        } else {
            exp_total
        };
        let own_cut = if exp_total == 0 {
            0
        } else {
            mul_div(leftover, own_capped, exp_total)
        };
        let validator_amount = if page == 0 {
            commission + own_cut
        } else {
            0
        };
        let v_dest = match self.payees.get(stash) {
            Some(d) => *d,
            None => RewardDestination::Stash,
        };
        proof {
            assert(v_share as int == spec_validator_share(*old(self), era, stash));
            assert(commission as int == spec_commission_cut(*old(self), era, stash));
            assert(leftover as int == spec_leftover(*old(self), era, stash));
            assert(own_cut as int == spec_own_cut(*old(self), era, stash));
            assert(validator_amount as int == spec_validator_amount(
                *old(self),
                era,
                stash,
                page as int,
            ));
            assert(v_dest == spec_payee_of(*old(self), stash));
        }
        self.pay_out(stash, v_dest, validator_amount);
        let ghost mid2 = *self;
        proof {
            assert(spec_paid(
                mid1,
                mid2,
                stash,
                spec_payee_of(*old(self), stash),
                spec_validator_amount(*old(self), era, stash, page as int) as u64,
            ));
        }
        // The page's backers.
        let ps = self.cfg.max_exposure_page_size;
        proof {
            if exp_len > 0 {
                let q = (exp_len - 1) as int / ps as int;
                vstd::arithmetic::div_mod::lemma_fundamental_div_mod(
                    exp_len as int - 1,
                    ps as int,
                );
                vstd::arithmetic::div_mod::lemma_remainder_lower(exp_len as int - 1, ps as int);
                vstd::arithmetic::mul::lemma_mul_inequality(page as int, q, ps as int);
                vstd::arithmetic::mul::lemma_mul_is_commutative(q, ps as int);
                vstd::arithmetic::mul::lemma_mul_is_commutative(page as int, ps as int);
            }
        }
        let start: usize = page * ps;
        let end: usize = if exp_len - start > ps {
            start + ps
        } else {
            exp_len
        };
        let ghost mut trace: Seq<Staking> = seq![mid2];
        proof {
            assert(start as int == spec_page_start(*old(self), page as int));
            assert(end as int == spec_page_end(*old(self), era, stash, page as int));
            assert(spec_page_payments_along(
                trace,
                *old(self),
                stash,
                era,
                start as int,
                start as int,
            ));
        }
        let mut k: usize = start;
        while k < end
            invariant
                wf_base(*self),
                end <= exp_len,
                k <= end,
                self.eras_exposure == old(self).eras_exposure,
                self.eras_exposure.m().contains_key((era, stash)),
                exp_len == self.eras_exposure.m()[(era, stash)].others@.len(),
                exp_total == self.eras_exposure.m()[(era, stash)].total,
                self.cfg == old(self).cfg,
                self.payees == old(self).payees,
                registry_wf(*old(self)) ==> registry_wf(*self),
                old(self).events@.len() < self.events@.len(),
                self.events@[old(self).events@.len() as int] == (Event::PayoutStarted {
                    era_index: era,
                    validator_stash: stash,
                }),
                self.claimed_pages == claimed_after,
                start <= k,
                leftover as int == spec_leftover(*old(self), era, stash),
                trace.len() == k - start + 1,
                trace.first() == mid2,
                trace.last() == *self,
                spec_page_payments_along(
                    trace,
                    *old(self),
                    stash,
                    era,
                    start as int,
                    k as int,
                ),
                *self == (Staking {
                    balances: self.balances,
                    total_issuance: self.total_issuance,
                    ledgers: self.ledgers,
                    events: self.events,
                    claimed_pages: self.claimed_pages,
                    reward_sink: self.reward_sink,
                    ..*old(self)
                }),
            decreases end - k,
        {
            let (who, value) = {
                let e = match self.eras_exposure.get((era, stash)) {
                    Some(e) => e,
                    None => {
                        proof {
                            assert(false);
                        }
                        return Err(Error::InvalidEraToReward);
                    },
                };
                (e.others[k].who, e.others[k].value)
            };
            let value_capped = if value <= exp_total {
                value
            } else {
                exp_total
            };
            let cut = if exp_total == 0 {
                0
            } else {
                mul_div(leftover, value_capped, exp_total)
            };
            let dest = match self.payees.get(who) {
                Some(d) => *d,
                None => RewardDestination::Stash,
            };
            let ghost prev = *self;
            let ghost prev_trace = trace;
            self.pay_out(who, dest, cut);
            proof {
                trace = trace.push(*self);
                assert(cut as int == spec_backer_cut(*old(self), era, stash, value));
                assert(dest == spec_payee_of(*old(self), who));
                assert(spec_paid(
                    prev,
                    *self,
                    old(self).eras_exposure.m()[(era, stash)].others@[k as int].who,
                    spec_payee_of(
                        *old(self),
                        old(self).eras_exposure.m()[(era, stash)].others@[k as int].who,
                    ),
                    spec_backer_cut(
                        *old(self),
                        era,
                        stash,
                        old(self).eras_exposure.m()[(era, stash)].others@[k as int].value,
                    ) as u64,
                ));
                assert forall|q: int| 0 <= q < k - start + 1 implies spec_paid(
                    #[trigger] trace[q],
                    trace[q + 1],
                    old(self).eras_exposure.m()[(era, stash)].others@[start + q].who,
                    spec_payee_of(
                        *old(self),
                        old(self).eras_exposure.m()[(era, stash)].others@[start + q].who,
                    ),
                    spec_backer_cut(
                        *old(self),
                        era,
                        stash,
                        old(self).eras_exposure.m()[(era, stash)].others@[start + q].value,
                    ) as u64,
                ) by {
                    if q < k - start {
                        assert(trace[q] == prev_trace[q]);
                        assert(trace[q + 1] == prev_trace[q + 1]);
                    } else {
                        assert(trace[q] == prev);
                        assert(trace[q + 1] == *self);
                        assert(start + q == k as int);
                    }
                }
                assert(spec_page_payments_along(
                    trace,
                    *old(self),
                    stash,
                    era,
                    start as int,
                    k as int + 1,
                ));
            }
            k = k + 1;
        }
        proof {
            assert(spec_page_paid(
                mid2,
                *final(self),
                *old(self),
                stash,
                era,
                spec_page_start(*old(self), page as int),
                spec_page_end(*old(self), era, stash, page as int),
            ));
        }
        Ok(())
    }

    /// Claim every page of every validator that collected points in `era`.
    /// Afterwards no page of any such validator can be claimed again: each
    /// was either paid here (or earlier) or is unclaimable for that era.
    pub fn make_all_reward_payment(&mut self, era: u64)
        requires
            wf_base(*old(self)),
        ensures
            wf_base(*final(self)),
            registry_wf(*old(self)) ==> registry_wf(*final(self)),
            forall|stash: u64, p: int|
                old(self).points_individual.m().contains_key((era, stash)) && 0 <= p
                    ==> (#[trigger] spec_payout_check(*final(self), stash, era, p)) is Err,
            *final(self) == (Staking {
                balances: final(self).balances,
                total_issuance: final(self).total_issuance,
                ledgers: final(self).ledgers,
                events: final(self).events,
                claimed_pages: final(self).claimed_pages,
                reward_sink: final(self).reward_sink,
                ..*old(self)
            }),
    {
        let n = self.points_individual.len();
        let mut stashes: Vec<u64> = Vec::new();
        let mut i: usize = 0;
        proof {
            self.points_individual.lemma_entries_cover();
        }
        while i < n
            invariant
                wf_base(*self),
                *self == *old(self),
                n == self.points_individual@.len(),
                i <= n,
                forall|j2: int|
                    0 <= j2 < i && (#[trigger] self.points_individual@[j2]).0.0 == era
                        ==> stashes@.contains(self.points_individual@[j2].0.1),
            decreases n - i,
        {
            let entry = self.points_individual.at(i);
            let ghost prev_stashes = stashes@;
            if entry.0.0 == era {
                stashes.push(entry.0.1);
            }
            proof {
                assert forall|j2: int|
                    0 <= j2 < i + 1 && (#[trigger] self.points_individual@[j2]).0.0 == era
                        implies stashes@.contains(self.points_individual@[j2].0.1) by {
                    if j2 < i {
                        let ix = choose|ix: int|
                            0 <= ix < prev_stashes.len() && prev_stashes[ix]
                                == self.points_individual@[j2].0.1;
                        assert(stashes@[ix] == self.points_individual@[j2].0.1);
                    } else {
                        assert(stashes@.last() == self.points_individual@[i as int].0.1);
                    }
                }
            }
            i = i + 1;
        }
        proof {
            assert forall|stash: u64|
                old(self).points_individual.m().contains_key((era, stash)) implies
                stashes@.contains(stash) by {
                let j2 = choose|j2: int|
                    0 <= j2 < old(self).points_individual@.len()
                        && (#[trigger] old(self).points_individual@[j2]) == (
                    (era, stash),
                    old(self).points_individual.m()[(era, stash)],
                    );
                assert(self.points_individual@[j2].0.0 == era);
            }
        }
        let m = stashes.len();
        let mut j: usize = 0;
        while j < m
            invariant
                wf_base(*self),
                registry_wf(*old(self)) ==> registry_wf(*self),
                m == stashes@.len(),
                j <= m,
                self.cfg == old(self).cfg,
                self.current_era == old(self).current_era,
                self.bonded == old(self).bonded,
                self.eras_exposure == old(self).eras_exposure,
                self.eras_validator_reward == old(self).eras_validator_reward,
                claims_extend(*old(self), *self),
                forall|si: int, p: int| 0 <= si < j && 0 <= p
                    ==> (#[trigger] spec_payout_check(*self, stashes@[si], era, p)) is Err,
                *self == (Staking {
                    balances: self.balances,
                    total_issuance: self.total_issuance,
                    ledgers: self.ledgers,
                    events: self.events,
                    claimed_pages: self.claimed_pages,
                    reward_sink: self.reward_sink,
                    ..*old(self)
                }),
            decreases m - j,
        {
            let stash = stashes[j];
            let pc = self.get_page_count(era, stash);
            let mut page: usize = 0;
            while page < pc
                invariant
                    wf_base(*self),
                    registry_wf(*old(self)) ==> registry_wf(*self),
                    j < m,
                    m == stashes@.len(),
                    stash == stashes@[j as int],
                    page <= pc,
                    self.cfg == old(self).cfg,
                    self.current_era == old(self).current_era,
                    self.bonded == old(self).bonded,
                    self.eras_exposure == old(self).eras_exposure,
                    self.eras_validator_reward == old(self).eras_validator_reward,
                    claims_extend(*old(self), *self),
                    pc as int == (if self.eras_exposure.m().contains_key((era, stash)) {
                        spec_page_count(
                            self.eras_exposure.m()[(era, stash)].others@.len() as int,
                            self.cfg.max_exposure_page_size as int,
                        )
                    } else {
                        0int
                    }),
                    forall|si: int, p: int| 0 <= si < j && 0 <= p
                        ==> (#[trigger] spec_payout_check(*self, stashes@[si], era, p)) is Err,
                    forall|p: int| 0 <= p < page
                        ==> (#[trigger] spec_payout_check(*self, stash, era, p)) is Err,
                    *self == (Staking {
                        balances: self.balances,
                        total_issuance: self.total_issuance,
                        ledgers: self.ledgers,
                        events: self.events,
                        claimed_pages: self.claimed_pages,
                        reward_sink: self.reward_sink,
                        ..*old(self)
                    }),
                decreases pc - page,
            {
                let ghost prev = *self;
                let r = self.payout_stakers_by_page(stash, era, page);
                proof {
                    lemma_claims_extend_step(prev, *self, stash, era, page);
                    assert(claims_extend(*old(self), *self));
                    assert forall|si: int, p: int| 0 <= si < j && 0 <= p implies (
                    #[trigger] spec_payout_check(*self, stashes@[si], era, p)) is Err by {
                        lemma_check_err_stable(prev, *self, stashes@[si], era, p);
                    }
                    assert forall|p: int| 0 <= p < page + 1 implies (#[trigger] spec_payout_check(
                        *self,
                        stash,
                        era,
                        p,
                    )) is Err by {
                        if p < page {
                            lemma_check_err_stable(prev, *self, stash, era, p);
                        } else {
                            if r is Ok {
                                assert(self.claimed_pages.m()[(era, stash)]@.last()
                                    == page as u64);
                                assert(self.claimed_pages.m()[(era, stash)]@.contains(
                                    page as u64,
                                ));
                            } else {
                                lemma_check_err_stable(prev, *self, stash, era, p);
                            }
                        }
                    }
                }
                page = page + 1;
            }
            proof {
                assert forall|p: int| 0 <= p implies (#[trigger] spec_payout_check(
                    *self,
                    stash,
                    era,
                    p,
                )) is Err by {
                    if p >= pc {
                        if spec_payout_check(*self, stash, era, p) is Ok {
                            assert(self.eras_exposure.m().contains_key((era, stash)));
                            assert(p < spec_page_count(
                                self.eras_exposure.m()[(era, stash)].others@.len() as int,
                                self.cfg.max_exposure_page_size as int,
                            ));
                        }
                    }
                }
            }
            j = j + 1;
        }
        proof {
            assert forall|stash: u64, p: int|
                old(self).points_individual.m().contains_key((era, stash)) && 0 <= p implies (
            #[trigger] spec_payout_check(*final(self), stash, era, p)) is Err by {
                let si = choose|si: int|
                    0 <= si < stashes@.len() && stashes@[si] == stash;
                assert(spec_payout_check(*final(self), stashes@[si], era, p) is Err);
            }
        }
    }

    /// The payout the curve grants for the active era's stake over
    /// `duration_ms`, from the engine's own total stake and issuance.
    pub fn current_total_payout_for_duration(&self, duration_ms: u64) -> (r: u64)
        requires
            wf_base(*self),
        ensures
            r == spec_era_payout(
                if self.eras_total_stake.m().contains_key(self.active_era) {
                    self.eras_total_stake.m()[self.active_era]
                } else {
                    0
                },
                self.total_issuance,
                duration_ms,
            ),
    {
        let staked = match self.eras_total_stake.get(self.active_era) {
            Some(s) => *s,
            None => 0,
        };
        let (payout, _rest) = era_payout_calc(staked, self.total_issuance, duration_ms);
        payout
    }

    /// The payout plus its remainder: the era's maximum.
    pub fn maximum_payout_for_duration(&self, duration_ms: u64) -> (r: u64)
        requires
            wf_base(*self),
        ensures
            r == spec_era_max(self.total_issuance, duration_ms),
    {
        let staked = match self.eras_total_stake.get(self.active_era) {
            Some(s) => *s,
            None => 0,
        };
        let (payout, rest) = era_payout_calc(staked, self.total_issuance, duration_ms);
        payout + rest
    }
}

} // verus!
