//! The engine's cross-cutting laws, each proved once and for all over the
//! same specifications the operations' contracts use. The per-operation
//! invariants — every ledger's `total == active + unlocking` and the mutual
//! consistency of the `Bonded` and `Ledger` maps — are stated directly in
//! the operations' `ensures` through `ledgers_wf` and `registry_consistent`,
//! and certified at runtime by `do_try_state`.

use vstd::prelude::*;
use crate::clock::clock_wf;
use crate::frac::FRAC_DEN;
use crate::frac::share_of;
use crate::frac::lemma_share_le;
use crate::rewards::spec_claim_marked;
use crate::rewards::spec_backer_cut;
use crate::rewards::spec_page_paid;
use crate::rewards::spec_page_payments_along;
use crate::rewards::spec_page_start;
use crate::rewards::spec_page_end;
use crate::rewards::spec_paid;
use crate::rewards::spec_payee_of;
use crate::rewards::spec_payout_check;
use crate::rewards::spec_validator_amount;
use crate::types::RewardDestination;
use crate::slash::spec_backers_slashed_along;
use crate::slash::spec_bonded_sound;
use crate::slash::spec_offence_recorded;
use crate::slash::spec_prior_fraction;
use crate::slash::spec_slash_applied;
use crate::slash::spec_slash_increment;
use crate::slash::spec_slash_one_rel;
use crate::state::sat_add;
use crate::state::Staking;
use crate::types::Error;
use crate::types::UnlockChunk;
use crate::types::chunk_sum;
use crate::types::kept_chunks;
use crate::types::spec_unbond_chunks;

verus! {

/// Round trip: bonding an amount, unbonding all of it at once, and
/// withdrawing once the chunk's era is reached returns the ledger to empty.
/// A fresh bond has no chunks, so the unbond puts the whole amount into one
/// chunk and leaves nothing active; a withdrawal at or past the unlock era
/// drops that chunk and releases exactly the bonded amount, so the
/// remaining total is zero — the condition under which `withdraw_unbonded`
/// purges the ledger with its `Bonded` and `Payee` entries.
pub proof fn lemma_bond_unbond_withdraw_round_trip(
    amount: u64,
    unlock_era: u64,
    withdraw_era: u64,
)
    requires
        withdraw_era >= unlock_era,
    ensures
        spec_unbond_chunks(Seq::<UnlockChunk>::empty(), amount, unlock_era) == seq![
            UnlockChunk { value: amount, era: unlock_era },
        ],
        kept_chunks(
            spec_unbond_chunks(Seq::<UnlockChunk>::empty(), amount, unlock_era),
            withdraw_era,
        ) == Seq::<UnlockChunk>::empty(),
        chunk_sum(spec_unbond_chunks(Seq::<UnlockChunk>::empty(), amount, unlock_era))
            == amount,
{
    let c = UnlockChunk { value: amount, era: unlock_era };
    let chunks = spec_unbond_chunks(Seq::<UnlockChunk>::empty(), amount, unlock_era);
    assert(chunks == Seq::<UnlockChunk>::empty().push(c));
    assert(chunks =~= seq![c]);
    assert(chunks.len() == 1 && chunks.last() == c);
    assert(chunks.drop_last() =~= Seq::<UnlockChunk>::empty());
    assert(chunks.drop_last() == Seq::<UnlockChunk>::empty());
    assert(chunk_sum(Seq::<UnlockChunk>::empty()) == 0);
    assert(chunk_sum(chunks) == amount);
    assert(kept_chunks(Seq::<UnlockChunk>::empty(), withdraw_era)
        == Seq::<UnlockChunk>::empty());
    assert(kept_chunks(chunks, withdraw_era) =~= Seq::<UnlockChunk>::empty());
}

/// Idempotence of payout claims: after one successful claim of a page, an
/// identical claim on the resulting state fails with `AlreadyClaimed`. The
/// hypotheses are exactly what `payout_stakers_by_page` ensures of its `Ok`
/// case: the page landed in the claim record and nothing a later check
/// consults was touched.
pub proof fn lemma_payout_idempotent(
    pre: Staking,
    post: Staking,
    stash: u64,
    era: u64,
    page: usize,
)
    requires
        spec_payout_check(pre, stash, era, page as int) is Ok,
        post.claimed_pages.m().contains_key((era, stash)),
        post.claimed_pages.m()[(era, stash)]@ == (if pre.claimed_pages.m().contains_key(
            (era, stash),
        ) {
            pre.claimed_pages.m()[(era, stash)]@.push(page as u64)
        } else {
            seq![page as u64]
        }),
        post.eras_validator_reward == pre.eras_validator_reward,
        post.cfg == pre.cfg,
        post.current_era == pre.current_era,
        post.bonded == pre.bonded,
        post.eras_exposure == pre.eras_exposure,
    ensures
        spec_payout_check(post, stash, era, page as int) == Err::<(), Error>(
            Error::AlreadyClaimed,
        ),
{
    let list = post.claimed_pages.m()[(era, stash)]@;
    if pre.claimed_pages.m().contains_key((era, stash)) {
        assert(list.last() == page as u64);
        assert(list.contains(page as u64));
    } else {
        assert(list[0] == page as u64);
        assert(list.contains(page as u64));
    }
}

/// Slashing monotonicity: reporting fractions `f1` and then `f2 >= f1`
/// against the same stash in the same era slashes exactly the `f2` share of
/// the exposed stake in total — the overlapping report adds only the
/// difference, never the sum — and never more than the stake itself.
pub proof fn lemma_slash_monotone(v: u64, f1: int, f2: int)
    requires
        0 <= f1 <= f2 <= FRAC_DEN,
    ensures
        spec_slash_increment(v, f1, 0) + spec_slash_increment(v, f2, f1) == share_of(
            v as int,
            f2,
            FRAC_DEN as int,
        ),
        spec_slash_increment(v, f1, 0) + spec_slash_increment(v, f2, f1) <= v,
{
    assert(share_of(v as int, 0, FRAC_DEN as int) == 0) by {
        assert(v as int * 0 == 0) by (nonlinear_arith);
    }
    lemma_share_le(v as int, f2, FRAC_DEN as int);
}

/// What one immediate offence report does to an offender with no backers:
/// the offender's ledger loses exactly the increment from the era's prior
/// fraction to the new one, capped at the active stake, and the listener
/// records the amount against the slash era. Extracted from
/// `spec_slash_one_rel`, the contract of every offence entry point.
pub proof fn lemma_offence_applied_no_backers(
    pre: Staking,
    post: Staking,
    offender: u64,
    fraction_parts: u32,
    slash_era: u64,
)
    requires
        spec_slash_one_rel(pre, post, offender, fraction_parts, slash_era),
        fraction_parts <= FRAC_DEN,
        pre.cfg.slash_defer_duration == 0,
        !pre.invulnerables@.contains(offender),
        pre.eras_exposure.m().contains_key((slash_era, offender)),
        fraction_parts > spec_prior_fraction(pre, slash_era, offender),
        pre.eras_exposure.m()[(slash_era, offender)].others@.len() == 0,
        spec_bonded_sound(pre, offender),
    ensures
        ({
            let prior = spec_prior_fraction(pre, slash_era, offender);
            let own = pre.eras_exposure.m()[(slash_era, offender)].own;
            let incr = spec_slash_increment(own, fraction_parts as int, prior);
            let c = pre.bonded.m()[offender];
            let l = pre.ledgers.m()[c]@;
            let took: int = if incr <= l.active {
                incr
            } else {
                l.active as int
            };
            &&& post.ledgers.m().contains_key(c)
            &&& post.ledgers.m()[c]@.active == l.active - took
            &&& post.ledgers.m()[c]@.total == l.total - took
            &&& post.ledgers.m()[c]@.stash == l.stash
            &&& post.ledgers.m()[c]@.unlocking == l.unlocking
            &&& post.slashed_fraction.m() == pre.slashed_fraction.m().insert(
                (slash_era, offender),
                fraction_parts,
            )
            &&& (took > 0 ==> {
                &&& post.listener.slash_observer.m()[offender] == sat_add(
                    if pre.listener.slash_observer.m().contains_key(offender) {
                        pre.listener.slash_observer.m()[offender]
                    } else {
                        0
                    },
                    took as u64,
                )
                &&& post.listener.last_slashed_total == took
                &&& post.listener.last_slashed_era == slash_era
            })
        }),
{
    let prior = spec_prior_fraction(pre, slash_era, offender);
    let own = pre.eras_exposure.m()[(slash_era, offender)].own;
    let own_incr = spec_slash_increment(own, fraction_parts as int, prior);
    crate::frac::lemma_share_monotone(
        own as int,
        prior,
        fraction_parts as int,
        FRAC_DEN as int,
    );
    lemma_share_le(own as int, fraction_parts as int, FRAC_DEN as int);
    crate::types::lemma_ledger_wf_active_le_total(
        pre.ledgers.m()[pre.bonded.m()[offender]]@,
    );
    let (m1, m2) = choose|m1: Staking, m2: Staking|
        #![trigger spec_offence_recorded(pre, m1, offender, fraction_parts, slash_era), spec_slash_applied(m1, m2, offender, own_incr as u64, slash_era)]
        {
            &&& spec_offence_recorded(pre, m1, offender, fraction_parts, slash_era)
            &&& spec_slash_applied(m1, m2, offender, own_incr as u64, slash_era)
            &&& crate::slash::spec_backers_slashed(
                m2,
                post,
                pre.eras_exposure.m()[(slash_era, offender)].others@,
                fraction_parts as int,
                prior,
                slash_era,
            )
        };
    assert(spec_bonded_sound(m1, offender));
    let tr = choose|tr: Seq<Staking>|
        #![trigger spec_backers_slashed_along(tr, pre.eras_exposure.m()[(slash_era, offender)].others@, fraction_parts as int, prior, slash_era)]
        {
            &&& spec_backers_slashed_along(
                tr,
                pre.eras_exposure.m()[(slash_era, offender)].others@,
                fraction_parts as int,
                prior,
                slash_era,
            )
            &&& tr.first() == m2
            &&& tr.last() == post
        };
    assert(tr.len() == 1);
    assert(post == m2);
}

/// Overlapping reports take the maximum, never the sum: two immediate
/// reports of fractions `f1` then `f2 > f1` against a backerless offender
/// in one era leave its ledger down by exactly the `f2` share of its
/// exposed stake — item by item what a 10% and then a 30% report make a 30%
/// slash. Extracted from the offence entry points' contracts together with
/// `lemma_slash_monotone`.
pub proof fn lemma_overlapping_reports_take_the_maximum(
    s0: Staking,
    s1: Staking,
    s2: Staking,
    offender: u64,
    f1: u32,
    f2: u32,
    era: u64,
)
    requires
        spec_slash_one_rel(s0, s1, offender, f1, era),
        spec_slash_one_rel(s1, s2, offender, f2, era),
        0 < f1 < f2 <= FRAC_DEN,
        spec_prior_fraction(s0, era, offender) == 0,
        s0.cfg.slash_defer_duration == 0,
        !s0.invulnerables@.contains(offender),
        s0.eras_exposure.m().contains_key((era, offender)),
        s0.eras_exposure.m()[(era, offender)].others@.len() == 0,
        spec_bonded_sound(s0, offender),
        crate::frac::share_of(
            s0.eras_exposure.m()[(era, offender)].own as int,
            f2 as int,
            FRAC_DEN as int,
        ) <= s0.ledgers.m()[s0.bonded.m()[offender]]@.active,
    ensures
        ({
            let own = s0.eras_exposure.m()[(era, offender)].own;
            let c = s0.bonded.m()[offender];
            let l = s0.ledgers.m()[c]@;
            let total_slash = crate::frac::share_of(own as int, f2 as int, FRAC_DEN as int);
            &&& s2.ledgers.m().contains_key(c)
            &&& s2.ledgers.m()[c]@.active == l.active - total_slash
            &&& s2.ledgers.m()[c]@.total == l.total - total_slash
        }),
{
    let own = s0.eras_exposure.m()[(era, offender)].own;
    let c = s0.bonded.m()[offender];
    lemma_offence_applied_no_backers(s0, s1, offender, f1, era);
    crate::frac::lemma_share_monotone(own as int, f1 as int, f2 as int, FRAC_DEN as int);
    lemma_share_le(own as int, f1 as int, FRAC_DEN as int);
    lemma_slash_monotone(own, f1 as int, f2 as int);
    assert(spec_prior_fraction(s1, era, offender) == f1 as int);
    assert(s1.eras_exposure == s0.eras_exposure);
    assert(s1.bonded == s0.bonded);
    assert(spec_bonded_sound(s1, offender));
    lemma_offence_applied_no_backers(s1, s2, offender, f2, era);
}

/// The validator's page-zero credit, extracted from the payment chain that
/// `payout_stakers_by_page` ensures on success: a `Stash`-paid validator
/// whose page carries no backers gains exactly its commission plus its
/// own-stake share of its points-weighted slice of the pool.
pub proof fn lemma_page_zero_payout_no_backers(
    pre: Staking,
    post: Staking,
    stash: u64,
    era: u64,
)
    requires
        pre.eras_exposure.m().contains_key((era, stash)),
        pre.eras_exposure.m()[(era, stash)].others@.len() == 0,
        spec_payee_of(pre, stash) == RewardDestination::Stash,
        spec_validator_amount(pre, era, stash, 0) > 0,
        pre.eras_validator_reward.m().contains_key(era),
        exists|mid1: Staking, mid2: Staking|
            #![trigger spec_claim_marked(pre, mid1, stash, era, 0), spec_paid(mid1, mid2, stash, spec_payee_of(pre, stash), spec_validator_amount(pre, era, stash, 0) as u64)]
            {
                &&& spec_claim_marked(pre, mid1, stash, era, 0)
                &&& spec_paid(
                    mid1,
                    mid2,
                    stash,
                    spec_payee_of(pre, stash),
                    spec_validator_amount(pre, era, stash, 0) as u64,
                )
                &&& spec_page_paid(
                    mid2,
                    post,
                    pre,
                    stash,
                    era,
                    spec_page_start(pre, 0),
                    spec_page_end(pre, era, stash, 0),
                )
            },
    ensures
        post.balances.m().contains_key(stash),
        post.balances.m()[stash] == sat_add(
            if pre.balances.m().contains_key(stash) {
                pre.balances.m()[stash]
            } else {
                0
            },
            spec_validator_amount(pre, era, stash, 0) as u64,
        ),
{
    lemma_validator_amount_bounded(pre, era, stash);
    let (m1, m2) = choose|m1: Staking, m2: Staking|
        #![trigger spec_claim_marked(pre, m1, stash, era, 0), spec_paid(m1, m2, stash, spec_payee_of(pre, stash), spec_validator_amount(pre, era, stash, 0) as u64)]
        {
            &&& spec_claim_marked(pre, m1, stash, era, 0)
            &&& spec_paid(
                m1,
                m2,
                stash,
                spec_payee_of(pre, stash),
                spec_validator_amount(pre, era, stash, 0) as u64,
            )
            &&& spec_page_paid(
                m2,
                post,
                pre,
                stash,
                era,
                spec_page_start(pre, 0),
                spec_page_end(pre, era, stash, 0),
            )
        };
    assert(spec_claim_marked(pre, m1, stash, era, 0));
    assert(spec_paid(
        m1,
        m2,
        stash,
        spec_payee_of(pre, stash),
        spec_validator_amount(pre, era, stash, 0) as u64,
    ));
    assert(m1.balances == pre.balances);
    let tr = choose|tr: Seq<Staking>|
        #![trigger spec_page_payments_along(tr, pre, stash, era, spec_page_start(pre, 0), spec_page_end(pre, era, stash, 0))]
        {
            &&& spec_page_payments_along(
                tr,
                pre,
                stash,
                era,
                spec_page_start(pre, 0),
                spec_page_end(pre, era, stash, 0),
            )
            &&& tr.first() == m2
            &&& tr.last() == post
        };
    assert(spec_page_end(pre, era, stash, 0) == 0);
    assert(tr.len() == 1);
    assert(post == m2);
}

/// The validator's page-zero amount never exceeds the era's pool.
proof fn lemma_validator_amount_bounded(pre: Staking, era: u64, stash: u64)
    ensures
        0 <= spec_validator_amount(pre, era, stash, 0)
            <= pre.eras_validator_reward.m()[era],
{
    let pool = pre.eras_validator_reward.m()[era];
    let tot: int = if pre.points_total.m().contains_key(era) {
        pre.points_total.m()[era] as int
    } else {
        0
    };
    let mine0: int = if pre.points_individual.m().contains_key((era, stash)) {
        pre.points_individual.m()[(era, stash)] as int
    } else {
        0
    };
    let mine: int = if mine0 <= tot {
        mine0
    } else {
        tot
    };
    if tot > 0 {
        lemma_share_le(pool as int, mine, tot);
    }
    let vshare = crate::rewards::spec_validator_share(pre, era, stash);
    let cp0: int = if pre.validators.m().contains_key(stash) {
        pre.validators.m()[stash].commission_parts as int
    } else {
        0
    };
    let cp: int = if cp0 <= FRAC_DEN {
        cp0
    } else {
        FRAC_DEN as int
    };
    lemma_share_le(vshare, cp, FRAC_DEN as int);
    let e = pre.eras_exposure.m()[(era, stash)];
    let leftover = crate::rewards::spec_leftover(pre, era, stash);
    if e.total > 0 {
        let ownc: int = if e.own <= e.total {
            e.own as int
        } else {
            e.total as int
        };
        lemma_share_le(leftover, ownc, e.total as int);
    }
}

/// Era progression: whenever no election is overdue, the active era is the
/// session count divided by the sessions-per-era length, and the era being
/// built has caught up with it. Every clock operation preserves `clock_wf`,
/// so this holds at all times between calls.
pub proof fn lemma_era_progression(s: Staking)
    requires
        clock_wf(s),
        !s.election_pending,
    ensures
        s.active_era as int == s.session as int / s.cfg.sessions_per_era as int,
        s.current_era == s.active_era,
{
}

} // verus!
