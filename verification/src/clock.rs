//! The era/session clock: blocks tick, sessions end at fixed block periods,
//! and every `sessions_per_era`-th session closes the active era — paying it
//! out, snapshotting the next validator set, and sliding the bonded-eras
//! window. An election that fails leaves the previous set in force, flags
//! the engine as waiting, announces the fault, and is retried every session.

use vstd::prelude::*;
use crate::config::BLOCK_TIME;
use crate::config::INIT_TIMESTAMP;
use crate::state::Staking;
use crate::state::wf_base;
use crate::state::registry_wf;
use crate::state::sat_add;
use crate::exposure::Exposure;
use crate::exposure::exposure_wf;
use crate::types::Event;
use vstd::arithmetic::div_mod::lemma_fundamental_div_mod;
use vstd::arithmetic::div_mod::lemma_div_multiples_vanish_fancy;
use vstd::arithmetic::div_mod::lemma_remainder_lower;
use vstd::arithmetic::div_mod::lemma_remainder_upper;

verus! {

/// The bonded-eras window entries still young enough to keep: an era stays
/// while `era + history_depth + slash_defer_duration` has not fallen behind
/// the current era.
pub open spec fn spec_kept_window(
    s: Seq<(u64, u64)>,
    hist: u64,
    defer: u64,
    current: u64,
) -> Seq<(u64, u64)>
    decreases s.len(),
{
    if s.len() == 0 {
        Seq::empty()
    } else {
        let rest = spec_kept_window(s.drop_last(), hist, defer, current);
        if s.last().0 + hist + defer >= current {
            rest.push(s.last())
        } else {
            rest
        }
    }
}

/// Which session a block belongs to: sessions end every `period` blocks,
/// the first at block `offset` (at multiples of `period` when the offset is
/// zero).
pub open spec fn session_of_block(b: u64, period: u64, offset: u64) -> int {
    if offset == 0 {
        b as int / period as int
    } else if b < offset {
        0
    } else {
        (b - offset) / period as int + 1
    }
}

/// The clock invariant: the session index matches the block, the built era
/// matches the active one, and — whenever no election is overdue — the
/// active era is exactly the session count divided by the era length.
pub open spec fn clock_wf(s: Staking) -> bool {
    &&& s.session == session_of_block(s.block, s.cfg.period, s.cfg.offset)
    &&& s.current_era == s.active_era
    &&& (!s.election_pending ==> s.active_era as int == s.session as int
        / s.cfg.sessions_per_era as int)
    &&& (s.election_pending ==> s.active_era as int <= s.session as int
        / s.cfg.sessions_per_era as int)
}

/// Dividing by `p` steps up exactly at multiples of `p`.
proof fn lemma_div_step(x: int, p: int)
    requires
        x >= 1,
        p > 0,
    ensures
        x / p == (x - 1) / p + (if x % p == 0 {
            1int
        } else {
            0int
        }),
{
    let q = x / p;
    let r = x % p;
    lemma_fundamental_div_mod(x, p);
    lemma_remainder_lower(x, p);
    lemma_remainder_upper(x, p);
    if r == 0 {
        assert(x == p * q);
        assert(q >= 1) by (nonlinear_arith)
            requires x == p * q && x >= 1 && p > 0;
        assert(x - 1 == p * (q - 1) + (p - 1)) by (nonlinear_arith)
            requires x == p * q;
        lemma_div_multiples_vanish_fancy(q - 1, p - 1, p);
    } else {
        assert(x - 1 == p * q + (r - 1)) by (nonlinear_arith)
            requires x == p * q + r;
        lemma_div_multiples_vanish_fancy(q, r - 1, p);
        lemma_div_multiples_vanish_fancy(q, r, p);
    }
}

/// A block's session index never exceeds the block number.
proof fn lemma_session_le_block(b: u64, p: u64, off: u64)
    requires
        p > 0,
    ensures
        0 <= session_of_block(b, p, off) <= b as int,
{
    if off == 0 {
        vstd::arithmetic::div_mod::lemma_div_nonincreasing(b as int, p as int);
        vstd::arithmetic::div_mod::lemma_div_pos_is_pos(b as int, p as int);
    } else if b >= off {
        vstd::arithmetic::div_mod::lemma_div_nonincreasing((b - off) as int, p as int);
        vstd::arithmetic::div_mod::lemma_div_pos_is_pos((b - off) as int, p as int);
    }
}

/// One block's worth of session arithmetic.
proof fn lemma_session_step(b: u64, period: u64, offset: u64)
    requires
        b >= 1,
        period > 0,
    ensures
        session_of_block(b, period, offset) == session_of_block((b - 1) as u64, period, offset)
            + (if (offset == 0 && b as int % period as int == 0) || (offset > 0 && b >= offset
            && (b - offset) as int % period as int == 0) {
            1int
        } else {
            0int
        }),
{
    if offset == 0 {
        lemma_div_step(b as int, period as int);
    } else if b < offset {
    } else if b == offset {
        assert((b - offset) as int % period as int == 0) by {
            assert((b - offset) as int == 0);
        }
        assert((b - offset) as int / period as int == 0);
    } else {
        let x = (b - offset) as int;
        lemma_div_step(x, period as int);
    }
}

/// A failed era start: the engine flagged as waiting and the fault
/// announced; nothing else moves.
pub open spec fn spec_era_start_failed(pre: Staking, post: Staking) -> bool {
    &&& post.election_pending == true
    &&& post.events@ == pre.events@.push(Event::StakingElectionFailed)
    &&& post == (Staking {
        election_pending: post.election_pending,
        events: post.events,
        ..pre
    })
}

/// The ended era settled: once an era has started, closing it computes the
/// payout pool from the inflation curve over the era's duration, records it
/// for claims, accumulates the remainder into the sink, and announces
/// `EraPaid`. A genesis transition has nothing to settle.
pub open spec fn spec_era_settled(pre: Staking, post: Staking) -> bool {
    if pre.eras_start_session.m().contains_key(pre.active_era) {
        let prev = pre.active_era;
        let duration: u64 = if pre.timestamp >= pre.active_era_start {
            (pre.timestamp - pre.active_era_start) as u64
        } else {
            0
        };
        let staked: u64 = if pre.eras_total_stake.m().contains_key(prev) {
            pre.eras_total_stake.m()[prev]
        } else {
            0
        };
        let payout = crate::rewards::spec_era_payout(staked, pre.total_issuance, duration);
        let rest = crate::rewards::spec_era_max(pre.total_issuance, duration) - payout;
        &&& post.eras_validator_reward.m() == pre.eras_validator_reward.m().insert(
            prev,
            payout as u64,
        )
        &&& post.remainder.total == crate::state::sat_add(pre.remainder.total, rest as u64)
        &&& post.events@ == pre.events@.push(
            Event::EraPaid { era_index: prev, validator_payout: payout as u64, remainder: rest as u64 },
        )
        &&& post == (Staking {
            eras_validator_reward: post.eras_validator_reward,
            remainder: post.remainder,
            events: post.events,
            ..pre
        })
    } else {
        post == pre
    }
}

/// The new era seated for session `s`: both era markers move to
/// `s / sessions_per_era`, the era's start session and timestamp are
/// recorded, `(new_era, s)` joins the bonded-eras window with entries past
/// the history-plus-deferral horizon evicted, a well-formed winner set is
/// installed with its exposures snapshotted, disablements are lifted, and
/// `StakersElected` is announced.
pub open spec fn spec_era_seated(pre: Staking, post: Staking, s: u64) -> bool {
    let new_era = (s as int / pre.cfg.sessions_per_era as int) as u64;
    &&& post.current_era == new_era
    &&& post.active_era == new_era
    &&& post.active_era_start == pre.timestamp
    &&& post.election_pending == false
    &&& post.eras_start_session.m() == pre.eras_start_session.m().insert(new_era, s)
    &&& post.bonded_eras@ == spec_kept_window(
        pre.bonded_eras@.push((new_era, s)),
        pre.cfg.history_depth,
        pre.cfg.slash_defer_duration,
        new_era,
    )
    &&& post.events@ == pre.events@.push(Event::StakersElected)
    &&& post.disabled@ == Seq::<u64>::empty()
    &&& post.eras_total_stake.m().dom() == pre.eras_total_stake.m().dom().insert(new_era)
    &&& (forall|e: u64|
        e != new_era && pre.eras_total_stake.m().contains_key(e)
            ==> #[trigger] post.eras_total_stake.m()[e] == pre.eras_total_stake.m()[e])
    &&& (forall|k: (u64, u64)|
        k.0 != new_era && pre.eras_exposure.m().contains_key(k)
            ==> #[trigger] post.eras_exposure.m().contains_key(k) && post.eras_exposure.m()[k]
            == pre.eras_exposure.m()[k])
    &&& exists|winners: Seq<(u64, Exposure)>|
        #![trigger spec_winners_installed(pre, post, winners, new_era)]
        spec_winners_installed(pre, post, winners, new_era)
    &&& post == (Staking {
        current_era: post.current_era,
        active_era: post.active_era,
        active_era_start: post.active_era_start,
        election_pending: post.election_pending,
        eras_start_session: post.eras_start_session,
        bonded_eras: post.bonded_eras,
        session_validators: post.session_validators,
        disabled: post.disabled,
        eras_exposure: post.eras_exposure,
        eras_total_stake: post.eras_total_stake,
        events: post.events,
        ..pre
    })
}

/// A well-formed winner set is seated: distinct declared candidates, within
/// the configured seat counts, each with an arithmetically sound exposure
/// snapshotted under the new era, and the session set lists exactly them.
pub open spec fn spec_winners_installed(
    pre: Staking,
    post: Staking,
    winners: Seq<(u64, Exposure)>,
    new_era: u64,
) -> bool {
    &&& 1 <= winners.len() <= pre.cfg.validator_count
    &&& winners.len() >= pre.cfg.minimum_validator_count
    &&& (forall|i: int| 0 <= i < winners.len() ==> pre.validators.m().contains_key(
        (#[trigger] winners[i]).0,
    ))
    &&& (forall|i: int, j: int|
        0 <= i < j < winners.len() ==> (#[trigger] winners[i]).0 != (#[trigger] winners[j]).0)
    &&& (forall|i: int| 0 <= i < winners.len() ==> exposure_wf(
        (#[trigger] winners[i]).1.own,
        winners[i].1.total,
        winners[i].1.others@,
    ))
    &&& post.session_validators@.len() == winners.len()
    &&& (forall|i: int| 0 <= i < winners.len() ==> #[trigger] post.session_validators@[i]
        == winners[i].0)
    &&& (forall|i: int| 0 <= i < winners.len() ==> {
        &&& #[trigger] post.eras_exposure.m().contains_key((new_era, winners[i].0))
        &&& post.eras_exposure.m()[(new_era, winners[i].0)].own == winners[i].1.own
        &&& post.eras_exposure.m()[(new_era, winners[i].0)].total == winners[i].1.total
        &&& post.eras_exposure.m()[(new_era, winners[i].0)].others@ == winners[i].1.others@
    })
}

/// One era transition at session `s`: either the election failed — the old
/// set stays, the engine waits, the fault is announced — or the ended era
/// is settled, the new era seated, and every deferred slash due by it
/// landed, with the surviving queue stated exactly.
pub open spec fn spec_era_transition(pre: Staking, post: Staking, s: u64) -> bool {
    ||| spec_era_start_failed(pre, post)
    ||| exists|m1: Staking, m2: Staking|
        #![trigger spec_era_settled(pre, m1), spec_era_seated(m1, m2, s)]
        {
            &&& spec_era_settled(pre, m1)
            &&& spec_era_seated(m1, m2, s)
            &&& crate::slash::spec_due_landed(
                m2,
                post,
                crate::slash::spec_due_pending(m2.unapplied_slashes@, m2.active_era),
            )
            &&& post.unapplied_slashes@ == crate::slash::spec_still_pending(
                m2.unapplied_slashes@,
                m2.active_era,
            )
            &&& post == (Staking {
                ledgers: post.ledgers,
                listener: post.listener,
                events: post.events,
                unapplied_slashes: post.unapplied_slashes,
                ..m2
            })
        }
}

/// One block processed: the block count steps, a session ends when the
/// period divides evenly past the offset, a crossed era boundary (or an
/// election still owed) performs one full `spec_era_transition`, and the
/// timestamp then trails the block.
pub open spec fn spec_block_passed(pre: Staking, post: Staking) -> bool {
    let b = (pre.block + 1) as u64;
    let boundary = if pre.cfg.offset == 0 {
        b as int % pre.cfg.period as int == 0
    } else {
        b >= pre.cfg.offset && (b - pre.cfg.offset) as int % pre.cfg.period as int == 0
    };
    let s2: u64 = if boundary {
        (pre.session + 1) as u64
    } else {
        pre.session
    };
    let ts = (INIT_TIMESTAMP + b * BLOCK_TIME) as u64;
    if boundary && (pre.election_pending || s2 as int % pre.cfg.sessions_per_era as int == 0) {
        exists|mid: Staking| #[trigger] spec_boundary_step(pre, mid, post)
    } else {
        post == (Staking { timestamp: ts, block: b, session: s2, ..pre })
    }
}

/// The era work of one boundary block, between the session step and the
/// timestamp update.
pub open spec fn spec_boundary_step(pre: Staking, mid: Staking, post: Staking) -> bool {
    let b = (pre.block + 1) as u64;
    let s2 = (pre.session + 1) as u64;
    let ts = (INIT_TIMESTAMP + b * BLOCK_TIME) as u64;
    &&& spec_era_transition(Staking { block: b, session: s2, ..pre }, mid, s2)
    &&& post == (Staking { timestamp: ts, ..mid })
}

/// Each adjacent pair of the trace is one processed block.
pub open spec fn spec_blocks_along(trace: Seq<Staking>) -> bool {
    forall|i: int| 0 <= i < trace.len() - 1 ==> spec_block_passed(
        #[trigger] trace[i],
        trace[i + 1],
    )
}

/// The chain advanced block by block from `pre` to `post` at block `n`,
/// with every crossed session and era boundary fully processed.
pub open spec fn spec_ran_to(pre: Staking, post: Staking, n: u64) -> bool {
    exists|trace: Seq<Staking>|
        #![trigger spec_blocks_along(trace)]
        {
            &&& spec_blocks_along(trace)
            &&& trace.len() == n - pre.block + 1
            &&& trace.first() == pre
            &&& trace.last() == post
        }
}

impl Staking {
    /// Close the active era and seat the era for session `s`: settle the old
    /// era's payout from the curve, run the election, snapshot exposures,
    /// advance both era markers, slide the bonded-eras window, land due
    /// deferred slashes, and lift disablements. On election failure the
    /// previous set stays seated, the engine is flagged as waiting, and
    /// `StakingElectionFailed` is announced.
    pub(crate) fn try_start_era(&mut self, s: u64)
        requires
            wf_base(*old(self)),
            old(self).current_era == old(self).active_era,
            old(self).active_era as int <= s as int / old(self).cfg.sessions_per_era as int,
            s <= old(self).session,
        ensures
            wf_base(*final(self)),
            registry_wf(*old(self)) ==> registry_wf(*final(self)),
            final(self).current_era == final(self).active_era,
            !final(self).election_pending ==> final(self).active_era as int == s as int / final(self).cfg.sessions_per_era as int,
            final(self).election_pending ==> final(self).active_era == old(self).active_era
                && final(self).active_era as int <= s as int / final(self).cfg.sessions_per_era as int,
            final(self).session == old(self).session,
            final(self).block == old(self).block,
            final(self).timestamp == old(self).timestamp,
            final(self).cfg == old(self).cfg,
            final(self).try_state_on == old(self).try_state_on,
            final(self).balances == old(self).balances,
            final(self).bonded == old(self).bonded,
            final(self).payees == old(self).payees,
            final(self).validators == old(self).validators,
            final(self).nominators == old(self).nominators,
            final(self).restricted == old(self).restricted,
            old(self).unapplied_slashes@.len() == 0 ==> final(self).ledgers == old(self).ledgers
                && final(self).unapplied_slashes@.len() == 0,
            (exists|st: u64| #[trigger] crate::election::spec_eligible(*old(self), st))
                && old(self).cfg.minimum_validator_count <= 1
                && old(self).cfg.validator_count >= 1 ==> !final(self).election_pending,
            spec_era_transition(*old(self), *final(self), s),
    {
        let winners = match self.elect() {
            Ok(w) => w,
            Err(_) => {
                self.election_pending = true;
                self.deposit_event(Event::StakingElectionFailed);
                return ;
            },
        };
        let genesis = !self.eras_start_session.contains_key(self.active_era);
        let new_era = s / self.cfg.sessions_per_era;
        if !genesis {
            // Settle the era that just ended.
            let prev = self.active_era;
            let duration = if self.timestamp >= self.active_era_start {
                self.timestamp - self.active_era_start
            } else {
                0
            };
            let staked = match self.eras_total_stake.get(prev) {
                Some(x) => *x,
                None => 0,
            };
            let (payout, rest) = crate::rewards::era_payout_calc(
                staked,
                self.total_issuance,
                duration,
            );
            self.eras_validator_reward.insert(prev, payout);
            self.remainder.total = self.remainder.total.saturating_add(rest);
            self.deposit_event(
                Event::EraPaid { era_index: prev, validator_payout: payout, remainder: rest },
            );
        }
        let ghost m1 = *self;
        proof {
            assert(spec_era_settled(*old(self), m1));
        }
        // Seat the new era.
        self.current_era = new_era;
        self.active_era = new_era;
        self.active_era_start = self.timestamp;
        self.election_pending = false;
        self.eras_start_session.insert(new_era, s);
        self.bonded_eras.push((new_era, s));
        self.prune_bonded_eras(new_era);
        let ghost seat_pre_loop = *self;
        // Install the winners and their exposures.
        let mut set: Vec<u64> = Vec::new();
        let mut total_stake: u64 = 0;
        let nwin = winners.len();
        let mut i: usize = 0;
        while i < nwin
            invariant
                wf_base(*self),
                registry_wf(*old(self)) ==> registry_wf(*self),
                nwin == winners@.len(),
                i <= nwin,
                set@.len() == i,
                self.cfg == old(self).cfg,
                self.session == old(self).session,
                self.block == old(self).block,
                self.timestamp == old(self).timestamp,
                self.current_era == new_era,
                self.active_era == new_era,
                self.election_pending == false,
                self.try_state_on == old(self).try_state_on,
                self.balances == old(self).balances,
                self.bonded == old(self).bonded,
                self.payees == old(self).payees,
                self.validators == old(self).validators,
                self.nominators == old(self).nominators,
                self.restricted == old(self).restricted,
                self.ledgers == old(self).ledgers,
                self.unapplied_slashes == old(self).unapplied_slashes,
                *self == (Staking { eras_exposure: self.eras_exposure, ..seat_pre_loop }),
                1 <= winners@.len() <= old(self).cfg.validator_count,
                winners@.len() >= old(self).cfg.minimum_validator_count,
                forall|a: int, b: int|
                    0 <= a < b < winners@.len() ==> (#[trigger] winners@[a]).0 != (
                    #[trigger] winners@[b]).0,
                forall|p: int| 0 <= p < winners@.len() ==> old(self).validators.m().contains_key(
                    (#[trigger] winners@[p]).0,
                ),
                forall|p: int| 0 <= p < winners@.len() ==> exposure_wf(
                    (#[trigger] winners@[p]).1.own,
                    winners@[p].1.total,
                    winners@[p].1.others@,
                ),
                forall|p: int| 0 <= p < i ==> #[trigger] set@[p] == winners@[p].0,
                forall|p: int| 0 <= p < i ==> {
                    &&& #[trigger] self.eras_exposure.m().contains_key((new_era, winners@[p].0))
                    &&& self.eras_exposure.m()[(new_era, winners@[p].0)].own == winners@[p].1.own
                    &&& self.eras_exposure.m()[(new_era, winners@[p].0)].total == winners@[
                        p].1.total
                    &&& self.eras_exposure.m()[(new_era, winners@[p].0)].others@ == winners@[
                        p].1.others@
                },
                forall|k: (u64, u64)|
                    k.0 != new_era && seat_pre_loop.eras_exposure.m().contains_key(k)
                        ==> #[trigger] self.eras_exposure.m().contains_key(k)
                        && self.eras_exposure.m()[k] == seat_pre_loop.eras_exposure.m()[k],
            decreases nwin - i,
        {
            let stash = winners[i].0;
            let expo_total = winners[i].1.total;
            let expo = winners[i].1.duplicate();
            self.eras_exposure.insert((new_era, stash), expo);
            set.push(stash);
            proof {
                assert forall|p: int| 0 <= p < i + 1 implies {
                    &&& #[trigger] self.eras_exposure.m().contains_key((new_era, winners@[p].0))
                    &&& self.eras_exposure.m()[(new_era, winners@[p].0)].own == winners@[p].1.own
                    &&& self.eras_exposure.m()[(new_era, winners@[p].0)].total == winners@[
                        p].1.total
                    &&& self.eras_exposure.m()[(new_era, winners@[p].0)].others@ == winners@[
                        p].1.others@
                } by {
                    if p < i {
                        assert(winners@[p].0 != winners@[i as int].0);
                    }
                }
            }
            total_stake = total_stake.saturating_add(expo_total);
            i = i + 1;
        }
        self.eras_total_stake.insert(new_era, total_stake);
        self.session_validators = set;
        self.disabled = Vec::new();
        self.deposit_event(Event::StakersElected);
        let ghost m2 = *self;
        proof {
            assert(m2.eras_total_stake.m().dom() =~= m1.eras_total_stake.m().dom().insert(
                new_era,
            ));
            assert(spec_winners_installed(m1, m2, winners@, new_era));
            assert(spec_era_seated(m1, m2, s));
        }
        // Deferred slashes scheduled for this era land now.
        self.apply_unapplied_slashes(new_era);
        proof {
            assert(spec_era_settled(*old(self), m1) && spec_era_seated(m1, m2, s));
            assert(spec_era_transition(*old(self), *final(self), s));
        }
    }

    /// Drop window entries older than the history plus deferral horizon.
    fn prune_bonded_eras(&mut self, current: u64)
        requires
            wf_base(*old(self)),
        ensures
            wf_base(*final(self)),
            registry_wf(*old(self)) ==> registry_wf(*final(self)),
            final(self).bonded_eras@ == spec_kept_window(
                old(self).bonded_eras@,
                old(self).cfg.history_depth,
                old(self).cfg.slash_defer_duration,
                current,
            ),
            *final(self) == (Staking { bonded_eras: final(self).bonded_eras, ..*old(self) }),
    {
        let n = self.bonded_eras.len();
        let mut out: Vec<(u64, u64)> = Vec::new();
        let mut i: usize = 0;
        while i < n
            invariant
                wf_base(*self),
                *self == *old(self),
                n == self.bonded_eras@.len(),
                i <= n,
                out@ == spec_kept_window(
                    self.bonded_eras@.take(i as int),
                    self.cfg.history_depth,
                    self.cfg.slash_defer_duration,
                    current,
                ),
            decreases n - i,
        {
            let e = self.bonded_eras[i];
            if (e.0 as u128) + (self.cfg.history_depth as u128) + (
            self.cfg.slash_defer_duration as u128) >= current as u128 {
                out.push(e);
            }
            proof {
                let sq = self.bonded_eras@;
                assert(sq.take(i as int + 1).drop_last() =~= sq.take(i as int));
                assert(sq.take(i as int + 1).last() == sq[i as int]);
            }
            i = i + 1;
        }
        proof {
            assert(self.bonded_eras@.take(n as int) =~= self.bonded_eras@);
        }
        self.bonded_eras = out;
    }

    /// Advance the chain block by block to block `n`, rotating sessions and
    /// eras on the way; the timestamp always trails the processed block.
    pub fn run_to_block(&mut self, n: u64)
        requires
            wf_base(*old(self)),
            clock_wf(*old(self)),
            old(self).block <= n,
            n < 0xffff_ffff_ffff,
        ensures
            wf_base(*final(self)),
            clock_wf(*final(self)),
            registry_wf(*old(self)) ==> registry_wf(*final(self)),
            final(self).block == n,
            final(self).cfg == old(self).cfg,
            final(self).try_state_on == old(self).try_state_on,
            final(self).balances == old(self).balances,
            final(self).bonded == old(self).bonded,
            final(self).payees == old(self).payees,
            final(self).validators == old(self).validators,
            final(self).nominators == old(self).nominators,
            final(self).restricted == old(self).restricted,
            old(self).unapplied_slashes@.len() == 0 ==> final(self).ledgers == old(self).ledgers
                && final(self).unapplied_slashes@.len() == 0,
            n > old(self).block ==> final(self).timestamp == INIT_TIMESTAMP + n * BLOCK_TIME,
            n == old(self).block ==> final(self).timestamp == old(self).timestamp,
            spec_ran_to(*old(self), *final(self), n),
            (exists|st: u64| #[trigger] crate::election::spec_eligible(*old(self), st)) && old(self).cfg.minimum_validator_count <= 1 && old(self).cfg.validator_count >= 1 && old(self).unapplied_slashes@.len() == 0 && !old(self).election_pending ==> !final(self).election_pending,
    {
        let ghost mut trace: Seq<Staking> = seq![*old(self)];
        while self.block < n
            invariant
                wf_base(*self),
                clock_wf(*self),
                registry_wf(*old(self)) ==> registry_wf(*self),
                self.block <= n,
                self.block >= old(self).block,
                n < 0xffff_ffff_ffff,
                self.cfg == old(self).cfg,
                self.try_state_on == old(self).try_state_on,
                self.balances == old(self).balances,
                self.bonded == old(self).bonded,
                self.payees == old(self).payees,
                self.validators == old(self).validators,
                self.nominators == old(self).nominators,
                self.restricted == old(self).restricted,
                old(self).unapplied_slashes@.len() == 0 ==> self.ledgers == old(self).ledgers
                    && self.unapplied_slashes@.len() == 0,
                self.block > old(self).block ==> self.timestamp == INIT_TIMESTAMP + self.block
                    * BLOCK_TIME,
                self.block == old(self).block ==> self.timestamp == old(self).timestamp,
                trace.len() == self.block - old(self).block + 1,
                trace.first() == *old(self),
                trace.last() == *self,
                spec_blocks_along(trace),
                (exists|st: u64| #[trigger] crate::election::spec_eligible(*old(self), st))
                    && old(self).cfg.minimum_validator_count <= 1 && old(self).cfg.validator_count >= 1 && old(self).unapplied_slashes@.len() == 0 && !old(self).election_pending ==> !self.election_pending,
            decreases n - self.block,
        {
            let ghost pre_iter = *self;
            let ghost prev_trace = trace;
            let b = self.block + 1;
            self.block = b;
            let boundary = if self.cfg.offset == 0 {
                b % self.cfg.period == 0
            } else {
                b >= self.cfg.offset && (b - self.cfg.offset) % self.cfg.period == 0
            };
            proof {
                lemma_session_step(b, self.cfg.period, self.cfg.offset);
                lemma_session_le_block(b, self.cfg.period, self.cfg.offset);
            }
            let ghost mut mid_state: Staking = *self;
            let ghost mut did_era: bool = false;
            if boundary {
                self.session = self.session + 1;
                let s = self.session;
                proof {
                    lemma_div_step(s as int, self.cfg.sessions_per_era as int);
                }
                if self.election_pending || s % self.cfg.sessions_per_era == 0 {
                    proof {
                        assert(*self == (Staking {
                            block: b,
                            session: (pre_iter.session + 1) as u64,
                            ..pre_iter
                        }));
                        if (exists|st: u64| #[trigger] crate::election::spec_eligible(
                            *old(self),
                            st,
                        )) && old(self).unapplied_slashes@.len() == 0 {
                            let st = choose|st: u64|
                                #[trigger] crate::election::spec_eligible(*old(self), st);
                            assert(crate::election::spec_eligible(*self, st));
                        }
                    }
                    self.try_start_era(s);
                    proof {
                        mid_state = *self;
                        did_era = true;
                    }
                } else {
                    proof {
                        mid_state = *self;
                    }
                }
            } else {
                proof {
                    mid_state = *self;
                }
            }
            self.timestamp = INIT_TIMESTAMP + b * BLOCK_TIME;
            proof {
                if did_era {
                    let s2: u64 = (pre_iter.session + 1) as u64;
                    assert(spec_era_transition(
                        Staking { block: b, session: s2, ..pre_iter },
                        mid_state,
                        s2,
                    ));
                    assert(*self == (Staking {
                        timestamp: (INIT_TIMESTAMP + b * BLOCK_TIME) as u64,
                        ..mid_state
                    }));
                    assert(spec_boundary_step(pre_iter, mid_state, *self));
                }
                assert(spec_block_passed(pre_iter, *self));
                trace = trace.push(*self);
                assert forall|q: int| 0 <= q < trace.len() - 1 implies spec_block_passed(
                    #[trigger] trace[q],
                    trace[q + 1],
                ) by {
                    if q < trace.len() - 2 {
                        assert(trace[q] == prev_trace[q]);
                        assert(trace[q + 1] == prev_trace[q + 1]);
                    } else {
                        assert(trace[q] == pre_iter);
                        assert(trace[q + 1] == *self);
                    }
                }
            }
        }
        proof {
            assert(spec_ran_to(*old(self), *final(self), n));
        }
    }

    /// Run forward until session `end_session_idx` has just begun. With a
    /// nonzero offset the first session boundary sits at the offset block,
    /// so the earliest reachable target there is session one.
    pub fn start_session(&mut self, end_session_idx: u64)
        requires
            wf_base(*old(self)),
            clock_wf(*old(self)),
            end_session_idx < 0x800_0000,
            old(self).cfg.offset > 0 ==> end_session_idx >= 1,
            old(self).block <= spec_session_end_block(
                end_session_idx,
                old(self).cfg.period,
                old(self).cfg.offset,
            ),
        ensures
            wf_base(*final(self)),
            clock_wf(*final(self)),
            registry_wf(*old(self)) ==> registry_wf(*final(self)),
            final(self).session == end_session_idx,
            final(self).block == spec_session_end_block(
                end_session_idx,
                old(self).cfg.period,
                old(self).cfg.offset,
            ),
            spec_ran_to(
                *old(self),
                *final(self),
                spec_session_end_block(
                    end_session_idx,
                    old(self).cfg.period,
                    old(self).cfg.offset,
                ) as u64,
            ),
            (exists|st: u64| #[trigger] crate::election::spec_eligible(*old(self), st)) && old(self).cfg.minimum_validator_count <= 1 && old(self).cfg.validator_count >= 1 && old(self).unapplied_slashes@.len() == 0 && !old(self).election_pending ==> !final(self).election_pending,
            final(self).cfg == old(self).cfg,
            final(self).try_state_on == old(self).try_state_on,
    {
        proof {
            lemma_session_end_block(end_session_idx, self.cfg.period, self.cfg.offset);
        }
        let end: u64 = if self.cfg.offset == 0 {
            end_session_idx * self.cfg.period
        } else {
            self.cfg.offset + (end_session_idx - 1) * self.cfg.period
        };
        self.run_to_block(end);
    }

    /// Go one session forward.
    pub fn advance_session(&mut self)
        requires
            wf_base(*old(self)),
            clock_wf(*old(self)),
            old(self).session < 0x7ff_fffe,
        ensures
            wf_base(*final(self)),
            clock_wf(*final(self)),
            registry_wf(*old(self)) ==> registry_wf(*final(self)),
            final(self).session == old(self).session + 1,
    {
        let current = self.session;
        proof {
            let p = self.cfg.period as int;
            let off = self.cfg.offset as int;
            let b = self.block as int;
            if off == 0 {
                lemma_fundamental_div_mod(b, p);
                lemma_remainder_upper(b, p);
                assert(b < (current as int + 1) * p) by (nonlinear_arith)
                    requires b == p * (current as int) + b % p && b % p < p && p > 0;
            } else if b >= off {
                lemma_fundamental_div_mod(b - off, p);
                lemma_remainder_upper(b - off, p);
                assert(b - off < (current as int) * p) by (nonlinear_arith)
                    requires
                        b - off == p * (current as int - 1) + (b - off) % p
                            && (b - off) % p < p && p > 0,
                ;
            }
        }
        self.start_session(current + 1);
    }

    /// Run forward until `era_index` is the active era; with stakers in
    /// place every election succeeds, so both era markers land there.
    pub fn start_active_era(&mut self, era_index: u64)
        requires
            wf_base(*old(self)),
            clock_wf(*old(self)),
            era_index * old(self).cfg.sessions_per_era < 0x800_0000,
            old(self).block <= spec_session_end_block(
                (era_index * old(self).cfg.sessions_per_era) as u64,
                old(self).cfg.period,
                old(self).cfg.offset,
            ),
            old(self).cfg.offset > 0 ==> era_index >= 1,
        ensures
            wf_base(*final(self)),
            clock_wf(*final(self)),
            registry_wf(*old(self)) ==> registry_wf(*final(self)),
            final(self).session == era_index * final(self).cfg.sessions_per_era,
            !final(self).election_pending ==> final(self).active_era == era_index && final(self).current_era == era_index,
            spec_ran_to(
                *old(self),
                *final(self),
                spec_session_end_block(
                    (era_index * old(self).cfg.sessions_per_era) as u64,
                    old(self).cfg.period,
                    old(self).cfg.offset,
                ) as u64,
            ),
            (exists|st: u64| #[trigger] crate::election::spec_eligible(*old(self), st)) && old(self).cfg.minimum_validator_count <= 1 && old(self).cfg.validator_count >= 1 && old(self).unapplied_slashes@.len() == 0 && !old(self).election_pending ==> !final(self).election_pending,
    {
        let target = era_index * self.cfg.sessions_per_era;
        proof {
            if self.cfg.offset > 0 {
                assert(era_index as int * self.cfg.sessions_per_era as int >= 1)
                    by (nonlinear_arith)
                    requires era_index >= 1 && self.cfg.sessions_per_era >= 1;
            }
        }
        self.start_session(target);
        proof {
            let spe = self.cfg.sessions_per_era as int;
            vstd::arithmetic::div_mod::lemma_div_by_multiple(era_index as int, spe);
            vstd::arithmetic::mul::lemma_mul_is_commutative(era_index as int, spe);
        }
    }
}

/// The block at which the given session begins.
pub open spec fn spec_session_end_block(idx: u64, period: u64, offset: u64) -> int {
    if offset == 0 {
        idx as int * period as int
    } else {
        offset as int + (idx as int - 1) * period as int
    }
}

/// That block indeed belongs to the given session.
proof fn lemma_session_end_block(idx: u64, period: u64, offset: u64)
    requires
        period > 0,
        offset > 0 ==> idx >= 1,
        idx < 0x800_0000,
        period < 0x10_0000,
        offset < 0x10_0000_0000,
    ensures
        0 <= spec_session_end_block(idx, period, offset) < 0xffff_ffff_ffff,
        session_of_block(
            spec_session_end_block(idx, period, offset) as u64,
            period,
            offset,
        ) == idx,
{
    if offset == 0 {
        vstd::arithmetic::div_mod::lemma_div_by_multiple(idx as int, period as int);
        vstd::arithmetic::mul::lemma_mul_is_commutative(idx as int, period as int);
        vstd::arithmetic::mul::lemma_mul_upper_bound(
            idx as int,
            0x800_0000,
            period as int,
            0x10_0000,
        );
        vstd::arithmetic::mul::lemma_mul_nonnegative(idx as int, period as int);
    } else {
        let e = offset as int + (idx as int - 1) * period as int;
        vstd::arithmetic::mul::lemma_mul_nonnegative(idx as int - 1, period as int);
        vstd::arithmetic::mul::lemma_mul_upper_bound(
            idx as int - 1,
            0x800_0000,
            period as int,
            0x10_0000,
        );
        if idx as int - 1 == 0 {
            assert(e == offset);
        }
        assert(e >= offset);
        vstd::arithmetic::div_mod::lemma_div_by_multiple(idx as int - 1, period as int);
        vstd::arithmetic::mul::lemma_mul_is_commutative(idx as int - 1, period as int);
    }
}

} // verus!
