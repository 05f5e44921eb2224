//! The slashing engine: offence reports resolved against the bonded-eras
//! window, apportioned over the offender's exposure, deduplicated by taking
//! the highest fraction per era, and either applied at once or queued behind
//! the deferral window where they can still be canceled.

use vstd::prelude::*;
use crate::frac::FRAC_DEN;
use crate::frac::Frac;
use crate::frac::share_of;
use crate::state::OffenceDetails;
use crate::state::Staking;
use crate::state::UnappliedSlash;
use crate::state::sat_add;
use crate::state::wf_base;
use crate::state::registry_wf;
use crate::exposure::IndividualExposure;
use crate::types::Error;
use crate::types::Event;

verus! {

/// The saturating era at which a slash for `slash_era` lands.
pub open spec fn spec_apply_era(slash_era: u64, defer: u64) -> u64 {
    sat_add(slash_era, defer)
}

/// The fraction already applied against a stash in an era; zero if none.
pub open spec fn spec_prior_fraction(s: Staking, era: u64, stash: u64) -> int {
    if s.slashed_fraction.m().contains_key((era, stash)) {
        if s.slashed_fraction.m()[(era, stash)] <= FRAC_DEN {
            s.slashed_fraction.m()[(era, stash)] as int
        } else {
            FRAC_DEN as int
        }
    } else {
        0
    }
}

/// What a stake loses when the era's fraction rises from `prior` to `f`:
/// the difference of the two shares, so overlapping reports never slash
/// more than the highest fraction alone.
pub open spec fn spec_slash_increment(v: u64, f: int, prior: int) -> int {
    share_of(v as int, f, FRAC_DEN as int) - share_of(v as int, prior, FRAC_DEN as int)
}

/// Whether the stash is bonded to a controller holding an arithmetically
/// sound ledger.
pub open spec fn spec_bonded_sound(s: Staking, stash: u64) -> bool {
    &&& s.bonded.m().contains_key(stash)
    &&& s.ledgers.m().contains_key(s.bonded.m()[stash])
    &&& crate::types::ledger_wf(s.ledgers.m()[s.bonded.m()[stash]]@)
}

/// What reducing the stash's ledger by `amount` actually takes: the amount,
/// capped at the active stake; nothing when the stash has no sound ledger.
pub open spec fn spec_slash_took(pre: Staking, stash: u64, amount: u64) -> int {
    if spec_bonded_sound(pre, stash) {
        let l = pre.ledgers.m()[pre.bonded.m()[stash]]@;
        if amount <= l.active {
            amount as int
        } else {
            l.active as int
        }
    } else {
        0
    }
}

/// The exact effect of landing a slash of `amount` on one stash: its
/// ledger's active stake and total drop by the capped amount, the listener's
/// running total for the stash grows by it and records the remaining bonded
/// stake, a `Slashed` event is announced when anything was taken, and no
/// other ledger or state (beyond the pending-slash queue, which the caller
/// pins) moves.
pub open spec fn spec_slash_applied(
    pre: Staking,
    post: Staking,
    stash: u64,
    amount: u64,
    era: u64,
) -> bool {
    let c = pre.bonded.m()[stash];
    let l = pre.ledgers.m()[c]@;
    let took = spec_slash_took(pre, stash, amount);
    &&& (spec_bonded_sound(pre, stash) ==> {
        &&& post.ledgers.m().dom() == pre.ledgers.m().dom()
        &&& post.ledgers.m()[c]@ == (crate::types::LedgerShape {
            active: (l.active - took) as u64,
            total: (l.total - took) as u64,
            ..l
        })
        &&& forall|c2: u64|
            c2 != c && pre.ledgers.m().contains_key(c2) ==> #[trigger] post.ledgers.m()[c2]
                == pre.ledgers.m()[c2]
    })
    &&& (!spec_bonded_sound(pre, stash) ==> post.ledgers == pre.ledgers)
    &&& (took > 0 ==> {
        &&& post.listener.slash_observer.m() == pre.listener.slash_observer.m().insert(
            stash,
            sat_add(
                if pre.listener.slash_observer.m().contains_key(stash) {
                    pre.listener.slash_observer.m()[stash]
                } else {
                    0
                },
                took as u64,
            ),
        )
        &&& post.listener.last_slashed_total == took
        &&& post.listener.last_slashed_bonded == post.ledgers.m()[c]@.active
        &&& post.listener.last_slashed_era == era
        &&& post.events@ == pre.events@.push(
            Event::Slashed { staker: stash, amount: took as u64 },
        )
    })
    &&& (took == 0 ==> post.ledgers == pre.ledgers && post.listener == pre.listener
        && post.events@ == pre.events@)
    &&& post == (Staking {
        ledgers: post.ledgers,
        listener: post.listener,
        events: post.events,
        unapplied_slashes: post.unapplied_slashes,
        ..pre
    })
}

/// The state after each step of landing a slash on the backers in turn:
/// the first entry is the starting state, and each later entry is the one
/// before it with the fraction increment of that backer's recorded stake
/// landed on it (capped at its active stake).
pub open spec fn spec_backers_slashed_along(
    trace: Seq<Staking>,
    others: Seq<IndividualExposure>,
    f: int,
    prior: int,
    era: u64,
) -> bool {
    &&& trace.len() == others.len() + 1
    &&& forall|i: int| 0 <= i < others.len() ==> spec_slash_applied(
        #[trigger] trace[i],
        trace[i + 1],
        others[i].who,
        spec_slash_increment(others[i].value, f, prior) as u64,
        era,
    )
}

/// A slash landed on each backer in turn, front to back.
pub open spec fn spec_backers_slashed(
    pre: Staking,
    post: Staking,
    others: Seq<IndividualExposure>,
    f: int,
    prior: int,
    era: u64,
) -> bool {
    exists|trace: Seq<Staking>|
        #![trigger spec_backers_slashed_along(trace, others, f, prior, era)]
        {
            &&& spec_backers_slashed_along(trace, others, f, prior, era)
            &&& trace.first() == pre
            &&& trace.last() == post
        }
}

/// The state after each step of landing recorded amounts on the listed
/// stashes in turn.
pub open spec fn spec_amounts_slashed_along(
    trace: Seq<Staking>,
    others: Seq<IndividualExposure>,
    era: u64,
) -> bool {
    &&& trace.len() == others.len() + 1
    &&& forall|i: int| 0 <= i < others.len() ==> spec_slash_applied(
        #[trigger] trace[i],
        trace[i + 1],
        others[i].who,
        others[i].value,
        era,
    )
}

/// A slash landed on each listed stash in turn, front to back, each losing
/// its recorded amount capped at its active stake.
pub open spec fn spec_amounts_slashed(
    pre: Staking,
    post: Staking,
    others: Seq<IndividualExposure>,
    era: u64,
) -> bool {
    exists|trace: Seq<Staking>|
        #![trigger spec_amounts_slashed_along(trace, others, era)]
        {
            &&& spec_amounts_slashed_along(trace, others, era)
            &&& trace.first() == pre
            &&& trace.last() == post
        }
}

/// The bookkeeping stage of an offence: the era's fraction raised, the
/// report announced, and the offender possibly disabled; nothing else moves.
pub open spec fn spec_offence_recorded(
    pre: Staking,
    post: Staking,
    offender: u64,
    fraction_parts: u32,
    slash_era: u64,
) -> bool {
    &&& post.slashed_fraction.m() == pre.slashed_fraction.m().insert(
        (slash_era, offender),
        fraction_parts,
    )
    &&& post.events@ == pre.events@.push(
        Event::SlashReported { validator: offender, fraction_parts, slash_era },
    )
    &&& (post.disabled@ == pre.disabled@ || post.disabled@ == pre.disabled@.push(offender))
    &&& post == (Staking {
        slashed_fraction: post.slashed_fraction,
        events: post.events,
        disabled: post.disabled,
        ..pre
    })
}

/// The whole effect of one offence report: nothing at all for invulnerable
/// offenders, unexposed eras, or fractions at or below the era's prior
/// maximum; otherwise the fraction map rises to the new maximum and, with no
/// deferral, the offender and each backer lose exactly the fraction
/// increment of their exposed stake (capped at active) — or, behind a
/// deferral window, the queue gains exactly the record of those amounts and
/// no ledger moves.
pub open spec fn spec_slash_one_rel(
    pre: Staking,
    post: Staking,
    offender: u64,
    fraction_parts: u32,
    slash_era: u64,
) -> bool {
    let prior = spec_prior_fraction(pre, slash_era, offender);
    let skip = pre.invulnerables@.contains(offender) || !pre.eras_exposure.m().contains_key(
        (slash_era, offender),
    ) || fraction_parts <= prior;
    if skip {
        post == pre
    } else {
        let expo = pre.eras_exposure.m()[(slash_era, offender)];
        let own_incr = spec_slash_increment(expo.own, fraction_parts as int, prior);
        &&& post.slashed_fraction.m() == pre.slashed_fraction.m().insert(
            (slash_era, offender),
            fraction_parts,
        )
        &&& post.events@.len() > pre.events@.len()
        &&& post.events@[pre.events@.len() as int] == (Event::SlashReported {
            validator: offender,
            fraction_parts,
            slash_era,
        })
        &&& (pre.cfg.slash_defer_duration == 0 ==> {
            &&& post == (Staking {
                ledgers: post.ledgers,
                listener: post.listener,
                events: post.events,
                disabled: post.disabled,
                slashed_fraction: post.slashed_fraction,
                ..pre
            })
            &&& exists|mid1: Staking, mid2: Staking|
                #![trigger spec_offence_recorded(pre, mid1, offender, fraction_parts, slash_era), spec_slash_applied(mid1, mid2, offender, own_incr as u64, slash_era)]
                {
                    &&& spec_offence_recorded(pre, mid1, offender, fraction_parts, slash_era)
                    &&& spec_slash_applied(mid1, mid2, offender, own_incr as u64, slash_era)
                    &&& spec_backers_slashed(
                        mid2,
                        post,
                        expo.others@,
                        fraction_parts as int,
                        prior,
                        slash_era,
                    )
                }
        })
        &&& (pre.cfg.slash_defer_duration > 0 ==> {
            &&& post.unapplied_slashes@.len() == pre.unapplied_slashes@.len() + 1
            &&& post.unapplied_slashes@.drop_last() == pre.unapplied_slashes@
            &&& post.unapplied_slashes@.last().validator == offender
            &&& post.unapplied_slashes@.last().own == own_incr
            &&& post.unapplied_slashes@.last().slash_era == slash_era
            &&& post.unapplied_slashes@.last().apply_era == spec_apply_era(
                slash_era,
                pre.cfg.slash_defer_duration,
            )
            &&& post.unapplied_slashes@.last().others@.len() == expo.others@.len()
            &&& (forall|i: int| 0 <= i < expo.others@.len() ==> {
                &&& (#[trigger] post.unapplied_slashes@.last().others@[i]).who
                    == expo.others@[i].who
                &&& post.unapplied_slashes@.last().others@[i].value == spec_slash_increment(
                    expo.others@[i].value,
                    fraction_parts as int,
                    prior,
                )
            })
            &&& post == (Staking {
                unapplied_slashes: post.unapplied_slashes,
                slashed_fraction: post.slashed_fraction,
                events: post.events,
                ..pre
            })
        })
    }
}

/// The state after each of a batch of offence reports, first report first.
pub open spec fn spec_offences_applied_along(
    trace: Seq<Staking>,
    offenders: Seq<OffenceDetails>,
    fractions: Seq<u32>,
    era: u64,
) -> bool {
    &&& trace.len() == offenders.len() + 1
    &&& forall|i: int| 0 <= i < offenders.len() ==> spec_slash_one_rel(
        #[trigger] trace[i],
        trace[i + 1],
        offenders[i].offender,
        fractions[i],
        era,
    )
}

/// Offence reports folded over a batch, first report first.
pub open spec fn spec_offences_applied(
    pre: Staking,
    post: Staking,
    offenders: Seq<OffenceDetails>,
    fractions: Seq<u32>,
    era: u64,
) -> bool {
    exists|trace: Seq<Staking>|
        #![trigger spec_offences_applied_along(trace, offenders, fractions, era)]
        {
            &&& spec_offences_applied_along(trace, offenders, fractions, era)
            &&& trace.first() == pre
            &&& trace.last() == post
        }
}

/// The pending slashes that survive canceling `era` for `cancel`, in order.
pub open spec fn spec_kept_pending(
    s: Seq<UnappliedSlash>,
    era: u64,
    cancel: Seq<u64>,
) -> Seq<UnappliedSlash>
    decreases s.len(),
{
    if s.len() == 0 {
        Seq::empty()
    } else {
        let rest = spec_kept_pending(s.drop_first(), era, cancel);
        if s.first().slash_era == era && cancel.contains(s.first().validator) {
            rest
        } else {
            seq![s.first()] + rest
        }
    }
}

/// The pending slashes still waiting after every slash due by `era` landed.
pub open spec fn spec_still_pending(s: Seq<UnappliedSlash>, era: u64) -> Seq<UnappliedSlash>
    decreases s.len(),
{
    if s.len() == 0 {
        Seq::empty()
    } else {
        let rest = spec_still_pending(s.drop_first(), era);
        if s.first().apply_era <= era {
            rest
        } else {
            seq![s.first()] + rest
        }
    }
}



/// The pending slashes due by `era`, in queue order.
pub open spec fn spec_due_pending(s: Seq<UnappliedSlash>, era: u64) -> Seq<UnappliedSlash>
    decreases s.len(),
{
    if s.len() == 0 {
        Seq::empty()
    } else {
        let rest = spec_due_pending(s.drop_first(), era);
        if s.first().apply_era <= era {
            seq![s.first()] + rest
        } else {
            rest
        }
    }
}

/// One recorded slash landed: the validator's own amount first, then each
/// backer's recorded amount, every reduction capped at the active stake.
pub open spec fn spec_pending_landed(pre: Staking, post: Staking, item: UnappliedSlash) -> bool {
    exists|mid: Staking|
        #![trigger spec_slash_applied(pre, mid, item.validator, item.own, item.slash_era)]
        {
            &&& spec_slash_applied(pre, mid, item.validator, item.own, item.slash_era)
            &&& spec_amounts_slashed(mid, post, item.others@, item.slash_era)
        }
}

/// The state after landing each due slash in processing order: the most
/// recently queued first.
pub open spec fn spec_due_landed_along(trace: Seq<Staking>, due: Seq<UnappliedSlash>) -> bool {
    &&& trace.len() == due.len() + 1
    &&& forall|i: int| 0 <= i < due.len() ==> spec_pending_landed(
        #[trigger] trace[i],
        trace[i + 1],
        due[due.len() - 1 - i],
    )
}

/// Two states that agree on everything but the pending-slash queue, whose
/// own evolution the caller pins separately.
pub open spec fn spec_same_but_queue(a: Staking, b: Staking) -> bool {
    a == (Staking { unapplied_slashes: a.unapplied_slashes, ..b })
}

/// Every due slash landed, most recently queued first. The chain tracks
/// ledgers, listener and events; the queue itself is stated separately.
pub open spec fn spec_due_landed(pre: Staking, post: Staking, due: Seq<UnappliedSlash>) -> bool {
    exists|trace: Seq<Staking>|
        #![trigger spec_due_landed_along(trace, due)]
        {
            &&& spec_due_landed_along(trace, due)
            &&& spec_same_but_queue(trace.first(), pre)
            &&& spec_same_but_queue(trace.last(), post)
        }
}

/// A reported offence, as the external report source hands it over.
pub fn offence_from(offender: u64, reporters: Option<Vec<u64>>) -> (r: OffenceDetails)
    ensures
        r.offender == offender,
        match reporters {
            Some(v) => r.reporters == v,
            None => r.reporters@ == Seq::<u64>::empty(),
        },
{
    match reporters {
        Some(v) => OffenceDetails { offender, reporters: v },
        None => OffenceDetails { offender, reporters: Vec::new() },
    }
}

impl Staking {
    /// Reduce a stash's ledger by up to `amount`, never below zero, and
    /// notify the slash listener. Returns what was actually taken.
    fn apply_slash_amount(&mut self, stash: u64, amount: u64, era: u64) -> (applied: u64)
        requires
            wf_base(*old(self)),
        ensures
            wf_base(*final(self)),
            registry_wf(*old(self)) ==> registry_wf(*final(self)),
            applied == spec_slash_took(*old(self), stash, amount),
            spec_slash_applied(*old(self), *final(self), stash, amount, era),
            applied == 0 ==> *final(self) == *old(self),
            *final(self) == (Staking {
                ledgers: final(self).ledgers,
                listener: final(self).listener,
                events: final(self).events,
                ..*old(self)
            }),
    {
        let c = match self.bonded.get(stash) {
            Some(c) => *c,
            None => {
                return 0;
            },
        };
        let active0 = match self.ledgers.get(c) {
            Some(l) => {
                if crate::registry::ledger_sane(l) {
                    Some(l.active)
                } else {
                    None
                }
            },
            None => None,
        };
        let active = match active0 {
            Some(a) => a,
            None => {
                return 0;
            },
        };
        let will = if amount <= active {
            amount
        } else {
            active
        };
        if will == 0 {
            return 0;
        }
        let mut ledger = match self.ledgers.take(c) {
            Some(l) => l,
            None => {
                proof {
                    assert(false);
                }
                return 0;
            },
        };
        let applied = ledger.slash_active(amount);
        let new_active = ledger.active;
        self.ledgers.insert(c, ledger);
        let prev = match self.listener.slash_observer.get(stash) {
            Some(x) => *x,
            None => 0,
        };
        self.listener.slash_observer.insert(stash, prev.saturating_add(applied));
        self.listener.last_slashed_bonded = new_active;
        self.listener.last_slashed_total = applied;
        self.listener.last_slashed_era = era;
        self.deposit_event(Event::Slashed { staker: stash, amount: applied });
        proof {
            assert(self.ledgers.m() =~= old(self).ledgers.m().insert(c, self.ledgers.m()[c]));
            assert(self.ledgers.m().dom() =~= old(self).ledgers.m().dom());
            if registry_wf(*old(self)) {
                crate::registry::lemma_registry_update_same_stash(*old(self), *self, c);
            }
        }
        applied
    }
}

impl Staking {
    /// Process one offence report against one validator for one era: keep
    /// only the highest fraction per (era, stash), apportion the increment
    /// over the offender's exposure, and apply it at once or queue it behind
    /// the deferral window. Invulnerable validators and eras without an
    /// exposure for the offender are left untouched.
    pub fn slash_one(&mut self, offender: u64, fraction_parts: u32, slash_era: u64)
        requires
            wf_base(*old(self)),
            fraction_parts <= FRAC_DEN,
        ensures
            wf_base(*final(self)),
            registry_wf(*old(self)) ==> registry_wf(*final(self)),
            spec_slash_one_rel(*old(self), *final(self), offender, fraction_parts, slash_era),
    {
        if crate::state::vec_contains(&self.invulnerables, offender) {
            return ;
        }
        let prior_raw = match self.slashed_fraction.get((slash_era, offender)) {
            Some(x) => *x,
            None => 0,
        };
        let prior = if prior_raw <= FRAC_DEN {
            prior_raw
        } else {
            FRAC_DEN
        };
        if fraction_parts <= prior {
            return ;
        }
        let (e_own, e_len) = match self.eras_exposure.get((slash_era, offender)) {
            Some(e) => (e.own, e.others.len()),
            None => {
                return ;
            },
        };
        self.slashed_fraction.insert((slash_era, offender), fraction_parts);
        let ghost slashed_after = self.slashed_fraction;
        self.deposit_event(
            Event::SlashReported { validator: offender, fraction_parts, slash_era },
        );
        let f = Frac::from_parts(fraction_parts);
        let pf = Frac::from_parts(prior);
        proof {
            crate::frac::lemma_share_monotone(
                e_own as int,
                prior as int,
                fraction_parts as int,
                FRAC_DEN as int,
            );
        }
        let own_incr = f.mul_floor(e_own) - pf.mul_floor(e_own);
        let defer = self.cfg.slash_defer_duration;
        if defer == 0 {
            // Recording stage: the raised fraction, the report, the
            // disablement.
            let nv = self.session_validators.len();
            let limit = if nv == 0 {
                0
            } else if nv / 3 == 0 {
                1
            } else {
                nv / 3
            };
            if !crate::state::vec_contains(&self.disabled, offender) && self.disabled.len()
                < limit {
                self.disabled.push(offender);
            }
            let ghost mid1 = *self;
            proof {
                assert(spec_offence_recorded(*old(self), mid1, offender, fraction_parts, slash_era));
            }
            // The offender's own stake.
            let _ = self.apply_slash_amount(offender, own_incr, slash_era);
            let ghost mid2 = *self;
            let ghost others_seq = old(self).eras_exposure.m()[(slash_era, offender)].others@;
            let ghost mut trace: Seq<Staking> = seq![mid2];
            proof {
                assert(own_incr as int == spec_slash_increment(
                    e_own,
                    fraction_parts as int,
                    prior as int,
                ));
                assert(spec_slash_applied(mid1, mid2, offender, own_incr, slash_era));
                assert(others_seq.take(0) =~= Seq::<IndividualExposure>::empty());
                assert(spec_backers_slashed_along(
                    trace,
                    others_seq.take(0),
                    fraction_parts as int,
                    prior as int,
                    slash_era,
                ));
            }
            // Each backer, pro rata within the exposure.
            let mut i: usize = 0;
            while i < e_len
                invariant
                    wf_base(*self),
                    registry_wf(*old(self)) ==> registry_wf(*self),
                    i <= e_len,
                    self.eras_exposure == old(self).eras_exposure,
                    self.eras_exposure.m().contains_key((slash_era, offender)),
                    others_seq == old(self).eras_exposure.m()[(slash_era, offender)].others@,
                    e_len == others_seq.len(),
                    fraction_parts > prior,
                    prior <= FRAC_DEN,
                    prior == spec_prior_fraction(*old(self), slash_era, offender),
                    f.wf() && pf.wf(),
                    f.spec_parts() == fraction_parts,
                    pf.spec_parts() == prior,
                    trace.len() == i + 1,
                    trace.first() == mid2,
                    trace.last() == *self,
                    spec_backers_slashed_along(
                        trace,
                        others_seq.take(i as int),
                        fraction_parts as int,
                        prior as int,
                        slash_era,
                    ),
                    *self == (Staking {
                        ledgers: self.ledgers,
                        listener: self.listener,
                        events: self.events,
                        disabled: self.disabled,
                        slashed_fraction: self.slashed_fraction,
                        ..*old(self)
                    }),
                    old(self).events@.len() < self.events@.len(),
                    self.events@[old(self).events@.len() as int] == (Event::SlashReported {
                        validator: offender,
                        fraction_parts,
                        slash_era,
                    }),
                    self.slashed_fraction == slashed_after,
                decreases e_len - i,
            {
                let (who, value) = {
                    let e = match self.eras_exposure.get((slash_era, offender)) {
                        Some(e) => e,
                        None => {
                            proof {
                                assert(false);
                            }
                            return ;
                        },
                    };
                    (e.others[i].who, e.others[i].value)
                };
                proof {
                    crate::frac::lemma_share_monotone(
                        value as int,
                        prior as int,
                        fraction_parts as int,
                        FRAC_DEN as int,
                    );
                }
                let incr = f.mul_floor(value) - pf.mul_floor(value);
                let ghost prev = *self;
                let ghost prev_trace = trace;
                let _ = self.apply_slash_amount(who, incr, slash_era);
                proof {
                    trace = trace.push(*self);
                    assert(incr as int == spec_slash_increment(
                        value as u64,
                        fraction_parts as int,
                        prior as int,
                    ));
                    assert(spec_slash_applied(
                        prev,
                        *self,
                        others_seq[i as int].who,
                        spec_slash_increment(
                            others_seq[i as int].value,
                            fraction_parts as int,
                            prior as int,
                        ) as u64,
                        slash_era,
                    ));
                    assert forall|j: int| 0 <= j < i + 1 implies spec_slash_applied(
                        #[trigger] trace[j],
                        trace[j + 1],
                        others_seq.take(i as int + 1)[j].who,
                        spec_slash_increment(
                            others_seq.take(i as int + 1)[j].value,
                            fraction_parts as int,
                            prior as int,
                        ) as u64,
                        slash_era,
                    ) by {
                        if j < i {
                            assert(trace[j] == prev_trace[j]);
                            assert(trace[j + 1] == prev_trace[j + 1]);
                            assert(others_seq.take(i as int)[j] == others_seq.take(
                                i as int + 1,
                            )[j]);
                            assert(spec_slash_applied(
                                prev_trace[j],
                                prev_trace[j + 1],
                                others_seq.take(i as int)[j].who,
                                spec_slash_increment(
                                    others_seq.take(i as int)[j].value,
                                    fraction_parts as int,
                                    prior as int,
                                ) as u64,
                                slash_era,
                            ));
                        } else {
                            assert(trace[j] == prev);
                            assert(trace[j + 1] == *self);
                            assert(others_seq.take(i as int + 1)[j] == others_seq[i as int]);
                        }
                    }
                    assert(spec_backers_slashed_along(
                        trace,
                        others_seq.take(i as int + 1),
                        fraction_parts as int,
                        prior as int,
                        slash_era,
                    ));
                }
                i = i + 1;
            }
            proof {
                assert(others_seq.take(e_len as int) =~= others_seq);
                assert(spec_backers_slashed_along(
                    trace,
                    others_seq,
                    fraction_parts as int,
                    prior as int,
                    slash_era,
                ));
                assert(spec_backers_slashed(
                    mid2,
                    *self,
                    others_seq,
                    fraction_parts as int,
                    prior as int,
                    slash_era,
                ));
                assert(spec_offence_recorded(*old(self), mid1, offender, fraction_parts, slash_era)
                    && spec_slash_applied(mid1, mid2, offender, own_incr, slash_era)
                    && spec_backers_slashed(
                    mid2,
                    *self,
                    others_seq,
                    fraction_parts as int,
                    prior as int,
                    slash_era,
                ));
            }
        } else {
            let mut others: Vec<IndividualExposure> = Vec::new();
            let mut i: usize = 0;
            while i < e_len
                invariant
                    wf_base(*self),
                    i <= e_len,
                    self.eras_exposure == old(self).eras_exposure,
                    self.eras_exposure.m().contains_key((slash_era, offender)),
                    e_len == self.eras_exposure.m()[(slash_era, offender)].others@.len(),
                    fraction_parts > prior,
                    prior <= FRAC_DEN,
                    f.wf() && pf.wf(),
                    f.spec_parts() == fraction_parts,
                    pf.spec_parts() == prior,
                    others@.len() == i,
                    forall|j: int| 0 <= j < i ==> {
                        &&& (#[trigger] others@[j]).who == self.eras_exposure.m()[
                            (slash_era, offender)].others@[j].who
                        &&& others@[j].value == spec_slash_increment(
                            self.eras_exposure.m()[(slash_era, offender)].others@[j].value,
                            fraction_parts as int,
                            prior as int,
                        )
                    },
                    *self == (Staking {
                        slashed_fraction: self.slashed_fraction,
                        events: self.events,
                        ..*old(self)
                    }),
                    old(self).events@.len() < self.events@.len(),
                    self.events@[old(self).events@.len() as int] == (Event::SlashReported {
                        validator: offender,
                        fraction_parts,
                        slash_era,
                    }),
                    self.slashed_fraction == slashed_after,
                decreases e_len - i,
            {
                let (who, value) = {
                    let e = match self.eras_exposure.get((slash_era, offender)) {
                        Some(e) => e,
                        None => {
                            proof {
                                assert(false);
                            }
                            return ;
                        },
                    };
                    (e.others[i].who, e.others[i].value)
                };
                proof {
                    crate::frac::lemma_share_monotone(
                        value as int,
                        prior as int,
                        fraction_parts as int,
                        FRAC_DEN as int,
                    );
                }
                let incr = f.mul_floor(value) - pf.mul_floor(value);
                others.push(IndividualExposure { who, value: incr });
                i = i + 1;
            }
            let apply_era = slash_era.saturating_add(defer);
            self.unapplied_slashes.push(
                UnappliedSlash { validator: offender, own: own_incr, others, slash_era, apply_era },
            );
            proof {
                assert(self.unapplied_slashes@.drop_last() =~= old(self).unapplied_slashes@);
            }
        }
    }
}

impl Staking {
    /// Whether the bonded-eras window still retains `era`.
    pub fn bonded_eras_retains(&self, era: u64) -> (r: bool)
        ensures
            r == exists|i: int| 0 <= i < self.bonded_eras@.len() && (#[trigger] self.bonded_eras@[
                i]).0 == era,
    {
        let n = self.bonded_eras.len();
        let mut i: usize = 0;
        while i < n
            invariant
                n == self.bonded_eras@.len(),
                i <= n,
                forall|j: int| 0 <= j < i ==> (#[trigger] self.bonded_eras@[j]).0 != era,
            decreases n - i,
        {
            if self.bonded_eras[i].0 == era {
                return true;
            }
            i = i + 1;
        }
        false
    }

    /// Report offences against `era`. The era must still sit in the
    /// bonded-eras window, or be the active era itself; anything older
    /// fails with `EraTooOld` and changes nothing.
    pub fn on_offence_in_era(
        &mut self,
        offenders: &Vec<OffenceDetails>,
        fractions: &Vec<u32>,
        era: u64,
    ) -> (r: Result<(), Error>)
        requires
            wf_base(*old(self)),
            offenders@.len() == fractions@.len(),
            forall|i: int| 0 <= i < fractions@.len() ==> (#[trigger] fractions@[i]) <= FRAC_DEN,
        ensures
            wf_base(*final(self)),
            registry_wf(*old(self)) ==> registry_wf(*final(self)),
            r is Ok <==> (exists|i: int| 0 <= i < old(self).bonded_eras@.len()
                && (#[trigger] old(self).bonded_eras@[i]).0 == era) || era == old(self).active_era,
            r is Ok ==> spec_offences_applied(
                *old(self),
                *final(self),
                offenders@,
                fractions@,
                era,
            ),
            r is Err ==> *final(self) == *old(self) && r == Err::<(), Error>(Error::EraTooOld),
    {
        if !self.bonded_eras_retains(era) && era != self.active_era {
            return Err(Error::EraTooOld);
        }
        let ghost mut trace: Seq<Staking> = seq![*old(self)];
        proof {
            assert(offenders@.take(0) =~= Seq::<OffenceDetails>::empty());
            assert(fractions@.take(0) =~= Seq::<u32>::empty());
            assert(spec_offences_applied_along(trace, offenders@.take(0), fractions@.take(0), era));
        }
        let n = offenders.len();
        let mut i: usize = 0;
        while i < n
            invariant
                wf_base(*self),
                registry_wf(*old(self)) ==> registry_wf(*self),
                n == offenders@.len(),
                offenders@.len() == fractions@.len(),
                forall|j: int| 0 <= j < fractions@.len() ==> (#[trigger] fractions@[j])
                    <= FRAC_DEN,
                i <= n,
                trace.len() == i + 1,
                trace.first() == *old(self),
                trace.last() == *self,
                spec_offences_applied_along(
                    trace,
                    offenders@.take(i as int),
                    fractions@.take(i as int),
                    era,
                ),
            decreases n - i,
        {
            let ghost prev = *self;
            let ghost prev_trace = trace;
            self.slash_one(offenders[i].offender, fractions[i], era);
            proof {
                trace = trace.push(*self);
                assert forall|j: int| 0 <= j < i + 1 implies spec_slash_one_rel(
                    #[trigger] trace[j],
                    trace[j + 1],
                    offenders@.take(i as int + 1)[j].offender,
                    fractions@.take(i as int + 1)[j],
                    era,
                ) by {
                    if j < i {
                        assert(trace[j] == prev_trace[j]);
                        assert(trace[j + 1] == prev_trace[j + 1]);
                        assert(offenders@.take(i as int)[j] == offenders@.take(i as int + 1)[j]);
                        assert(fractions@.take(i as int)[j] == fractions@.take(i as int + 1)[j]);
                        assert(spec_slash_one_rel(
                            prev_trace[j],
                            prev_trace[j + 1],
                            offenders@.take(i as int)[j].offender,
                            fractions@.take(i as int)[j],
                            era,
                        ));
                    } else {
                        assert(trace[j] == prev);
                        assert(trace[j + 1] == *self);
                        assert(offenders@.take(i as int + 1)[j] == offenders@[i as int]);
                        assert(fractions@.take(i as int + 1)[j] == fractions@[i as int]);
                    }
                }
                assert(spec_offences_applied_along(
                    trace,
                    offenders@.take(i as int + 1),
                    fractions@.take(i as int + 1),
                    era,
                ));
            }
            i = i + 1;
        }
        proof {
            assert(offenders@.take(n as int) =~= offenders@);
            assert(fractions@.take(n as int) =~= fractions@);
            assert(spec_offences_applied_along(trace, offenders@, fractions@, era));
            assert(spec_offences_applied(*old(self), *final(self), offenders@, fractions@, era));
        }
        Ok(())
    }

    /// Report offences against the active era: exactly `on_offence_in_era`
    /// at the active era, which the bonded-eras window check always admits.
    pub fn on_offence_now(&mut self, offenders: &Vec<OffenceDetails>, fractions: &Vec<u32>) -> (r:
        Result<(), Error>)
        requires
            wf_base(*old(self)),
            offenders@.len() == fractions@.len(),
            forall|i: int| 0 <= i < fractions@.len() ==> (#[trigger] fractions@[i]) <= FRAC_DEN,
        ensures
            wf_base(*final(self)),
            registry_wf(*old(self)) ==> registry_wf(*final(self)),
            r is Ok,
            spec_offences_applied(
                *old(self),
                *final(self),
                offenders@,
                fractions@,
                old(self).active_era,
            ),
    {
        let era = self.active_era;
        self.on_offence_in_era(offenders, fractions, era)
    }

    /// Report a single offender at ten percent against the active era.
    pub fn add_slash(&mut self, who: u64)
        requires
            wf_base(*old(self)),
        ensures
            wf_base(*final(self)),
            registry_wf(*old(self)) ==> registry_wf(*final(self)),
            spec_slash_one_rel(
                *old(self),
                *final(self),
                who,
                100_000_000,
                old(self).active_era,
            ),
    {
        let mut offenders: Vec<OffenceDetails> = Vec::new();
        offenders.push(offence_from(who, None));
        let mut fractions: Vec<u32> = Vec::new();
        fractions.push(Frac::from_percent(10).parts());
        let _ = self.on_offence_now(&offenders, &fractions);
        proof {
            let tr = choose|tr: Seq<Staking>|
                #![trigger spec_offences_applied_along(tr, offenders@, fractions@, old(self).active_era)]
                {
                    &&& spec_offences_applied_along(
                        tr,
                        offenders@,
                        fractions@,
                        old(self).active_era,
                    )
                    &&& tr.first() == *old(self)
                    &&& tr.last() == *final(self)
                };
            assert(tr.len() == 2);
            assert(tr[0] == *old(self) && tr[1] == *final(self));
            assert(spec_slash_one_rel(
                tr[0],
                tr[1],
                offenders@[0].offender,
                fractions@[0],
                old(self).active_era,
            ));
        }
    }

    /// Cancel every deferred slash of `era` whose offender is listed.
    pub fn cancel_deferred_slash(&mut self, era: u64, stashes: &Vec<u64>)
        requires
            wf_base(*old(self)),
        ensures
            wf_base(*final(self)),
            registry_wf(*old(self)) ==> registry_wf(*final(self)),
            final(self).unapplied_slashes@ == spec_kept_pending(
                old(self).unapplied_slashes@,
                era,
                stashes@,
            ),
            *final(self) == (Staking {
                unapplied_slashes: final(self).unapplied_slashes,
                ..*old(self)
            }),
    {
        let ghost orig = self.unapplied_slashes@;
        let mut kept: Vec<UnappliedSlash> = Vec::new();
        let mut j: usize = self.unapplied_slashes.len();
        proof {
            assert(orig.skip(orig.len() as int) =~= Seq::<UnappliedSlash>::empty());
            assert(self.unapplied_slashes@ =~= orig.take(orig.len() as int));
        }
        while j > 0
            invariant
                wf_base(*self),
                j <= orig.len(),
                self.unapplied_slashes@ == orig.take(j as int),
                kept@ == spec_kept_pending(orig.skip(j as int), era, stashes@),
                *self == (Staking {
                    unapplied_slashes: self.unapplied_slashes,
                    ..*old(self)
                }),
            decreases j,
        {
            let item = match self.unapplied_slashes.pop() {
                Some(x) => x,
                None => {
                    proof {
                        assert(false);
                    }
                    return ;
                },
            };
            j = j - 1;
            proof {
                assert(orig.take(j as int + 1).drop_last() =~= orig.take(j as int));
                assert(item == orig[j as int]);
                assert(orig.skip(j as int).drop_first() =~= orig.skip(j as int + 1));
                assert(orig.skip(j as int).first() == orig[j as int]);
            }
            let cancel = item.slash_era == era && crate::state::vec_contains(
                stashes,
                item.validator,
            );
            if !cancel {
                kept.insert(0, item);
                proof {
                    assert(kept@ =~= seq![orig[j as int]] + spec_kept_pending(
                        orig.skip(j as int + 1),
                        era,
                        stashes@,
                    ));
                }
            }
        }
        self.unapplied_slashes = kept;
        proof {
            assert(orig.skip(0) =~= orig);
        }
    }

    /// Land every deferred slash due by `era`: each one reduces the
    /// offender's and its backers' ledgers by the recorded amounts, capped
    /// at their active stakes. The rest keep waiting, in order.
    #[verifier::rlimit(100)]
    pub fn apply_unapplied_slashes(&mut self, era: u64)
        requires
            wf_base(*old(self)),
        ensures
            wf_base(*final(self)),
            registry_wf(*old(self)) ==> registry_wf(*final(self)),
            final(self).unapplied_slashes@ == spec_still_pending(
                old(self).unapplied_slashes@,
                era,
            ),
            spec_due_landed(
                *old(self),
                *final(self),
                spec_due_pending(old(self).unapplied_slashes@, era),
            ),
            old(self).unapplied_slashes@.len() == 0 ==> final(self).ledgers == old(self).ledgers
                && final(self).listener == old(self).listener && final(self).events == old(
                self,
            ).events && final(self).unapplied_slashes@.len() == 0,
            *final(self) == (Staking {
                unapplied_slashes: final(self).unapplied_slashes,
                ledgers: final(self).ledgers,
                listener: final(self).listener,
                events: final(self).events,
                ..*old(self)
            }),
    {
        let ghost orig = self.unapplied_slashes@;
        let mut kept: Vec<UnappliedSlash> = Vec::new();
        let mut j: usize = self.unapplied_slashes.len();
        let ghost mut otrace: Seq<Staking> = seq![*old(self)];
        proof {
            assert(orig.skip(orig.len() as int) =~= Seq::<UnappliedSlash>::empty());
            assert(self.unapplied_slashes@ =~= orig.take(orig.len() as int));
            assert(spec_due_landed_along(otrace, spec_due_pending(orig.skip(j as int), era)));
        }
        while j > 0
            invariant
                wf_base(*self),
                registry_wf(*old(self)) ==> registry_wf(*self),
                orig.len() == 0 ==> self.ledgers == old(self).ledgers && self.listener == old(
                    self,
                ).listener && self.events == old(self).events,
                j <= orig.len(),
                self.unapplied_slashes@ == orig.take(j as int),
                kept@ == spec_still_pending(orig.skip(j as int), era),
                otrace.len() == spec_due_pending(orig.skip(j as int), era).len() + 1,
                otrace.first() == *old(self),
                spec_same_but_queue(otrace.last(), *self),
                spec_due_landed_along(otrace, spec_due_pending(orig.skip(j as int), era)),
                *self == (Staking {
                    unapplied_slashes: self.unapplied_slashes,
                    ledgers: self.ledgers,
                    listener: self.listener,
                    events: self.events,
                    ..*old(self)
                }),
            decreases j,
        {
            let item = match self.unapplied_slashes.pop() {
                Some(x) => x,
                None => {
                    proof {
                        assert(false);
                    }
                    return ;
                },
            };
            j = j - 1;
            proof {
                assert(orig.take(j as int + 1).drop_last() =~= orig.take(j as int));
                assert(item == orig[j as int]);
                assert(orig.skip(j as int).drop_first() =~= orig.skip(j as int + 1));
                assert(orig.skip(j as int).first() == orig[j as int]);
            }
            if item.apply_era <= era {
                let ghost land_pre = otrace.last();
                let ghost popped = *self;
                let _ = self.apply_slash_amount(item.validator, item.own, item.slash_era);
                proof {
                    assert(spec_slash_applied(
                        popped,
                        *self,
                        item.validator,
                        item.own,
                        item.slash_era,
                    ));
                    assert(spec_slash_applied(
                        land_pre,
                        *self,
                        item.validator,
                        item.own,
                        item.slash_era,
                    ));
                }
                let ghost imid = *self;
                let ghost mut itrace: Seq<Staking> = seq![imid];
                proof {
                    assert(item.others@.take(0) =~= Seq::<IndividualExposure>::empty());
                    assert(spec_amounts_slashed_along(itrace, item.others@.take(0), item.slash_era));
                }
                let nb = item.others.len();
                let mut b: usize = 0;
                while b < nb
                    invariant
                        wf_base(*self),
                        registry_wf(*old(self)) ==> registry_wf(*self),
                        nb == item.others@.len(),
                        b <= nb,
                        j <= orig.len(),
                        self.unapplied_slashes@ == orig.take(j as int),
                        itrace.len() == b + 1,
                        itrace.first() == imid,
                        itrace.last() == *self,
                        spec_amounts_slashed_along(
                            itrace,
                            item.others@.take(b as int),
                            item.slash_era,
                        ),
                        *self == (Staking {
                            unapplied_slashes: self.unapplied_slashes,
                            ledgers: self.ledgers,
                            listener: self.listener,
                            events: self.events,
                            ..*old(self)
                        }),
                    decreases nb - b,
                {
                    let ghost prev = *self;
                    let ghost prev_itrace = itrace;
                    let _ = self.apply_slash_amount(
                        item.others[b].who,
                        item.others[b].value,
                        item.slash_era,
                    );
                    proof {
                        itrace = itrace.push(*self);
                        assert forall|q: int| 0 <= q < b + 1 implies spec_slash_applied(
                            #[trigger] itrace[q],
                            itrace[q + 1],
                            item.others@.take(b as int + 1)[q].who,
                            item.others@.take(b as int + 1)[q].value,
                            item.slash_era,
                        ) by {
                            if q < b {
                                assert(itrace[q] == prev_itrace[q]);
                                assert(itrace[q + 1] == prev_itrace[q + 1]);
                                assert(item.others@.take(b as int)[q] == item.others@.take(
                                    b as int + 1,
                                )[q]);
                            } else {
                                assert(itrace[q] == prev);
                                assert(itrace[q + 1] == *self);
                                assert(item.others@.take(b as int + 1)[q] == item.others@[
                                    b as int]);
                            }
                        }
                        assert(spec_amounts_slashed_along(
                            itrace,
                            item.others@.take(b as int + 1),
                            item.slash_era,
                        ));
                    }
                    b = b + 1;
                }
                proof {
                    assert(item.others@.take(nb as int) =~= item.others@);
                    assert(spec_amounts_slashed(imid, *self, item.others@, item.slash_era));
                    assert(spec_pending_landed(land_pre, *self, item));
                    let ghost prev_otrace = otrace;
                    otrace = otrace.push(*self);
                    let dnew = spec_due_pending(orig.skip(j as int), era);
                    let dold = spec_due_pending(orig.skip(j as int + 1), era);
                    assert(dnew =~= seq![item] + dold);
                    assert forall|i: int| 0 <= i < dnew.len() implies spec_pending_landed(
                        #[trigger] otrace[i],
                        otrace[i + 1],
                        dnew[dnew.len() - 1 - i],
                    ) by {
                        if i < dold.len() {
                            assert(otrace[i] == prev_otrace[i]);
                            assert(otrace[i + 1] == prev_otrace[i + 1]);
                            assert(dnew[dnew.len() - 1 - i] == dold[dold.len() - 1 - i]);
                        } else {
                            assert(otrace[i] == land_pre);
                            assert(otrace[i + 1] == *self);
                            assert(dnew[dnew.len() - 1 - i] == item);
                        }
                    }
                    assert(spec_due_landed_along(otrace, dnew));
                }
            } else {
                kept.insert(0, item);
                proof {
                    assert(kept@ =~= seq![orig[j as int]] + spec_still_pending(
                        orig.skip(j as int + 1),
                        era,
                    ));
                }
            }
        }
        self.unapplied_slashes = kept;
        proof {
            assert(orig.skip(0) =~= orig);
            assert(spec_due_landed_along(
                otrace,
                spec_due_pending(old(self).unapplied_slashes@, era),
            ));
            assert(spec_due_landed(
                *old(self),
                *final(self),
                spec_due_pending(old(self).unapplied_slashes@, era),
            ));
        }
    }
}

} // verus!
