//! Validator candidacy and nominations: who offers to validate with what
//! commission, and who backs whom with how much.

use vstd::prelude::*;
use crate::state::Staking;
use crate::state::WeightedNominationsQuota;
use crate::state::wf_base;
use crate::state::registry_wf;
use crate::types::Error;
use crate::types::Event;
use crate::types::LedgerShape;
use crate::types::RewardDestination;
use crate::types::UnlockChunk;
use crate::types::ValidatorPrefs;
use crate::types::ledger_wf;

verus! {

/// How many targets a nominator with this active stake may name.
pub open spec fn spec_quota(active: u64, max_nominations: usize) -> int {
    let curve: int = if active <= 110 {
        16
    } else if active == 111 {
        0
    } else if active == 222 {
        2
    } else if active == 333 {
        26
    } else {
        16
    };
    if curve <= max_nominations as int {
        curve
    } else {
        max_nominations as int
    }
}

impl Staking {
    /// Whether the stash is bonded with a sound ledger; its active stake.
    pub open spec fn spec_active_of(&self, stash: u64) -> Option<u64> {
        if self.bonded.m().contains_key(stash) && self.ledgers.m().contains_key(
            self.bonded.m()[stash],
        ) {
            Some(self.ledgers.m()[self.bonded.m()[stash]]@.active)
        } else {
            None
        }
    }

    /// Active stake of a bonded stash, or `None`.
    pub fn active_of(&self, stash: u64) -> (r: Option<u64>)
        requires
            wf_base(*self),
        ensures
            r == self.spec_active_of(stash),
    {
        let c = match self.bonded.get(stash) {
            Some(c) => *c,
            None => {
                return None;
            },
        };
        match self.ledgers.get(c) {
            Some(l) => Some(l.active),
            None => None,
        }
    }

    /// Declare the stash a validator candidate with the given preferences.
    /// Refused for unbonded, restricted, or under-bonded stashes.
    pub fn validate(&mut self, stash: u64, prefs: ValidatorPrefs) -> (r: Result<(), Error>)
        requires
            wf_base(*old(self)),
        ensures
            wf_base(*final(self)),
            registry_wf(*old(self)) ==> registry_wf(*final(self)),
            r is Ok <==> old(self).spec_active_of(stash) is Some && !old(
                self,
            ).restricted.list@.contains(stash) && old(self).spec_active_of(stash).unwrap() >= old(
                self,
            ).cfg.min_validator_bond,
            match r {
                Ok(()) => {
                    &&& final(self).validators.m() == old(self).validators.m().insert(stash, prefs)
                    &&& final(self).nominators.m() == old(self).nominators.m().remove(stash)
                    &&& final(self).events@ == old(self).events@.push(
                        Event::ValidatorPrefsSet { stash, commission_parts: prefs.commission_parts },
                    )
                    &&& *final(self) == (Staking {
                        validators: final(self).validators,
                        nominators: final(self).nominators,
                        events: final(self).events,
                        ..*old(self)
                    })
                },
                Err(e) => {
                    &&& *final(self) == *old(self)
                    &&& (e == Error::Restricted <==> old(self).restricted.list@.contains(stash))
                },
            },
    {
        if self.restricted.contains(stash) {
            return Err(Error::Restricted);
        }
        let active = match self.active_of(stash) {
            Some(a) => a,
            None => {
                return Err(Error::NotStash);
            },
        };
        if active < self.cfg.min_validator_bond {
            return Err(Error::BondTooLow);
        }
        self.validators.insert(stash, prefs);
        self.nominators.remove(stash);
        self.deposit_event(
            Event::ValidatorPrefsSet { stash, commission_parts: prefs.commission_parts },
        );
        Ok(())
    }

    /// Back the given targets with the stash's active stake. Refused for
    /// unbonded, restricted or under-bonded stashes, for an empty target
    /// list, and for more targets than the balance-keyed quota allows.
    pub fn nominate(&mut self, stash: u64, targets: Vec<u64>) -> (r: Result<(), Error>)
        requires
            wf_base(*old(self)),
        ensures
            wf_base(*final(self)),
            registry_wf(*old(self)) ==> registry_wf(*final(self)),
            r is Ok <==> {
                &&& old(self).spec_active_of(stash) is Some
                &&& !old(self).restricted.list@.contains(stash)
                &&& old(self).spec_active_of(stash).unwrap() >= old(self).cfg.min_nominator_bond
                &&& targets@.len() > 0
                &&& targets@.len() <= spec_quota(
                    old(self).spec_active_of(stash).unwrap(),
                    old(self).cfg.max_nominations,
                )
            },
            match r {
                Ok(()) => {
                    &&& final(self).nominators.m() == old(self).nominators.m().insert(
                        stash,
                        targets,
                    )
                    &&& final(self).validators.m() == old(self).validators.m().remove(stash)
                    &&& *final(self) == (Staking {
                        validators: final(self).validators,
                        nominators: final(self).nominators,
                        ..*old(self)
                    })
                },
                Err(e) => {
                    &&& *final(self) == *old(self)
                    &&& (e == Error::EmptyTargets ==> targets@.len() == 0)
                    &&& (e == Error::Restricted <==> old(self).restricted.list@.contains(stash))
                },
            },
    {
        if self.restricted.contains(stash) {
            return Err(Error::Restricted);
        }
        let active = match self.active_of(stash) {
            Some(a) => a,
            None => {
                return Err(Error::NotStash);
            },
        };
        if active < self.cfg.min_nominator_bond {
            return Err(Error::BondTooLow);
        }
        if targets.len() == 0 {
            return Err(Error::EmptyTargets);
        }
        let curve = WeightedNominationsQuota::<16>::curve(active);
        let quota = if (curve as usize) <= self.cfg.max_nominations {
            curve as usize
        } else {
            self.cfg.max_nominations
        };
        if targets.len() > quota {
            return Err(Error::TooManyTargets);
        }
        self.nominators.insert(stash, targets);
        self.validators.remove(stash);
        Ok(())
    }

    /// The weight an external sorted-voter list ranks this stash by: its
    /// active stake, zero when unbonded.
    pub fn vote_weight(&self, stash: u64) -> (r: u64)
        requires
            wf_base(*self),
        ensures
            r == (match self.spec_active_of(stash) {
                Some(a) => a as int,
                None => 0int,
            }),
    {
        match self.active_of(stash) {
            Some(a) => a,
            None => 0,
        }
    }

    /// Fund `who` with `val`, bond it all, and declare it a candidate with
    /// default preferences. Succeeds exactly for a fresh, unrestricted
    /// account whose bond meets the validator minimum.
    pub fn bond_validator(&mut self, who: u64, val: u64) -> (r: Result<(), Error>)
        requires
            wf_base(*old(self)),
        ensures
            wf_base(*final(self)),
            registry_wf(*old(self)) ==> registry_wf(*final(self)),
            r is Ok <==> {
                &&& !old(self).bonded.m().contains_key(who)
                &&& !old(self).ledgers.m().contains_key(who)
                &&& !old(self).restricted.list@.contains(who)
                &&& val >= old(self).cfg.min_validator_bond
            },
            r is Ok ==> {
                &&& final(self).balances.m() == old(self).balances.m().insert(who, val)
                &&& final(self).bonded.m() == old(self).bonded.m().insert(who, who)
                &&& final(self).ledgers.m().contains_key(who)
                &&& final(self).ledgers.m()[who]@ == (LedgerShape {
                    stash: who,
                    total: val,
                    active: val,
                    unlocking: Seq::<UnlockChunk>::empty(),
                })
                &&& final(self).validators.m() == old(self).validators.m().insert(
                    who,
                    ValidatorPrefs { commission_parts: 0 },
                )
                &&& final(self).nominators.m() == old(self).nominators.m().remove(who)
                &&& final(self).payees.m() == old(self).payees.m().insert(
                    who,
                    RewardDestination::Stash,
                )
            },
    {
        self.set_balance(who, val);
        let bonded = self.bond(who, val, RewardDestination::Stash);
        if bonded.is_err() {
            return bonded;
        }
        self.validate(who, ValidatorPrefs { commission_parts: 0 })
    }

    /// Fund `who` with `val`, bond it all, and nominate `targets`. Succeeds
    /// exactly for a fresh, unrestricted account whose bond meets the
    /// nominator minimum, with a nonempty target list inside the quota.
    pub fn bond_nominator(&mut self, who: u64, val: u64, targets: Vec<u64>) -> (r: Result<
        (),
        Error,
    >)
        requires
            wf_base(*old(self)),
        ensures
            wf_base(*final(self)),
            registry_wf(*old(self)) ==> registry_wf(*final(self)),
            r is Ok <==> {
                &&& !old(self).bonded.m().contains_key(who)
                &&& !old(self).ledgers.m().contains_key(who)
                &&& !old(self).restricted.list@.contains(who)
                &&& val >= old(self).cfg.min_nominator_bond
                &&& targets@.len() > 0
                &&& targets@.len() <= spec_quota(val, old(self).cfg.max_nominations)
            },
            r is Ok ==> {
                &&& final(self).balances.m() == old(self).balances.m().insert(who, val)
                &&& final(self).bonded.m() == old(self).bonded.m().insert(who, who)
                &&& final(self).ledgers.m().contains_key(who)
                &&& final(self).ledgers.m()[who]@ == (LedgerShape {
                    stash: who,
                    total: val,
                    active: val,
                    unlocking: Seq::<UnlockChunk>::empty(),
                })
                &&& final(self).nominators.m() == old(self).nominators.m().insert(who, targets)
                &&& final(self).validators.m() == old(self).validators.m().remove(who)
            },
    {
        self.set_balance(who, val);
        let bonded = self.bond(who, val, RewardDestination::Stash);
        if bonded.is_err() {
            return bonded;
        }
        self.nominate(who, targets)
    }

    /// Step down from validating and nominating alike.
    pub fn chill(&mut self, stash: u64) -> (r: Result<(), Error>)
        requires
            wf_base(*old(self)),
        ensures
            wf_base(*final(self)),
            registry_wf(*old(self)) ==> registry_wf(*final(self)),
            r is Ok <==> old(self).bonded.m().contains_key(stash),
            match r {
                Ok(()) => {
                    &&& final(self).validators.m() == old(self).validators.m().remove(stash)
                    &&& final(self).nominators.m() == old(self).nominators.m().remove(stash)
                    &&& final(self).events@ == old(self).events@.push(Event::Chilled { stash })
                    &&& *final(self) == (Staking {
                        validators: final(self).validators,
                        nominators: final(self).nominators,
                        events: final(self).events,
                        ..*old(self)
                    })
                },
                Err(e) => e == Error::NotStash && *final(self) == *old(self),
            },
    {
        if !self.bonded.contains_key(stash) {
            return Err(Error::NotStash);
        }
        self.validators.remove(stash);
        self.nominators.remove(stash);
        self.deposit_event(Event::Chilled { stash });
        Ok(())
    }
}

} // verus!
