//! Administrative and repair paths: raw registry edits that deliberately skip
//! the caller checks, the one-time migration that collapses legacy
//! stash/controller chains, and the consistency pass that certifies — or
//! reports — the registry invariant.

use vstd::prelude::*;
use crate::registry::ledger_sane;
use crate::state::Staking;
use crate::state::wf_base;
use crate::state::registry_wf;
use crate::types::Error;
use crate::types::RewardDestination;
use crate::types::StakingLedger;
use crate::types::UnlockChunk;
use crate::types::ledger_wf;

verus! {

impl Staking {
    /// Pair `stash` with `controller` over an empty ledger, without the
    /// normal bonding path. Refused when the stash is already bonded or the
    /// controller already holds a ledger.
    pub fn bond_controller_stash(&mut self, controller: u64, stash: u64) -> (r: Result<(), Error>)
        requires
            wf_base(*old(self)),
        ensures
            wf_base(*final(self)),
            registry_wf(*old(self)) ==> registry_wf(*final(self)),
            r is Ok <==> !old(self).bonded.m().contains_key(stash) && !old(
                self,
            ).ledgers.m().contains_key(controller),
            match r {
                Ok(()) => {
                    &&& final(self).bonded.m() == old(self).bonded.m().insert(stash, controller)
                    &&& final(self).ledgers.m().dom() == old(self).ledgers.m().dom().insert(
                        controller,
                    )
                    &&& final(self).ledgers.m()[controller]@.stash == stash
                    &&& final(self).ledgers.m()[controller]@.total == 0
                    &&& final(self).ledgers.m()[controller]@.active == 0
                    &&& final(self).ledgers.m()[controller]@.unlocking == Seq::<
                        UnlockChunk,
                    >::empty()
                    &&& forall|c: u64|
                        c != controller && old(self).ledgers.m().contains_key(c)
                            ==> #[trigger] final(self).ledgers.m()[c] == old(self).ledgers.m()[c]
                    &&& *final(self) == (Staking {
                        bonded: final(self).bonded,
                        ledgers: final(self).ledgers,
                        ..*old(self)
                    })
                },
                Err(e) => {
                    &&& *final(self) == *old(self)
                    &&& (e == Error::AlreadyBonded <==> old(self).bonded.m().contains_key(stash))
                },
            },
    {
        if self.bonded.contains_key(stash) {
            return Err(Error::AlreadyBonded);
        }
        if self.ledgers.contains_key(controller) {
            return Err(Error::BadState);
        }
        self.bonded.insert(stash, controller);
        self.ledgers.insert(controller, StakingLedger::new_bonded(stash, 0));
        proof {
            if registry_wf(*old(self)) {
                let pre = *old(self);
                let post = *final(self);
                assert forall|c: u64| #[trigger] post.ledgers.m().contains_key(c) implies
                    ledger_wf(post.ledgers.m()[c]@) && post.bonded.m().contains_key(
                    post.ledgers.m()[c]@.stash,
                ) && post.bonded.m()[post.ledgers.m()[c]@.stash] == c by {
                    if c != controller {
                        assert(pre.ledgers.m().contains_key(c));
                        assert(pre.ledgers.m()[c]@.stash != stash);
                    }
                }
                assert forall|st: u64| #[trigger] post.bonded.m().contains_key(st) implies
                    post.ledgers.m().contains_key(post.bonded.m()[st]) && post.ledgers.m()[
                    post.bonded.m()[st]]@.stash == st by {
                    if st != stash {
                        assert(pre.bonded.m().contains_key(st));
                        assert(pre.bonded.m()[st] != controller);
                    }
                }
            }
        }
        Ok(())
    }

    /// Re-key the stash's ledger onto the stash itself without any guard: a
    /// raw edit that can overwrite a chained ledger, exactly to exercise the
    /// consistency pass.
    pub fn set_controller_no_checks(&mut self, stash: u64)
        requires
            wf_base(*old(self)),
            old(self).bonded.m().contains_key(stash),
            old(self).ledgers.m().contains_key(old(self).bonded.m()[stash]),
        ensures
            wf_base(*final(self)),
            final(self).bonded.m() == old(self).bonded.m().insert(stash, stash),
            final(self).ledgers.m() == old(self).ledgers.m().remove(
                old(self).bonded.m()[stash],
            ).insert(stash, old(self).ledgers.m()[old(self).bonded.m()[stash]]),
            *final(self) == (Staking {
                bonded: final(self).bonded,
                ledgers: final(self).ledgers,
                ..*old(self)
            }),
    {
        let c = match self.bonded.get(stash) {
            Some(c) => *c,
            None => {
                proof {
                    assert(false);
                }
                return ;
            },
        };
        let ledger = match self.ledgers.take(c) {
            Some(l) => l,
            None => {
                proof {
                    assert(false);
                }
                return ;
            },
        };
        self.ledgers.insert(stash, ledger);
        self.bonded.insert(stash, stash);
    }

    /// Raise the stash's ledger total by `amount` and set the active stake
    /// equal to the new total, without any guard — another raw edit for the
    /// consistency pass to catch when chunks are still unlocking.
    pub fn bond_extra_no_checks(&mut self, stash: u64, amount: u64)
        requires
            wf_base(*old(self)),
            old(self).bonded.m().contains_key(stash),
            old(self).ledgers.m().contains_key(old(self).bonded.m()[stash]),
            old(self).ledgers.m()[old(self).bonded.m()[stash]]@.total + amount <= u64::MAX,
        ensures
            wf_base(*final(self)),
            final(self).ledgers.m().dom() == old(self).ledgers.m().dom(),
            final(self).ledgers.m()[old(self).bonded.m()[stash]]@.total == old(self).ledgers.m()[
                old(self).bonded.m()[stash]]@.total + amount,
            final(self).ledgers.m()[old(self).bonded.m()[stash]]@.active == old(self).ledgers.m()[
                old(self).bonded.m()[stash]]@.total + amount,
            final(self).ledgers.m()[old(self).bonded.m()[stash]]@.stash == old(self).ledgers.m()[
                old(self).bonded.m()[stash]]@.stash,
            final(self).ledgers.m()[old(self).bonded.m()[stash]]@.unlocking == old(
                self,
            ).ledgers.m()[old(self).bonded.m()[stash]]@.unlocking,
            forall|c: u64|
                c != old(self).bonded.m()[stash] && old(self).ledgers.m().contains_key(c)
                    ==> #[trigger] final(self).ledgers.m()[c] == old(self).ledgers.m()[c],
            *final(self) == (Staking { ledgers: final(self).ledgers, ..*old(self) }),
    {
        let c = match self.bonded.get(stash) {
            Some(c) => *c,
            None => {
                proof {
                    assert(false);
                }
                return ;
            },
        };
        let mut ledger = match self.ledgers.take(c) {
            Some(l) => l,
            None => {
                proof {
                    assert(false);
                }
                return ;
            },
        };
        let new_total = ledger.total + amount;
        ledger.total = new_total;
        ledger.active = new_total;
        self.ledgers.insert(c, ledger);
        proof {
            assert(final(self).ledgers.m().dom() =~= old(self).ledgers.m().dom());
        }
    }

    /// Collapse every legacy stash/controller split — chains included — into
    /// 1:1 pairs in one deterministic pass. No ledger's total, active stake
    /// or unlocking chunks are lost: afterwards each bonded stash controls
    /// its own old ledger.
    pub fn collapse_controllers(&mut self)
        requires
            wf_base(*old(self)),
            registry_wf(*old(self)),
        ensures
            wf_base(*final(self)),
            registry_wf(*final(self)),
            final(self).bonded.m().dom() == old(self).bonded.m().dom(),
            forall|st: u64| #[trigger] old(self).bonded.m().contains_key(st) ==> {
                &&& final(self).bonded.m()[st] == st
                &&& final(self).ledgers.m().contains_key(st)
                &&& final(self).ledgers.m()[st]@ == old(self).ledgers.m()[old(
                    self,
                ).bonded.m()[st]]@
            },
            forall|st: u64| #[trigger] final(self).ledgers.m().contains_key(st) ==> old(
                self,
            ).bonded.m().contains_key(st),
            *final(self) == (Staking {
                bonded: final(self).bonded,
                ledgers: final(self).ledgers,
                ..*old(self)
            }),
    {
        let n = self.bonded.len();
        let mut new_bonded: crate::table::Table<u64> = crate::table::Table::new();
        let mut new_ledgers: crate::table::Table<StakingLedger> = crate::table::Table::new();
        let mut i: usize = 0;
        proof {
            self.bonded.lemma_entries_cover();
        }
        while i < n
            invariant
                wf_base(*self),
                registry_wf(*self),
                *self == *old(self),
                n == self.bonded@.len(),
                i <= n,
                new_bonded.wf(),
                new_ledgers.wf(),
                forall|j: int| 0 <= j < self.bonded@.len() ==> self.bonded.m().contains_key(
                    (#[trigger] self.bonded@[j]).0,
                ) && self.bonded.m()[self.bonded@[j].0] == self.bonded@[j].1,
                forall|st: u64| #[trigger] new_bonded.m().contains_key(st) <==> exists|j: int|
                    0 <= j < i && (#[trigger] self.bonded@[j]).0 == st,
                new_ledgers.m().dom() == new_bonded.m().dom(),
                forall|st: u64| #[trigger] new_bonded.m().contains_key(st) ==> {
                    &&& new_bonded.m()[st] == st
                    &&& new_ledgers.m()[st]@ == self.ledgers.m()[self.bonded.m()[st]]@
                },
            decreases n - i,
        {
            let st = self.bonded.at(i).0;
            let c = self.bonded.at(i).1;
            let dup = match self.ledgers.get(c) {
                Some(l) => l.duplicate(),
                None => {
                    proof {
                        assert(self.bonded.m()[st] == c);
                        assert(false);
                    }
                    return ;
                },
            };
            new_bonded.insert(st, st);
            new_ledgers.insert(st, dup);
            proof {
                assert forall|st2: u64| #[trigger] new_bonded.m().contains_key(st2) implies
                    exists|j: int| 0 <= j < i + 1 && (#[trigger] self.bonded@[j]).0 == st2 by {
                    if st2 == st {
                        assert(self.bonded@[i as int].0 == st2);
                    } else {
                        let j = choose|j: int| 0 <= j < i && (#[trigger] self.bonded@[j]).0 == st2;
                        assert(0 <= j < i + 1 && self.bonded@[j].0 == st2);
                    }
                }
                assert(new_ledgers.m().dom() =~= new_bonded.m().dom());
            }
            i = i + 1;
        }
        self.bonded = new_bonded;
        self.ledgers = new_ledgers;
        proof {
            let pre = *old(self);
            let post = *final(self);
            pre.bonded.lemma_entries_cover();
            assert forall|st: u64| #[trigger] pre.bonded.m().contains_key(st) implies
                post.bonded.m().contains_key(st) by {
                let j = choose|j: int| 0 <= j < pre.bonded@.len() && (#[trigger] pre.bonded@[j]).0
                    == st;
                assert(0 <= j < n && pre.bonded@[j].0 == st);
            }
            assert(post.bonded.m().dom() =~= pre.bonded.m().dom());
            assert forall|c: u64| #[trigger] post.ledgers.m().contains_key(c) implies ledger_wf(
                post.ledgers.m()[c]@,
            ) && post.bonded.m().contains_key(post.ledgers.m()[c]@.stash) && post.bonded.m()[
                post.ledgers.m()[c]@.stash] == c by {
                assert(pre.bonded.m().contains_key(c));
                assert(post.ledgers.m()[c]@ == pre.ledgers.m()[pre.bonded.m()[c]]@);
                assert(pre.ledgers.m()[pre.bonded.m()[c]]@.stash == c);
            }
        }
    }

    /// Rebuild the legacy chain layout: 444 controls 333's ledger, 555
    /// controls 444's, and 777 controls 555's, so 444 and 555 are each a
    /// stash and a controller at once. The pairs stay mutually consistent;
    /// the layout exists to exercise re-keying and the migration.
    pub fn setup_double_bonded_ledgers(&mut self)
        requires
            wf_base(*old(self)),
            !old(self).bonded.m().contains_key(333),
            !old(self).bonded.m().contains_key(444),
            !old(self).bonded.m().contains_key(555),
            !old(self).ledgers.m().contains_key(333),
            !old(self).ledgers.m().contains_key(444),
            !old(self).ledgers.m().contains_key(555),
            !old(self).ledgers.m().contains_key(777),
        ensures
            wf_base(*final(self)),
            final(self).bonded.m()[333] == 444 && final(self).ledgers.m()[444]@.stash == 333,
            final(self).bonded.m()[444] == 555 && final(self).ledgers.m()[555]@.stash == 444,
            final(self).bonded.m()[555] == 777 && final(self).ledgers.m()[777]@.stash == 555,
            final(self).ledgers.m()[444]@.total == 10,
            final(self).ledgers.m()[555]@.total == 20,
            final(self).ledgers.m()[777]@.total == 20,
            final(self).payees.m()[333] == RewardDestination::Staked,
            final(self).payees.m()[444] == RewardDestination::Staked,
            final(self).payees.m()[555] == RewardDestination::Staked,
            !final(self).ledgers.m().contains_key(333),
            final(self).bonded.m().dom() == old(self).bonded.m().dom().insert(333).insert(
                444,
            ).insert(555),
            final(self).ledgers.m().dom() == old(self).ledgers.m().dom().insert(444).insert(
                555,
            ).insert(777),
    {
        self.set_balance(333, 2000);
        self.set_balance(444, 2000);
        self.set_balance(555, 2000);
        self.set_balance(777, 2000);
        let r1 = self.bond(333, 10, RewardDestination::Staked);
        let r2 = self.bond(444, 20, RewardDestination::Staked);
        let r3 = self.bond(555, 20, RewardDestination::Staked);
        proof {
            assert(r1 is Ok);
            assert(r2 is Ok);
            assert(r3 is Ok);
        }
        let l333 = match self.ledgers.take(333) {
            Some(l) => l,
            None => {
                proof {
                    assert(false);
                }
                return ;
            },
        };
        let l444 = match self.ledgers.take(444) {
            Some(l) => l,
            None => {
                proof {
                    assert(false);
                }
                return ;
            },
        };
        let l555 = match self.ledgers.take(555) {
            Some(l) => l,
            None => {
                proof {
                    assert(false);
                }
                return ;
            },
        };
        self.bonded.insert(555, 777);
        self.ledgers.insert(777, l555);
        self.bonded.insert(444, 555);
        self.ledgers.insert(555, l444);
        self.bonded.insert(333, 444);
        self.ledgers.insert(444, l333);
        proof {
            assert(final(self).bonded.m().dom() =~= old(self).bonded.m().dom().insert(
                333,
            ).insert(444).insert(555));
            assert(final(self).ledgers.m().dom() =~= old(self).ledgers.m().dom().insert(
                444,
            ).insert(555).insert(777));
        }
    }

    /// The consistency pass: certify that every ledger's arithmetic holds
    /// and that the `Bonded` and `Ledger` maps mirror each other, or report
    /// the first corruption found. `Ok` exactly when the registry invariant
    /// holds.
    pub fn do_try_state(&self) -> (r: Result<(), Error>)
        requires
            wf_base(*self),
        ensures
            r is Ok <==> registry_wf(*self),
    {
        proof {
            self.ledgers.lemma_entries_cover();
            self.bonded.lemma_entries_cover();
        }
        let nl = self.ledgers.len();
        let mut i: usize = 0;
        while i < nl
            invariant
                wf_base(*self),
                nl == self.ledgers@.len(),
                i <= nl,
                forall|j: int| 0 <= j < self.ledgers@.len() ==> self.ledgers.m().contains_key(
                    (#[trigger] self.ledgers@[j]).0,
                ) && self.ledgers.m()[self.ledgers@[j].0] == self.ledgers@[j].1,
                forall|j: int| 0 <= j < i ==> {
                    &&& ledger_wf((#[trigger] self.ledgers@[j]).1@)
                    &&& self.bonded.m().contains_key(self.ledgers@[j].1@.stash)
                    &&& self.bonded.m()[self.ledgers@[j].1@.stash] == self.ledgers@[j].0
                },
            decreases nl - i,
        {
            let entry = self.ledgers.at(i);
            if !ledger_sane(&entry.1) {
                return Err(Error::BadState);
            }
            let linked = match self.bonded.get(entry.1.stash) {
                Some(c) => *c == entry.0,
                None => false,
            };
            if !linked {
                return Err(Error::NotController);
            }
            i = i + 1;
        }
        let nb = self.bonded.len();
        let mut k: usize = 0;
        while k < nb
            invariant
                wf_base(*self),
                nb == self.bonded@.len(),
                k <= nb,
                forall|j: int| 0 <= j < self.bonded@.len() ==> self.bonded.m().contains_key(
                    (#[trigger] self.bonded@[j]).0,
                ) && self.bonded.m()[self.bonded@[j].0] == self.bonded@[j].1,
                forall|j: int| 0 <= j < k ==> {
                    &&& self.ledgers.m().contains_key((#[trigger] self.bonded@[j]).1)
                    &&& self.ledgers.m()[self.bonded@[j].1]@.stash == self.bonded@[j].0
                },
            decreases nb - k,
        {
            let entry = self.bonded.at(k);
            let linked = match self.ledgers.get(entry.1) {
                Some(l) => l.stash == entry.0,
                None => false,
            };
            if !linked {
                return Err(Error::NoLedger);
            }
            k = k + 1;
        }
        proof {
            assert forall|c: u64| #[trigger] self.ledgers.m().contains_key(c) implies ledger_wf(
                self.ledgers.m()[c]@,
            ) && self.bonded.m().contains_key(self.ledgers.m()[c]@.stash) && self.bonded.m()[
                self.ledgers.m()[c]@.stash] == c by {
                let j = choose|j: int| 0 <= j < self.ledgers@.len() && (#[trigger] self.ledgers@[
                    j]) == (c, self.ledgers.m()[c]);
                assert(0 <= j < nl && self.ledgers@[j].0 == c);
            }
            assert forall|st: u64| #[trigger] self.bonded.m().contains_key(st) implies
                self.ledgers.m().contains_key(self.bonded.m()[st]) && self.ledgers.m()[
                self.bonded.m()[st]]@.stash == st by {
                let j = choose|j: int| 0 <= j < self.bonded@.len() && (#[trigger] self.bonded@[j])
                    == (st, self.bonded.m()[st]);
                assert(0 <= j < nb && self.bonded@[j].0 == st);
            }
        }
        Ok(())
    }
}

} // verus!
