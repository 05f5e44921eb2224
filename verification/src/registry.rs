//! The bonding registry: creating, growing, shrinking and re-keying ledgers.
//! Every operation checks its caller errors before touching any state, keeps
//! every table well formed, and preserves the registry invariant.

use vstd::prelude::*;
use crate::state::Staking;
use crate::state::wf_base;
use crate::state::registry_wf;
use crate::types::Error;
use crate::types::Event;
use crate::types::LedgerShape;
use crate::types::RewardDestination;
use crate::types::StakingLedger;
use crate::types::UnlockChunk;
use crate::types::chunk_sum;
use crate::types::kept_chunks;
use crate::types::ledger_wf;
use crate::types::spec_unbond_chunks;
use crate::types::lemma_chunk_sum_nonneg;

verus! {

impl Staking {
    /// Create a ledger for `stash` with `value` bonded, the stash its own
    /// controller, and `payee` recorded as the reward destination. Refused
    /// with `AlreadyBonded` when the stash already has a ledger or already
    /// controls one.
    pub fn bond(&mut self, stash: u64, value: u64, payee: RewardDestination) -> (r: Result<
        (),
        Error,
    >)
        requires
            wf_base(*old(self)),
        ensures
            wf_base(*final(self)),
            registry_wf(*old(self)) ==> registry_wf(*final(self)),
            r is Ok <==> !old(self).bonded.m().contains_key(stash) && !old(self).ledgers.m().contains_key(stash),
            match r {
                Ok(()) => {
                    &&& final(self).bonded.m() == old(self).bonded.m().insert(stash, stash)
                    &&& final(self).payees.m() == old(self).payees.m().insert(stash, payee)
                    &&& final(self).ledgers.m().dom() == old(self).ledgers.m().dom().insert(stash)
                    &&& final(self).ledgers.m()[stash]@ == (LedgerShape {
                        stash,
                        total: value,
                        active: value,
                        unlocking: Seq::<UnlockChunk>::empty(),
                    })
                    &&& forall|c: u64|
                        c != stash && old(self).ledgers.m().contains_key(c) ==> #[trigger] final(self).ledgers.m()[c] == old(self).ledgers.m()[c]
                    &&& final(self).events@ == old(self).events@.push(
                        Event::Bonded { stash, amount: value },
                    )
                    &&& *final(self) == (Staking {
                        bonded: final(self).bonded,
                        ledgers: final(self).ledgers,
                        payees: final(self).payees,
                        events: final(self).events,
                        ..*old(self)
                    })
                },
                Err(e) => e == Error::AlreadyBonded && *final(self) == *old(self),
            },
    {
        if self.bonded.contains_key(stash) || self.ledgers.contains_key(stash) {
            return Err(Error::AlreadyBonded);
        }
        let ledger = StakingLedger::new_bonded(stash, value);
        self.ledgers.insert(stash, ledger);
        self.bonded.insert(stash, stash);
        self.payees.insert(stash, payee);
        self.deposit_event(Event::Bonded { stash, amount: value });
        proof {
            if registry_wf(*old(self)) {
                lemma_registry_insert_pair(*old(self), *final(self), stash);
            }
        }
        Ok(())
    }

    /// Add `value` to the stash's active stake and total alike. Refused with
    /// `NoLedger` when the stash is not bonded.
    pub fn bond_extra(&mut self, stash: u64, value: u64) -> (r: Result<(), Error>)
        requires
            wf_base(*old(self)),
            old(self).bonded.m().contains_key(stash) && old(self).ledgers.m().contains_key(
                old(self).bonded.m()[stash],
            ) ==> old(self).ledgers.m()[old(self).bonded.m()[stash]]@.total + value <= u64::MAX,
        ensures
            wf_base(*final(self)),
            registry_wf(*old(self)) ==> registry_wf(*final(self)),
            r is Ok <==> old(self).bonded.m().contains_key(stash) && old(self).ledgers.m().contains_key(old(self).bonded.m()[stash]) && ledger_wf(
                old(self).ledgers.m()[old(self).bonded.m()[stash]]@,
            ),
            match r {
                Ok(()) => {
                    let c = old(self).bonded.m()[stash];
                    let l = old(self).ledgers.m()[c]@;
                    &&& final(self).ledgers.m().dom() == old(self).ledgers.m().dom()
                    &&& final(self).ledgers.m()[c]@ == (LedgerShape {
                        total: (l.total + value) as u64,
                        active: (l.active + value) as u64,
                        ..l
                    })
                    &&& forall|c2: u64|
                        c2 != c && old(self).ledgers.m().contains_key(c2) ==> #[trigger] final(self).ledgers.m()[c2] == old(self).ledgers.m()[c2]
                    &&& final(self).events@ == old(self).events@.push(
                        Event::Bonded { stash, amount: value },
                    )
                    &&& *final(self) == (Staking {
                        ledgers: final(self).ledgers,
                        events: final(self).events,
                        ..*old(self)
                    })
                },
                Err(e) => e == Error::NoLedger && *final(self) == *old(self),
            },
    {
        let c = match self.bonded.get(stash) {
            Some(c) => *c,
            None => {
                return Err(Error::NoLedger);
            },
        };
        let sane = match self.ledgers.get(c) {
            Some(l) => ledger_sane(l),
            None => false,
        };
        if !sane {
            return Err(Error::NoLedger);
        }
        let mut ledger = match self.ledgers.take(c) {
            Some(l) => l,
            None => {
                proof {
                    assert(false);
                }
                return Err(Error::NoLedger);
            },
        };
        ledger.add_stake(value);
        self.ledgers.insert(c, ledger);
        self.deposit_event(Event::Bonded { stash, amount: value });
        proof {
            assert(final(self).ledgers.m() =~= old(self).ledgers.m().insert(
                old(self).bonded.m()[stash],
                final(self).ledgers.m()[old(self).bonded.m()[stash]],
            ));
            assert(final(self).ledgers.m().dom() =~= old(self).ledgers.m().dom());
            if registry_wf(*old(self)) {
                lemma_registry_update_same_stash(
                    *old(self),
                    *final(self),
                    old(self).bonded.m()[stash],
                );
            }
        }
        Ok(())
    }

    /// Move `value` from the stash's active stake into a chunk that unlocks
    /// `bonding_duration` eras from the current era. Refused with `NotStash`
    /// when unbonded, `InsufficientActiveStake` when `value` exceeds the
    /// active stake, and `TooManyChunks` when the chunk bound is hit and no
    /// chunk of the same unlock era can absorb the amount.
    pub fn unbond(&mut self, stash: u64, value: u64) -> (r: Result<(), Error>)
        requires
            wf_base(*old(self)),
        ensures
            wf_base(*final(self)),
            registry_wf(*old(self)) ==> registry_wf(*final(self)),
            r is Ok <==> ({
                let c = old(self).bonded.m()[stash];
                let l = old(self).ledgers.m()[c]@;
                let unlock_era = (old(self).current_era
                    + old(self).cfg.bonding_duration) as u64;
                &&& old(self).bonded.m().contains_key(stash)
                &&& old(self).ledgers.m().contains_key(c)
                &&& ledger_wf(l)
                &&& value <= l.active
                &&& (l.unlocking.len() < old(self).cfg.max_unlocking_chunks || (l.unlocking.len()
                    > 0 && l.unlocking.last().era == unlock_era))
            }),
            match r {
                Ok(()) => {
                    let c = old(self).bonded.m()[stash];
                    let l = old(self).ledgers.m()[c]@;
                    let unlock_era = (old(self).current_era + old(self).cfg.bonding_duration) as u64;
                    &&& old(self).bonded.m().contains_key(stash)
                    &&& old(self).ledgers.m().contains_key(c)
                    &&& value <= l.active
                    &&& final(self).ledgers.m().dom() == old(self).ledgers.m().dom()
                    &&& final(self).ledgers.m()[c]@ == (LedgerShape {
                        active: (l.active - value) as u64,
                        unlocking: spec_unbond_chunks(l.unlocking, value, unlock_era),
                        ..l
                    })
                    &&& forall|c2: u64|
                        c2 != c && old(self).ledgers.m().contains_key(c2) ==> #[trigger] final(self).ledgers.m()[c2] == old(self).ledgers.m()[c2]
                    &&& final(self).events@ == old(self).events@.push(
                        Event::Unbonded { stash, amount: value },
                    )
                    &&& *final(self) == (Staking {
                        ledgers: final(self).ledgers,
                        events: final(self).events,
                        ..*old(self)
                    })
                },
                Err(e) => {
                    &&& *final(self) == *old(self)
                    &&& (e == Error::NotStash <==> !old(self).bonded.m().contains_key(stash))
                    &&& (old(self).bonded.m().contains_key(stash) && old(self).ledgers.m().contains_key(old(self).bonded.m()[stash]) && ledger_wf(
                        old(self).ledgers.m()[old(self).bonded.m()[stash]]@,
                    ) ==> (e == Error::InsufficientActiveStake <==> value > old(self).ledgers.m()[old(self).bonded.m()[stash]]@.active))
                },
            },
    {
        let c = match self.bonded.get(stash) {
            Some(c) => *c,
            None => {
                return Err(Error::NotStash);
            },
        };
        let unlock_era = self.current_era + self.cfg.bonding_duration;
        let (active, n_chunks, merges) = match self.ledgers.get(c) {
            Some(l) => {
                let n = l.unlocking.len();
                let m = n > 0 && l.unlocking[n - 1].era == unlock_era;
                (l.active, n, m)
            },
            None => {
                return Err(Error::NotController);
            },
        };
        if value > active {
            return Err(Error::InsufficientActiveStake);
        }
        if !merges && n_chunks >= self.cfg.max_unlocking_chunks {
            return Err(Error::TooManyChunks);
        }
        let sane = match self.ledgers.get(c) {
            Some(l) => ledger_sane(l),
            None => false,
        };
        if !sane {
            return Err(Error::NoLedger);
        }
        let mut ledger = match self.ledgers.take(c) {
            Some(l) => l,
            None => {
                proof {
                    assert(false);
                }
                return Err(Error::NoLedger);
            },
        };
        let res = ledger.unbond(value, unlock_era, self.cfg.max_unlocking_chunks);
        proof {
            assert(res is Ok);
        }
        self.ledgers.insert(c, ledger);
        self.deposit_event(Event::Unbonded { stash, amount: value });
        proof {
            assert(final(self).ledgers.m() =~= old(self).ledgers.m().insert(
                old(self).bonded.m()[stash],
                final(self).ledgers.m()[old(self).bonded.m()[stash]],
            ));
            assert(final(self).ledgers.m().dom() =~= old(self).ledgers.m().dom());
            if registry_wf(*old(self)) {
                lemma_registry_update_same_stash(
                    *old(self),
                    *final(self),
                    old(self).bonded.m()[stash],
                );
            }
        }
        Ok(())
    }

    /// Drop every chunk of the stash's ledger whose unlock era is at or
    /// before `current_era`, shrinking the total. A ledger left with nothing
    /// bonded is purged together with its `Bonded` and `Payee` entries.
    pub fn withdraw_unbonded(&mut self, stash: u64, current_era: u64) -> (r: Result<u64, Error>)
        requires
            wf_base(*old(self)),
        ensures
            wf_base(*final(self)),
            registry_wf(*old(self)) ==> registry_wf(*final(self)),
            r is Ok <==> old(self).bonded.m().contains_key(stash) && old(self).ledgers.m().contains_key(old(self).bonded.m()[stash]) && ledger_wf(
                old(self).ledgers.m()[old(self).bonded.m()[stash]]@,
            ),
            match r {
                Ok(released) => {
                    let c = old(self).bonded.m()[stash];
                    let l = old(self).ledgers.m()[c]@;
                    let kept = kept_chunks(l.unlocking, current_era);
                    let new_total = l.active + chunk_sum(kept);
                    &&& released == chunk_sum(l.unlocking) - chunk_sum(kept)
                    &&& (new_total == 0 ==> {
                        &&& final(self).ledgers.m() == old(self).ledgers.m().remove(c)
                        &&& final(self).bonded.m() == old(self).bonded.m().remove(stash)
                        &&& final(self).payees.m() == old(self).payees.m().remove(stash)
                    })
                    &&& (new_total != 0 ==> {
                        &&& final(self).bonded.m() == old(self).bonded.m()
                        &&& final(self).payees.m() == old(self).payees.m()
                        &&& final(self).ledgers.m().dom() == old(self).ledgers.m().dom()
                        &&& final(self).ledgers.m()[c]@ == (LedgerShape {
                            total: new_total as u64,
                            unlocking: kept,
                            ..l
                        })
                        &&& forall|c2: u64|
                            c2 != c && old(self).ledgers.m().contains_key(c2) ==> #[trigger] final(self).ledgers.m()[c2] == old(self).ledgers.m()[c2]
                    })
                    &&& final(self).events@ == (if released > 0 {
                        old(self).events@.push(Event::Withdrawn { stash, amount: released })
                    } else {
                        old(self).events@
                    })
                    &&& *final(self) == (Staking {
                        bonded: final(self).bonded,
                        ledgers: final(self).ledgers,
                        payees: final(self).payees,
                        events: final(self).events,
                        ..*old(self)
                    })
                },
                Err(e) => {
                    &&& *final(self) == *old(self)
                    &&& (e == Error::NotStash <==> !old(self).bonded.m().contains_key(stash))
                },
            },
    {
        let c = match self.bonded.get(stash) {
            Some(c) => *c,
            None => {
                return Err(Error::NotStash);
            },
        };
        let sane = match self.ledgers.get(c) {
            Some(l) => ledger_sane(l),
            None => false,
        };
        if !sane {
            return Err(Error::NoLedger);
        }
        let mut ledger = match self.ledgers.take(c) {
            Some(l) => l,
            None => {
                proof {
                    assert(false);
                }
                return Err(Error::NoLedger);
            },
        };
        let released = ledger.withdraw_ready(current_era);
        let purge = ledger.total == 0;
        if purge {
            self.bonded.remove(stash);
            self.payees.remove(stash);
        } else {
            self.ledgers.insert(c, ledger);
        }
        if released > 0 {
            self.deposit_event(Event::Withdrawn { stash, amount: released });
        }
        proof {
            let c0 = old(self).bonded.m()[stash];
            if !purge {
                assert(final(self).ledgers.m() =~= old(self).ledgers.m().insert(
                    c0,
                    final(self).ledgers.m()[c0],
                ));
                assert(final(self).ledgers.m().dom() =~= old(self).ledgers.m().dom());
            }
            if registry_wf(*old(self)) {
                if purge {
                    lemma_registry_remove_pair(*old(self), *final(self), stash);
                } else {
                    lemma_registry_update_same_stash(*old(self), *final(self), c0);
                }
            }
        }
        Ok(released)
    }

    /// Re-key the stash's ledger so the stash controls itself, collapsing a
    /// legacy stash/controller split. Refused with `NotStash` when unbonded,
    /// `AlreadyController` when nothing would change, and `BadState` when the
    /// stash already controls another ledger, which a re-key would overwrite
    /// — the cyclic-chain hazard.
    pub fn set_controller(&mut self, stash: u64) -> (r: Result<(), Error>)
        requires
            wf_base(*old(self)),
        ensures
            wf_base(*final(self)),
            registry_wf(*old(self)) ==> registry_wf(*final(self)),
            match r {
                Ok(()) => {
                    let c = old(self).bonded.m()[stash];
                    &&& old(self).bonded.m().contains_key(stash)
                    &&& c != stash
                    &&& old(self).ledgers.m().contains_key(c)
                    &&& !old(self).ledgers.m().contains_key(stash)
                    &&& final(self).bonded.m() == old(self).bonded.m().insert(stash, stash)
                    &&& final(self).ledgers.m() == old(self).ledgers.m().remove(c).insert(
                        stash,
                        old(self).ledgers.m()[c],
                    )
                    &&& *final(self) == (Staking {
                        bonded: final(self).bonded,
                        ledgers: final(self).ledgers,
                        ..*old(self)
                    })
                },
                Err(e) => {
                    &&& *final(self) == *old(self)
                    &&& (e == Error::NotStash <==> !old(self).bonded.m().contains_key(stash))
                    &&& (old(self).bonded.m().contains_key(stash) ==> (e == Error::AlreadyController
                        <==> old(self).bonded.m()[stash] == stash))
                },
            },
    {
        let c = match self.bonded.get(stash) {
            Some(c) => *c,
            None => {
                return Err(Error::NotStash);
            },
        };
        if c == stash {
            return Err(Error::AlreadyController);
        }
        if self.ledgers.contains_key(stash) {
            return Err(Error::BadState);
        }
        let ledger = match self.ledgers.take(c) {
            Some(l) => l,
            None => {
                return Err(Error::NotController);
            },
        };
        self.ledgers.insert(stash, ledger);
        self.bonded.insert(stash, stash);
        proof {
            if registry_wf(*old(self)) {
                lemma_registry_rekey(*old(self), *final(self), stash);
            }
        }
        Ok(())
    }
}

/// Whether a ledger satisfies its arithmetic invariant.
pub fn ledger_sane(l: &StakingLedger) -> (r: bool)
    ensures
        r == ledger_wf(l@),
{
    proof {
        lemma_chunk_sum_nonneg(l.unlocking@);
    }
    if l.active > l.total {
        return false;
    }
    let cs = chunks_total_u128(&l.unlocking);
    ((l.total - l.active) as u128) == cs
}

/// Sum of a ledger's unlocking chunks, wide enough never to overflow.
pub fn chunks_total_u128(chunks: &Vec<UnlockChunk>) -> (r: u128)
    ensures
        r == chunk_sum(chunks@),
{
    proof {
        lemma_chunk_sum_nonneg(chunks@);
    }
    let n = chunks.len();
    let mut acc: u128 = 0;
    let mut i: usize = 0;
    while i < n
        invariant
            n == chunks@.len(),
            i <= n,
            acc == chunk_sum(chunks@.take(i as int)),
            acc <= i * 0x1_0000_0000_0000_0000,
        decreases n - i,
    {
        proof {
            assert(chunks@.take(i as int + 1).drop_last() =~= chunks@.take(i as int));
            assert(chunks@.take(i as int + 1).last() == chunks@[i as int]);
        }
        acc = acc + chunks[i].value as u128;
        i = i + 1;
    }
    proof {
        assert(chunks@.take(n as int) =~= chunks@);
    }
    acc
}

/// A fresh stash bonded to itself leaves the registry invariant standing.
proof fn lemma_registry_insert_pair(pre: Staking, post: Staking, stash: u64)
    requires
        registry_wf(pre),
        !pre.bonded.m().contains_key(stash),
        !pre.ledgers.m().contains_key(stash),
        post.bonded.m() == pre.bonded.m().insert(stash, stash),
        post.ledgers.m().dom() == pre.ledgers.m().dom().insert(stash),
        post.ledgers.m()[stash]@.stash == stash,
        ledger_wf(post.ledgers.m()[stash]@),
        forall|c: u64| c != stash && pre.ledgers.m().contains_key(c) ==> #[trigger] post.ledgers.m()[c]
            == pre.ledgers.m()[c],
    ensures
        registry_wf(post),
{
    assert forall|c: u64| #[trigger] post.ledgers.m().contains_key(c) implies ledger_wf(
        post.ledgers.m()[c]@,
    ) && post.bonded.m().contains_key(post.ledgers.m()[c]@.stash) && post.bonded.m()[post.ledgers.m()[c]@.stash]
        == c by {
        if c != stash {
            assert(pre.ledgers.m().contains_key(c));
            assert(post.ledgers.m()[c] == pre.ledgers.m()[c]);
            assert(pre.ledgers.m()[c]@.stash != stash);
        }
    }
    assert forall|st: u64| #[trigger] post.bonded.m().contains_key(st) implies
        post.ledgers.m().contains_key(post.bonded.m()[st]) && post.ledgers.m()[post.bonded.m()[st]]@.stash
        == st by {
        if st != stash {
            assert(pre.bonded.m().contains_key(st));
            assert(pre.bonded.m()[st] != stash);
            assert(post.ledgers.m()[post.bonded.m()[st]] == pre.ledgers.m()[pre.bonded.m()[st]]);
        }
    }
}

/// Replacing a ledger by one with the same stash and sound arithmetic leaves
/// the registry invariant standing.
pub proof fn lemma_registry_update_same_stash(pre: Staking, post: Staking, c0: u64)
    requires
        registry_wf(pre),
        pre.ledgers.m().contains_key(c0),
        post.bonded.m() == pre.bonded.m(),
        post.ledgers.m().dom() == pre.ledgers.m().dom(),
        post.ledgers.m()[c0]@.stash == pre.ledgers.m()[c0]@.stash,
        ledger_wf(post.ledgers.m()[c0]@),
        forall|c2: u64| c2 != c0 && pre.ledgers.m().contains_key(c2) ==> #[trigger] post.ledgers.m()[c2]
            == pre.ledgers.m()[c2],
    ensures
        registry_wf(post),
{
    assert forall|c: u64| #[trigger] post.ledgers.m().contains_key(c) implies ledger_wf(
        post.ledgers.m()[c]@,
    ) && post.bonded.m().contains_key(post.ledgers.m()[c]@.stash) && post.bonded.m()[post.ledgers.m()[c]@.stash]
        == c by {
        assert(pre.ledgers.m().contains_key(c));
        if c != c0 {
            assert(post.ledgers.m()[c] == pre.ledgers.m()[c]);
        }
    }
    assert forall|st: u64| #[trigger] post.bonded.m().contains_key(st) implies
        post.ledgers.m().contains_key(post.bonded.m()[st]) && post.ledgers.m()[post.bonded.m()[st]]@.stash
        == st by {
        let c = pre.bonded.m()[st];
        if c != c0 {
            assert(post.ledgers.m()[c] == pre.ledgers.m()[c]);
        }
    }
}

/// Purging a bonded pair leaves the registry invariant standing.
proof fn lemma_registry_remove_pair(pre: Staking, post: Staking, stash: u64)
    requires
        registry_wf(pre),
        pre.bonded.m().contains_key(stash),
        pre.ledgers.m().contains_key(pre.bonded.m()[stash]),
        post.bonded.m() == pre.bonded.m().remove(stash),
        post.ledgers.m() == pre.ledgers.m().remove(pre.bonded.m()[stash]),
    ensures
        registry_wf(post),
{
    let c0 = pre.bonded.m()[stash];
    assert forall|c: u64| #[trigger] post.ledgers.m().contains_key(c) implies ledger_wf(
        post.ledgers.m()[c]@,
    ) && post.bonded.m().contains_key(post.ledgers.m()[c]@.stash) && post.bonded.m()[post.ledgers.m()[c]@.stash]
        == c by {
        assert(pre.ledgers.m().contains_key(c));
        assert(pre.ledgers.m()[c]@.stash != stash || c == c0);
    }
    assert forall|st: u64| #[trigger] post.bonded.m().contains_key(st) implies
        post.ledgers.m().contains_key(post.bonded.m()[st]) && post.ledgers.m()[post.bonded.m()[st]]@.stash
        == st by {
        assert(pre.bonded.m().contains_key(st));
        if pre.bonded.m()[st] == c0 {
            assert(pre.ledgers.m()[c0]@.stash == st);
            assert(pre.ledgers.m()[c0]@.stash == stash);
        }
    }
}

/// Moving a ledger from a foreign controller onto its own stash leaves the
/// registry invariant standing.
proof fn lemma_registry_rekey(pre: Staking, post: Staking, stash: u64)
    requires
        registry_wf(pre),
        pre.bonded.m().contains_key(stash),
        pre.bonded.m()[stash] != stash,
        pre.ledgers.m().contains_key(pre.bonded.m()[stash]),
        !pre.ledgers.m().contains_key(stash),
        post.bonded.m() == pre.bonded.m().insert(stash, stash),
        post.ledgers.m() == pre.ledgers.m().remove(pre.bonded.m()[stash]).insert(
            stash,
            pre.ledgers.m()[pre.bonded.m()[stash]],
        ),
    ensures
        registry_wf(post),
{
    let c0 = pre.bonded.m()[stash];
    assert(pre.ledgers.m()[c0]@.stash == stash);
    assert forall|c: u64| #[trigger] post.ledgers.m().contains_key(c) implies ledger_wf(
        post.ledgers.m()[c]@,
    ) && post.bonded.m().contains_key(post.ledgers.m()[c]@.stash) && post.bonded.m()[post.ledgers.m()[c]@.stash]
        == c by {
        if c == stash {
            assert(post.ledgers.m()[c] == pre.ledgers.m()[c0]);
        } else {
            assert(pre.ledgers.m().contains_key(c));
            assert(pre.ledgers.m()[c]@.stash != stash);
        }
    }
    assert forall|st: u64| #[trigger] post.bonded.m().contains_key(st) implies
        post.ledgers.m().contains_key(post.bonded.m()[st]) && post.ledgers.m()[post.bonded.m()[st]]@.stash
        == st by {
        if st != stash {
            assert(pre.bonded.m().contains_key(st));
            assert(pre.bonded.m()[st] != c0);
            assert(pre.bonded.m()[st] != stash);
        }
    }
}

} // verus!
