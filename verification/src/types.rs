//! Core vocabulary of the engine: account and era indices, errors, events,
//! reward destinations, and the bonding ledger with its arithmetic invariant.

use vstd::prelude::*;

verus! {

/// Why a call was refused. Caller errors never mutate state; systemic faults
/// are surfaced to the caller of the era-transition step.
#[derive(Clone, Copy, PartialEq, Eq, Structural, Debug)]
pub enum Error {
    /// The stash already has a ledger.
    AlreadyBonded,
    /// The account has no ledger.
    NoLedger,
    /// The account is not a bonded stash.
    NotStash,
    /// The account is not a controller of any ledger.
    NotController,
    /// The stash is already its own controller.
    AlreadyController,
    /// More was asked to unbond than is actively staked.
    InsufficientActiveStake,
    /// The ledger already holds the greatest allowed number of unlocking chunks.
    TooManyChunks,
    /// A nomination carried no targets.
    EmptyTargets,
    /// A nomination carried more targets than the quota allows.
    TooManyTargets,
    /// The page for this era and stash was paid already.
    AlreadyClaimed,
    /// The page index is outside the exposure's page count.
    PageNotFound,
    /// The era is outside the claimable window.
    InvalidEraToReward,
    /// The era left the bonded-eras window; misbehavior that old is not slashable.
    EraTooOld,
    /// The election provider returned no usable validator set.
    ElectionFailed,
    /// The account is restricted from staking operations.
    Restricted,
    /// The operation would overwrite another stash's ledger.
    BadState,
    /// The stake is below the configured minimum bond.
    BondTooLow,
}

/// Where a stash's rewards go.
#[derive(Clone, Copy, PartialEq, Eq, Structural, Debug)]
pub enum RewardDestination {
    /// Pay into the stash, increasing the bonded amount.
    Staked,
    /// Pay into the stash's free balance.
    Stash,
    /// Pay into a chosen account's free balance.
    Account(u64),
    /// Discard the reward.
    Nothing,
}

/// Genesis role of a staker.
#[derive(Clone, PartialEq, Eq, Debug)]
pub enum StakerStatus {
    Validator,
    Nominator(Vec<u64>),
    Idle,
}

/// A validator's advertised preferences.
#[derive(Clone, Copy, PartialEq, Eq, Structural, Debug)]
pub struct ValidatorPrefs {
    /// Commission taken off the validator's reward share before the
    /// stake-proportional split, in parts per billion.
    pub commission_parts: u32,
}

/// Notifications the engine emits.
#[derive(Clone, Copy, PartialEq, Eq, Structural, Debug)]
pub enum Event {
    Bonded { stash: u64, amount: u64 },
    Unbonded { stash: u64, amount: u64 },
    Withdrawn { stash: u64, amount: u64 },
    Chilled { stash: u64 },
    ValidatorPrefsSet { stash: u64, commission_parts: u32 },
    SlashReported { validator: u64, fraction_parts: u32, slash_era: u64 },
    Slashed { staker: u64, amount: u64 },
    EraPaid { era_index: u64, validator_payout: u64, remainder: u64 },
    PayoutStarted { era_index: u64, validator_stash: u64 },
    Rewarded { stash: u64, amount: u64 },
    StakersElected,
    StakingElectionFailed,
}

/// Stake leaving the active bond, spendable again once `era` is reached.
#[derive(Clone, Copy, PartialEq, Eq, Structural, Debug)]
pub struct UnlockChunk {
    pub value: u64,
    pub era: u64,
}

/// Sum of the unlocking amounts.
pub open spec fn chunk_sum(s: Seq<UnlockChunk>) -> int
    decreases s.len(),
{
    if s.len() == 0 {
        0
    } else {
        chunk_sum(s.drop_last()) + s.last().value
    }
}

pub proof fn lemma_chunk_sum_nonneg(s: Seq<UnlockChunk>)
    ensures
        chunk_sum(s) >= 0,
    decreases s.len(),
{
    if s.len() > 0 {
        lemma_chunk_sum_nonneg(s.drop_last());
    }
}

/// The chunks that stay after withdrawing everything unlockable at `era`.
pub open spec fn kept_chunks(s: Seq<UnlockChunk>, era: u64) -> Seq<UnlockChunk>
    decreases s.len(),
{
    if s.len() == 0 {
        Seq::empty()
    } else if s.last().era > era {
        kept_chunks(s.drop_last(), era).push(s.last())
    } else {
        kept_chunks(s.drop_last(), era)
    }
}

pub proof fn lemma_kept_sum_le(s: Seq<UnlockChunk>, era: u64)
    ensures
        0 <= chunk_sum(kept_chunks(s, era)) <= chunk_sum(s),
    decreases s.len(),
{
    lemma_chunk_sum_nonneg(kept_chunks(s, era));
    if s.len() > 0 {
        lemma_kept_sum_le(s.drop_last(), era);
        if s.last().era > era {
            assert(kept_chunks(s, era).drop_last() =~= kept_chunks(s.drop_last(), era));
        }
    }
}

/// Ghost mirror of a ledger, for contracts and laws.
pub struct LedgerShape {
    pub stash: u64,
    pub total: u64,
    pub active: u64,
    pub unlocking: Seq<UnlockChunk>,
}

/// Bonding state of one stash: its whole bonded stake, the part still at
/// work, and the chunks on their way out.
#[derive(Clone, Debug)]
pub struct StakingLedger {
    pub stash: u64,
    pub total: u64,
    pub active: u64,
    pub unlocking: Vec<UnlockChunk>,
}

impl View for StakingLedger {
    type V = LedgerShape;

    open spec fn view(&self) -> LedgerShape {
        LedgerShape {
            stash: self.stash,
            total: self.total,
            active: self.active,
            unlocking: self.unlocking@,
        }
    }
}

/// The ledger arithmetic invariant: the whole equals the active part plus
/// everything still unlocking, so the active part never exceeds the whole.
pub open spec fn ledger_wf(l: LedgerShape) -> bool {
    l.total == l.active + chunk_sum(l.unlocking)
}

pub proof fn lemma_ledger_wf_active_le_total(l: LedgerShape)
    requires
        ledger_wf(l),
    ensures
        l.active <= l.total,
{
    lemma_chunk_sum_nonneg(l.unlocking);
}

impl StakingLedger {
    /// A fresh ledger bonding `value` for `stash`.
    pub fn new_bonded(stash: u64, value: u64) -> (r: StakingLedger)
        ensures
            r@.stash == stash,
            r@.total == value,
            r@.active == value,
            r@.unlocking == Seq::<UnlockChunk>::empty(),
            ledger_wf(r@),
    {
        StakingLedger { stash, total: value, active: value, unlocking: Vec::new() }
    }

    /// An equal copy of this ledger.
    pub fn duplicate(&self) -> (r: StakingLedger)
        ensures
            r@ == self@,
    {
        let n = self.unlocking.len();
        let mut chunks: Vec<UnlockChunk> = Vec::new();
        let mut i: usize = 0;
        while i < n
            invariant
                n == self.unlocking@.len(),
                i <= n,
                chunks@ == self.unlocking@.take(i as int),
            decreases n - i,
        {
            chunks.push(self.unlocking[i]);
            proof {
                assert(chunks@ =~= self.unlocking@.take(i as int + 1));
            }
            i = i + 1;
        }
        proof {
            assert(self.unlocking@.take(n as int) =~= self.unlocking@);
        }
        StakingLedger { stash: self.stash, total: self.total, active: self.active, unlocking: chunks }
    }

    /// Bond `amount` more; it goes straight into the active stake.
    pub fn add_stake(&mut self, amount: u64)
        requires
            old(self)@.total + amount <= u64::MAX,
            ledger_wf(old(self)@),
        ensures
            final(self)@.stash == old(self)@.stash,
            final(self)@.total == old(self)@.total + amount,
            final(self)@.active == old(self)@.active + amount,
            final(self)@.unlocking == old(self)@.unlocking,
            ledger_wf(final(self)@),
    {
        proof {
            lemma_chunk_sum_nonneg(self@.unlocking);
        }
        self.total = self.total + amount;
        self.active = self.active + amount;
    }

    /// Move `amount` out of the active stake into a chunk unlocking at
    /// `unlock_era`. A chunk already unlocking at that era absorbs the
    /// amount; otherwise a new chunk is appended, refused once `max_chunks`
    /// chunks are outstanding.
    pub fn unbond(&mut self, amount: u64, unlock_era: u64, max_chunks: usize) -> (r: Result<
        (),
        Error,
    >)
        requires
            ledger_wf(old(self)@),
        ensures
            ledger_wf(final(self)@),
            match r {
                Ok(()) => {
                    &&& amount <= old(self)@.active
                    &&& final(self)@.stash == old(self)@.stash
                    &&& final(self)@.total == old(self)@.total
                    &&& final(self)@.active == old(self)@.active - amount
                    &&& chunk_sum(final(self)@.unlocking) == chunk_sum(old(self)@.unlocking)
                        + amount
                    &&& final(self)@.unlocking == spec_unbond_chunks(
                        old(self)@.unlocking,
                        amount,
                        unlock_era,
                    )
                },
                Err(e) => {
                    &&& *final(self) == *old(self)
                    &&& (e == Error::InsufficientActiveStake || e == Error::TooManyChunks)
                    &&& (e == Error::InsufficientActiveStake <==> amount > old(self)@.active)
                    &&& (e == Error::TooManyChunks <==> {
                        &&& amount <= old(self)@.active
                        &&& old(self)@.unlocking.len() >= max_chunks
                        &&& !(old(self)@.unlocking.len() > 0 && old(self)@.unlocking.last().era
                            == unlock_era)
                    })
                },
            },
    {
        if amount > self.active {
            return Err(Error::InsufficientActiveStake);
        }
        let n = self.unlocking.len();
        if n > 0 && self.unlocking[n - 1].era == unlock_era {
            proof {
                lemma_chunk_sum_nonneg(self@.unlocking.drop_last());
                lemma_chunk_sum_nonneg(self@.unlocking);
            }
            let merged = UnlockChunk {
                value: self.unlocking[n - 1].value + amount,
                era: unlock_era,
            };
            self.unlocking[n - 1] = merged;
            proof {
                assert(self@.unlocking =~= old(self)@.unlocking.update(
                    old(self)@.unlocking.len() - 1,
                    merged,
                ));
                assert(self@.unlocking.drop_last() =~= old(self)@.unlocking.drop_last());
            }
        } else if n >= max_chunks {
            return Err(Error::TooManyChunks);
        } else {
            self.unlocking.push(UnlockChunk { value: amount, era: unlock_era });
            proof {
                assert(self@.unlocking.drop_last() =~= old(self)@.unlocking);
            }
        }
        self.active = self.active - amount;
        Ok(())
    }

    /// Drop every chunk whose unlock era has been reached, reducing the
    /// total accordingly; the amount withdrawn is returned.
    pub fn withdraw_ready(&mut self, current_era: u64) -> (released: u64)
        requires
            ledger_wf(old(self)@),
        ensures
            ledger_wf(final(self)@),
            final(self)@.stash == old(self)@.stash,
            final(self)@.active == old(self)@.active,
            final(self)@.unlocking == kept_chunks(old(self)@.unlocking, current_era),
            released == chunk_sum(old(self)@.unlocking) - chunk_sum(final(self)@.unlocking),
            final(self)@.total == old(self)@.total - released,
    {
        proof {
            lemma_kept_sum_le(self@.unlocking, current_era);
            lemma_chunk_sum_nonneg(self@.unlocking);
        }
        let ghost s = self@.unlocking;
        proof {
            assert(s.take(0) =~= Seq::<UnlockChunk>::empty());
            assert(s.skip(0) =~= s);
        }
        let n = self.unlocking.len();
        let mut kept: Vec<UnlockChunk> = Vec::new();
        let mut kept_total: u64 = 0;
        let mut i: usize = 0;
        while i < n
            invariant
                n == s.len(),
                i <= n,
                s == self@.unlocking,
                ledger_wf(self@),
                kept@ == kept_chunks(s.take(i as int), current_era),
                kept_total == chunk_sum(kept@),
                chunk_sum(kept@) <= chunk_sum(s.take(i as int)),
                chunk_sum(s.take(i as int)) + chunk_sum(s.skip(i as int)) == chunk_sum(s),
            decreases n - i,
        {
            proof {
                assert(s.take(i as int + 1).drop_last() =~= s.take(i as int));
                assert(s.take(i as int + 1).last() == s[i as int]);
                lemma_chunk_sum_nonneg(s.take(i as int));
                lemma_chunk_sum_nonneg(s.skip(i as int + 1));
                lemma_kept_sum_le(s.take(i as int + 1), current_era);
                assert(chunk_sum(s.skip(i as int)) == s[i as int].value + chunk_sum(
                    s.skip(i as int + 1),
                )) by {
                    lemma_chunk_sum_skip_unfold(s, i as int);
                }
            }
            let c = self.unlocking[i];
            if c.era > current_era {
                let ghost kept_before = kept@;
                kept.push(c);
                proof {
                    assert(kept@.last() == c);
                    assert(kept@.drop_last() =~= kept_before);
                }
                kept_total = kept_total + c.value;
            }
            i = i + 1;
        }
        proof {
            assert(s.take(n as int) =~= s);
            assert(s.skip(n as int) =~= Seq::<UnlockChunk>::empty());
        }
        let released = self.total - self.active - kept_total;
        self.total = self.active + kept_total;
        self.unlocking = kept;
        released
    }

    /// Take up to `amount` off the active stake and the total alike; the
    /// amount actually removed (capped at the active stake) is returned.
    pub fn slash_active(&mut self, amount: u64) -> (slashed: u64)
        requires
            ledger_wf(old(self)@),
        ensures
            ledger_wf(final(self)@),
            slashed == (if amount <= old(self)@.active {
                amount as int
            } else {
                old(self)@.active as int
            }),
            final(self)@.stash == old(self)@.stash,
            final(self)@.active == old(self)@.active - slashed,
            final(self)@.total == old(self)@.total - slashed,
            final(self)@.unlocking == old(self)@.unlocking,
    {
        proof {
            lemma_chunk_sum_nonneg(self@.unlocking);
        }
        let v = if amount <= self.active {
            amount
        } else {
            self.active
        };
        self.active = self.active - v;
        self.total = self.total - v;
        v
    }
}

/// The chunk list `unbond` leaves behind: the last chunk absorbs the amount
/// when its era matches, otherwise a new chunk is appended.
pub open spec fn spec_unbond_chunks(s: Seq<UnlockChunk>, amount: u64, unlock_era: u64) -> Seq<
    UnlockChunk,
> {
    if s.len() > 0 && s.last().era == unlock_era {
        s.update(s.len() - 1, UnlockChunk { value: (s.last().value + amount) as u64, era: unlock_era })
    } else {
        s.push(UnlockChunk { value: amount, era: unlock_era })
    }
}

proof fn lemma_chunk_sum_skip_unfold(s: Seq<UnlockChunk>, i: int)
    requires
        0 <= i < s.len(),
    ensures
        chunk_sum(s.skip(i)) == s[i].value + chunk_sum(s.skip(i + 1)),
    decreases s.len() - i,
{
    if i == s.len() - 1 {
        assert(s.skip(i).len() == 1);
        assert(s.skip(i).last() == s[i]);
        assert(s.skip(i).drop_last() =~= Seq::<UnlockChunk>::empty());
        assert(s.skip(i + 1) =~= Seq::<UnlockChunk>::empty());
    } else {
        let t = s.skip(i);
        let u = s.skip(i + 1);
        assert(t.drop_last() =~= s.drop_last().skip(i));
        assert(u.drop_last() =~= s.drop_last().skip(i + 1));
        assert(t.last() == s.last());
        assert(u.last() == s.last());
        lemma_chunk_sum_skip_unfold(s.drop_last(), i);
    }
}

} // verus!
