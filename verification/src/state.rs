//! The engine's state: the bonding registry, the era/session clock, the
//! per-era snapshots and accumulators, and the observer hooks that stand in
//! for the chain's collaborators.

use vstd::prelude::*;
use crate::config::StakingConfig;
use crate::config::config_wf;
use crate::config::BLOCK_TIME;
use crate::exposure::Exposure;
use crate::exposure::IndividualExposure;
use crate::pair_table::PairTable;
use crate::table::Table;
use crate::types::Event;
use crate::types::RewardDestination;
use crate::types::StakingLedger;
use crate::types::ValidatorPrefs;
use crate::types::ledger_wf;

verus! {

/// A reported misbehavior: the offender and whoever reported it.
#[derive(Clone, Debug)]
pub struct OffenceDetails {
    pub offender: u64,
    pub reporters: Vec<u64>,
}

/// A slash that waits out the deferral window before it lands.
#[derive(Clone, Debug)]
pub struct UnappliedSlash {
    /// The offending validator's stash.
    pub validator: u64,
    /// What the validator's own ledger loses.
    pub own: u64,
    /// What each backer's ledger loses.
    pub others: Vec<IndividualExposure>,
    /// The era the offence belongs to.
    pub slash_era: u64,
    /// The era at whose start the slash is applied.
    pub apply_era: u64,
}

/// Receives every applied slash: the per-stash running totals and the most
/// recent notification, as the external slash listener would see them. A
/// slash here only ever comes off the active stake of one era — unlocking
/// chunks are never touched — so the per-era breakdown of a notification is
/// the single pair (`last_slashed_era`, `last_slashed_total`).
pub struct EventListenerMock {
    /// stash -> sum of everything slashed off it so far.
    pub slash_observer: Table<u64>,
    /// Bonded stake left on the most recently slashed ledger.
    pub last_slashed_bonded: u64,
    /// Amount of the most recent slash.
    pub last_slashed_total: u64,
    /// The era the most recent slash was charged against.
    pub last_slashed_era: u64,
}

/// Collects the era payout remainder, as the remainder sink would.
pub struct RewardRemainderMock {
    pub total: u64,
}

/// Remembers whether any reward was minted, as the reward sink would.
pub struct MockReward {
    pub called: bool,
}

/// The restriction list: accounts barred from validating and nominating.
pub struct MockedRestrictList {
    pub list: Vec<u64>,
}

impl MockedRestrictList {
    pub fn contains(&self, who: u64) -> (r: bool)
        ensures
            r == self.list@.contains(who),
    {
        let n = self.list.len();
        let mut i: usize = 0;
        while i < n
            invariant
                n == self.list@.len(),
                i <= n,
                forall|j: int| 0 <= j < i ==> self.list@[j] != who,
            decreases n - i,
        {
            if self.list[i] == who {
                return true;
            }
            i = i + 1;
        }
        false
    }
}

/// The block author every block of the simulated chain names.
pub struct Author11;

impl Author11 {
    pub fn find_author() -> (r: Option<u64>)
        ensures
            r == Some(11u64),
    {
        Some(11)
    }
}

/// Session-handler hook of the simulated chain; it ignores every signal.
pub struct OtherSessionHandler;

/// The election provider seat: a deterministic stake-ranked election over the
/// engine's own candidate and nomination tables.
pub struct OnChainSeqPhragmen;

/// Nomination quota curve keyed on the nominator's balance.
pub struct WeightedNominationsQuota<const MAX: u32>;

impl<const MAX: u32> WeightedNominationsQuota<MAX> {
    /// How many targets a balance may nominate.
    pub fn curve(balance: u64) -> (r: u32)
        requires
            MAX <= 0xffff_fff0,
        ensures
            r == (if balance <= 110 {
                MAX as int
            } else if balance == 111 {
                0int
            } else if balance == 222 {
                2int
            } else if balance == 333 {
                MAX + 10
            } else {
                MAX as int
            }),
    {
        if balance <= 110 {
            MAX
        } else if balance == 111 {
            0
        } else if balance == 222 {
            2
        } else if balance == 333 {
            MAX + 10
        } else {
            MAX
        }
    }
}

/// The staking engine. All state lives here; nothing is process-global.
pub struct Staking {
    pub cfg: StakingConfig,
    /// stash -> controller.
    pub bonded: Table<u64>,
    /// controller -> ledger.
    pub ledgers: Table<StakingLedger>,
    /// stash -> reward destination.
    pub payees: Table<RewardDestination>,
    /// stash -> validator preferences of candidates.
    pub validators: Table<ValidatorPrefs>,
    /// stash -> nomination targets.
    pub nominators: Table<Vec<u64>>,
    /// Validators never slashed.
    pub invulnerables: Vec<u64>,
    /// Accounts barred from validating and nominating.
    pub restricted: MockedRestrictList,
    /// account -> free balance; the stand-in for the external currency ledger.
    pub balances: Table<u64>,
    pub total_issuance: u64,
    pub block: u64,
    pub timestamp: u64,
    pub session: u64,
    /// The era being built. Never behind the active era.
    pub current_era: u64,
    /// The era whose validator set is in force.
    pub active_era: u64,
    /// Timestamp at which the active era began.
    pub active_era_start: u64,
    /// A planned era still waits for its election result.
    pub election_pending: bool,
    /// era -> first session index of that era.
    pub eras_start_session: Table<u64>,
    /// Recent (era, first session) pairs, ascending, bounded by the history
    /// depth plus the slash deferral window.
    pub bonded_eras: Vec<(u64, u64)>,
    /// The validator set in force.
    pub session_validators: Vec<u64>,
    /// Stashes disabled by an offence until the era turns.
    pub disabled: Vec<u64>,
    /// (era, validator stash) -> exposure snapshot.
    pub eras_exposure: PairTable<Exposure>,
    /// era -> sum of every winner's exposure total.
    pub eras_total_stake: Table<u64>,
    /// era -> total reward points.
    pub points_total: Table<u64>,
    /// (era, validator stash) -> that validator's reward points.
    pub points_individual: PairTable<u64>,
    /// era -> payout pool computed when the era ended.
    pub eras_validator_reward: Table<u64>,
    /// (era, validator stash) -> exposure pages already paid.
    pub claimed_pages: PairTable<Vec<u64>>,
    /// (era, validator stash) -> highest slash fraction already applied, in
    /// parts per billion.
    pub slashed_fraction: PairTable<u32>,
    /// Slashes queued behind the deferral window.
    pub unapplied_slashes: Vec<UnappliedSlash>,
    /// Everything the engine has announced.
    pub events: Vec<Event>,
    /// How many events earlier `staking_events_since_last_call` calls consumed.
    pub events_seen: usize,
    pub listener: EventListenerMock,
    pub remainder: RewardRemainderMock,
    pub reward_sink: MockReward,
    /// Whether the closing consistency check is wanted.
    pub try_state_on: bool,
}

/// Structural soundness: the configuration is sane, every table keeps its
/// keys distinct, and the event cursor is in range. Every operation requires
/// and preserves this.
pub open spec fn wf_base(s: Staking) -> bool {
    &&& config_wf(s.cfg)
    &&& s.bonded.wf()
    &&& s.ledgers.wf()
    &&& s.payees.wf()
    &&& s.validators.wf()
    &&& s.nominators.wf()
    &&& s.balances.wf()
    &&& s.eras_start_session.wf()
    &&& s.eras_exposure.wf()
    &&& s.eras_total_stake.wf()
    &&& s.points_total.wf()
    &&& s.points_individual.wf()
    &&& s.eras_validator_reward.wf()
    &&& s.claimed_pages.wf()
    &&& s.slashed_fraction.wf()
    &&& s.listener.slash_observer.wf()
    &&& s.events_seen <= s.events@.len()
    &&& s.current_era < 0xffff_ffff_ffff
    &&& s.active_era < 0xffff_ffff_ffff
    &&& s.session < 0xffff_ffff_ffff
    &&& s.block < 0xffff_ffff_ffff
    &&& s.timestamp < 0xffff_ffff_ffff_ffff
}

/// Every ledger satisfies its arithmetic invariant: the total equals the
/// active stake plus the unlocking sum.
pub open spec fn ledgers_wf(s: Staking) -> bool {
    forall|c: u64| #[trigger] s.ledgers.m().contains_key(c) ==> ledger_wf(s.ledgers.m()[c]@)
}

/// The two registry maps mirror each other: a ledger under controller `c`
/// names a stash bonded to `c`, and a bonded stash's controller holds its
/// ledger. With this, no stash has two controllers and no controller serves
/// two stashes.
pub open spec fn registry_consistent(s: Staking) -> bool {
    &&& forall|c: u64| #[trigger] s.ledgers.m().contains_key(c) ==> {
        &&& s.bonded.m().contains_key(s.ledgers.m()[c]@.stash)
        &&& s.bonded.m()[s.ledgers.m()[c]@.stash] == c
    }
    &&& forall|st: u64| #[trigger] s.bonded.m().contains_key(st) ==> {
        &&& s.ledgers.m().contains_key(s.bonded.m()[st])
        &&& s.ledgers.m()[s.bonded.m()[st]]@.stash == st
    }
}

/// The registry invariant the consistency pass certifies.
pub open spec fn registry_wf(s: Staking) -> bool {
    ledgers_wf(s) && registry_consistent(s)
}

impl Staking {
    /// An engine with no stakers, at block zero of era zero.
    pub fn genesis(cfg: StakingConfig) -> (r: Staking)
        requires
            config_wf(cfg),
        ensures
            wf_base(r),
            registry_wf(r),
            r.cfg == cfg,
            r.bonded.m() == Map::<u64, u64>::empty(),
            r.ledgers.m() == Map::<u64, StakingLedger>::empty(),
            r.payees.m() == Map::<u64, RewardDestination>::empty(),
            r.validators.m() == Map::<u64, ValidatorPrefs>::empty(),
            r.nominators.m() == Map::<u64, Vec<u64>>::empty(),
            r.balances.m() == Map::<u64, u64>::empty(),
            r.total_issuance == 0,
            r.block == 0 && r.session == 0 && r.current_era == 0 && r.active_era == 0,
            r.events@ == Seq::<Event>::empty(),
            r.session_validators@ == Seq::<u64>::empty(),
            r.unapplied_slashes@.len() == 0,
            r.bonded_eras@ == Seq::<(u64, u64)>::empty(),
            r.election_pending == false,
            r.restricted.list@ == Seq::<u64>::empty(),
            r.try_state_on == true,
    {
        Staking {
            cfg,
            bonded: Table::new(),
            ledgers: Table::new(),
            payees: Table::new(),
            validators: Table::new(),
            nominators: Table::new(),
            invulnerables: Vec::new(),
            restricted: MockedRestrictList { list: Vec::new() },
            balances: Table::new(),
            total_issuance: 0,
            block: 0,
            timestamp: 0,
            session: 0,
            current_era: 0,
            active_era: 0,
            active_era_start: 0,
            election_pending: false,
            eras_start_session: Table::new(),
            bonded_eras: Vec::new(),
            session_validators: Vec::new(),
            disabled: Vec::new(),
            eras_exposure: PairTable::new(),
            eras_total_stake: Table::new(),
            points_total: Table::new(),
            points_individual: PairTable::new(),
            eras_validator_reward: Table::new(),
            claimed_pages: PairTable::new(),
            slashed_fraction: PairTable::new(),
            unapplied_slashes: Vec::new(),
            events: Vec::new(),
            events_seen: 0,
            listener: EventListenerMock {
                slash_observer: Table::new(),
                last_slashed_bonded: 0,
                last_slashed_total: 0,
                last_slashed_era: 0,
            },
            remainder: RewardRemainderMock { total: 0 },
            reward_sink: MockReward { called: false },
            try_state_on: true,
        }
    }

    /// Index of the era whose validator set is in force.
    pub fn active_era(&self) -> (r: u64)
        ensures
            r == self.active_era,
    {
        self.active_era
    }

    /// Index of the era being built.
    pub fn current_era(&self) -> (r: u64)
        ensures
            r == self.current_era,
    {
        self.current_era
    }

    /// Milliseconds one session takes.
    pub fn time_per_session(&self) -> (r: u64)
        requires
            config_wf(self.cfg),
        ensures
            r == self.cfg.period * BLOCK_TIME,
    {
        self.cfg.period * BLOCK_TIME
    }

    /// Milliseconds one era takes.
    pub fn time_per_era(&self) -> (r: u64)
        requires
            config_wf(self.cfg),
        ensures
            r == self.cfg.period * BLOCK_TIME * self.cfg.sessions_per_era,
            BLOCK_TIME <= r < 0x4000_0000_0000_0000,
    {
        proof {
            lemma_time_per_era_bounds(self.cfg.period as int, self.cfg.sessions_per_era as int);
        }
        self.time_per_session() * self.cfg.sessions_per_era
    }

    /// Milliseconds the payout of the first full era is computed over: the
    /// clock's timestamp trails the block by one, so the first era is one
    /// block short.
    pub fn reward_time_per_era(&self) -> (r: u64)
        requires
            config_wf(self.cfg),
        ensures
            r == self.cfg.period * BLOCK_TIME * self.cfg.sessions_per_era - BLOCK_TIME,
    {
        self.time_per_era() - BLOCK_TIME
    }

    /// Free balance of an account; absent accounts hold zero.
    pub fn balance(&self, who: u64) -> (r: u64)
        requires
            wf_base(*self),
        ensures
            r == (if self.balances.m().contains_key(who) {
                self.balances.m()[who] as int
            } else {
                0int
            }),
    {
        match self.balances.get(who) {
            Some(b) => *b,
            None => 0,
        }
    }

    /// Put an account's free balance, adjusting the issuance with it.
    pub fn set_balance(&mut self, who: u64, value: u64)
        requires
            wf_base(*old(self)),
        ensures
            wf_base(*final(self)),
            final(self).balances.m() == old(self).balances.m().insert(who, value),
            registry_wf(*old(self)) ==> registry_wf(*final(self)),
            *final(self) == (Staking {
                balances: final(self).balances,
                total_issuance: final(self).total_issuance,
                ..*old(self)
            }),
    {
        let prev = self.balance(who);
        let grow = if value >= prev {
            value - prev
        } else {
            0
        };
        let shrink = if prev >= value {
            prev - value
        } else {
            0
        };
        self.total_issuance = self.total_issuance.saturating_add(grow).saturating_sub(shrink);
        self.balances.insert(who, value);
    }

    /// Mint `amount` into an account, growing the issuance; both saturate.
    pub fn mint_into(&mut self, who: u64, amount: u64)
        requires
            wf_base(*old(self)),
        ensures
            wf_base(*final(self)),
            final(self).balances.m() == old(self).balances.m().insert(
                who,
                crate::state::sat_add(
                    if old(self).balances.m().contains_key(who) {
                        old(self).balances.m()[who]
                    } else {
                        0
                    },
                    amount,
                ),
            ),
            final(self).total_issuance == sat_add(old(self).total_issuance, amount),
            registry_wf(*old(self)) ==> registry_wf(*final(self)),
            *final(self) == (Staking {
                balances: final(self).balances,
                total_issuance: final(self).total_issuance,
                ..*old(self)
            }),
    {
        let prev = self.balance(who);
        self.balances.insert(who, prev.saturating_add(amount));
        self.total_issuance = self.total_issuance.saturating_add(amount);
    }

    /// Record an event.
    pub fn deposit_event(&mut self, e: Event)
        requires
            wf_base(*old(self)),
        ensures
            wf_base(*final(self)),
            final(self).events@ == old(self).events@.push(e),
            registry_wf(*old(self)) ==> registry_wf(*final(self)),
            *final(self) == (Staking { events: final(self).events, ..*old(self) }),
    {
        self.events.push(e);
    }

    /// Everything announced so far.
    pub fn staking_events(&self) -> (r: Vec<Event>)
        ensures
            r@ == self.events@,
    {
        let n = self.events.len();
        let mut out: Vec<Event> = Vec::new();
        let mut i: usize = 0;
        while i < n
            invariant
                n == self.events@.len(),
                i <= n,
                out@ == self.events@.take(i as int),
            decreases n - i,
        {
            out.push(self.events[i]);
            proof {
                assert(out@ =~= self.events@.take(i as int + 1));
            }
            i = i + 1;
        }
        proof {
            assert(self.events@.take(n as int) =~= self.events@);
        }
        out
    }

    /// The events announced since this was last asked.
    pub fn staking_events_since_last_call(&mut self) -> (r: Vec<Event>)
        requires
            wf_base(*old(self)),
        ensures
            wf_base(*final(self)),
            r@ == old(self).events@.skip(old(self).events_seen as int),
            final(self).events_seen == old(self).events@.len(),
            registry_wf(*old(self)) ==> registry_wf(*final(self)),
            *final(self) == (Staking { events_seen: final(self).events_seen, ..*old(self) }),
    {
        let n = self.events.len();
        let mut out: Vec<Event> = Vec::new();
        let mut i: usize = self.events_seen;
        while i < n
            invariant
                n == self.events@.len(),
                self.events_seen <= i <= n,
                out@ == self.events@.subrange(self.events_seen as int, i as int),
            decreases n - i,
        {
            out.push(self.events[i]);
            proof {
                assert(out@ =~= self.events@.subrange(self.events_seen as int, i as int + 1));
            }
            i = i + 1;
        }
        self.events_seen = n;
        proof {
            assert(out@ =~= old(self).events@.skip(old(self).events_seen as int));
        }
        out
    }

    /// Bar an account from validating and nominating.
    pub fn restrict(&mut self, who: u64)
        requires
            wf_base(*old(self)),
        ensures
            wf_base(*final(self)),
            final(self).restricted.list@ == (if old(self).restricted.list@.contains(who) {
                old(self).restricted.list@
            } else {
                old(self).restricted.list@.push(who)
            }),
            registry_wf(*old(self)) ==> registry_wf(*final(self)),
            *final(self) == (Staking { restricted: final(self).restricted, ..*old(self) }),
    {
        if !self.restricted.contains(who) {
            self.restricted.list.push(who);
        }
    }

    /// Lift an account's restriction.
    pub fn remove_from_restrict_list(&mut self, who: u64)
        requires
            wf_base(*old(self)),
        ensures
            wf_base(*final(self)),
            final(self).restricted.list@ == old(self).restricted.list@.filter(
                |x: u64| x != who,
            ),
            registry_wf(*old(self)) ==> registry_wf(*final(self)),
            *final(self) == (Staking { restricted: final(self).restricted, ..*old(self) }),
    {
        let n = self.restricted.list.len();
        let mut out: Vec<u64> = Vec::new();
        let mut i: usize = 0;
        while i < n
            invariant
                n == self.restricted.list@.len(),
                i <= n,
                self.restricted.list@ == old(self).restricted.list@,
                out@ == self.restricted.list@.take(i as int).filter(|x: u64| x != who),
            decreases n - i,
        {
            let x = self.restricted.list[i];
            if x != who {
                out.push(x);
            }
            proof {
                let s = self.restricted.list@;
                let pred = |y: u64| y != who;
                assert(s.take(i as int + 1).drop_last() =~= s.take(i as int));
                assert(s.take(i as int + 1).last() == s[i as int]);
                reveal(Seq::filter);
                assert(s.take(i as int + 1).filter(pred) == (if pred(s[i as int]) {
                    s.take(i as int).filter(pred).push(s[i as int])
                } else {
                    s.take(i as int).filter(pred)
                }));
            }
            i = i + 1;
        }
        proof {
            assert(self.restricted.list@.take(n as int) =~= self.restricted.list@);
        }
        self.restricted.list = out;
    }

    /// Whether the stash behind this controller is disabled in the current
    /// validator set.
    pub fn is_disabled(&self, controller: u64) -> (r: bool)
        requires
            wf_base(*self),
        ensures
            r == (self.ledgers.m().contains_key(controller) && self.session_validators@.contains(
                self.ledgers.m()[controller]@.stash,
            ) && self.disabled@.contains(self.ledgers.m()[controller]@.stash)),
    {
        let stash = match self.ledgers.get(controller) {
            Some(l) => l.stash,
            None => {
                return false;
            },
        };
        if !vec_contains(&self.session_validators, stash) {
            return false;
        }
        vec_contains(&self.disabled, stash)
    }

    /// Controllers of the validator set in force, in set order.
    pub fn validator_controllers(&self) -> (r: Vec<u64>)
        requires
            wf_base(*self),
        ensures
            r@ == spec_controllers_of(self.session_validators@, self.bonded.m()),
    {
        let n = self.session_validators.len();
        let mut out: Vec<u64> = Vec::new();
        let mut i: usize = 0;
        while i < n
            invariant
                n == self.session_validators@.len(),
                i <= n,
                wf_base(*self),
                out@ == spec_controllers_of(self.session_validators@.take(i as int), self.bonded.m()),
            decreases n - i,
        {
            proof {
                assert(self.session_validators@.take(i as int + 1).drop_last()
                    =~= self.session_validators@.take(i as int));
                assert(self.session_validators@.take(i as int + 1).last()
                    == self.session_validators@[i as int]);
            }
            if let Some(c) = self.bonded.get(self.session_validators[i]) {
                out.push(*c);
            }
            i = i + 1;
        }
        proof {
            assert(self.session_validators@.take(n as int) =~= self.session_validators@);
        }
        out
    }
}

proof fn lemma_time_per_era_bounds(period: int, spe: int)
    requires
        0 < period < 0x10_0000,
        0 < spe < 0x10_0000,
    ensures
        1000 <= period * 1000 * spe < 0x4000_0000_0000_0000,
{
    assert(1000 <= period * 1000 * spe < 0x4000_0000_0000_0000) by (nonlinear_arith)
        requires
            0 < period < 0x10_0000,
            0 < spe < 0x10_0000,
    ;
}

/// The controllers of the bonded stashes in a list, in list order; an
/// unbonded entry contributes nothing.
pub open spec fn spec_controllers_of(stashes: Seq<u64>, bonded: Map<u64, u64>) -> Seq<u64>
    decreases stashes.len(),
{
    if stashes.len() == 0 {
        Seq::empty()
    } else {
        let rest = spec_controllers_of(stashes.drop_last(), bonded);
        if bonded.contains_key(stashes.last()) {
            rest.push(bonded[stashes.last()])
        } else {
            rest
        }
    }
}

/// Saturating add on balances, as contracts state it.
pub open spec fn sat_add(a: u64, b: u64) -> u64 {
    if a + b <= u64::MAX {
        (a + b) as u64
    } else {
        u64::MAX
    }
}

/// Whether a vector holds a value.
pub fn vec_contains(v: &Vec<u64>, x: u64) -> (r: bool)
    ensures
        r == v@.contains(x),
{
    let n = v.len();
    let mut i: usize = 0;
    while i < n
        invariant
            n == v@.len(),
            i <= n,
            forall|j: int| 0 <= j < i ==> v@[j] != x,
        decreases n - i,
    {
        if v[i] == x {
            return true;
        }
        i = i + 1;
    }
    false
}

} // verus!
