//! The genesis builder: a fluent configuration for a fresh engine with a
//! standard cast of funded accounts and stakers. `build` hands back a
//! running engine at the start of era zero.

use vstd::prelude::*;
use crate::config::StakingConfig;
use crate::config::config_wf;
use crate::config::INIT_TIMESTAMP;
use crate::clock::clock_wf;
use crate::state::Staking;
use crate::state::wf_base;
use crate::state::registry_wf;
use crate::types::RewardDestination;
use crate::types::StakerStatus;
use crate::types::ValidatorPrefs;

verus! {

/// Fluent genesis configuration.
pub struct ExtBuilder {
    pub nominate: bool,
    pub validator_count: u32,
    pub minimum_validator_count: u32,
    pub invulnerables: Vec<u64>,
    pub has_stakers: bool,
    pub initialize_first_session: bool,
    pub min_nominator_bond: u64,
    pub min_validator_bond: u64,
    pub balance_factor: u64,
    pub status: Vec<(u64, StakerStatus)>,
    pub stakes: Vec<(u64, u64)>,
    pub stakers: Vec<(u64, u64, u64, StakerStatus)>,
    pub existential_deposit: u64,
    pub slash_defer_duration: u64,
    pub session_per_era: u64,
    pub period: u64,
    pub offset: u64,
    pub try_state: bool,
}

impl Default for ExtBuilder {
    fn default() -> (r: ExtBuilder)
        ensures
            r.nominate == true,
            r.validator_count == 2,
            r.minimum_validator_count == 0,
            r.balance_factor == 1,
            r.invulnerables@ == Seq::<u64>::empty(),
            r.has_stakers == true,
            r.initialize_first_session == true,
            r.min_nominator_bond == 1,
            r.min_validator_bond == 1,
            r.status@ == Seq::<(u64, StakerStatus)>::empty(),
            r.stakes@ == Seq::<(u64, u64)>::empty(),
            r.stakers@ == Seq::<(u64, u64, u64, StakerStatus)>::empty(),
            r.existential_deposit == 1,
            r.slash_defer_duration == 0,
            r.session_per_era == 3,
            r.period == 5,
            r.offset == 0,
            r.try_state == true,
    {
        ExtBuilder {
            nominate: true,
            validator_count: 2,
            minimum_validator_count: 0,
            invulnerables: Vec::new(),
            has_stakers: true,
            initialize_first_session: true,
            min_nominator_bond: 1,
            min_validator_bond: 1,
            balance_factor: 1,
            status: Vec::new(),
            stakes: Vec::new(),
            stakers: Vec::new(),
            existential_deposit: 1,
            slash_defer_duration: 0,
            session_per_era: 3,
            period: 5,
            offset: 0,
            try_state: true,
        }
    }
}

impl ExtBuilder {
    pub fn existential_deposit(self, existential_deposit: u64) -> (r: ExtBuilder)
        ensures
            r == (ExtBuilder { existential_deposit, ..self }),
    {
        ExtBuilder { existential_deposit, ..self }
    }

    pub fn nominate(self, nominate: bool) -> (r: ExtBuilder)
        ensures
            r == (ExtBuilder { nominate, ..self }),
    {
        ExtBuilder { nominate, ..self }
    }

    pub fn validator_count(self, count: u32) -> (r: ExtBuilder)
        ensures
            r == (ExtBuilder { validator_count: count, ..self }),
    {
        ExtBuilder { validator_count: count, ..self }
    }

    pub fn minimum_validator_count(self, count: u32) -> (r: ExtBuilder)
        ensures
            r == (ExtBuilder { minimum_validator_count: count, ..self }),
    {
        ExtBuilder { minimum_validator_count: count, ..self }
    }

    pub fn slash_defer_duration(self, eras: u64) -> (r: ExtBuilder)
        ensures
            r == (ExtBuilder { slash_defer_duration: eras, ..self }),
    {
        ExtBuilder { slash_defer_duration: eras, ..self }
    }

    pub fn invulnerables(self, invulnerables: Vec<u64>) -> (r: ExtBuilder)
        ensures
            r == (ExtBuilder { invulnerables, ..self }),
    {
        ExtBuilder { invulnerables, ..self }
    }

    pub fn session_per_era(self, length: u64) -> (r: ExtBuilder)
        ensures
            r == (ExtBuilder { session_per_era: length, ..self }),
    {
        ExtBuilder { session_per_era: length, ..self }
    }

    pub fn period(self, length: u64) -> (r: ExtBuilder)
        ensures
            r == (ExtBuilder { period: length, ..self }),
    {
        ExtBuilder { period: length, ..self }
    }

    pub fn has_stakers(self, has: bool) -> (r: ExtBuilder)
        ensures
            r == (ExtBuilder { has_stakers: has, ..self }),
    {
        ExtBuilder { has_stakers: has, ..self }
    }

    pub fn initialize_first_session(self, init: bool) -> (r: ExtBuilder)
        ensures
            r == (ExtBuilder { initialize_first_session: init, ..self }),
    {
        ExtBuilder { initialize_first_session: init, ..self }
    }

    pub fn offset(self, offset: u64) -> (r: ExtBuilder)
        ensures
            r == (ExtBuilder { offset, ..self }),
    {
        ExtBuilder { offset, ..self }
    }

    pub fn min_nominator_bond(self, amount: u64) -> (r: ExtBuilder)
        ensures
            r == (ExtBuilder { min_nominator_bond: amount, ..self }),
    {
        ExtBuilder { min_nominator_bond: amount, ..self }
    }

    pub fn min_validator_bond(self, amount: u64) -> (r: ExtBuilder)
        ensures
            r == (ExtBuilder { min_validator_bond: amount, ..self }),
    {
        ExtBuilder { min_validator_bond: amount, ..self }
    }

    pub fn set_status(self, who: u64, status: StakerStatus) -> (r: ExtBuilder)
        ensures
            r.status@ == self.status@.push((who, status)),
            r == (ExtBuilder { status: r.status, ..self }),
    {
        let mut b = self;
        b.status.push((who, status));
        b
    }

    pub fn set_stake(self, who: u64, stake: u64) -> (r: ExtBuilder)
        ensures
            r.stakes@ == self.stakes@.push((who, stake)),
            r == (ExtBuilder { stakes: r.stakes, ..self }),
    {
        let mut b = self;
        b.stakes.push((who, stake));
        b
    }

    pub fn add_staker(self, stash: u64, ctrl: u64, stake: u64, status: StakerStatus) -> (r:
        ExtBuilder)
        ensures
            r.stakers@ == self.stakers@.push((stash, ctrl, stake, status)),
            r == (ExtBuilder { stakers: r.stakers, ..self }),
    {
        let mut b = self;
        b.stakers.push((stash, ctrl, stake, status));
        b
    }

    pub fn balance_factor(self, factor: u64) -> (r: ExtBuilder)
        ensures
            r == (ExtBuilder { balance_factor: factor, ..self }),
    {
        ExtBuilder { balance_factor: factor, ..self }
    }

    pub fn try_state(self, enable: bool) -> (r: ExtBuilder)
        ensures
            r == (ExtBuilder { try_state: enable, ..self }),
    {
        ExtBuilder { try_state: enable, ..self }
    }

    /// The configuration this builder describes, as a value.
    pub open spec fn config_spec(&self) -> StakingConfig {
        StakingConfig {
            sessions_per_era: spec_clamped(self.session_per_era, 1, 0xf_ffff),
            bonding_duration: 3,
            slash_defer_duration: spec_clamped(self.slash_defer_duration, 0, 0xfff_ffff),
            history_depth: 80,
            max_unlocking_chunks: 32,
            max_exposure_page_size: 64,
            validator_count: self.validator_count as usize,
            minimum_validator_count: self.minimum_validator_count as usize,
            period: spec_clamped(self.period, 1, 0xf_ffff),
            offset: spec_clamped(self.offset, 0, 0xf_ffff_ffff),
            existential_deposit: self.existential_deposit,
            min_nominator_bond: self.min_nominator_bond,
            min_validator_bond: self.min_validator_bond,
            max_nominations: 16,
        }
    }

    /// The configuration this builder describes, with out-of-range clock
    /// parameters clamped into the supported window.
    pub fn config(&self) -> (r: StakingConfig)
        ensures
            config_wf(r),
            r == self.config_spec(),
            r.sessions_per_era == spec_clamped(self.session_per_era, 1, 0xf_ffff),
            r.bonding_duration == 3,
            r.slash_defer_duration == spec_clamped(self.slash_defer_duration, 0, 0xfff_ffff),
            r.history_depth == 80,
            r.max_unlocking_chunks == 32,
            r.max_exposure_page_size == 64,
            r.validator_count as int == self.validator_count as int,
            r.minimum_validator_count as int == self.minimum_validator_count as int,
            r.period == spec_clamped(self.period, 1, 0xf_ffff),
            r.offset == spec_clamped(self.offset, 0, 0xf_ffff_ffff),
            r.existential_deposit == self.existential_deposit,
            r.min_nominator_bond == self.min_nominator_bond,
            r.min_validator_bond == self.min_validator_bond,
            r.max_nominations == 16,
    {
        StakingConfig {
            sessions_per_era: clamp(self.session_per_era, 1, 0xf_ffff),
            bonding_duration: 3,
            slash_defer_duration: clamp(self.slash_defer_duration, 0, 0xfff_ffff),
            history_depth: 80,
            max_unlocking_chunks: 32,
            max_exposure_page_size: 64,
            validator_count: self.validator_count as usize,
            minimum_validator_count: self.minimum_validator_count as usize,
            period: clamp(self.period, 1, 0xf_ffff),
            offset: clamp(self.offset, 0, 0xf_ffff_ffff),
            existential_deposit: self.existential_deposit,
            min_nominator_bond: self.min_nominator_bond,
            min_validator_bond: self.min_validator_bond,
            max_nominations: 16,
        }
    }

    /// Build the engine: fund the standard accounts, bond and role the
    /// genesis stakers, seat era zero, and run the first block with the
    /// clock reset to the initial timestamp.
    #[verifier::rlimit(100)]
    pub fn build(self) -> (r: Staking)
        requires
            self.has_stakers ==> forall|i: int|
                0 <= i < self.status@.len() ==> spec_default_staker(
                    (#[trigger] self.status@[i]).0,
                    self.nominate,
                ),
            self.has_stakers ==> forall|i: int|
                0 <= i < self.stakes@.len() ==> spec_default_staker(
                    (#[trigger] self.stakes@[i]).0,
                    self.nominate,
                ),
        ensures
            wf_base(r),
            registry_wf(r),
            clock_wf(r),
            r.try_state_on == self.try_state,
            r.cfg == self.config_spec(),
            spec_plain_genesis(self) ==> {
                &&& spec_staker_settled(
                    r,
                    (11u64, 11u64, (self.balance_factor * 1000) as u64, StakerStatus::Validator),
                )
                &&& spec_staker_settled(
                    r,
                    (21u64, 21u64, (self.balance_factor * 1000) as u64, StakerStatus::Validator),
                )
                &&& spec_staker_settled(
                    r,
                    (31u64, 31u64, (self.balance_factor * 500) as u64, StakerStatus::Validator),
                )
                &&& spec_staker_settled(
                    r,
                    (41u64, 41u64, (self.balance_factor * 1000) as u64, StakerStatus::Idle),
                )
                &&& spec_staker_settled(
                    r,
                    (51u64, 51u64, (self.balance_factor * 1000) as u64, StakerStatus::Idle),
                )
                &&& spec_staker_settled(
                    r,
                    (201u64, 201u64, (self.balance_factor * 1000) as u64, StakerStatus::Idle),
                )
                &&& spec_staker_settled(
                    r,
                    (202u64, 202u64, (self.balance_factor * 1000) as u64, StakerStatus::Idle),
                )
                &&& r.bonded.m().contains_key(101) && r.bonded.m()[101] == 101
                &&& r.ledgers.m().contains_key(101) && r.ledgers.m()[101]@ == (
                crate::types::LedgerShape {
                    stash: 101,
                    total: (self.balance_factor * 500) as u64,
                    active: (self.balance_factor * 500) as u64,
                    unlocking: Seq::<crate::types::UnlockChunk>::empty(),
                })
                &&& r.nominators.m().contains_key(101) && r.nominators.m()[101]@ == seq![
                    11u64,
                    21u64,
                ]
            },
            spec_plain_genesis(self) && self.validator_count >= 1
                && self.minimum_validator_count <= 1 ==> !r.election_pending,
            r.balances.m().contains_key(1) && r.balances.m()[1] == spec_sat_mul(
                self.balance_factor,
                10,
            ),
            r.balances.m().contains_key(11) && r.balances.m()[11] == crate::state::sat_add(
                spec_sat_mul(self.balance_factor, 1000),
                self.existential_deposit,
            ),
            r.balances.m().contains_key(21) && r.balances.m()[21] == crate::state::sat_add(
                spec_sat_mul(self.balance_factor, 2000),
                self.existential_deposit,
            ),
            r.balances.m().contains_key(101) && r.balances.m()[101] == crate::state::sat_add(
                spec_sat_mul(self.balance_factor, 2000),
                self.existential_deposit,
            ),
            r.balances.m().contains_key(999) && r.balances.m()[999] == 1_000_000_000_000,
            self.initialize_first_session ==> r.block == 1 && r.timestamp == INIT_TIMESTAMP
                && r.active_era_start == INIT_TIMESTAMP,
            !self.initialize_first_session ==> r.block == 0,
    {
        let cfg = self.config();
        let ghost plain = spec_plain_genesis(self);
        let ghost me = self;
        let mut s = Staking::genesis(cfg);
        s.try_state_on = self.try_state;
        let bf = self.balance_factor;
        let ed = self.existential_deposit;
        s.set_balance(1, sat_mul(bf, 10));
        s.set_balance(2, sat_mul(bf, 20));
        s.set_balance(3, sat_mul(bf, 300));
        s.set_balance(4, sat_mul(bf, 400));
        s.set_balance(10, bf);
        s.set_balance(20, bf);
        s.set_balance(30, bf);
        s.set_balance(40, bf);
        s.set_balance(50, bf);
        s.set_balance(11, sat_mul(bf, 1000).saturating_add(ed));
        s.set_balance(21, sat_mul(bf, 2000).saturating_add(ed));
        s.set_balance(31, sat_mul(bf, 2000).saturating_add(ed));
        s.set_balance(41, sat_mul(bf, 2000).saturating_add(ed));
        s.set_balance(51, sat_mul(bf, 2000).saturating_add(ed));
        s.set_balance(201, sat_mul(bf, 2000).saturating_add(ed));
        s.set_balance(202, sat_mul(bf, 2000).saturating_add(ed));
        s.set_balance(100, sat_mul(bf, 2000).saturating_add(ed));
        s.set_balance(101, sat_mul(bf, 2000).saturating_add(ed));
        s.set_balance(60, bf);
        s.set_balance(61, sat_mul(bf, 2000).saturating_add(ed));
        s.set_balance(70, bf);
        s.set_balance(71, sat_mul(bf, 2000));
        s.set_balance(80, bf);
        s.set_balance(81, sat_mul(bf, 2000));
        s.set_balance(999, 1_000_000_000_000);
        let ghost bal = s.balances;
        if self.has_stakers {
            let mut list: Vec<(u64, u64, u64, StakerStatus)> = Vec::new();
            list.push((11, 11, sat_mul(bf, 1000), StakerStatus::Validator));
            list.push((21, 21, sat_mul(bf, 1000), StakerStatus::Validator));
            list.push((31, 31, sat_mul(bf, 500), StakerStatus::Validator));
            list.push((41, 41, sat_mul(bf, 1000), StakerStatus::Idle));
            list.push((51, 51, sat_mul(bf, 1000), StakerStatus::Idle));
            list.push((201, 201, sat_mul(bf, 1000), StakerStatus::Idle));
            list.push((202, 202, sat_mul(bf, 1000), StakerStatus::Idle));
            if self.nominate {
                let mut targets: Vec<u64> = Vec::new();
                targets.push(11);
                targets.push(21);
                list.push((101, 101, sat_mul(bf, 500), StakerStatus::Nominator(targets)));
            }
            let ghost list0 = list@;
            let overrides_n = self.status.len();
            let mut oi: usize = 0;
            while oi < overrides_n
                invariant
                    overrides_n == self.status@.len(),
                    oi <= overrides_n,
                    plain == spec_plain_genesis(me),
                    me == self,
                    plain ==> list@ == list0,
                decreases overrides_n - oi,
            {
                let who = self.status[oi].0;
                let ln = list.len();
                let mut li: usize = 0;
                while li < ln
                    invariant
                        ln == list@.len(),
                        li <= ln,
                        oi < self.status@.len(),
                        plain == spec_plain_genesis(me),
                        me == self,
                        plain ==> list@ == list0,
                    decreases ln - li,
                {
                    if list[li].0 == who {
                        let entry = (list[li].0, list[li].1, list[li].2, clone_status(
                            &self.status[oi].1,
                        ));
                        list[li] = entry;
                    }
                    li = li + 1;
                }
                oi = oi + 1;
            }
            let stakes_n = self.stakes.len();
            let mut si: usize = 0;
            while si < stakes_n
                invariant
                    stakes_n == self.stakes@.len(),
                    si <= stakes_n,
                    plain == spec_plain_genesis(me),
                    me == self,
                    plain ==> list@ == list0,
                decreases stakes_n - si,
            {
                let (who, stake) = (self.stakes[si].0, self.stakes[si].1);
                let ln = list.len();
                let mut li: usize = 0;
                while li < ln
                    invariant
                        ln == list@.len(),
                        li <= ln,
                        si < stakes_n,
                        stakes_n == self.stakes@.len(),
                        plain == spec_plain_genesis(me),
                        me == self,
                        plain ==> list@ == list0,
                    decreases ln - li,
                {
                    if list[li].0 == who {
                        let entry = (list[li].0, list[li].1, stake, clone_status(&list[li].3));
                        list[li] = entry;
                    }
                    li = li + 1;
                }
                si = si + 1;
            }
            let extra_n = self.stakers.len();
            let mut ei: usize = 0;
            while ei < extra_n
                invariant
                    extra_n == self.stakers@.len(),
                    ei <= extra_n,
                    plain == spec_plain_genesis(me),
                    me == self,
                    plain ==> list@ == list0,
                decreases extra_n - ei,
            {
                let e = (self.stakers[ei].0, self.stakers[ei].1, self.stakers[ei].2, clone_status(
                    &self.stakers[ei].3,
                ));
                list.push(e);
                ei = ei + 1;
            }
            proof {
                if plain {
                    vstd::arithmetic::mul::lemma_mul_inequality(500, 2000, me.balance_factor as int);
                    vstd::arithmetic::mul::lemma_mul_inequality(1000, 2000, me.balance_factor as int);
                    vstd::arithmetic::mul::lemma_mul_inequality(500, 1000, me.balance_factor as int);
                    vstd::arithmetic::mul::lemma_mul_inequality(1, me.balance_factor as int, 500);
                    assert(spec_sat_mul(bf, 1000) == (me.balance_factor * 1000) as u64);
                    assert(spec_sat_mul(bf, 500) == (me.balance_factor * 500) as u64);
                    assert(list@.len() == 8);
                    assert(list@[7].0 == 101 && list@[7].2 == (me.balance_factor * 500) as u64);
                    assert(list@[7].3 matches StakerStatus::Nominator(t) && t@ == seq![
                        11u64,
                        21u64,
                    ]);
                }
            }
            let ln = list.len();
            let mut li: usize = 0;
            while li < ln
                invariant
                    wf_base(s),
                    registry_wf(s),
                    ln == list@.len(),
                    li <= ln,
                    s.block == 0 && s.session == 0 && s.current_era == 0 && s.active_era == 0,
                    s.election_pending == false,
                    s.cfg == cfg,
                    cfg == me.config_spec(),
                    s.try_state_on == me.try_state,
                    s.balances == bal,
                    s.restricted.list@ == Seq::<u64>::empty(),
                    s.unapplied_slashes@.len() == 0,
                    plain == spec_plain_genesis(me),
                    plain ==> me.balance_factor * 2000 <= u64::MAX,
                    plain ==> {
                        &&& ln == 8
                        &&& list@[0] == (11u64, 11u64, (me.balance_factor * 1000) as u64,
                        StakerStatus::Validator)
                        &&& list@[1] == (21u64, 21u64, (me.balance_factor * 1000) as u64,
                        StakerStatus::Validator)
                        &&& list@[2] == (31u64, 31u64, (me.balance_factor * 500) as u64,
                        StakerStatus::Validator)
                        &&& list@[3] == (41u64, 41u64, (me.balance_factor * 1000) as u64,
                        StakerStatus::Idle)
                        &&& list@[4] == (51u64, 51u64, (me.balance_factor * 1000) as u64,
                        StakerStatus::Idle)
                        &&& list@[5] == (201u64, 201u64, (me.balance_factor * 1000) as u64,
                        StakerStatus::Idle)
                        &&& list@[6] == (202u64, 202u64, (me.balance_factor * 1000) as u64,
                        StakerStatus::Idle)
                        &&& list@[7].0 == 101 && list@[7].2 == (me.balance_factor * 500) as u64
                        &&& (list@[7].3 matches StakerStatus::Nominator(t) && t@ == seq![
                            11u64,
                            21u64,
                        ])
                    },
                    plain && li >= 1 ==> spec_staker_settled(
                        s,
                        (11u64, 11u64, (me.balance_factor * 1000) as u64, StakerStatus::Validator),
                    ),
                    plain && li >= 2 ==> spec_staker_settled(
                        s,
                        (21u64, 21u64, (me.balance_factor * 1000) as u64, StakerStatus::Validator),
                    ),
                    plain && li >= 3 ==> spec_staker_settled(
                        s,
                        (31u64, 31u64, (me.balance_factor * 500) as u64, StakerStatus::Validator),
                    ),
                    plain && li >= 4 ==> spec_staker_settled(
                        s,
                        (41u64, 41u64, (me.balance_factor * 1000) as u64, StakerStatus::Idle),
                    ),
                    plain && li >= 5 ==> spec_staker_settled(
                        s,
                        (51u64, 51u64, (me.balance_factor * 1000) as u64, StakerStatus::Idle),
                    ),
                    plain && li >= 6 ==> spec_staker_settled(
                        s,
                        (201u64, 201u64, (me.balance_factor * 1000) as u64, StakerStatus::Idle),
                    ),
                    plain && li >= 7 ==> spec_staker_settled(
                        s,
                        (202u64, 202u64, (me.balance_factor * 1000) as u64, StakerStatus::Idle),
                    ),
                    plain && li >= 8 ==> {
                        &&& s.bonded.m().contains_key(101) && s.bonded.m()[101] == 101
                        &&& s.ledgers.m().contains_key(101) && s.ledgers.m()[101]@ == (
                        crate::types::LedgerShape {
                            stash: 101,
                            total: (me.balance_factor * 500) as u64,
                            active: (me.balance_factor * 500) as u64,
                            unlocking: Seq::<crate::types::UnlockChunk>::empty(),
                        })
                        &&& s.nominators.m().contains_key(101) && s.nominators.m()[101]@ == seq![
                            11u64,
                            21u64,
                        ]
                    },
                    plain && li < 1 ==> !s.bonded.m().contains_key(11)
                        && !s.ledgers.m().contains_key(11),
                    plain && li < 2 ==> !s.bonded.m().contains_key(21)
                        && !s.ledgers.m().contains_key(21),
                    plain && li < 3 ==> !s.bonded.m().contains_key(31)
                        && !s.ledgers.m().contains_key(31),
                    plain && li < 4 ==> !s.bonded.m().contains_key(41)
                        && !s.ledgers.m().contains_key(41),
                    plain && li < 5 ==> !s.bonded.m().contains_key(51)
                        && !s.ledgers.m().contains_key(51),
                    plain && li < 6 ==> !s.bonded.m().contains_key(201)
                        && !s.ledgers.m().contains_key(201),
                    plain && li < 7 ==> !s.bonded.m().contains_key(202)
                        && !s.ledgers.m().contains_key(202),
                    plain && li < 8 ==> !s.bonded.m().contains_key(101)
                        && !s.ledgers.m().contains_key(101),
                decreases ln - li,
            {
                let stash = list[li].0;
                let stake = list[li].2;
                proof {
                    if plain {
                        vstd::arithmetic::mul::lemma_mul_inequality(
                            500,
                            1000,
                            me.balance_factor as int,
                        );
                        vstd::arithmetic::mul::lemma_mul_inequality(
                            1,
                            me.balance_factor as int,
                            500,
                        );
                    }
                }
                let rb = s.bond(stash, stake, RewardDestination::Staked);
                match &list[li].3 {
                    StakerStatus::Validator => {
                        let rv = s.validate(stash, ValidatorPrefs { commission_parts: 0 });
                        proof {
                            if plain && li < 3 {
                                assert(rb is Ok);
                                assert(rv is Ok);
                            }
                        }
                    },
                    StakerStatus::Nominator(targets) => {
                        let mut t: Vec<u64> = Vec::new();
                        let tn = targets.len();
                        let mut ti: usize = 0;
                        while ti < tn
                            invariant
                                tn == targets@.len(),
                                ti <= tn,
                                t@ == targets@.take(ti as int),
                            decreases tn - ti,
                        {
                            t.push(targets[ti]);
                            proof {
                                assert(t@ =~= targets@.take(ti as int + 1));
                            }
                            ti = ti + 1;
                        }
                        proof {
                            assert(targets@.take(tn as int) =~= targets@);
                        }
                        let rn = s.nominate(stash, t);
                        proof {
                            if plain && li == 7 {
                                assert(rb is Ok);
                                assert(rn is Ok);
                            }
                        }
                    },
                    StakerStatus::Idle => {},
                }
                li = li + 1;
            }
        }
        s.invulnerables = self.invulnerables;
        proof {
            if plain && me.validator_count >= 1 && me.minimum_validator_count <= 1 {
                vstd::arithmetic::mul::lemma_mul_inequality(500, 1000, me.balance_factor as int);
                assert(crate::election::spec_eligible(s, 11));
            }
        }
        s.try_start_era(0);
        proof {
            if plain && me.validator_count >= 1 && me.minimum_validator_count <= 1 {
                assert(crate::election::spec_eligible(s, 11));
            }
        }
        if self.initialize_first_session {
            s.run_to_block(1);
            s.timestamp = INIT_TIMESTAMP;
            s.active_era_start = INIT_TIMESTAMP;
        }
        s
    }
}

/// Saturating product.
fn sat_mul(a: u64, b: u64) -> (r: u64)
    ensures
        r == (if a * b <= u64::MAX {
            a * b
        } else {
            u64::MAX as int
        }),
{
    match a.checked_mul(b) {
        Some(x) => x,
        None => u64::MAX,
    }
}

/// The saturating product, as contracts state it.
pub open spec fn spec_sat_mul(a: u64, b: u64) -> u64 {
    if a * b <= u64::MAX {
        (a * b) as u64
    } else {
        u64::MAX
    }
}

/// The stashes of the standard genesis cast; overrides may name only these.
pub open spec fn spec_default_staker(who: u64, nominate: bool) -> bool {
    ||| who == 11
    ||| who == 21
    ||| who == 31
    ||| who == 41
    ||| who == 51
    ||| who == 201
    ||| who == 202
    ||| (nominate && who == 101)
}

/// The standard genesis staker cast, untouched by overrides: every override
/// list is empty, stakers and the default nominator are wanted, and the
/// balance factor keeps every stake exact and at least one.
pub open spec fn spec_plain_genesis(b: ExtBuilder) -> bool {
    &&& b.has_stakers
    &&& b.nominate
    &&& b.status@.len() == 0
    &&& b.stakes@.len() == 0
    &&& b.stakers@.len() == 0
    &&& b.balance_factor >= 1
    &&& b.balance_factor * 2000 <= u64::MAX
    &&& b.min_validator_bond <= b.balance_factor * 500
    &&& b.min_nominator_bond <= b.balance_factor * 500
}

/// A genesis staker stands in the registry: bonded to itself over a fresh
/// ledger of its stake, paid by re-staking, with its declared role.
pub open spec fn spec_staker_settled(s: Staking, e: (u64, u64, u64, StakerStatus)) -> bool {
    &&& s.bonded.m().contains_key(e.0)
    &&& s.bonded.m()[e.0] == e.0
    &&& s.ledgers.m().contains_key(e.0)
    &&& s.ledgers.m()[e.0]@ == (crate::types::LedgerShape {
        stash: e.0,
        total: e.2,
        active: e.2,
        unlocking: Seq::<crate::types::UnlockChunk>::empty(),
    })
    &&& s.payees.m().contains_key(e.0)
    &&& s.payees.m()[e.0] == RewardDestination::Staked
    &&& (e.3 is Validator ==> s.validators.m().contains_key(e.0) && s.validators.m()[e.0]
        == (ValidatorPrefs { commission_parts: 0 }))
}

/// A value forced into `[lo, hi]`.
pub open spec fn spec_clamped(v: u64, lo: u64, hi: u64) -> u64 {
    if v < lo {
        lo
    } else if v > hi {
        hi
    } else {
        v
    }
}

/// The smaller of two, floored at `lo`.
fn clamp(v: u64, lo: u64, hi: u64) -> (r: u64)
    requires
        lo <= hi,
    ensures
        r == spec_clamped(v, lo, hi),
        lo <= r <= hi,
{
    if v < lo {
        lo
    } else if v > hi {
        hi
    } else {
        v
    }
}

/// An equal copy of a staker status.
fn clone_status(s: &StakerStatus) -> (r: StakerStatus)
    ensures
        match s {
            StakerStatus::Validator => r == StakerStatus::Validator,
            StakerStatus::Idle => r == StakerStatus::Idle,
            StakerStatus::Nominator(t) => r matches StakerStatus::Nominator(t2) && t2@ == t@,
        },
{
    match s {
        StakerStatus::Validator => StakerStatus::Validator,
        StakerStatus::Idle => StakerStatus::Idle,
        StakerStatus::Nominator(targets) => {
            let mut t: Vec<u64> = Vec::new();
            let n = targets.len();
            let mut i: usize = 0;
            while i < n
                invariant
                    n == targets@.len(),
                    i <= n,
                    t@ == targets@.take(i as int),
                decreases n - i,
            {
                t.push(targets[i]);
                proof {
                    assert(t@ =~= targets@.take(i as int + 1));
                }
                i = i + 1;
            }
            proof {
                assert(targets@.take(n as int) =~= targets@);
            }
            StakerStatus::Nominator(t)
        },
    }
}

} // verus!
