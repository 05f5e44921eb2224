//! The engine's immutable configuration: era geometry, bounds on every
//! collection, and minimum bonds. One value of this struct is handed to the
//! engine at construction; nothing mutates it afterwards.

use vstd::prelude::*;

verus! {

/// Milliseconds of simulated time per block.
pub const BLOCK_TIME: u64 = 1000;

/// Timestamp the clock is reset to when the first session is initialized.
pub const INIT_TIMESTAMP: u64 = 30_000;

/// Milliseconds per year, for annualizing the inflation curve.
pub const MILLIS_PER_YEAR: u64 = 31_557_600_000;

#[derive(Clone, Copy, PartialEq, Eq, Structural, Debug)]
pub struct StakingConfig {
    /// Sessions in one era.
    pub sessions_per_era: u64,
    /// Eras an unbonded chunk waits before it can be withdrawn.
    pub bonding_duration: u64,
    /// Eras a slash waits before it is applied; zero applies it at once.
    pub slash_defer_duration: u64,
    /// How many past eras stay claimable and slashable.
    pub history_depth: u64,
    /// Most unlocking chunks one ledger may hold.
    pub max_unlocking_chunks: usize,
    /// Most backers recorded in one exposure page.
    pub max_exposure_page_size: usize,
    /// How many validators an election seats.
    pub validator_count: usize,
    /// Fewest validators an election may seat and still succeed.
    pub minimum_validator_count: usize,
    /// Blocks in one session.
    pub period: u64,
    /// Block offset of the first session boundary.
    pub offset: u64,
    /// Least balance an account keeps outside the stake.
    pub existential_deposit: u64,
    /// Least active stake of a nominator.
    pub min_nominator_bond: u64,
    /// Least active stake of a validator candidate.
    pub min_validator_bond: u64,
    /// Most targets one nomination may carry.
    pub max_nominations: usize,
}

pub open spec fn config_wf(c: StakingConfig) -> bool {
    &&& c.sessions_per_era > 0
    &&& c.period > 0
    &&& c.max_exposure_page_size > 0
    &&& c.bonding_duration < 0x1000_0000
    &&& c.history_depth < 0x1000_0000
    &&& c.slash_defer_duration < 0x1000_0000
    &&& c.sessions_per_era < 0x10_0000
    &&& c.period < 0x10_0000
    &&& c.offset < 0x10_0000_0000
}

impl StakingConfig {
    /// A small standard configuration: three-session eras of five-block
    /// sessions, with the usual bounds.
    pub fn standard() -> (r: StakingConfig)
        ensures
            config_wf(r),
            r.sessions_per_era == 3,
            r.bonding_duration == 3,
            r.slash_defer_duration == 0,
            r.history_depth == 80,
            r.max_unlocking_chunks == 32,
            r.max_exposure_page_size == 64,
            r.validator_count == 2,
            r.minimum_validator_count == 0,
            r.period == 5,
            r.offset == 0,
            r.existential_deposit == 1,
            r.min_nominator_bond == 1,
            r.min_validator_bond == 1,
            r.max_nominations == 16,
    {
        StakingConfig {
            sessions_per_era: 3,
            bonding_duration: 3,
            slash_defer_duration: 0,
            history_depth: 80,
            max_unlocking_chunks: 32,
            max_exposure_page_size: 64,
            validator_count: 2,
            minimum_validator_count: 0,
            period: 5,
            offset: 0,
            existential_deposit: 1,
            min_nominator_bond: 1,
            min_validator_bond: 1,
            max_nominations: 16,
        }
    }
}

} // verus!
