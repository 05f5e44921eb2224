//! A deterministic staking engine: bonding ledgers keyed by stash and
//! controller accounts, an era/session clock, paginated exposure snapshots,
//! retroactive slashing over a bounded window of past eras, and reward-point
//! payouts that refuse double claims.

pub mod admin;
pub mod builder;
pub mod clock;
pub mod config;
pub mod election;
pub mod exposure;
pub mod frac;
pub mod laws;
pub mod pair_table;
pub mod registry;
pub mod rewards;
pub mod roles;
pub mod slash;
pub mod state;
pub mod table;
pub mod types;
