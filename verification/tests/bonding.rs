use staking_engine::builder::ExtBuilder;
use staking_engine::types::Error;
use staking_engine::types::RewardDestination;
use staking_engine::types::ValidatorPrefs;

fn empty_engine() -> staking_engine::state::Staking {
    ExtBuilder::default().has_stakers(false).initialize_first_session(false).build()
}

#[test]
fn a_bare_genesis_engine_is_empty_and_consistent() {
    let s = staking_engine::state::Staking::genesis(
        staking_engine::config::StakingConfig::standard(),
    );
    assert_eq!(s.active_era(), 0);
    assert_eq!(s.current_era(), 0);
    assert_eq!(s.total_issuance, 0);
    assert_eq!(s.do_try_state(), Ok(()));
}

#[test]
fn bond_creates_a_self_controlled_ledger() {
    let mut s = empty_engine();
    assert_eq!(s.bond(1, 10, RewardDestination::Stash), Ok(()));
    assert_eq!(s.active_of(1), Some(10));
    let l = s.ledgers.get(1).unwrap();
    assert_eq!(l.stash, 1);
    assert_eq!(l.total, 10);
    assert_eq!(l.active, 10);
    assert_eq!(l.unlocking.len(), 0);
    assert_eq!(*s.bonded.get(1).unwrap(), 1);
    assert_eq!(*s.payees.get(1).unwrap(), RewardDestination::Stash);
}

#[test]
fn bonding_twice_is_refused() {
    let mut s = empty_engine();
    assert_eq!(s.bond(1, 10, RewardDestination::Stash), Ok(()));
    assert_eq!(s.bond(1, 20, RewardDestination::Stash), Err(Error::AlreadyBonded));
    // The refused call changed nothing.
    assert_eq!(s.ledgers.get(1).unwrap().total, 10);
}

#[test]
fn bond_extra_raises_active_and_total() {
    let mut s = empty_engine();
    s.bond(1, 10, RewardDestination::Stash).unwrap();
    assert_eq!(s.bond_extra(1, 5), Ok(()));
    let l = s.ledgers.get(1).unwrap();
    assert_eq!(l.total, 15);
    assert_eq!(l.active, 15);
    assert_eq!(s.bond_extra(2, 5), Err(Error::NoLedger));
}

#[test]
fn unbond_moves_stake_into_a_chunk() {
    let mut s = empty_engine();
    s.bond(1, 100, RewardDestination::Stash).unwrap();
    assert_eq!(s.unbond(1, 40), Ok(()));
    let l = s.ledgers.get(1).unwrap();
    assert_eq!(l.total, 100);
    assert_eq!(l.active, 60);
    assert_eq!(l.unlocking.len(), 1);
    assert_eq!(l.unlocking[0].value, 40);
    // current era 0, bonding duration 3.
    assert_eq!(l.unlocking[0].era, 3);
    assert_eq!(s.do_try_state(), Ok(()));
}

#[test]
fn unbond_more_than_active_is_refused() {
    let mut s = empty_engine();
    s.bond(1, 100, RewardDestination::Stash).unwrap();
    assert_eq!(s.unbond(1, 101), Err(Error::InsufficientActiveStake));
    assert_eq!(s.unbond(2, 1), Err(Error::NotStash));
}

#[test]
fn unbonds_of_the_same_era_merge_into_one_chunk() {
    let mut s = empty_engine();
    s.bond(1, 100, RewardDestination::Stash).unwrap();
    s.unbond(1, 10).unwrap();
    s.unbond(1, 15).unwrap();
    let l = s.ledgers.get(1).unwrap();
    assert_eq!(l.unlocking.len(), 1);
    assert_eq!(l.unlocking[0].value, 25);
    assert_eq!(l.active, 75);
    assert_eq!(l.total, 100);
}

#[test]
fn the_chunk_bound_is_enforced_once_merging_cannot_help() {
    // One chunk per era for 32 eras fills the ledger's chunk list; the
    // next unbond, in a fresh era, has nowhere to go.
    let mut s = ExtBuilder::default().nominate(false).build();
    assert_eq!(s.unbond(11, 1), Ok(()));
    for era in 1..=31u64 {
        s.start_active_era(era);
        assert_eq!(s.unbond(11, 1), Ok(()));
    }
    assert_eq!(s.ledgers.get(11).unwrap().unlocking.len(), 32);
    s.start_active_era(32);
    assert_eq!(s.unbond(11, 1), Err(Error::TooManyChunks));
    assert_eq!(s.do_try_state(), Ok(()));
}

#[test]
fn vote_weight_ranks_by_active_stake() {
    let mut s = empty_engine();
    assert_eq!(s.vote_weight(1), 0);
    s.bond(1, 100, RewardDestination::Stash).unwrap();
    assert_eq!(s.vote_weight(1), 100);
    s.unbond(1, 30).unwrap();
    assert_eq!(s.vote_weight(1), 70);
}

#[test]
fn withdraw_before_maturity_releases_nothing() {
    let mut s = empty_engine();
    s.bond(1, 100, RewardDestination::Stash).unwrap();
    s.unbond(1, 40).unwrap();
    assert_eq!(s.withdraw_unbonded(1, 2), Ok(0));
    assert_eq!(s.ledgers.get(1).unwrap().total, 100);
}

#[test]
fn bond_unbond_withdraw_round_trip_purges_the_ledger() {
    let mut s = empty_engine();
    s.bond(1, 1000, RewardDestination::Stash).unwrap();
    s.unbond(1, 1000).unwrap();
    // bonding_duration is 3 and the current era is 0.
    assert_eq!(s.withdraw_unbonded(1, 3), Ok(1000));
    assert!(!s.bonded.contains_key(1));
    assert!(!s.ledgers.contains_key(1));
    assert!(s.payees.get(1).is_none());
    assert_eq!(s.do_try_state(), Ok(()));
}

#[test]
fn partial_withdraw_keeps_the_ledger() {
    let mut s = empty_engine();
    s.bond(1, 100, RewardDestination::Stash).unwrap();
    s.unbond(1, 40).unwrap();
    assert_eq!(s.withdraw_unbonded(1, 5), Ok(40));
    let l = s.ledgers.get(1).unwrap();
    assert_eq!(l.total, 60);
    assert_eq!(l.active, 60);
    assert!(s.bonded.contains_key(1));
    assert_eq!(s.do_try_state(), Ok(()));
}

#[test]
fn set_controller_collapses_a_legacy_split() {
    let mut s = empty_engine();
    assert_eq!(s.bond_controller_stash(10, 11), Ok(()));
    assert_eq!(*s.bonded.get(11).unwrap(), 10);
    assert_eq!(s.ledgers.get(10).unwrap().stash, 11);
    assert_eq!(s.set_controller(11), Ok(()));
    assert_eq!(*s.bonded.get(11).unwrap(), 11);
    assert!(s.ledgers.get(10).is_none());
    assert_eq!(s.ledgers.get(11).unwrap().stash, 11);
    assert_eq!(s.set_controller(11), Err(Error::AlreadyController));
    assert_eq!(s.set_controller(12), Err(Error::NotStash));
    assert_eq!(s.do_try_state(), Ok(()));
}

#[test]
fn set_controller_refuses_to_overwrite_a_chained_ledger() {
    let mut s = empty_engine();
    s.setup_double_bonded_ledgers();
    // 444 is controlled by 555, but 444 itself controls 333's ledger: a
    // re-key would overwrite it.
    assert_eq!(s.set_controller(444), Err(Error::BadState));
    assert_eq!(s.do_try_state(), Ok(()));
}

#[test]
fn double_bonded_chain_is_consistent_and_collapsible() {
    let mut s = empty_engine();
    s.setup_double_bonded_ledgers();
    assert_eq!(*s.bonded.get(333).unwrap(), 444);
    assert_eq!(s.ledgers.get(444).unwrap().stash, 333);
    assert_eq!(*s.bonded.get(444).unwrap(), 555);
    assert_eq!(s.ledgers.get(555).unwrap().stash, 444);
    assert_eq!(*s.bonded.get(555).unwrap(), 777);
    assert_eq!(s.ledgers.get(777).unwrap().stash, 555);
    assert_eq!(s.do_try_state(), Ok(()));
    s.collapse_controllers();
    assert_eq!(*s.bonded.get(333).unwrap(), 333);
    assert_eq!(*s.bonded.get(444).unwrap(), 444);
    assert_eq!(*s.bonded.get(555).unwrap(), 555);
    assert_eq!(s.ledgers.get(333).unwrap().total, 10);
    assert_eq!(s.ledgers.get(444).unwrap().total, 20);
    assert_eq!(s.ledgers.get(555).unwrap().total, 20);
    assert!(s.ledgers.get(777).is_none());
    assert_eq!(s.do_try_state(), Ok(()));
}

#[test]
fn raw_rekey_corruption_is_reported_not_repaired() {
    let mut s = empty_engine();
    s.setup_double_bonded_ledgers();
    // Re-keying 444's ledger onto 444 overwrites 333's ledger, which 444
    // held: the consistency pass must now fail.
    s.set_controller_no_checks(444);
    assert!(s.do_try_state().is_err());
}

#[test]
fn bond_extra_no_checks_breaks_the_arithmetic_invariant_detectably() {
    let mut s = empty_engine();
    s.bond(1, 100, RewardDestination::Stash).unwrap();
    s.unbond(1, 40).unwrap();
    assert_eq!(s.do_try_state(), Ok(()));
    // Raw edit: sets active = total while a chunk is still unlocking.
    s.bond_extra_no_checks(1, 5);
    assert!(s.do_try_state().is_err());
}

#[test]
fn restricted_accounts_cannot_validate_or_nominate() {
    let mut s = empty_engine();
    s.bond(5, 100, RewardDestination::Stash).unwrap();
    s.restrict(5);
    assert_eq!(
        s.validate(5, ValidatorPrefs { commission_parts: 0 }),
        Err(Error::Restricted)
    );
    assert_eq!(s.nominate(5, vec![11]), Err(Error::Restricted));
    s.remove_from_restrict_list(5);
    assert_eq!(s.validate(5, ValidatorPrefs { commission_parts: 0 }), Ok(()));
}

#[test]
fn nominate_checks_targets_and_quota() {
    let mut s = empty_engine();
    s.bond(5, 100, RewardDestination::Stash).unwrap();
    assert_eq!(s.nominate(5, vec![]), Err(Error::EmptyTargets));
    assert_eq!(s.nominate(5, vec![11, 21]), Ok(()));
    // An active stake of exactly 111 has a nomination quota of zero.
    let mut t = empty_engine();
    t.bond(7, 111, RewardDestination::Stash).unwrap();
    assert_eq!(t.nominate(7, vec![11]), Err(Error::TooManyTargets));
}

#[test]
fn validate_requires_the_minimum_bond() {
    let mut s = ExtBuilder::default()
        .has_stakers(false)
        .initialize_first_session(false)
        .min_validator_bond(50)
        .build();
    s.bond(5, 30, RewardDestination::Stash).unwrap();
    assert_eq!(
        s.validate(5, ValidatorPrefs { commission_parts: 0 }),
        Err(Error::BondTooLow)
    );
    s.bond_extra(5, 30).unwrap();
    assert_eq!(s.validate(5, ValidatorPrefs { commission_parts: 0 }), Ok(()));
}

#[test]
fn chill_clears_both_roles() {
    let mut s = empty_engine();
    s.bond(5, 100, RewardDestination::Stash).unwrap();
    s.validate(5, ValidatorPrefs { commission_parts: 0 }).unwrap();
    assert_eq!(s.chill(5), Ok(()));
    assert!(s.validators.get(5).is_none());
    assert_eq!(s.chill(6), Err(Error::NotStash));
}

#[test]
fn registry_stays_consistent_through_a_mixed_sequence() {
    let mut s = empty_engine();
    s.bond(1, 100, RewardDestination::Stash).unwrap();
    s.bond(2, 200, RewardDestination::Staked).unwrap();
    s.unbond(1, 50).unwrap();
    s.bond_extra(2, 25).unwrap();
    s.withdraw_unbonded(1, 10).unwrap();
    s.bond_controller_stash(30, 31).unwrap();
    s.set_controller(31).unwrap();
    assert_eq!(s.do_try_state(), Ok(()));
}
