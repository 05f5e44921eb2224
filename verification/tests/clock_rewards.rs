use staking_engine::builder::ExtBuilder;
use staking_engine::config::MILLIS_PER_YEAR;
use staking_engine::frac::mul_div;
use staking_engine::rewards::era_payout_calc;
use staking_engine::types::Error;
use staking_engine::types::Event;
use staking_engine::types::RewardDestination;
use staking_engine::types::ValidatorPrefs;

#[test]
fn six_sessions_make_two_eras() {
    let mut s = ExtBuilder::default().build();
    assert_eq!(s.active_era(), 0);
    assert_eq!(s.current_era(), 0);
    s.start_session(6);
    assert_eq!(s.active_era(), 2);
    assert_eq!(s.current_era(), s.active_era());
}

#[test]
fn start_active_era_lands_on_the_requested_era() {
    let mut s = ExtBuilder::default().build();
    s.start_active_era(1);
    assert_eq!(s.active_era(), 1);
    assert_eq!(s.current_era(), 1);
    s.start_active_era(3);
    assert_eq!(s.active_era(), 3);
}

#[test]
fn advance_session_steps_one_session() {
    let mut s = ExtBuilder::default().build();
    let before = s.session;
    s.advance_session();
    assert_eq!(s.session, before + 1);
}

#[test]
fn session_and_era_timing_constants() {
    let s = ExtBuilder::default().build();
    assert_eq!(s.time_per_session(), 5_000);
    assert_eq!(s.time_per_era(), 15_000);
    assert_eq!(s.reward_time_per_era(), 14_000);
}

#[test]
fn era_payout_follows_the_curve_exactly() {
    // Half the issuance at stake is the ideal rate: the full ten percent,
    // over a whole year, with nothing left over.
    assert_eq!(era_payout_calc(5_000, 10_000, MILLIS_PER_YEAR), (1_000, 0));
    // Nothing at stake earns the minimum of 2.5%; the rest is remainder.
    assert_eq!(era_payout_calc(0, 10_000, MILLIS_PER_YEAR), (250, 750));
    // Beyond the ideal the payout falls back to the minimum.
    assert_eq!(era_payout_calc(10_000, 10_000, MILLIS_PER_YEAR), (250, 750));
    // A quarter at stake sits halfway up the climb.
    assert_eq!(era_payout_calc(2_500, 10_000, MILLIS_PER_YEAR), (625, 375));
}

#[test]
fn reward_points_accumulate_only_for_elected_validators() {
    let mut s = ExtBuilder::default().build();
    s.reward_all_elected();
    let era = s.active_era();
    assert_eq!(s.points_total.get(era).copied(), Some(2));
    assert_eq!(s.points_individual.get((era, 11)).copied(), Some(1));
    assert_eq!(s.points_individual.get((era, 21)).copied(), Some(1));
    // 99 was never elected: its grant is ignored.
    s.reward_by_ids(&vec![(99, 5)]);
    assert_eq!(s.points_total.get(era).copied(), Some(2));
    s.reward_by_ids(&vec![(11, 5)]);
    assert_eq!(s.points_individual.get((era, 11)).copied(), Some(6));
    assert_eq!(s.points_total.get(era).copied(), Some(7));
}

#[test]
fn era_end_settles_the_payout_pool() {
    let mut s = ExtBuilder::default().build();
    s.reward_all_elected();
    s.start_session(3);
    let pool = s.eras_validator_reward.get(0).copied().expect("era 0 settled");
    assert!(pool > 0);
    let events = s.staking_events();
    assert!(events.iter().any(|e| matches!(
        e,
        Event::EraPaid { era_index: 0, .. }
    )));
}

#[test]
fn page_zero_payout_is_the_proportional_share() {
    let mut s = ExtBuilder::default().build();
    s.reward_all_elected();
    s.start_session(3);
    let pool = s.eras_validator_reward.get(0).copied().unwrap();
    // Equal points: each validator's share is half the pool. Validator 11
    // is backed by its own 1000 plus 250 nominated out of 11's total 1250.
    let v_share = mul_div(pool, 1, 2);
    let own_cut = mul_div(v_share, 1000, 1250);
    let nom_cut = mul_div(v_share, 250, 1250);
    // Genesis stakers re-stake their rewards: the cut lands on the ledger.
    let before_11 = s.ledgers.get(11).unwrap().active;
    let before_101 = s.ledgers.get(101).unwrap().active;
    assert_eq!(s.payout_stakers_by_page(11, 0, 0), Ok(()));
    assert_eq!(s.ledgers.get(11).unwrap().active, before_11 + own_cut);
    assert_eq!(s.ledgers.get(101).unwrap().active, before_101 + nom_cut);
    assert_eq!(s.do_try_state(), Ok(()));
}

#[test]
fn commission_is_taken_off_the_validator_share() {
    let mut s = ExtBuilder::default().build();
    s.reward_all_elected();
    // Ten percent commission for validator 11.
    s.validate(11, ValidatorPrefs { commission_parts: 100_000_000 }).unwrap();
    s.start_session(3);
    let pool = s.eras_validator_reward.get(0).copied().unwrap();
    let v_share = mul_div(pool, 1, 2);
    let commission = mul_div(v_share, 100_000_000, 1_000_000_000);
    let leftover = v_share - commission;
    let own_cut = mul_div(leftover, 1000, 1250);
    let nom_cut = mul_div(leftover, 250, 1250);
    let before_11 = s.ledgers.get(11).unwrap().active;
    let before_101 = s.ledgers.get(101).unwrap().active;
    assert_eq!(s.payout_stakers_by_page(11, 0, 0), Ok(()));
    assert_eq!(
        s.ledgers.get(11).unwrap().active,
        before_11 + commission + own_cut
    );
    assert_eq!(s.ledgers.get(101).unwrap().active, before_101 + nom_cut);
}

#[test]
fn a_page_cannot_be_paid_twice() {
    let mut s = ExtBuilder::default().build();
    s.reward_all_elected();
    s.start_session(3);
    assert_eq!(s.payout_stakers_by_page(11, 0, 0), Ok(()));
    let balance_after = s.balance(11);
    assert_eq!(s.payout_stakers_by_page(11, 0, 0), Err(Error::AlreadyClaimed));
    assert_eq!(s.balance(11), balance_after);
}

#[test]
fn payout_error_taxonomy() {
    let mut s = ExtBuilder::default().build();
    s.reward_all_elected();
    s.start_session(3);
    // Era 5 has no settled pool.
    assert_eq!(s.payout_stakers_by_page(11, 5, 0), Err(Error::InvalidEraToReward));
    // 99 is not bonded.
    assert_eq!(s.payout_stakers_by_page(99, 0, 0), Err(Error::NotStash));
    // 41 is bonded but was idle, so it has no exposure in era 0.
    assert_eq!(s.payout_stakers_by_page(41, 0, 0), Err(Error::InvalidEraToReward));
    // Validator 11 has one backer: a single page.
    assert_eq!(s.get_page_count(0, 11), 1);
    assert_eq!(s.payout_stakers_by_page(11, 0, 1), Err(Error::PageNotFound));
}

#[test]
fn make_all_reward_payment_pays_every_validator() {
    let mut s = ExtBuilder::default().build();
    s.reward_all_elected();
    s.start_session(3);
    let before_11 = s.ledgers.get(11).unwrap().active;
    let before_21 = s.ledgers.get(21).unwrap().active;
    s.make_all_reward_payment(0);
    assert!(s.ledgers.get(11).unwrap().active > before_11);
    assert!(s.ledgers.get(21).unwrap().active > before_21);
    // Every page is now claimed.
    assert_eq!(s.payout_stakers_by_page(11, 0, 0), Err(Error::AlreadyClaimed));
    assert_eq!(s.payout_stakers_by_page(21, 0, 0), Err(Error::AlreadyClaimed));
}

#[test]
fn many_backers_split_into_multiple_pages() {
    let mut s = ExtBuilder::default().nominate(false).validator_count(1).build();
    // Seventy nominators back validator 11; one page holds sixty-four.
    for i in 0..70u64 {
        s.bond_nominator(1000 + i, 100, vec![11]).unwrap();
    }
    s.start_active_era(1);
    assert_eq!(s.get_page_count(1, 11), 2);
    let e = s.eras_exposure.get((1, 11)).unwrap();
    assert_eq!(e.others.len(), 70);
    assert_eq!(e.total, 1000 + 70 * 100);
    s.reward_all_elected();
    s.start_active_era(2);
    assert_eq!(s.payout_stakers_by_page(11, 1, 0), Ok(()));
    assert_eq!(s.payout_stakers_by_page(11, 1, 1), Ok(()));
    assert_eq!(s.payout_stakers_by_page(11, 1, 2), Err(Error::PageNotFound));
    assert_eq!(s.payout_stakers_by_page(11, 1, 0), Err(Error::AlreadyClaimed));
    assert_eq!(s.payout_stakers_by_page(11, 1, 1), Err(Error::AlreadyClaimed));
}

#[test]
fn payout_queries_agree_with_the_curve() {
    let s = ExtBuilder::default().build();
    let dur = s.reward_time_per_era();
    let max = s.maximum_payout_for_duration(dur);
    let cur = s.current_total_payout_for_duration(dur);
    assert!(cur > 0);
    assert!(cur <= max);
}

#[test]
fn failed_election_keeps_the_old_set_and_reports_the_fault() {
    let mut s = ExtBuilder::default()
        .has_stakers(false)
        .build();
    // No candidates at genesis: the election fails loudly.
    assert!(s
        .staking_events()
        .iter()
        .any(|e| matches!(e, Event::StakingElectionFailed)));
    assert_eq!(s.active_era(), 0);
    s.start_session(3);
    // Still waiting: the era did not advance.
    assert_eq!(s.active_era(), 0);
    // A candidate appears; the retry at the next session seats it.
    s.bond(61, 1000, RewardDestination::Stash).unwrap();
    s.validate(61, ValidatorPrefs { commission_parts: 0 }).unwrap();
    s.advance_session();
    assert_eq!(s.active_era(), 1);
    assert_eq!(s.session_validators, vec![61]);
}

#[test]
fn events_since_last_call_hands_out_only_the_new_ones() {
    let mut s = ExtBuilder::default().build();
    let first = s.staking_events_since_last_call();
    assert!(!first.is_empty());
    assert_eq!(s.staking_events_since_last_call(), vec![]);
    s.bond(61, 10, RewardDestination::Stash).unwrap();
    let more = s.staking_events_since_last_call();
    assert_eq!(more, vec![Event::Bonded { stash: 61, amount: 10 }]);
}

#[test]
fn builder_knobs_reach_the_configuration() {
    let s = ExtBuilder::default()
        .session_per_era(6)
        .period(10)
        .offset(0)
        .existential_deposit(5)
        .min_nominator_bond(7)
        .min_validator_bond(9)
        .validator_count(4)
        .minimum_validator_count(1)
        .slash_defer_duration(2)
        .try_state(false)
        .initialize_first_session(false)
        .has_stakers(false)
        .build();
    assert_eq!(s.cfg.sessions_per_era, 6);
    assert_eq!(s.cfg.period, 10);
    assert_eq!(s.cfg.existential_deposit, 5);
    assert_eq!(s.cfg.min_nominator_bond, 7);
    assert_eq!(s.cfg.min_validator_bond, 9);
    assert_eq!(s.cfg.validator_count, 4);
    assert_eq!(s.cfg.minimum_validator_count, 1);
    assert_eq!(s.cfg.slash_defer_duration, 2);
    assert!(!s.try_state_on);
}

#[test]
fn genesis_balances_follow_the_balance_factor() {
    let s = ExtBuilder::default().balance_factor(2).build();
    assert_eq!(s.balance(1), 20);
    assert_eq!(s.balance(11), 2 * 1000 + 1);
    assert_eq!(s.balance(999), 1_000_000_000_000);
}

#[test]
fn a_new_validator_and_its_nominator_join_the_next_election() {
    let mut s = ExtBuilder::default().validator_count(3).build();
    s.bond_validator(61, 2000).unwrap();
    s.bond_nominator(71, 500, vec![61]).unwrap();
    s.start_active_era(1);
    assert!(s.session_validators.contains(&61));
    let e = s.eras_exposure.get((1, 61)).unwrap();
    assert_eq!(e.own, 2000);
    assert_eq!(e.total, 2500);
    assert_eq!(e.others.len(), 1);
    assert_eq!(e.others[0].who, 71);
    assert_eq!(e.others[0].value, 500);
}

#[test]
fn validator_controllers_match_the_session_set() {
    let s = ExtBuilder::default().build();
    assert_eq!(s.validator_controllers(), s.session_validators);
}
