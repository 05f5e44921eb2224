use staking_engine::builder::ExtBuilder;
use staking_engine::slash::offence_from;
use staking_engine::types::Error;

#[test]
fn a_slash_takes_the_fraction_of_the_exposure() {
    let mut s = ExtBuilder::default().nominate(false).build();
    let before = s.ledgers.get(11).unwrap().active;
    assert_eq!(before, 1000);
    s.add_slash(11);
    let l = s.ledgers.get(11).unwrap();
    assert_eq!(l.active, 900);
    assert_eq!(l.total, 900);
    // Reported through the slash listener, with the era-zero breakdown.
    assert_eq!(s.listener.slash_observer.get(11).copied(), Some(100));
    assert_eq!(s.listener.last_slashed_total, 100);
    assert_eq!(s.listener.last_slashed_era, 0);
    assert_eq!(s.listener.last_slashed_bonded, 900);
}

#[test]
fn overlapping_reports_take_the_maximum_not_the_sum() {
    let mut s = ExtBuilder::default().nominate(false).build();
    let offenders = vec![offence_from(11, None)];
    // Ten percent, then thirty percent, in the same era.
    assert_eq!(s.on_offence_now(&offenders, &vec![100_000_000]), Ok(()));
    assert_eq!(s.ledgers.get(11).unwrap().active, 900);
    assert_eq!(s.on_offence_now(&offenders, &vec![300_000_000]), Ok(()));
    // Exactly 30% of the pre-slash exposure of 1000 is gone, not 40%.
    assert_eq!(s.ledgers.get(11).unwrap().active, 700);
    assert_eq!(s.listener.slash_observer.get(11).copied(), Some(300));
    // A weaker report afterwards changes nothing.
    assert_eq!(s.on_offence_now(&offenders, &vec![200_000_000]), Ok(()));
    assert_eq!(s.ledgers.get(11).unwrap().active, 700);
}

#[test]
fn slash_reaches_the_backing_nominators() {
    let mut s = ExtBuilder::default().build();
    // Nominator 101 backs 11 with 250 of the 1250 exposure.
    let nom_before = s.ledgers.get(101).unwrap().active;
    s.add_slash(11);
    assert_eq!(s.ledgers.get(11).unwrap().active, 900);
    assert_eq!(s.ledgers.get(101).unwrap().active, nom_before - 25);
    assert_eq!(s.listener.slash_observer.get(101).copied(), Some(25));
}

#[test]
fn retroactive_slash_inside_the_window() {
    let mut s = ExtBuilder::default().nominate(false).build();
    s.start_active_era(3);
    let exposure_total = s.eras_exposure.get((3, 11)).unwrap().total;
    assert_eq!(exposure_total, 1000);
    let before = s.ledgers.get(11).unwrap().active;
    let offenders = vec![offence_from(11, None)];
    assert_eq!(s.on_offence_in_era(&offenders, &vec![100_000_000], 3), Ok(()));
    // Exactly ten percent of era 3's exposure total, via the listener,
    // charged against era 3.
    assert_eq!(s.ledgers.get(11).unwrap().active, before - exposure_total / 10);
    assert_eq!(
        s.listener.slash_observer.get(11).copied(),
        Some(exposure_total / 10)
    );
    assert_eq!(s.listener.last_slashed_era, 3);
}

#[test]
fn an_era_outside_the_window_is_too_old() {
    let mut s = ExtBuilder::default().nominate(false).build();
    let offenders = vec![offence_from(11, None)];
    // Era 7 was never bonded and is not active.
    assert_eq!(
        s.on_offence_in_era(&offenders, &vec![100_000_000], 7),
        Err(Error::EraTooOld)
    );
    // Nothing was slashed.
    assert_eq!(s.ledgers.get(11).unwrap().active, 1000);
}

#[test]
fn deferred_slashes_wait_and_can_be_canceled() {
    let mut s = ExtBuilder::default()
        .nominate(false)
        .slash_defer_duration(2)
        .build();
    s.add_slash(11);
    // Queued, not applied.
    assert_eq!(s.unapplied_slashes.len(), 1);
    assert_eq!(s.unapplied_slashes[0].validator, 11);
    assert_eq!(s.unapplied_slashes[0].own, 100);
    assert_eq!(s.unapplied_slashes[0].apply_era, 2);
    assert_eq!(s.ledgers.get(11).unwrap().active, 1000);
    // Governance cancels it before it matures.
    s.cancel_deferred_slash(0, &vec![11]);
    assert_eq!(s.unapplied_slashes.len(), 0);
    s.start_active_era(2);
    assert_eq!(s.ledgers.get(11).unwrap().active, 1000);
}

#[test]
fn deferred_slashes_land_when_their_era_starts() {
    let mut s = ExtBuilder::default()
        .nominate(false)
        .slash_defer_duration(2)
        .build();
    s.add_slash(11);
    assert_eq!(s.ledgers.get(11).unwrap().active, 1000);
    s.start_active_era(1);
    assert_eq!(s.ledgers.get(11).unwrap().active, 1000);
    s.start_active_era(2);
    assert_eq!(s.ledgers.get(11).unwrap().active, 900);
    assert_eq!(s.unapplied_slashes.len(), 0);
}

#[test]
fn invulnerable_validators_are_never_slashed() {
    let mut s = ExtBuilder::default()
        .nominate(false)
        .invulnerables(vec![11])
        .build();
    s.add_slash(11);
    assert_eq!(s.ledgers.get(11).unwrap().active, 1000);
    assert!(s.listener.slash_observer.get(11).is_none());
}

#[test]
fn an_offence_disables_the_offender() {
    let mut s = ExtBuilder::default().nominate(false).build();
    assert!(!s.is_disabled(11));
    s.add_slash(11);
    assert!(s.is_disabled(11));
    assert!(!s.is_disabled(21));
    // Disablement ends with the era.
    s.start_active_era(1);
    assert!(!s.is_disabled(11));
}

#[test]
fn slashing_preserves_the_ledger_invariant() {
    let mut s = ExtBuilder::default().build();
    s.unbond(11, 100).unwrap();
    s.add_slash(11);
    assert_eq!(s.do_try_state(), Ok(()));
    let l = s.ledgers.get(11).unwrap();
    // The slash came off the active stake; the unlocking chunk is intact.
    assert_eq!(l.unlocking.len(), 1);
    assert_eq!(l.unlocking[0].value, 100);
    assert_eq!(l.total, l.active + 100);
}
