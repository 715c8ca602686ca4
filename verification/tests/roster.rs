//! Who is in the round, and from which tick on.

use net::player_map::{PlayerId, PlayerMap};
use net::roster::RosterSchedule;

fn ids(n: u8) -> Vec<PlayerId> {
    (0..n).map(PlayerId).collect()
}

#[test]
fn frozen_returns_the_initial_set_for_every_tick() {
    let r = RosterSchedule::frozen(&ids(2));
    for t in [0, 1, 7, 1_000_000] {
        assert_eq!(r.at(t), ids(2).as_slice(), "frozen roster is constant");
    }
    assert_eq!(r.current(), ids(2).as_slice());
}

#[test]
fn a_change_applies_from_its_tick_and_not_before() {
    let mut r = RosterSchedule::frozen(&ids(2));
    r.schedule_change(20, &ids(3));
    assert_eq!(r.at(19), ids(2).as_slice(), "old roster up to the boundary");
    assert_eq!(r.at(20), ids(3).as_slice(), "new roster from the boundary");
    assert_eq!(r.at(21), ids(3).as_slice());
    assert_eq!(r.current(), ids(3).as_slice());
    assert_eq!(r.latest_change_tick(), 20);
}

#[test]
fn order_independent_storage() {
    let mut a = RosterSchedule::frozen(&[PlayerId(1), PlayerId(0)]);
    let mut b = RosterSchedule::frozen(&[PlayerId(0), PlayerId(1)]);
    a.schedule_change(5, &[PlayerId(2), PlayerId(0), PlayerId(1)]);
    b.schedule_change(5, &[PlayerId(0), PlayerId(1), PlayerId(2)]);
    assert_eq!(a, b, "set order must not affect the stored schedule");
}

#[test]
fn re_scheduling_the_identical_change_is_an_idempotent_no_op() {
    let mut r = RosterSchedule::frozen(&ids(2));
    r.schedule_change(20, &ids(3));
    r.schedule_change(20, &ids(3));
    r.schedule_change(20, &[PlayerId(2), PlayerId(0), PlayerId(1)]);
    assert_eq!(r.at(20), ids(3).as_slice());
    assert_eq!(r.current(), ids(3).as_slice());
}

#[test]
fn the_earliest_change_lies_after_the_latest_and_not_under_the_floor() {
    let mut r = RosterSchedule::frozen(&ids(1));
    assert_eq!(r.earliest_change_at(0), 1);
    assert_eq!(r.earliest_change_at(9), 9);
    r.schedule_change(20, &ids(2));
    assert_eq!(r.earliest_change_at(9), 21);
    assert_eq!(r.earliest_change_at(40), 40);
}

#[test]
fn a_repeated_seat_is_stored_once() {
    let r = RosterSchedule::frozen(&[PlayerId(4), PlayerId(1), PlayerId(4)]);
    assert_eq!(r.current(), &[PlayerId(1), PlayerId(4)]);
}

#[test]
fn player_map_walks_in_seat_order_and_replaces() {
    let mut m: PlayerMap<u64> = PlayerMap::new();
    assert!(m.is_empty());
    assert_eq!(m.insert(PlayerId(5), 50), None);
    assert_eq!(m.insert(PlayerId(1), 10), None);
    assert_eq!(m.insert(PlayerId(3), 30), None);
    assert_eq!(m.insert(PlayerId(3), 31), Some(30));
    let walked: Vec<(PlayerId, u64)> = (0..m.len()).map(|i| (m.key_at(i), *m.value_at(i))).collect();
    assert_eq!(walked, vec![(PlayerId(1), 10), (PlayerId(3), 31), (PlayerId(5), 50)]);
    assert_eq!(m.position(PlayerId(5)), Some(2));
    assert_eq!(m.position(PlayerId(4)), None);
    assert_eq!(m.replace_at(0, 11), 10);
    assert_eq!(m.get(PlayerId(1)), Some(&11));
    assert_eq!(m.remove(PlayerId(9)), None);
    assert_eq!(m.remove(PlayerId(1)), Some(11));
    m.keep_only(&[PlayerId(5), PlayerId(7)]);
    assert_eq!(m.len(), 1);
    assert!(m.contains_key(PlayerId(5)) && !m.contains_key(PlayerId(3)));
    assert_eq!(m.copied(), m);
}
