//! The wire layout of a world state.

use net::player_map::PlayerMap;
use net::sim::{CrabPose, PlayerId, Pos, Sim};
use net::snapshot::{CoreSnapshot, SnapshotDecodeError};

fn sample() -> CoreSnapshot {
    let mut sim = Sim::new(9, &[PlayerId(0), PlayerId(1)]);
    sim.adopt_crab_poses(&[CrabPose {
        pos: Pos { x: 1234, z: -5678 },
        yaw: 42,
        claws: Vec::new(),
    }]);
    let mut snap = sim.core_snapshot();
    // The server stamps the watermarks: not empty here, so that their encoding is exercised.
    let mut input_next = PlayerMap::new();
    input_next.insert(PlayerId(0), 7);
    input_next.insert(PlayerId(1), 0);
    snap.input_next = input_next;
    snap
}

#[test]
fn bytes_roundtrip_is_exact() {
    let snap = sample();
    assert_eq!(CoreSnapshot::from_bytes(&snap.to_bytes()).unwrap(), snap);
}

#[test]
fn truncated_buffer_is_rejected() {
    let bytes = sample().to_bytes();
    assert_eq!(
        CoreSnapshot::from_bytes(&bytes[..bytes.len() - 1]),
        Err(SnapshotDecodeError::Truncated)
    );
    assert_eq!(
        CoreSnapshot::from_bytes(&[]),
        Err(SnapshotDecodeError::Truncated)
    );
}

#[test]
fn trailing_bytes_are_rejected() {
    let mut bytes = sample().to_bytes();
    bytes.push(0);
    assert_eq!(
        CoreSnapshot::from_bytes(&bytes),
        Err(SnapshotDecodeError::TrailingBytes)
    );
}

#[test]
fn unknown_status_tag_is_rejected() {
    let status_off = 8 + 4 + 1 + 8 + 8 + 4;
    let mut bytes = sample().to_bytes();
    bytes[status_off] = 99;
    assert_eq!(
        CoreSnapshot::from_bytes(&bytes),
        Err(SnapshotDecodeError::BadTag)
    );
}

#[test]
fn every_proper_prefix_is_truncated() {
    let bytes = sample().to_bytes();
    for n in 0..bytes.len() {
        assert_eq!(
            CoreSnapshot::from_bytes(&bytes[..n]),
            Err(SnapshotDecodeError::Truncated),
            "prefix of {n}"
        );
    }
}

#[test]
fn integers_are_little_endian_and_leading() {
    let mut snap = sample();
    snap.tick = 0x0102_0304_0506_0708;
    let bytes = snap.to_bytes();
    assert_eq!(&bytes[..8], &[8, 7, 6, 5, 4, 3, 2, 1]);
    assert_eq!(&bytes[8..12], &[2, 0, 0, 0], "two players");
    assert_eq!(bytes[12], 0, "the lowest seat first");
}

#[test]
fn a_snapshot_without_crabs_is_rejected() {
    let mut snap = sample();
    snap.crabs.clear();
    assert_eq!(
        CoreSnapshot::from_bytes(&snap.to_bytes()),
        Err(SnapshotDecodeError::NoCrabs)
    );
}

#[test]
fn decode_errors_have_texts() {
    assert_eq!(SnapshotDecodeError::Truncated.text(), "snapshot buffer ended mid-field");
    assert_eq!(SnapshotDecodeError::BadTag.text(), "snapshot held an unknown enum tag");
    assert_eq!(
        SnapshotDecodeError::TrailingBytes.text(),
        "trailing bytes after a complete snapshot"
    );
}

#[test]
fn what_was_read_is_written_the_same() {
    let bytes = sample().to_bytes();
    let read = CoreSnapshot::from_bytes(&bytes).unwrap();
    assert_eq!(read.to_bytes(), bytes);
    let mut swapped = bytes.clone();
    let (a, b) = (bytes[12..34].to_vec(), bytes[34..56].to_vec());
    swapped[12..34].copy_from_slice(&b);
    swapped[34..56].copy_from_slice(&a);
    let read = CoreSnapshot::from_bytes(&swapped).unwrap();
    assert_eq!(read.to_bytes(), bytes, "seats out of order are put in order");
}

#[test]
fn an_adopted_world_can_be_asked_whether_it_is_in_range() {
    let mut sim = Sim::new(9, &[PlayerId(0), PlayerId(1)]);
    assert!(sim.is_in_world());
    sim.apply_core_snapshot(sample());
    assert!(sim.is_in_world());
    let mut far = sample();
    far.extraction = Pos { x: i64::MAX, z: 0 };
    sim.apply_core_snapshot(far);
    assert!(!sim.is_in_world());
    let mut late = sample();
    late.tick = u64::MAX;
    sim.apply_core_snapshot(late);
    assert!(sim.is_in_world(), "a tick is never out of range");
    let mut unordered = sample();
    unordered.roster = vec![PlayerId(1), PlayerId(0)];
    sim.apply_core_snapshot(unordered);
    assert!(!sim.is_in_world());
}
