use async_rudp::seqnum::{origin, resolve, to_wire, HALF_TURN, WIRE_MODULUS};
use async_rudp::timer::{deadline, retransmit_timeout, INITIAL_RTO_MS, MAX_RTO_MS};

#[test]
fn origin_lies_one_turn_above_the_sequence_number() {
    assert_eq!(origin(0), 4294967296);
    assert_eq!(origin(5), 4294967301);
    assert_eq!(origin(u32::MAX), 8589934591);
}

#[test]
fn to_wire_keeps_the_low_half() {
    assert_eq!(to_wire(origin(5)), 5);
    assert_eq!(to_wire(2 * WIRE_MODULUS), 0);
    assert_eq!(to_wire(2 * WIRE_MODULUS - 1), u32::MAX);
    assert_eq!(to_wire(7), 7);
}

#[test]
fn resolve_finds_positions_ahead_and_behind() {
    let reference = WIRE_MODULUS + 10;
    assert_eq!(resolve(reference, 10), reference);
    assert_eq!(resolve(reference, 12), reference + 2);
    assert_eq!(resolve(reference, 8), reference - 2);
}

#[test]
fn resolve_crosses_the_wrap_in_both_directions() {
    assert_eq!(resolve(2 * WIRE_MODULUS - 1, 0), 2 * WIRE_MODULUS);
    assert_eq!(resolve(2 * WIRE_MODULUS - 1, 3), 2 * WIRE_MODULUS + 3);
    assert_eq!(resolve(2 * WIRE_MODULUS, u32::MAX), 2 * WIRE_MODULUS - 1);
    assert_eq!(resolve(2 * WIRE_MODULUS + 2, 0xFFFF_FFF0), 2 * WIRE_MODULUS - 16);
}

#[test]
fn resolve_reaches_just_under_half_a_turn_ahead() {
    let reference = 3 * WIRE_MODULUS + 10;
    let far = (10 + HALF_TURN - 1) as u32;
    assert_eq!(resolve(reference, far), reference + HALF_TURN - 1);
    let opposite = (10 + HALF_TURN) as u32;
    assert_eq!(resolve(reference, opposite), reference - HALF_TURN);
}

#[test]
fn resolve_recovers_every_nearby_position() {
    let reference = 5 * WIRE_MODULUS - 3;
    for delta in 0u64..40 {
        assert_eq!(resolve(reference, to_wire(reference + delta)), reference + delta);
        assert_eq!(resolve(reference, to_wire(reference - delta)), reference - delta);
    }
}

#[test]
fn resolve_near_zero_stays_at_or_above_zero() {
    assert_eq!(resolve(5, 3), 3);
    assert_eq!(resolve(5, u32::MAX), WIRE_MODULUS - 1);
}

#[test]
fn retransmit_timeout_doubles_up_to_the_cap() {
    let waits: Vec<u64> = (0..11).map(retransmit_timeout).collect();
    assert_eq!(
        waits,
        vec![200, 400, 800, 1600, 3200, 6400, 12800, 25600, 51200, 60000, 60000]
    );
    assert_eq!(retransmit_timeout(0), INITIAL_RTO_MS);
    assert_eq!(retransmit_timeout(u32::MAX >> 12), MAX_RTO_MS);
}

#[test]
fn deadline_adds_the_wait() {
    assert_eq!(deadline(1000, 0), 1200);
    assert_eq!(deadline(1000, 1), 1400);
    assert_eq!(deadline(0, 9), 60000);
}

#[test]
fn deadline_stops_at_the_end_of_time() {
    assert_eq!(deadline(u64::MAX, 0), u64::MAX);
    assert_eq!(deadline(u64::MAX - 199, 0), u64::MAX);
    assert_eq!(deadline(u64::MAX - 200, 0), u64::MAX);
    assert_eq!(deadline(u64::MAX - 201, 0), u64::MAX - 1);
}
