use async_rudp::codec::{Flags, Segment};
use async_rudp::error::ConfigError;
use async_rudp::reorder::{Delivery, ReorderBuffer};
use async_rudp::reorder_model::Verdict;
use async_rudp::seqnum::{origin, POSITION_LIMIT};

fn data(seq: u32, payload: &[u8]) -> Segment {
    Segment {
        seq,
        ack: 0,
        flags: Flags { sos: false, eos: false, ack: false, data: true },
        payload: payload.to_vec(),
    }
}

fn last(seq: u32, payload: &[u8]) -> Segment {
    Segment {
        seq,
        ack: 0,
        flags: Flags { sos: false, eos: true, ack: false, data: true },
        payload: payload.to_vec(),
    }
}

fn drain(buffer: &mut ReorderBuffer) -> Vec<Vec<u8>> {
    let mut out = Vec::new();
    while let Some(d) = buffer.pop() {
        out.push(d.payload);
    }
    out
}

#[test]
fn reorder_buffer_rejects_zero_capacity() {
    assert!(matches!(ReorderBuffer::new(false, 0, 0), Err(ConfigError::InvalidWindowSize)));
    assert!(matches!(ReorderBuffer::new(true, 0, 9), Err(ConfigError::InvalidWindowSize)));
}

#[test]
fn new_buffer_acknowledges_the_origin() {
    let b = ReorderBuffer::new(false, 4, 41).unwrap();
    assert_eq!(b.ack_position(), origin(41));
    assert_eq!(b.ready_len(), 0);
    assert!(!b.is_reordered());
    assert!(ReorderBuffer::new(true, 1, 0).unwrap().is_reordered());
}

#[test]
fn ordered_mode_delivers_in_order_arrivals_at_once() {
    let mut b = ReorderBuffer::new(false, 4, 0).unwrap();
    assert_eq!(b.receive(data(1, b"one")), (Verdict::Delivered, 1));
    assert_eq!(b.receive(data(2, b"two")), (Verdict::Delivered, 2));
    assert_eq!(b.ready_len(), 2);
    assert_eq!(drain(&mut b), vec![b"one".to_vec(), b"two".to_vec()]);
}

#[test]
fn ordered_mode_holds_back_until_the_gap_is_filled() {
    let mut b = ReorderBuffer::new(false, 2, 0).unwrap();
    assert_eq!(b.receive(data(1, b"one")), (Verdict::Delivered, 1));
    assert_eq!(b.receive(data(3, b"three")), (Verdict::Buffered, 1));
    assert_eq!(drain(&mut b), vec![b"one".to_vec()]);
    assert!(b.pop().is_none());
    assert_eq!(b.receive(data(2, b"two")), (Verdict::Delivered, 3));
    assert_eq!(drain(&mut b), vec![b"two".to_vec(), b"three".to_vec()]);
}

#[test]
fn ordered_mode_delivers_nothing_while_the_first_is_missing() {
    let mut b = ReorderBuffer::new(false, 4, 0).unwrap();
    assert_eq!(b.receive(data(3, b"three")), (Verdict::Buffered, 0));
    assert_eq!(b.receive(data(2, b"two")), (Verdict::Buffered, 0));
    assert_eq!(b.ready_len(), 0);
    assert_eq!(b.receive(data(1, b"one")), (Verdict::Delivered, 3));
    assert_eq!(drain(&mut b), vec![b"one".to_vec(), b"two".to_vec(), b"three".to_vec()]);
}

#[test]
fn ordered_mode_stops_the_run_at_the_next_gap() {
    let mut b = ReorderBuffer::new(false, 8, 0).unwrap();
    assert_eq!(b.receive(data(2, b"b")), (Verdict::Buffered, 0));
    assert_eq!(b.receive(data(4, b"d")), (Verdict::Buffered, 0));
    assert_eq!(b.receive(data(1, b"a")), (Verdict::Delivered, 2));
    assert_eq!(drain(&mut b), vec![b"a".to_vec(), b"b".to_vec()]);
    assert_eq!(b.receive(data(3, b"c")), (Verdict::Delivered, 4));
    assert_eq!(drain(&mut b), vec![b"c".to_vec(), b"d".to_vec()]);
}

#[test]
fn ordered_mode_acknowledges_a_duplicate_without_delivering_it() {
    let mut b = ReorderBuffer::new(false, 4, 0).unwrap();
    assert_eq!(b.receive(data(1, b"one")), (Verdict::Delivered, 1));
    assert_eq!(b.receive(data(1, b"one")), (Verdict::Duplicate, 1));
    assert_eq!(b.ready_len(), 1);
    assert_eq!(drain(&mut b), vec![b"one".to_vec()]);
    assert_eq!(b.receive(data(1, b"one")), (Verdict::Duplicate, 1));
    assert!(b.pop().is_none());
}

#[test]
fn ordered_mode_drops_a_duplicate_of_a_held_segment() {
    let mut b = ReorderBuffer::new(false, 4, 0).unwrap();
    assert_eq!(b.receive(data(3, b"first copy")), (Verdict::Buffered, 0));
    assert_eq!(b.receive(data(3, b"second copy")), (Verdict::Duplicate, 0));
    assert_eq!(b.receive(data(1, b"a")), (Verdict::Delivered, 1));
    assert_eq!(b.receive(data(2, b"b")), (Verdict::Delivered, 3));
    assert_eq!(drain(&mut b), vec![b"a".to_vec(), b"b".to_vec(), b"first copy".to_vec()]);
}

#[test]
fn ordered_mode_drops_what_lies_beyond_the_window() {
    let mut b = ReorderBuffer::new(false, 2, 0).unwrap();
    assert_eq!(b.receive(data(3, b"three")), (Verdict::OutOfWindow, 0));
    assert_eq!(b.receive(data(2, b"two")), (Verdict::Buffered, 0));
    assert_eq!(b.receive(data(1, b"one")), (Verdict::Delivered, 2));
    assert_eq!(b.receive(data(3, b"three")), (Verdict::Delivered, 3));
    assert_eq!(drain(&mut b), vec![b"one".to_vec(), b"two".to_vec(), b"three".to_vec()]);
}

#[test]
fn ordered_mode_with_capacity_one_takes_only_the_expected() {
    let mut b = ReorderBuffer::new(false, 1, 0).unwrap();
    assert_eq!(b.receive(data(2, b"two")), (Verdict::OutOfWindow, 0));
    assert_eq!(b.receive(data(1, b"one")), (Verdict::Delivered, 1));
    assert_eq!(b.receive(data(2, b"two")), (Verdict::Delivered, 2));
}

#[test]
fn ordered_mode_keeps_working_over_many_rounds() {
    let mut b = ReorderBuffer::new(false, 3, 0).unwrap();
    let mut expected = Vec::new();
    for round in 0u32..50 {
        let base = round * 3;
        assert_eq!(b.receive(data(base + 3, &[3])).0, Verdict::Buffered);
        assert_eq!(b.receive(data(base + 2, &[2])).0, Verdict::Buffered);
        assert_eq!(b.receive(data(base + 1, &[1])), (Verdict::Delivered, base + 3));
        expected.push(vec![1u8]);
        expected.push(vec![2u8]);
        expected.push(vec![3u8]);
    }
    assert_eq!(drain(&mut b), expected);
}

#[test]
fn tolerant_mode_delivers_in_arrival_order() {
    let mut b = ReorderBuffer::new(true, 4, 0).unwrap();
    assert_eq!(b.receive(data(3, b"payload-3")), (Verdict::Delivered, 3));
    assert_eq!(b.receive(data(1, b"payload-1")), (Verdict::Delivered, 3));
    assert_eq!(b.receive(data(2, b"payload-2")), (Verdict::Delivered, 3));
    assert_eq!(
        drain(&mut b),
        vec![b"payload-3".to_vec(), b"payload-1".to_vec(), b"payload-2".to_vec()]
    );
}

#[test]
fn tolerant_mode_drops_duplicates() {
    let mut b = ReorderBuffer::new(true, 4, 0).unwrap();
    assert_eq!(b.receive(data(2, b"two")), (Verdict::Delivered, 2));
    assert_eq!(b.receive(data(2, b"two")), (Verdict::Duplicate, 2));
    assert_eq!(b.receive(data(1, b"one")), (Verdict::Delivered, 2));
    assert_eq!(b.receive(data(1, b"one")), (Verdict::Duplicate, 2));
    assert_eq!(b.receive(data(0, b"request")), (Verdict::Duplicate, 2));
    assert_eq!(drain(&mut b), vec![b"two".to_vec(), b"one".to_vec()]);
}

#[test]
fn tolerant_mode_is_not_bound_by_the_capacity() {
    let mut b = ReorderBuffer::new(true, 1, 0).unwrap();
    assert_eq!(b.receive(data(500, b"far")), (Verdict::Delivered, 500));
    assert_eq!(b.receive(data(7, b"late")), (Verdict::Delivered, 500));
    assert_eq!(drain(&mut b), vec![b"far".to_vec(), b"late".to_vec()]);
}

#[test]
fn receive_follows_the_sequence_number_across_the_wrap() {
    let mut b = ReorderBuffer::new(false, 4, 0xFFFF_FFFD).unwrap();
    assert_eq!(b.receive(data(0xFFFF_FFFE, b"a")), (Verdict::Delivered, 0xFFFF_FFFE));
    assert_eq!(b.receive(data(0, b"c")), (Verdict::Buffered, 0xFFFF_FFFE));
    assert_eq!(b.receive(data(0xFFFF_FFFF, b"b")), (Verdict::Delivered, 0));
    assert_eq!(b.receive(data(1, b"d")), (Verdict::Delivered, 1));
    assert_eq!(b.receive(data(0xFFFF_FFFF, b"b")), (Verdict::Duplicate, 1));
    assert_eq!(b.ack_position(), origin(0xFFFF_FFFD) + 4);
    assert_eq!(drain(&mut b), vec![b"a".to_vec(), b"b".to_vec(), b"c".to_vec(), b"d".to_vec()]);
}

#[test]
fn pop_reports_position_and_stream_markers() {
    let mut b = ReorderBuffer::new(false, 4, 10).unwrap();
    let first = Segment {
        seq: 11,
        ack: 0,
        flags: Flags { sos: true, eos: false, ack: false, data: true },
        payload: vec![1, 2],
    };
    b.receive(first);
    b.receive(last(12, b"end"));
    assert_eq!(
        b.pop(),
        Some(Delivery { position: origin(10) + 1, payload: vec![1, 2], sos: true, eos: false })
    );
    assert_eq!(
        b.pop(),
        Some(Delivery { position: origin(10) + 2, payload: b"end".to_vec(), sos: false, eos: true })
    );
    assert_eq!(b.pop(), None);
}

#[test]
fn end_of_stream_is_reported_once_despite_duplicates() {
    for reordered in [false, true] {
        let mut b = ReorderBuffer::new(reordered, 4, 0).unwrap();
        b.receive(data(1, b"a"));
        b.receive(last(2, b"z"));
        b.receive(last(2, b"z"));
        b.receive(data(1, b"a"));
        b.receive(last(2, b"z"));
        let mut ends = 0;
        let mut count = 0;
        while let Some(d) = b.pop() {
            count += 1;
            if d.eos {
                ends += 1;
                assert_eq!(d.payload, b"z".to_vec());
            }
        }
        assert_eq!(count, 2);
        assert_eq!(ends, 1);
    }
}

#[test]
fn accept_takes_positions_directly() {
    let mut b = ReorderBuffer::new(false, 4, 0).unwrap();
    let at = |offset: u64| Delivery {
        position: origin(0) + offset,
        payload: vec![offset as u8],
        sos: false,
        eos: false,
    };
    assert_eq!(b.accept(at(0)), Verdict::Duplicate);
    assert_eq!(b.accept(at(5)), Verdict::OutOfWindow);
    assert_eq!(b.accept(at(4)), Verdict::Buffered);
    assert_eq!(b.accept(at(1)), Verdict::Delivered);
    assert_eq!(b.ack_position(), origin(0) + 1);
    assert_eq!(b.accept(at(5)), Verdict::Buffered);
}

#[test]
fn accept_drops_positions_beyond_the_last() {
    for reordered in [false, true] {
        let mut b = ReorderBuffer::new(reordered, 4, 0).unwrap();
        let item =
            Delivery { position: POSITION_LIMIT, payload: vec![], sos: false, eos: false };
        assert_eq!(b.accept(item), Verdict::OutOfWindow);
        assert_eq!(b.ready_len(), 0);
        assert_eq!(b.ack_position(), origin(0));
    }
}

#[test]
fn no_position_is_delivered_twice_on_a_noisy_path() {
    for reordered in [false, true] {
        let mut b = ReorderBuffer::new(reordered, 8, 0).unwrap();
        let arrivals: [u32; 20] = [2, 1, 1, 4, 3, 3, 2, 6, 5, 8, 7, 7, 10, 9, 9, 1, 12, 11, 10, 12];
        for seq in arrivals {
            b.receive(data(seq, &[seq as u8]));
        }
        let got: Vec<u8> = drain(&mut b).into_iter().map(|p| p[0]).collect();
        let mut sorted = got.clone();
        sorted.sort();
        sorted.dedup();
        assert_eq!(sorted.len(), got.len());
        assert_eq!(sorted, (1u8..=12).collect::<Vec<u8>>());
        if reordered {
            assert_eq!(got, vec![2, 1, 4, 3, 6, 5, 8, 7, 10, 9, 12, 11]);
        } else {
            assert_eq!(got, (1u8..=12).collect::<Vec<u8>>());
        }
    }
}

#[test]
fn largest_capacity_costs_nothing_up_front() {
    let mut b = ReorderBuffer::new(false, usize::MAX, 0).unwrap();
    assert_eq!(b.receive(data(1_000_000, b"far")), (Verdict::Buffered, 0));
    assert_eq!(b.receive(data(1, b"near")), (Verdict::Delivered, 1));
    assert_eq!(drain(&mut b), vec![b"near".to_vec()]);
}
