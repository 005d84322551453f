use async_rudp::codec::{decode, encode, sum_bytes, CodecError, Flags, Segment};
use async_rudp::codec::{CHECKSUM_SEED, HEADER_LEN, MAX_PAYLOAD};

fn flags(sos: bool, eos: bool, ack: bool, data: bool) -> Flags {
    Flags { sos, eos, ack, data }
}

fn sample() -> Segment {
    Segment { seq: 1, ack: 2, flags: flags(true, false, false, true), payload: vec![104, 105] }
}

#[test]
fn encode_lays_out_header_and_payload() {
    let bytes = encode(&sample());
    assert_eq!(bytes, vec![0, 0, 0, 1, 0, 0, 0, 2, 9, 0, 2, 248, 232, 180, 196, 104, 105]);
}

#[test]
fn encode_of_empty_request_is_header_only() {
    let request = Segment { seq: 0, ack: 0, flags: Flags::none(), payload: vec![] };
    let bytes = encode(&request);
    assert_eq!(bytes.len(), HEADER_LEN);
    assert_eq!(bytes, vec![0, 0, 0, 0, 0, 0, 0, 0, 0, 0, 0, 211, 131, 133, 27]);
}

#[test]
fn encode_writes_fields_big_endian() {
    let segment = Segment {
        seq: 0xDEAD_BEEF,
        ack: 0x0102_0304,
        flags: flags(true, true, true, true),
        payload: vec![1, 2, 3],
    };
    assert_eq!(
        encode(&segment),
        vec![222, 173, 190, 239, 1, 2, 3, 4, 15, 0, 3, 28, 3, 81, 247, 1, 2, 3]
    );
}

#[test]
fn decode_returns_what_was_encoded() {
    let bytes = encode(&sample());
    assert_eq!(decode(&bytes), Ok(sample()));
}

#[test]
fn decode_round_trips_every_flag_combination() {
    for bits in 0u8..16 {
        let f = Flags::from_byte(bits);
        assert_eq!(f.to_byte(), bits);
        let segment = Segment { seq: 77, ack: 78, flags: f, payload: vec![bits; 5] };
        let back = decode(&encode(&segment)).unwrap();
        assert_eq!(back, segment);
    }
}

#[test]
fn decode_round_trips_largest_payload() {
    let segment = Segment {
        seq: 9,
        ack: 0,
        flags: flags(false, false, false, true),
        payload: vec![7; MAX_PAYLOAD],
    };
    let bytes = encode(&segment);
    assert_eq!(bytes.len(), HEADER_LEN + MAX_PAYLOAD);
    assert_eq!(bytes[9], 255);
    assert_eq!(bytes[10], 255);
    assert_eq!(decode(&bytes), Ok(segment));
}

#[test]
fn decode_rejects_short_header() {
    let bytes = encode(&sample());
    assert_eq!(decode(&bytes[..HEADER_LEN - 1]), Err(CodecError::Truncated));
    assert_eq!(decode(&[]), Err(CodecError::Truncated));
}

#[test]
fn decode_rejects_short_payload() {
    let bytes = encode(&sample());
    assert_eq!(decode(&bytes[..bytes.len() - 1]), Err(CodecError::Truncated));
    assert_eq!(decode(&bytes[..HEADER_LEN]), Err(CodecError::Truncated));
}

#[test]
fn decode_rejects_changed_payload() {
    let mut bytes = encode(&sample());
    let last = bytes.len() - 1;
    bytes[last] ^= 1;
    assert_eq!(decode(&bytes), Err(CodecError::ChecksumMismatch));
}

#[test]
fn decode_rejects_changed_header() {
    for at in 0..9 {
        let mut bytes = encode(&sample());
        bytes[at] ^= 0x10;
        assert_eq!(decode(&bytes), Err(CodecError::ChecksumMismatch));
    }
}

#[test]
fn decode_rejects_changed_checksum() {
    let mut bytes = encode(&sample());
    bytes[12] = bytes[12].wrapping_add(1);
    assert_eq!(decode(&bytes), Err(CodecError::ChecksumMismatch));
}

#[test]
fn decode_reports_truncation_before_checksum() {
    let mut bytes = encode(&sample());
    bytes[10] = 3;
    assert_eq!(decode(&bytes), Err(CodecError::Truncated));
}

#[test]
fn decode_ignores_bytes_behind_the_payload() {
    let mut bytes = encode(&sample());
    bytes.extend_from_slice(&[9, 9, 9]);
    assert_eq!(decode(&bytes), Ok(sample()));
}

#[test]
fn decode_rejects_all_zero_datagram() {
    assert_eq!(decode(&[0u8; 15]), Err(CodecError::ChecksumMismatch));
}

#[test]
fn flags_byte_uses_low_four_bits() {
    assert_eq!(flags(true, false, false, false).to_byte(), 1);
    assert_eq!(flags(false, true, false, false).to_byte(), 2);
    assert_eq!(flags(false, false, true, false).to_byte(), 4);
    assert_eq!(flags(false, false, false, true).to_byte(), 8);
    assert_eq!(Flags::none().to_byte(), 0);
    assert_eq!(Flags::from_byte(0xF5), flags(true, false, true, false));
}

#[test]
fn sum_bytes_follows_the_recurrence() {
    assert_eq!(sum_bytes(CHECKSUM_SEED, &[]), 2166136261);
    assert_eq!(sum_bytes(0, &[1, 2]), 33);
    assert_eq!(sum_bytes(0xFFFF_FFFF, &[0xFF]), 224);
}

#[test]
fn sum_bytes_continues_across_a_split() {
    let bytes = [3u8, 1, 4, 1, 5, 9, 2, 6];
    let whole = sum_bytes(CHECKSUM_SEED, &bytes);
    let split = sum_bytes(sum_bytes(CHECKSUM_SEED, &bytes[..3]), &bytes[3..]);
    assert_eq!(whole, split);
}
