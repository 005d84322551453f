//! Wire framing of protocol segments.
//!
//! A datagram holds one segment: a fixed header of fifteen bytes, all fields
//! big-endian, followed by the payload.
//!
//! | offset | size | field                          |
//! |--------|------|--------------------------------|
//! | 0      | 4    | sequence number                |
//! | 4      | 4    | acknowledgment number          |
//! | 8      | 1    | flags (SOS, EOS, ACK, DATA)    |
//! | 9      | 2    | payload length                 |
//! | 11     | 4    | checksum                       |
//! | 15     | n    | payload                        |
//!
//! The checksum covers the first eleven header bytes and the payload.

use vstd::prelude::*;
use vstd::slice::slice_to_vec;

verus! {

/// Number of bytes in front of the payload.
pub const HEADER_LEN: usize = 15;

/// Number of header bytes in front of the checksum field.
pub const CHECKED_HEADER_LEN: usize = 11;

/// Largest payload that the length field can announce.
pub const MAX_PAYLOAD: usize = 65535;

/// Multiplier of the rolling checksum.
pub const CHECKSUM_FACTOR: u64 = 31;

/// Value from which the rolling checksum starts, so that a run of zero bytes
/// does not sum to zero.
pub const CHECKSUM_SEED: u32 = 0x811C_9DC5;

/// The four markers a segment can carry.
#[derive(Clone, Copy, Debug, PartialEq, Eq, Structural)]
pub struct Flags {
    /// First data segment of a logical stream.
    pub sos: bool,
    /// Last data segment of a logical stream.
    pub eos: bool,
    /// The acknowledgment number is meaningful.
    pub ack: bool,
    /// The segment occupies a place in the data stream.
    pub data: bool,
}

/// One unit of the protocol as it travels in a datagram.
#[derive(Debug, PartialEq, Eq)]
pub struct Segment {
    pub seq: u32,
    pub ack: u32,
    pub flags: Flags,
    pub payload: Vec<u8>,
}

/// Why a datagram was not accepted as a segment.
#[derive(Clone, Copy, Debug, PartialEq, Eq, Structural)]
pub enum CodecError {
    /// The buffer ends before the header or before the announced payload does.
    Truncated,
    /// The stored checksum differs from the one computed over the bytes.
    ChecksumMismatch,
}

/// Mathematical value of a [`Segment`].
pub struct SegmentView {
    pub seq: u32,
    pub ack: u32,
    pub flags: Flags,
    pub payload: Seq<u8>,
}

impl View for Segment {
    type V = SegmentView;

    open spec fn view(&self) -> SegmentView {
        SegmentView { seq: self.seq, ack: self.ack, flags: self.flags, payload: self.payload@ }
    }
}

impl SegmentView {
    /// The payload length fits the sixteen-bit length field.
    pub open spec fn encodable(self) -> bool {
        self.payload.len() <= MAX_PAYLOAD
    }
}

/// Big-endian bytes of a 32-bit value.
pub open spec fn be32(x: u32) -> Seq<u8> {
    seq![
        (x / 0x100_0000) as u8,
        (x / 0x1_0000 % 0x100) as u8,
        (x / 0x100 % 0x100) as u8,
        (x % 0x100) as u8,
    ]
}

/// Big-endian bytes of a 16-bit value.
pub open spec fn be16(x: u16) -> Seq<u8> {
    seq![(x / 0x100) as u8, (x % 0x100) as u8]
}

/// The 32-bit value whose big-endian bytes start at `at`.
pub open spec fn read_be32(b: Seq<u8>, at: int) -> u32 {
    (b[at] * 0x100_0000 + b[at + 1] * 0x1_0000 + b[at + 2] * 0x100 + b[at + 3]) as u32
}

/// The 16-bit value whose big-endian bytes start at `at`.
pub open spec fn read_be16(b: Seq<u8>, at: int) -> u16 {
    (b[at] * 0x100 + b[at + 1]) as u16
}

/// The flags byte: SOS is bit 0, EOS bit 1, ACK bit 2, DATA bit 3.
pub open spec fn flags_byte(f: Flags) -> u8 {
    ((if f.sos { 1int } else { 0 }) + (if f.eos { 2int } else { 0 })
        + (if f.ack { 4int } else { 0 }) + (if f.data { 8int } else { 0 })) as u8
}

/// The markers that a flags byte announces; the upper four bits mean nothing.
pub open spec fn flags_of(b: u8) -> Flags {
    Flags { sos: b % 2 == 1, eos: b / 2 % 2 == 1, ack: b / 4 % 2 == 1, data: b / 8 % 2 == 1 }
}

/// Rolling checksum: each byte multiplies the running value by
/// [`CHECKSUM_FACTOR`] and adds itself, modulo 2^32. The checksum of a
/// segment starts from [`CHECKSUM_SEED`].
pub open spec fn fold_sum(acc: u32, bytes: Seq<u8>) -> u32
    decreases bytes.len(),
{
    if bytes.len() == 0 {
        acc
    } else {
        ((fold_sum(acc, bytes.drop_last()) * CHECKSUM_FACTOR + bytes.last()) % 0x1_0000_0000) as u32
    }
}

/// The header bytes in front of the checksum field.
pub open spec fn header_prefix(s: SegmentView) -> Seq<u8> {
    be32(s.seq) + be32(s.ack) + seq![flags_byte(s.flags)] + be16(s.payload.len() as u16)
}

/// The checksum that belongs in the header of `s`.
pub open spec fn checksum(s: SegmentView) -> u32 {
    fold_sum(CHECKSUM_SEED, header_prefix(s) + s.payload)
}

/// The datagram that carries `s`.
pub open spec fn encoding(s: SegmentView) -> Seq<u8> {
    header_prefix(s) + be32(checksum(s)) + s.payload
}

/// What a datagram means: the segment it carries, or why it carries none.
/// Bytes behind the announced payload are not looked at.
pub open spec fn parse(b: Seq<u8>) -> Result<SegmentView, CodecError> {
    if b.len() < HEADER_LEN {
        Err(CodecError::Truncated)
    } else {
        let n = read_be16(b, 9) as int;
        if b.len() < HEADER_LEN + n {
            Err(CodecError::Truncated)
        } else {
            let payload = b.subrange(HEADER_LEN as int, HEADER_LEN + n);
            if fold_sum(CHECKSUM_SEED, b.subrange(0, CHECKED_HEADER_LEN as int) + payload)
                != read_be32(b, CHECKED_HEADER_LEN as int) {
                Err(CodecError::ChecksumMismatch)
            } else {
                Ok(
                    SegmentView {
                        seq: read_be32(b, 0),
                        ack: read_be32(b, 4),
                        flags: flags_of(b[8]),
                        payload,
                    },
                )
            }
        }
    }
}

/// The mathematical value of a decoding result.
pub open spec fn decoded_view(r: Result<Segment, CodecError>) -> Result<SegmentView, CodecError> {
    match r {
        Ok(s) => Ok(s@),
        Err(e) => Err(e),
    }
}

/// The checksum of a concatenation continues from the checksum of its first part.
pub proof fn lemma_fold_sum_concat(acc: u32, a: Seq<u8>, b: Seq<u8>)
    ensures
        fold_sum(acc, a + b) == fold_sum(fold_sum(acc, a), b),
    decreases b.len(),
{
    if b.len() == 0 {
        assert(a + b =~= a);
    } else {
        lemma_fold_sum_concat(acc, a, b.drop_last());
        assert((a + b).drop_last() =~= a + b.drop_last());
        assert((a + b).last() == b.last());
    }
}

/// Reading back the big-endian bytes of a value gives the value.
pub proof fn lemma_read_be32(b: Seq<u8>, at: int, x: u32)
    requires
        0 <= at,
        at + 4 <= b.len(),
        b.subrange(at, at + 4) == be32(x),
    ensures
        read_be32(b, at) == x,
{
    let w = b.subrange(at, at + 4);
    assert(w[0] == b[at] && w[1] == b[at + 1] && w[2] == b[at + 2] && w[3] == b[at + 3]);
}

/// A flags byte built from markers announces those markers.
pub proof fn lemma_flags_round_trip(f: Flags)
    ensures
        flags_of(flags_byte(f)) == f,
{
}

/// Decoding what was encoded gives the segment back.
pub proof fn lemma_decode_encode(s: SegmentView)
    requires
        s.encodable(),
    ensures
        parse(encoding(s)) == Ok::<SegmentView, CodecError>(s),
{
    let b = encoding(s);
    let h = header_prefix(s);
    let n = s.payload.len() as int;
    assert(h.len() == CHECKED_HEADER_LEN);
    assert(b.len() == HEADER_LEN + n);
    assert(b.subrange(0, 4) =~= be32(s.seq));
    assert(b.subrange(4, 8) =~= be32(s.ack));
    assert(b.subrange(11, 15) =~= be32(checksum(s)));
    assert(b.subrange(0, 11) =~= h);
    assert(b.subrange(15, 15 + n) =~= s.payload);
    lemma_read_be32(b, 0, s.seq);
    lemma_read_be32(b, 4, s.ack);
    lemma_read_be32(b, 11, checksum(s));
    assert(b[8] == flags_byte(s.flags));
    lemma_flags_round_trip(s.flags);
    let len16 = s.payload.len() as u16;
    assert(b[9] == (len16 / 0x100) as u8 && b[10] == (len16 % 0x100) as u8);
    assert(read_be16(b, 9) == len16);
}

/// Runs the rolling checksum of `bytes` on from `acc`.
pub fn sum_bytes(acc: u32, bytes: &[u8]) -> (r: u32)
    ensures
        r == fold_sum(acc, bytes@),
{
    let mut a: u32 = acc;
    let mut i: usize = 0;
    while i < bytes.len()
        invariant
            i <= bytes@.len(),
            a == fold_sum(acc, bytes@.take(i as int)),
        decreases bytes@.len() - i,
    {
        let wide: u64 = (a as u64) * CHECKSUM_FACTOR + (bytes[i] as u64);
        proof {
            assert(bytes@.take(i + 1).drop_last() =~= bytes@.take(i as int));
            assert(bytes@.take(i + 1).last() == bytes@[i as int]);
        }
        a = (wide % 0x1_0000_0000) as u32;
        i += 1;
    }
    proof {
        assert(bytes@.take(bytes@.len() as int) =~= bytes@);
    }
    a
}

/// Appends the big-endian bytes of `x` to `out`.
fn put_be32(out: &mut Vec<u8>, x: u32)
    ensures
        final(out)@ == old(out)@ + be32(x),
{
    out.push((x / 0x100_0000) as u8);
    out.push((x / 0x1_0000 % 0x100) as u8);
    out.push((x / 0x100 % 0x100) as u8);
    out.push((x % 0x100) as u8);
    proof {
        assert(out@ =~= old(out)@ + be32(x));
    }
}

/// Reads the big-endian 32-bit value at `at`.
fn get_be32(bytes: &[u8], at: usize) -> (x: u32)
    requires
        at + 4 <= bytes@.len(),
    ensures
        x == read_be32(bytes@, at as int),
{
    (bytes[at] as u32) * 0x100_0000 + (bytes[at + 1] as u32) * 0x1_0000 + (bytes[at + 2] as u32)
        * 0x100 + (bytes[at + 3] as u32)
}

impl Flags {
    /// No marker set.
    pub fn none() -> (f: Flags)
        ensures
            f == (Flags { sos: false, eos: false, ack: false, data: false }),
    {
        Flags { sos: false, eos: false, ack: false, data: false }
    }

    /// The byte that carries these markers.
    pub fn to_byte(self) -> (b: u8)
        ensures
            b == flags_byte(self),
    {
        let mut b: u8 = 0;
        if self.sos {
            b = b + 1;
        }
        if self.eos {
            b = b + 2;
        }
        if self.ack {
            b = b + 4;
        }
        if self.data {
            b = b + 8;
        }
        b
    }

    /// The markers that a byte carries.
    pub fn from_byte(b: u8) -> (f: Flags)
        ensures
            f == flags_of(b),
    {
        Flags { sos: b % 2 == 1, eos: b / 2 % 2 == 1, ack: b / 4 % 2 == 1, data: b / 8 % 2 == 1 }
    }
}

/// Frames a segment as a datagram.
pub fn encode(segment: &Segment) -> (out: Vec<u8>)
    requires
        segment@.encodable(),
    ensures
        out@ == encoding(segment@),
        parse(out@) == Ok::<SegmentView, CodecError>(segment@),
{
    let len: usize = segment.payload.len();
    let len16: u16 = len as u16;
    let mut out: Vec<u8> = Vec::new();
    put_be32(&mut out, segment.seq);
    put_be32(&mut out, segment.ack);
    out.push(segment.flags.to_byte());
    out.push((len16 / 0x100) as u8);
    out.push((len16 % 0x100) as u8);
    proof {
        assert(out@ =~= header_prefix(segment@));
    }
    let head: u32 = sum_bytes(CHECKSUM_SEED, out.as_slice());
    let sum: u32 = sum_bytes(head, segment.payload.as_slice());
    proof {
        lemma_fold_sum_concat(CHECKSUM_SEED, header_prefix(segment@), segment.payload@);
    }
    put_be32(&mut out, sum);
    let mut i: usize = 0;
    while i < len
        invariant
            len == segment.payload@.len(),
            i <= len,
            out@ == header_prefix(segment@) + be32(checksum(segment@)) + segment.payload@.take(
                i as int,
            ),
        decreases len - i,
    {
        out.push(segment.payload[i]);
        proof {
            assert(segment.payload@.take(i + 1) =~= segment.payload@.take(i as int).push(
                segment.payload@[i as int],
            ));
        }
        i += 1;
    }
    proof {
        assert(segment.payload@.take(len as int) =~= segment.payload@);
        lemma_decode_encode(segment@);
    }
    out
}

/// Reads a datagram as a segment.
///
/// Fails with [`CodecError::Truncated`] where the buffer is shorter than the
/// header or than the header and the payload it announces, and with
/// [`CodecError::ChecksumMismatch`] where the stored checksum is not the one
/// of the bytes.
pub fn decode(bytes: &[u8]) -> (r: Result<Segment, CodecError>)
    ensures
        decoded_view(r) == parse(bytes@),
{
    if bytes.len() < HEADER_LEN {
        return Err(CodecError::Truncated);
    }
    let n: usize = (bytes[9] as usize) * 0x100 + (bytes[10] as usize);
    if bytes.len() - HEADER_LEN < n {
        return Err(CodecError::Truncated);
    }
    let body: &[u8] = &bytes[HEADER_LEN..HEADER_LEN + n];
    let head: u32 = sum_bytes(CHECKSUM_SEED, &bytes[0..CHECKED_HEADER_LEN]);
    let sum: u32 = sum_bytes(head, body);
    proof {
        lemma_fold_sum_concat(
            CHECKSUM_SEED,
            bytes@.subrange(0, CHECKED_HEADER_LEN as int),
            body@,
        );
    }
    if sum != get_be32(bytes, CHECKED_HEADER_LEN) {
        return Err(CodecError::ChecksumMismatch);
    }
    let payload: Vec<u8> = slice_to_vec(body);
    Ok(
        Segment {
            seq: get_be32(bytes, 0),
            ack: get_be32(bytes, 4),
            flags: Flags::from_byte(bytes[8]),
            payload,
        },
    )
}

} // verus!
