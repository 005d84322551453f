//! Sequence numbers.
//!
//! Inside a connection every segment has a *position*: a 64-bit number that
//! grows by one per segment and never wraps. The header carries only its
//! residue modulo 2^32. The first position of a direction lies one full turn
//! of the header field above its initial sequence number, so that the
//! positions shortly before it exist too.

use vstd::prelude::*;

verus! {

/// Number of distinct values of the header field.
pub const WIRE_MODULUS: u64 = 0x1_0000_0000;

/// Half of [`WIRE_MODULUS`]: how far from a reference a residue is still unambiguous.
pub const HALF_TURN: u64 = 0x8000_0000;

/// No position is assigned at or above this bound.
pub const POSITION_LIMIT: u64 = 0x4000_0000_0000_0000;

/// The residue of a position that travels in a segment header.
pub open spec fn wire_of(pos: u64) -> u32 {
    (pos % WIRE_MODULUS) as u32
}

/// The position that carries the initial sequence number `isn`.
pub open spec fn origin_of(isn: u32) -> u64 {
    (WIRE_MODULUS + isn) as u64
}

/// How far in front of `reference` the next position with residue `wire` lies.
pub open spec fn ahead_of(reference: u64, wire: u32) -> int {
    (wire + WIRE_MODULUS - reference % WIRE_MODULUS) % (WIRE_MODULUS as int)
}

/// The position with residue `wire` that lies nearest to `reference`: less
/// than half a turn in front of it, or at most half a turn behind it. Where
/// the one behind would lie before position zero, it is the one in front.
pub open spec fn nearest(reference: u64, wire: u32) -> u64 {
    let ahead = ahead_of(reference, wire);
    if ahead < HALF_TURN || reference + ahead < WIRE_MODULUS {
        (reference + ahead) as u64
    } else {
        (reference + ahead - WIRE_MODULUS) as u64
    }
}

/// The position found has the residue asked for.
pub proof fn lemma_nearest_residue(reference: u64, wire: u32)
    requires
        reference <= POSITION_LIMIT,
    ensures
        wire_of(nearest(reference, wire)) == wire,
{
    let m = WIRE_MODULUS as int;
    let rq = reference as int / m;
    let rm = reference as int % m;
    assert(reference == rq * m + rm && 0 <= rm < m);
    let ahead = ahead_of(reference, wire);
    if wire >= rm {
        assert(ahead == wire - rm);
    } else {
        assert(ahead == wire + m - rm);
    }
}

/// A position within half a turn of the reference is found again from its residue.
pub proof fn lemma_nearest_recovers(reference: u64, pos: u64)
    requires
        reference <= POSITION_LIMIT,
        reference - HALF_TURN <= pos < reference + HALF_TURN,
    ensures
        nearest(reference, wire_of(pos)) == pos,
{
    let m = WIRE_MODULUS as int;
    let rq = reference as int / m;
    let rm = reference as int % m;
    let pq = pos as int / m;
    let pm = pos as int % m;
    assert(reference == rq * m + rm && 0 <= rm < m);
    assert(pos == pq * m + pm && 0 <= pm < m);
    assert(wire_of(pos) == pm);
    let ahead = ahead_of(reference, wire_of(pos));
    assert(ahead == (pm + m - rm) % m);
    if pm >= rm {
        assert((pm + m - rm) % m == pm - rm);
        assert(pq == rq || pq == rq - 1);
    } else {
        assert((pm + m - rm) % m == pm + m - rm);
        assert(pq == rq || pq == rq + 1);
    }
}

/// The residue of a position.
pub fn to_wire(pos: u64) -> (w: u32)
    ensures
        w == wire_of(pos),
{
    (pos % WIRE_MODULUS) as u32
}

/// The position of an initial sequence number.
pub fn origin(isn: u32) -> (pos: u64)
    ensures
        pos == origin_of(isn),
        WIRE_MODULUS <= pos < 2 * WIRE_MODULUS,
{
    WIRE_MODULUS + (isn as u64)
}

/// Finds the position near `reference` that a header field stands for.
pub fn resolve(reference: u64, wire: u32) -> (pos: u64)
    requires
        reference <= POSITION_LIMIT,
    ensures
        pos == nearest(reference, wire),
{
    let ahead: u64 = ((wire as u64) + WIRE_MODULUS - reference % WIRE_MODULUS) % WIRE_MODULUS;
    if ahead < HALF_TURN || reference + ahead < WIRE_MODULUS {
        reference + ahead
    } else {
        reference + ahead - WIRE_MODULUS
    }
}

} // verus!
