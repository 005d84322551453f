//! Retransmission timing: how long to wait for an acknowledgment before a
//! segment is sent again, and when that wait is over.
//!
//! Times are milliseconds on a clock of the caller's choosing that never
//! runs backwards.

use vstd::prelude::*;

verus! {

/// The wait before the first retransmission.
pub const INITIAL_RTO_MS: u64 = 200;

/// No wait is longer than this.
pub const MAX_RTO_MS: u64 = 60_000;

/// How often a segment is sent again before the connection is given up.
pub const MAX_RETRIES: u32 = 8;

/// The wait that follows the `retries`-th retransmission: it doubles with
/// every retransmission until it reaches [`MAX_RTO_MS`].
pub open spec fn backoff(retries: nat) -> nat
    decreases retries,
{
    if retries == 0 {
        INITIAL_RTO_MS as nat
    } else if 2 * backoff((retries - 1) as nat) >= MAX_RTO_MS {
        MAX_RTO_MS as nat
    } else {
        2 * backoff((retries - 1) as nat)
    }
}

/// The time at which a segment sent at `now` for the `retries`-th time again
/// is due once more; the end of time where the clock cannot count that far.
pub open spec fn deadline_after(now: u64, retries: nat) -> u64 {
    if now + backoff(retries) > u64::MAX {
        u64::MAX
    } else {
        (now + backoff(retries)) as u64
    }
}

/// Every wait lies between the first and the longest.
pub proof fn lemma_backoff_bounds(retries: nat)
    ensures
        INITIAL_RTO_MS <= backoff(retries) <= MAX_RTO_MS,
    decreases retries,
{
    if retries > 0 {
        lemma_backoff_bounds((retries - 1) as nat);
    }
}

/// A later retransmission never waits less than an earlier one.
pub proof fn lemma_backoff_monotone(earlier: nat, later: nat)
    requires
        earlier <= later,
    ensures
        backoff(earlier) <= backoff(later),
    decreases later,
{
    if earlier < later {
        lemma_backoff_monotone(earlier, (later - 1) as nat);
        lemma_backoff_bounds((later - 1) as nat);
    }
}

/// The wait that follows the `retries`-th retransmission.
pub fn retransmit_timeout(retries: u32) -> (wait: u64)
    ensures
        wait == backoff(retries as nat),
{
    let mut wait: u64 = INITIAL_RTO_MS;
    let mut i: u32 = 0;
    while i < retries
        invariant
            i <= retries,
            wait == backoff(i as nat),
            wait <= MAX_RTO_MS,
        decreases retries - i,
    {
        if wait >= MAX_RTO_MS / 2 {
            wait = MAX_RTO_MS;
        } else {
            wait = 2 * wait;
        }
        i += 1;
    }
    wait
}

/// The time at which a segment sent at `now` is due again.
pub fn deadline(now: u64, retries: u32) -> (due: u64)
    ensures
        due == deadline_after(now, retries as nat),
{
    let wait: u64 = retransmit_timeout(retries);
    if now > u64::MAX - wait {
        u64::MAX
    } else {
        now + wait
    }
}

} // verus!
