//! The sending side as mathematics: the records of the segments in flight,
//! and how sending, acknowledgment and expiry change them.

use crate::codec::{Flags, SegmentView};
use crate::seqnum::{wire_of, HALF_TURN, POSITION_LIMIT};
use crate::timer::{deadline_after, MAX_RETRIES};
use vstd::prelude::*;

verus! {

/// Largest payload that one segment carries; longer payloads are split.
pub const MAX_SEGMENT_PAYLOAD: usize = 1024;

/// Mathematical value of the record of a segment in flight.
pub struct OutstandingView {
    pub position: u64,
    pub payload: Seq<u8>,
    pub sos: bool,
    pub eos: bool,
    /// Unset on the connection request, which carries no application data.
    pub data: bool,
    /// When the segment was first handed to the network.
    pub sent_at: u64,
    /// How often it was handed to the network again.
    pub retries: u32,
    /// When it is handed to the network again unless acknowledged before.
    pub deadline: u64,
}

/// Mathematical value of a sender window.
pub struct SenderView {
    /// How many segments may be in flight at once.
    pub window_size: nat,
    /// Every position up to this one is acknowledged.
    pub acked: u64,
    /// The segments in flight, oldest first.
    pub records: Seq<OutstandingView>,
}

/// What can happen to a sender window.
pub enum SenderEvent {
    /// A segment is offered for sending.
    Send { payload: Seq<u8>, sos: bool, eos: bool, data: bool, now: u64 },
    /// The cumulative acknowledgment of a position arrives.
    Ack(u64),
    /// Time has passed up to the given moment.
    Expire(u64),
}

/// The segment that a record puts on the wire, first time and every time again.
pub open spec fn segment_of(record: OutstandingView) -> SegmentView {
    SegmentView {
        seq: wire_of(record.position),
        ack: 0,
        flags: Flags { sos: record.sos, eos: record.eos, ack: false, data: record.data },
        payload: record.payload,
    }
}

/// How many bytes of a payload go into its first segment.
pub open spec fn first_chunk_len(buf: Seq<u8>) -> int {
    if buf.len() <= MAX_SEGMENT_PAYLOAD {
        buf.len() as int
    } else {
        MAX_SEGMENT_PAYLOAD as int
    }
}

/// The record that sending the first chunk of `buf` creates.
pub open spec fn sent_record(v: SenderView, buf: Seq<u8>, sos: bool, eos: bool, now: u64)
    -> OutstandingView {
    v.fresh_record(
        buf.take(first_chunk_len(buf)),
        sos,
        eos && first_chunk_len(buf) == buf.len(),
        true,
        now,
    )
}

/// What offering `buf` for sending means to the window: the offer of its
/// first chunk as a data segment.
pub open spec fn send_event(buf: Seq<u8>, sos: bool, eos: bool, now: u64) -> SenderEvent {
    SenderEvent::Send {
        payload: buf.take(first_chunk_len(buf)),
        sos,
        eos: eos && first_chunk_len(buf) == buf.len(),
        data: true,
        now,
    }
}

/// The record that sending the connection request creates.
pub open spec fn request_record(v: SenderView, now: u64) -> OutstandingView {
    v.fresh_record(Seq::empty(), false, false, false, now)
}

/// The first record at or behind index `from` whose deadline has passed at
/// `now`; the number of records where there is none.
pub open spec fn first_due_from(records: Seq<OutstandingView>, now: u64, from: int) -> int
    decreases records.len() - from,
{
    if from >= records.len() {
        records.len() as int
    } else if from >= 0 && records[from].deadline <= now {
        from
    } else {
        first_due_from(records, now, from + 1)
    }
}

impl SenderView {
    /// A window with nothing in flight whose first segment will have position `first`.
    pub open spec fn initial(window_size: nat, first: u64) -> SenderView {
        SenderView { window_size, acked: (first - 1) as u64, records: Seq::empty() }
    }

    /// The position that the next segment gets.
    pub open spec fn next_position(self) -> int {
        self.acked + 1 + self.records.len()
    }

    /// No further segment may be in flight.
    pub open spec fn is_full(self) -> bool {
        self.records.len() >= self.window_size
    }

    /// No position is left to assign.
    pub open spec fn is_exhausted(self) -> bool {
        self.next_position() >= POSITION_LIMIT
    }

    /// The record of a segment sent now.
    pub open spec fn fresh_record(
        self,
        payload: Seq<u8>,
        sos: bool,
        eos: bool,
        data: bool,
        now: u64,
    ) -> OutstandingView {
        OutstandingView {
            position: self.next_position() as u64,
            payload,
            sos,
            eos,
            data,
            sent_at: now,
            retries: 0,
            deadline: deadline_after(now, 0),
        }
    }

    /// The window after `record` went into flight.
    pub open spec fn with_record(self, record: OutstandingView) -> SenderView {
        SenderView { records: self.records.push(record), ..self }
    }

    /// The window after the cumulative acknowledgment of position `n`: the
    /// records up to `n` are gone. An acknowledgment of what was acknowledged
    /// before, or of what was never sent, changes nothing.
    pub open spec fn acknowledge(self, n: u64) -> SenderView {
        if self.acked < n < self.next_position() {
            SenderView { acked: n, records: self.records.skip(n - self.acked), ..self }
        } else {
            self
        }
    }

    /// How many records the acknowledgment of position `n` retires.
    pub open spec fn retired_by(self, n: u64) -> int {
        if self.acked < n < self.next_position() {
            n - self.acked
        } else {
            0
        }
    }

    /// The oldest record whose deadline has passed at `now`; the number of
    /// records where there is none.
    pub open spec fn first_due(self, now: u64) -> int {
        first_due_from(self.records, now, 0)
    }

    /// The record at `index` after it was sent again at `now`.
    pub open spec fn resent_record(self, index: int, now: u64) -> OutstandingView {
        let record = self.records[index];
        OutstandingView {
            retries: (record.retries + 1) as u32,
            deadline: deadline_after(now, (record.retries + 1) as nat),
            ..record
        }
    }

    /// The window after the record at `index` was sent again at `now`.
    pub open spec fn resend(self, index: int, now: u64) -> SenderView {
        SenderView { records: self.records.update(index, self.resent_record(index, now)), ..self }
    }

    /// The window after one event: a segment goes into flight if the window
    /// has room, an acknowledgment retires records, and the oldest record
    /// that is due is sent again if its retry budget allows.
    pub open spec fn step(self, event: SenderEvent) -> SenderView {
        match event {
            SenderEvent::Send { payload, sos, eos, data, now } => if !self.is_full()
                && !self.is_exhausted() && payload.len() <= MAX_SEGMENT_PAYLOAD {
                self.with_record(self.fresh_record(payload, sos, eos, data, now))
            } else {
                self
            },
            SenderEvent::Ack(n) => self.acknowledge(n),
            SenderEvent::Expire(now) => if self.first_due(now) < self.records.len()
                && self.records[self.first_due(now)].retries < MAX_RETRIES {
                self.resend(self.first_due(now), now)
            } else {
                self
            },
        }
    }

    /// The window after a series of events, first to last.
    pub open spec fn run(self, events: Seq<SenderEvent>) -> SenderView
        decreases events.len(),
    {
        if events.len() == 0 {
            self
        } else {
            self.run(events.drop_last()).step(events.last())
        }
    }

    /// What holds of every window.
    pub open spec fn inv(self) -> bool {
        &&& self.window_size >= 1
        &&& self.records.len() <= self.window_size
        &&& HALF_TURN <= self.acked
        &&& self.acked + self.records.len() < POSITION_LIMIT
        &&& forall|i: int|
            0 <= i < self.records.len() ==> {
                &&& (#[trigger] self.records[i]).position == self.acked + 1 + i
                &&& self.records[i].retries <= MAX_RETRIES
                &&& self.records[i].payload.len() <= MAX_SEGMENT_PAYLOAD
            }
    }
}

/// Where the search for a due record ends: nothing before the end is due,
/// and the end is due unless it is the number of records.
pub proof fn lemma_first_due_from(records: Seq<OutstandingView>, now: u64, from: int)
    requires
        0 <= from <= records.len(),
    ensures
        from <= first_due_from(records, now, from) <= records.len(),
        forall|j: int| from <= j < first_due_from(records, now, from) ==> records[j].deadline > now,
        first_due_from(records, now, from) < records.len() ==> records[first_due_from(
            records,
            now,
            from,
        )].deadline <= now,
    decreases records.len() - from,
{
    if from < records.len() && records[from].deadline > now {
        lemma_first_due_from(records, now, from + 1);
    }
}

/// Sending leaves a sound window sound, and never more in flight than the window admits.
pub proof fn lemma_with_record_inv(
    v: SenderView,
    payload: Seq<u8>,
    sos: bool,
    eos: bool,
    data: bool,
    now: u64,
)
    requires
        v.inv(),
        !v.is_full(),
        !v.is_exhausted(),
        payload.len() <= MAX_SEGMENT_PAYLOAD,
    ensures
        v.with_record(v.fresh_record(payload, sos, eos, data, now)).inv(),
{
}

/// An acknowledgment leaves a sound window sound.
pub proof fn lemma_acknowledge_inv(v: SenderView, n: u64)
    requires
        v.inv(),
    ensures
        v.acknowledge(n).inv(),
        v.acknowledge(n).records.len() == v.records.len() - v.retired_by(n),
{
}

/// A retransmission leaves a sound window sound.
pub proof fn lemma_resend_inv(v: SenderView, index: int, now: u64)
    requires
        v.inv(),
        0 <= index < v.records.len(),
        v.records[index].retries < MAX_RETRIES,
    ensures
        v.resend(index, now).inv(),
{
}

/// One event leaves a sound window sound.
pub proof fn lemma_step_inv(v: SenderView, event: SenderEvent)
    requires
        v.inv(),
    ensures
        v.step(event).inv(),
{
    match event {
        SenderEvent::Send { payload, sos, eos, data, now } => {
            if !v.is_full() && !v.is_exhausted() && payload.len() <= MAX_SEGMENT_PAYLOAD {
                lemma_with_record_inv(v, payload, sos, eos, data, now);
            }
        },
        SenderEvent::Ack(n) => {
            lemma_acknowledge_inv(v, n);
        },
        SenderEvent::Expire(now) => {
            lemma_first_due_from(v.records, now, 0);
            if v.first_due(now) < v.records.len() && v.records[v.first_due(now)].retries
                < MAX_RETRIES {
                lemma_resend_inv(v, v.first_due(now), now);
            }
        },
    }
}

/// Any series of events leaves a sound window sound.
pub proof fn lemma_run_inv(v: SenderView, events: Seq<SenderEvent>)
    requires
        v.inv(),
    ensures
        v.run(events).inv(),
    decreases events.len(),
{
    if events.len() > 0 {
        lemma_run_inv(v, events.drop_last());
        lemma_step_inv(v.run(events.drop_last()), events.last());
    }
}

} // verus!
