//! The sender's sliding window.
//!
//! Every segment handed to the network leaves a record behind until the peer
//! acknowledges it. The window bounds how many records exist at once; a
//! record whose deadline passes is sent again, a limited number of times.

use crate::codec::{Flags, Segment};
use crate::error::ConfigError;
use crate::seqnum::{nearest, origin, origin_of, resolve, to_wire, POSITION_LIMIT};
use crate::timer::{deadline, MAX_RETRIES};
use crate::window_model::{first_chunk_len, first_due_from, segment_of, send_event};
use crate::window_model::{request_record, sent_record};
use crate::window_model::{OutstandingView, SenderEvent, SenderView, MAX_SEGMENT_PAYLOAD};
use vstd::prelude::*;
use vstd::slice::slice_to_vec;

verus! {

/// The record of a segment in flight.
#[derive(Debug, PartialEq, Eq)]
pub struct Outstanding {
    pub position: u64,
    pub payload: Vec<u8>,
    pub sos: bool,
    pub eos: bool,
    pub data: bool,
    pub sent_at: u64,
    pub retries: u32,
    pub deadline: u64,
}

impl View for Outstanding {
    type V = OutstandingView;

    open spec fn view(&self) -> OutstandingView {
        OutstandingView {
            position: self.position,
            payload: self.payload@,
            sos: self.sos,
            eos: self.eos,
            data: self.data,
            sent_at: self.sent_at,
            retries: self.retries,
            deadline: self.deadline,
        }
    }
}

/// The values of a list of records.
pub open spec fn records_of(records: Seq<Outstanding>) -> Seq<OutstandingView> {
    records.map_values(|r: Outstanding| r@)
}

/// What became of a payload offered for sending.
#[derive(Debug, PartialEq, Eq)]
pub enum SendStep {
    /// As many segments are in flight as the window admits; nothing was
    /// taken. Offer the payload again once an acknowledgment has arrived.
    WindowFull,
    /// Every position has been used; nothing was taken and nothing will be.
    Exhausted,
    /// `segment` is in flight and is to be handed to the network. `rest`
    /// bytes at the end of the payload did not fit and are to be offered next.
    Sent { segment: Segment, rest: usize },
}

/// What the passing of time asks for.
#[derive(Debug, PartialEq, Eq)]
pub enum TimerStep {
    /// No deadline has passed.
    Idle,
    /// The deadline of a record has passed: its segment is to be handed to
    /// the network again.
    Retransmit(Segment),
    /// The deadline of a record has passed that was sent again as often as
    /// allowed already.
    Exhausted,
}

/// Buffers what is in flight and decides what goes to the network when.
pub struct SenderWindow {
    window_size: usize,
    acked: u64,
    records: Vec<Outstanding>,
}

impl View for SenderWindow {
    type V = SenderView;

    closed spec fn view(&self) -> SenderView {
        SenderView {
            window_size: self.window_size as nat,
            acked: self.acked,
            records: records_of(self.records@),
        }
    }
}

impl SenderWindow {
    /// The window is sound: its value obeys the model's invariant.
    pub closed spec fn wf(&self) -> bool {
        self@.inv()
    }

    /// A sound window obeys the model's invariant; in particular it never
    /// has more segments in flight than its size admits.
    pub proof fn lemma_wf_inv(&self)
        requires
            self.wf(),
        ensures
            self@.inv(),
            self@.records.len() <= self@.window_size,
    {
    }

    /// A window of `window_size` segments whose first segment will carry the
    /// sequence number `first_seq`. Fails where `window_size` is zero.
    pub fn new(window_size: usize, first_seq: u32) -> (r: Result<SenderWindow, ConfigError>)
        ensures
            match r {
                Ok(w) => window_size >= 1 && w.wf() && w@ == SenderView::initial(
                    window_size as nat,
                    origin_of(first_seq),
                ),
                Err(e) => window_size == 0 && e == ConfigError::InvalidWindowSize,
            },
    {
        if window_size == 0 {
            return Err(ConfigError::InvalidWindowSize);
        }
        Ok(SenderWindow::starting_at(window_size, first_seq))
    }

    /// A window of at least one segment whose first segment will carry the
    /// sequence number `first_seq`.
    pub(crate) fn starting_at(window_size: usize, first_seq: u32) -> (w: SenderWindow)
        requires
            window_size >= 1,
        ensures
            w.wf(),
            w@ == SenderView::initial(window_size as nat, origin_of(first_seq)),
    {
        let first: u64 = origin(first_seq);
        let w = SenderWindow { window_size, acked: first - 1, records: Vec::new() };
        proof {
            assert(w@.records =~= Seq::empty());
        }
        w
    }

    /// A window of at least one segment with the connection request, which
    /// carries the sequence number `isn`, in flight; and that request.
    pub(crate) fn opening(window_size: usize, isn: u32, now: u64) -> (r: (SenderWindow, Segment))
        requires
            window_size >= 1,
        ensures
            r.0.wf(),
            r.0@ == SenderView::initial(window_size as nat, origin_of(isn)).with_record(
                request_record(SenderView::initial(window_size as nat, origin_of(isn)), now),
            ),
            r.1@ == segment_of(
                request_record(SenderView::initial(window_size as nat, origin_of(isn)), now),
            ),
    {
        let mut w = SenderWindow::starting_at(window_size, isn);
        let segment = w.launch(Vec::new(), false, false, false, now);
        (w, segment)
    }

    /// How many segments may be in flight at once.
    pub fn window_size(&self) -> (n: usize)
        ensures
            n == self@.window_size,
    {
        self.window_size
    }

    /// How many segments are in flight.
    pub fn in_flight(&self) -> (n: usize)
        ensures
            n == self@.records.len(),
    {
        self.records.len()
    }

    /// As many segments are in flight as the window admits.
    pub fn is_full(&self) -> (full: bool)
        ensures
            full == self@.is_full(),
    {
        self.records.len() >= self.window_size
    }

    /// The position up to which everything is acknowledged.
    pub fn acked_position(&self) -> (p: u64)
        ensures
            p == self@.acked,
    {
        self.acked
    }

    /// Puts a record in flight and builds its segment.
    fn launch(&mut self, payload: Vec<u8>, sos: bool, eos: bool, data: bool, now: u64) -> (segment:
        Segment)
        requires
            old(self).wf(),
            !old(self)@.is_full(),
            !old(self)@.is_exhausted(),
            payload@.len() <= MAX_SEGMENT_PAYLOAD,
        ensures
            final(self).wf(),
            final(self)@ == old(self)@.with_record(
                old(self)@.fresh_record(payload@, sos, eos, data, now),
            ),
            segment@ == segment_of(old(self)@.fresh_record(payload@, sos, eos, data, now)),
    {
        let ghost before = self@;
        let position: u64 = self.acked + 1 + (self.records.len() as u64);
        let copy: Vec<u8> = slice_to_vec(payload.as_slice());
        let record = Outstanding {
            position,
            payload,
            sos,
            eos,
            data,
            sent_at: now,
            retries: 0,
            deadline: deadline(now, 0),
        };
        proof {
            assert(record@ == before.fresh_record(record.payload@, sos, eos, data, now));
        }
        self.records.push(record);
        proof {
            assert(self@.records =~= before.records.push(
                before.fresh_record(copy@, sos, eos, data, now),
            ));
        }
        Segment {
            seq: to_wire(position),
            ack: 0,
            flags: Flags { sos, eos, ack: false, data },
            payload: copy,
        }
    }

    /// Offers a payload for sending.
    ///
    /// Where the window has room, the first [`MAX_SEGMENT_PAYLOAD`] bytes of
    /// `buf` (all of it, if it is shorter) go into flight as one data segment
    /// with the next position. The segment carries the start-of-stream marker
    /// if `sos` is set, and the end-of-stream marker if `eos` is set and
    /// nothing of `buf` is left over.
    pub fn send(&mut self, buf: &[u8], sos: bool, eos: bool, now: u64) -> (step: SendStep)
        requires
            old(self).wf(),
        ensures
            final(self).wf(),
            final(self)@ == old(self)@.step(send_event(buf@, sos, eos, now)),
            match step {
                SendStep::WindowFull => old(self)@.is_full() && final(self)@ == old(self)@,
                SendStep::Exhausted => {
                    &&& !old(self)@.is_full()
                    &&& old(self)@.is_exhausted()
                    &&& final(self)@ == old(self)@
                },
                SendStep::Sent { segment, rest } => {
                    &&& !old(self)@.is_full()
                    &&& !old(self)@.is_exhausted()
                    &&& rest == buf@.len() - first_chunk_len(buf@)
                    &&& final(self)@ == old(self)@.with_record(
                        sent_record(old(self)@, buf@, sos, eos, now),
                    )
                    &&& segment@ == segment_of(sent_record(old(self)@, buf@, sos, eos, now))
                },
            },
    {
        if self.records.len() >= self.window_size {
            return SendStep::WindowFull;
        }
        if self.acked + 1 + (self.records.len() as u64) >= POSITION_LIMIT {
            return SendStep::Exhausted;
        }
        let taken: usize = if buf.len() <= MAX_SEGMENT_PAYLOAD {
            buf.len()
        } else {
            MAX_SEGMENT_PAYLOAD
        };
        let rest: usize = buf.len() - taken;
        let chunk: Vec<u8> = slice_to_vec(&buf[0..taken]);
        let segment = self.launch(chunk, sos, eos && rest == 0, true, now);
        SendStep::Sent { segment, rest }
    }

    /// Takes in the cumulative acknowledgment of a position and returns how
    /// many records it retired.
    pub fn retire(&mut self, position: u64) -> (retired: usize)
        requires
            old(self).wf(),
        ensures
            final(self).wf(),
            final(self)@ == old(self)@.step(SenderEvent::Ack(position)),
            final(self)@ == old(self)@.acknowledge(position),
            retired == old(self)@.retired_by(position),
    {
        if position <= self.acked {
            return 0;
        }
        let count: u64 = position - self.acked;
        if count > self.records.len() as u64 {
            return 0;
        }
        let ghost before = self@;
        let retired: usize = count as usize;
        let tail: Vec<Outstanding> = self.records.split_off(retired);
        self.records = tail;
        self.acked = position;
        proof {
            assert(self@.records =~= before.records.skip(position - before.acked));
        }
        retired
    }

    /// Takes in an acknowledgment number as it came off the wire: finds the
    /// position nearest to the acknowledged one that it stands for, and
    /// retires the records up to it.
    pub fn on_ack(&mut self, ack: u32) -> (retired: usize)
        requires
            old(self).wf(),
        ensures
            final(self).wf(),
            final(self)@ == old(self)@.acknowledge(nearest(old(self)@.acked, ack)),
            retired == old(self)@.retired_by(nearest(old(self)@.acked, ack)),
    {
        let position: u64 = resolve(self.acked, ack);
        self.retire(position)
    }

    /// The earliest deadline among the records; none where nothing is in flight.
    pub fn next_deadline(&self) -> (due: Option<u64>)
        requires
            self.wf(),
        ensures
            match due {
                None => self@.records.len() == 0,
                Some(t) => {
                    &&& exists|i: int|
                        0 <= i < self@.records.len() && (#[trigger] self@.records[i]).deadline == t
                    &&& forall|j: int|
                        0 <= j < self@.records.len() ==> t <= (#[trigger] self@.records[j]).deadline
                },
            },
    {
        if self.records.len() == 0 {
            return None;
        }
        let mut best: u64 = self.records[0].deadline;
        let mut i: usize = 1;
        proof {
            assert(self@.records[0].deadline == best);
        }
        while i < self.records.len()
            invariant
                1 <= i <= self.records@.len(),
                exists|k: int| 0 <= k < i && (#[trigger] self@.records[k]).deadline == best,
                forall|j: int| 0 <= j < i ==> best <= (#[trigger] self@.records[j]).deadline,
            decreases self.records@.len() - i,
        {
            if self.records[i].deadline < best {
                best = self.records[i].deadline;
            }
            proof {
                assert(self@.records[i as int].deadline == self.records@[i as int].deadline);
            }
            i += 1;
        }
        Some(best)
    }

    /// Lets time pass up to `now`.
    ///
    /// The oldest record whose deadline has passed is sent again, unchanged,
    /// and gets a later deadline; if it was sent again [`MAX_RETRIES`] times
    /// already, the retry budget is exhausted and nothing changes. Call again
    /// until the answer is [`TimerStep::Idle`].
    pub fn on_timeout(&mut self, now: u64) -> (step: TimerStep)
        requires
            old(self).wf(),
        ensures
            final(self).wf(),
            final(self)@ == old(self)@.step(SenderEvent::Expire(now)),
            match step {
                TimerStep::Idle => {
                    &&& old(self)@.first_due(now) == old(self)@.records.len()
                    &&& final(self)@ == old(self)@
                },
                TimerStep::Exhausted => {
                    &&& 0 <= old(self)@.first_due(now) < old(self)@.records.len()
                    &&& old(self)@.records[old(self)@.first_due(now)].retries >= MAX_RETRIES
                    &&& final(self)@ == old(self)@
                },
                TimerStep::Retransmit(segment) => {
                    &&& 0 <= old(self)@.first_due(now) < old(self)@.records.len()
                    &&& old(self)@.records[old(self)@.first_due(now)].retries < MAX_RETRIES
                    &&& final(self)@ == old(self)@.resend(old(self)@.first_due(now), now)
                    &&& segment@ == segment_of(old(self)@.records[old(self)@.first_due(now)])
                },
            },
    {
        let ghost before = self@;
        let mut i: usize = 0;
        while i < self.records.len() && self.records[i].deadline > now
            invariant
                i <= self.records@.len(),
                self@ == before,
                first_due_from(before.records, now, 0) == first_due_from(
                    before.records,
                    now,
                    i as int,
                ),
            decreases self.records@.len() - i,
        {
            proof {
                assert(before.records[i as int].deadline == self.records@[i as int].deadline);
            }
            i += 1;
        }
        proof {
            if i < self.records@.len() {
                assert(before.records[i as int].deadline == self.records@[i as int].deadline);
            }
            assert(before.first_due(now) == i);
        }
        if i == self.records.len() {
            return TimerStep::Idle;
        }
        if self.records[i].retries >= MAX_RETRIES {
            proof {
                assert(before.records[i as int].retries == self.records@[i as int].retries);
            }
            return TimerStep::Exhausted;
        }
        proof {
            assert(before.records[i as int] == self.records@[i as int]@);
        }
        let retries: u32 = self.records[i].retries + 1;
        let due: u64 = deadline(now, retries);
        let segment = Segment {
            seq: to_wire(self.records[i].position),
            ack: 0,
            flags: Flags {
                sos: self.records[i].sos,
                eos: self.records[i].eos,
                ack: false,
                data: self.records[i].data,
            },
            payload: slice_to_vec(self.records[i].payload.as_slice()),
        };
        let record = &mut self.records[i];
        record.retries = retries;
        record.deadline = due;
        proof {
            assert(self@.records =~= before.records.update(
                i as int,
                before.resent_record(i as int, now),
            ));
        }
        TimerStep::Retransmit(segment)
    }
}

} // verus!
