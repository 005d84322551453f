//! The connection as mathematics: its life cycle, and what each call and
//! each arriving segment does to it.

use crate::codec::{Flags, SegmentView};
use crate::reorder_model::{delivery_of, DeliveryView, ReorderView};
use crate::seqnum::{nearest, origin_of, wire_of};
use crate::timer::MAX_RETRIES;
use crate::window_model::{request_record, segment_of, sent_record, SenderView};
use vstd::prelude::*;

verus! {

/// Where a connection stands in its life.
#[derive(Clone, Copy, Debug, PartialEq, Eq, Structural)]
pub enum State {
    /// No local endpoint yet. A connection value is never in this state: it
    /// comes into being bound.
    Unbound,
    /// The local endpoint exists; no handshake was started.
    Bound,
    /// The connection request is in flight.
    Connecting,
    /// The request was acknowledged; payloads may be sent and received.
    Established,
    /// No more payloads are taken; what is in flight is still sent again
    /// until acknowledged.
    Closing,
    /// Nothing is in flight and nothing more is sent but repeated acknowledgments.
    Closed,
    /// A retry budget ran out, or no position was left; nothing more happens.
    Failed,
}

/// Mathematical value of a connection.
pub struct ConnectionView {
    pub state: State,
    pub window_size: nat,
    pub reordered: bool,
    pub sender: SenderView,
    pub receiver: ReorderView,
    /// The peer's connection request has arrived, so its sequence numbers can be read.
    pub peer_known: bool,
    /// The position of the last end-of-stream segment sent.
    pub end_sent: Option<u64>,
}

/// A segment that only acknowledges.
pub open spec fn ack_segment(ack: u32) -> SegmentView {
    SegmentView {
        seq: 0,
        ack,
        flags: Flags { sos: false, eos: false, ack: true, data: false },
        payload: Seq::empty(),
    }
}

/// A connection request carries no marker at all.
pub open spec fn is_request(segment: SegmentView) -> bool {
    !segment.flags.data && !segment.flags.ack && !segment.flags.sos && !segment.flags.eos
}

/// What can happen to a connection.
pub enum ConnectionEvent {
    /// The application starts the handshake.
    Connect { isn: u32, now: u64 },
    /// The application offers a payload for sending.
    Send { buf: Seq<u8>, sos: bool, eos: bool, now: u64 },
    /// The application asks for the oldest ready payload.
    Recv,
    /// The application asks to close the connection.
    Close,
    /// A segment arrives.
    Arrival(SegmentView),
    /// Time has passed up to the given moment.
    Tick(u64),
}

/// The life cycle: a connection stays in its state or moves along one of
/// these edges. A closed or failed connection stays as it is.
pub open spec fn may_follow(from: State, to: State) -> bool {
    ||| from == to
    ||| from is Bound && to is Connecting
    ||| from is Connecting && to is Established
    ||| from is Established && (to is Closing || to is Closed)
    ||| from is Closing && to is Closed
    ||| (from is Connecting || from is Established || from is Closing) && to is Failed
}

impl ConnectionView {
    /// A connection fresh from binding.
    pub open spec fn initial(window_size: nat, reordered: bool) -> ConnectionView {
        ConnectionView {
            state: State::Bound,
            window_size,
            reordered,
            sender: SenderView::initial(window_size, origin_of(0)),
            receiver: ReorderView::initial(reordered, window_size, origin_of(0)),
            peer_known: false,
            end_sent: None,
        }
    }

    /// Segments still travel in both directions.
    pub open spec fn is_active(self) -> bool {
        self.state is Connecting || self.state is Established || self.state is Closing
    }

    /// Arriving data is taken in.
    pub open spec fn accepts_data(self) -> bool {
        self.peer_known && (self.state is Connecting || self.state is Established)
    }

    /// The state to which closing leads: closed once nothing is in flight.
    pub open spec fn wound_down(self) -> State {
        if self.sender.records.len() == 0 {
            State::Closed
        } else {
            State::Closing
        }
    }

    /// The end-of-stream segment that was sent is acknowledged.
    pub open spec fn end_acknowledged(self) -> bool {
        match self.end_sent {
            Some(q) => q <= self.sender.acked,
            None => false,
        }
    }

    /// The connection after its state caught up with its window: the
    /// handshake is over once the request is acknowledged; the connection
    /// winds down once its end-of-stream segment is acknowledged, and is
    /// closed once nothing is in flight.
    pub open spec fn settled(self) -> ConnectionView {
        match self.state {
            State::Connecting => if self.sender.records.len() == 0 {
                ConnectionView { state: State::Established, ..self }
            } else {
                self
            },
            State::Established => if self.end_acknowledged() {
                ConnectionView { state: self.wound_down(), ..self }
            } else {
                self
            },
            State::Closing => ConnectionView { state: self.wound_down(), ..self },
            _ => self,
        }
    }

    /// The connection after the handshake was started with the initial
    /// sequence number `isn`.
    pub open spec fn connecting(self, isn: u32, now: u64) -> ConnectionView {
        let fresh = SenderView::initial(self.window_size, origin_of(isn));
        ConnectionView {
            state: State::Connecting,
            sender: fresh.with_record(request_record(fresh, now)),
            ..self
        }
    }

    /// The connection request that starts the handshake.
    pub open spec fn request_segment(self, isn: u32, now: u64) -> SegmentView {
        segment_of(request_record(SenderView::initial(self.window_size, origin_of(isn)), now))
    }

    /// A segment as it leaves: a data segment takes the current cumulative
    /// acknowledgment along once the peer's sequence numbers are known.
    pub open spec fn outgoing(self, segment: SegmentView) -> SegmentView {
        if self.peer_known && segment.flags.data {
            SegmentView {
                ack: wire_of(self.receiver.ack_position),
                flags: Flags { ack: true, ..segment.flags },
                ..segment
            }
        } else {
            segment
        }
    }

    /// The connection after the first chunk of `buf` went into flight.
    pub open spec fn after_send(self, buf: Seq<u8>, sos: bool, eos: bool, now: u64)
        -> ConnectionView {
        let record = sent_record(self.sender, buf, sos, eos, now);
        ConnectionView {
            sender: self.sender.with_record(record),
            end_sent: if record.eos {
                Some(record.position)
            } else {
                self.end_sent
            },
            ..self
        }
    }

    /// The connection after the application took the oldest ready payload:
    /// the end of the stream winds the connection down.
    pub open spec fn after_recv(self) -> ConnectionView {
        let taken = ConnectionView { receiver: self.receiver.taken(), ..self };
        if self.receiver.ready[0].eos {
            ConnectionView { state: taken.wound_down(), ..taken }
        } else {
            taken
        }
    }

    /// The connection after the application asked to close it: an
    /// established connection winds down, any other stays as it is.
    pub open spec fn after_close(self) -> ConnectionView {
        match self.state {
            State::Established => ConnectionView { state: self.wound_down(), ..self },
            _ => self,
        }
    }

    /// The connection after the acknowledgment that a segment carries, if
    /// it carries one, was taken in.
    pub open spec fn acknowledged(self, segment: SegmentView) -> ConnectionView {
        if segment.flags.ack {
            ConnectionView {
                sender: self.sender.acknowledge(nearest(self.sender.acked, segment.ack)),
                ..self
            }.settled()
        } else {
            self
        }
    }

    /// The connection after a connection request arrived: the first one
    /// tells where the peer's positions start.
    pub open spec fn with_peer(self, segment: SegmentView) -> ConnectionView {
        if self.peer_known {
            self
        } else {
            ConnectionView {
                receiver: ReorderView::initial(
                    self.reordered,
                    self.window_size,
                    origin_of(segment.seq),
                ),
                peer_known: true,
                ..self
            }
        }
    }

    /// The delivery that an arriving data segment stands for.
    pub open spec fn arrival(self, segment: SegmentView) -> DeliveryView {
        delivery_of(
            nearest(self.receiver.ack_position, segment.seq),
            segment.payload,
            segment.flags.sos,
            segment.flags.eos,
        )
    }

    /// The connection after a data segment arrived.
    pub open spec fn with_data(self, segment: SegmentView) -> ConnectionView {
        if self.accepts_data() {
            ConnectionView { receiver: self.receiver.accept(self.arrival(segment)), ..self }
        } else {
            self
        }
    }

    /// The connection after a segment arrived. Its acknowledgment is taken
    /// in first, then the segment itself.
    pub open spec fn after_segment(self, segment: SegmentView) -> ConnectionView {
        if !self.is_active() {
            self
        } else if is_request(segment) {
            self.with_peer(segment)
        } else if segment.flags.data {
            self.acknowledged(segment).with_data(segment)
        } else {
            self.acknowledged(segment)
        }
    }

    /// The segment sent in answer to an arriving one: every connection
    /// request and every data segment is answered with the cumulative
    /// acknowledgment, also by a closed connection, once the peer's sequence
    /// numbers are known.
    pub open spec fn reply_to(self, segment: SegmentView) -> Option<SegmentView> {
        let after = self.after_segment(segment);
        if (self.is_active() || self.state is Closed) && (is_request(segment)
            || segment.flags.data) && after.peer_known {
            Some(ack_segment(wire_of(after.receiver.ack_position)))
        } else {
            None
        }
    }

    /// The connection after the record at `index` was sent again.
    pub open spec fn after_resend(self, index: int, now: u64) -> ConnectionView {
        ConnectionView { sender: self.sender.resend(index, now), ..self }
    }

    /// The connection after a retry budget ran out, or no position was left.
    pub open spec fn failed(self) -> ConnectionView {
        ConnectionView { state: State::Failed, ..self }
    }

    /// A record is due at `now` on a connection that still sends.
    pub open spec fn has_due(self, now: u64) -> bool {
        self.is_active() && self.sender.first_due(now) < self.sender.records.len()
    }

    /// The record that is due at `now` has retries left.
    pub open spec fn may_resend(self, now: u64) -> bool {
        self.sender.records[self.sender.first_due(now)].retries < MAX_RETRIES
    }

    /// The connection after one event.
    pub open spec fn step(self, event: ConnectionEvent) -> ConnectionView {
        match event {
            ConnectionEvent::Connect { isn, now } => if self.state is Bound {
                self.connecting(isn, now)
            } else {
                self
            },
            ConnectionEvent::Send { buf, sos, eos, now } => if !(self.state is Established)
                || self.sender.is_full() {
                self
            } else if self.sender.is_exhausted() {
                self.failed()
            } else {
                self.after_send(buf, sos, eos, now)
            },
            ConnectionEvent::Recv => if self.state is Established && self.receiver.ready.len()
                > 0 {
                self.after_recv()
            } else {
                self
            },
            ConnectionEvent::Close => self.after_close(),
            ConnectionEvent::Arrival(segment) => self.after_segment(segment),
            ConnectionEvent::Tick(now) => if !self.has_due(now) {
                self
            } else if self.may_resend(now) {
                self.after_resend(self.sender.first_due(now), now)
            } else {
                self.failed()
            },
        }
    }

    /// The connection after a series of events, first to last.
    pub open spec fn run(self, events: Seq<ConnectionEvent>) -> ConnectionView
        decreases events.len(),
    {
        if events.len() == 0 {
            self
        } else {
            self.run(events.drop_last()).step(events.last())
        }
    }

    /// What holds of every connection.
    pub open spec fn inv(self) -> bool {
        &&& self.window_size >= 1
        &&& !(self.state is Unbound)
        &&& self.sender.inv()
        &&& self.sender.window_size == self.window_size
        &&& self.receiver.inv()
        &&& self.receiver.capacity == self.window_size
        &&& self.receiver.reordered == self.reordered
    }
}

} // verus!
