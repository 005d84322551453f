//! The connection: one sender window, one reorder buffer and the life cycle
//! that guards them.
//!
//! A connection performs no I/O. Its caller hands it what happened (a call
//! of the application, a datagram off the network, the time) and gets back
//! what is to be done (a datagram to hand to the network, a payload for the
//! application, or the advice to wait).

use crate::codec::{decode, encode, encoding, parse, Flags, Segment};
use crate::connection_model::{ConnectionEvent, ConnectionView, State};
use crate::error::{ConfigError, ConnectError, RecvError, SendError};
use crate::reorder::ReorderBuffer;
use crate::seqnum::to_wire;
use crate::window::{SendStep, SenderWindow, TimerStep};
use crate::window_model::{first_chunk_len, lemma_first_due_from, segment_of, sent_record};
use crate::window_model::MAX_SEGMENT_PAYLOAD;
use vstd::prelude::*;

verus! {

/// What became of a payload offered to an established connection.
#[derive(Debug, PartialEq, Eq)]
pub enum Transmit {
    /// The window is full and nothing was taken: wait until an
    /// acknowledgment has arrived, then offer the payload again.
    WindowFull,
    /// `bytes` is to be handed to the network. `rest` bytes at the end of
    /// the payload did not fit and are to be offered next, without the
    /// start-of-stream marker.
    Datagram { bytes: Vec<u8>, rest: usize },
}

/// What the passing of time asks of the caller.
#[derive(Debug, PartialEq, Eq)]
pub enum Tick {
    /// No deadline has passed.
    Idle,
    /// The datagram is to be handed to the network again.
    Retransmit(Vec<u8>),
    /// The connection request was never acknowledged. The connection has failed.
    ConnectFailed(ConnectError),
    /// A segment was never acknowledged. The connection has failed.
    SendFailed(SendError),
}

/// A reliable connection over datagrams.
pub struct UdpReliable {
    state: State,
    window_size: usize,
    reordered: bool,
    sender: SenderWindow,
    receiver: ReorderBuffer,
    peer_known: bool,
    end_sent: Option<u64>,
}

impl View for UdpReliable {
    type V = ConnectionView;

    closed spec fn view(&self) -> ConnectionView {
        ConnectionView {
            state: self.state,
            window_size: self.window_size as nat,
            reordered: self.reordered,
            sender: self.sender@,
            receiver: self.receiver@,
            peer_known: self.peer_known,
            end_sent: self.end_sent,
        }
    }
}

/// How many bytes of a payload fit a buffer of `room` bytes.
pub open spec fn copied_len(payload: Seq<u8>, room: int) -> int {
    if payload.len() <= room {
        payload.len() as int
    } else {
        room
    }
}

/// Copies as much of `payload` to the front of `buf` as fits.
fn copy_front(payload: &Vec<u8>, buf: &mut [u8]) -> (n: usize)
    ensures
        n == copied_len(payload@, old(buf)@.len() as int),
        final(buf)@ == payload@.take(n as int) + old(buf)@.skip(n as int),
{
    let n: usize = if payload.len() <= buf.len() {
        payload.len()
    } else {
        buf.len()
    };
    let mut i: usize = 0;
    while i < n
        invariant
            i <= n,
            n <= payload@.len(),
            n <= buf@.len(),
            buf@.len() == old(buf)@.len(),
            buf@ == payload@.take(i as int) + old(buf)@.skip(i as int),
        decreases n - i,
    {
        buf[i] = payload[i];
        proof {
            assert(buf@ =~= payload@.take(i + 1) + old(buf)@.skip(i + 1));
        }
        i += 1;
    }
    n
}

impl UdpReliable {
    /// The connection is sound: so are its window and its buffer, and its
    /// value obeys the model's invariant.
    pub closed spec fn wf(&self) -> bool {
        &&& self.sender.wf()
        &&& self.receiver.wf()
        &&& self@.inv()
    }

    /// A sound connection obeys the model's invariant; in particular it
    /// never has more segments in flight than its window admits.
    pub proof fn lemma_wf_inv(&self)
        requires
            self.wf(),
        ensures
            self@.inv(),
            self@.sender.records.len() <= self@.window_size,
    {
    }

    /// A bound connection with a window of `window_size` segments, in
    /// tolerant mode if `reordered` is set. Fails where `window_size` is zero.
    pub fn new(window_size: usize, reordered: bool) -> (r: Result<UdpReliable, ConfigError>)
        ensures
            match r {
                Ok(c) => window_size >= 1 && c.wf() && c@ == ConnectionView::initial(
                    window_size as nat,
                    reordered,
                ),
                Err(e) => window_size == 0 && e == ConfigError::InvalidWindowSize,
            },
    {
        if window_size == 0 {
            return Err(ConfigError::InvalidWindowSize);
        }
        let sender = SenderWindow::starting_at(window_size, 0);
        let receiver = ReorderBuffer::spanning(reordered, window_size, 0);
        proof {
            sender.lemma_wf_inv();
            receiver.lemma_wf_inv();
        }
        Ok(
            UdpReliable {
                state: State::Bound,
                window_size,
                reordered,
                sender,
                receiver,
                peer_known: false,
                end_sent: None,
            },
        )
    }

    /// Where the connection stands in its life.
    pub fn state(&self) -> (s: State)
        ensures
            s == self@.state,
    {
        self.state
    }

    /// How many segments may be in flight at once.
    pub fn window_size(&self) -> (n: usize)
        ensures
            n == self@.window_size,
    {
        self.window_size
    }

    /// Tolerant mode, or ordered mode.
    pub fn is_reordered(&self) -> (r: bool)
        ensures
            r == self@.reordered,
    {
        self.reordered
    }

    /// How many segments are in flight.
    pub fn in_flight(&self) -> (n: usize)
        ensures
            n == self@.sender.records.len(),
    {
        self.sender.in_flight()
    }

    /// How many payloads wait for the application.
    pub fn ready_len(&self) -> (n: usize)
        ensures
            n == self@.receiver.ready.len(),
    {
        self.receiver.ready_len()
    }

    /// The earliest time at which [`UdpReliable::on_tick`] has something to
    /// do; none where nothing is in flight or nothing is sent any more.
    pub fn next_deadline(&self) -> (due: Option<u64>)
        requires
            self.wf(),
        ensures
            match due {
                None => !self@.is_active() || self@.sender.records.len() == 0,
                Some(t) => {
                    &&& self@.is_active()
                    &&& exists|i: int|
                        0 <= i < self@.sender.records.len() && (
                        #[trigger] self@.sender.records[i]).deadline == t
                    &&& forall|j: int|
                        0 <= j < self@.sender.records.len() ==> t <= (
                        #[trigger] self@.sender.records[j]).deadline
                },
            },
    {
        match self.state {
            State::Connecting | State::Established | State::Closing => self.sender.next_deadline(),
            _ => None,
        }
    }

    /// Lets the state catch up with the window.
    fn settle(&mut self)
        requires
            old(self).wf(),
        ensures
            final(self).wf(),
            final(self)@ == old(self)@.settled(),
    {
        let drained: bool = self.sender.in_flight() == 0;
        let wound_down: State = if drained {
            State::Closed
        } else {
            State::Closing
        };
        match self.state {
            State::Connecting => {
                if drained {
                    self.state = State::Established;
                }
            },
            State::Established => {
                let end_acknowledged: bool = match self.end_sent {
                    Some(q) => q <= self.sender.acked_position(),
                    None => false,
                };
                if end_acknowledged {
                    self.state = wound_down;
                }
            },
            State::Closing => {
                self.state = wound_down;
            },
            _ => {},
        }
    }

    /// Starts the handshake: puts the connection request, which carries the
    /// initial sequence number `isn`, in flight and returns its datagram.
    ///
    /// Fails with [`ConnectError::AlreadyConnected`] where the handshake was
    /// started before, and with [`ConnectError::ConnectionFailed`] on a
    /// failed connection.
    pub fn connect(&mut self, isn: u32, now: u64) -> (r: Result<Vec<u8>, ConnectError>)
        requires
            old(self).wf(),
        ensures
            final(self).wf(),
            final(self)@ == old(self)@.step(ConnectionEvent::Connect { isn, now }),
            match r {
                Ok(bytes) => {
                    &&& old(self)@.state is Bound
                    &&& final(self)@ == old(self)@.connecting(isn, now)
                    &&& bytes@ == encoding(old(self)@.request_segment(isn, now))
                },
                Err(e) => {
                    &&& !(old(self)@.state is Bound)
                    &&& final(self)@ == old(self)@
                    &&& e == (if old(self)@.state is Failed {
                        ConnectError::ConnectionFailed
                    } else {
                        ConnectError::AlreadyConnected
                    })
                },
            },
    {
        match self.state {
            State::Bound => {},
            State::Failed => {
                return Err(ConnectError::ConnectionFailed);
            },
            _ => {
                return Err(ConnectError::AlreadyConnected);
            },
        }
        let (fresh, segment) = SenderWindow::opening(self.window_size, isn, now);
        proof {
            fresh.lemma_wf_inv();
        }
        self.sender = fresh;
        self.state = State::Connecting;
        Ok(encode(&segment))
    }

    /// Prepares a segment for leaving: a data segment takes the current
    /// cumulative acknowledgment along.
    fn stamp(&self, segment: Segment) -> (out: Segment)
        requires
            self.wf(),
        ensures
            out@ == self@.outgoing(segment@),
    {
        if self.peer_known && segment.flags.data {
            Segment {
                seq: segment.seq,
                ack: to_wire(self.receiver.ack_position()),
                flags: Flags {
                    sos: segment.flags.sos,
                    eos: segment.flags.eos,
                    ack: true,
                    data: segment.flags.data,
                },
                payload: segment.payload,
            }
        } else {
            segment
        }
    }

    /// Offers a payload for sending.
    ///
    /// On an established connection with room in its window, the first
    /// chunk of `buf` goes into flight and its datagram is returned; with a
    /// full window nothing happens. Where no position is left, the
    /// connection fails.
    ///
    /// Fails with [`SendError::ConnectionFailed`] on a failed connection,
    /// and with [`SendError::NotConnected`] in every other state but the
    /// established one.
    pub fn send(&mut self, buf: &[u8], sos: bool, eos: bool, now: u64) -> (r: Result<
        Transmit,
        SendError,
    >)
        requires
            old(self).wf(),
        ensures
            final(self).wf(),
            final(self)@ == old(self)@.step(ConnectionEvent::Send { buf: buf@, sos, eos, now }),
            match r {
                Ok(Transmit::WindowFull) => {
                    &&& old(self)@.state is Established
                    &&& old(self)@.sender.is_full()
                    &&& final(self)@ == old(self)@
                },
                Ok(Transmit::Datagram { bytes, rest }) => {
                    &&& old(self)@.state is Established
                    &&& !old(self)@.sender.is_full()
                    &&& !old(self)@.sender.is_exhausted()
                    &&& rest == buf@.len() - first_chunk_len(buf@)
                    &&& final(self)@ == old(self)@.after_send(buf@, sos, eos, now)
                    &&& bytes@ == encoding(
                        old(self)@.outgoing(
                            segment_of(sent_record(old(self)@.sender, buf@, sos, eos, now)),
                        ),
                    )
                },
                Err(SendError::NotConnected) => {
                    &&& !(old(self)@.state is Established)
                    &&& !(old(self)@.state is Failed)
                    &&& final(self)@ == old(self)@
                },
                Err(SendError::ConnectionFailed) => if old(self)@.state is Failed {
                    final(self)@ == old(self)@
                } else {
                    &&& old(self)@.state is Established
                    &&& !old(self)@.sender.is_full()
                    &&& old(self)@.sender.is_exhausted()
                    &&& final(self)@ == old(self)@.failed()
                },
                Err(SendError::WindowTimeout) => false,
            },
    {
        match self.state {
            State::Established => {},
            State::Failed => {
                return Err(SendError::ConnectionFailed);
            },
            _ => {
                return Err(SendError::NotConnected);
            },
        }
        proof {
            self.sender.lemma_wf_inv();
        }
        let position: u64 = self.sender.acked_position() + 1 + (self.sender.in_flight() as u64);
        match self.sender.send(buf, sos, eos, now) {
            SendStep::WindowFull => Ok(Transmit::WindowFull),
            SendStep::Exhausted => {
                self.state = State::Failed;
                Err(SendError::ConnectionFailed)
            },
            SendStep::Sent { segment, rest } => {
                proof {
                    self.sender.lemma_wf_inv();
                }
                if segment.flags.eos {
                    self.end_sent = Some(position);
                }
                let out = self.stamp(segment);
                Ok(Transmit::Datagram { bytes: encode(&out), rest })
            },
        }
    }

    /// Hands the oldest waiting payload to the application.
    ///
    /// On an established connection with a payload ready, as much of it as
    /// fits is copied to the front of `buf`; the answer is the number of
    /// bytes copied and whether the payload ends its stream, in which case
    /// the connection winds down. With nothing ready the answer is `None`:
    /// wait until a datagram has arrived.
    ///
    /// Fails with [`RecvError::ConnectionFailed`] on a failed connection,
    /// and with [`RecvError::NotConnected`] in every other state but the
    /// established one.
    pub fn recv(&mut self, buf: &mut [u8]) -> (r: Result<Option<(usize, bool)>, RecvError>)
        requires
            old(self).wf(),
        ensures
            final(self).wf(),
            final(self)@ == old(self)@.step(ConnectionEvent::Recv),
            match r {
                Ok(Some((n, eos))) => {
                    &&& old(self)@.state is Established
                    &&& old(self)@.receiver.ready.len() > 0
                    &&& n == copied_len(
                        old(self)@.receiver.ready[0].payload,
                        old(buf)@.len() as int,
                    )
                    &&& eos == old(self)@.receiver.ready[0].eos
                    &&& final(buf)@ == old(self)@.receiver.ready[0].payload.take(n as int)
                        + old(buf)@.skip(n as int)
                    &&& final(self)@ == old(self)@.after_recv()
                },
                Ok(None) => {
                    &&& old(self)@.state is Established
                    &&& old(self)@.receiver.ready.len() == 0
                    &&& final(self)@ == old(self)@
                    &&& final(buf)@ == old(buf)@
                },
                Err(e) => {
                    &&& !(old(self)@.state is Established)
                    &&& final(self)@ == old(self)@
                    &&& final(buf)@ == old(buf)@
                    &&& e == (if old(self)@.state is Failed {
                        RecvError::ConnectionFailed
                    } else {
                        RecvError::NotConnected
                    })
                },
            },
    {
        match self.state {
            State::Established => {},
            State::Failed => {
                return Err(RecvError::ConnectionFailed);
            },
            _ => {
                return Err(RecvError::NotConnected);
            },
        }
        match self.receiver.pop() {
            None => Ok(None),
            Some(item) => {
                proof {
                    self.receiver.lemma_wf_inv();
                }
                let n: usize = copy_front(&item.payload, buf);
                if item.eos {
                    self.state = if self.sender.in_flight() == 0 {
                        State::Closed
                    } else {
                        State::Closing
                    };
                }
                Ok(Some((n, item.eos)))
            },
        }
    }

    /// Closes an established connection at the application's request: no
    /// more payloads are taken, and the connection is closed once nothing is
    /// in flight. In every other state nothing happens.
    pub fn close(&mut self) -> (s: State)
        requires
            old(self).wf(),
        ensures
            final(self).wf(),
            final(self)@ == old(self)@.step(ConnectionEvent::Close),
            s == final(self)@.state,
    {
        let wound_down: State = if self.sender.in_flight() == 0 {
            State::Closed
        } else {
            State::Closing
        };
        match self.state {
            State::Established => {
                self.state = wound_down;
            },
            _ => {},
        }
        self.state
    }

    /// Takes in a segment that arrived.
    fn on_segment(&mut self, segment: Segment) -> (reply: Option<Segment>)
        requires
            old(self).wf(),
        ensures
            final(self).wf(),
            final(self)@ == old(self)@.after_segment(segment@),
            match reply {
                Some(s) => old(self)@.reply_to(segment@) == Some(s@),
                None => old(self)@.reply_to(segment@) is None,
            },
    {
        let active: bool = match self.state {
            State::Connecting | State::Established | State::Closing => true,
            _ => false,
        };
        let answering: bool = active || match self.state {
            State::Closed => true,
            _ => false,
        };
        let request: bool = !segment.flags.data && !segment.flags.ack && !segment.flags.sos
            && !segment.flags.eos;
        let wants_reply: bool = request || segment.flags.data;
        if active {
            if segment.flags.ack {
                self.sender.on_ack(segment.ack);
                proof {
                    self.sender.lemma_wf_inv();
                }
                self.settle();
            }
            if request {
                if !self.peer_known {
                    let fresh = ReorderBuffer::spanning(
                        self.reordered,
                        self.window_size,
                        segment.seq,
                    );
                    proof {
                        fresh.lemma_wf_inv();
                    }
                    self.receiver = fresh;
                    self.peer_known = true;
                }
            } else if segment.flags.data {
                let accepting: bool = self.peer_known && match self.state {
                    State::Connecting | State::Established => true,
                    _ => false,
                };
                if accepting {
                    self.receiver.receive(segment);
                    proof {
                        self.receiver.lemma_wf_inv();
                    }
                }
            }
        }
        if answering && wants_reply && self.peer_known {
            Some(
                Segment {
                    seq: 0,
                    ack: to_wire(self.receiver.ack_position()),
                    flags: Flags { sos: false, eos: false, ack: true, data: false },
                    payload: Vec::new(),
                },
            )
        } else {
            None
        }
    }

    /// Takes in a datagram that arrived and returns the datagram to send in
    /// answer, if there is one.
    ///
    /// A datagram that is no segment is dropped: nothing changes and nothing
    /// is answered.
    pub fn on_datagram(&mut self, bytes: &[u8]) -> (reply: Option<Vec<u8>>)
        requires
            old(self).wf(),
        ensures
            final(self).wf(),
            match parse(bytes@) {
                Ok(segment) => {
                    &&& final(self)@ == old(self)@.step(ConnectionEvent::Arrival(segment))
                    &&& match reply {
                        Some(out) => match old(self)@.reply_to(segment) {
                            Some(answer) => out@ == encoding(answer),
                            None => false,
                        },
                        None => old(self)@.reply_to(segment) is None,
                    }
                },
                Err(_) => final(self)@ == old(self)@ && reply is None,
            },
    {
        match decode(bytes) {
            Err(_) => None,
            Ok(segment) => {
                match self.on_segment(segment) {
                    Some(answer) => Some(encode(&answer)),
                    None => None,
                }
            },
        }
    }

    /// Lets time pass up to `now`.
    ///
    /// While segments travel, the oldest record whose deadline has passed is
    /// sent again: the answer is its datagram. If its retry budget is used
    /// up, the connection fails: the answer is [`ConnectError::Timeout`]
    /// during the handshake and [`SendError::WindowTimeout`] after it. Call
    /// again until the answer is [`Tick::Idle`].
    pub fn on_tick(&mut self, now: u64) -> (tick: Tick)
        requires
            old(self).wf(),
        ensures
            final(self).wf(),
            final(self)@ == old(self)@.step(ConnectionEvent::Tick(now)),
            match tick {
                Tick::Idle => !old(self)@.has_due(now),
                Tick::Retransmit(bytes) => {
                    &&& old(self)@.has_due(now)
                    &&& old(self)@.may_resend(now)
                    &&& bytes@ == encoding(
                        old(self)@.outgoing(
                            segment_of(old(self)@.sender.records[old(self)@.sender.first_due(now)]),
                        ),
                    )
                },
                Tick::ConnectFailed(e) => {
                    &&& old(self)@.state is Connecting
                    &&& old(self)@.has_due(now)
                    &&& !old(self)@.may_resend(now)
                    &&& e == ConnectError::Timeout
                },
                Tick::SendFailed(e) => {
                    &&& old(self)@.state is Established || old(self)@.state is Closing
                    &&& old(self)@.has_due(now)
                    &&& !old(self)@.may_resend(now)
                    &&& e == SendError::WindowTimeout
                },
            },
    {
        let connecting: bool = match self.state {
            State::Connecting => true,
            State::Established | State::Closing => false,
            _ => {
                return Tick::Idle;
            },
        };
        let ghost before = self@;
        proof {
            self.sender.lemma_wf_inv();
            lemma_first_due_from(before.sender.records, now, 0);
        }
        match self.sender.on_timeout(now) {
            TimerStep::Idle => Tick::Idle,
            TimerStep::Retransmit(segment) => {
                proof {
                    self.sender.lemma_wf_inv();
                    let due = before.sender.records[before.sender.first_due(now)];
                    assert(due.payload.len() <= MAX_SEGMENT_PAYLOAD);
                    assert(segment@.encodable());
                }
                let out = self.stamp(segment);
                Tick::Retransmit(encode(&out))
            },
            TimerStep::Exhausted => {
                self.state = State::Failed;
                if connecting {
                    Tick::ConnectFailed(ConnectError::Timeout)
                } else {
                    Tick::SendFailed(SendError::WindowTimeout)
                }
            },
        }
    }
}

} // verus!
