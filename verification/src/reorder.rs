//! The receiver's reorder buffer.
//!
//! In ordered mode a segment is handed on when every position before it has
//! been handed on; segments that arrive early are held back, as long as they
//! lie inside the window. In tolerant mode every position is handed on the
//! first time it arrives.

use crate::codec::Segment;
use crate::error::ConfigError;
use crate::reorder_model::{delivery_of, lemma_accept_inv, lemma_run_end, positions_of};
use crate::reorder_model::{run_end, run_from, DeliveryView, ReorderView, Verdict};
use crate::seqnum::{nearest, origin, origin_of, resolve, to_wire, wire_of, POSITION_LIMIT};
use std::collections::HashMap;
use std::collections::HashSet;
use std::collections::VecDeque;
use vstd::prelude::*;

verus! {

broadcast use vstd::std_specs::hash::group_hash_axioms;

/// A payload on its way to the application.
#[derive(Debug, PartialEq, Eq)]
pub struct Delivery {
    pub position: u64,
    pub payload: Vec<u8>,
    pub sos: bool,
    pub eos: bool,
}

impl View for Delivery {
    type V = DeliveryView;

    open spec fn view(&self) -> DeliveryView {
        DeliveryView {
            position: self.position,
            payload: self.payload@,
            sos: self.sos,
            eos: self.eos,
        }
    }
}

/// The values of a queue of deliveries.
pub open spec fn views_of(queue: Seq<Delivery>) -> Seq<DeliveryView> {
    queue.map_values(|d: Delivery| d@)
}

/// The values of the segments that a buffer holds back.
pub open spec fn held_views(held: Map<u64, Delivery>) -> Map<u64, DeliveryView> {
    held.map_values(|d: Delivery| d@)
}

/// Turns a stream of arriving data segments into the stream that the
/// application reads.
pub struct ReorderBuffer {
    reordered: bool,
    capacity: usize,
    origin: u64,
    ack_position: u64,
    /// Ordered mode: the segments that arrived ahead of their turn.
    held: HashMap<u64, Delivery>,
    /// Tolerant mode: every position handed on so far.
    seen: HashSet<u64>,
    ready: VecDeque<Delivery>,
    delivered: Ghost<Seq<DeliveryView>>,
}

impl View for ReorderBuffer {
    type V = ReorderView;

    closed spec fn view(&self) -> ReorderView {
        ReorderView {
            reordered: self.reordered,
            capacity: self.capacity as nat,
            origin: self.origin,
            ack_position: self.ack_position,
            held: held_views(self.held@),
            seen: self.seen@,
            ready: views_of(self.ready@),
            delivered: self.delivered@,
        }
    }
}

impl ReorderBuffer {
    /// The buffer is sound: its value obeys the model's invariant.
    pub closed spec fn wf(&self) -> bool {
        self@.inv()
    }

    /// A sound buffer obeys the model's invariant.
    pub proof fn lemma_wf_inv(&self)
        requires
            self.wf(),
        ensures
            self@.inv(),
    {
    }

    /// A buffer for the stream that follows the initial sequence number
    /// `isn`, spanning `capacity` positions. Fails where `capacity` is zero.
    pub fn new(reordered: bool, capacity: usize, isn: u32) -> (r: Result<
        ReorderBuffer,
        ConfigError,
    >)
        ensures
            match r {
                Ok(b) => capacity >= 1 && b.wf() && b@ == ReorderView::initial(
                    reordered,
                    capacity as nat,
                    origin_of(isn),
                ),
                Err(e) => capacity == 0 && e == ConfigError::InvalidWindowSize,
            },
    {
        if capacity == 0 {
            return Err(ConfigError::InvalidWindowSize);
        }
        Ok(ReorderBuffer::spanning(reordered, capacity, isn))
    }

    /// A buffer for the stream that follows the initial sequence number
    /// `isn`, spanning at least one position.
    pub(crate) fn spanning(reordered: bool, capacity: usize, isn: u32) -> (b: ReorderBuffer)
        requires
            capacity >= 1,
        ensures
            b.wf(),
            b@ == ReorderView::initial(reordered, capacity as nat, origin_of(isn)),
    {
        let start: u64 = origin(isn);
        let b = ReorderBuffer {
            reordered,
            capacity,
            origin: start,
            ack_position: start,
            held: HashMap::new(),
            seen: HashSet::new(),
            ready: VecDeque::new(),
            delivered: Ghost(Seq::empty()),
        };
        proof {
            assert(b@.held =~= Map::empty());
            assert(b@.ready =~= Seq::empty());
            assert(b@.delivered.skip(0) =~= b@.ready);
            assert(positions_of(b@.delivered) =~= Set::<u64>::empty());
        }
        b
    }

    /// Tolerant mode, or ordered mode.
    pub fn is_reordered(&self) -> (r: bool)
        ensures
            r == self@.reordered,
    {
        self.reordered
    }

    /// The position that the cumulative acknowledgment names: in ordered mode
    /// the last of the unbroken run handed on, in tolerant mode the highest seen.
    pub fn ack_position(&self) -> (p: u64)
        ensures
            p == self@.ack_position,
    {
        self.ack_position
    }

    /// Number of payloads that wait for the application.
    pub fn ready_len(&self) -> (n: usize)
        ensures
            n == self@.ready.len(),
    {
        self.ready.len()
    }

    /// Takes in a data segment whose position is known.
    pub fn accept(&mut self, item: Delivery) -> (verdict: Verdict)
        requires
            old(self).wf(),
        ensures
            final(self).wf(),
            final(self)@ == old(self)@.accept(item@),
            verdict == old(self)@.verdict(item@),
    {
        if self.reordered {
            self.accept_tolerant(item)
        } else {
            self.accept_ordered(item)
        }
    }

    fn accept_tolerant(&mut self, item: Delivery) -> (verdict: Verdict)
        requires
            old(self).wf(),
            old(self).reordered,
        ensures
            final(self).wf(),
            final(self)@ == old(self)@.accept(item@),
            verdict == old(self)@.verdict(item@),
    {
        let p: u64 = item.position;
        if p <= self.origin {
            return Verdict::Duplicate;
        }
        if p >= POSITION_LIMIT {
            return Verdict::OutOfWindow;
        }
        if self.seen.contains(&p) {
            return Verdict::Duplicate;
        }
        let ghost before = self@;
        self.seen.insert(p);
        proof {
            self.delivered@ = self.delivered@.push(item@);
        }
        self.ready.push_back(item);
        if p > self.ack_position {
            self.ack_position = p;
        }
        proof {
            assert(self@.ready =~= before.ready.push(item@));
            assert(self@ == before.accept(item@));
            lemma_accept_inv(before, item@);
        }
        Verdict::Delivered
    }

    fn accept_ordered(&mut self, item: Delivery) -> (verdict: Verdict)
        requires
            old(self).wf(),
            !old(self).reordered,
        ensures
            final(self).wf(),
            final(self)@ == old(self)@.accept(item@),
            verdict == old(self)@.verdict(item@),
    {
        let p: u64 = item.position;
        if p <= self.ack_position {
            return Verdict::Duplicate;
        }
        if p >= POSITION_LIMIT || p - self.ack_position > self.capacity as u64 {
            return Verdict::OutOfWindow;
        }
        let ghost before = self@;
        let ghost arrival = item@;
        if p != self.ack_position + 1 {
            if self.held.contains_key(&p) {
                return Verdict::Duplicate;
            }
            self.held.insert(p, item);
            proof {
                assert(self@.held =~= before.held.insert(p, arrival));
                assert(self@ == before.accept(arrival));
                lemma_accept_inv(before, arrival);
            }
            return Verdict::Buffered;
        }
        proof {
            self.delivered@ = self.delivered@.push(arrival);
        }
        self.ready.push_back(item);
        self.ack_position = p;
        proof {
            let first = run_from(before.held, arrival, 1);
            assert(first =~= seq![arrival]);
            assert(views_of(self.ready@) =~= before.ready + first);
            assert(self.delivered@ =~= before.delivered + first);
            assert(self@.held =~= before.held.remove_keys(
                Set::new(|k: u64| k <= self.ack_position),
            ));
        }
        let mut more: bool = true;
        while more
            invariant
                self.reordered == before.reordered,
                self.capacity as nat == before.capacity,
                self.origin == before.origin,
                self.seen@ == before.seen,
                before.inv(),
                !before.reordered,
                p == before.ack_position + 1,
                p == arrival.position,
                p <= self.ack_position < POSITION_LIMIT,
                self.ack_position <= before.ack_position + before.capacity,
                run_end(before.held, (p + 1) as u64) == run_end(
                    before.held,
                    (self.ack_position + 1) as u64,
                ),
                !more ==> !before.held.contains_key((self.ack_position + 1) as u64),
                self@.held == before.held.remove_keys(Set::new(|k: u64| k <= self.ack_position)),
                views_of(self.ready@) == before.ready + run_from(
                    before.held,
                    arrival,
                    self.ack_position - p + 1,
                ),
                self.delivered@ == before.delivered + run_from(
                    before.held,
                    arrival,
                    self.ack_position - p + 1,
                ),
            decreases
                    before.ack_position + before.capacity - self.ack_position + (if more {
                        1int
                    } else {
                        0int
                    }),
        {
            let next: u64 = self.ack_position + 1;
            let ghost here = self@;
            let ghost queue = self.ready@;
            let ghost raw = self.held@;
            match self.held.remove(&next) {
                None => {
                    proof {
                        assert(!here.held.contains_key(next));
                        assert(self@.held =~= here.held);
                    }
                    more = false;
                },
                Some(d) => {
                    proof {
                        assert(raw.contains_key(next) && raw[next] == d);
                        assert(here.held.contains_key(next) && here.held[next] == d@);
                        assert(before.held.contains_key(next));
                        assert(d@ == before.held[next]);
                        assert(self@.held =~= here.held.remove(next));
                        self.delivered@ = self.delivered@.push(d@);
                    }
                    self.ready.push_back(d);
                    self.ack_position = next;
                    proof {
                        let run = run_from(before.held, arrival, self.ack_position - p + 1);
                        assert(run =~= run_from(before.held, arrival, next - p).push(
                            before.held[next],
                        ));
                        assert(views_of(self.ready@) =~= views_of(queue).push(before.held[next]));
                        assert(views_of(self.ready@) =~= before.ready + run);
                        assert(self.delivered@ =~= before.delivered + run);
                        assert(self@.held =~= before.held.remove_keys(
                            Set::new(|k: u64| k <= self.ack_position),
                        ));
                    }
                },
            }
        }
        proof {
            let end = run_end(before.held, (p + 1) as u64);
            lemma_run_end(before.held, (self.ack_position + 1) as u64);
            assert(end == self.ack_position + 1);
            assert(self@.held =~= before.held.remove_keys(Set::new(|k: u64| k < end)));
            assert(run_from(before.held, arrival, end - p) =~= before.completed_run(arrival));
            assert(self@ == before.accept(arrival));
            lemma_accept_inv(before, arrival);
        }
        Verdict::Delivered
    }

    /// Takes in a data segment as it came off the wire: finds the position
    /// nearest to the acknowledged one that its sequence number stands for,
    /// accepts it there, and returns the acknowledgment number to send back.
    pub fn receive(&mut self, segment: Segment) -> (r: (Verdict, u32))
        requires
            old(self).wf(),
        ensures
            final(self).wf(),
            final(self)@ == old(self)@.accept(
                delivery_of(
                    nearest(old(self)@.ack_position, segment.seq),
                    segment.payload@,
                    segment.flags.sos,
                    segment.flags.eos,
                ),
            ),
            r.0 == old(self)@.verdict(
                delivery_of(
                    nearest(old(self)@.ack_position, segment.seq),
                    segment.payload@,
                    segment.flags.sos,
                    segment.flags.eos,
                ),
            ),
            r.1 == wire_of(final(self)@.ack_position),
    {
        let position: u64 = resolve(self.ack_position, segment.seq);
        let item = Delivery {
            position,
            payload: segment.payload,
            sos: segment.flags.sos,
            eos: segment.flags.eos,
        };
        let verdict = self.accept(item);
        (verdict, to_wire(self.ack_position))
    }

    /// Hands the oldest waiting payload to the application, if one waits.
    pub fn pop(&mut self) -> (r: Option<Delivery>)
        requires
            old(self).wf(),
        ensures
            final(self).wf(),
            match r {
                Some(d) => old(self)@.ready.len() > 0 && d@ == old(self)@.ready[0] && final(self)@
                    == old(self)@.taken(),
                None => old(self)@.ready.len() == 0 && final(self)@ == old(self)@,
            },
    {
        let ghost before = self@;
        let r = self.ready.pop_front();
        proof {
            assert(self@.held =~= before.held);
            match &r {
                Some(d) => {
                    assert(d@ == before.ready[0]);
                    assert(self@.ready =~= before.ready.skip(1));
                    assert(self@.ready =~= self@.delivered.skip(
                        self@.delivered.len() - self@.ready.len(),
                    ));
                    assert(self@ == before.taken());
                },
                None => {
                    assert(self@.ready =~= before.ready);
                    assert(self@ == before);
                },
            }
        }
        r
    }
}

} // verus!
