//! The receiving side as mathematics: what is held back, what was handed
//! on, and how one arriving segment changes both.

use crate::seqnum::{HALF_TURN, POSITION_LIMIT};
use vstd::prelude::*;

verus! {

/// Mathematical value of a payload on its way to the application.
pub struct DeliveryView {
    pub position: u64,
    pub payload: Seq<u8>,
    pub sos: bool,
    pub eos: bool,
}

/// What became of an arriving data segment.
#[derive(Clone, Copy, Debug, PartialEq, Eq, Structural)]
pub enum Verdict {
    /// Handed on to the application, together with whatever it completed.
    Delivered,
    /// Held back until the positions before it have arrived.
    Buffered,
    /// Its position was handed on or is held already; the copy is dropped.
    Duplicate,
    /// Further ahead than the buffer reaches, or beyond the last position; dropped.
    OutOfWindow,
}

/// What can happen to a reorder buffer.
pub enum Event {
    /// A data segment arrives.
    Arrival(DeliveryView),
    /// The application asks for the oldest ready payload.
    Take,
}

/// The segments that arrive in a series of events, first to last.
pub open spec fn arrivals_in(events: Seq<Event>) -> Seq<DeliveryView>
    decreases events.len(),
{
    if events.len() == 0 {
        Seq::empty()
    } else {
        match events.last() {
            Event::Arrival(d) => arrivals_in(events.drop_last()).push(d),
            Event::Take => arrivals_in(events.drop_last()),
        }
    }
}

/// Mathematical value of a reorder buffer.
pub struct ReorderView {
    /// Tolerant mode: hand on in arrival order.
    pub reordered: bool,
    /// How many positions, counted from the next expected one, the buffer spans.
    pub capacity: nat,
    /// The position before the first data position.
    pub origin: u64,
    /// The position that the cumulative acknowledgment names.
    pub ack_position: u64,
    /// Segments that arrived ahead of their turn, by position.
    pub held: Map<u64, DeliveryView>,
    /// Tolerant mode: the positions handed on so far.
    pub seen: Set<u64>,
    /// Handed on and not yet taken by the application, oldest first.
    pub ready: Seq<DeliveryView>,
    /// Everything ever handed on, oldest first.
    pub delivered: Seq<DeliveryView>,
}

/// The first position at or behind `from` that is not held.
pub open spec fn run_end(held: Map<u64, DeliveryView>, from: u64) -> u64
    decreases POSITION_LIMIT - from,
{
    if from >= POSITION_LIMIT || !held.contains_key(from) {
        from
    } else {
        run_end(held, (from + 1) as u64)
    }
}

/// The first `len` payloads of the run that an in-order arrival completes:
/// the arrival itself, then the segments held at the positions behind it.
pub open spec fn run_from(held: Map<u64, DeliveryView>, arrival: DeliveryView, len: int) -> Seq<
    DeliveryView,
> {
    Seq::new(
        len as nat,
        |i: int|
            if i == 0 {
                arrival
            } else {
                held[(arrival.position + i) as u64]
            },
    )
}

/// The delivery that a data segment becomes once its position is known.
pub open spec fn delivery_of(position: u64, payload: Seq<u8>, sos: bool, eos: bool)
    -> DeliveryView {
    DeliveryView { position, payload, sos, eos }
}

/// The positions that occur in a log of deliveries.
pub open spec fn positions_of(log: Seq<DeliveryView>) -> Set<u64> {
    Set::new(|p: u64| exists|i: int| 0 <= i < log.len() && #[trigger] log[i].position == p)
}

impl ReorderView {
    /// A buffer on which nothing has arrived.
    pub open spec fn initial(reordered: bool, capacity: nat, origin: u64) -> ReorderView {
        ReorderView {
            reordered,
            capacity,
            origin,
            ack_position: origin,
            held: Map::empty(),
            seen: Set::empty(),
            ready: Seq::empty(),
            delivered: Seq::empty(),
        }
    }

    /// What ordered mode makes of an arrival.
    pub open spec fn verdict_ordered(self, d: DeliveryView) -> Verdict {
        if d.position <= self.ack_position {
            Verdict::Duplicate
        } else if d.position >= POSITION_LIMIT || d.position - self.ack_position > self.capacity {
            Verdict::OutOfWindow
        } else if d.position == self.ack_position + 1 {
            Verdict::Delivered
        } else if self.held.contains_key(d.position) {
            Verdict::Duplicate
        } else {
            Verdict::Buffered
        }
    }

    /// What tolerant mode makes of an arrival.
    pub open spec fn verdict_tolerant(self, d: DeliveryView) -> Verdict {
        if d.position <= self.origin {
            Verdict::Duplicate
        } else if d.position >= POSITION_LIMIT {
            Verdict::OutOfWindow
        } else if self.seen.contains(d.position) {
            Verdict::Duplicate
        } else {
            Verdict::Delivered
        }
    }

    /// What becomes of an arrival.
    pub open spec fn verdict(self, d: DeliveryView) -> Verdict {
        if self.reordered {
            self.verdict_tolerant(d)
        } else {
            self.verdict_ordered(d)
        }
    }

    /// The arrival together with the held segments that directly follow it.
    pub open spec fn completed_run(self, d: DeliveryView) -> Seq<DeliveryView> {
        run_from(self.held, d, run_end(self.held, (d.position + 1) as u64) - d.position)
    }

    /// The buffer after one arrival.
    pub open spec fn accept(self, d: DeliveryView) -> ReorderView {
        match self.verdict(d) {
            Verdict::Delivered => if self.reordered {
                ReorderView {
                    ack_position: if d.position > self.ack_position {
                        d.position
                    } else {
                        self.ack_position
                    },
                    seen: self.seen.insert(d.position),
                    ready: self.ready.push(d),
                    delivered: self.delivered.push(d),
                    ..self
                }
            } else {
                let end = run_end(self.held, (d.position + 1) as u64);
                ReorderView {
                    ack_position: (end - 1) as u64,
                    held: self.held.remove_keys(Set::new(|k: u64| k < end)),
                    ready: self.ready + self.completed_run(d),
                    delivered: self.delivered + self.completed_run(d),
                    ..self
                }
            },
            Verdict::Buffered => ReorderView { held: self.held.insert(d.position, d), ..self },
            Verdict::Duplicate => self,
            Verdict::OutOfWindow => self,
        }
    }

    /// The buffer after the application took its oldest ready payload.
    pub open spec fn taken(self) -> ReorderView {
        ReorderView { ready: self.ready.skip(1), ..self }
    }

    /// The buffer after one event.
    pub open spec fn step(self, event: Event) -> ReorderView {
        match event {
            Event::Arrival(d) => self.accept(d),
            Event::Take => if self.ready.len() > 0 {
                self.taken()
            } else {
                self
            },
        }
    }

    /// The buffer after a series of events, first to last.
    pub open spec fn run(self, events: Seq<Event>) -> ReorderView
        decreases events.len(),
    {
        if events.len() == 0 {
            self
        } else {
            self.run(events.drop_last()).step(events.last())
        }
    }

    /// What the application has taken so far, oldest first.
    pub open spec fn handed_out(self) -> Seq<DeliveryView> {
        self.delivered.take(self.delivered.len() - self.ready.len())
    }

    /// The payloads that the application gets in answer to its requests
    /// during a series of events, first to last.
    pub open spec fn answers(self, events: Seq<Event>) -> Seq<DeliveryView>
        decreases events.len(),
    {
        if events.len() == 0 {
            Seq::empty()
        } else {
            let earlier = events.drop_last();
            let before = self.run(earlier);
            if events.last() is Take && before.ready.len() > 0 {
                self.answers(earlier).push(before.ready[0])
            } else {
                self.answers(earlier)
            }
        }
    }

    /// What holds of a buffer in ordered mode.
    pub open spec fn ordered_inv(self) -> bool {
        &&& self.delivered.len() == self.ack_position - self.origin
        &&& forall|i: int|
            0 <= i < self.delivered.len() ==> (#[trigger] self.delivered[i]).position
                == self.origin + 1 + i
        &&& forall|k: u64| #[trigger]
            self.held.contains_key(k) ==> {
                &&& self.ack_position + 1 < k <= self.ack_position + self.capacity
                &&& k < POSITION_LIMIT
                &&& self.held[k].position == k
            }
    }

    /// What holds of a buffer in tolerant mode.
    pub open spec fn tolerant_inv(self) -> bool {
        &&& forall|k: u64| !self.held.contains_key(k)
        &&& self.seen == positions_of(self.delivered)
        &&& forall|i: int|
            0 <= i < self.delivered.len() ==> self.origin < (#[trigger] self.delivered[i]).position
                <= self.ack_position
        &&& forall|i: int, j: int|
            0 <= i < j < self.delivered.len() ==> (#[trigger] self.delivered[i]).position != (
            #[trigger] self.delivered[j]).position
    }

    /// What holds of every buffer.
    pub open spec fn inv(self) -> bool {
        &&& self.capacity >= 1
        &&& HALF_TURN <= self.origin <= self.ack_position < POSITION_LIMIT
        &&& self.ready.len() <= self.delivered.len()
        &&& self.ready == self.delivered.skip(self.delivered.len() - self.ready.len())
        &&& if self.reordered {
            self.tolerant_inv()
        } else {
            self.ordered_inv()
        }
    }
}

/// Where a run of held positions ends: everything before the end is held, the end is not.
pub proof fn lemma_run_end(held: Map<u64, DeliveryView>, from: u64)
    requires
        from <= POSITION_LIMIT,
    ensures
        from <= run_end(held, from) <= POSITION_LIMIT,
        forall|q: u64| from <= q < run_end(held, from) ==> held.contains_key(q),
        run_end(held, from) < POSITION_LIMIT ==> !held.contains_key(run_end(held, from)),
    decreases POSITION_LIMIT - from,
{
    if from >= POSITION_LIMIT || !held.contains_key(from) {
    } else {
        lemma_run_end(held, (from + 1) as u64);
    }
}

/// The positions of a log that grew by one delivery.
pub proof fn lemma_positions_push(log: Seq<DeliveryView>, d: DeliveryView)
    ensures
        positions_of(log.push(d)) == positions_of(log).insert(d.position),
{
    let grown = log.push(d);
    assert forall|p: u64| positions_of(grown).contains(p) <==> positions_of(log).insert(
        d.position,
    ).contains(p) by {
        if positions_of(grown).contains(p) {
            let i = choose|i: int| 0 <= i < grown.len() && #[trigger] grown[i].position == p;
            if i < log.len() {
                assert(log[i].position == p);
            }
        }
        if positions_of(log).contains(p) {
            let i = choose|i: int| 0 <= i < log.len() && #[trigger] log[i].position == p;
            assert(grown[i].position == p);
        }
        if p == d.position {
            assert(grown[log.len() as int].position == p);
        }
    }
    assert(positions_of(grown) =~= positions_of(log).insert(d.position));
}

/// One arrival leaves a sound buffer sound.
pub proof fn lemma_accept_inv(v: ReorderView, d: DeliveryView)
    requires
        v.inv(),
    ensures
        v.accept(d).inv(),
{
    let w = v.accept(d);
    match v.verdict(d) {
        Verdict::Delivered => {
            if v.reordered {
                lemma_positions_push(v.delivered, d);
                assert(w.ready =~= w.delivered.skip(w.delivered.len() - w.ready.len()));
                assert forall|i: int, j: int| 0 <= i < j < w.delivered.len() implies (
                #[trigger] w.delivered[i]).position != (#[trigger] w.delivered[j]).position by {
                    if j == v.delivered.len() {
                        if v.delivered[i].position == d.position {
                            assert(positions_of(v.delivered).contains(d.position));
                        }
                    }
                }
            } else {
                let end = run_end(v.held, (d.position + 1) as u64);
                lemma_run_end(v.held, (d.position + 1) as u64);
                let run = v.completed_run(d);
                assert(w.ready =~= w.delivered.skip(w.delivered.len() - w.ready.len()));
                assert forall|i: int| 0 <= i < w.delivered.len() implies (
                #[trigger] w.delivered[i]).position == w.origin + 1 + i by {
                    if i >= v.delivered.len() {
                        let r = i - v.delivered.len();
                        assert(w.delivered[i] == run[r]);
                        if r > 0 {
                            assert(v.held.contains_key((d.position + r) as u64));
                        }
                    }
                }
                if end < POSITION_LIMIT {
                    assert(!v.held.contains_key(end));
                }
            }
        },
        Verdict::Buffered => {},
        Verdict::Duplicate => {},
        Verdict::OutOfWindow => {},
    }
}

/// An arrival changes nothing of what the application has taken.
pub proof fn lemma_accept_keeps_handed_out(v: ReorderView, d: DeliveryView)
    requires
        v.inv(),
    ensures
        v.accept(d).handed_out() == v.handed_out(),
{
    let w = v.accept(d);
    assert(w.handed_out() =~= v.handed_out());
}

/// Taking a payload leaves a sound buffer sound.
pub proof fn lemma_taken_inv(v: ReorderView)
    requires
        v.inv(),
        v.ready.len() > 0,
    ensures
        v.taken().inv(),
        v.taken().handed_out() == v.handed_out().push(v.ready[0]),
{
    let w = v.taken();
    assert(w.ready =~= w.delivered.skip(w.delivered.len() - w.ready.len()));
    assert(w.handed_out() =~= v.handed_out().push(v.ready[0]));
}

/// One event leaves a sound buffer sound.
pub proof fn lemma_step_inv(v: ReorderView, event: Event)
    requires
        v.inv(),
    ensures
        v.step(event).inv(),
{
    match event {
        Event::Arrival(d) => {
            lemma_accept_inv(v, d);
        },
        Event::Take => {
            if v.ready.len() > 0 {
                lemma_taken_inv(v);
            }
        },
    }
}

/// Any series of events leaves a sound buffer sound.
pub proof fn lemma_run_inv(v: ReorderView, events: Seq<Event>)
    requires
        v.inv(),
    ensures
        v.run(events).inv(),
    decreases events.len(),
{
    if events.len() > 0 {
        lemma_run_inv(v, events.drop_last());
        lemma_step_inv(v.run(events.drop_last()), events.last());
    }
}

} // verus!
