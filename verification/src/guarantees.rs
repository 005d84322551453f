//! What the transport promises, proved of its model for every series of
//! events.

use crate::connection_model::{ack_segment, is_request, may_follow};
use crate::connection_model::{ConnectionEvent, ConnectionView};
use crate::reorder_model::{arrivals_in, lemma_accept_inv, lemma_run_end, lemma_run_inv};
use crate::reorder_model::{lemma_accept_keeps_handed_out, lemma_taken_inv};
use crate::reorder_model::{positions_of, run_end};
use crate::reorder_model::{delivery_of, DeliveryView, Event, ReorderView, Verdict};
use crate::seqnum::{lemma_nearest_recovers, nearest, origin_of, wire_of};
use crate::seqnum::{HALF_TURN, POSITION_LIMIT};
use crate::timer::MAX_RETRIES;
use crate::window_model::{first_chunk_len, lemma_acknowledge_inv, lemma_first_due_from};
use crate::window_model::{lemma_resend_inv, lemma_with_record_inv};
use crate::window_model::{segment_of, sent_record, SenderEvent, SenderView};
use vstd::prelude::*;

verus! {

/// A receiver on which nothing has arrived is sound.
pub proof fn lemma_initial_receiver(reordered: bool, capacity: nat, origin: u64)
    requires
        capacity >= 1,
        HALF_TURN <= origin < POSITION_LIMIT,
    ensures
        ReorderView::initial(reordered, capacity, origin).inv(),
{
    let v = ReorderView::initial(reordered, capacity, origin);
    assert(v.ready =~= v.delivered.skip(0));
    assert(positions_of(v.delivered) =~= Set::<u64>::empty());
}

/// What the application has taken is what it got in answer to its
/// requests: the payloads handed on, oldest first, as far as it asked.
pub proof fn lemma_answers(v: ReorderView, events: Seq<Event>)
    requires
        v.inv(),
    ensures
        v.run(events).handed_out() == v.handed_out() + v.answers(events),
    decreases events.len(),
{
    if events.len() == 0 {
        assert(v.handed_out() + v.answers(events) =~= v.handed_out());
    } else {
        let earlier = events.drop_last();
        let before = v.run(earlier);
        lemma_answers(v, earlier);
        lemma_run_inv(v, earlier);
        match events.last() {
            Event::Arrival(d) => {
                lemma_accept_keeps_handed_out(before, d);
            },
            Event::Take => {
                if before.ready.len() > 0 {
                    lemma_taken_inv(before);
                    assert(v.handed_out() + v.answers(earlier).push(before.ready[0]) =~= (
                    v.handed_out() + v.answers(earlier)).push(before.ready[0]));
                }
            },
        }
    }
}

/// Ordered mode hands payloads on in the order of their positions, with no
/// gap: whatever arrives in whatever order, the payload handed on as number
/// `i` has the position `i` places behind the first. The same holds of the
/// payloads that the application gets in answer to its requests.
pub proof fn lemma_ordered_delivery(capacity: nat, origin: u64, events: Seq<Event>)
    requires
        capacity >= 1,
        HALF_TURN <= origin < POSITION_LIMIT,
    ensures
        ({
            let start = ReorderView::initial(false, capacity, origin);
            &&& forall|i: int|
                0 <= i < start.run(events).delivered.len() ==> (#[trigger] start.run(
                    events,
                ).delivered[i]).position == origin + 1 + i
            &&& forall|i: int|
                0 <= i < start.answers(events).len() ==> (#[trigger] start.answers(
                    events,
                )[i]).position == origin + 1 + i
        }),
{
    let start = ReorderView::initial(false, capacity, origin);
    let v = start.run(events);
    lemma_initial_receiver(false, capacity, origin);
    lemma_run_inv(start, events);
    lemma_run_keeps_setup(start, events);
    lemma_answers(start, events);
    assert(start.handed_out() + start.answers(events) =~= start.answers(events));
    assert forall|i: int| 0 <= i < start.answers(events).len() implies (#[trigger] start.answers(
        events,
    )[i]).position == origin + 1 + i by {
        assert(v.handed_out()[i] == v.delivered[i]);
    }
}

/// No position is handed on twice, in either mode, whatever arrives and
/// however often; and the application gets no position twice in answer to
/// its requests.
pub proof fn lemma_at_most_once(reordered: bool, capacity: nat, origin: u64, events: Seq<Event>)
    requires
        capacity >= 1,
        HALF_TURN <= origin < POSITION_LIMIT,
    ensures
        ({
            let start = ReorderView::initial(reordered, capacity, origin);
            let v = start.run(events);
            let got = start.answers(events);
            &&& forall|i: int, j: int|
                0 <= i < j < v.delivered.len() ==> (#[trigger] v.delivered[i]).position != (
                #[trigger] v.delivered[j]).position
            &&& forall|i: int, j: int|
                0 <= i < j < got.len() ==> (#[trigger] got[i]).position != (
                #[trigger] got[j]).position
        }),
{
    let start = ReorderView::initial(reordered, capacity, origin);
    lemma_initial_receiver(reordered, capacity, origin);
    lemma_run_inv(start, events);
    lemma_run_keeps_setup(start, events);
    let v = start.run(events);
    assert forall|i: int, j: int| 0 <= i < j < v.delivered.len() implies (
    #[trigger] v.delivered[i]).position != (#[trigger] v.delivered[j]).position by {
        if !reordered {
            assert(v.delivered[i].position == origin + 1 + i);
            assert(v.delivered[j].position == origin + 1 + j);
        }
    }
    let got = start.answers(events);
    lemma_answers(start, events);
    assert(start.handed_out() + got =~= got);
    assert forall|i: int, j: int| 0 <= i < j < got.len() implies (#[trigger] got[i]).position != (
    #[trigger] got[j]).position by {
        assert(v.handed_out()[i] == v.delivered[i]);
        assert(v.handed_out()[j] == v.delivered[j]);
    }
}

/// The mode, the capacity and the origin of a buffer never change.
pub proof fn lemma_run_keeps_setup(v: ReorderView, events: Seq<Event>)
    ensures
        v.run(events).reordered == v.reordered,
        v.run(events).capacity == v.capacity,
        v.run(events).origin == v.origin,
    decreases events.len(),
{
    if events.len() > 0 {
        lemma_run_keeps_setup(v, events.drop_last());
    }
}

/// The arrivals that tolerant mode hands on: each one whose position lies
/// behind the origin and did not arrive before, in the order of arrival.
pub open spec fn first_arrivals(origin: u64, arrivals: Seq<DeliveryView>) -> Seq<DeliveryView>
    decreases arrivals.len(),
{
    if arrivals.len() == 0 {
        Seq::empty()
    } else {
        let before = first_arrivals(origin, arrivals.drop_last());
        let d = arrivals.last();
        if origin < d.position < POSITION_LIMIT && !positions_of(before).contains(d.position) {
            before.push(d)
        } else {
            before
        }
    }
}

/// Tolerant mode hands on every segment that is no duplicate, at once and
/// in the order of arrival: what was handed on is exactly the series of
/// first arrivals, and what the application gets in answer to its requests
/// is that series from its start, as far as the application asked.
pub proof fn lemma_tolerant_delivery(capacity: nat, origin: u64, events: Seq<Event>)
    requires
        capacity >= 1,
        HALF_TURN <= origin < POSITION_LIMIT,
    ensures
        ReorderView::initial(true, capacity, origin).run(events).delivered == first_arrivals(
            origin,
            arrivals_in(events),
        ),
        ReorderView::initial(true, capacity, origin).answers(events).is_prefix_of(
            first_arrivals(origin, arrivals_in(events)),
        ),
    decreases events.len(),
{
    let start = ReorderView::initial(true, capacity, origin);
    lemma_initial_receiver(true, capacity, origin);
    lemma_answers(start, events);
    lemma_run_inv(start, events);
    assert(start.handed_out() + start.answers(events) =~= start.answers(events));
    if events.len() > 0 {
        let earlier = events.drop_last();
        lemma_tolerant_delivery(capacity, origin, earlier);
        lemma_run_inv(start, earlier);
        lemma_run_keeps_setup(start, earlier);
        match events.last() {
            Event::Arrival(d) => {
                assert(arrivals_in(events).drop_last() =~= arrivals_in(earlier));
            },
            Event::Take => {},
        }
    }
}

/// What was handed on are arrivals, unchanged: position, payload and stream
/// markers of every payload handed on are those of a segment that arrived.
pub proof fn lemma_delivered_arrived(
    reordered: bool,
    capacity: nat,
    origin: u64,
    events: Seq<Event>,
)
    requires
        capacity >= 1,
        HALF_TURN <= origin < POSITION_LIMIT,
    ensures
        ({
            let v = ReorderView::initial(reordered, capacity, origin).run(events);
            &&& forall|i: int|
                0 <= i < v.delivered.len() ==> arrivals_in(events).contains(
                    #[trigger] v.delivered[i],
                )
            &&& forall|k: u64| #[trigger]
                v.held.contains_key(k) ==> arrivals_in(events).contains(v.held[k])
        }),
    decreases events.len(),
{
    let start = ReorderView::initial(reordered, capacity, origin);
    lemma_initial_receiver(reordered, capacity, origin);
    if events.len() > 0 {
        let earlier = events.drop_last();
        lemma_delivered_arrived(reordered, capacity, origin, earlier);
        lemma_run_inv(start, earlier);
        let u = start.run(earlier);
        let v = start.run(events);
        let old_arrivals = arrivals_in(earlier);
        let arrivals = arrivals_in(events);
        match events.last() {
            Event::Arrival(d) => {
                assert(arrivals == old_arrivals.push(d));
                assert(arrivals[old_arrivals.len() as int] == d);
                assert forall|x: DeliveryView| old_arrivals.contains(x) implies arrivals.contains(
                    x,
                ) by {
                    let n = choose|n: int| 0 <= n < old_arrivals.len() && old_arrivals[n] == x;
                    assert(arrivals[n] == x);
                }
                if u.verdict(d) == Verdict::Delivered && !u.reordered {
                    lemma_run_end(u.held, (d.position + 1) as u64);
                    let run = u.completed_run(d);
                    assert forall|i: int| 0 <= i < v.delivered.len() implies arrivals.contains(
                        #[trigger] v.delivered[i],
                    ) by {
                        if i >= u.delivered.len() {
                            let r = i - u.delivered.len();
                            assert(v.delivered[i] == run[r]);
                            if r > 0 {
                                assert(u.held.contains_key((d.position + r) as u64));
                            }
                        } else {
                            assert(v.delivered[i] == u.delivered[i]);
                        }
                    }
                } else {
                    assert forall|i: int| 0 <= i < v.delivered.len() implies arrivals.contains(
                        #[trigger] v.delivered[i],
                    ) by {
                        if i < u.delivered.len() {
                            assert(v.delivered[i] == u.delivered[i]);
                        }
                    }
                }
            },
            Event::Take => {},
        }
    }
}

/// The end of a stream is reported once at most: if every arriving segment
/// that carries the end-of-stream marker has the position `end`, then at
/// most one payload handed on carries the marker, and its position is
/// `end`; and at most one answer to the application's requests reports the
/// end of the stream.
pub proof fn lemma_single_end_of_stream(
    reordered: bool,
    capacity: nat,
    origin: u64,
    events: Seq<Event>,
    end: u64,
)
    requires
        capacity >= 1,
        HALF_TURN <= origin < POSITION_LIMIT,
        forall|k: int|
            0 <= k < arrivals_in(events).len() && (#[trigger] arrivals_in(events)[k]).eos
                ==> arrivals_in(events)[k].position == end,
    ensures
        ({
            let v = ReorderView::initial(reordered, capacity, origin).run(events);
            let got = ReorderView::initial(reordered, capacity, origin).answers(events);
            &&& forall|i: int|
                0 <= i < v.delivered.len() && (#[trigger] v.delivered[i]).eos
                    ==> v.delivered[i].position == end
            &&& forall|i: int, j: int|
                0 <= i < v.delivered.len() && 0 <= j < v.delivered.len() && (
                #[trigger] v.delivered[i]).eos && (#[trigger] v.delivered[j]).eos ==> i == j
            &&& forall|i: int, j: int|
                0 <= i < got.len() && 0 <= j < got.len() && (#[trigger] got[i]).eos && (
                #[trigger] got[j]).eos ==> i == j
        }),
{
    let start = ReorderView::initial(reordered, capacity, origin);
    let got = start.answers(events);
    lemma_initial_receiver(reordered, capacity, origin);
    lemma_answers(start, events);
    lemma_run_inv(start, events);
    assert(start.handed_out() + got =~= got);
    let v = ReorderView::initial(reordered, capacity, origin).run(events);
    let arrivals = arrivals_in(events);
    lemma_delivered_arrived(reordered, capacity, origin, events);
    lemma_at_most_once(reordered, capacity, origin, events);
    assert forall|i: int| 0 <= i < v.delivered.len() && (#[trigger] v.delivered[i]).eos implies
        v.delivered[i].position == end by {
        assert(arrivals.contains(v.delivered[i]));
        let k = choose|k: int| 0 <= k < arrivals.len() && arrivals[k] == v.delivered[i];
        assert(arrivals[k].eos);
    }
    assert forall|i: int, j: int|
        0 <= i < v.delivered.len() && 0 <= j < v.delivered.len() && (
        #[trigger] v.delivered[i]).eos && (#[trigger] v.delivered[j]).eos implies i == j by {
        assert(v.delivered[i].position == end);
        assert(v.delivered[j].position == end);
        if i < j {
            assert(v.delivered[i].position != v.delivered[j].position);
        }
        if j < i {
            assert(v.delivered[j].position != v.delivered[i].position);
        }
    }
    assert forall|i: int, j: int|
        0 <= i < got.len() && 0 <= j < got.len() && (#[trigger] got[i]).eos && (
        #[trigger] got[j]).eos implies i == j by {
        assert(got[i] == v.delivered[i]);
        assert(got[j] == v.delivered[j]);
    }
}

/// A sender with nothing in flight is sound.
pub proof fn lemma_initial_sender(window_size: nat, first: u64)
    requires
        window_size >= 1,
        HALF_TURN < first < POSITION_LIMIT,
    ensures
        SenderView::initial(window_size, first).inv(),
{
}

/// At no point are more segments in flight than the window admits, whatever
/// is sent, acknowledged or timed out in whatever order.
pub proof fn lemma_window_bound(window_size: nat, first: u64, events: Seq<SenderEvent>)
    requires
        window_size >= 1,
        HALF_TURN < first < POSITION_LIMIT,
    ensures
        SenderView::initial(window_size, first).run(events).records.len() <= window_size,
{
    let start = SenderView::initial(window_size, first);
    lemma_initial_sender(window_size, first);
    crate::window_model::lemma_run_inv(start, events);
    lemma_sender_keeps_window(start, events);
}

/// The size of a window never changes.
pub proof fn lemma_sender_keeps_window(v: SenderView, events: Seq<SenderEvent>)
    ensures
        v.run(events).window_size == v.window_size,
    decreases events.len(),
{
    if events.len() > 0 {
        lemma_sender_keeps_window(v, events.drop_last());
    }
}

/// A segment that arrives in its turn is handed on as it was sent.
///
/// Take a sender with room in its window and the receiver that reads its
/// stream: the receiver has seen, holds and acknowledges only what was sent,
/// and in ordered mode has everything sent so far. Then the first chunk of
/// a payload offered for sending, once it arrives, is handed on by the
/// receiver at once, behind everything handed on before: with the position
/// that the sender gave it, with the bytes of the chunk, with the
/// start-of-stream marker as asked for, and with the end-of-stream marker
/// if that was asked for and the chunk is the whole payload.
pub proof fn lemma_sent_is_delivered(
    s: SenderView,
    r: ReorderView,
    buf: Seq<u8>,
    sos: bool,
    eos: bool,
    now: u64,
)
    requires
        s.inv(),
        r.inv(),
        s.window_size + 1 < HALF_TURN,
        !s.is_full(),
        !s.is_exhausted(),
        r.origin <= s.acked <= r.ack_position < s.next_position(),
        forall|k: u64| r.held.contains_key(k) ==> k < s.next_position(),
        forall|k: u64| r.seen.contains(k) ==> k < s.next_position(),
        !r.reordered ==> r.ack_position + 1 == s.next_position(),
    ensures
        ({
            let record = sent_record(s, buf, sos, eos, now);
            let segment = segment_of(record);
            let arrival = delivery_of(
                nearest(r.ack_position, segment.seq),
                segment.payload,
                segment.flags.sos,
                segment.flags.eos,
            );
            &&& arrival == delivery_of(
                s.next_position() as u64,
                buf.take(first_chunk_len(buf)),
                sos,
                eos && first_chunk_len(buf) == buf.len(),
            )
            &&& r.verdict(arrival) == Verdict::Delivered
            &&& r.accept(arrival).delivered == r.delivered.push(arrival)
            &&& r.accept(arrival).ready == r.ready.push(arrival)
            &&& r.accept(arrival).ack_position == s.next_position()
        }),
{
    let record = sent_record(s, buf, sos, eos, now);
    let segment = segment_of(record);
    lemma_nearest_recovers(r.ack_position, record.position);
    let arrival = delivery_of(
        nearest(r.ack_position, segment.seq),
        segment.payload,
        segment.flags.sos,
        segment.flags.eos,
    );
    if !r.reordered {
        let next = (arrival.position + 1) as u64;
        assert(!r.held.contains_key(next));
        assert(run_end(r.held, next) == next);
        assert(r.completed_run(arrival) =~= seq![arrival]);
        assert(r.delivered + r.completed_run(arrival) =~= r.delivered.push(arrival));
        assert(r.ready + r.completed_run(arrival) =~= r.ready.push(arrival));
    }
}

/// A segment that is sent again and arrives is acknowledged and retired.
///
/// Take a sender and the receiver that reads its stream: the receiver has
/// acknowledged at least what the sender knows to be acknowledged, and holds
/// and acknowledges only what was sent. Let the record at `index` be due,
/// with retries left, and in ordered mode let everything before it have
/// arrived. Then the segment sent again is the one sent first; when it
/// arrives, the receiver finds its position and acknowledges it; and when
/// that acknowledgment arrives, the sender finds its position and keeps no
/// record up to the segment's.
pub proof fn lemma_retransmission_retires(s: SenderView, r: ReorderView, index: int, now: u64)
    requires
        s.inv(),
        r.inv(),
        s.window_size + 1 < HALF_TURN,
        0 <= index < s.records.len(),
        index == s.first_due(now),
        s.records[index].retries < MAX_RETRIES,
        r.origin <= s.acked <= r.ack_position < s.next_position(),
        forall|k: u64| r.held.contains_key(k) ==> k < s.next_position(),
        !r.reordered ==> s.records[index].position <= r.ack_position + 1,
    ensures
        ({
            let record = s.records[index];
            let resent = s.resend(index, now);
            let segment = segment_of(resent.records[index]);
            let arrival = delivery_of(
                nearest(r.ack_position, segment.seq),
                segment.payload,
                segment.flags.sos,
                segment.flags.eos,
            );
            let received = r.accept(arrival);
            let answered = resent.acknowledge(
                nearest(resent.acked, wire_of(received.ack_position)),
            );
            &&& segment == segment_of(record)
            &&& arrival.position == record.position
            &&& received.ack_position >= record.position
            &&& answered.acked == received.ack_position
            &&& forall|j: int|
                0 <= j < answered.records.len() ==> (#[trigger] answered.records[j]).position
                    > record.position
        }),
{
    let record = s.records[index];
    let resent = s.resend(index, now);
    let segment = segment_of(resent.records[index]);
    lemma_nearest_recovers(r.ack_position, record.position);
    let arrival = delivery_of(
        nearest(r.ack_position, segment.seq),
        segment.payload,
        segment.flags.sos,
        segment.flags.eos,
    );
    let received = r.accept(arrival);
    lemma_accept_inv(r, arrival);
    if !r.reordered && r.verdict(arrival) == Verdict::Delivered {
        lemma_run_end(r.held, (arrival.position + 1) as u64);
        let end = run_end(r.held, (arrival.position + 1) as u64);
        if end > arrival.position + 1 {
            assert(r.held.contains_key((end - 1) as u64));
        }
    }
    assert(received.ack_position < s.next_position());
    lemma_nearest_recovers(resent.acked, received.ack_position);
    let answered = resent.acknowledge(received.ack_position);
    assert forall|j: int| 0 <= j < answered.records.len() implies (
    #[trigger] answered.records[j]).position > record.position by {
        let shift = received.ack_position - resent.acked;
        assert(answered.records[j] == resent.records[j + shift]);
        if j + shift != index {
            assert(resent.records[j + shift] == s.records[j + shift]);
        }
    }
}

/// A connection fresh from binding is sound.
pub proof fn lemma_initial_connection(window_size: nat, reordered: bool)
    requires
        window_size >= 1,
    ensures
        ConnectionView::initial(window_size, reordered).inv(),
{
    lemma_initial_sender(window_size, origin_of(0));
    lemma_initial_receiver(reordered, window_size, origin_of(0));
}

/// One event leaves a sound connection sound.
pub proof fn lemma_connection_step_inv(v: ConnectionView, event: ConnectionEvent)
    requires
        v.inv(),
    ensures
        v.step(event).inv(),
{
    match event {
        ConnectionEvent::Connect { isn, now } => {
            if v.state is Bound {
                let fresh = SenderView::initial(v.window_size, origin_of(isn));
                lemma_initial_sender(v.window_size, origin_of(isn));
                lemma_with_record_inv(fresh, Seq::empty(), false, false, false, now);
            }
        },
        ConnectionEvent::Send { buf, sos, eos, now } => {
            if v.state is Established && !v.sender.is_full() && !v.sender.is_exhausted() {
                lemma_with_record_inv(
                    v.sender,
                    buf.take(first_chunk_len(buf)),
                    sos,
                    eos && first_chunk_len(buf) == buf.len(),
                    true,
                    now,
                );
            }
        },
        ConnectionEvent::Recv => {
            if v.state is Established && v.receiver.ready.len() > 0 {
                lemma_taken_inv(v.receiver);
            }
        },
        ConnectionEvent::Close => {},
        ConnectionEvent::Arrival(segment) => {
            if v.is_active() {
                if is_request(segment) {
                    lemma_initial_receiver(v.reordered, v.window_size, origin_of(segment.seq));
                } else {
                    lemma_acknowledge_inv(v.sender, nearest(v.sender.acked, segment.ack));
                    let a = v.acknowledged(segment);
                    if segment.flags.data && a.accepts_data() {
                        lemma_accept_inv(a.receiver, a.arrival(segment));
                    }
                }
            }
        },
        ConnectionEvent::Tick(now) => {
            lemma_first_due_from(v.sender.records, now, 0);
            if v.has_due(now) && v.may_resend(now) {
                lemma_resend_inv(v.sender, v.sender.first_due(now), now);
            }
        },
    }
}

/// Any series of events leaves a sound connection sound.
pub proof fn lemma_connection_run_inv(v: ConnectionView, events: Seq<ConnectionEvent>)
    requires
        v.inv(),
    ensures
        v.run(events).inv(),
    decreases events.len(),
{
    if events.len() > 0 {
        lemma_connection_run_inv(v, events.drop_last());
        lemma_connection_step_inv(v.run(events.drop_last()), events.last());
    }
}

/// A connection never has more segments in flight than its window admits,
/// whatever its application and its peer do in whatever order.
pub proof fn lemma_connection_window_bound(
    window_size: nat,
    reordered: bool,
    events: Seq<ConnectionEvent>,
)
    requires
        window_size >= 1,
    ensures
        ConnectionView::initial(window_size, reordered).run(events).sender.records.len()
            <= window_size,
    decreases events.len(),
{
    let start = ConnectionView::initial(window_size, reordered);
    lemma_initial_connection(window_size, reordered);
    lemma_connection_run_inv(start, events);
    lemma_connection_keeps_window(start, events);
}

/// The window size of a connection never changes.
pub proof fn lemma_connection_keeps_window(v: ConnectionView, events: Seq<ConnectionEvent>)
    ensures
        v.run(events).window_size == v.window_size,
    decreases events.len(),
{
    if events.len() > 0 {
        lemma_connection_keeps_window(v, events.drop_last());
    }
}

/// The handshake establishes the connection: a peer that still sends
/// answers the connection request with the acknowledgment of its sequence
/// number, and when that answer arrives, the connection is established and
/// has nothing in flight.
pub proof fn lemma_handshake(a: ConnectionView, b: ConnectionView, isn: u32, now: u64)
    requires
        a.inv(),
        b.inv(),
        a.state is Bound,
        b.is_active(),
        !b.peer_known,
    ensures
        b.reply_to(a.request_segment(isn, now)) == Some(ack_segment(isn)),
        a.step(ConnectionEvent::Connect { isn, now }).step(
            ConnectionEvent::Arrival(ack_segment(isn)),
        ).state is Established,
        a.step(ConnectionEvent::Connect { isn, now }).step(
            ConnectionEvent::Arrival(ack_segment(isn)),
        ).sender.records.len() == 0,
{
    let connecting = a.step(ConnectionEvent::Connect { isn, now });
    assert(connecting.sender.records.len() == 1);
    lemma_nearest_recovers(connecting.sender.acked, origin_of(isn));
    assert(wire_of(origin_of(isn)) == isn);
    let answered = connecting.sender.acknowledge(origin_of(isn));
    assert(answered.records.len() == 0);
}

/// Every event moves a connection along its life cycle or leaves it where
/// it is: bound, connecting, established, closing, closed, with failure
/// reachable while segments travel.
pub proof fn lemma_life_cycle(v: ConnectionView, event: ConnectionEvent)
    ensures
        may_follow(v.state, v.step(event).state),
{
}

/// A closed or failed connection does not change any more.
pub proof fn lemma_terminal(v: ConnectionView, event: ConnectionEvent)
    requires
        v.state is Closed || v.state is Failed,
    ensures
        v.step(event) == v,
{
}

/// Payloads are sent and received on an established connection only: in
/// any other state the two calls change nothing.
pub proof fn lemma_transfer_needs_establishment(
    v: ConnectionView,
    buf: Seq<u8>,
    sos: bool,
    eos: bool,
    now: u64,
)
    requires
        !(v.state is Established),
    ensures
        v.step(ConnectionEvent::Send { buf, sos, eos, now }) == v,
        v.step(ConnectionEvent::Recv) == v,
{
}

} // verus!
