//! What two engines guarantee over many datagrams: ordered payloads come out complete and in the
//! order in which they were sent, whatever the order in which the datagrams arrive.
use vstd::prelude::*;

use super::datagram;
use super::datagram::{FrameView, IncomingView, Reliability};
use super::delivery;
use super::reliability;
use super::reliability::EngineView;
use super::window;
use super::window::SEQ_COUNT;

verus! {

// ==================== Many payloads ====================

/// The engine after it sent payloads one after the other, the `i`-th at the moment `at[i]`.
pub open spec fn sent(
    e: EngineView,
    r: Reliability,
    bodies: Seq<Seq<u8>>,
    max_body_bytes: nat,
    at: Seq<u64>,
) -> EngineView
    decreases bodies.len(),
{
    if bodies.len() == 0 {
        e
    } else {
        reliability::send_step(
            sent(e, r, bodies.drop_last(), max_body_bytes, at),
            r,
            bodies.last(),
            max_body_bytes,
            at[bodies.len() - 1],
        ).0
    }
}

/// The packet of the `i`-th payload, or the error.
pub open spec fn packet_of(
    e: EngineView,
    r: Reliability,
    bodies: Seq<Seq<u8>>,
    max_body_bytes: nat,
    at: Seq<u64>,
    i: int,
) -> Result<Seq<u8>, Seq<char>> {
    reliability::send_step(
        sent(e, r, bodies.take(i), max_body_bytes, at),
        r,
        bodies[i],
        max_body_bytes,
        at[i],
    ).1
}

/// The packets are those of the payloads: every one was sent without an error.
pub open spec fn are_packets_of(
    packets: Seq<Seq<u8>>,
    e: EngineView,
    r: Reliability,
    bodies: Seq<Seq<u8>>,
    max_body_bytes: nat,
    at: Seq<u64>,
) -> bool {
    &&& packets.len() == bodies.len()
    &&& forall|i: int|
        0 <= i < bodies.len() ==> packet_of(e, r, bodies, max_body_bytes, at, i) == Ok::<
            Seq<u8>,
            Seq<char>,
        >(#[trigger] packets[i])
}

/// The frame of the `i`-th payload.
pub open spec fn frame_of(
    e: EngineView,
    r: Reliability,
    bodies: Seq<Seq<u8>>,
    max_body_bytes: nat,
    at: Seq<u64>,
    i: int,
) -> FrameView {
    reliability::template_of(sent(e, r, bodies.take(i), max_body_bytes, at), r, bodies[i])
}

/// The frames of the payloads, in the order of sending.
pub open spec fn frames_of(
    e: EngineView,
    r: Reliability,
    bodies: Seq<Seq<u8>>,
    max_body_bytes: nat,
    at: Seq<u64>,
) -> Seq<FrameView> {
    Seq::new(bodies.len(), |i: int| frame_of(e, r, bodies, max_body_bytes, at, i))
}

/// What happens to a receiver: a packet arrives at a moment, or the ordered queue is drained.
pub enum Event {
    Arrival { index: int, at: u64 },
    Drain,
}

/// The engine after a packet arrived, and the frames that it gave at once.
pub open spec fn arrival(e: EngineView, packet: Seq<u8>, now: u64) -> (EngineView, Seq<FrameView>) {
    match datagram::incoming_of(packet) {
        Ok(IncomingView::Datagram(d)) => match reliability::receive_step(e, d, now) {
            (next, Ok(out)) => (next, out),
            (next, Err(_)) => (next, seq![]),
        },
        _ => (e, seq![]),
    }
}

/// The receiver after some events, and all frames that it gave, at once or when it was drained.
pub open spec fn received(e: EngineView, packets: Seq<Seq<u8>>, events: Seq<Event>) -> (
    EngineView,
    Seq<FrameView>,
)
    decreases events.len(),
{
    if events.len() == 0 {
        (e, seq![])
    } else {
        let (before, given) = received(e, packets, events.drop_last());
        match events.last() {
            Event::Arrival { index, at } => {
                let (next, out) = arrival(before, packets[index], at);
                (next, given + out)
            },
            Event::Drain => {
                let (queue, turn, out) = reliability::drain(
                    before.order_queue,
                    before.next_delivery,
                );
                (
                    EngineView { order_queue: queue, next_delivery: turn, ..before },
                    given + out,
                )
            },
        }
    }
}

/// Only packets that were sent arrive.
pub open spec fn only_sent(events: Seq<Event>, n: nat) -> bool {
    forall|j: int|
        0 <= j < events.len() ==> (#[trigger] events[j] matches Event::Arrival { index, .. }
            ==> 0 <= index < n)
}

/// The packet with an index arrived at least once.
pub open spec fn has_arrived(events: Seq<Event>, i: int) -> bool {
    exists|j: int|
        0 <= j < events.len() && (#[trigger] events[j] matches Event::Arrival { index, .. }
            && index == i)
}

// ==================== The sender ====================

proof fn lemma_sender(
    e: EngineView,
    r: Reliability,
    bodies: Seq<Seq<u8>>,
    m: nat,
    at: Seq<u64>,
    packets: Seq<Seq<u8>>,
    now: u64,
    i: nat,
)
    requires
        e == reliability::new_engine(now),
        r.ordered(),
        bodies.len() < SEQ_COUNT,
        are_packets_of(packets, e, r, bodies, m, at),
        i <= bodies.len(),
    ensures
        ({
            let s = sent(e, r, bodies.take(i as int), m, at);
            &&& s.wf()
            &&& s.next_datagram_seq == i
            &&& s.next_order_index == i
        }),
    decreases i,
{
    let done = bodies.take(i as int);
    if i == 0 {
        assert(sent(e, r, done, m, at) == e);
    } else {
        let k = (i - 1) as nat;
        lemma_sender(e, r, bodies, m, at, packets, now, k);
        assert(done.drop_last() =~= bodies.take(k as int));
        assert(done.last() == bodies[k as int]);
        let s = sent(e, r, bodies.take(k as int), m, at);
        assert(packet_of(e, r, bodies, m, at, k as int) == Ok::<Seq<u8>, Seq<char>>(
            packets[k as int],
        ));
        let next = reliability::send_step(s, r, bodies[k as int], m, at[k as int]).0;
        assert(sent(e, r, done, m, at) == next);
        assert(next.wf());
    }
}

// ==================== The receiver ====================

/// The numbers of the datagrams that arrived, in the order of arrival.
spec fn arrivals(events: Seq<Event>) -> Seq<u32>
    decreases events.len(),
{
    if events.len() == 0 {
        seq![]
    } else {
        match events.last() {
            Event::Arrival { index, .. } => arrivals(events.drop_last()).push(index as u32),
            Event::Drain => arrivals(events.drop_last()),
        }
    }
}

proof fn lemma_arrivals(events: Seq<Event>, n: nat)
    requires
        only_sent(events, n),
        n < SEQ_COUNT,
    ensures
        forall|x: u32| #[trigger]
            arrivals(events).contains(x) <==> x < n && has_arrived(events, x as int),
        forall|i: int| 0 <= i < arrivals(events).len() ==> #[trigger] arrivals(events)[i] < n,
    decreases events.len(),
{
    let all = arrivals(events);
    if events.len() > 0 {
        let less = events.drop_last();
        let prev = arrivals(less);
        assert forall|j: int| 0 <= j < less.len() implies (#[trigger] less[j] matches
            Event::Arrival { index, .. } ==> 0 <= index < n) by {
            assert(less[j] == events[j]);
        }
        lemma_arrivals(less, n);
        let last = events[events.len() - 1];
        assert forall|x: u32| #[trigger] all.contains(x) <==> x < n && has_arrived(
            events,
            x as int,
        ) by {
            assert(prev.contains(x) <==> x < n && has_arrived(less, x as int));
            if all.contains(x) {
                let i = choose|i: int| 0 <= i < all.len() && all[i] == x;
                if i < prev.len() {
                    assert(prev[i] == x);
                    let j = choose|j: int|
                        0 <= j < less.len() && (#[trigger] less[j] matches Event::Arrival {
                            index,
                            ..
                        } && index == x);
                    assert(events[j] == less[j]);
                    assert(has_arrived(events, x as int));
                } else {
                    assert(has_arrived(events, x as int));
                }
            }
            if x < n && has_arrived(events, x as int) {
                let j = choose|j: int|
                    0 <= j < events.len() && (#[trigger] events[j] matches Event::Arrival {
                        index,
                        ..
                    } && index == x);
                if j < less.len() {
                    assert(less[j] == events[j]);
                    assert(prev.contains(x));
                    let i = choose|i: int| 0 <= i < prev.len() && prev[i] == x;
                    assert(all[i] == x);
                } else {
                    assert(all[all.len() - 1] == x);
                }
            }
        }
        assert forall|i: int| 0 <= i < all.len() implies #[trigger] all[i] < n by {
            if i < prev.len() {
                assert(all[i] == prev[i]);
            }
        }
    }
}

proof fn lemma_small_numbers_are_near(a: u32, b: u32, n: nat)
    requires
        n <= 0x40_0000,
        a < n,
        b < n,
    ensures
        window::is_near(a, b, (n - 1) as nat, (n - 1) as nat),
{
    reveal(window::is_near);
}

/// Numbers below `n` lie round any one of them.
proof fn lemma_small_numbers_span(list: Seq<u32>, n: nat)
    requires
        list.len() > 0,
        n <= 0x40_0000,
        forall|i: int| 0 <= i < list.len() ==> #[trigger] list[i] < n,
    ensures
        window::spans(list, (n - 1) as nat, (n - 1) as nat),
{
    assert(list[0] < n);
    assert forall|i: int| 0 <= i < list.len() implies window::is_near(
        list[0],
        #[trigger] list[i],
        (n - 1) as nat,
        (n - 1) as nat,
    ) by {
        assert(list[i] < n);
        lemma_small_numbers_are_near(list[0], list[i], n);
    }
}

proof fn lemma_numbers_of_small(list: Seq<u32>, n: nat, x: u32)
    requires
        n <= SEQ_COUNT,
        x < n,
        forall|i: int| 0 <= i < list.len() ==> #[trigger] list[i] < n,
    ensures
        window::numbers_of(list).contains(x) <==> list.contains(x),
{
    let all = list.map_values(|y: u32| window::seq_plus(y, 0));
    assert forall|i: int| 0 <= i < list.len() implies #[trigger] all[i] == list[i] by {
        assert(list[i] < n);
    }
    assert(all =~= list);
}

/// The receiver holds what arrived: all frames before the `k`-th were given, and of the others
/// those that arrived wait under their order index.
#[verifier::opaque]
spec fn holds(e: EngineView, given: Seq<FrameView>, frames: Seq<FrameView>, list: Seq<u32>) -> bool {
    let k = given.len();
    &&& k <= frames.len()
    &&& given == frames.take(k as int)
    &&& e.window == window::recorded(list)
    &&& e.reassemblers == Map::<u16, (datagram::ReassemblerView, FrameView)>::empty()
    &&& e.next_delivery == k
    &&& e.order_queue.dom().finite()
    &&& forall|x: u32| x < k ==> #[trigger] list.contains(x)
    &&& forall|x: u32| #[trigger]
        e.order_queue.dom().contains(x) <==> k <= x < frames.len() && list.contains(x)
    &&& forall|x: u32| #[trigger]
        e.order_queue.dom().contains(x) ==> e.order_queue[x] == frames[x as int]
}

/// What draining gives where the queue holds frames under their place in the order of sending.
proof fn lemma_drain(queue: Map<u32, FrameView>, frames: Seq<FrameView>, k: u32)
    requires
        queue.dom().finite(),
        k <= frames.len() < SEQ_COUNT,
        forall|x: u32| #[trigger]
            queue.dom().contains(x) ==> k <= x < frames.len() && queue[x] == frames[x as int],
    ensures
        ({
            let (rest, turn, out) = reliability::drain(queue, k);
            &&& turn == k + out.len()
            &&& turn <= frames.len()
            &&& out == frames.subrange(k as int, turn as int)
            &&& rest.dom().finite()
            &&& !rest.dom().contains(turn)
            &&& forall|x: u32| k <= x < turn ==> #[trigger] queue.dom().contains(x)
            &&& forall|x: u32| #[trigger]
                rest.dom().contains(x) <==> queue.dom().contains(x) && x >= turn
            &&& forall|x: u32| #[trigger] rest.dom().contains(x) ==> rest[x] == queue[x]
        }),
    decreases queue.dom().len(),
{
    if queue.dom().contains(k) {
        let less = queue.remove(k);
        let next = (k + 1) as u32;
        assert(less.dom() =~= queue.dom().remove(k));
        assert(window::seq_plus(k, 1) == next);
        lemma_drain(less, frames, next);
        let (rest, turn, out) = reliability::drain(queue, k);
        let tail = reliability::drain(less, next).2;
        assert(out =~= frames.subrange(k as int, turn as int));
        assert forall|x: u32| k <= x < turn implies #[trigger] queue.dom().contains(x) by {
            if x > k {
                assert(less.dom().contains(x));
            }
        }
        assert forall|x: u32| #[trigger]
            rest.dom().contains(x) <==> queue.dom().contains(x) && x >= turn by {
            assert(less.dom().contains(x) <==> queue.dom().contains(x) && x != k);
        }
    } else {
        assert(reliability::drain(queue, k).2 =~= frames.subrange(k as int, k as int));
    }
}

proof fn lemma_drained(
    e: EngineView,
    given: Seq<FrameView>,
    frames: Seq<FrameView>,
    list: Seq<u32>,
)
    requires
        holds(e, given, frames, list),
        frames.len() < SEQ_COUNT,
    ensures
        ({
            let (queue, turn, out) = reliability::drain(e.order_queue, e.next_delivery);
            &&& holds(
                EngineView { order_queue: queue, next_delivery: turn, ..e },
                given + out,
                frames,
                list,
            )
            &&& !queue.dom().contains(turn)
            &&& turn < frames.len() ==> !list.contains(turn)
        }),
{
    reveal(holds);
    lemma_drain(e.order_queue, frames, e.next_delivery);
    let (queue, turn, out) = reliability::drain(e.order_queue, e.next_delivery);
    assert(given + out =~= frames.take(turn as int));
    assert forall|x: u32| x < turn implies #[trigger] list.contains(x) by {
        if x >= given.len() {
            assert(e.order_queue.dom().contains(x));
        }
    }
    if turn < frames.len() && list.contains(turn) {
        assert(e.order_queue.dom().contains(turn));
    }
}

/// The arrival of a packet, the first time or again.
proof fn lemma_arrived(
    sender: EngineView,
    r: Reliability,
    bodies: Seq<Seq<u8>>,
    m: nat,
    at: Seq<u64>,
    packets: Seq<Seq<u8>>,
    start: u64,
    e: EngineView,
    given: Seq<FrameView>,
    list: Seq<u32>,
    index: int,
    now: u64,
)
    requires
        sender == reliability::new_engine(start),
        r.ordered(),
        bodies.len() <= 0x40_0000,
        are_packets_of(packets, sender, r, bodies, m, at),
        0 <= index < bodies.len(),
        forall|i: int| 0 <= i < list.len() ==> #[trigger] list[i] < bodies.len(),
        holds(e, given, frames_of(sender, r, bodies, m, at), list),
    ensures
        arrival(e, packets[index], now).1 == Seq::<FrameView>::empty(),
        holds(
            arrival(e, packets[index], now).0,
            given,
            frames_of(sender, r, bodies, m, at),
            list.push(index as u32),
        ),
{
    let frames = frames_of(sender, r, bodies, m, at);
    let n = bodies.len();
    let x = index as u32;
    let more = list.push(x);
    let s = sent(sender, r, bodies.take(index), m, at);
    lemma_sender(sender, r, bodies, m, at, packets, start, index as nat);
    assert(packet_of(sender, r, bodies, m, at, index) == Ok::<Seq<u8>, Seq<char>>(
        packets[index],
    ));
    delivery::lemma_packet_is_datagram(s, r, bodies[index], m, at[index]);
    assert forall|i: int| 0 <= i < more.len() implies #[trigger] more[i] < n by {
        if i < list.len() {
            assert(more[i] == list[i]);
        }
    }
    lemma_small_numbers_span(more, n);
    window::law_new_exactly_once(list, x, (n - 1) as nat, (n - 1) as nat);
    lemma_numbers_of_small(list, n, x);
    assert(window::seq_plus(x, 0) == x);
    assert(more.drop_last() =~= list);
    assert forall|y: u32| #[trigger] more.contains(y) <==> list.contains(y) || y == x by {
        if more.contains(y) {
            let i = choose|i: int| 0 <= i < more.len() && more[i] == y;
            if i < list.len() {
                assert(list[i] == y);
            }
        }
        if list.contains(y) {
            let i = choose|i: int| 0 <= i < list.len() && list[i] == y;
            assert(more[i] == y);
        }
        assert(more[more.len() - 1] == x);
    }
    let f = frame_of(sender, r, bodies, m, at, index);
    assert(frames[index] == f);
    assert(window::recorded(more) == window::record_step(window::recorded(list), x).0);
    reveal(holds);
    if list.contains(x) {
        assert(arrival(e, packets[index], now).0.order_queue == e.order_queue);
    } else {
        delivery::law_sent_payload_is_received(s, e, r, bodies[index], m, at[index], now);
        let next = arrival(e, packets[index], now).0;
        assert(next.order_queue == e.order_queue.insert(x, f));
        assert(next.order_queue.dom() =~= e.order_queue.dom().insert(x));
    }
}

proof fn lemma_received(
    sender: EngineView,
    r: Reliability,
    bodies: Seq<Seq<u8>>,
    m: nat,
    at: Seq<u64>,
    packets: Seq<Seq<u8>>,
    start: u64,
    receiver: EngineView,
    opened: u64,
    events: Seq<Event>,
)
    requires
        sender == reliability::new_engine(start),
        receiver == reliability::new_engine(opened),
        r.ordered(),
        bodies.len() <= 0x40_0000,
        are_packets_of(packets, sender, r, bodies, m, at),
        only_sent(events, bodies.len()),
    ensures
        ({
            let (e, given) = received(receiver, packets, events);
            holds(e, given, frames_of(sender, r, bodies, m, at), arrivals(events))
        }),
        (forall|j: int| 0 <= j < events.len() ==> #[trigger] events[j] is Arrival) ==> received(
            receiver,
            packets,
            events,
        ).1 == Seq::<FrameView>::empty(),
    decreases events.len(),
{
    let frames = frames_of(sender, r, bodies, m, at);
    if events.len() == 0 {
        reveal(holds);
        assert(frames.take(0) =~= Seq::<FrameView>::empty());
    } else {
        let less = events.drop_last();
        assert forall|j: int| 0 <= j < less.len() implies (#[trigger] less[j] matches
            Event::Arrival { index, .. } ==> 0 <= index < bodies.len()) by {
            assert(less[j] == events[j]);
        }
        lemma_received(sender, r, bodies, m, at, packets, start, receiver, opened, less);
        lemma_arrivals(less, bodies.len());
        let (before, given) = received(receiver, packets, less);
        let last = events[events.len() - 1];
        match last {
            Event::Arrival { index, at: now } => {
                lemma_arrived(
                    sender,
                    r,
                    bodies,
                    m,
                    at,
                    packets,
                    start,
                    before,
                    given,
                    arrivals(less),
                    index,
                    now,
                );
                assert(given + Seq::<FrameView>::empty() =~= given);
            },
            Event::Drain => {
                lemma_drained(before, given, frames, arrivals(less));
            },
        }
        if forall|j: int| 0 <= j < events.len() ==> #[trigger] events[j] is Arrival {
            assert forall|j: int| 0 <= j < less.len() implies #[trigger] less[j] is Arrival by {
                assert(less[j] == events[j]);
            }
            assert(last is Arrival);
        }
    }
}

/// Ordered payloads come out complete and in order. One engine sends payloads, and another takes
/// in their packets in any order, any of them any number of times, and is drained at any time.
///
/// At every moment it has given the frames of the first payloads, in the order of sending, and
/// nothing else; before the first drain it has given none. Once every packet has arrived, draining
/// gives all the frames that are left, and nothing is left to drain then. The frame of a payload
/// holds its body, whole, under its place in the order.
pub proof fn law_ordered_payloads_arrive_in_order(
    start: u64,
    r: Reliability,
    bodies: Seq<Seq<u8>>,
    max_body_bytes: nat,
    at: Seq<u64>,
    packets: Seq<Seq<u8>>,
    opened: u64,
    events: Seq<Event>,
)
    requires
        r.ordered(),
        bodies.len() <= 0x40_0000,
        are_packets_of(
            packets,
            reliability::new_engine(start),
            r,
            bodies,
            max_body_bytes,
            at,
        ),
        only_sent(events, bodies.len()),
    ensures
        ({
            let frames = frames_of(
                reliability::new_engine(start),
                r,
                bodies,
                max_body_bytes,
                at,
            );
            let (e, given) = received(reliability::new_engine(opened), packets, events);
            let (queue, turn, out) = reliability::drain(e.order_queue, e.next_delivery);
            &&& frames.len() == bodies.len()
            &&& forall|i: int|
                0 <= i < frames.len() ==> (#[trigger] frames[i]).body == bodies[i]
                    && frames[i].order_index == Some(i as u32) && frames[i].split is None
                    && frames[i].reliability == r
            &&& given.len() <= frames.len()
            &&& given == frames.take(given.len() as int)
            &&& (forall|j: int| 0 <= j < events.len() ==> #[trigger] events[j] is Arrival)
                ==> given.len() == 0
            &&& (forall|i: int| 0 <= i < bodies.len() ==> #[trigger] has_arrived(events, i))
                ==> given + out == frames && reliability::drain(queue, turn).2.len() == 0
        }),
{
    let sender = reliability::new_engine(start);
    let receiver = reliability::new_engine(opened);
    let frames = frames_of(sender, r, bodies, max_body_bytes, at);
    assert forall|i: int| 0 <= i < frames.len() implies (#[trigger] frames[i]).body == bodies[i]
        && frames[i].order_index == Some(i as u32) && frames[i].split is None
        && frames[i].reliability == r by {
        lemma_sender(sender, r, bodies, max_body_bytes, at, packets, start, i as nat);
    }
    lemma_received(
        sender,
        r,
        bodies,
        max_body_bytes,
        at,
        packets,
        start,
        receiver,
        opened,
        events,
    );
    lemma_arrivals(events, bodies.len());
    let (e, given) = received(receiver, packets, events);
    let (queue, turn, out) = reliability::drain(e.order_queue, e.next_delivery);
    lemma_drained(e, given, frames, arrivals(events));
    reveal(holds);
    if forall|i: int| 0 <= i < bodies.len() ==> #[trigger] has_arrived(events, i) {
        if turn < frames.len() {
            assert(has_arrived(events, turn as int));
            assert(arrivals(events).contains(turn));
        }
        assert(given + out =~= frames);
    }
}

} // verus!
