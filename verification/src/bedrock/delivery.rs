//! What two engines guarantee together: payloads arrive as they were sent, ordered payloads
//! arrive in order, and acknowledgements speak of exactly the datagrams they are about.
use vstd::prelude::*;

use super::datagram;
use super::datagram::{AckRange, DatagramView, FrameView, IncomingView, Reliability};
use super::reliability;
use super::reliability::{EngineView, RecordView};
use super::window;
use super::window::SEQ_COUNT;

verus! {

broadcast use datagram::lemma_ack_range_fields;

// ==================== Delivery ====================

/// The packet of a payload, received for the first time by an engine without a reassembly under
/// the same split ID, gives the payload as it was sent: the packet is a datagram under the sender's next number, and
/// its frame is routed, whole, with the indices that the sender gave it.
pub proof fn law_sent_payload_is_received(
    sender: EngineView,
    receiver: EngineView,
    r: Reliability,
    body: Seq<u8>,
    max_body_bytes: nat,
    sent_at: u64,
    received_at: u64,
)
    requires
        sender.wf(),
        reliability::send_step(sender, r, body, max_body_bytes, sent_at).1 is Ok,
        reliability::is_new(receiver, sender.next_datagram_seq),
        !receiver.reassemblers.dom().contains(
            reliability::split_id_of(sender.next_datagram_seq),
        ),
    ensures
        ({
            let packet = reliability::send_step(sender, r, body, max_body_bytes, sent_at).1->Ok_0;
            let f = reliability::template_of(sender, r, body);
            let base = reliability::number_received(
                receiver,
                sender.next_datagram_seq,
                received_at,
            );
            let (next, out) = reliability::route(base, Seq::empty(), f);
            &&& datagram::incoming_of(packet) matches Ok(IncomingView::Datagram(d))
            &&& d.sequence_number == sender.next_datagram_seq
            &&& reliability::receive_step(receiver, d, received_at) == (
                next,
                Ok::<Seq<FrameView>, Seq<char>>(out),
            )
        }),
{
    let f = reliability::template_of(sender, r, body);
    let seq = sender.next_datagram_seq;
    let id = reliability::split_id_of(seq);
    let frames = datagram::split_frames(f, max_body_bytes, id)->Ok_0;
    lemma_packet_is_datagram(sender, r, body, max_body_bytes, sent_at);
    let base = reliability::number_received(receiver, seq, received_at);
    if body.len() <= max_body_bytes {
        assert(frames.drop_last() == Seq::<FrameView>::empty());
        assert(frames.last() == f);
        reveal_with_fuel(reliability::receive_frames, 2);
    } else {
        lemma_split_received(base, f, max_body_bytes, id);
    }
}

/// The packet of a payload is a datagram under the sender's next number.
pub proof fn lemma_packet_is_datagram(
    sender: EngineView,
    r: Reliability,
    body: Seq<u8>,
    max_body_bytes: nat,
    sent_at: u64,
)
    requires
        sender.wf(),
        reliability::send_step(sender, r, body, max_body_bytes, sent_at).1 is Ok,
    ensures
        ({
            let packet = reliability::send_step(sender, r, body, max_body_bytes, sent_at).1->Ok_0;
            let f = reliability::template_of(sender, r, body);
            let seq = sender.next_datagram_seq;
            datagram::incoming_of(packet) == Ok::<IncomingView, Seq<char>>(
                IncomingView::Datagram(
                    DatagramView {
                        sequence_number: seq,
                        frames: datagram::split_frames(
                            f,
                            max_body_bytes,
                            reliability::split_id_of(seq),
                        )->Ok_0,
                    },
                ),
            )
        }),
{
    let f = reliability::template_of(sender, r, body);
    let seq = sender.next_datagram_seq;
    let id = reliability::split_id_of(seq);
    let frames = datagram::split_frames(f, max_body_bytes, id)->Ok_0;
    let d = DatagramView { sequence_number: seq, frames };
    assert forall|i: int| 0 <= i < frames.len() implies datagram::frame_valid(
        #[trigger] frames[i],
    ) by {
        if body.len() > max_body_bytes {
            assert(frames[i] == datagram::fragment(f, max_body_bytes, id, i as nat));
        }
    }
    datagram::law_classify_datagram(d);
}

proof fn lemma_split_received(base: EngineView, f: FrameView, m: nat, id: u16)
    requires
        datagram::is_split(f, m),
        f.split is None,
        !base.reassemblers.dom().contains(id),
    ensures
        ({
            let (next, out) = reliability::route(base, Seq::empty(), f);
            reliability::receive_frames(base, datagram::fragments_of(f, m, id)) == (
                next,
                Ok::<Seq<FrameView>, Seq<char>>(out),
            )
        }),
{
    let parts = datagram::fragments_of(f, m, id);
    let count = parts.len();
    let order = Seq::new(count, |i: int| i);
    datagram::law_split_then_reassemble(f, m, id, order);
    datagram::law_fragments_fit(f, m, id);
    let last = (count - 1) as nat;
    lemma_fragments_buffered(base, f, m, id, last);
    assert(parts.take(last as int) == parts.drop_last());
    assert(order.take(last as int) == order.drop_last());
    assert(order.take(last as int) == Seq::new(last, |i: int| i));
    assert(parts.last() == datagram::fragment(f, m, id, last));
    let (state, _) = datagram::arrive(parts, order.take(last as int))->Ok_0;
    let header = FrameView { split: None, body: Seq::empty(), ..f };
    let before = reliability::receive_frames(base, parts.drop_last()).0;
    if last == 0 {
        assert(before == base);
        assert(FrameView { split: None, body: Seq::empty(), ..parts.last() } == header);
        assert(reliability::reassembly_of(before, parts.last()) == (
            datagram::no_fragments(),
            header,
        ));
    } else {
        assert(reliability::reassembly_of(before, parts.last()) == (state, header));
    }
    assert(datagram::add_fragment(state, parts.last().split->0, parts.last().body)
        == datagram::arrive(parts, order));
    assert(before.reassemblers.remove(id) =~= base.reassemblers);
    assert(FrameView { split: None, body: f.body, ..header } == f);
}

/// After fewer than all fragments, the engine holds them under their split ID.
proof fn lemma_fragments_buffered(base: EngineView, f: FrameView, m: nat, id: u16, n: nat)
    requires
        datagram::is_split(f, m),
        f.split is None,
        !base.reassemblers.dom().contains(id),
        n < datagram::fragments_of(f, m, id).len(),
    ensures
        ({
            let parts = datagram::fragments_of(f, m, id);
            let order = Seq::new(n, |i: int| i);
            let header = FrameView { split: None, body: Seq::empty(), ..f };
            let state = datagram::arrive(parts, order)->Ok_0.0;
            reliability::receive_frames(base, parts.take(n as int)) == (
                if n == 0 {
                    base
                } else {
                    EngineView {
                        reassemblers: base.reassemblers.insert(id, (state, header)),
                        ..base
                    }
                },
                Ok::<Seq<FrameView>, Seq<char>>(Seq::empty()),
            )
        }),
    decreases n,
{
    let parts = datagram::fragments_of(f, m, id);
    let count = parts.len();
    let full = Seq::new(count, |i: int| i);
    let order = Seq::new(n, |i: int| i);
    let header = FrameView { split: None, body: Seq::empty(), ..f };
    if n == 0 {
        assert(parts.take(0) == Seq::<FrameView>::empty());
    } else {
        let k = (n - 1) as nat;
        let prev = Seq::new(k, |i: int| i);
        lemma_fragments_buffered(base, f, m, id, k);
        datagram::law_split_then_reassemble(f, m, id, full);
        datagram::law_fragments_fit(f, m, id);
        assert(full.take(n as int) == order);
        assert(full.take(k as int) == prev);
        assert(order.drop_last() == prev);
        assert(parts.take(n as int).drop_last() == parts.take(k as int));
        assert(parts.take(n as int).last() == parts[k as int]);
        assert(parts[k as int] == datagram::fragment(f, m, id, k));
        let before = reliability::receive_frames(base, parts.take(k as int)).0;
        let state = datagram::arrive(parts, prev)->Ok_0.0;
        if k == 0 {
            assert(before == base);
            assert(prev == Seq::<int>::empty());
            assert(FrameView { split: None, body: Seq::empty(), ..parts[k as int] } == header);
        }
        assert(reliability::reassembly_of(before, parts[k as int]) == (state, header));
        let more = datagram::arrive(parts, order)->Ok_0.0;
        assert(before.reassemblers.remove(id).insert(id, (more, header))
            =~= base.reassemblers.insert(id, (more, header)));
    }
}

/// Frames touch nothing but the ordered queue and the reassemblies.
proof fn lemma_frames_touch(e: EngineView, frames: Seq<FrameView>)
    ensures
        reliability::receive_frames(e, frames).0 == (EngineView {
            order_queue: reliability::receive_frames(e, frames).0.order_queue,
            reassemblers: reliability::receive_frames(e, frames).0.reassemblers,
            ..e
        }),
    decreases frames.len(),
{
    if frames.len() > 0 {
        lemma_frames_touch(e, frames.drop_last());
    }
}

/// A datagram counts as received now, whatever becomes of its frames.
pub proof fn lemma_received_now(e: EngineView, d: DatagramView, now: u64)
    ensures
        reliability::receive_step(e, d, now).0.last_recv == now,
{
    lemma_frames_touch(reliability::number_received(e, d.sequence_number, now), d.frames);
}

/// A duplicate is ignored: a datagram under a number that was just received gives no frames,
/// whatever it holds, and changes nothing but the moment of the last packet. This holds while
/// fewer than half of all numbers are buffered out of order.
pub proof fn law_duplicate_is_ignored(
    e: EngineView,
    d: DatagramView,
    again: DatagramView,
    now: u64,
    later: u64,
)
    requires
        e.wf(),
        e.window.received.len() < window::SEQ_HALF - 1,
        again.sequence_number == d.sequence_number,
    ensures
        ({
            let first = reliability::receive_step(e, d, now).0;
            reliability::receive_step(first, again, later) == (
                EngineView { last_recv: later, ..first },
                Ok::<Seq<FrameView>, Seq<char>>(Seq::empty()),
            )
        }),
{
    let base = reliability::number_received(e, d.sequence_number, now);
    lemma_frames_touch(base, d.frames);
    window::law_recorded_number_is_not_new_again(e.window, d.sequence_number);
}

/// Every packet keeps a session alive, a datagram, an ACK and a NACK alike, whatever it holds: for
/// ten seconds and two round trips from its arrival on, and no longer.
pub proof fn law_every_packet_keeps_alive(
    e: EngineView,
    d: DatagramView,
    ranges: Seq<AckRange>,
    now: u64,
    later: u64,
)
    ensures
        ({
            let after_datagram = reliability::receive_step(e, d, now).0;
            let after_ack = reliability::ack_step(e, ranges, now);
            let after_nack = reliability::nack_step(e, ranges, now).0;
            let silence = reliability::elapsed(later, now);
            let window = reliability::INACTIVITY_BASE;
            &&& reliability::alive_at(after_datagram, later) <==> silence < window + e.rtt * 2
            &&& reliability::alive_at(after_ack, later) <==> silence < window + after_ack.rtt * 2
            &&& reliability::alive_at(after_nack, later) <==> silence < window + e.rtt * 2
        }),
{
    let base = reliability::number_received(e, d.sequence_number, now);
    lemma_frames_touch(base, d.frames);
    law_ack_forgets_what_it_covers(e, ranges, now);
}

/// Frames come out of the ordered queue one order index after the other, beginning with the one
/// whose turn it is, and stop at the first that has not arrived.
pub proof fn law_drained_in_order(queue: Map<u32, FrameView>, next: u32)
    requires
        queue.dom().finite(),
        next < SEQ_COUNT,
        forall|k: u32| #[trigger]
            queue.dom().contains(k) ==> queue[k].order_index == Some(k),
    ensures
        ({
            let (rest, turn, frames) = reliability::drain(queue, next);
            &&& turn == window::seq_plus(next, frames.len() as int)
            &&& !rest.dom().contains(turn)
            &&& forall|i: int|
                0 <= i < frames.len() ==> (#[trigger] frames[i]).order_index == Some(
                    window::seq_plus(next, i),
                )
            &&& forall|k: u32| #[trigger]
                rest.dom().contains(k) ==> queue.dom().contains(k) && rest[k] == queue[k]
        }),
    decreases queue.dom().len(),
{
    if queue.dom().contains(next) {
        let less = queue.remove(next);
        assert(less.dom() =~= queue.dom().remove(next));
        law_drained_in_order(less, window::seq_plus(next, 1));
        let (rest, turn, frames) = reliability::drain(queue, next);
        let (_, _, tail) = reliability::drain(less, window::seq_plus(next, 1));
        window::lemma_seq_plus(next, 1, tail.len() as int);
        assert forall|i: int| 0 <= i < frames.len() implies (#[trigger] frames[i]).order_index
            == Some(window::seq_plus(next, i)) by {
            if i > 0 {
                assert(frames[i] == tail[i - 1]);
                window::lemma_seq_plus(next, 1, i - 1);
            }
        }
    }
}

// ==================== Acknowledgements ====================

/// A number lies in one of the ranges.
pub open spec fn is_covered(ranges: Seq<AckRange>, seq: u32) -> bool {
    exists|i: int|
        0 <= i < ranges.len() && (#[trigger] reliability::covered(ranges[i])).contains(seq)
}

proof fn lemma_ack_numbers(e: EngineView, seqs: Seq<u32>, now: u64)
    ensures
        forall|x: u32| #[trigger]
            reliability::ack_numbers(e, seqs, now).unacked.dom().contains(x)
                <==> e.unacked.dom().contains(x) && !seqs.contains(x),
        forall|x: u32| #[trigger]
            reliability::ack_numbers(e, seqs, now).unacked.dom().contains(x)
                ==> reliability::ack_numbers(e, seqs, now).unacked[x] == e.unacked[x],
        reliability::ack_numbers(e, seqs, now) == (EngineView {
            unacked: reliability::ack_numbers(e, seqs, now).unacked,
            rtt: reliability::ack_numbers(e, seqs, now).rtt,
            ..e
        }),
    decreases seqs.len(),
{
    if seqs.len() > 0 {
        let prev = seqs.drop_last();
        lemma_ack_numbers(e, prev, now);
        assert forall|x: u32| #[trigger]
            reliability::ack_numbers(e, seqs, now).unacked.dom().contains(x)
            <==> e.unacked.dom().contains(x) && !seqs.contains(x) by {
            assert(seqs.contains(x) <==> prev.contains(x) || x == seqs.last()) by {
                if seqs.contains(x) {
                    let i = choose|i: int| 0 <= i < seqs.len() && seqs[i] == x;
                    if i < prev.len() {
                        assert(prev[i] == x);
                    }
                }
                if prev.contains(x) {
                    let i = choose|i: int| 0 <= i < prev.len() && prev[i] == x;
                    assert(seqs[i] == x);
                }
                assert(seqs[seqs.len() - 1] == seqs.last());
            }
        }
    }
}

proof fn lemma_ack_ranges(e: EngineView, ranges: Seq<AckRange>, now: u64)
    ensures
        forall|x: u32| #[trigger]
            reliability::ack_ranges(e, ranges, now).unacked.dom().contains(x)
                <==> e.unacked.dom().contains(x) && !is_covered(ranges, x),
        forall|x: u32| #[trigger]
            reliability::ack_ranges(e, ranges, now).unacked.dom().contains(x)
                ==> reliability::ack_ranges(e, ranges, now).unacked[x] == e.unacked[x],
        reliability::ack_ranges(e, ranges, now) == (EngineView {
            unacked: reliability::ack_ranges(e, ranges, now).unacked,
            rtt: reliability::ack_ranges(e, ranges, now).rtt,
            ..e
        }),
    decreases ranges.len(),
{
    if ranges.len() > 0 {
        let prev = ranges.drop_last();
        lemma_ack_ranges(e, prev, now);
        let mid = reliability::ack_ranges(e, prev, now);
        lemma_ack_numbers(mid, reliability::covered(ranges.last()), now);
        assert forall|x: u32| #[trigger]
            reliability::ack_ranges(e, ranges, now).unacked.dom().contains(x)
            <==> e.unacked.dom().contains(x) && !is_covered(ranges, x) by {
            assert(mid.unacked.dom().contains(x) <==> e.unacked.dom().contains(x)
                && !is_covered(prev, x));
            assert(is_covered(ranges, x) <==> is_covered(prev, x) || reliability::covered(
                ranges.last(),
            ).contains(x)) by {
                if is_covered(ranges, x) {
                    let i = choose|i: int|
                        0 <= i < ranges.len() && (#[trigger] reliability::covered(
                            ranges[i],
                        )).contains(x);
                    if i < prev.len() {
                        assert(reliability::covered(prev[i]).contains(x));
                    }
                }
                if is_covered(prev, x) {
                    let i = choose|i: int|
                        0 <= i < prev.len() && (#[trigger] reliability::covered(
                            prev[i],
                        )).contains(x);
                    assert(reliability::covered(ranges[i]).contains(x));
                }
                if reliability::covered(ranges.last()).contains(x) {
                    assert(reliability::covered(ranges[ranges.len() - 1]).contains(x));
                }
            }
        }
    } else {
        assert forall|x: u32| !is_covered(ranges, x) by {}
    }
}

/// An ACK makes the engine forget exactly the datagrams that its ranges cover, counts as a packet
/// received now, and changes nothing else but the round-trip estimate.
pub proof fn law_ack_forgets_what_it_covers(e: EngineView, ranges: Seq<AckRange>, now: u64)
    ensures
        forall|x: u32| #[trigger]
            reliability::ack_step(e, ranges, now).unacked.dom().contains(x)
                <==> e.unacked.dom().contains(x) && !is_covered(ranges, x),
        forall|x: u32| #[trigger]
            reliability::ack_step(e, ranges, now).unacked.dom().contains(x)
                ==> reliability::ack_step(e, ranges, now).unacked[x] == e.unacked[x],
        reliability::ack_step(e, ranges, now) == (EngineView {
            unacked: reliability::ack_step(e, ranges, now).unacked,
            rtt: reliability::ack_step(e, ranges, now).rtt,
            last_recv: now,
            ..e
        }),
{
    lemma_ack_ranges(EngineView { last_recv: now, ..e }, ranges, now);
}

/// The numbers of the entry for a span of up to all 24-bit numbers are those of the span.
proof fn lemma_entry_covers(start: u32, n: int, x: u32)
    requires
        start < SEQ_COUNT,
        0 <= n < SEQ_COUNT,
    ensures
        reliability::covered(window::entry(start, window::seq_plus(start, n))).contains(x)
            <==> exists|k: int| 0 <= k <= n && x == #[trigger] window::seq_plus(start, k),
{
    let end = window::seq_plus(start, n);
    let r = window::entry(start, end);
    let nums = reliability::covered(r);
    assert(n == 0 <==> start == end);
    assert(nums.len() == n + 1);
    assert forall|k: int| 0 <= k <= n implies #[trigger] nums[k] == window::seq_plus(start, k) by {
        if k == 0 {
            assert(window::seq_plus(start, 0) == start);
        }
    }
    if nums.contains(x) {
        let k = choose|k: int| 0 <= k < nums.len() && nums[k] == x;
        assert(x == window::seq_plus(start, k));
    }
    if exists|k: int| 0 <= k <= n && x == #[trigger] window::seq_plus(start, k) {
        let k = choose|k: int| 0 <= k <= n && x == #[trigger] window::seq_plus(start, k);
        assert(nums[k] == x);
    }
}

/// The ACK that an engine gives covers exactly the numbers that it received since the last one.
pub proof fn law_ack_covers_what_was_received(e: EngineView)
    requires
        e.wf(),
        !e.pending_acks.is_empty(),
    ensures
        reliability::ack_due(e) matches Some(a) && a.is_ack && forall|x: u32| #[trigger]
            is_covered(a.ranges, x) <==> e.pending_acks.contains(x),
{
    let seqs = window::ascending(e.pending_acks);
    window::lemma_ascending_members(e.pending_acks);
    window::law_runs_cover_the_list(seqs);
    let runs = window::runs_of(seqs);
    let ranges = window::entries(runs);
    assert forall|x: u32| #[trigger] is_covered(ranges, x) <==> e.pending_acks.contains(x) by {
        assert(window::in_runs(runs, x) <==> seqs.contains(x));
        assert forall|i: int| 0 <= i < runs.len() implies (#[trigger] reliability::covered(
            ranges[i],
        ).contains(x) <==> runs[i].0 <= x <= runs[i].1) by {
            let (a, b) = runs[i];
            assert(window::in_runs(runs, b));
            assert(seqs.contains(b));
            assert(b < SEQ_COUNT);
            assert(window::seq_plus(a, b - a) == b);
            lemma_entry_covers(a, b - a, x);
            if a <= x <= b {
                assert(x == window::seq_plus(a, x - a));
            }
        }
        if is_covered(ranges, x) {
            let i = choose|i: int|
                0 <= i < ranges.len() && (#[trigger] reliability::covered(ranges[i])).contains(x);
            assert(runs[i].0 <= x <= runs[i].1);
        }
        if e.pending_acks.contains(x) {
            assert(window::in_runs(runs, x));
            let i = choose|i: int| 0 <= i < runs.len() && (#[trigger] runs[i]).0 <= x <= runs[i].1;
            assert(reliability::covered(ranges[i]).contains(x));
        }
    }
}

/// The NACK that an engine gives covers exactly the numbers from the first one missing to the
/// highest one seen that were not received.
pub proof fn law_nack_covers_what_is_missing(e: EngineView)
    requires
        e.wf(),
        e.window.started,
        !e.window.received.is_empty(),
    ensures
        reliability::nack_due(e) matches Some(a) && !a.is_ack && forall|x: u32| #[trigger]
            is_covered(a.ranges, x) <==> x < SEQ_COUNT && !e.window.received.contains(x)
                && window::distance(e.window.low, x) <= window::distance(
                e.window.low,
                e.window.high,
            ),
{
    let w = e.window;
    let span = window::distance(w.low, w.high);
    let n = (span + 1) as nat;
    window::law_gaps_cover_the_absent(w.low, w.received, n);
    let runs = window::gaps(w.low, w.received, n);
    let ranges = window::gap_entries(w.low, runs);
    assert(window::absent(w.low, w.received, 0)) by {
        assert(window::seq_plus(w.low, 0) == w.low);
    }
    assert(window::in_gaps(runs, 0));
    assert(ranges.len() > 0);
    assert forall|x: u32| #[trigger] is_covered(ranges, x) <==> x < SEQ_COUNT
        && !w.received.contains(x) && window::distance(w.low, x) <= span by {
        assert forall|i: int| 0 <= i < runs.len() implies (#[trigger] reliability::covered(
            ranges[i],
        ).contains(x) <==> x < SEQ_COUNT && runs[i].0 <= window::distance(w.low, x)
            <= runs[i].1) by {
            lemma_gap_entry_covers(w.low, runs[i].0, runs[i].1, x);
        }
        if is_covered(ranges, x) {
            let i = choose|i: int|
                0 <= i < ranges.len() && (#[trigger] reliability::covered(ranges[i])).contains(x);
            let k = window::distance(w.low, x) as int;
            assert(window::in_gaps(runs, k));
            window::law_distance(w.low, x);
        }
        if x < SEQ_COUNT && !w.received.contains(x) && window::distance(w.low, x) <= span {
            let k = window::distance(w.low, x) as int;
            window::law_distance(w.low, x);
            assert(window::absent(w.low, w.received, k));
            assert(window::in_gaps(runs, k));
            let i = choose|i: int| 0 <= i < runs.len() && (#[trigger] runs[i]).0 <= k <= runs[i].1;
            assert(reliability::covered(ranges[i]).contains(x));
        }
    }
}

proof fn lemma_gap_entry_covers(low: u32, a: int, b: int, x: u32)
    requires
        low < SEQ_COUNT,
        0 <= a <= b < SEQ_COUNT,
    ensures
        reliability::covered(
            window::entry(window::seq_plus(low, a), window::seq_plus(low, b)),
        ).contains(x) <==> x < SEQ_COUNT && a <= window::distance(low, x) <= b,
{
    let start = window::seq_plus(low, a);
    window::lemma_seq_plus(low, a, b - a);
    lemma_entry_covers(start, b - a, x);
    let in_entry = exists|k: int| 0 <= k <= b - a && x == #[trigger] window::seq_plus(start, k);
    let in_span = x < SEQ_COUNT && a <= window::distance(low, x) <= b;
    assert(in_entry ==> in_span) by {
        if in_entry {
            let k = choose|k: int| 0 <= k <= b - a && x == #[trigger] window::seq_plus(start, k);
            window::lemma_seq_plus(low, a, k);
            window::lemma_distance_of_plus(low, a + k);
        }
    }
    assert(in_span ==> in_entry) by {
        if in_span {
            let k = window::distance(low, x) - a;
            window::law_distance(low, x);
            window::lemma_seq_plus(low, a, k);
            assert(x == window::seq_plus(start, k));
        }
    }
}

// ==================== Retransmission ====================

/// A sent datagram is remembered, byte for byte, under its number.
pub proof fn law_sent_datagram_is_remembered(
    e: EngineView,
    r: Reliability,
    body: Seq<u8>,
    max_body_bytes: nat,
    now: u64,
)
    requires
        reliability::send_step(e, r, body, max_body_bytes, now).1 is Ok,
    ensures
        ({
            let (next, packet) = reliability::send_step(e, r, body, max_body_bytes, now);
            &&& next.unacked.dom().contains(e.next_datagram_seq)
            &&& next.unacked[e.next_datagram_seq].bytes == packet->Ok_0
            &&& next.unacked[e.next_datagram_seq].sent_at == now
            &&& next.next_datagram_seq == window::seq_plus(e.next_datagram_seq, 1)
        }),
{
}

/// A request for one outstanding datagram gives the packet as it was sent, and counts it as sent
/// again.
pub proof fn law_nack_gives_the_packet_again(e: EngineView, seq: u32, now: u64)
    requires
        e.unacked.dom().contains(seq),
    ensures
        reliability::nack_step(e, seq![AckRange::make(seq, None)], now) == (
            EngineView {
                unacked: e.unacked.insert(seq, reliability::sent_again(e.unacked[seq], now)),
                last_recv: now,
                ..e
            },
            seq![e.unacked[seq].bytes],
        ),
{
    let ranges = seq![AckRange::make(seq, None)];
    assert(ranges.drop_last() == Seq::<AckRange>::empty());
    reveal_with_fuel(reliability::nack_ranges, 2);
    assert(reliability::covered(ranges.last()) == seq![seq]);
    assert(seq![seq].drop_last() == Seq::<u32>::empty());
    reveal_with_fuel(reliability::nack_numbers, 2);
}

/// Sending due datagrams again keeps every record's packet, and right afterwards none is due.
pub proof fn law_resend_is_not_repeated(e: EngineView, now: u64)
    ensures
        ({
            let (next, _) = reliability::resend_step(e, now);
            &&& next.unacked.dom() == e.unacked.dom()
            &&& forall|x: u32| #[trigger]
                e.unacked.dom().contains(x) ==> next.unacked[x].bytes == e.unacked[x].bytes
            &&& reliability::resend_step(next, now) == (next, Seq::<Seq<u8>>::empty())
        }),
{
    let (next, _) = reliability::resend_step(e, now);
    assert(next.unacked.dom() =~= e.unacked.dom());
    window::lemma_ascending_members(next.unacked.dom());
    let seqs = window::ascending(next.unacked.dom());
    assert forall|x: u32| #[trigger] next.unacked.dom().contains(x) implies !reliability::is_due(
        next,
        x,
        now,
    ) by {
        assert(next.unacked[x] == reliability::resent(e, x, now));
    }
    lemma_none_due(next, seqs, now);
    assert(reliability::resend_step(next, now).0.unacked =~= next.unacked);
}

proof fn lemma_none_due(e: EngineView, seqs: Seq<u32>, now: u64)
    requires
        forall|x: u32| #[trigger] seqs.contains(x) ==> !reliability::is_due(e, x, now),
    ensures
        reliability::due_packets(e, seqs, now) == Seq::<Seq<u8>>::empty(),
    decreases seqs.len(),
{
    if seqs.len() > 0 {
        assert(seqs.contains(seqs.last()));
        assert forall|x: u32| #[trigger]
            seqs.drop_last().contains(x) implies !reliability::is_due(e, x, now) by {
            let i = choose|i: int| 0 <= i < seqs.drop_last().len() && seqs.drop_last()[i] == x;
            assert(seqs[i] == x);
            assert(seqs.contains(x));
        }
        lemma_none_due(e, seqs.drop_last(), now);
    }
}

/// Which numbers a range covers: a single one, those from its start to its end, or, where the end
/// is the lower one, those from the start up to the last 24-bit number and on from 0 to the end. It
/// covers each of them once, in that order.
#[verifier::spinoff_prover]
pub proof fn law_range_covers(start: u32, end: u32, x: u32)
    requires
        start < 0x100_0000,
        end < 0x100_0000,
    ensures
        reliability::covered(AckRange::make(start, None)) == seq![start],
        start <= end ==> (reliability::covered(AckRange::make(start, Some(end))).contains(x)
            <==> start <= x <= end),
        start > end ==> (reliability::covered(AckRange::make(start, Some(end))).contains(x)
            <==> start <= x < 0x100_0000 || x <= end),
        start <= end ==> reliability::covered(AckRange::make(start, Some(end))).len() == end - start
            + 1,
        start > end ==> reliability::covered(AckRange::make(start, Some(end))).len() == 0x100_0000
            - start + end + 1,
        forall|k: int|
            0 <= k < reliability::covered(AckRange::make(start, Some(end))).len()
                ==> #[trigger] reliability::covered(AckRange::make(start, Some(end)))[k] == (start
                + k) % 0x100_0000,
{
    let r = AckRange::make(start, Some(end));
    let nums = reliability::covered(r);
    let n: int = if start <= end {
        end - start
    } else {
        0x100_0000 - start + end
    };
    assert(window::distance(start, end) == n || start == end) by {
        if start <= end {
            assert((end - start) % 0x100_0000 == end - start);
        } else {
            assert((end - start) % 0x100_0000 == end - start + 0x100_0000);
        }
    }
    assert(nums.len() == n + 1);
    assert forall|k: int| 0 <= k < nums.len() implies #[trigger] nums[k] == (start + k)
        % 0x100_0000 by {
        if k == 0 {
            assert((start + 0) % 0x100_0000 == start);
        }
    }
    assert forall|k: int| 0 <= k < nums.len() implies #[trigger] nums[k] == (if start + k
        < 0x100_0000 {
        start + k
    } else {
        start + k - 0x100_0000
    }) by {}
    let k: int = if x >= start {
        x - start
    } else {
        x - start + 0x100_0000
    };
    if start <= end {
        if start <= x <= end {
            assert(nums[k] == x);
        }
    } else if start <= x < 0x100_0000 || x <= end {
        assert(nums[k] == x);
    }
    if nums.contains(x) {
        let i = choose|i: int| 0 <= i < nums.len() && nums[i] == x;
        assert(nums[i] == x);
    }
}

/// A packet is that of an outstanding datagram whose number is among `wanted`.
spec fn comes_from(before: Map<u32, RecordView>, wanted: Set<u32>, packet: Seq<u8>) -> bool {
    exists|x: u32| #[trigger]
        wanted.contains(x) && before.dom().contains(x) && before[x].bytes == packet
}

/// A record whose datagram was sent again, once or more often, the last time now.
spec fn renewed(before: RecordView, after: RecordView, now: u64) -> bool {
    &&& after.bytes == before.bytes
    &&& after.sent_at == now
    &&& after.resends > before.resends || after.resends == u32::MAX
}

/// What requests for the numbers `wanted` did to the records, and the packets that they gave.
spec fn requested(
    before: Map<u32, RecordView>,
    after: Map<u32, RecordView>,
    out: Seq<Seq<u8>>,
    now: u64,
    wanted: Set<u32>,
) -> bool {
    &&& after.dom() == before.dom()
    &&& forall|x: u32| #[trigger]
        before.dom().contains(x) ==> if wanted.contains(x) {
            out.contains(before[x].bytes) && renewed(before[x], after[x], now)
        } else {
            after[x] == before[x]
        }
    &&& forall|i: int| 0 <= i < out.len() ==> comes_from(before, wanted, #[trigger] out[i])
}

proof fn lemma_nack_one(
    before: Map<u32, RecordView>,
    m: Map<u32, RecordView>,
    out: Seq<Seq<u8>>,
    seq: u32,
    now: u64,
    wanted: Set<u32>,
)
    requires
        requested(before, m, out, now, wanted),
    ensures
        ({
            let (after, all) = reliability::nack_one(m, out, seq, now);
            requested(before, after, all, now, wanted.insert(seq))
        }),
{
    let more = wanted.insert(seq);
    let (after, all) = reliability::nack_one(m, out, seq, now);
    assert(after.dom() =~= before.dom());
    if m.dom().contains(seq) {
        assert(before.dom().contains(seq));
        assert(m[seq].bytes == before[seq].bytes);
        assert(all[out.len() as int] == before[seq].bytes);
    }
    assert forall|x: u32| #[trigger] before.dom().contains(x) implies if more.contains(x) {
        all.contains(before[x].bytes) && renewed(before[x], after[x], now)
    } else {
        after[x] == before[x]
    } by {
        if x != seq && wanted.contains(x) {
            let i = choose|i: int| 0 <= i < out.len() && out[i] == before[x].bytes;
            assert(all[i] == before[x].bytes);
        }
    }
    assert forall|i: int| 0 <= i < all.len() implies comes_from(
        before,
        more,
        #[trigger] all[i],
    ) by {
        if i < out.len() {
            assert(comes_from(before, wanted, out[i]));
            let x = choose|x: u32| #[trigger]
                wanted.contains(x) && before.dom().contains(x) && before[x].bytes == out[i];
            assert(more.contains(x));
        } else {
            assert(more.contains(seq));
        }
    }
}

proof fn lemma_nack_numbers(
    before: Map<u32, RecordView>,
    m: Map<u32, RecordView>,
    out: Seq<Seq<u8>>,
    seqs: Seq<u32>,
    now: u64,
    wanted: Set<u32>,
)
    requires
        requested(before, m, out, now, wanted),
    ensures
        ({
            let (after, all) = reliability::nack_numbers(m, out, seqs, now);
            requested(before, after, all, now, wanted.union(seqs.to_set()))
        }),
    decreases seqs.len(),
{
    let more = wanted.union(seqs.to_set());
    if seqs.len() == 0 {
        assert(more =~= wanted);
    } else {
        let prev = seqs.drop_last();
        let some = wanted.union(prev.to_set());
        lemma_nack_numbers(before, m, out, prev, now, wanted);
        let (mid, sent) = reliability::nack_numbers(m, out, prev, now);
        lemma_nack_one(before, mid, sent, seqs.last(), now, some);
        assert(some.insert(seqs.last()) =~= more) by {
            assert forall|x: u32| some.insert(seqs.last()).contains(x) <==> more.contains(x) by {
                lemma_contains_last(seqs, x);
            }
        }
    }
}

proof fn lemma_contains_last(seqs: Seq<u32>, x: u32)
    requires
        seqs.len() > 0,
    ensures
        seqs.contains(x) <==> seqs.drop_last().contains(x) || x == seqs.last(),
{
    let prev = seqs.drop_last();
    if seqs.contains(x) {
        let i = choose|i: int| 0 <= i < seqs.len() && seqs[i] == x;
        if i < prev.len() {
            assert(prev[i] == x);
        }
    }
    if prev.contains(x) {
        let i = choose|i: int| 0 <= i < prev.len() && prev[i] == x;
        assert(seqs[i] == x);
    }
    assert(seqs[seqs.len() - 1] == seqs.last());
}

proof fn lemma_covered_last(ranges: Seq<AckRange>, x: u32)
    requires
        ranges.len() > 0,
    ensures
        is_covered(ranges, x) <==> is_covered(ranges.drop_last(), x) || reliability::covered(
            ranges.last(),
        ).contains(x),
{
    let prev = ranges.drop_last();
    if is_covered(ranges, x) {
        let i = choose|i: int|
            0 <= i < ranges.len() && (#[trigger] reliability::covered(ranges[i])).contains(x);
        if i < prev.len() {
            assert(reliability::covered(prev[i]).contains(x));
        }
    }
    if is_covered(prev, x) {
        let i = choose|i: int|
            0 <= i < prev.len() && (#[trigger] reliability::covered(prev[i])).contains(x);
        assert(reliability::covered(ranges[i]).contains(x));
    }
    if reliability::covered(ranges.last()).contains(x) {
        assert(reliability::covered(ranges[ranges.len() - 1]).contains(x));
    }
}

/// The numbers that some range covers.
spec fn covered_set(ranges: Seq<AckRange>) -> Set<u32> {
    Set::new(|x: u32| is_covered(ranges, x))
}

proof fn lemma_nack_ranges(unacked: Map<u32, RecordView>, ranges: Seq<AckRange>, now: u64)
    ensures
        ({
            let (after, all) = reliability::nack_ranges(unacked, ranges, now);
            requested(unacked, after, all, now, covered_set(ranges))
        }),
    decreases ranges.len(),
{
    if ranges.len() > 0 {
        let prev = ranges.drop_last();
        lemma_nack_ranges(unacked, prev, now);
        let (mid, sent) = reliability::nack_ranges(unacked, prev, now);
        let seqs = reliability::covered(ranges.last());
        lemma_nack_numbers(unacked, mid, sent, seqs, now, covered_set(prev));
        assert(covered_set(ranges) =~= covered_set(prev).union(seqs.to_set())) by {
            assert forall|x: u32|
                covered_set(ranges).contains(x) <==> covered_set(prev).union(
                    seqs.to_set(),
                ).contains(x) by {
                lemma_covered_last(ranges, x);
            }
        }
    }
}

/// A packet is that of an outstanding datagram whose number some range covers.
pub open spec fn is_of_covered(e: EngineView, ranges: Seq<AckRange>, packet: Seq<u8>) -> bool {
    exists|x: u32| #[trigger]
        is_covered(ranges, x) && e.unacked.dom().contains(x) && e.unacked[x].bytes == packet
}

/// A NACK gives the packets of exactly those outstanding datagrams whose numbers its ranges cover,
/// however many each range covers: every one of them is given as it was sent, and its record counts
/// as sent now and once more; nothing else is given, no other record changes, none is forgotten,
/// and of the rest only the moment of the last packet changes.
pub proof fn law_nack_gives_what_it_covers(e: EngineView, ranges: Seq<AckRange>, now: u64)
    ensures
        ({
            let (next, out) = reliability::nack_step(e, ranges, now);
            &&& next.unacked.dom() == e.unacked.dom()
            &&& forall|x: u32| #[trigger]
                e.unacked.dom().contains(x) && is_covered(ranges, x) ==> {
                    &&& out.contains(e.unacked[x].bytes)
                    &&& next.unacked[x].bytes == e.unacked[x].bytes
                    &&& next.unacked[x].sent_at == now
                    &&& next.unacked[x].resends > e.unacked[x].resends || next.unacked[x].resends
                        == u32::MAX
                }
            &&& forall|x: u32| #[trigger]
                e.unacked.dom().contains(x) && !is_covered(ranges, x) ==> next.unacked[x]
                    == e.unacked[x]
            &&& forall|i: int| 0 <= i < out.len() ==> is_of_covered(e, ranges, #[trigger] out[i])
            &&& next == (EngineView { unacked: next.unacked, last_recv: now, ..e })
        }),
{
    lemma_nack_ranges(e.unacked, ranges, now);
    let (next, out) = reliability::nack_step(e, ranges, now);
    let wanted = covered_set(ranges);
    assert forall|x: u32| #[trigger] e.unacked.dom().contains(x) implies (wanted.contains(x)
        <==> is_covered(ranges, x)) by {}
    assert forall|i: int| 0 <= i < out.len() implies is_of_covered(e, ranges, #[trigger] out[i]) by {
        assert(comes_from(e.unacked, wanted, out[i]));
        let x = choose|x: u32| #[trigger]
            wanted.contains(x) && e.unacked.dom().contains(x) && e.unacked[x].bytes == out[i];
        assert(is_covered(ranges, x));
    }
    assert(next.unacked.dom() == e.unacked.dom());
}

proof fn lemma_nack_appends(
    unacked: Map<u32, RecordView>,
    out: Seq<Seq<u8>>,
    seqs: Seq<u32>,
    now: u64,
)
    ensures
        reliability::nack_numbers(unacked, out, seqs, now).0 == reliability::nack_numbers(
            unacked,
            seq![],
            seqs,
            now,
        ).0,
        reliability::nack_numbers(unacked, out, seqs, now).1 == out + reliability::nack_numbers(
            unacked,
            seq![],
            seqs,
            now,
        ).1,
    decreases seqs.len(),
{
    if seqs.len() == 0 {
        assert(out + Seq::<Seq<u8>>::empty() =~= out);
    } else {
        lemma_nack_appends(unacked, out, seqs.drop_last(), now);
        let (m, o) = reliability::nack_numbers(unacked, seq![], seqs.drop_last(), now);
        if m.dom().contains(seqs.last()) {
            assert((out + o).push(m[seqs.last()].bytes) =~= out + o.push(m[seqs.last()].bytes));
        }
    }
}

/// A NACK with one more range gives what the shorter one gives, and behind it what a NACK with that
/// range alone then gives.
pub proof fn law_nack_range_by_range(
    e: EngineView,
    ranges: Seq<AckRange>,
    range: AckRange,
    now: u64,
)
    ensures
        ({
            let (mid, first) = reliability::nack_step(e, ranges, now);
            let (next, second) = reliability::nack_step(mid, seq![range], now);
            reliability::nack_step(e, ranges.push(range), now) == (next, first + second)
        }),
{
    let (mid, first) = reliability::nack_step(e, ranges, now);
    let all = ranges.push(range);
    assert(all.drop_last() =~= ranges);
    let one = seq![range];
    assert(one.drop_last() =~= Seq::<AckRange>::empty());
    reveal_with_fuel(reliability::nack_ranges, 2);
    lemma_nack_appends(mid.unacked, first, reliability::covered(range), now);
}

/// A NACK for the numbers from `a` to `b` gives what one for the numbers up to the last but one
/// gives, and behind it what one for `b` then gives.
pub proof fn law_nack_number_by_number(e: EngineView, a: u32, b: u32, now: u64)
    requires
        a < b < 0x100_0000,
    ensures
        ({
            let less = AckRange::make(a, Some((b - 1) as u32));
            let (mid, first) = reliability::nack_step(e, seq![less], now);
            let (next, second) = reliability::nack_step(mid, seq![AckRange::make(b, None)], now);
            reliability::nack_step(e, seq![AckRange::make(a, Some(b))], now) == (
                next,
                first + second,
            )
        }),
{
    let less = AckRange::make(a, Some((b - 1) as u32));
    let whole = AckRange::make(a, Some(b));
    let end = AckRange::make(b, None);
    law_range_covers(a, b, b);
    law_range_covers(a, (b - 1) as u32, b);
    let nums = reliability::covered(whole);
    assert(nums.drop_last() =~= reliability::covered(less)) by {
        assert forall|k: int| 0 <= k < nums.len() - 1 implies #[trigger] nums[k]
            == reliability::covered(less)[k] by {}
    }
    assert(nums.last() == b);
    assert(reliability::covered(end) =~= seq![b]);
    assert(seq![b].drop_last() =~= Seq::<u32>::empty());
    assert(seq![less].drop_last() =~= Seq::<AckRange>::empty());
    assert(seq![whole].drop_last() =~= Seq::<AckRange>::empty());
    assert(seq![end].drop_last() =~= Seq::<AckRange>::empty());
    reveal_with_fuel(reliability::nack_ranges, 2);
    let (mid, first) = reliability::nack_step(e, seq![less], now);
    assert(reliability::nack_numbers(mid.unacked, seq![], seq![b], now) == reliability::nack_one(
        mid.unacked,
        seq![],
        b,
        now,
    )) by {
        reveal_with_fuel(reliability::nack_numbers, 2);
    }
    if mid.unacked.dom().contains(b) {
        assert(first + seq![].push(mid.unacked[b].bytes) =~= first.push(mid.unacked[b].bytes));
    } else {
        assert(first + Seq::<Seq<u8>>::empty() =~= first);
    }
}

/// A NACK for a number that is not outstanding gives nothing, and one without ranges neither.
pub proof fn law_nack_of_nothing(e: EngineView, seq: u32, now: u64)
    ensures
        reliability::nack_step(e, seq![], now) == (
            EngineView { last_recv: now, ..e },
            Seq::<Seq<u8>>::empty(),
        ),
        !e.unacked.dom().contains(seq) ==> reliability::nack_step(
            e,
            seq![AckRange::make(seq, None)],
            now,
        ) == (EngineView { last_recv: now, ..e }, Seq::<Seq<u8>>::empty()),
{
    let ranges = seq![AckRange::make(seq, None)];
    assert(ranges.drop_last() =~= Seq::<AckRange>::empty());
    reveal_with_fuel(reliability::nack_ranges, 2);
    assert(reliability::covered(ranges.last()) =~= seq![seq]);
    assert(seq![seq].drop_last() =~= Seq::<u32>::empty());
    reveal_with_fuel(reliability::nack_numbers, 2);
}

/// The acknowledgement of one outstanding datagram moves the round-trip estimate by an eighth of
/// the way to the time since the datagram was sent, up to rounding; that of any other number leaves
/// it as it is.
pub proof fn law_ack_refines_the_estimate(e: EngineView, seq: u32, now: u64)
    ensures
        ({
            let next = reliability::ack_step(e, seq![AckRange::make(seq, None)], now);
            let sample: int = if now >= e.unacked[seq].sent_at {
                now - e.unacked[seq].sent_at
            } else {
                0
            };
            &&& e.unacked.dom().contains(seq) ==> 7 * e.rtt + sample - 7 <= 8 * next.rtt <= 7
                * e.rtt + sample + 7
            &&& !e.unacked.dom().contains(seq) ==> next.rtt == e.rtt
        }),
{
    let ranges = seq![AckRange::make(seq, None)];
    let start = EngineView { last_recv: now, ..e };
    assert(ranges.drop_last() =~= Seq::<AckRange>::empty());
    reveal_with_fuel(reliability::ack_ranges, 2);
    assert(reliability::covered(ranges.last()) =~= seq![seq]);
    assert(seq![seq].drop_last() =~= Seq::<u32>::empty());
    reveal_with_fuel(reliability::ack_numbers, 2);
    assert(reliability::ack_step(e, ranges, now) == reliability::ack_one(start, seq, now));
}

/// An ACK with one more range does what the shorter one does, and then what an ACK with that range
/// alone does.
pub proof fn law_ack_range_by_range(
    e: EngineView,
    ranges: Seq<AckRange>,
    range: AckRange,
    now: u64,
)
    ensures
        reliability::ack_step(e, ranges.push(range), now) == reliability::ack_step(
            reliability::ack_step(e, ranges, now),
            seq![range],
            now,
        ),
{
    let all = ranges.push(range);
    assert(all.drop_last() =~= ranges);
    assert(seq![range].drop_last() =~= Seq::<AckRange>::empty());
    reveal_with_fuel(reliability::ack_ranges, 2);
    law_ack_forgets_what_it_covers(e, ranges, now);
}

/// An ACK for the numbers from `a` to `b` does what one for the numbers up to the last but one
/// does, and then what one for `b` does.
pub proof fn law_ack_number_by_number(e: EngineView, a: u32, b: u32, now: u64)
    requires
        a < b < 0x100_0000,
    ensures
        reliability::ack_step(e, seq![AckRange::make(a, Some(b))], now) == reliability::ack_step(
            reliability::ack_step(e, seq![AckRange::make(a, Some((b - 1) as u32))], now),
            seq![AckRange::make(b, None)],
            now,
        ),
{
    let less = AckRange::make(a, Some((b - 1) as u32));
    let whole = AckRange::make(a, Some(b));
    let end = AckRange::make(b, None);
    law_range_covers(a, b, b);
    law_range_covers(a, (b - 1) as u32, b);
    let nums = reliability::covered(whole);
    assert(nums.drop_last() =~= reliability::covered(less)) by {
        assert forall|k: int| 0 <= k < nums.len() - 1 implies #[trigger] nums[k]
            == reliability::covered(less)[k] by {}
    }
    assert(nums.last() == b);
    assert(reliability::covered(end) =~= seq![b]);
    assert(seq![b].drop_last() =~= Seq::<u32>::empty());
    assert(seq![less].drop_last() =~= Seq::<AckRange>::empty());
    assert(seq![whole].drop_last() =~= Seq::<AckRange>::empty());
    assert(seq![end].drop_last() =~= Seq::<AckRange>::empty());
    reveal_with_fuel(reliability::ack_ranges, 2);
    law_ack_forgets_what_it_covers(e, seq![less], now);
    let mid = reliability::ack_step(e, seq![less], now);
    assert(mid == EngineView { last_recv: now, ..mid });
    assert(reliability::ack_numbers(mid, seq![b], now) == reliability::ack_one(mid, b, now)) by {
        reveal_with_fuel(reliability::ack_numbers, 2);
    }
}

/// A datagram is overdue once it has been outstanding for longer than four round trips and for
/// longer than eighty milliseconds.
pub open spec fn is_overdue(e: EngineView, seq: u32, now: u64) -> bool {
    &&& e.unacked.dom().contains(seq)
    &&& now - e.unacked[seq].sent_at > 4 * e.rtt
    &&& now - e.unacked[seq].sent_at > 80_000_000
}

proof fn lemma_due_packets(e: EngineView, seqs: Seq<u32>, now: u64) -> (nums: Seq<u32>)
    requires
        window::increasing(seqs),
        forall|x: u32| #[trigger] seqs.contains(x) ==> e.unacked.dom().contains(x),
    ensures
        window::increasing(nums),
        forall|x: u32| #[trigger] nums.contains(x) <==> seqs.contains(x) && is_overdue(e, x, now),
        reliability::due_packets(e, seqs, now) == nums.map_values(|x: u32| e.unacked[x].bytes),
    decreases seqs.len(),
{
    if seqs.len() == 0 {
        let none = Seq::<u32>::empty();
        assert(none.map_values(|x: u32| e.unacked[x].bytes) =~= Seq::<Seq<u8>>::empty());
        none
    } else {
        let prev = seqs.drop_last();
        let last = seqs.last();
        assert(seqs[seqs.len() - 1] == last);
        assert(seqs.contains(last));
        assert forall|x: u32| #[trigger] prev.contains(x) implies e.unacked.dom().contains(x) by {
            lemma_contains_last(seqs, x);
            assert(seqs.contains(x));
        }
        assert(window::increasing(prev)) by {
            assert forall|i: int, j: int| 0 <= i < j < prev.len() implies prev[i] < prev[j] by {
                assert(seqs[i] < seqs[j]);
            }
        }
        let less = lemma_due_packets(e, prev, now);
        assert(reliability::is_due(e, last, now) <==> is_overdue(e, last, now));
        let nums = if is_overdue(e, last, now) {
            less.push(last)
        } else {
            less
        };
        assert forall|i: int| 0 <= i < less.len() implies #[trigger] less[i] < last by {
            assert(less.contains(less[i]));
            let k = choose|k: int| 0 <= k < prev.len() && prev[k] == less[i];
            assert(seqs[k] < seqs[seqs.len() - 1]);
        }
        assert(window::increasing(nums));
        assert forall|x: u32| #[trigger] nums.contains(x) <==> seqs.contains(x) && is_overdue(
            e,
            x,
            now,
        ) by {
            lemma_contains_last(seqs, x);
            assert(less.contains(x) <==> prev.contains(x) && is_overdue(e, x, now));
            if is_overdue(e, last, now) {
                lemma_contains_last(nums, x);
                assert(nums.drop_last() =~= less);
                assert(nums.last() == last);
            }
        }
        assert(reliability::due_packets(e, seqs, now) =~= nums.map_values(
            |x: u32| e.unacked[x].bytes,
        ));
        nums
    }
}

/// Which packets are sent again: those of exactly the overdue datagrams, each once, lowest number
/// first. Their records count as sent now and once more; no other record changes, and nothing else
/// does.
pub proof fn law_overdue_is_sent_again(e: EngineView, now: u64) -> (nums: Seq<u32>)
    ensures
        ({
            let (next, out) = reliability::resend_step(e, now);
            &&& window::increasing(nums)
            &&& forall|x: u32| #[trigger] nums.contains(x) <==> is_overdue(e, x, now)
            &&& out == nums.map_values(|x: u32| e.unacked[x].bytes)
            &&& next.unacked.dom() == e.unacked.dom()
            &&& forall|x: u32| #[trigger]
                e.unacked.dom().contains(x) ==> if is_overdue(e, x, now) {
                    &&& next.unacked[x].bytes == e.unacked[x].bytes
                    &&& next.unacked[x].sent_at == now
                    &&& next.unacked[x].resends == e.unacked[x].resends + 1
                        || next.unacked[x].resends == e.unacked[x].resends == u32::MAX
                } else {
                    next.unacked[x] == e.unacked[x]
                }
            &&& next == (EngineView { unacked: next.unacked, ..e })
        }),
{
    let (next, out) = reliability::resend_step(e, now);
    let seqs = window::ascending(e.unacked.dom());
    window::lemma_ascending_members(e.unacked.dom());
    let nums = lemma_due_packets(e, seqs, now);
    assert(next.unacked.dom() =~= e.unacked.dom());
    assert forall|x: u32| #[trigger] nums.contains(x) <==> is_overdue(e, x, now) by {
        assert(seqs.contains(x) <==> e.unacked.dom().contains(x));
    }
    nums
}

/// A session is alive for ten seconds and two round trips after the last packet, and no longer.
pub proof fn law_alive_for_ten_seconds(e: EngineView, now: u64)
    ensures
        reliability::alive_at(e, now) <==> now - e.last_recv < 10_000_000_000 + 2 * e.rtt,
{
}

// ==================== Numbers and queues ====================

/// An engine that begins has sent nothing, awaits nothing and holds nothing; it counts from 0, and
/// takes a round trip for two tenths of a second.
pub proof fn law_new_engine(now: u64)
    ensures
        ({
            let e = reliability::new_engine(now);
            &&& e.wf()
            &&& e.next_datagram_seq == 0 && e.next_message_index == 0
            &&& e.next_order_index == 0 && e.next_sequence_index == 0
            &&& e.next_delivery == 0
            &&& e.unacked.dom().is_empty() && e.order_queue.dom().is_empty()
            &&& e.reassemblers.dom().is_empty() && e.pending_acks.is_empty()
            &&& !e.window.started
            &&& e.rtt == 200_000_000
            &&& e.last_recv == now
        }),
{
}

/// Sending counts: every index that a reliability carries, and no other, moves on by one, round the
/// 24-bit numbers; a datagram that was sent uses one number up. A frame carries the indices as they
/// were.
#[verifier::spinoff_prover]
pub proof fn law_sending_counts(
    e: EngineView,
    r: Reliability,
    body: Seq<u8>,
    max_body_bytes: nat,
    now: u64,
)
    ensures
        ({
            let (next, packet) = reliability::send_step(e, r, body, max_body_bytes, now);
            let f = reliability::template_of(e, r, body);
            let reliable = r is Reliable || r is ReliableOrdered || r is ReliableSequenced;
            let sequenced = r is UnreliableSequenced || r is ReliableSequenced;
            let ordered = r is UnreliableSequenced || r is ReliableOrdered || r
                is ReliableSequenced;
            &&& next.next_message_index == (if reliable {
                (e.next_message_index + 1) % 0x100_0000
            } else {
                e.next_message_index as int
            })
            &&& next.next_sequence_index == (if sequenced {
                (e.next_sequence_index + 1) % 0x100_0000
            } else {
                e.next_sequence_index as int
            })
            &&& next.next_order_index == (if ordered {
                (e.next_order_index + 1) % 0x100_0000
            } else {
                e.next_order_index as int
            })
            &&& packet is Ok ==> next.next_datagram_seq == (e.next_datagram_seq + 1) % 0x100_0000
            &&& next == (EngineView {
                next_message_index: next.next_message_index,
                next_sequence_index: next.next_sequence_index,
                next_order_index: next.next_order_index,
                next_datagram_seq: next.next_datagram_seq,
                unacked: next.unacked,
                ..e
            })
            &&& packet is Err ==> next.unacked == e.unacked
            &&& f.reliability == r && f.body == body && f.split is None && f.order_channel == 0
            &&& f.reliable_index == (if reliable {
                Some(e.next_message_index)
            } else {
                None
            })
            &&& f.sequence_index == (if sequenced {
                Some(e.next_sequence_index)
            } else {
                None
            })
            &&& f.order_index == (if ordered {
                Some(e.next_order_index)
            } else {
                None
            })
        }),
{
}

/// Split IDs follow the datagram numbers: the ID is the number plus one, in 16 bits, so datagrams
/// one behind the other have different ones.
#[verifier::spinoff_prover]
pub proof fn law_split_ids(seq: u32)
    ensures
        reliability::split_id_of(seq) == (seq + 1) % 0x1_0000,
        seq < u32::MAX ==> reliability::split_id_of(seq) != reliability::split_id_of(
            (seq + 1) as u32,
        ),
{
    lemma_split_id(seq);
    if seq < u32::MAX {
        lemma_split_id((seq + 1) as u32);
        let q = seq / 0x1_0000;
        let r = seq % 0x1_0000;
        assert(seq == q * 0x1_0000 + r);
        if r + 2 < 0x1_0000 {
            assert((seq + 1) % 0x1_0000 == r + 1);
            assert((seq + 2) % 0x1_0000 == r + 2);
        } else if r + 1 < 0x1_0000 {
            assert((seq + 1) % 0x1_0000 == r + 1);
            assert((seq + 2) % 0x1_0000 == 0);
        } else {
            assert((seq + 1) % 0x1_0000 == 0);
            assert((seq + 2) % 0x1_0000 == 1);
        }
    }
}

#[verifier::spinoff_prover]
proof fn lemma_split_id(seq: u32)
    ensures
        reliability::split_id_of(seq) == (seq + 1) % 0x1_0000,
{
    let q = seq / 0x1_0000;
    let r = seq % 0x1_0000;
    assert(seq == q * 0x1_0000 + r);
    if r + 1 < 0x1_0000 {
        assert((seq + 1) % 0x1_0000 == r + 1);
    } else {
        assert((seq + 1) % 0x1_0000 == 0);
    }
}

/// Where a complete frame goes. An ordered one with an order index waits under it; any other is
/// delivered behind what was delivered before.
pub proof fn law_frame_is_routed(e: EngineView, delivered: Seq<FrameView>, f: FrameView)
    ensures
        ({
            let (next, out) = reliability::route(e, delivered, f);
            let waits = (f.reliability is UnreliableSequenced || f.reliability is ReliableOrdered
                || f.reliability is ReliableSequenced) && f.order_index is Some;
            &&& waits ==> out == delivered && next.order_queue.contains_key(f.order_index->0)
                && next.order_queue[f.order_index->0] == f
            &&& waits ==> forall|k: u32|
                k != f.order_index->0 ==> (#[trigger] next.order_queue.contains_key(k)
                    <==> e.order_queue.contains_key(k)) && (e.order_queue.contains_key(k)
                    ==> next.order_queue[k] == e.order_queue[k])
            &&& !waits ==> next == e && out == delivered + seq![f]
            &&& next == (EngineView { order_queue: next.order_queue, ..e })
        }),
{
    assert(delivered.push(f) =~= delivered + seq![f]);
}

/// The number of a datagram that was not received before is acknowledged to the peer, besides those
/// that were to be; that of one that was is not.
#[verifier::spinoff_prover]
pub proof fn law_new_numbers_are_acknowledged(e: EngineView, d: DatagramView, now: u64)
    requires
        d.sequence_number < 0x100_0000,
    ensures
        ({
            let (next, _) = reliability::receive_step(e, d, now);
            &&& next.last_recv == now
            &&& forall|x: u32| #[trigger]
                next.pending_acks.contains(x) <==> e.pending_acks.contains(x) || x
                    == d.sequence_number && reliability::is_new(e, d.sequence_number)
            &&& next.unacked == e.unacked && next.rtt == e.rtt
            &&& next.next_datagram_seq == e.next_datagram_seq
            &&& next.next_delivery == e.next_delivery
        }),
{
    let base = reliability::number_received(e, d.sequence_number, now);
    lemma_frames_touch(base, d.frames);
    assert(d.sequence_number as int % 0x100_0000 == d.sequence_number);
}

/// A number is one of the `n` numbers from `start` on.
pub open spec fn is_within(start: u32, n: nat, k: u32) -> bool {
    exists|i: int| 0 <= i < n && k == #[trigger] window::seq_plus(start, i)
}

/// The frames that come out of the ordered queue are those that waited under the indices whose turn
/// it was; every other one waits on.
#[verifier::spinoff_prover]
pub proof fn law_drained_frames(queue: Map<u32, FrameView>, next: u32)
    requires
        queue.dom().finite(),
        next < SEQ_COUNT,
    ensures
        ({
            let (rest, turn, frames) = reliability::drain(queue, next);
            &&& frames.len() <= queue.dom().len()
            &&& forall|i: int|
                0 <= i < frames.len() ==> queue.dom().contains(#[trigger] window::seq_plus(next, i))
            &&& forall|i: int|
                0 <= i < frames.len() ==> #[trigger] frames[i] == queue[window::seq_plus(next, i)]
            &&& forall|k: u32| #[trigger]
                queue.dom().contains(k) ==> rest.dom().contains(k) || is_within(
                    next,
                    frames.len(),
                    k,
                )
            &&& rest.dom().len() + frames.len() == queue.dom().len()
        }),
    decreases queue.dom().len(),
{
    let (rest, turn, frames) = reliability::drain(queue, next);
    if queue.dom().contains(next) {
        let less = queue.remove(next);
        let after = window::seq_plus(next, 1);
        assert(less.dom() =~= queue.dom().remove(next));
        law_drained_frames(less, after);
        let (_, _, tail) = reliability::drain(less, after);
        assert(window::seq_plus(next, 0) == next);
        assert forall|i: int| 0 <= i < frames.len() implies queue.dom().contains(
            #[trigger] window::seq_plus(next, i),
        ) by {
            if i > 0 {
                window::lemma_seq_plus(next, 1, i - 1);
                assert(less.dom().contains(window::seq_plus(after, i - 1)));
            }
        }
        assert forall|i: int| 0 <= i < frames.len() implies #[trigger] frames[i]
            == queue[window::seq_plus(next, i)] by {
            if i > 0 {
                assert(frames[i] == tail[i - 1]);
                window::lemma_seq_plus(next, 1, i - 1);
                assert(less.dom().contains(window::seq_plus(after, i - 1)));
            }
        }
        assert forall|k: u32| #[trigger] queue.dom().contains(k) implies rest.dom().contains(k)
            || is_within(next, frames.len(), k) by {
            if k == next {
                assert(k == window::seq_plus(next, 0));
            } else {
                assert(less.dom().contains(k));
                if !rest.dom().contains(k) {
                    assert(is_within(after, tail.len(), k));
                    let i = choose|i: int|
                        0 <= i < tail.len() && k == #[trigger] window::seq_plus(after, i);
                    window::lemma_seq_plus(next, 1, i);
                    assert(k == window::seq_plus(next, i + 1));
                }
            }
        }
        assert(frames.len() == tail.len() + 1);
        assert(less.dom().len() + 1 == queue.dom().len());
    }
}

/// Which datagram number is used up, and what is remembered: with a payload that cannot be split
/// neither number nor record; with frames that cannot be encoded the number alone; else both, the
/// record under the number, sent once, and every other record as it was.
#[verifier::spinoff_prover]
pub proof fn law_what_sending_remembers(
    e: EngineView,
    r: Reliability,
    body: Seq<u8>,
    max_body_bytes: nat,
    now: u64,
)
    ensures
        ({
            let (next, packet) = reliability::send_step(e, r, body, max_body_bytes, now);
            let n = e.next_datagram_seq;
            &&& max_body_bytes == 0 ==> packet is Err && next.next_datagram_seq == n
            &&& packet is Err ==> next.unacked == e.unacked
            &&& packet is Ok ==> next.unacked.contains_key(n) && next.unacked[n].resends == 0
                && next.unacked[n].sent_at == now
            &&& packet is Ok ==> forall|x: u32|
                x != n ==> (#[trigger] next.unacked.contains_key(x) <==> e.unacked.contains_key(x))
                    && (e.unacked.contains_key(x) ==> next.unacked[x] == e.unacked[x])
            &&& 0 < max_body_bytes && body.len() <= max_body_bytes ==> next.next_datagram_seq == (n
                + 1) % 0x100_0000
        }),
{
}

/// What a fragment does. The first under its ID opens a reassembly with its header, the next ones
/// join it; the one that completes the payload ends it and is delivered as a whole, with that
/// header; one that is refused ends it too, and is an error. Reassemblies under other IDs are left
/// alone.
pub proof fn law_fragment_is_received(
    e: EngineView,
    delivered: Seq<FrameView>,
    f: FrameView,
    other: u16,
)
    requires
        f.split is Some,
        other != (f.split->0).id,
    ensures
        ({
            let split = f.split->0;
            let (next, out) = reliability::receive_frame(e, delivered, f);
            let known = e.reassemblers.contains_key(split.id);
            let state = if known {
                e.reassemblers[split.id].0
            } else {
                datagram::no_fragments()
            };
            let header = if known {
                e.reassemblers[split.id].1
            } else {
                FrameView { split: None, body: Seq::empty(), ..f }
            };
            &&& next.reassemblers.contains_key(other) <==> e.reassemblers.contains_key(other)
            &&& e.reassemblers.contains_key(other) ==> next.reassemblers[other]
                == e.reassemblers[other]
            &&& next.unacked == e.unacked && next.window == e.window && next.pending_acks
                == e.pending_acks
            &&& match datagram::add_fragment(state, split, f.body) {
                Err(_) => out is Err && !next.reassemblers.contains_key(split.id)
                    && next.order_queue == e.order_queue,
                Ok((more, None)) => {
                    &&& out == Ok::<Seq<FrameView>, Seq<char>>(delivered)
                    &&& next.reassemblers.contains_key(split.id)
                    &&& next.reassemblers[split.id] == (more, header)
                    &&& next.order_queue == e.order_queue
                },
                Ok((_, Some(body))) => {
                    let whole = FrameView { split: None, body, ..header };
                    &&& !next.reassemblers.contains_key(split.id)
                    &&& out matches Ok(frames)
                    &&& whole.reliability.ordered() && whole.order_index is Some ==> frames
                        == delivered && next.order_queue.contains_key(whole.order_index->0)
                        && next.order_queue[whole.order_index->0] == whole
                    &&& !(whole.reliability.ordered() && whole.order_index is Some) ==> frames
                        == delivered.push(whole)
                },
            }
        }),
{
}

/// Frames are taken in one after the other, up to the first that is refused, which is an error.
pub proof fn law_frames_in_turn(e: EngineView, frames: Seq<FrameView>, f: FrameView)
    ensures
        reliability::receive_frames(e, seq![]) == (e, Ok::<Seq<FrameView>, Seq<char>>(seq![])),
        match reliability::receive_frames(e, frames) {
            (next, Ok(given)) => reliability::receive_frames(e, frames.push(f))
                == reliability::receive_frame(next, given, f),
            (next, Err(m)) => reliability::receive_frames(e, frames.push(f)) == (
                next,
                Err::<Seq<FrameView>, Seq<char>>(m),
            ),
        },
{
    assert(frames.push(f).drop_last() =~= frames);
    assert(frames.push(f).last() == f);
}

/// An ACK is given once: after it was taken there is none, until another datagram is received, and
/// that one alone is acknowledged then. Nothing else changes.
pub proof fn law_ack_is_given_once(e: EngineView, d: DatagramView, now: u64)
    requires
        d.sequence_number < 0x100_0000,
    ensures
        ({
            let after = reliability::acks_taken(e);
            let (next, _) = reliability::receive_step(after, d, now);
            &&& reliability::ack_due(after) is None
            &&& after.unacked == e.unacked && after.window == e.window && after.rtt == e.rtt
            &&& after.order_queue == e.order_queue && after.next_delivery == e.next_delivery
            &&& after.last_recv == e.last_recv
            &&& forall|x: u32| #[trigger]
                next.pending_acks.contains(x) <==> x == d.sequence_number && reliability::is_new(
                    after,
                    d.sequence_number,
                )
        }),
{
    law_new_numbers_are_acknowledged(reliability::acks_taken(e), d, now);
}

} // verus!
