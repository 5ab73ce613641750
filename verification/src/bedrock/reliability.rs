//! The reliability engine: the bookkeeping of a reliable, ordered, retransmitting transport.
//!
//! It does no I/O. Every method returns what the caller is to do: bytes to send, frames to
//! deliver, packets to acknowledge. Moments and spans of time are whole nanoseconds, moments
//! counted from any fixed origin of the caller's.
//!
//! There is one ordering channel, channel 0.
use std::collections::{BTreeMap, BTreeSet};
use vstd::prelude::*;

use super::datagram;
use super::datagram::{
    AckRange, AckView, Acknowledgement, Datagram, DatagramView, Frame, FrameView, Reassembler,
    ReassemblerView, Reliability,
};
use super::window;
use super::window::{DatagramWindow, WindowView, SEQ_COUNT};
use crate::bytes;
use crate::error::PingError;

verus! {

broadcast use vstd::std_specs::btree::group_btree_axioms;

/// Round-trip estimate before any ACK has refined it.
pub const INITIAL_RTT: u64 = 200_000_000;

/// Least time between two sends of the same datagram.
pub const MIN_RESEND_INTERVAL: u64 = 80_000_000;

/// How many round trips a datagram may be outstanding before it is sent again.
pub const RESEND_RTT_MULTIPLIER: u32 = 4;

/// How long a session lives without a packet, besides two round trips.
pub const INACTIVITY_BASE: u64 = 10_000_000_000;

/// A sent datagram that was not acknowledged yet.
#[derive(Debug)]
pub struct ResendRecord {
    bytes: Vec<u8>,
    sent_at: u64,
    resends: u32,
}

/// What a [`ResendRecord`] holds.
#[verifier::ext_equal]
pub struct RecordView {
    /// The encoded datagram.
    pub bytes: Seq<u8>,
    /// When it was last sent.
    pub sent_at: u64,
    /// How often it was sent again.
    pub resends: u32,
}

impl View for ResendRecord {
    type V = RecordView;

    closed spec fn view(&self) -> RecordView {
        RecordView { bytes: self.bytes@, sent_at: self.sent_at, resends: self.resends }
    }
}

/// The reliability state machine.
#[derive(Debug)]
pub struct ReliabilityEngine {
    next_datagram_seq: u32,
    next_message_index: u32,
    next_order_index: u32,
    next_sequence_index: u32,
    unacked: BTreeMap<u32, ResendRecord>,
    recv_window: DatagramWindow,
    pending_acks: BTreeSet<u32>,
    order_queue: BTreeMap<u32, Frame>,
    next_delivery_order_index: u32,
    reassemblers: BTreeMap<u16, (Reassembler, Frame)>,
    rtt: u64,
    last_recv: u64,
}

/// What a [`ReliabilityEngine`] holds.
#[verifier::ext_equal]
pub struct EngineView {
    /// Sequence number of the next datagram.
    pub next_datagram_seq: u32,
    /// Index of the next reliable frame.
    pub next_message_index: u32,
    /// Index of the next ordered frame.
    pub next_order_index: u32,
    /// Index of the next sequenced frame.
    pub next_sequence_index: u32,
    /// Sent and not acknowledged, by sequence number.
    pub unacked: Map<u32, RecordView>,
    /// The numbers received.
    pub window: WindowView,
    /// The numbers received and not acknowledged to the peer yet.
    pub pending_acks: Set<u32>,
    /// Ordered frames that wait for their turn, by order index.
    pub order_queue: Map<u32, FrameView>,
    /// The order index whose turn it is.
    pub next_delivery: u32,
    /// Split payloads under way, by split ID: the fragments and the header of the payload.
    pub reassemblers: Map<u16, (ReassemblerView, FrameView)>,
    /// The round-trip estimate.
    pub rtt: u64,
    /// When the last packet was received.
    pub last_recv: u64,
}

impl View for ReliabilityEngine {
    type V = EngineView;

    closed spec fn view(&self) -> EngineView {
        EngineView {
            next_datagram_seq: self.next_datagram_seq,
            next_message_index: self.next_message_index,
            next_order_index: self.next_order_index,
            next_sequence_index: self.next_sequence_index,
            unacked: self.unacked@.map_values(|r: ResendRecord| r@),
            window: self.recv_window@,
            pending_acks: self.pending_acks@,
            order_queue: self.order_queue@.map_values(|f: Frame| f@),
            next_delivery: self.next_delivery_order_index,
            reassemblers: self.reassemblers@.map_values(|p: (Reassembler, Frame)| (p.0@, p.1@)),
            rtt: self.rtt,
            last_recv: self.last_recv,
        }
    }
}

impl EngineView {
    /// Counters and datagram numbers have 24 bits; every queued frame is ordered and stands under
    /// its order index; every reassembly under way is incomplete.
    pub open spec fn wf(self) -> bool {
        &&& self.next_datagram_seq < SEQ_COUNT
        &&& self.next_message_index < SEQ_COUNT
        &&& self.next_order_index < SEQ_COUNT
        &&& self.next_sequence_index < SEQ_COUNT
        &&& self.next_delivery < SEQ_COUNT
        &&& self.window.wf()
        &&& self.unacked.dom().finite()
        &&& self.order_queue.dom().finite()
        &&& self.reassemblers.dom().finite()
        &&& self.pending_acks.finite()
        &&& forall|x: u32| #[trigger] self.pending_acks.contains(x) ==> x < SEQ_COUNT
        &&& forall|x: u32| #[trigger] self.unacked.dom().contains(x) ==> x < SEQ_COUNT
        &&& forall|k: u32| #[trigger]
            self.order_queue.dom().contains(k) ==> self.order_queue[k].order_index == Some(k)
                && self.order_queue[k].reliability.ordered() && self.order_queue[k].split is None
        &&& forall|id: u16| #[trigger]
            self.reassemblers.dom().contains(id) ==> self.reassemblers[id].0.wf()
                && self.reassemblers[id].1.split is None
    }
}

/// An engine that has sent and received nothing.
pub open spec fn new_engine(now: u64) -> EngineView {
    EngineView {
        next_datagram_seq: 0,
        next_message_index: 0,
        next_order_index: 0,
        next_sequence_index: 0,
        unacked: Map::empty(),
        window: window::new_window(),
        pending_acks: Set::empty(),
        order_queue: Map::empty(),
        next_delivery: 0,
        reassemblers: Map::empty(),
        rtt: INITIAL_RTT,
        last_recv: now,
    }
}

/// What a list of packets holds.
pub open spec fn packets(list: Seq<Vec<u8>>) -> Seq<Seq<u8>> {
    list.map_values(|b: Vec<u8>| b@)
}

// ==================== Sending ====================

/// The frame for a payload, with the indices that its reliability calls for.
pub open spec fn template_of(e: EngineView, r: Reliability, body: Seq<u8>) -> FrameView {
    FrameView {
        reliability: r,
        reliable_index: if r.reliable() {
            Some(e.next_message_index)
        } else {
            None
        },
        sequence_index: if r.sequenced() {
            Some(e.next_sequence_index)
        } else {
            None
        },
        order_index: if r.ordered() {
            Some(e.next_order_index)
        } else {
            None
        },
        order_channel: 0,
        split: None,
        body,
    }
}

/// The engine after the indices of a reliability were given out.
pub open spec fn indices_used(e: EngineView, r: Reliability) -> EngineView {
    EngineView {
        next_message_index: if r.reliable() {
            window::seq_plus(e.next_message_index, 1)
        } else {
            e.next_message_index
        },
        next_sequence_index: if r.sequenced() {
            window::seq_plus(e.next_sequence_index, 1)
        } else {
            e.next_sequence_index
        },
        next_order_index: if r.ordered() {
            window::seq_plus(e.next_order_index, 1)
        } else {
            e.next_order_index
        },
        ..e
    }
}

/// The split ID that goes with a datagram number.
pub open spec fn split_id_of(seq: u32) -> u16 {
    ((seq % 0x1_0000 + 1) % 0x1_0000) as u16
}

/// What sending a payload does. The indices are used up in any case, the datagram number unless
/// splitting fails; the datagram is remembered unless encoding fails.
pub open spec fn send_step(
    e: EngineView,
    r: Reliability,
    body: Seq<u8>,
    max_body_bytes: nat,
    now: u64,
) -> (EngineView, Result<Seq<u8>, Seq<char>>) {
    let seq = e.next_datagram_seq;
    let used = indices_used(e, r);
    match datagram::split_frames(template_of(e, r, body), max_body_bytes, split_id_of(seq)) {
        Err(m) => (used, Err(m)),
        Ok(frames) => {
            let numbered = EngineView { next_datagram_seq: window::seq_plus(seq, 1), ..used };
            match datagram::frames_error(frames) {
                Some(m) => (numbered, Err(m)),
                None => {
                    let packet = datagram::datagram_bytes(
                        DatagramView { sequence_number: seq, frames },
                    );
                    let record = RecordView { bytes: packet, sent_at: now, resends: 0 };
                    (
                        EngineView {
                            unacked: numbered.unacked.insert(seq, record),
                            ..numbered
                        },
                        Ok(packet),
                    )
                },
            }
        },
    }
}

// ==================== Receiving ====================

/// Where a complete frame goes: into the ordered queue, or straight to the caller.
pub open spec fn route(e: EngineView, delivered: Seq<FrameView>, f: FrameView) -> (
    EngineView,
    Seq<FrameView>,
) {
    if f.reliability.ordered() && f.order_index is Some {
        (EngineView { order_queue: e.order_queue.insert(f.order_index->0, f), ..e }, delivered)
    } else {
        (e, delivered.push(f))
    }
}

/// The fragments and the header that a fragment is added to: those under way for its split ID,
/// or a new reassembly with the header of this fragment.
pub open spec fn reassembly_of(e: EngineView, f: FrameView) -> (ReassemblerView, FrameView) {
    let id = f.split->0.id;
    if e.reassemblers.dom().contains(id) {
        e.reassemblers[id]
    } else {
        (
            datagram::no_fragments(),
            FrameView { split: None, body: Seq::empty(), ..f },
        )
    }
}

/// What receiving one frame does. A fragment joins its reassembly, and a completed payload is
/// routed; a refused fragment ends the reassembly.
pub open spec fn receive_frame(e: EngineView, delivered: Seq<FrameView>, f: FrameView) -> (
    EngineView,
    Result<Seq<FrameView>, Seq<char>>,
) {
    match f.split {
        None => {
            let (next, out) = route(e, delivered, f);
            (next, Ok(out))
        },
        Some(split) => {
            let (r, header) = reassembly_of(e, f);
            let without = EngineView { reassemblers: e.reassemblers.remove(split.id), ..e };
            match datagram::add_fragment(r, split, f.body) {
                Err(m) => (without, Err(m)),
                Ok((_, Some(body))) => {
                    let (next, out) = route(
                        without,
                        delivered,
                        FrameView { split: None, body, ..header },
                    );
                    (next, Ok(out))
                },
                Ok((more, None)) => (
                    EngineView {
                        reassemblers: without.reassemblers.insert(split.id, (more, header)),
                        ..without
                    },
                    Ok(delivered),
                ),
            }
        },
    }
}

/// What receiving frames does, one after the other, up to the first that is refused.
pub open spec fn receive_frames(e: EngineView, frames: Seq<FrameView>) -> (
    EngineView,
    Result<Seq<FrameView>, Seq<char>>,
)
    decreases frames.len(),
{
    if frames.len() == 0 {
        (e, Ok(seq![]))
    } else {
        match receive_frames(e, frames.drop_last()) {
            (next, Err(m)) => (next, Err(m)),
            (next, Ok(delivered)) => receive_frame(next, delivered, frames.last()),
        }
    }
}

/// The engine after a datagram number was recorded: a new number is to be acknowledged.
pub open spec fn number_received(e: EngineView, number: u32, now: u64) -> EngineView {
    let (w, new) = window::record_step(e.window, number);
    EngineView {
        last_recv: now,
        window: w,
        pending_acks: if new {
            e.pending_acks.insert(window::seq_plus(number, 0))
        } else {
            e.pending_acks
        },
        ..e
    }
}

/// The number of a datagram was not received before.
pub open spec fn is_new(e: EngineView, number: u32) -> bool {
    window::record_step(e.window, number).1
}

/// What receiving a datagram does. The frames of a duplicate are ignored.
pub open spec fn receive_step(e: EngineView, d: DatagramView, now: u64) -> (
    EngineView,
    Result<Seq<FrameView>, Seq<char>>,
) {
    let base = number_received(e, d.sequence_number, now);
    if is_new(e, d.sequence_number) {
        receive_frames(base, d.frames)
    } else {
        (base, Ok(seq![]))
    }
}

/// What draining the ordered queue gives: the rest of the queue, the order index whose turn it is
/// then, and the frames, in turn.
pub open spec fn drain(queue: Map<u32, FrameView>, next: u32) -> (
    Map<u32, FrameView>,
    u32,
    Seq<FrameView>,
)
    decreases queue.dom().len(),
{
    if queue.dom().finite() && queue.dom().contains(next) {
        let (rest, turn, frames) = drain(queue.remove(next), window::seq_plus(next, 1));
        (rest, turn, seq![queue[next]] + frames)
    } else {
        (queue, next, seq![])
    }
}

// ==================== Acknowledgements ====================

/// The time from `since` to `now`; zero where `since` is later.
pub open spec fn elapsed(now: u64, since: u64) -> u64 {
    if now >= since {
        (now - since) as u64
    } else {
        0
    }
}

/// Seven eighths of the old estimate and one eighth of the sample.
pub open spec fn smoothed(rtt: u64, sample: u64) -> u64 {
    (rtt - rtt / 8 + sample / 8) as u64
}

/// How many steps a range takes from its start to its end.
pub open spec fn range_steps(start: u32, end: u32) -> nat {
    if start == end {
        0
    } else if end < SEQ_COUNT {
        let d = window::distance(start, end) as nat;
        if d == 0 {
            SEQ_COUNT as nat
        } else {
            d
        }
    } else {
        (SEQ_COUNT - 1) as nat
    }
}

/// The numbers of a range, in order: from the start, round the 24-bit numbers where need be, to
/// the end; or the single number.
pub open spec fn covered(r: AckRange) -> Seq<u32> {
    match r.last() {
        None => seq![r.first()],
        Some(end) => Seq::new(range_steps(r.first(), end) + 1, |k: int| number_at(r.first(), k)),
    }
}

/// The number that is `k` steps from the start of a range.
pub open spec fn number_at(start: u32, k: int) -> u32 {
    if k == 0 {
        start
    } else {
        window::seq_plus(start, k)
    }
}

proof fn lemma_number_after(start: u32, k: int)
    requires
        k >= 0,
    ensures
        window::seq_plus(number_at(start, k), 1) == number_at(start, k + 1),
{
    window::lemma_seq_plus(start, k, 1);
}

/// A range that ends: one of its bounds has 24 bits, or they are equal.
pub open spec fn range_ends(r: AckRange) -> bool {
    r.last() matches Some(end) ==> r.first() < SEQ_COUNT || end < SEQ_COUNT || end == r.first()
}

/// What the acknowledgement of one number does: the datagram is forgotten, and the time since it
/// was sent refines the estimate.
pub open spec fn ack_one(e: EngineView, seq: u32, now: u64) -> EngineView {
    if e.unacked.dom().contains(seq) {
        EngineView {
            unacked: e.unacked.remove(seq),
            rtt: smoothed(e.rtt, elapsed(now, e.unacked[seq].sent_at)),
            ..e
        }
    } else {
        e
    }
}

/// What the acknowledgement of a list of numbers does.
pub open spec fn ack_numbers(e: EngineView, seqs: Seq<u32>, now: u64) -> EngineView
    decreases seqs.len(),
{
    if seqs.len() == 0 {
        e
    } else {
        ack_one(ack_numbers(e, seqs.drop_last(), now), seqs.last(), now)
    }
}

/// What the acknowledgement of a list of ranges does.
pub open spec fn ack_ranges(e: EngineView, ranges: Seq<AckRange>, now: u64) -> EngineView
    decreases ranges.len(),
{
    if ranges.len() == 0 {
        e
    } else {
        ack_numbers(ack_ranges(e, ranges.drop_last(), now), covered(ranges.last()), now)
    }
}

/// What receiving an ACK does: it counts as a packet received now, whatever it lists.
pub open spec fn ack_step(e: EngineView, ranges: Seq<AckRange>, now: u64) -> EngineView {
    ack_ranges(EngineView { last_recv: now, ..e }, ranges, now)
}

/// A record whose datagram is sent again now.
pub open spec fn sent_again(record: RecordView, now: u64) -> RecordView {
    RecordView {
        sent_at: now,
        resends: if record.resends == u32::MAX {
            u32::MAX
        } else {
            (record.resends + 1) as u32
        },
        ..record
    }
}

/// What a request for one number does: the datagram is sent again now, and its bytes go out.
pub open spec fn nack_one(
    unacked: Map<u32, RecordView>,
    out: Seq<Seq<u8>>,
    seq: u32,
    now: u64,
) -> (Map<u32, RecordView>, Seq<Seq<u8>>) {
    if unacked.dom().contains(seq) {
        let record = unacked[seq];
        (unacked.insert(seq, sent_again(record, now)), out.push(record.bytes))
    } else {
        (unacked, out)
    }
}

/// What a request for a list of numbers does.
pub open spec fn nack_numbers(
    unacked: Map<u32, RecordView>,
    out: Seq<Seq<u8>>,
    seqs: Seq<u32>,
    now: u64,
) -> (Map<u32, RecordView>, Seq<Seq<u8>>)
    decreases seqs.len(),
{
    if seqs.len() == 0 {
        (unacked, out)
    } else {
        let (m, o) = nack_numbers(unacked, out, seqs.drop_last(), now);
        nack_one(m, o, seqs.last(), now)
    }
}

/// What a request for a list of ranges does: the records afterwards and the packets to send.
pub open spec fn nack_ranges(unacked: Map<u32, RecordView>, ranges: Seq<AckRange>, now: u64) -> (
    Map<u32, RecordView>,
    Seq<Seq<u8>>,
)
    decreases ranges.len(),
{
    if ranges.len() == 0 {
        (unacked, seq![])
    } else {
        let (m, o) = nack_ranges(unacked, ranges.drop_last(), now);
        nack_numbers(m, o, covered(ranges.last()), now)
    }
}

/// What receiving a NACK does, and the packets to send: it counts as a packet received now,
/// whatever it lists.
pub open spec fn nack_step(e: EngineView, ranges: Seq<AckRange>, now: u64) -> (
    EngineView,
    Seq<Seq<u8>>,
) {
    let (unacked, out) = nack_ranges(e.unacked, ranges, now);
    (EngineView { unacked, last_recv: now, ..e }, out)
}

/// The ACK for the numbers that were received and not acknowledged yet.
pub open spec fn ack_due(e: EngineView) -> Option<AckView> {
    if e.pending_acks.is_empty() {
        None
    } else {
        Some(
            AckView {
                is_ack: true,
                ranges: window::entries(window::runs_of(window::ascending(e.pending_acks))),
            },
        )
    }
}

/// The engine after its ACK was taken: nothing is to be acknowledged.
pub open spec fn acks_taken(e: EngineView) -> EngineView {
    EngineView { pending_acks: Set::empty(), ..e }
}

/// The NACK for the numbers that are missing.
pub open spec fn nack_due(e: EngineView) -> Option<AckView> {
    let ranges = window::missing_of(e.window);
    if ranges.len() == 0 {
        None
    } else {
        Some(AckView { is_ack: false, ranges })
    }
}

/// How long a datagram may be outstanding before it is sent again.
pub open spec fn resend_after(e: EngineView) -> int {
    let wait = e.rtt * RESEND_RTT_MULTIPLIER;
    if wait >= MIN_RESEND_INTERVAL {
        wait
    } else {
        MIN_RESEND_INTERVAL as int
    }
}

/// A datagram has been outstanding for longer than that.
pub open spec fn is_due(e: EngineView, seq: u32, now: u64) -> bool {
    elapsed(now, e.unacked[seq].sent_at) > resend_after(e)
}

/// The packets of the datagrams among `seqs` that are due, in order.
pub open spec fn due_packets(e: EngineView, seqs: Seq<u32>, now: u64) -> Seq<Seq<u8>>
    decreases seqs.len(),
{
    if seqs.len() == 0 {
        seq![]
    } else if is_due(e, seqs.last(), now) {
        due_packets(e, seqs.drop_last(), now).push(e.unacked[seqs.last()].bytes)
    } else {
        due_packets(e, seqs.drop_last(), now)
    }
}

/// A record after its datagram was sent again, or as it was where it is not due.
pub open spec fn resent(e: EngineView, seq: u32, now: u64) -> RecordView {
    let record = e.unacked[seq];
    if is_due(e, seq, now) {
        sent_again(record, now)
    } else {
        record
    }
}

/// What sending the due datagrams again does, and their packets, lowest number first.
pub open spec fn resend_step(e: EngineView, now: u64) -> (EngineView, Seq<Seq<u8>>) {
    (
        EngineView {
            unacked: Map::new(
                |seq: u32| e.unacked.dom().contains(seq),
                |seq: u32| resent(e, seq, now),
            ),
            ..e
        },
        due_packets(e, window::ascending(e.unacked.dom()), now),
    )
}

/// A packet was received within the inactivity window.
pub open spec fn alive_at(e: EngineView, now: u64) -> bool {
    elapsed(now, e.last_recv) < INACTIVITY_BASE + e.rtt * 2
}

fn elapsed_since(now: u64, since: u64) -> (r: u64)
    ensures
        r == elapsed(now, since),
{
    now.saturating_sub(since)
}

proof fn lemma_receive_prefix_error(e: EngineView, frames: Seq<FrameView>, n: int)
    requires
        0 <= n <= frames.len(),
        receive_frames(e, frames.take(n)).1 is Err,
    ensures
        receive_frames(e, frames) == receive_frames(e, frames.take(n)),
    decreases frames.len() - n,
{
    if n == frames.len() {
        assert(frames.take(n) == frames);
    } else {
        assert(frames.take(n + 1).drop_last() == frames.take(n));
        lemma_receive_prefix_error(e, frames, n + 1);
    }
}

impl ReliabilityEngine {
    /// The state is one that the engine's operations lead to.
    pub open spec fn wf(&self) -> bool {
        self@.wf()
    }

    /// A fresh engine; `now` starts the inactivity clock.
    pub fn new(now: u64) -> (r: ReliabilityEngine)
        ensures
            r.wf(),
            r@ == new_engine(now),
    {
        let r = ReliabilityEngine {
            next_datagram_seq: 0,
            next_message_index: 0,
            next_order_index: 0,
            next_sequence_index: 0,
            unacked: BTreeMap::new(),
            recv_window: DatagramWindow::new(),
            pending_acks: BTreeSet::new(),
            order_queue: BTreeMap::new(),
            next_delivery_order_index: 0,
            reassemblers: BTreeMap::new(),
            rtt: INITIAL_RTT,
            last_recv: now,
        };
        assert(r@.unacked == Map::<u32, RecordView>::empty());
        assert(r@.order_queue == Map::<u32, FrameView>::empty());
        assert(r@.reassemblers == Map::<u16, (ReassemblerView, FrameView)>::empty());
        r
    }

    /// The round-trip estimate.
    pub fn rtt(&self) -> (r: u64)
        ensures
            r == self@.rtt,
    {
        self.rtt
    }

    /// How many datagrams are not acknowledged yet.
    pub fn unacked_len(&self) -> (r: usize)
        ensures
            r == self@.unacked.dom().len(),
    {
        assert(self@.unacked.dom() =~= self.unacked@.dom());
        self.unacked.len()
    }

    /// Puts a payload into a datagram, splitting it where it exceeds `max_body_bytes`, and
    /// remembers the datagram; gives its bytes.
    pub fn prepare_send(
        &mut self,
        reliability: Reliability,
        body: Vec<u8>,
        max_body_bytes: usize,
        now: u64,
    ) -> (r: Result<Vec<u8>, PingError>)
        requires
            old(self).wf(),
        ensures
            final(self).wf(),
            final(self)@ == send_step(
                old(self)@,
                reliability,
                body@,
                max_body_bytes as nat,
                now,
            ).0,
            match (
                r,
                send_step(old(self)@, reliability, body@, max_body_bytes as nat, now).1,
            ) {
                (Ok(b), Ok(v)) => b@ == v,
                (Err(e), Err(m)) => e.says(m),
                _ => false,
            },
    {
        let ghost start = self@;
        let ghost payload = body@;
        let mut template = Frame::new(reliability, body);
        if reliability.is_reliable() {
            template = template.with_reliable_index(self.next_message_index);
            self.next_message_index = window::seq_next(self.next_message_index);
        }
        if reliability.is_sequenced() {
            template = template.with_sequence_index(self.next_sequence_index);
            self.next_sequence_index = window::seq_next(self.next_sequence_index);
        }
        if reliability.is_ordered() {
            template = template.with_order(self.next_order_index, 0);
            self.next_order_index = window::seq_next(self.next_order_index);
        }
        assert(template@ == template_of(start, reliability, payload));
        assert(self@ == indices_used(start, reliability));
        let split_id: u16 = ((self.next_datagram_seq % 0x1_0000 + 1) % 0x1_0000) as u16;
        let fragments = match Frame::split_into(&template, max_body_bytes, split_id) {
            Ok(fragments) => fragments,
            Err(e) => {
                return Err(e);
            },
        };
        let seq: u32 = self.next_datagram_seq;
        self.next_datagram_seq = window::seq_next(self.next_datagram_seq);
        let dg = Datagram::new(seq, fragments)?;
        let packet = match dg.encode() {
            Ok(packet) => packet,
            Err(e) => {
                return Err(e);
            },
        };
        let record = ResendRecord {
            bytes: bytes::copy_all(packet.as_slice()),
            sent_at: now,
            resends: 0,
        };
        let ghost before = self@;
        let ghost rv = record@;
        self.unacked.insert(seq, record);
        assert(self@.unacked =~= before.unacked.insert(seq, rv));
        Ok(packet)
    }

    /// Routes a complete frame into the ordered queue or to `delivered`.
    fn route_frame(&mut self, frame: Frame, delivered: &mut Vec<Frame>)
        requires
            old(self).wf(),
            frame@.split is None,
        ensures
            final(self).wf(),
            (final(self)@, datagram::frame_views(final(delivered)@)) == route(
                old(self)@,
                datagram::frame_views(old(delivered)@),
                frame@,
            ),
    {
        if frame.reliability().is_ordered() {
            if let Some(order_index) = frame.order_index() {
                let ghost before = self@;
                let ghost fv = frame@;
                self.order_queue.insert(order_index, frame);
                assert(self@.order_queue =~= before.order_queue.insert(order_index, fv));
                return;
            }
        }
        let ghost before = datagram::frame_views(delivered@);
        let ghost fv = frame@;
        delivered.push(frame);
        assert(datagram::frame_views(delivered@) =~= before.push(fv));
    }

    /// Takes in one frame.
    fn receive_one(&mut self, frame: &Frame, delivered: &mut Vec<Frame>) -> (r: Result<
        (),
        PingError,
    >)
        requires
            old(self).wf(),
        ensures
            final(self).wf(),
            final(self)@ == receive_frame(
                old(self)@,
                datagram::frame_views(old(delivered)@),
                frame@,
            ).0,
            match (
                r,
                receive_frame(old(self)@, datagram::frame_views(old(delivered)@), frame@).1,
            ) {
                (Ok(_), Ok(out)) => datagram::frame_views(final(delivered)@) == out,
                (Err(e), Err(m)) => e.says(m),
                _ => false,
            },
    {
        let split = match frame.split() {
            None => {
                self.route_frame(frame.clone(), delivered);
                return Ok(());
            },
            Some(split) => split,
        };
        let chunk = bytes::copy_all(frame.body());
        let ghost start = self@;
        let ghost raw = self.reassemblers@;
        assert(start.reassemblers.dom() =~= raw.dom());
        let (mut reassembler, template) = match self.reassemblers.remove(&split.id) {
            Some(pair) => {
                assert(raw[split.id] == pair);
                assert((pair.0@, pair.1@) == start.reassemblers[split.id]);
                pair
            },
            None => (Reassembler::new(), frame.reassembly_template()),
        };
        assert(self@.reassemblers =~= start.reassemblers.remove(split.id));
        assert((reassembler@, template@) == reassembly_of(start, frame@));
        match reassembler.add(split, chunk) {
            Err(e) => Err(e),
            Ok(Some(assembled)) => {
                self.route_frame(template.with_body(assembled), delivered);
                Ok(())
            },
            Ok(None) => {
                let ghost without = self@;
                let ghost pv = (reassembler@, template@);
                self.reassemblers.insert(split.id, (reassembler, template));
                assert(self@.reassemblers =~= without.reassemblers.insert(split.id, pv));
                Ok(())
            },
        }
    }

    /// Takes in a datagram: schedules its acknowledgement where its number is new, and gives the
    /// frames that are delivered at once. Ordered frames wait for [`Self::drain_ordered`]. The
    /// frames of a duplicate are ignored.
    #[verifier::spinoff_prover]
    #[verifier::rlimit(60)]
    pub fn on_datagram_received(&mut self, dg: &Datagram, now: u64) -> (r: Result<
        Vec<Frame>,
        PingError,
    >)
        requires
            old(self).wf(),
        ensures
            final(self).wf(),
            final(self)@ == receive_step(old(self)@, dg@, now).0,
            match (r, receive_step(old(self)@, dg@, now).1) {
                (Ok(fs), Ok(out)) => datagram::frame_views(fs@) == out,
                (Err(e), Err(m)) => e.says(m),
                _ => false,
            },
    {
        let ghost first = self@;
        self.last_recv = now;
        let seq: u32 = dg.sequence_number() % SEQ_COUNT;
        let fresh = self.recv_window.record(seq);
        if fresh {
            self.pending_acks.insert(seq);
        }
        assert(self@ == number_received(first, dg@.sequence_number, now));
        if !fresh {
            let none: Vec<Frame> = Vec::new();
            assert(datagram::frame_views(none@) == Seq::<FrameView>::empty());
            return Ok(none);
        }
        let ghost start = self@;
        let frames = dg.frames();
        let ghost all = dg@.frames;
        let mut delivered: Vec<Frame> = Vec::new();
        let mut i: usize = 0;
        proof {
            assert(all.take(0) == Seq::<FrameView>::empty());
            assert(datagram::frame_views(delivered@) == Seq::<FrameView>::empty());
        }
        while i < frames.len()
            invariant
                self.wf(),
                i <= frames@.len(),
                all == datagram::frame_views(frames@),
                receive_frames(start, all.take(i as int)) == (
                    self@,
                    Ok::<Seq<FrameView>, Seq<char>>(datagram::frame_views(delivered@)),
                ),
                first == old(self)@,
                receive_step(first, dg@, now) == receive_frames(start, all),
            decreases frames@.len() - i,
        {
            proof {
                assert(all.take(i as int + 1).drop_last() == all.take(i as int));
                assert(all.take(i as int + 1).last() == frames@[i as int]@);
            }
            match self.receive_one(&frames[i], &mut delivered) {
                Ok(_) => {},
                Err(e) => {
                    proof {
                        lemma_receive_prefix_error(start, all, i as int + 1);
                    }
                    return Err(e);
                },
            }
            i = i + 1;
        }
        assert(all.take(i as int) == all);
        Ok(delivered)
    }

    /// Gives the ordered frames whose turn has come, in order.
    pub fn drain_ordered(&mut self) -> (r: Vec<Frame>)
        requires
            old(self).wf(),
        ensures
            final(self).wf(),
            ({
                let (queue, next, frames) = drain(old(self)@.order_queue, old(self)@.next_delivery);
                &&& datagram::frame_views(r@) == frames
                &&& final(self)@ == (EngineView {
                    order_queue: queue,
                    next_delivery: next,
                    ..old(self)@
                })
            }),
    {
        let ghost start = self@;
        let ghost total = drain(start.order_queue, start.next_delivery);
        let mut out: Vec<Frame> = Vec::new();
        assert(datagram::frame_views(out@) + total.2 == total.2);
        loop
            invariant
                self.wf(),
                self@ == (EngineView {
                    order_queue: self@.order_queue,
                    next_delivery: self@.next_delivery,
                    ..start
                }),
                ({
                    let rest = drain(self@.order_queue, self@.next_delivery);
                    &&& rest.0 == total.0
                    &&& rest.1 == total.1
                    &&& datagram::frame_views(out@) + rest.2 == total.2
                }),
            ensures
                self.wf(),
                self@ == (EngineView { order_queue: total.0, next_delivery: total.1, ..start }),
                datagram::frame_views(out@) == total.2,
            decreases self@.order_queue.dom().len(),
        {
            let ghost before = self@;
            let ghost raw = self.order_queue@;
            let ghost done = datagram::frame_views(out@);
            assert(before.order_queue.dom() =~= raw.dom());
            match self.order_queue.remove(&self.next_delivery_order_index) {
                None => {
                    assert(done + Seq::<FrameView>::empty() == done);
                    assert(self@.order_queue =~= before.order_queue);
                    break;
                },
                Some(frame) => {
                    assert(raw[before.next_delivery] == frame);
                    assert(self@.order_queue =~= before.order_queue.remove(before.next_delivery));
                    self.next_delivery_order_index = window::seq_next(
                        self.next_delivery_order_index,
                    );
                    let ghost fv = frame@;
                    out.push(frame);
                    proof {
                        let rest = drain(self@.order_queue, self@.next_delivery);
                        assert(datagram::frame_views(out@) =~= done.push(fv));
                        assert(done + (seq![fv] + rest.2) =~= done.push(fv) + rest.2);
                    }
                },
            }
        }
        out
    }
}

/// The number of steps of [`range_steps`].
fn count_steps(start: u32, end: u32) -> (r: u32)
    requires
        start < SEQ_COUNT || end < SEQ_COUNT || end == start,
    ensures
        r == range_steps(start, end),
        r <= SEQ_COUNT,
{
    if start == end {
        0
    } else if end < SEQ_COUNT {
        let d: u32 = window::seq_forward_distance(start, end);
        if d == 0 {
            SEQ_COUNT
        } else {
            d
        }
    } else {
        SEQ_COUNT - 1
    }
}

impl ReliabilityEngine {
    /// Takes in the acknowledgement of one number.
    fn ack_number(&mut self, seq: u32, now: u64)
        requires
            old(self).wf(),
        ensures
            final(self).wf(),
            final(self)@ == ack_one(old(self)@, seq, now),
    {
        let ghost before = self@;
        let ghost raw = self.unacked@;
        assert(before.unacked.dom() =~= raw.dom());
        match self.unacked.remove(&seq) {
            Some(record) => {
                assert(raw[seq] == record);
                let sample: u64 = elapsed_since(now, record.sent_at);
                self.update_rtt(sample);
                assert(self@.unacked =~= before.unacked.remove(seq));
            },
            None => {
                assert(self@.unacked =~= before.unacked);
            },
        }
    }

    /// Blends a sample into the round-trip estimate.
    fn update_rtt(&mut self, sample: u64)
        ensures
            final(self)@ == (EngineView { rtt: smoothed(old(self)@.rtt, sample), ..old(self)@ }),
    {
        let old_rtt: u64 = self.rtt;
        self.rtt = old_rtt - old_rtt / 8 + sample / 8;
    }

    /// Takes in the acknowledgement of one range.
    fn ack_range(&mut self, range: &AckRange, now: u64)
        requires
            old(self).wf(),
            range_ends(*range),
        ensures
            final(self).wf(),
            final(self)@ == ack_numbers(old(self)@, covered(*range), now),
    {
        let ghost so_far = self@;
        let ghost nums = covered(*range);
        let first: u32 = range.start();
        let steps: u32 = match range.end() {
            None => 0,
            Some(end) => count_steps(first, end),
        };
        let mut seq: u32 = first;
        let mut k: u32 = 0;
        assert(nums.take(0) == Seq::<u32>::empty());
        while k <= steps
            invariant
                self.wf(),
                steps <= SEQ_COUNT,
                k <= steps + 1,
                nums.len() == steps + 1,
                nums == covered(*range),
                first == range.first(),
                seq == number_at(first, k as int),
                self@ == ack_numbers(so_far, nums.take(k as int), now),
            decreases steps + 1 - k,
        {
            proof {
                assert(nums.take(k as int + 1).drop_last() == nums.take(k as int));
                assert(nums[k as int] == seq);
                lemma_number_after(first, k as int);
            }
            self.ack_number(seq, now);
            seq = window::seq_next(seq);
            k = k + 1;
        }
        assert(nums.take(k as int) == nums);
    }

    /// Takes in an ACK: forgets the acknowledged datagrams and refines the round-trip estimate. It
    /// keeps the session alive, as every packet does.
    pub fn on_ack(&mut self, ack: &Acknowledgement, now: u64)
        requires
            old(self).wf(),
            forall|i: int| 0 <= i < ack@.ranges.len() ==> range_ends(#[trigger] ack@.ranges[i]),
        ensures
            final(self).wf(),
            final(self)@ == ack_step(old(self)@, ack@.ranges, now),
    {
        self.last_recv = now;
        let ghost start_state = self@;
        let ranges = ack.ranges();
        let mut i: usize = 0;
        assert(ranges@.take(0) == Seq::<AckRange>::empty());
        while i < ranges.len()
            invariant
                self.wf(),
                i <= ranges@.len(),
                forall|j: int| 0 <= j < ranges@.len() ==> range_ends(#[trigger] ranges@[j]),
                self@ == ack_ranges(start_state, ranges@.take(i as int), now),
            decreases ranges@.len() - i,
        {
            let range = ranges[i];
            self.ack_range(&range, now);
            proof {
                assert(ranges@.take(i as int + 1).drop_last() == ranges@.take(i as int));
                assert(ranges@.take(i as int + 1).last() == range);
            }
            i = i + 1;
        }
        assert(ranges@.take(i as int) == ranges@);
    }

    /// Takes in a request for one number.
    fn nack_number(&mut self, seq: u32, now: u64, out: &mut Vec<Vec<u8>>)
        requires
            old(self).wf(),
        ensures
            final(self).wf(),
            ({
                let (m, o) = nack_one(old(self)@.unacked, packets(old(out)@), seq, now);
                &&& final(self)@ == (EngineView { unacked: m, ..old(self)@ })
                &&& packets(final(out)@) == o
            }),
    {
        let ghost before = self@;
        let ghost raw = self.unacked@;
        let ghost sent = packets(out@);
        assert(before.unacked.dom() =~= raw.dom());
        match self.unacked.remove(&seq) {
            Some(record) => {
                assert(raw[seq] == record);
                let copy = bytes::copy_all(record.bytes.as_slice());
                let ghost cv = copy@;
                out.push(copy);
                assert(packets(out@) =~= sent.push(cv));
                let refreshed = ResendRecord {
                    bytes: record.bytes,
                    sent_at: now,
                    resends: record.resends.saturating_add(1),
                };
                let ghost rv = refreshed@;
                self.unacked.insert(seq, refreshed);
                assert(self@.unacked =~= before.unacked.insert(seq, rv));
            },
            None => {
                assert(self@.unacked =~= before.unacked);
            },
        }
    }

    /// Takes in a request for one range.
    fn nack_range(&mut self, range: &AckRange, now: u64, out: &mut Vec<Vec<u8>>)
        requires
            old(self).wf(),
            range_ends(*range),
        ensures
            final(self).wf(),
            ({
                let (m, o) = nack_numbers(
                    old(self)@.unacked,
                    packets(old(out)@),
                    covered(*range),
                    now,
                );
                &&& final(self)@ == (EngineView { unacked: m, ..old(self)@ })
                &&& packets(final(out)@) == o
            }),
    {
        let ghost start_state = self@;
        let ghost sent = packets(out@);
        let ghost nums = covered(*range);
        let first: u32 = range.start();
        let steps: u32 = match range.end() {
            None => 0,
            Some(end) => count_steps(first, end),
        };
        let mut seq: u32 = first;
        let mut k: u32 = 0;
        assert(nums.take(0) == Seq::<u32>::empty());
        while k <= steps
            invariant
                self.wf(),
                steps <= SEQ_COUNT,
                k <= steps + 1,
                nums.len() == steps + 1,
                nums == covered(*range),
                first == range.first(),
                seq == number_at(first, k as int),
                self@ == (EngineView { unacked: self@.unacked, ..start_state }),
                (self@.unacked, packets(out@)) == nack_numbers(
                    start_state.unacked,
                    sent,
                    nums.take(k as int),
                    now,
                ),
            decreases steps + 1 - k,
        {
            proof {
                assert(nums.take(k as int + 1).drop_last() == nums.take(k as int));
                assert(nums[k as int] == seq);
                lemma_number_after(first, k as int);
            }
            self.nack_number(seq, now, out);
            seq = window::seq_next(seq);
            k = k + 1;
        }
        assert(nums.take(k as int) == nums);
    }

    /// Takes in a NACK: gives the packets to send again, which count as sent now. It keeps the
    /// session alive, as every packet does.
    pub fn on_nack(&mut self, nack: &Acknowledgement, now: u64) -> (r: Vec<Vec<u8>>)
        requires
            old(self).wf(),
            forall|i: int| 0 <= i < nack@.ranges.len() ==> range_ends(#[trigger] nack@.ranges[i]),
        ensures
            final(self).wf(),
            (final(self)@, packets(r@)) == nack_step(old(self)@, nack@.ranges, now),
    {
        self.last_recv = now;
        let ghost start_state = self@;
        let mut out: Vec<Vec<u8>> = Vec::new();
        let ranges = nack.ranges();
        let mut i: usize = 0;
        assert(ranges@.take(0) == Seq::<AckRange>::empty());
        assert(packets(out@) == Seq::<Seq<u8>>::empty());
        while i < ranges.len()
            invariant
                self.wf(),
                i <= ranges@.len(),
                forall|j: int| 0 <= j < ranges@.len() ==> range_ends(#[trigger] ranges@[j]),
                self@ == (EngineView { unacked: self@.unacked, ..start_state }),
                (self@.unacked, packets(out@)) == nack_ranges(
                    start_state.unacked,
                    ranges@.take(i as int),
                    now,
                ),
            decreases ranges@.len() - i,
        {
            let range = ranges[i];
            self.nack_range(&range, now, &mut out);
            proof {
                assert(ranges@.take(i as int + 1).drop_last() == ranges@.take(i as int));
                assert(ranges@.take(i as int + 1).last() == range);
            }
            i = i + 1;
        }
        assert(ranges@.take(i as int) == ranges@);
        out
    }

    /// Gives the ACK for everything received since the last call, or `None`.
    pub fn drain_acks(&mut self) -> (r: Option<Acknowledgement>)
        requires
            old(self).wf(),
        ensures
            final(self).wf(),
            final(self)@ == acks_taken(old(self)@),
            final(self)@ == (EngineView { pending_acks: Set::empty(), ..old(self)@ }),
            match (r, ack_due(old(self)@)) {
                (Some(a), Some(v)) => a@ == v,
                (None, None) => true,
                _ => false,
            },
    {
        if self.pending_acks.is_empty() {
            assert(self@.pending_acks =~= Set::empty());
            return None;
        }
        let seqs = window::sorted_members(&self.pending_acks);
        self.pending_acks.clear();
        let ranges = window::coalesce_ranges(seqs.as_slice());
        Some(Acknowledgement::new(true, ranges))
    }

    /// Gives the NACK for the numbers that are missing, or `None`.
    pub fn build_nack(&self) -> (r: Option<Acknowledgement>)
        requires
            self.wf(),
        ensures
            match (r, nack_due(self@)) {
                (Some(a), Some(v)) => a@ == v,
                (None, None) => true,
                _ => false,
            },
    {
        let ranges = self.recv_window.missing();
        if ranges.len() == 0 {
            None
        } else {
            Some(Acknowledgement::new(false, ranges))
        }
    }

    /// Gives the packets of the datagrams that have been outstanding too long, lowest number
    /// first; they count as sent now.
    pub fn resend_due(&mut self, now: u64) -> (r: Vec<Vec<u8>>)
        requires
            old(self).wf(),
        ensures
            final(self).wf(),
            (final(self)@, packets(r@)) == resend_step(old(self)@, now),
    {
        let ghost e = self@;
        let wait: u128 = self.rtt as u128 * RESEND_RTT_MULTIPLIER as u128;
        let threshold: u128 = if wait >= MIN_RESEND_INTERVAL as u128 {
            wait
        } else {
            MIN_RESEND_INTERVAL as u128
        };
        let keys = window::sorted_keys(&self.unacked);
        let mut out: Vec<Vec<u8>> = Vec::new();
        let mut i: usize = 0;
        proof {
            window::lemma_ascending_members(e.unacked.dom());
            assert(e.unacked.dom() =~= self.unacked@.dom());
            assert(keys@.take(0) == Seq::<u32>::empty());
            assert(packets(out@) == Seq::<Seq<u8>>::empty());
        }
        while i < keys.len()
            invariant
                self.wf(),
                e.wf(),
                i <= keys@.len(),
                threshold == resend_after(e),
                window::increasing(keys@),
                forall|x: u32| #[trigger] keys@.contains(x) <==> e.unacked.dom().contains(x),
                self@ == (EngineView { unacked: self@.unacked, ..e }),
                self@.unacked.dom() == e.unacked.dom(),
                forall|j: int|
                    0 <= j < i ==> self@.unacked[#[trigger] keys@[j]] == resent(e, keys@[j], now),
                forall|j: int|
                    i <= j < keys@.len() ==> self@.unacked[#[trigger] keys@[j]]
                        == e.unacked[keys@[j]],
                packets(out@) == due_packets(e, keys@.take(i as int), now),
            decreases keys@.len() - i,
        {
            let seq: u32 = keys[i];
            let ghost before = self@;
            let ghost raw = self.unacked@;
            let ghost sent = packets(out@);
            proof {
                assert(before.unacked.dom() =~= raw.dom());
                assert(keys@.contains(seq));
                assert(keys@.take(i as int + 1).drop_last() == keys@.take(i as int));
                assert(keys@.take(i as int + 1).last() == seq);
            }
            match self.unacked.remove(&seq) {
                Some(record) => {
                    assert(raw[seq] == record);
                    let record = if elapsed_since(now, record.sent_at) as u128 > threshold {
                        let copy = bytes::copy_all(record.bytes.as_slice());
                        let ghost cv = copy@;
                        out.push(copy);
                        assert(packets(out@) =~= sent.push(cv));
                        ResendRecord {
                            bytes: record.bytes,
                            sent_at: now,
                            resends: record.resends.saturating_add(1),
                        }
                    } else {
                        record
                    };
                    let ghost rv = record@;
                    self.unacked.insert(seq, record);
                    proof {
                        assert(self@.unacked =~= before.unacked.insert(seq, rv));
                        assert(rv == resent(e, seq, now));
                        assert(self@.unacked.dom() =~= e.unacked.dom());
                        assert forall|j: int| 0 <= j < i + 1 implies self@.unacked[
                            #[trigger] keys@[j]
                        ] == resent(e, keys@[j], now) by {
                            if j < i {
                                assert(keys@[j] < keys@[i as int]);
                            }
                        }
                        assert forall|j: int| i + 1 <= j < keys@.len() implies self@.unacked[
                            #[trigger] keys@[j]
                        ] == e.unacked[keys@[j]] by {
                            assert(keys@[i as int] < keys@[j]);
                        }
                    }
                },
                None => {
                    assert(false);
                },
            }
            i = i + 1;
        }
        proof {
            assert(keys@.take(i as int) == keys@);
            let want = resend_step(e, now).0.unacked;
            assert forall|x: u32| want.dom().contains(x) implies #[trigger] self@.unacked[x]
                == want[x] by {
                assert(keys@.contains(x));
                let j = choose|j: int| 0 <= j < keys@.len() && keys@[j] == x;
                assert(self@.unacked[keys@[j]] == resent(e, keys@[j], now));
            }
            assert(self@.unacked =~= want);
        }
        out
    }

    /// Whether a packet was received within the inactivity window.
    pub fn is_alive(&self, now: u64) -> (r: bool)
        ensures
            r == alive_at(self@, now),
    {
        let timeout: u128 = INACTIVITY_BASE as u128 + self.rtt as u128 * 2;
        (elapsed_since(now, self.last_recv) as u128) < timeout
    }
}

} // verus!
