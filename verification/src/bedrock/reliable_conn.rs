//! A reliable session over an established connection, without its socket.
//!
//! The caller owns the socket. It hands received packets to
//! [`ReliableConnection::handle_incoming`], sends what the methods give it to send, and calls
//! [`ReliableConnection::tick`] every few milliseconds. Moments are whole nanoseconds from any
//! fixed origin.
use vstd::prelude::*;

use super::conn::Connection;
use super::datagram;
use super::datagram::{Acknowledgement, Frame, FrameView, Incoming, IncomingView, Reliability};
use super::delivery;
use super::reliability;
use super::reliability::{EngineView, ReliabilityEngine};
use super::window;
use crate::bytes;
use crate::error::PingError;
use crate::text::protocol_error;

verus! {

/// How many packets wait to be sent at most.
pub const OUTGOING_CHANNEL: usize = 256;

/// How many frames wait to be taken by the application at most.
pub const DELIVERY_CHANNEL: usize = 256;

/// The largest body of a frame under an MTU: the datagram header and the largest frame header are
/// left room for.
pub fn max_frame_body(mtu: u16) -> (r: usize)
    ensures
        r == body_limit(mtu),
{
    let reserved: usize = 4 + datagram::FRAME_HEADER_MAX_OVERHEAD;
    (mtu as usize).saturating_sub(reserved)
}

/// The largest body of a frame under an MTU.
pub open spec fn body_limit(mtu: u16) -> nat {
    if mtu >= 24 {
        (mtu - 24) as nat
    } else {
        0
    }
}

/// A reliable, ordered, retransmitting session.
#[derive(Debug)]
pub struct ReliableConnection {
    engine: ReliabilityEngine,
    delivery: Vec<Frame>,
    outgoing: Vec<Vec<u8>>,
    closed: bool,
    mtu: u16,
    server_guid: i64,
}

/// What a [`ReliableConnection`] holds.
#[verifier::ext_equal]
pub struct SessionView {
    pub engine: EngineView,
    /// Frames that wait for the application, oldest first.
    pub delivery: Seq<FrameView>,
    /// Packets that wait to be sent, oldest first.
    pub outgoing: Seq<Seq<u8>>,
    /// The session was found dead.
    pub closed: bool,
    pub mtu: u16,
    pub server_guid: i64,
}

impl View for ReliableConnection {
    type V = SessionView;

    closed spec fn view(&self) -> SessionView {
        SessionView {
            engine: self.engine@,
            delivery: datagram::frame_views(self.delivery@),
            outgoing: reliability::packets(self.outgoing@),
            closed: self.closed,
            mtu: self.mtu,
            server_guid: self.server_guid,
        }
    }
}

impl SessionView {
    /// The engine is well-formed and neither queue holds more than it may.
    pub open spec fn wf(self) -> bool {
        &&& self.engine.wf()
        &&& self.delivery.len() <= DELIVERY_CHANNEL
        &&& self.outgoing.len() <= OUTGOING_CHANNEL
    }
}

/// As many items of `more` behind `queue` as fit in `room`.
pub open spec fn filled<T>(queue: Seq<T>, more: Seq<T>, room: nat) -> Seq<T> {
    if queue.len() + more.len() <= room {
        queue + more
    } else {
        queue + more.take(room - queue.len())
    }
}

/// What a received packet does to the session, the packets to send for it, or the error.
///
/// An ACK or NACK goes to the engine. A duplicate datagram is ignored. The frames of a datagram that are delivered at once and
/// then the ordered ones whose turn has come go to the application; those that find no room are
/// lost, and that is an error.
pub open spec fn incoming_step(v: SessionView, data: Seq<u8>, now: u64) -> (
    SessionView,
    Result<Seq<Seq<u8>>, Seq<char>>,
) {
    match datagram::incoming_of(data) {
        Err(m) => (v, Err(m)),
        Ok(IncomingView::Ack(a)) => (
            SessionView { engine: reliability::ack_step(v.engine, a.ranges, now), ..v },
            Ok(seq![]),
        ),
        Ok(IncomingView::Nack(a)) => {
            let (e, out) = reliability::nack_step(v.engine, a.ranges, now);
            (SessionView { engine: e, ..v }, Ok(out))
        },
        Ok(IncomingView::Datagram(d)) => match reliability::receive_step(v.engine, d, now) {
            (e, Err(m)) => (SessionView { engine: e, ..v }, Err(m)),
            (e, Ok(at_once)) => {
                let (queue, next, in_turn) = reliability::drain(e.order_queue, e.next_delivery);
                let frames = at_once + in_turn;
                (
                    SessionView {
                        engine: EngineView { order_queue: queue, next_delivery: next, ..e },
                        delivery: filled(v.delivery, frames, DELIVERY_CHANNEL as nat),
                        ..v
                    },
                    if v.delivery.len() + frames.len() <= DELIVERY_CHANNEL {
                        Ok(seq![])
                    } else {
                        Err("delivery queue full; application recv too slow"@)
                    },
                )
            },
        },
    }
}

/// The packet of an acknowledgement, where there is one that can be encoded.
pub open spec fn control_packet(a: Option<datagram::AckView>) -> Seq<Seq<u8>> {
    match a {
        Some(v) => if v.ranges.len() <= 65535 {
            seq![datagram::ack_bytes(v)]
        } else {
            seq![]
        },
        None => seq![],
    }
}

/// The engine after everything that is due was taken from it, and the packets: the ACK, the NACK,
/// and the datagrams to send again.
pub open spec fn due_step(e: EngineView, now: u64) -> (EngineView, Seq<Seq<u8>>) {
    let acked = EngineView { pending_acks: Set::empty(), ..e };
    let (after, resends) = reliability::resend_step(acked, now);
    (
        after,
        control_packet(reliability::ack_due(e)) + control_packet(reliability::nack_due(acked))
            + resends,
    )
}

/// What a tick does: the due packets are queued as far as there is room; a session that has been
/// silent too long is closed instead.
pub open spec fn tick_step(v: SessionView, now: u64) -> SessionView {
    if v.closed {
        v
    } else {
        let (e, due) = due_step(v.engine, now);
        if reliability::alive_at(e, now) {
            SessionView {
                engine: e,
                outgoing: filled(v.outgoing, due, OUTGOING_CHANNEL as nat),
                ..v
            }
        } else {
            SessionView { engine: e, closed: true, ..v }
        }
    }
}

/// A session that begins over a connection with this MTU and this server.
pub open spec fn new_session(mtu: u16, server_guid: i64, now: u64) -> SessionView {
    SessionView {
        engine: reliability::new_engine(now),
        delivery: Seq::empty(),
        outgoing: Seq::empty(),
        closed: false,
        mtu,
        server_guid,
    }
}

/// The session after the packets that waited were taken.
pub open spec fn sent_all(v: SessionView) -> SessionView {
    SessionView { outgoing: Seq::empty(), ..v }
}

/// What sending a payload does to the session, and the packet or the error.
pub open spec fn payload_step(v: SessionView, r: Reliability, body: Seq<u8>, now: u64) -> (
    SessionView,
    Result<Seq<u8>, Seq<char>>,
) {
    let (e, packet) = reliability::send_step(v.engine, r, body, body_limit(v.mtu), now);
    (SessionView { engine: e, ..v }, packet)
}

/// What taking a frame does to the session, and the frame, if there is one.
pub open spec fn take_step(v: SessionView) -> (SessionView, Option<FrameView>) {
    if v.delivery.len() > 0 {
        (SessionView { delivery: v.delivery.drop_first(), ..v }, Some(v.delivery[0]))
    } else {
        (v, None)
    }
}

proof fn lemma_records_valid(tag: Seq<char>, s: Seq<u8>, at: int, n: nat)
    ensures
        datagram::records_at(tag, s, at, n) matches Ok(ranges) ==> forall|i: int|
            0 <= i < ranges.len() ==> datagram::ack_range_valid(#[trigger] ranges[i]),
    decreases n,
{
    broadcast use {bytes::group_widths, datagram::lemma_ack_range_fields};

    if n > 0 {
        if let Ok((r, end)) = datagram::record_at(tag, s, at) {
            lemma_records_valid(tag, s, end, (n - 1) as nat);
            if let Ok(rest) = datagram::records_at(tag, s, end, (n - 1) as nat) {
                let all = seq![r] + rest;
                assert(datagram::ack_range_valid(r));
                assert forall|i: int| 0 <= i < all.len() implies datagram::ack_range_valid(
                    #[trigger] all[i],
                ) by {
                    if i > 0 {
                        assert(all[i] == rest[i - 1]);
                    }
                }
            }
        }
    }
}

/// A decoded acknowledgement holds 24-bit numbers only, so its ranges end.
pub proof fn lemma_decoded_ranges_end(data: Seq<u8>)
    ensures
        datagram::ack_of(data) matches Ok(Some(a)) ==> forall|i: int|
            0 <= i < a.ranges.len() ==> reliability::range_ends(#[trigger] a.ranges[i]),
{
    if data.len() >= 3 {
        let is_ack = datagram::flag_kind(data[0]) is Ack;
        let tag = datagram::ack_name(is_ack);
        lemma_records_valid(tag, data, 3, bytes::u16_at(data, 1) as nat);
        if let Ok(Some(a)) = datagram::ack_of(data) {
            assert forall|i: int| 0 <= i < a.ranges.len() implies reliability::range_ends(
                #[trigger] a.ranges[i],
            ) by {
                assert(datagram::ack_range_valid(a.ranges[i]));
            }
        }
    }
}

/// Moves frames into the delivery queue until it is full; says whether all found room.
fn deliver(queue: &mut Vec<Frame>, frames: Vec<Frame>) -> (r: bool)
    requires
        old(queue)@.len() <= DELIVERY_CHANNEL,
    ensures
        final(queue)@.len() <= DELIVERY_CHANNEL,
        datagram::frame_views(final(queue)@) == filled(
            datagram::frame_views(old(queue)@),
            datagram::frame_views(frames@),
            DELIVERY_CHANNEL as nat,
        ),
        r == (old(queue)@.len() + frames@.len() <= DELIVERY_CHANNEL),
{
    let ghost all = datagram::frame_views(frames@);
    let ghost before = datagram::frame_views(queue@);
    let mut i: usize = 0;
    assert(before + all.take(0) == before);
    while i < frames.len()
        invariant
            i <= frames@.len(),
            all == datagram::frame_views(frames@),
            before.len() == old(queue)@.len(),
            before.len() <= DELIVERY_CHANNEL,
            queue@.len() == before.len() + i,
            queue@.len() <= DELIVERY_CHANNEL,
            before == datagram::frame_views(old(queue)@),
            datagram::frame_views(queue@) == before + all.take(i as int),
        decreases frames@.len() - i,
    {
        if queue.len() >= DELIVERY_CHANNEL {
            return false;
        }
        let f = frames[i].clone();
        let ghost fv = f@;
        let ghost so_far = datagram::frame_views(queue@);
        queue.push(f);
        i = i + 1;
        proof {
            assert(datagram::frame_views(queue@) =~= so_far.push(fv));
            assert(all.take(i as int) =~= all.take(i - 1).push(all[i - 1]));
            assert(so_far.push(fv) =~= before + all.take(i as int));
        }
    }
    assert(all.take(i as int) == all);
    true
}

/// Moves packets into the outgoing queue until it is full.
fn enqueue(queue: &mut Vec<Vec<u8>>, more: Vec<Vec<u8>>)
    requires
        old(queue)@.len() <= OUTGOING_CHANNEL,
    ensures
        final(queue)@.len() <= OUTGOING_CHANNEL,
        reliability::packets(final(queue)@) == filled(
            reliability::packets(old(queue)@),
            reliability::packets(more@),
            OUTGOING_CHANNEL as nat,
        ),
{
    let ghost all = reliability::packets(more@);
    let ghost before = reliability::packets(queue@);
    let mut i: usize = 0;
    assert(before + all.take(0) == before);
    while i < more.len() && queue.len() < OUTGOING_CHANNEL
        invariant
            i <= more@.len(),
            all == reliability::packets(more@),
            before.len() <= OUTGOING_CHANNEL,
            queue@.len() == before.len() + i,
            queue@.len() <= OUTGOING_CHANNEL,
            reliability::packets(queue@) == before + all.take(i as int),
        decreases more@.len() - i,
    {
        let b = bytes::copy_all(more[i].as_slice());
        let ghost bv = b@;
        let ghost so_far = reliability::packets(queue@);
        queue.push(b);
        i = i + 1;
        proof {
            assert(reliability::packets(queue@) =~= so_far.push(bv));
            assert(all.take(i as int) =~= all.take(i - 1).push(all[i - 1]));
            assert(so_far.push(bv) =~= before + all.take(i as int));
        }
    }
    assert(all.take(all.len() as int) == all);
}

/// Encodes an acknowledgement.
fn encode_acknowledgement(ack: &Acknowledgement) -> (r: Result<Vec<u8>, PingError>)
    ensures
        match r {
            Ok(b) => control_packet(Some(ack@)) == seq![b@],
            Err(_) => control_packet(Some(ack@)) == Seq::<Seq<u8>>::empty(),
        },
{
    ack.encode()
}

/// Appends the packet of an acknowledgement, where there is one.
fn push_control(out: &mut Vec<Vec<u8>>, ack: Option<Acknowledgement>)
    ensures
        reliability::packets(final(out)@) == reliability::packets(old(out)@) + control_packet(
            match ack {
                Some(a) => Some(a@),
                None => None,
            },
        ),
{
    let ghost before = reliability::packets(out@);
    match ack {
        Some(a) => match encode_acknowledgement(&a) {
            Ok(b) => {
                let ghost bv = b@;
                out.push(b);
                assert(reliability::packets(out@) =~= before + seq![bv]);
            },
            Err(_) => {
                assert(before + Seq::<Seq<u8>>::empty() =~= before);
            },
        },
        None => {
            assert(before + Seq::<Seq<u8>>::empty() =~= before);
        },
    }
}

impl ReliableConnection {
    /// The state is one that the session's operations lead to.
    pub open spec fn wf(&self) -> bool {
        self@.wf()
    }

    /// A session over an established connection.
    pub fn new(conn: &Connection, now: u64) -> (r: ReliableConnection)
        ensures
            r.wf(),
            r@ == new_session(conn.mtu, conn.server_guid, now),
            r@ == (SessionView {
                engine: reliability::new_engine(now),
                delivery: Seq::empty(),
                outgoing: Seq::empty(),
                closed: false,
                mtu: conn.mtu,
                server_guid: conn.server_guid,
            }),
    {
        let r = ReliableConnection {
            engine: ReliabilityEngine::new(now),
            delivery: Vec::new(),
            outgoing: Vec::new(),
            closed: false,
            mtu: conn.mtu,
            server_guid: conn.server_guid,
        };
        assert(r@.delivery =~= Seq::<FrameView>::empty());
        assert(r@.outgoing =~= Seq::<Seq<u8>>::empty());
        r
    }

    /// The negotiated MTU.
    pub fn mtu(&self) -> (r: u16)
        ensures
            r == self@.mtu,
    {
        self.mtu
    }

    /// The server's GUID.
    pub fn server_guid(&self) -> (r: i64)
        ensures
            r == self@.server_guid,
    {
        self.server_guid
    }

    /// Prepares a payload; gives the packet to send.
    pub fn send(&mut self, reliability: Reliability, body: Vec<u8>, now: u64) -> (r: Result<
        Vec<u8>,
        PingError,
    >)
        requires
            old(self).wf(),
        ensures
            final(self).wf(),
            final(self)@ == payload_step(old(self)@, reliability, body@, now).0,
            match (r, payload_step(old(self)@, reliability, body@, now).1) {
                (Ok(b), Ok(v)) => b@ == v,
                (Err(x), Err(m)) => x.says(m),
                _ => false,
            },
            ({
                let (e, packet) = reliability::send_step(
                    old(self)@.engine,
                    reliability,
                    body@,
                    body_limit(old(self)@.mtu),
                    now,
                );
                &&& final(self)@ == (SessionView { engine: e, ..old(self)@ })
                &&& match (r, packet) {
                    (Ok(b), Ok(v)) => b@ == v,
                    (Err(x), Err(m)) => x.says(m),
                    _ => false,
                }
            }),
    {
        let max_body: usize = max_frame_body(self.mtu);
        self.engine.prepare_send(reliability, body, max_body, now)
    }

    /// Takes in a received packet; gives the packets to send for it.
    pub fn handle_incoming(&mut self, data: &[u8], now: u64) -> (r: Result<
        Vec<Vec<u8>>,
        PingError,
    >)
        requires
            old(self).wf(),
        ensures
            final(self).wf(),
            final(self)@ == incoming_step(old(self)@, data@, now).0,
            match (r, incoming_step(old(self)@, data@, now).1) {
                (Ok(out), Ok(v)) => reliability::packets(out@) == v,
                (Err(e), Err(m)) => e.says(m),
                _ => false,
            },
    {
        proof {
            lemma_decoded_ranges_end(data@);
        }
        let ghost start = self@;
        match datagram::classify(data) {
            Err(e) => Err(e),
            Ok(Incoming::Ack(ack)) => {
                self.engine.on_ack(&ack, now);
                let none: Vec<Vec<u8>> = Vec::new();
                assert(reliability::packets(none@) =~= Seq::<Seq<u8>>::empty());
                Ok(none)
            },
            Ok(Incoming::Nack(nack)) => Ok(self.engine.on_nack(&nack, now)),
            Ok(Incoming::Datagram(dg)) => {
                let mut frames = match self.engine.on_datagram_received(&dg, now) {
                    Ok(frames) => frames,
                    Err(e) => {
                        return Err(e);
                    },
                };
                let ghost at_once = datagram::frame_views(frames@);
                let mut in_turn = self.engine.drain_ordered();
                let ghost turn = datagram::frame_views(in_turn@);
                frames.append(&mut in_turn);
                assert(datagram::frame_views(frames@) =~= at_once + turn);
                if !deliver(&mut self.delivery, frames) {
                    return Err(
                        protocol_error("delivery queue full; application recv too slow"),
                    );
                }
                let none: Vec<Vec<u8>> = Vec::new();
                assert(reliability::packets(none@) =~= Seq::<Seq<u8>>::empty());
                Ok(none)
            },
        }
    }

    /// The next frame for the application, or `None` while there is none. Once the session is
    /// dead and all frames were taken, that is an error.
    pub fn recv(&mut self) -> (r: Result<Option<Frame>, PingError>)
        requires
            old(self).wf(),
        ensures
            final(self).wf(),
            final(self)@ == take_step(old(self)@).0,
            match (r, take_step(old(self)@).1) {
                (Ok(Some(f)), Some(v)) => f@ == v,
                (Ok(None), None) => true,
                (Err(_), None) => true,
                _ => false,
            },
            match r {
                Ok(Some(f)) => old(self)@.delivery.len() > 0 && f@ == old(self)@.delivery[0]
                    && final(self)@ == (SessionView {
                    delivery: old(self)@.delivery.drop_first(),
                    ..old(self)@
                }),
                Ok(None) => old(self)@.delivery.len() == 0 && !old(self)@.closed && final(self)@
                    == old(self)@,
                Err(e) => old(self)@.delivery.len() == 0 && old(self)@.closed && final(self)@
                    == old(self)@ && e.says("reliability delivery channel closed"@),
            },
    {
        if self.delivery.len() > 0 {
            let ghost before = self@;
            let f = self.delivery.remove(0);
            assert(self@.delivery =~= before.delivery.drop_first());
            Ok(Some(f))
        } else if self.closed {
            Err(protocol_error("reliability delivery channel closed"))
        } else {
            Ok(None)
        }
    }

    /// Takes the packets that wait to be sent.
    pub fn take_outgoing(&mut self) -> (r: Vec<Vec<u8>>)
        requires
            old(self).wf(),
        ensures
            final(self).wf(),
            reliability::packets(r@) == old(self)@.outgoing,
            final(self)@ == sent_all(old(self)@),
            final(self)@ == (SessionView { outgoing: Seq::empty(), ..old(self)@ }),
    {
        let mut out: Vec<Vec<u8>> = Vec::new();
        out.append(&mut self.outgoing);
        assert(reliability::packets(self.outgoing@) =~= Seq::<Seq<u8>>::empty());
        out
    }

    /// Queues what is due: ACKs, NACKs and datagrams to send again. Says whether the session is
    /// alive; once it is not, it is closed for good.
    pub fn tick(&mut self, now: u64) -> (r: bool)
        requires
            old(self).wf(),
        ensures
            final(self).wf(),
            final(self)@ == tick_step(old(self)@, now),
            r == !final(self)@.closed,
    {
        if self.closed {
            return false;
        }
        let ghost e = self.engine@;
        let mut due: Vec<Vec<u8>> = Vec::new();
        assert(reliability::packets(due@) =~= Seq::<Seq<u8>>::empty());
        let ack = self.engine.drain_acks();
        push_control(&mut due, ack);
        assert(reliability::packets(due@) =~= control_packet(reliability::ack_due(e)));
        let nack = self.engine.build_nack();
        push_control(&mut due, nack);
        let ghost control = reliability::packets(due@);
        let mut resends = self.engine.resend_due(now);
        let ghost resent = reliability::packets(resends@);
        due.append(&mut resends);
        assert(reliability::packets(due@) =~= control + resent);
        if !self.engine.is_alive(now) {
            self.closed = true;
            return false;
        }
        enqueue(&mut self.outgoing, due);
        true
    }
}

/// A payload that a sender's packet carries arrives at the application of a session that has not
/// received the packet before, has room for it, has no reassembly under the same split ID, and,
/// where the payload is ordered, waits for just this order index: it is the next frame behind
/// those that wait already.
pub proof fn law_payload_reaches_the_application(
    sender: EngineView,
    v: SessionView,
    r: Reliability,
    body: Seq<u8>,
    max_body_bytes: nat,
    sent_at: u64,
    received_at: u64,
)
    requires
        sender.wf(),
        v.wf(),
        v.delivery.len() < DELIVERY_CHANNEL,
        reliability::send_step(sender, r, body, max_body_bytes, sent_at).1 is Ok,
        reliability::is_new(v.engine, sender.next_datagram_seq),
        !v.engine.reassemblers.dom().contains(
            reliability::split_id_of(sender.next_datagram_seq),
        ),
        r.ordered() ==> v.engine.next_delivery == sender.next_order_index
            && !v.engine.order_queue.dom().contains(
            window::seq_plus(sender.next_order_index, 1),
        ),
        !r.ordered() ==> !v.engine.order_queue.dom().contains(v.engine.next_delivery),
    ensures
        ({
            let packet = reliability::send_step(sender, r, body, max_body_bytes, sent_at).1->Ok_0;
            let f = reliability::template_of(sender, r, body);
            let (after, out) = incoming_step(v, packet, received_at);
            &&& f.body == body
            &&& after.delivery == v.delivery.push(f)
            &&& out == Ok::<Seq<Seq<u8>>, Seq<char>>(Seq::empty())
        }),
{
    delivery::law_sent_payload_is_received(
        sender,
        v.engine,
        r,
        body,
        max_body_bytes,
        sent_at,
        received_at,
    );
    let f = reliability::template_of(sender, r, body);
    let base = reliability::number_received(v.engine, sender.next_datagram_seq, received_at);
    let (next, out) = reliability::route(base, Seq::empty(), f);
    let turn = v.engine.next_delivery;
    if r.ordered() {
        let queue = base.order_queue.insert(turn, f);
        let rest = queue.remove(turn);
        assert(queue.dom().contains(turn));
        assert(queue[turn] == f);
        assert(window::seq_plus(turn, 1) != turn);
        assert(!rest.dom().contains(window::seq_plus(turn, 1)));
        reveal_with_fuel(reliability::drain, 2);
        assert(reliability::drain(queue, turn).2 =~= seq![f]);
        assert(out + seq![f] =~= seq![f]);
    } else {
        assert(reliability::drain(next.order_queue, turn).2 =~= Seq::<FrameView>::empty());
        assert(out =~= seq![f]);
        assert(out + Seq::<FrameView>::empty() =~= seq![f]);
    }
    assert(v.delivery + seq![f] =~= v.delivery.push(f));
}

/// A dead session stays dead, and a tick of a dead session changes nothing.
pub proof fn law_closed_for_good(v: SessionView, now: u64)
    requires
        v.closed,
    ensures
        tick_step(v, now) == v,
{
}

// ==================== Laws ====================

/// The largest body of a frame leaves 24 bytes of the MTU, and nothing of a smaller one.
pub proof fn law_body_limit(mtu: u16)
    ensures
        mtu >= 24 ==> body_limit(mtu) + 24 == mtu,
        mtu < 24 ==> body_limit(mtu) == 0,
{
}

/// A datagram with one frame of such a body fits in the MTU, but for a fragment that is reliable
/// and sequenced, whose header is longer.
pub proof fn law_frame_fits(mtu: u16, number: u32, f: FrameView)
    requires
        mtu >= 24,
        f.body.len() <= body_limit(mtu),
        datagram::frame_error(f) is None,
        !(f.reliability is ReliableSequenced && f.split is Some),
    ensures
        datagram::datagram_bytes(
            datagram::DatagramView { sequence_number: number, frames: seq![f] },
        ).len() <= mtu,
{
    broadcast use bytes::group_widths;

    assert(seq![f].drop_last() =~= Seq::<FrameView>::empty());
    reveal_with_fuel(datagram::frames_bytes, 2);
    assert(datagram::frame_bytes(f).len() <= f.body.len() + 20);
}

/// A queue takes as much as it has room for, in order, behind what it holds.
pub proof fn law_queue_fills<T>(queue: Seq<T>, more: Seq<T>, room: nat)
    requires
        queue.len() <= room,
    ensures
        ({
            let all = filled(queue, more, room);
            &&& all.len() <= room
            &&& all.len() < room ==> all.len() == queue.len() + more.len()
            &&& all.len() <= queue.len() + more.len()
            &&& forall|i: int| 0 <= i < queue.len() ==> #[trigger] all[i] == queue[i]
            &&& forall|i: int|
                queue.len() <= i < all.len() ==> #[trigger] all[i] == more[i - queue.len()]
        }),
{
}

/// A packet that is none changes nothing. An ACK gives nothing to send and a NACK gives what it
/// asks for; neither gives the application anything.
pub proof fn law_control_packets(v: SessionView, data: Seq<u8>, now: u64)
    ensures
        datagram::incoming_of(data) is Err ==> incoming_step(v, data, now).0 == v && incoming_step(
            v,
            data,
            now,
        ).1 is Err,
        datagram::incoming_of(data) matches Ok(IncomingView::Ack(a)) ==> {
            let (next, out) = incoming_step(v, data, now);
            &&& out == Ok::<Seq<Seq<u8>>, Seq<char>>(seq![])
            &&& next.delivery == v.delivery && next.outgoing == v.outgoing
            &&& next.closed == v.closed && next.mtu == v.mtu && next.server_guid == v.server_guid
            &&& forall|x: u32| #[trigger]
                next.engine.unacked.dom().contains(x) <==> v.engine.unacked.dom().contains(x)
                    && !delivery::is_covered(a.ranges, x)
        },
        datagram::incoming_of(data) matches Ok(IncomingView::Nack(a)) ==> {
            let (next, out) = incoming_step(v, data, now);
            &&& out matches Ok(packets)
            &&& next.delivery == v.delivery && next.outgoing == v.outgoing
            &&& next.closed == v.closed && next.mtu == v.mtu && next.server_guid == v.server_guid
            &&& next.engine.unacked.dom() == v.engine.unacked.dom()
            &&& forall|x: u32| #[trigger]
                v.engine.unacked.dom().contains(x) && delivery::is_covered(a.ranges, x)
                    ==> packets.contains(v.engine.unacked[x].bytes)
        },
{
    if let Ok(IncomingView::Ack(a)) = datagram::incoming_of(data) {
        delivery::law_ack_forgets_what_it_covers(v.engine, a.ranges, now);
    }
    if let Ok(IncomingView::Nack(a)) = datagram::incoming_of(data) {
        delivery::law_nack_gives_what_it_covers(v.engine, a.ranges, now);
    }
}

/// A datagram gives nothing to send. What it delivers stands behind what waits already: first the
/// frames that are delivered at once, then those whose turn has come. What finds no room is lost,
/// and that, and nothing else but a refused frame, is an error.
pub proof fn law_datagram_is_delivered(
    v: SessionView,
    data: Seq<u8>,
    d: datagram::DatagramView,
    now: u64,
)
    requires
        v.delivery.len() <= 256,
        datagram::incoming_of(data) == Ok::<IncomingView, Seq<char>>(IncomingView::Datagram(d)),
    ensures
        ({
            let (next, out) = incoming_step(v, data, now);
            &&& next.outgoing == v.outgoing && next.closed == v.closed
            &&& next.mtu == v.mtu && next.server_guid == v.server_guid
            &&& next.engine.last_recv == now
            &&& match reliability::receive_step(v.engine, d, now) {
                (e, Err(_)) => out is Err && next.delivery == v.delivery,
                (e, Ok(first)) => {
                    let second = reliability::drain(e.order_queue, e.next_delivery).2;
                    &&& out is Ok <==> v.delivery.len() + first.len() + second.len() <= 256
                    &&& out matches Ok(packets) ==> packets.len() == 0 && next.delivery
                        == v.delivery + first + second
                    &&& out is Err ==> next.delivery.len() == 256
                    &&& v.delivery.is_prefix_of(next.delivery)
                },
            }
        }),
{
    let (e, got) = reliability::receive_step(v.engine, d, now);
    delivery::lemma_received_now(v.engine, d, now);
    if let Ok(first) = got {
        let second = reliability::drain(e.order_queue, e.next_delivery).2;
        assert(v.delivery + (first + second) =~= v.delivery + first + second);
        law_queue_fills(v.delivery, first + second, 256);
        let next = incoming_step(v, data, now).0;
        assert(next.delivery.take(v.delivery.len() as int) =~= v.delivery);
    }
}

/// What a tick does. A session that was closed stays as it is. One that has been silent for ten
/// seconds and two round trips is closed and queues nothing; any other queues what is due.
pub proof fn law_tick(v: SessionView, now: u64)
    requires
        v.outgoing.len() <= 256,
    ensures
        ({
            let next = tick_step(v, now);
            let (e, due) = due_step(v.engine, now);
            let silent = now - v.engine.last_recv >= 10_000_000_000 + 2 * v.engine.rtt;
            &&& v.closed ==> next == v
            &&& !v.closed ==> (next.closed <==> silent) && next.engine == e
            &&& !v.closed && silent ==> next.outgoing == v.outgoing
            &&& !v.closed && !silent && v.outgoing.len() + due.len() <= 256 ==> next.outgoing
                == v.outgoing + due
            &&& v.outgoing.is_prefix_of(next.outgoing)
            &&& next.outgoing.len() <= 256
            &&& next.delivery == v.delivery && next.mtu == v.mtu && next.server_guid
                == v.server_guid
        }),
{
    let (_, due) = due_step(v.engine, now);
    law_queue_fills(v.outgoing, due, 256);
    let next = tick_step(v, now);
    assert(next.outgoing.take(v.outgoing.len() as int) =~= v.outgoing);
}

proof fn lemma_ack_due_valid(e: EngineView)
    requires
        e.wf(),
        !e.pending_acks.is_empty(),
    ensures
        reliability::ack_due(e) matches Some(a) && forall|i: int|
            0 <= i < a.ranges.len() ==> datagram::ack_range_valid(#[trigger] a.ranges[i]),
{
    broadcast use datagram::lemma_ack_range_fields;

    let seqs = window::ascending(e.pending_acks);
    window::lemma_ascending_members(e.pending_acks);
    window::law_runs_cover_the_list(seqs);
    let runs = window::runs_of(seqs);
    let ranges = window::entries(runs);
    assert forall|i: int| 0 <= i < ranges.len() implies datagram::ack_range_valid(
        #[trigger] ranges[i],
    ) by {
        let (a, b) = runs[i];
        assert(window::in_runs(runs, b));
        assert(seqs.contains(b));
        assert(b < window::SEQ_COUNT);
        assert(ranges[i] == window::entry(a, b));
    }
}

/// What is due first is the ACK for the datagrams that were received since the last one: a packet
/// that is read as an ACK and covers exactly their numbers. Then none is to be acknowledged any
/// more. A list that is too long for one packet gives none.
pub proof fn law_due_ack(e: EngineView, now: u64)
    requires
        e.wf(),
    ensures
        due_step(e, now).0.pending_acks.is_empty(),
        !e.pending_acks.is_empty() && reliability::ack_due(e)->0.ranges.len() <= 65535 ==> {
            let (_, due) = due_step(e, now);
            &&& due.len() > 0
            &&& datagram::incoming_of(due[0]) matches Ok(IncomingView::Ack(a))
            &&& forall|x: u32| #[trigger]
                delivery::is_covered(a.ranges, x) <==> e.pending_acks.contains(x)
        },
{
    if !e.pending_acks.is_empty() && reliability::ack_due(e)->0.ranges.len() <= 65535 {
        delivery::law_ack_covers_what_was_received(e);
        lemma_ack_due_valid(e);
        let a = reliability::ack_due(e)->0;
        datagram::law_classify_acknowledgement(a);
        assert(due_step(e, now).1[0] == datagram::ack_bytes(a));
    }
}

/// What is due last are the packets of the overdue datagrams, lowest number first; with nothing to
/// acknowledge and nothing missing they are all that is due.
pub proof fn law_due_resends(e: EngineView, now: u64) -> (nums: Seq<u32>)
    requires
        e.wf(),
    ensures
        window::increasing(nums),
        forall|x: u32| #[trigger] nums.contains(x) <==> delivery::is_overdue(e, x, now),
        ({
            let (next, due) = due_step(e, now);
            let again = nums.map_values(|x: u32| e.unacked[x].bytes);
            &&& due.len() >= again.len()
            &&& due.skip(due.len() - again.len()) == again
            &&& e.pending_acks.is_empty() && reliability::nack_due(e) is None ==> due == again
            &&& next.unacked.dom() == e.unacked.dom()
            &&& next.rtt == e.rtt && next.last_recv == e.last_recv
            &&& next.order_queue == e.order_queue && next.window == e.window
        }),
{
    let acked = EngineView { pending_acks: Set::empty(), ..e };
    let nums = delivery::law_overdue_is_sent_again(acked, now);
    let again = nums.map_values(|x: u32| e.unacked[x].bytes);
    assert(again =~= nums.map_values(|x: u32| acked.unacked[x].bytes));
    let (_, due) = due_step(e, now);
    let control = control_packet(reliability::ack_due(e)) + control_packet(
        reliability::nack_due(acked),
    );
    assert(due =~= control + again);
    assert(due.skip(due.len() - again.len()) =~= again);
    assert forall|x: u32| #[trigger] nums.contains(x) <==> delivery::is_overdue(e, x, now) by {
        assert(delivery::is_overdue(e, x, now) <==> delivery::is_overdue(acked, x, now));
    }
    if e.pending_acks.is_empty() && reliability::nack_due(e) is None {
        assert(control =~= Seq::<Seq<u8>>::empty());
    }
    nums
}

/// A payload whose frame fits in the MTU with 24 bytes to spare is sent in one datagram of one frame
/// that fits; a larger one in fragments that have at most what is left of the MTU without them.
pub proof fn law_payload_is_fitted(v: SessionView, r: Reliability, body: Seq<u8>, now: u64)
    requires
        v.wf(),
        v.mtu > 24,
    ensures
        ({
            let (next, packet) = payload_step(v, r, body, now);
            &&& next == (SessionView { engine: next.engine, ..v })
            &&& packet matches Ok(p) ==> {
                &&& datagram::incoming_of(p) matches Ok(IncomingView::Datagram(d))
                &&& d.sequence_number == v.engine.next_datagram_seq
                &&& body.len() + 24 <= v.mtu ==> p.len() <= v.mtu && d.frames.len() == 1
                    && d.frames[0].body == body
                &&& forall|i: int|
                    0 <= i < d.frames.len() ==> (#[trigger] d.frames[i]).body.len() + 24 <= v.mtu
            }
        }),
{
    let limit = body_limit(v.mtu);
    let e = v.engine;
    let (_, packet) = payload_step(v, r, body, now);
    if packet is Ok {
        delivery::lemma_packet_is_datagram(e, r, body, limit, now);
        let f = reliability::template_of(e, r, body);
        let id = reliability::split_id_of(e.next_datagram_seq);
        let frames = datagram::split_frames(f, limit, id)->Ok_0;
        datagram::law_frames_error(frames);
        if body.len() <= limit {
            assert(frames =~= seq![f]);
            assert(frames[0] == f);
            law_frame_fits(v.mtu, e.next_datagram_seq, f);
        } else {
            datagram::law_fragments_fit(f, limit, id);
        }
    }
}

/// The session after the application took some frames, and those frames.
pub open spec fn taken(v: SessionView, n: nat) -> (SessionView, Seq<FrameView>)
    decreases n,
{
    if n == 0 {
        (v, seq![])
    } else {
        let (before, frames) = taken(v, (n - 1) as nat);
        match take_step(before) {
            (next, Some(f)) => (next, frames.push(f)),
            (next, None) => (next, frames),
        }
    }
}

/// The application takes frames in the order in which they were delivered, each once, until none is
/// left; nothing else changes.
pub proof fn law_frames_are_taken_in_order(v: SessionView, n: nat)
    ensures
        n <= v.delivery.len() ==> taken(v, n).1 == v.delivery.take(n as int) && taken(v, n).0 == (
        SessionView { delivery: v.delivery.skip(n as int), ..v }),
        n >= v.delivery.len() ==> taken(v, n).1 == v.delivery && taken(v, n).0.delivery.len() == 0,
    decreases n,
{
    if n == 0 {
        assert(v.delivery.skip(0) =~= v.delivery);
        assert(v.delivery.take(0) =~= Seq::<FrameView>::empty());
        if v.delivery.len() == 0 {
            assert(v.delivery =~= Seq::<FrameView>::empty());
        }
    } else {
        let k = (n - 1) as nat;
        law_frames_are_taken_in_order(v, k);
        if k < v.delivery.len() {
            assert(v.delivery.skip(k as int).drop_first() =~= v.delivery.skip(n as int));
            assert(v.delivery.take(k as int).push(v.delivery[k as int]) =~= v.delivery.take(
                n as int,
            ));
            if n == v.delivery.len() {
                assert(v.delivery.take(n as int) =~= v.delivery);
            }
        }
    }
}

/// A session begins empty and alive: it stays open for ten seconds and two round trips of two tenths
/// of a second without a packet, and has nothing to send and nothing to take.
pub proof fn law_new_session(mtu: u16, server_guid: i64, now: u64, later: u64)
    requires
        now <= later,
    ensures
        ({
            let v = new_session(mtu, server_guid, now);
            &&& v.wf()
            &&& v.mtu == mtu && v.server_guid == server_guid
            &&& take_step(v).1 is None
            &&& v.outgoing.len() == 0 && tick_step(v, later).outgoing.len() == 0
            &&& tick_step(v, later).closed <==> later - now >= 10_400_000_000
        }),
{
    let v = new_session(mtu, server_guid, now);
    delivery::law_new_engine(now);
    law_tick(v, later);
    let nums = law_due_resends(v.engine, later);
    let due = due_step(v.engine, later).1;
    assert(nums.len() == 0) by {
        if nums.len() > 0 {
            assert(nums.contains(nums[0]));
        }
    }
    assert(due.len() == 0);
}

/// Packets wait in the order in which they became due, and are taken all at once, each once; what
/// becomes due later waits alone.
pub proof fn law_packets_are_taken_once(v: SessionView, now: u64)
    requires
        !v.closed,
        reliability::alive_at(due_step(v.engine, now).0, now),
        due_step(v.engine, now).1.len() <= 256,
    ensures
        sent_all(v).outgoing.len() == 0,
        sent_all(v).delivery == v.delivery && sent_all(v).engine == v.engine,
        tick_step(sent_all(v), now).outgoing == due_step(v.engine, now).1,
{
    let due = due_step(v.engine, now).1;
    assert(Seq::<Seq<u8>>::empty() + due =~= due);
}

} // verus!
