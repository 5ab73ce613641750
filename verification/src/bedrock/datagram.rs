//! RakNet's connected wire format: datagrams, the frames they carry, and the ACK/NACK
//! packets that acknowledge them.
//!
//! ```text
//! Datagram:  flag(0x80-0x9F) | seq(u24 LE) | frame | frame | ...
//!
//! Frame:     flags(u8: reliability<<5 | split<<4)
//!            | body_length_bits(u16 BE)
//!            | [reliable_index(u24 LE)]   if reliable
//!            | [sequence_index(u24 LE)]   if sequenced
//!            | [order_index(u24 LE) | order_channel(u8)]   if ordered
//!            | [split_count(u32 BE) | split_id(u16 BE) | split_index(u32 BE)]   if split
//!            | body
//!
//! ACK/NACK:  flag(0xC0 ACK | 0xA0 NACK)
//!            | record_count(u16 BE)
//!            | record x record_count
//!               record: is_single(u8) | start(u24 LE) | [end(u24 LE) if not single]
//! ```
use std::collections::BTreeMap;
use vstd::prelude::*;

use super::raknet;
use super::raknet::PacketBuf;
use crate::bytes;
use crate::error::PingError;
use crate::text;
use crate::text::{protocol_error, Message};

verus! {

broadcast use bytes::group_widths;

/// Flag byte of an encoded datagram.
pub const FLAG_DATAGRAM: u8 = 0x80;

/// Flag byte of an ACK packet.
pub const FLAG_ACK: u8 = 0xc0;

/// Flag byte of a NACK packet.
pub const FLAG_NACK: u8 = 0xa0;

/// Record marker of a single sequence number.
pub const ACK_RECORD_SINGLE: u8 = 1;

/// Record marker of an inclusive range.
pub const ACK_RECORD_RANGE: u8 = 0;

/// The largest 24-bit value.
pub const U24_MAX: u32 = 0x00ff_ffff;

/// Bytes that a reliable-ordered fragment spends on its header, at worst.
pub const FRAME_HEADER_MAX_OVERHEAD: usize = 20;

// ==================== Reliability ====================

/// Delivery guarantee of a [`Frame`], encoded in the top three bits of its flags byte.
#[derive(Debug, Clone, Copy, PartialEq, Eq, Structural)]
pub enum Reliability {
    /// 0: fire and forget; no index fields on the wire.
    Unreliable,
    /// 1: drop if stale; sequenced and ordered index fields.
    UnreliableSequenced,
    /// 2: guaranteed delivery; reliable index field.
    Reliable,
    /// 3: guaranteed, in order per channel; reliable and ordered index fields.
    ReliableOrdered,
    /// 4: guaranteed, latest only per channel; all three index fields.
    ReliableSequenced,
}

/// The wire value of a reliability.
pub open spec fn raw_of(r: Reliability) -> u8 {
    match r {
        Reliability::Unreliable => 0,
        Reliability::UnreliableSequenced => 1,
        Reliability::Reliable => 2,
        Reliability::ReliableOrdered => 3,
        Reliability::ReliableSequenced => 4,
    }
}

/// The reliability with a wire value, for the values 0 to 4.
pub open spec fn reliability_of(raw: u8) -> Reliability {
    if raw == 0 {
        Reliability::Unreliable
    } else if raw == 1 {
        Reliability::UnreliableSequenced
    } else if raw == 2 {
        Reliability::Reliable
    } else if raw == 3 {
        Reliability::ReliableOrdered
    } else {
        Reliability::ReliableSequenced
    }
}

/// The message for a wire value that no reliability has.
pub open spec fn unsupported_reliability(raw: u8) -> Seq<char> {
    "unsupported frame reliability "@ + text::decimal(raw as nat)
        + " (only 0–4 are supported)"@
}

/// The name of a reliability, as errors give it.
pub open spec fn reliability_name(r: Reliability) -> Seq<char> {
    match r {
        Reliability::Unreliable => "Unreliable"@,
        Reliability::UnreliableSequenced => "UnreliableSequenced"@,
        Reliability::Reliable => "Reliable"@,
        Reliability::ReliableOrdered => "ReliableOrdered"@,
        Reliability::ReliableSequenced => "ReliableSequenced"@,
    }
}

impl Reliability {
    /// Carries a reliable index.
    pub open spec fn reliable(self) -> bool {
        self is Reliable || self is ReliableOrdered || self is ReliableSequenced
    }

    /// Carries a sequence index.
    pub open spec fn sequenced(self) -> bool {
        self is UnreliableSequenced || self is ReliableSequenced
    }

    /// Carries an order index and channel.
    pub open spec fn ordered(self) -> bool {
        self is UnreliableSequenced || self is ReliableOrdered || self is ReliableSequenced
    }

    /// Numeric value stored in the frame flags.
    pub fn as_raw(self) -> (r: u8)
        ensures
            r == raw_of(self),
    {
        match self {
            Reliability::Unreliable => 0,
            Reliability::UnreliableSequenced => 1,
            Reliability::Reliable => 2,
            Reliability::ReliableOrdered => 3,
            Reliability::ReliableSequenced => 4,
        }
    }

    /// Decodes the numeric value; only 0 to 4 are supported.
    pub fn from_raw(raw: u8) -> (r: Result<Reliability, PingError>)
        ensures
            match r {
                Ok(v) => raw <= 4 && v == reliability_of(raw) && raw_of(v) == raw,
                Err(e) => raw > 4 && e.says(unsupported_reliability(raw)),
            },
    {
        if raw == 0 {
            Ok(Reliability::Unreliable)
        } else if raw == 1 {
            Ok(Reliability::UnreliableSequenced)
        } else if raw == 2 {
            Ok(Reliability::Reliable)
        } else if raw == 3 {
            Ok(Reliability::ReliableOrdered)
        } else if raw == 4 {
            Ok(Reliability::ReliableSequenced)
        } else {
            Err(
                Message::new("unsupported frame reliability ").number(raw as u128).text(
                    " (only 0–4 are supported)",
                ).protocol(),
            )
        }
    }

    /// Whether frames of this reliability carry a reliable index.
    pub fn is_reliable(self) -> (r: bool)
        ensures
            r == self.reliable(),
    {
        matches!(
            self,
            Reliability::Reliable | Reliability::ReliableOrdered | Reliability::ReliableSequenced
        )
    }

    /// Whether frames of this reliability carry a sequence index.
    pub fn is_sequenced(self) -> (r: bool)
        ensures
            r == self.sequenced(),
    {
        matches!(self, Reliability::UnreliableSequenced | Reliability::ReliableSequenced)
    }

    /// Whether frames of this reliability carry an order index and channel.
    pub fn is_ordered(self) -> (r: bool)
        ensures
            r == self.ordered(),
    {
        matches!(
            self,
            Reliability::UnreliableSequenced | Reliability::ReliableOrdered
                | Reliability::ReliableSequenced
        )
    }

    /// The name of the variant.
    pub fn name(self) -> (r: &'static str)
        ensures
            r@ == reliability_name(self),
    {
        match self {
            Reliability::Unreliable => "Unreliable",
            Reliability::UnreliableSequenced => "UnreliableSequenced",
            Reliability::Reliable => "Reliable",
            Reliability::ReliableOrdered => "ReliableOrdered",
            Reliability::ReliableSequenced => "ReliableSequenced",
        }
    }
}

/// Every reliability survives being written as its wire value and read back.
pub proof fn law_reliability_round_trip(r: Reliability)
    ensures
        raw_of(r) <= 4,
        reliability_of(raw_of(r)) == r,
{
}

// ==================== Frame ====================

/// The three fields that a fragment of a larger payload carries.
#[derive(Debug, Clone, Copy, PartialEq, Eq, Structural)]
pub struct SplitInfo {
    /// Total number of fragments of the payload.
    pub count: u32,
    /// Identifier shared by all fragments of the payload.
    pub id: u16,
    /// Zero-based position of this fragment.
    pub index: u32,
}

/// One encapsulated payload inside a [`Datagram`], with its reliability header.
#[derive(Debug, PartialEq, Eq)]
pub struct Frame {
    reliability: Reliability,
    reliable_index: Option<u32>,
    sequence_index: Option<u32>,
    order_index: Option<u32>,
    order_channel: u8,
    split: Option<SplitInfo>,
    body: Vec<u8>,
}

/// What a [`Frame`] holds.
#[verifier::ext_equal]
pub struct FrameView {
    pub reliability: Reliability,
    pub reliable_index: Option<u32>,
    pub sequence_index: Option<u32>,
    pub order_index: Option<u32>,
    pub order_channel: u8,
    pub split: Option<SplitInfo>,
    pub body: Seq<u8>,
}

impl View for Frame {
    type V = FrameView;

    closed spec fn view(&self) -> FrameView {
        FrameView {
            reliability: self.reliability,
            reliable_index: self.reliable_index,
            sequence_index: self.sequence_index,
            order_index: self.order_index,
            order_channel: self.order_channel,
            split: self.split,
            body: self.body@,
        }
    }
}

/// What a list of frames holds.
pub open spec fn frame_views(frames: Seq<Frame>) -> Seq<FrameView> {
    frames.map_values(|f: Frame| f@)
}

/// The message for an index field that is set though its reliability has none, or the other
/// way round.
pub open spec fn index_rule(r: Reliability, field: Seq<char>, is_set: bool) -> Seq<char> {
    "reliability "@ + reliability_name(r) + " requires "@ + field + (if is_set {
        " to be absent"@
    } else {
        " to be set"@
    })
}

/// The message for a number over 24 bits.
pub open spec fn over_24_bits(what: Seq<char>, idx: u32) -> Seq<char> {
    what + text::hex(idx as nat) + " exceeds 24-bit maximum 0xffffff"@
}

/// An index field over 24 bits.
pub open spec fn over(idx: Option<u32>) -> bool {
    idx matches Some(v) && v > U24_MAX
}

/// Why a frame cannot be encoded, if it cannot.
pub open spec fn frame_error(f: FrameView) -> Option<Seq<char>> {
    if f.reliability.reliable() != (f.reliable_index is Some) {
        Some(index_rule(f.reliability, "reliable_index"@, f.reliable_index is Some))
    } else if f.reliability.sequenced() != (f.sequence_index is Some) {
        Some(index_rule(f.reliability, "sequence_index"@, f.sequence_index is Some))
    } else if f.reliability.ordered() != (f.order_index is Some) {
        Some(index_rule(f.reliability, "order_index"@, f.order_index is Some))
    } else if over(f.reliable_index) {
        Some(over_24_bits("frame index 0x"@, f.reliable_index->0))
    } else if over(f.sequence_index) {
        Some(over_24_bits("frame index 0x"@, f.sequence_index->0))
    } else if over(f.order_index) {
        Some(over_24_bits("frame index 0x"@, f.order_index->0))
    } else if f.body.len() * 8 > 65535 {
        Some(
            "frame body too large to encode: "@ + text::decimal(f.body.len()) + " bytes ("@
                + text::decimal(f.body.len() * 8) + " bits > 65535)"@,
        )
    } else {
        None
    }
}

/// The flags byte: the reliability in the top three bits, then the split bit.
pub open spec fn frame_flags(r: Reliability, is_split: bool) -> u8 {
    (raw_of(r) * 32 + (if is_split {
        16int
    } else {
        0
    })) as u8
}

/// An index field on the wire.
pub open spec fn index_bytes(idx: Option<u32>) -> Seq<u8> {
    match idx {
        Some(v) => bytes::le24(v),
        None => seq![],
    }
}

/// The order fields on the wire.
pub open spec fn order_bytes(idx: Option<u32>, channel: u8) -> Seq<u8> {
    match idx {
        Some(v) => bytes::le24(v).push(channel),
        None => seq![],
    }
}

/// The split fields on the wire.
pub open spec fn split_bytes(split: Option<SplitInfo>) -> Seq<u8> {
    match split {
        Some(s) => bytes::be32(s.count) + bytes::be16(s.id) + bytes::be32(s.index),
        None => seq![],
    }
}

/// A frame on the wire.
pub open spec fn frame_bytes(f: FrameView) -> Seq<u8> {
    seq![frame_flags(f.reliability, f.split is Some)] + bytes::be16((f.body.len() * 8) as u16)
        + index_bytes(f.reliable_index) + index_bytes(f.sequence_index) + order_bytes(
        f.order_index,
        f.order_channel,
    ) + split_bytes(f.split) + f.body
}

/// What stands at offset `at` of a packet that holds frames: the frame and the offset behind
/// it, nothing at the end of the packet, or an error and the offset at which reading stopped.
#[verifier::opaque]
pub open spec fn frame_at(tag: Seq<char>, s: Seq<u8>, at: int) -> Result<
    Option<(FrameView, int)>,
    (Seq<char>, int),
> {
    if at >= s.len() {
        Ok(None)
    } else if s[at] / 32 > 4 {
        Err((unsupported_reliability(s[at] / 32), at + 1))
    } else if s.len() < at + 3 {
        Err((raknet::too_short(tag, at + 1, s.len() - at - 1, 2), at + 1))
    } else if bytes::u16_at(s, at + 1) % 8 != 0 {
        Err(
            (
                "frame body length "@ + text::decimal(bytes::u16_at(s, at + 1) as nat)
                    + " is not a whole number of bytes"@,
                at + 3,
            ),
        )
    } else {
        let r = reliability_of(s[at] / 32);
        let is_split = s[at] / 16 % 2 == 1;
        let size = (bytes::u16_at(s, at + 1) / 8) as int;
        let reliable_at = at + 3;
        let sequence_at = reliable_at + (if r.reliable() {
            3int
        } else {
            0
        });
        let order_at = sequence_at + (if r.sequenced() {
            3int
        } else {
            0
        });
        let split_at = order_at + (if r.ordered() {
            4int
        } else {
            0
        });
        let body_at = split_at + (if is_split {
            10int
        } else {
            0
        });
        let stop = |p: int, n: int|
            Err::<Option<(FrameView, int)>, (Seq<char>, int)>(
                (raknet::too_short(tag, p, s.len() - p, n), p),
            );
        if r.reliable() && s.len() < reliable_at + 3 {
            stop(reliable_at, 3)
        } else if r.sequenced() && s.len() < sequence_at + 3 {
            stop(sequence_at, 3)
        } else if r.ordered() && s.len() < order_at + 3 {
            stop(order_at, 3)
        } else if r.ordered() && s.len() < order_at + 4 {
            stop(order_at + 3, 1)
        } else if is_split && s.len() < split_at + 4 {
            stop(split_at, 4)
        } else if is_split && s.len() < split_at + 6 {
            stop(split_at + 4, 2)
        } else if is_split && s.len() < split_at + 10 {
            stop(split_at + 6, 4)
        } else if s.len() < body_at + size {
            stop(body_at, size)
        } else {
            Ok(
                Some(
                    (
                        FrameView {
                            reliability: r,
                            reliable_index: if r.reliable() {
                                Some(bytes::u24_at(s, reliable_at))
                            } else {
                                None
                            },
                            sequence_index: if r.sequenced() {
                                Some(bytes::u24_at(s, sequence_at))
                            } else {
                                None
                            },
                            order_index: if r.ordered() {
                                Some(bytes::u24_at(s, order_at))
                            } else {
                                None
                            },
                            order_channel: if r.ordered() {
                                s[order_at + 3]
                            } else {
                                0
                            },
                            split: if is_split {
                                Some(
                                    SplitInfo {
                                        count: bytes::u32_at(s, split_at),
                                        id: bytes::u16_at(s, split_at + 4),
                                        index: bytes::u32_at(s, split_at + 6),
                                    },
                                )
                            } else {
                                None
                            },
                            body: s.subrange(body_at, body_at + size),
                        },
                        body_at + size,
                    ),
                ),
            )
        }
    }
}

impl Clone for Frame {
    fn clone(&self) -> (r: Frame)
        ensures
            r@ == self@,
    {
        Frame {
            reliability: self.reliability,
            reliable_index: self.reliable_index,
            sequence_index: self.sequence_index,
            order_index: self.order_index,
            order_channel: self.order_channel,
            split: self.split,
            body: bytes::copy_all(self.body.as_slice()),
        }
    }
}

impl Frame {
    /// A frame without index fields.
    pub fn new(reliability: Reliability, body: Vec<u8>) -> (r: Frame)
        ensures
            r@ == (FrameView {
                reliability,
                reliable_index: None,
                sequence_index: None,
                order_index: None,
                order_channel: 0,
                split: None,
                body: body@,
            }),
    {
        Frame {
            reliability,
            reliable_index: None,
            sequence_index: None,
            order_index: None,
            order_channel: 0,
            split: None,
            body,
        }
    }

    /// Sets the reliable index.
    pub fn with_reliable_index(self, idx: u32) -> (r: Frame)
        ensures
            r@ == (FrameView { reliable_index: Some(idx), ..self@ }),
    {
        Frame { reliable_index: Some(idx), ..self }
    }

    /// Sets the sequence index.
    pub fn with_sequence_index(self, idx: u32) -> (r: Frame)
        ensures
            r@ == (FrameView { sequence_index: Some(idx), ..self@ }),
    {
        Frame { sequence_index: Some(idx), ..self }
    }

    /// Sets the order index and channel.
    pub fn with_order(self, idx: u32, channel: u8) -> (r: Frame)
        ensures
            r@ == (FrameView { order_index: Some(idx), order_channel: channel, ..self@ }),
    {
        Frame { order_index: Some(idx), order_channel: channel, ..self }
    }

    /// Marks this frame as a fragment of a larger payload.
    pub fn with_split(self, split: SplitInfo) -> (r: Frame)
        ensures
            r@ == (FrameView { split: Some(split), ..self@ }),
    {
        Frame { split: Some(split), ..self }
    }

    /// The delivery guarantee.
    pub fn reliability(&self) -> (r: Reliability)
        ensures
            r == self@.reliability,
    {
        self.reliability
    }

    /// The reliable index.
    pub fn reliable_index(&self) -> (r: Option<u32>)
        ensures
            r == self@.reliable_index,
    {
        self.reliable_index
    }

    /// The sequence index.
    pub fn sequence_index(&self) -> (r: Option<u32>)
        ensures
            r == self@.sequence_index,
    {
        self.sequence_index
    }

    /// The order index.
    pub fn order_index(&self) -> (r: Option<u32>)
        ensures
            r == self@.order_index,
    {
        self.order_index
    }

    /// The ordering channel.
    pub fn order_channel(&self) -> (r: u8)
        ensures
            r == self@.order_channel,
    {
        self.order_channel
    }

    /// The split fields.
    pub fn split(&self) -> (r: Option<SplitInfo>)
        ensures
            r == self@.split,
    {
        self.split
    }

    /// The encapsulated payload.
    pub fn body(&self) -> (r: &[u8])
        ensures
            r@ == self@.body,
    {
        self.body.as_slice()
    }

    /// The reliability header alone: no split fields and no body.
    pub fn reassembly_template(&self) -> (r: Frame)
        ensures
            r@ == (FrameView { split: None, body: Seq::empty(), ..self@ }),
    {
        self.with_body(Vec::new())
    }

    /// The reliability header with another body and no split fields.
    pub fn with_body(&self, body: Vec<u8>) -> (r: Frame)
        ensures
            r@ == (FrameView { split: None, body: body@, ..self@ }),
    {
        Frame {
            reliability: self.reliability,
            reliable_index: self.reliable_index,
            sequence_index: self.sequence_index,
            order_index: self.order_index,
            order_channel: self.order_channel,
            split: None,
            body,
        }
    }

    fn index_error(&self, field: &str, is_set: bool) -> (e: PingError)
        ensures
            e.says(index_rule(self@.reliability, field@, is_set)),
    {
        let m = Message::new("reliability ").text(self.reliability.name()).text(" requires ").text(
            field,
        );
        if is_set {
            m.text(" to be absent").protocol()
        } else {
            m.text(" to be set").protocol()
        }
    }

    /// Encodes the frame, or says why it cannot be encoded.
    pub fn encode(&self) -> (r: Result<Vec<u8>, PingError>)
        ensures
            match r {
                Ok(b) => frame_error(self@) is None && b@ == frame_bytes(self@),
                Err(e) => frame_error(self@) matches Some(m) && e.says(m),
            },
    {
        if self.reliability.is_reliable() != self.reliable_index.is_some() {
            return Err(self.index_error("reliable_index", self.reliable_index.is_some()));
        }
        if self.reliability.is_sequenced() != self.sequence_index.is_some() {
            return Err(self.index_error("sequence_index", self.sequence_index.is_some()));
        }
        if self.reliability.is_ordered() != self.order_index.is_some() {
            return Err(self.index_error("order_index", self.order_index.is_some()));
        }
        if let Some(idx) = self.reliable_index {
            if idx > U24_MAX {
                return Err(index_too_large("frame index 0x", idx));
            }
        }
        if let Some(idx) = self.sequence_index {
            if idx > U24_MAX {
                return Err(index_too_large("frame index 0x", idx));
            }
        }
        if let Some(idx) = self.order_index {
            if idx > U24_MAX {
                return Err(index_too_large("frame index 0x", idx));
            }
        }
        let size: u128 = self.body.len() as u128;
        if size * 8 > 65535 {
            return Err(
                Message::new("frame body too large to encode: ").number(size).text(
                    " bytes (",
                ).number(size * 8).text(" bits > 65535)").protocol(),
            );
        }
        let mut buf: Vec<u8> = Vec::new();
        let split_flag: u8 = if self.split.is_some() {
            16
        } else {
            0
        };
        buf.push(self.reliability.as_raw() * 32 + split_flag);
        bytes::push_be16(&mut buf, (self.body.len() * 8) as u16);
        let ghost head = buf@;
        if let Some(idx) = self.reliable_index {
            bytes::push_le24(&mut buf, idx);
        }
        assert(buf@ == head + index_bytes(self.reliable_index));
        if let Some(idx) = self.sequence_index {
            bytes::push_le24(&mut buf, idx);
        }
        assert(buf@ == head + index_bytes(self.reliable_index) + index_bytes(self.sequence_index));
        if let Some(idx) = self.order_index {
            bytes::push_le24(&mut buf, idx);
            buf.push(self.order_channel);
        }
        assert(buf@ == head + index_bytes(self.reliable_index) + index_bytes(self.sequence_index)
            + order_bytes(self.order_index, self.order_channel));
        let ghost indexed = buf@;
        if let Some(split) = self.split {
            bytes::push_be32(&mut buf, split.count);
            bytes::push_be16(&mut buf, split.id);
            bytes::push_be32(&mut buf, split.index);
        }
        assert(buf@ == indexed + split_bytes(self.split));
        bytes::extend(&mut buf, self.body.as_slice());
        assert(head == seq![frame_flags(self.reliability, self.split is Some)] + bytes::be16(
            (self.body@.len() * 8) as u16,
        ));
        Ok(buf)
    }

    /// Decodes the frame at the cursor and moves past it; `None` at the end of the packet.
    pub fn decode(buf: &mut PacketBuf<'_>) -> (r: Result<Option<Frame>, PingError>)
        requires
            old(buf).wf(),
        ensures
            match (r, frame_at(old(buf).tag(), old(buf).bytes(), old(buf).at())) {
                (Ok(None), Ok(None)) => final(buf).moved(*old(buf), 0),
                (Ok(Some(f)), Ok(Some((v, end)))) => f@ == v && final(buf).moved(
                    *old(buf),
                    end - old(buf).at(),
                ),
                (Err(e), Err((m, end))) => e.says(m) && final(buf).moved(
                    *old(buf),
                    end - old(buf).at(),
                ),
                _ => false,
            },
    {
        proof {
            reveal(frame_at);
        }
        if buf.remaining() == 0 {
            return Ok(None);
        }
        let flags: u8 = buf.read_u8()?;
        let reliability = Reliability::from_raw(flags / 32)?;
        let is_split = flags / 16 % 2 == 1;
        let body_len_bits: u16 = buf.read_u16()?;
        if body_len_bits % 8 != 0 {
            return Err(
                Message::new("frame body length ").number(body_len_bits as u128).text(
                    " is not a whole number of bytes",
                ).protocol(),
            );
        }
        let body_len: usize = (body_len_bits / 8) as usize;
        let reliable_index = if reliability.is_reliable() {
            Some(buf.read_u24_le()?)
        } else {
            None
        };
        let sequence_index = if reliability.is_sequenced() {
            Some(buf.read_u24_le()?)
        } else {
            None
        };
        let (order_index, order_channel) = if reliability.is_ordered() {
            let idx: u32 = buf.read_u24_le()?;
            let channel: u8 = buf.read_u8()?;
            (Some(idx), channel)
        } else {
            (None, 0u8)
        };
        let split = if is_split {
            let count: u32 = buf.read_u32()?;
            let id: u16 = buf.read_u16()?;
            let index: u32 = buf.read_u32()?;
            Some(SplitInfo { count, id, index })
        } else {
            None
        };
        let body = bytes::copy_all(buf.read_bytes(body_len)?);
        Ok(
            Some(
                Frame {
                    reliability,
                    reliable_index,
                    sequence_index,
                    order_index,
                    order_channel,
                    split,
                    body,
                },
            ),
        )
    }
}

fn index_too_large(what: &str, idx: u32) -> (e: PingError)
    ensures
        e.says(over_24_bits(what@, idx)),
{
    Message::new(what).hex(idx as u128).text(" exceeds 24-bit maximum 0xffffff").protocol()
}

/// Writes the low 24 bits of a number, least significant byte first.
pub fn write_u24_le(value: u32) -> (r: [u8; 3])
    ensures
        r@ == bytes::le24(value),
{
    let r: [u8; 3] = [
        (value % 256) as u8,
        (value / 256 % 256) as u8,
        (value / 0x1_0000 % 256) as u8,
    ];
    proof {
        reveal(bytes::le24);
    }
    assert(r@ == bytes::le24(value));
    r
}

/// Fields that a decoded frame always has this way: no order index, no order channel.
pub open spec fn frame_valid(f: FrameView) -> bool {
    f.order_index is None ==> f.order_channel == 0
}

/// A frame that can be encoded is decoded from its bytes, wherever in a packet they stand.
pub proof fn law_frame_round_trip(tag: Seq<char>, f: FrameView, before: Seq<u8>, after: Seq<u8>)
    requires
        frame_valid(f),
        frame_error(f) is None,
    ensures
        frame_at(tag, before + frame_bytes(f) + after, before.len() as int) == Ok::<
            Option<(FrameView, int)>,
            (Seq<char>, int),
        >(Some((f, (before.len() + frame_bytes(f).len()) as int))),
{
    let s = before + frame_bytes(f) + after;
    let at = before.len() as int;
    let bits = (f.body.len() * 8) as u16;
    let size = bytes::be16(bits);
    let rel = index_bytes(f.reliable_index);
    let sq = index_bytes(f.sequence_index);
    let ord = order_bytes(f.order_index, f.order_channel);
    let spl = split_bytes(f.split);
    let f0 = seq![frame_flags(f.reliability, f.split is Some)];
    let f1 = f0 + size;
    let f2 = f1 + rel;
    let f3 = f2 + sq;
    let f4 = f3 + ord;
    let f5 = f4 + spl;
    let t5 = f.body + after;
    let t4 = spl + t5;
    let t3 = ord + t4;
    let t2 = sq + t3;
    let t1 = rel + t2;
    bytes::lemma_peel(before, f5, f.body, after);
    bytes::lemma_peel(before, f4, spl, t5);
    bytes::lemma_peel(before, f3, ord, t4);
    bytes::lemma_peel(before, f2, sq, t3);
    bytes::lemma_peel(before, f1, rel, t2);
    bytes::lemma_peel(before, f0, size, t1);
    assert(s[at] == f0[0] && bytes::u16_at(s, at + 1) == bits) by {
        bytes::lemma_be16_round_trip(bits, before + f0, t1);
        assert(s[at] == (before + f0 + (size + t1))[at]);
    }
    assert(f.reliable_index matches Some(v) ==> bytes::u24_at(s, at + 3) == v) by {
        if let Some(v) = f.reliable_index {
            bytes::lemma_le24_round_trip(v, before + f1, t2);
        }
    }
    let sequence_at = at + f2.len();
    assert(f.sequence_index matches Some(v) ==> bytes::u24_at(s, sequence_at) == v) by {
        if let Some(v) = f.sequence_index {
            bytes::lemma_le24_round_trip(v, before + f2, t3);
        }
    }
    let order_at = at + f3.len();
    assert(f.order_index matches Some(v) ==> bytes::u24_at(s, order_at) == v && s[order_at + 3]
        == f.order_channel) by {
        if let Some(v) = f.order_index {
            let part = bytes::le24(v);
            let ch = seq![f.order_channel];
            assert(ord == part + ch);
            bytes::lemma_peel(before + f3, part, ch, t4);
            bytes::lemma_le24_round_trip(v, before + f3, ch + t4);
            assert(s == (before + f3) + (part + ch) + t4);
            assert(s[order_at + 3] == ord[3]);
        }
    }
    let split_at = at + f4.len();
    assert(f.split matches Some(i) ==> bytes::u32_at(s, split_at) == i.count && bytes::u16_at(
        s,
        split_at + 4,
    ) == i.id && bytes::u32_at(s, split_at + 6) == i.index) by {
        if let Some(i) = f.split {
            lemma_split_round_trip(i, before + f4, t5);
        }
    }
    let body_at = at + f5.len();
    assert(s.len() == body_at + f.body.len() + after.len());
    assert(s.subrange(body_at, (body_at + f.body.len()) as int) == f.body) by {
        assert(s == (before + f5) + f.body + after);
    }
    lemma_flags_round_trip(f.reliability, f.split is Some);
    assert(bits % 8 == 0 && bits / 8 == f.body.len());
    reveal(frame_at);
}

proof fn lemma_flags_round_trip(r: Reliability, is_split: bool)
    ensures
        frame_flags(r, is_split) / 32 == raw_of(r),
        frame_flags(r, is_split) / 16 % 2 == (if is_split {
            1int
        } else {
            0
        }),
        reliability_of(raw_of(r)) == r,
        raw_of(r) <= 4,
{
}

proof fn lemma_split_round_trip(i: SplitInfo, before: Seq<u8>, after: Seq<u8>)
    ensures
        bytes::u32_at(before + split_bytes(Some(i)) + after, before.len() as int) == i.count,
        bytes::u16_at(before + split_bytes(Some(i)) + after, before.len() as int + 4) == i.id,
        bytes::u32_at(before + split_bytes(Some(i)) + after, before.len() as int + 6) == i.index,
{
    let s = before + split_bytes(Some(i)) + after;
    let c = bytes::be32(i.count);
    let d = bytes::be16(i.id);
    let e = bytes::be32(i.index);
    assert(s == before + c + (d + e + after));
    bytes::lemma_be32_round_trip(i.count, before, d + e + after);
    assert(s == (before + c) + d + (e + after));
    bytes::lemma_be16_round_trip(i.id, before + c, e + after);
    assert(s == (before + c + d) + e + after);
    bytes::lemma_be32_round_trip(i.index, before + c + d, after);
}

/// A decoded frame takes up at least its three fixed header bytes and ends within the packet.
pub proof fn lemma_frame_end(tag: Seq<char>, s: Seq<u8>, at: int)
    requires
        0 <= at,
    ensures
        frame_at(tag, s, at) matches Ok(Some((f, end))) ==> at + 3 <= end <= s.len(),
        frame_at(tag, s, at) matches Ok(None) ==> at >= s.len(),
{
    reveal(frame_at);
}

/// A frame decoded from bytes whose four hint bits are clear encodes to the same bytes.
pub proof fn law_decoded_frame_keeps_its_bytes(tag: Seq<char>, s: Seq<u8>, at: int)
    requires
        0 <= at < s.len(),
        s[at] % 16 == 0,
        frame_at(tag, s, at) is Ok,
    ensures
        frame_at(tag, s, at) matches Ok(Some((f, end))) && at < end <= s.len() && frame_valid(f)
            && frame_error(f) is None && frame_bytes(f) == s.subrange(at, end),
{
    assert(frame_at(tag, s, at) is Ok && frame_at(tag, s, at)->Ok_0 is Some) by {
        reveal(frame_at);
    }
    let (f, end) = frame_at(tag, s, at)->Ok_0->0;
    let r = f.reliability;
    let reliable_at = at + 3;
    let sequence_at = reliable_at + (if r.reliable() {
        3int
    } else {
        0
    });
    let order_at = sequence_at + (if r.sequenced() {
        3int
    } else {
        0
    });
    let split_at = order_at + (if r.ordered() {
        4int
    } else {
        0
    });
    let body_at = split_at + (if f.split is Some {
        10int
    } else {
        0
    });
    assert({
        &&& s[at] / 32 <= 4
        &&& r == reliability_of(s[at] / 32)
        &&& (f.split is Some) == (s[at] / 16 % 2 == 1)
        &&& bytes::u16_at(s, at + 1) == f.body.len() * 8
        &&& body_at <= end <= s.len()
        &&& f.body == s.subrange(body_at, end)
        &&& f.reliable_index == (if r.reliable() {
            Some(bytes::u24_at(s, reliable_at))
        } else {
            None
        })
        &&& f.sequence_index == (if r.sequenced() {
            Some(bytes::u24_at(s, sequence_at))
        } else {
            None
        })
        &&& f.order_index == (if r.ordered() {
            Some(bytes::u24_at(s, order_at))
        } else {
            None
        })
        &&& f.order_channel == (if r.ordered() {
            s[order_at + 3]
        } else {
            0
        })
        &&& f.split matches Some(i) ==> i.count == bytes::u32_at(s, split_at) && i.id
            == bytes::u16_at(s, split_at + 4) && i.index == bytes::u32_at(s, split_at + 6)
    }) by {
        reveal(frame_at);
    }
    assert(seq![frame_flags(r, f.split is Some)] == s.subrange(at, at + 1));
    bytes::lemma_be16_of_bytes(s, at + 1);
    if r.reliable() {
        bytes::lemma_le24_of_bytes(s, reliable_at);
    }
    assert(index_bytes(f.reliable_index) == s.subrange(reliable_at, sequence_at));
    if r.sequenced() {
        bytes::lemma_le24_of_bytes(s, sequence_at);
    }
    assert(index_bytes(f.sequence_index) == s.subrange(sequence_at, order_at));
    if r.ordered() {
        bytes::lemma_le24_of_bytes(s, order_at);
        assert(s.subrange(order_at, order_at + 3).push(s[order_at + 3]) == s.subrange(
            order_at,
            order_at + 4,
        ));
    }
    assert(order_bytes(f.order_index, f.order_channel) == s.subrange(order_at, split_at));
    if f.split is Some {
        bytes::lemma_be32_of_bytes(s, split_at);
        bytes::lemma_be16_of_bytes(s, split_at + 4);
        bytes::lemma_be32_of_bytes(s, split_at + 6);
        bytes::lemma_join(s, split_at, split_at + 4, split_at + 6);
        bytes::lemma_join(s, split_at, split_at + 6, split_at + 10);
    }
    assert(split_bytes(f.split) == s.subrange(split_at, body_at));
    bytes::lemma_join(s, at, at + 1, at + 3);
    bytes::lemma_join(s, at, reliable_at, sequence_at);
    bytes::lemma_join(s, at, sequence_at, order_at);
    bytes::lemma_join(s, at, order_at, split_at);
    bytes::lemma_join(s, at, split_at, body_at);
    bytes::lemma_join(s, at, body_at, end);
}

// ==================== Datagram ====================

/// A Frame Set Packet: zero or more frames under a 24-bit sequence number.
#[derive(Debug, Clone, PartialEq, Eq)]
pub struct Datagram {
    sequence_number: u32,
    frames: Vec<Frame>,
}

/// What a [`Datagram`] holds.
#[verifier::ext_equal]
pub struct DatagramView {
    pub sequence_number: u32,
    pub frames: Seq<FrameView>,
}

impl View for Datagram {
    type V = DatagramView;

    closed spec fn view(&self) -> DatagramView {
        DatagramView { sequence_number: self.sequence_number, frames: frame_views(self.frames@) }
    }
}

/// The frames of a list on the wire, one behind the other.
pub open spec fn frames_bytes(frames: Seq<FrameView>) -> Seq<u8>
    decreases frames.len(),
{
    if frames.len() == 0 {
        seq![]
    } else {
        frames_bytes(frames.drop_last()) + frame_bytes(frames.last())
    }
}

/// Why the first unencodable frame of a list cannot be encoded, if there is one.
pub open spec fn frames_error(frames: Seq<FrameView>) -> Option<Seq<char>>
    decreases frames.len(),
{
    if frames.len() == 0 {
        None
    } else {
        match frames_error(frames.drop_last()) {
            Some(m) => Some(m),
            None => frame_error(frames.last()),
        }
    }
}

/// A datagram on the wire.
pub open spec fn datagram_bytes(d: DatagramView) -> Seq<u8> {
    seq![FLAG_DATAGRAM] + bytes::le24(d.sequence_number) + frames_bytes(d.frames)
}

/// The frames from offset `at` to the end of a packet, or the error of the first malformed one.
pub open spec fn frames_at(tag: Seq<char>, s: Seq<u8>, at: int) -> Result<
    Seq<FrameView>,
    Seq<char>,
>
    decreases s.len() - at,
{
    match frame_at(tag, s, at) {
        Err((m, _)) => Err(m),
        Ok(None) => Ok(seq![]),
        Ok(Some((f, end))) => if at < end <= s.len() {
            match frames_at(tag, s, end) {
                Ok(rest) => Ok(seq![f] + rest),
                Err(m) => Err(m),
            }
        } else {
            Ok(seq![])
        },
    }
}

/// The kinds of connected-mode packets, told apart by the leading flag byte.
pub enum FlagKind {
    Datagram,
    Ack,
    Nack,
    Unknown,
}

/// All connected-mode packets have bit 7 set; bit 6 marks an ACK, and without it bit 5 marks a
/// NACK.
pub open spec fn flag_kind(first: u8) -> FlagKind {
    if first >= 0xc0 {
        FlagKind::Ack
    } else if first >= 0xa0 {
        FlagKind::Nack
    } else if first >= 0x80 {
        FlagKind::Datagram
    } else {
        FlagKind::Unknown
    }
}

/// The kind of packet that a flag byte announces.
fn kind_of(first: u8) -> (r: FlagKind)
    ensures
        r == flag_kind(first),
{
    proof {
        assert(first & 0xc0 == 0xc0 <==> first >= 0xc0) by (bit_vector);
        assert(first & 0x80 != 0 <==> first >= 0x80) by (bit_vector);
        assert(first < 0xc0 && first >= 0x80 ==> (first & 0x20 != 0 <==> first >= 0xa0))
            by (bit_vector);
    }
    if first & 0xc0 == 0xc0 {
        FlagKind::Ack
    } else if first & 0x80 == 0 {
        FlagKind::Unknown
    } else if first & 0x20 != 0 {
        FlagKind::Nack
    } else {
        FlagKind::Datagram
    }
}

/// What `data` decodes to as a datagram; `None` if it is something else.
pub open spec fn datagram_of(data: Seq<u8>) -> Result<Option<DatagramView>, Seq<char>> {
    if data.len() == 0 || flag_kind(data[0]) != FlagKind::Datagram {
        Ok(None)
    } else if data.len() < 4 {
        Err(raknet::too_short("Datagram"@, 1, data.len() - 1, 3))
    } else {
        match frames_at("Datagram"@, data, 4) {
            Ok(frames) => Ok(
                Some(DatagramView { sequence_number: bytes::u24_at(data, 1), frames }),
            ),
            Err(m) => Err(m),
        }
    }
}

impl Datagram {
    /// A datagram; the sequence number must fit in 24 bits.
    pub fn new(sequence_number: u32, frames: Vec<Frame>) -> (r: Result<Datagram, PingError>)
        ensures
            match r {
                Ok(d) => sequence_number <= U24_MAX && d@ == (DatagramView {
                    sequence_number,
                    frames: frame_views(frames@),
                }),
                Err(e) => sequence_number > U24_MAX && e.says(
                    over_24_bits("datagram sequence number 0x"@, sequence_number),
                ),
            },
    {
        if sequence_number > U24_MAX {
            return Err(index_too_large("datagram sequence number 0x", sequence_number));
        }
        Ok(Datagram { sequence_number, frames })
    }

    /// Sequence number used for ACK/NACK tracking.
    pub fn sequence_number(&self) -> (r: u32)
        ensures
            r == self@.sequence_number,
    {
        self.sequence_number
    }

    /// The frames this datagram carries, in wire order.
    pub fn frames(&self) -> (r: &[Frame])
        ensures
            frame_views(r@) == self@.frames,
    {
        self.frames.as_slice()
    }

    /// Encodes the datagram; fails as its first unencodable frame does.
    pub fn encode(&self) -> (r: Result<Vec<u8>, PingError>)
        ensures
            match r {
                Ok(b) => frames_error(self@.frames) is None && b@ == datagram_bytes(self@),
                Err(e) => frames_error(self@.frames) matches Some(m) && e.says(m),
            },
    {
        let mut buf: Vec<u8> = Vec::new();
        buf.push(FLAG_DATAGRAM);
        bytes::push_le24(&mut buf, self.sequence_number);
        let ghost head = buf@;
        let ghost all = self@.frames;
        let mut i: usize = 0;
        assert(all.take(0) == Seq::<FrameView>::empty());
        while i < self.frames.len()
            invariant
                i <= self.frames@.len(),
                all == frame_views(self.frames@),
                frames_error(all.take(i as int)) is None,
                buf@ == head + frames_bytes(all.take(i as int)),
            decreases self.frames@.len() - i,
        {
            proof {
                assert(all.take(i as int + 1).drop_last() == all.take(i as int));
                assert(all.take(i as int + 1).last() == self.frames@[i as int]@);
            }
            match self.frames[i].encode() {
                Ok(b) => {
                    bytes::extend(&mut buf, b.as_slice());
                    assert(buf@ == head + frames_bytes(all.take(i as int + 1)));
                },
                Err(e) => {
                    proof {
                        lemma_frames_error_prefix(all, i as int + 1);
                    }
                    return Err(e);
                },
            }
            i = i + 1;
        }
        assert(all.take(i as int) == all);
        assert(head == seq![FLAG_DATAGRAM] + bytes::le24(self.sequence_number));
        Ok(buf)
    }

    /// Decodes a datagram; `None` if `data` is empty or another kind of packet.
    pub fn decode(data: &[u8]) -> (r: Result<Option<Datagram>, PingError>)
        ensures
            match (r, datagram_of(data@)) {
                (Ok(None), Ok(None)) => true,
                (Ok(Some(d)), Ok(Some(v))) => d@ == v,
                (Err(e), Err(m)) => e.says(m),
                _ => false,
            },
    {
        if data.len() == 0 {
            return Ok(None);
        }
        match kind_of(data[0]) {
            FlagKind::Datagram => {},
            _ => {
                return Ok(None);
            },
        }
        let mut p = PacketBuf::new(data, "Datagram");
        let _flag: u8 = p.read_u8()?;
        let sequence_number: u32 = p.read_u24_le()?;
        let mut frames: Vec<Frame> = Vec::new();
        let ghost tag = "Datagram"@;
        assert(frame_views(frames@) == Seq::<FrameView>::empty());
        loop
            invariant
                p.wf(),
                p.bytes() == data@,
                p.tag() == tag,
                p.at() >= 4,
                frames_at(tag, data@, 4) == prepend(
                    frame_views(frames@),
                    frames_at(tag, data@, p.at()),
                ),
                data@.len() >= 4,
                flag_kind(data@[0]) == FlagKind::Datagram,
                tag == "Datagram"@,
                sequence_number == bytes::u24_at(data@, 1),
            decreases data@.len() - p.at(),
        {
            proof {
                lemma_frame_end(tag, data@, p.at());
            }
            let ghost done = frame_views(frames@);
            match Frame::decode(&mut p) {
                Err(e) => {
                    return Err(e);
                },
                Ok(None) => {
                    assert(done + Seq::<FrameView>::empty() == done);
                    return Ok(Some(Datagram { sequence_number, frames }));
                },
                Ok(Some(f)) => {
                    let ghost v = f@;
                    frames.push(f);
                    proof {
                        assert(frame_views(frames@) == done.push(v));
                        let rest = frames_at(tag, data@, p.at());
                        if let Ok(rest) = rest {
                            assert(done + (seq![v] + rest) == done.push(v) + rest);
                        }
                    }
                },
            }
        }
    }
}

/// A list of decoded frames continued by what decoding the rest gives.
pub open spec fn prepend(
    done: Seq<FrameView>,
    rest: Result<Seq<FrameView>, Seq<char>>,
) -> Result<Seq<FrameView>, Seq<char>> {
    match rest {
        Ok(more) => Ok(done + more),
        Err(m) => Err(m),
    }
}

proof fn lemma_frames_error_prefix(frames: Seq<FrameView>, n: int)
    requires
        0 <= n <= frames.len(),
        frames_error(frames.take(n)) is Some,
    ensures
        frames_error(frames) == frames_error(frames.take(n)),
    decreases frames.len() - n,
{
    if n == frames.len() {
        assert(frames.take(n) == frames);
    } else {
        assert(frames.take(n + 1).drop_last() == frames.take(n));
        lemma_frames_error_prefix(frames, n + 1);
    }
}

/// Every frame of a list can be encoded and holds what a decoded frame can hold.
pub open spec fn frames_valid(frames: Seq<FrameView>) -> bool {
    forall|i: int|
        0 <= i < frames.len() ==> frame_valid(#[trigger] frames[i]) && frame_error(frames[i])
            is None
}

proof fn lemma_frames_bytes_first(frames: Seq<FrameView>)
    requires
        frames.len() > 0,
    ensures
        frames_bytes(frames) == frame_bytes(frames[0]) + frames_bytes(frames.drop_first()),
    decreases frames.len(),
{
    if frames.len() == 1 {
        assert(frames.drop_last() == Seq::<FrameView>::empty());
        assert(frames.drop_first() == Seq::<FrameView>::empty());
        reveal_with_fuel(frames_bytes, 2);
        assert(Seq::<u8>::empty() + frame_bytes(frames[0]) == frame_bytes(frames[0]) + Seq::<
            u8,
        >::empty());
    } else {
        lemma_frames_bytes_first(frames.drop_last());
        assert(frames.drop_last().drop_first() == frames.drop_first().drop_last());
        assert(frames_bytes(frames) == frame_bytes(frames[0]) + frames_bytes(frames.drop_first()));
    }
}

proof fn lemma_frames_round_trip(tag: Seq<char>, frames: Seq<FrameView>, before: Seq<u8>)
    requires
        frames_valid(frames),
    ensures
        frames_at(tag, before + frames_bytes(frames), before.len() as int) == Ok::<
            Seq<FrameView>,
            Seq<char>,
        >(frames),
    decreases frames.len(),
{
    if frames.len() == 0 {
        assert(before + frames_bytes(frames) == before);
        assert(frames == Seq::<FrameView>::empty());
        assert(frame_at(tag, before, before.len() as int) matches Ok(None)) by {
            reveal(frame_at);
        }
    } else {
        let rest = frames.drop_first();
        lemma_frames_bytes_first(frames);
        let s = before + frames_bytes(frames);
        let b = frame_bytes(frames[0]);
        lemma_frame_end(tag, s, before.len() as int);
        bytes::lemma_peel(before, b, frames_bytes(rest), Seq::empty());
        assert(s == before + b + frames_bytes(rest)) by {
            assert(s == before + (b + frames_bytes(rest)) + Seq::<u8>::empty());
            assert(before + b + frames_bytes(rest) + Seq::<u8>::empty() == before + b + frames_bytes(rest));
        }
        law_frame_round_trip(tag, frames[0], before, frames_bytes(rest));
        lemma_frames_round_trip(tag, rest, before + b);
        assert(s == (before + b) + frames_bytes(rest));
        assert(frames == seq![frames[0]] + rest);
    }
}

proof fn lemma_frames_error_none(frames: Seq<FrameView>)
    requires
        frames_error(frames) is None,
    ensures
        forall|i: int| 0 <= i < frames.len() ==> frame_error(#[trigger] frames[i]) is None,
    decreases frames.len(),
{
    if frames.len() > 0 {
        lemma_frames_error_none(frames.drop_last());
        assert forall|i: int| 0 <= i < frames.len() implies frame_error(#[trigger] frames[i])
            is None by {
            if i < frames.len() - 1 {
                assert(frames.drop_last()[i] == frames[i]);
            }
        }
    }
}

/// A datagram that can be encoded is decoded from its bytes.
pub proof fn law_datagram_round_trip(d: DatagramView)
    requires
        d.sequence_number <= U24_MAX,
        forall|i: int| 0 <= i < d.frames.len() ==> frame_valid(#[trigger] d.frames[i]),
        frames_error(d.frames) is None,
    ensures
        datagram_of(datagram_bytes(d)) == Ok::<Option<DatagramView>, Seq<char>>(Some(d)),
{
    let head = seq![FLAG_DATAGRAM] + bytes::le24(d.sequence_number);
    lemma_frames_error_none(d.frames);
    lemma_frames_round_trip("Datagram"@, d.frames, head);
    let s = datagram_bytes(d);
    assert(s == head + frames_bytes(d.frames));
    assert(s == seq![FLAG_DATAGRAM] + bytes::le24(d.sequence_number) + frames_bytes(d.frames));
    bytes::lemma_le24_round_trip(d.sequence_number, seq![FLAG_DATAGRAM], frames_bytes(d.frames));
}

// ==================== Acknowledgement (ACK / NACK) ====================

/// One entry of an ACK/NACK list: a single sequence number or an inclusive range.
#[derive(Debug, Clone, Copy, PartialEq, Eq, Structural)]
pub struct AckRange {
    start: u32,
    end: Option<u32>,
}

impl AckRange {
    /// The first sequence number.
    pub closed spec fn first(self) -> u32 {
        self.start
    }

    /// The last sequence number of a range; `None` for a single number.
    pub closed spec fn last(self) -> Option<u32> {
        self.end
    }

    /// The entry with a given start and end.
    pub closed spec fn make(start: u32, end: Option<u32>) -> AckRange {
        AckRange { start, end }
    }

    /// A single sequence number.
    pub fn single(seq: u32) -> (r: AckRange)
        ensures
            r == AckRange::make(seq, None),
    {
        AckRange { start: seq, end: None }
    }

    /// An inclusive range.
    pub fn range(start: u32, end: u32) -> (r: AckRange)
        ensures
            r == AckRange::make(start, Some(end)),
    {
        AckRange { start, end: Some(end) }
    }

    /// The first sequence number.
    pub fn start(&self) -> (r: u32)
        ensures
            r == self.first(),
    {
        self.start
    }

    /// The last sequence number of a range; `None` for a single number.
    pub fn end(&self) -> (r: Option<u32>)
        ensures
            r == self.last(),
    {
        self.end
    }
}

/// An entry is its two fields.
pub broadcast proof fn lemma_ack_range_fields(start: u32, end: Option<u32>)
    ensures
        (#[trigger] AckRange::make(start, end)).first() == start,
        AckRange::make(start, end).last() == end,
{
}

/// An entry is determined by its two fields.
pub proof fn lemma_ack_range_eta(r: AckRange)
    ensures
        AckRange::make(r.first(), r.last()) == r,
{
}

/// An ACK or NACK packet: the datagrams acknowledged, or asked for again.
#[derive(Debug, Clone, PartialEq, Eq)]
pub struct Acknowledgement {
    is_ack: bool,
    ranges: Vec<AckRange>,
}

/// What an [`Acknowledgement`] holds.
#[verifier::ext_equal]
pub struct AckView {
    pub is_ack: bool,
    pub ranges: Seq<AckRange>,
}

impl View for Acknowledgement {
    type V = AckView;

    closed spec fn view(&self) -> AckView {
        AckView { is_ack: self.is_ack, ranges: self.ranges@ }
    }
}

/// One record on the wire.
pub open spec fn record_bytes(r: AckRange) -> Seq<u8> {
    match r.last() {
        None => seq![ACK_RECORD_SINGLE] + bytes::le24(r.first()),
        Some(end) => seq![ACK_RECORD_RANGE] + bytes::le24(r.first()) + bytes::le24(end),
    }
}

/// The records of a list on the wire, one behind the other.
pub open spec fn records_bytes(ranges: Seq<AckRange>) -> Seq<u8>
    decreases ranges.len(),
{
    if ranges.len() == 0 {
        seq![]
    } else {
        records_bytes(ranges.drop_last()) + record_bytes(ranges.last())
    }
}

/// An ACK or NACK packet on the wire.
pub open spec fn ack_bytes(a: AckView) -> Seq<u8> {
    seq![if a.is_ack { FLAG_ACK } else { FLAG_NACK }] + bytes::be16(a.ranges.len() as u16)
        + records_bytes(a.ranges)
}

/// The name by which errors call an ACK or a NACK.
pub open spec fn ack_name(is_ack: bool) -> Seq<char> {
    if is_ack {
        "ACK"@
    } else {
        "NACK"@
    }
}

/// The record at offset `at` and the offset behind it, or the error for a truncated one.
pub open spec fn record_at(tag: Seq<char>, s: Seq<u8>, at: int) -> Result<
    (AckRange, int),
    Seq<char>,
> {
    if s.len() < at + 1 {
        Err(raknet::too_short(tag, at, s.len() - at, 1))
    } else if s.len() < at + 4 {
        Err(raknet::too_short(tag, at + 1, s.len() - at - 1, 3))
    } else if s[at] == ACK_RECORD_SINGLE {
        Ok((AckRange::make(bytes::u24_at(s, at + 1), None), at + 4))
    } else if s.len() < at + 7 {
        Err(raknet::too_short(tag, at + 4, s.len() - at - 4, 3))
    } else {
        Ok(
            (
                AckRange::make(bytes::u24_at(s, at + 1), Some(bytes::u24_at(s, at + 4))),
                at + 7,
            ),
        )
    }
}

/// `n` records from offset `at` on, or the error of the first truncated one.
pub open spec fn records_at(tag: Seq<char>, s: Seq<u8>, at: int, n: nat) -> Result<
    Seq<AckRange>,
    Seq<char>,
>
    decreases n,
{
    if n == 0 {
        Ok(seq![])
    } else {
        match record_at(tag, s, at) {
            Err(m) => Err(m),
            Ok((r, end)) => match records_at(tag, s, end, (n - 1) as nat) {
                Ok(rest) => Ok(seq![r] + rest),
                Err(m) => Err(m),
            },
        }
    }
}

/// What `data` decodes to as an ACK or NACK; `None` if it is something else. Bytes behind the
/// last record are ignored.
pub open spec fn ack_of(data: Seq<u8>) -> Result<Option<AckView>, Seq<char>> {
    if data.len() == 0 || !(flag_kind(data[0]) is Ack || flag_kind(data[0]) is Nack) {
        Ok(None)
    } else {
        let is_ack = flag_kind(data[0]) is Ack;
        if data.len() < 3 {
            Err(raknet::too_short(ack_name(is_ack), 1, data.len() - 1, 2))
        } else {
            match records_at(ack_name(is_ack), data, 3, bytes::u16_at(data, 1) as nat) {
                Ok(ranges) => Ok(Some(AckView { is_ack, ranges })),
                Err(m) => Err(m),
            }
        }
    }
}

/// A list of decoded records continued by what decoding the rest gives.
pub open spec fn prepend_records(
    done: Seq<AckRange>,
    rest: Result<Seq<AckRange>, Seq<char>>,
) -> Result<Seq<AckRange>, Seq<char>> {
    match rest {
        Ok(more) => Ok(done + more),
        Err(m) => Err(m),
    }
}

impl Acknowledgement {
    /// An ACK (`is_ack`) or NACK with the given list.
    pub fn new(is_ack: bool, ranges: Vec<AckRange>) -> (r: Acknowledgement)
        ensures
            r@ == (AckView { is_ack, ranges: ranges@ }),
    {
        Acknowledgement { is_ack, ranges }
    }

    /// `true` for an ACK, `false` for a NACK.
    pub fn is_ack(&self) -> (r: bool)
        ensures
            r == self@.is_ack,
    {
        self.is_ack
    }

    /// The acknowledged or requested ranges.
    pub fn ranges(&self) -> (r: &[AckRange])
        ensures
            r@ == self@.ranges,
    {
        self.ranges.as_slice()
    }

    /// Encodes the packet; a list of more than 65535 records does not fit.
    pub fn encode(&self) -> (r: Result<Vec<u8>, PingError>)
        ensures
            match r {
                Ok(b) => self@.ranges.len() <= 65535 && b@ == ack_bytes(self@),
                Err(e) => self@.ranges.len() > 65535 && e.says(
                    "too many ACK/NACK records: "@ + text::decimal(self@.ranges.len()),
                ),
            },
    {
        if self.ranges.len() > 65535 {
            return Err(
                Message::new("too many ACK/NACK records: ").number(
                    self.ranges.len() as u128,
                ).protocol(),
            );
        }
        let mut buf: Vec<u8> = Vec::new();
        buf.push(
            if self.is_ack {
                FLAG_ACK
            } else {
                FLAG_NACK
            },
        );
        bytes::push_be16(&mut buf, self.ranges.len() as u16);
        let ghost head = buf@;
        let ghost all = self.ranges@;
        let mut i: usize = 0;
        assert(all.take(0) == Seq::<AckRange>::empty());
        while i < self.ranges.len()
            invariant
                i <= self.ranges@.len(),
                all == self.ranges@,
                buf@ == head + records_bytes(all.take(i as int)),
            decreases self.ranges@.len() - i,
        {
            let r = self.ranges[i];
            proof {
                assert(all.take(i as int + 1).drop_last() == all.take(i as int));
                assert(all.take(i as int + 1).last() == r);
            }
            let ghost so_far = buf@;
            match r.end {
                None => {
                    buf.push(ACK_RECORD_SINGLE);
                    bytes::push_le24(&mut buf, r.start);
                },
                Some(end) => {
                    buf.push(ACK_RECORD_RANGE);
                    bytes::push_le24(&mut buf, r.start);
                    bytes::push_le24(&mut buf, end);
                },
            }
            assert(buf@ == so_far + record_bytes(r));
            assert(buf@ == head + records_bytes(all.take(i as int + 1)));
            i = i + 1;
        }
        assert(all.take(i as int) == all);
        assert(head == seq![if self.is_ack { FLAG_ACK } else { FLAG_NACK }] + bytes::be16(
            self.ranges@.len() as u16,
        ));
        Ok(buf)
    }

    /// Decodes an ACK or NACK; `None` if `data` is empty or another kind of packet.
    pub fn decode(data: &[u8]) -> (r: Result<Option<Acknowledgement>, PingError>)
        ensures
            match (r, ack_of(data@)) {
                (Ok(None), Ok(None)) => true,
                (Ok(Some(a)), Ok(Some(v))) => a@ == v,
                (Err(e), Err(m)) => e.says(m),
                _ => false,
            },
    {
        if data.len() == 0 {
            return Ok(None);
        }
        let is_ack = match kind_of(data[0]) {
            FlagKind::Ack => true,
            FlagKind::Nack => false,
            _ => {
                return Ok(None);
            },
        };
        let mut p = PacketBuf::new(
            data,
            if is_ack {
                "ACK"
            } else {
                "NACK"
            },
        );
        let _flag: u8 = p.read_u8()?;
        let count: u16 = p.read_u16()?;
        let mut ranges: Vec<AckRange> = Vec::new();
        let ghost tag = ack_name(is_ack);
        let ghost total = records_at(tag, data@, 3, count as nat);
        assert(prepend_records(ranges@, total) == total) by {
            if let Ok(all) = total {
                assert(Seq::<AckRange>::empty() + all == all);
            }
        }
        let mut i: u16 = 0;
        while i < count
            invariant
                p.wf(),
                p.bytes() == data@,
                p.tag() == tag,
                p.at() >= 3,
                i <= count,
                total == prepend_records(
                    ranges@,
                    records_at(tag, data@, p.at(), (count - i) as nat),
                ),
                ack_of(data@) == (match total {
                    Ok(ranges) => Ok(Some(AckView { is_ack, ranges })),
                    Err(m) => Err(m),
                }),
            decreases count - i,
        {
            let ghost at = p.at();
            let ghost done = ranges@;
            let is_single: u8 = p.read_u8()?;
            let start: u32 = p.read_u24_le()?;
            let end = if is_single == ACK_RECORD_SINGLE {
                None
            } else {
                Some(p.read_u24_le()?)
            };
            let r = AckRange { start, end };
            ranges.push(r);
            proof {
                assert(record_at(tag, data@, at) == Ok::<(AckRange, int), Seq<char>>((r, p.at())));
                let rest = records_at(tag, data@, p.at(), (count - i - 1) as nat);
                if let Ok(more) = rest {
                    assert(done + (seq![r] + more) == done.push(r) + more);
                }
            }
            i = i + 1;
        }
        assert(ranges@ + Seq::<AckRange>::empty() == ranges@);
        Ok(Some(Acknowledgement { is_ack, ranges }))
    }
}

/// All numbers of an entry fit in 24 bits.
pub open spec fn ack_range_valid(r: AckRange) -> bool {
    r.first() <= U24_MAX && (r.last() matches Some(e) ==> e <= U24_MAX)
}

proof fn lemma_record_round_trip(tag: Seq<char>, r: AckRange, before: Seq<u8>, after: Seq<u8>)
    requires
        ack_range_valid(r),
    ensures
        record_at(tag, before + record_bytes(r) + after, before.len() as int) == Ok::<
            (AckRange, int),
            Seq<char>,
        >((r, (before.len() + record_bytes(r).len()) as int)),
{
    let s = before + record_bytes(r) + after;
    let at = before.len() as int;
    lemma_ack_range_eta(r);
    match r.last() {
        None => {
            let mark = seq![ACK_RECORD_SINGLE];
            bytes::lemma_peel(before, mark, bytes::le24(r.first()), after);
            bytes::lemma_le24_round_trip(r.first(), before + mark, after);
            assert(s[at] == mark[0]);
        },
        Some(end) => {
            let mark = seq![ACK_RECORD_RANGE];
            let a = bytes::le24(r.first());
            let b = bytes::le24(end);
            bytes::lemma_peel(before, mark + a, b, after);
            bytes::lemma_peel(before, mark, a, b + after);
            bytes::lemma_le24_round_trip(r.first(), before + mark, b + after);
            bytes::lemma_le24_round_trip(end, before + (mark + a), after);
            assert(s[at] == mark[0]);
        },
    }
}

proof fn lemma_records_bytes_first(ranges: Seq<AckRange>)
    requires
        ranges.len() > 0,
    ensures
        records_bytes(ranges) == record_bytes(ranges[0]) + records_bytes(ranges.drop_first()),
    decreases ranges.len(),
{
    if ranges.len() == 1 {
        assert(ranges.drop_last() == Seq::<AckRange>::empty());
        assert(ranges.drop_first() == Seq::<AckRange>::empty());
        reveal_with_fuel(records_bytes, 2);
        assert(Seq::<u8>::empty() + record_bytes(ranges[0]) == record_bytes(ranges[0]) + Seq::<
            u8,
        >::empty());
    } else {
        lemma_records_bytes_first(ranges.drop_last());
        assert(ranges.drop_last().drop_first() == ranges.drop_first().drop_last());
        assert(records_bytes(ranges) == record_bytes(ranges[0]) + records_bytes(
            ranges.drop_first(),
        ));
    }
}

proof fn lemma_records_round_trip(tag: Seq<char>, ranges: Seq<AckRange>, before: Seq<u8>)
    requires
        forall|i: int| 0 <= i < ranges.len() ==> ack_range_valid(#[trigger] ranges[i]),
    ensures
        records_at(
            tag,
            before + records_bytes(ranges),
            before.len() as int,
            ranges.len(),
        ) == Ok::<Seq<AckRange>, Seq<char>>(ranges),
    decreases ranges.len(),
{
    if ranges.len() == 0 {
        assert(ranges == Seq::<AckRange>::empty());
    } else {
        let rest = ranges.drop_first();
        lemma_records_bytes_first(ranges);
        let s = before + records_bytes(ranges);
        let b = record_bytes(ranges[0]);
        assert(s == before + b + records_bytes(rest));
        lemma_record_round_trip(tag, ranges[0], before, records_bytes(rest));
        lemma_records_round_trip(tag, rest, before + b);
        assert(ranges == seq![ranges[0]] + rest);
    }
}

/// An ACK or NACK of 24-bit numbers is decoded from its bytes.
pub proof fn law_acknowledgement_round_trip(a: AckView)
    requires
        a.ranges.len() <= 65535,
        forall|i: int| 0 <= i < a.ranges.len() ==> ack_range_valid(#[trigger] a.ranges[i]),
    ensures
        ack_of(ack_bytes(a)) == Ok::<Option<AckView>, Seq<char>>(Some(a)),
{
    let flag = seq![if a.is_ack { FLAG_ACK } else { FLAG_NACK }];
    let n = a.ranges.len() as u16;
    let s = ack_bytes(a);
    lemma_records_round_trip(ack_name(a.is_ack), a.ranges, flag + bytes::be16(n));
    bytes::lemma_be16_round_trip(n, flag, records_bytes(a.ranges));
    assert(s[0] == flag[0]);
}

// ==================== Dispatch ====================

/// A connected-mode packet, decoded.
#[derive(Debug, Clone, PartialEq, Eq)]
pub enum Incoming {
    /// A Frame Set Packet.
    Datagram(Datagram),
    /// An acknowledgement of received datagrams.
    Ack(Acknowledgement),
    /// A request to send datagrams again.
    Nack(Acknowledgement),
}

/// What an [`Incoming`] holds.
pub enum IncomingView {
    Datagram(DatagramView),
    Ack(AckView),
    Nack(AckView),
}

impl View for Incoming {
    type V = IncomingView;

    open spec fn view(&self) -> IncomingView {
        match self {
            Incoming::Datagram(d) => IncomingView::Datagram(d@),
            Incoming::Ack(a) => IncomingView::Ack(a@),
            Incoming::Nack(a) => IncomingView::Nack(a@),
        }
    }
}

/// What a connected-mode packet is.
pub open spec fn incoming_of(data: Seq<u8>) -> Result<IncomingView, Seq<char>> {
    if data.len() == 0 {
        Err("empty packet: cannot classify a 0-byte datagram"@)
    } else {
        match flag_kind(data[0]) {
            FlagKind::Ack => match ack_of(data) {
                Ok(a) => Ok(IncomingView::Ack(a->0)),
                Err(m) => Err(m),
            },
            FlagKind::Nack => match ack_of(data) {
                Ok(a) => Ok(IncomingView::Nack(a->0)),
                Err(m) => Err(m),
            },
            FlagKind::Datagram => match datagram_of(data) {
                Ok(d) => Ok(IncomingView::Datagram(d->0)),
                Err(m) => Err(m),
            },
            FlagKind::Unknown => Err(
                "unknown RakNet connected packet flag 0x"@ + text::upper_hex_byte(data[0])
                    + " (need 0x80 datagram / 0xC0 ACK / 0xA0 NACK)"@,
            ),
        }
    }
}

/// Tells the packet kinds apart by the leading flag byte and decodes the packet.
pub fn classify(data: &[u8]) -> (r: Result<Incoming, PingError>)
    ensures
        match (r, incoming_of(data@)) {
            (Ok(i), Ok(v)) => i@ == v,
            (Err(e), Err(m)) => e.says(m),
            _ => false,
        },
{
    if data.len() == 0 {
        return Err(protocol_error("empty packet: cannot classify a 0-byte datagram"));
    }
    match kind_of(data[0]) {
        FlagKind::Ack => match Acknowledgement::decode(data) {
            Ok(Some(a)) => Ok(Incoming::Ack(a)),
            Ok(None) => Err(protocol_error("ACK flag set but decode returned None")),
            Err(e) => Err(e),
        },
        FlagKind::Nack => match Acknowledgement::decode(data) {
            Ok(Some(a)) => Ok(Incoming::Nack(a)),
            Ok(None) => Err(protocol_error("NACK flag set but decode returned None")),
            Err(e) => Err(e),
        },
        FlagKind::Datagram => match Datagram::decode(data) {
            Ok(Some(d)) => Ok(Incoming::Datagram(d)),
            Ok(None) => Err(protocol_error("datagram flag set but decode returned None")),
            Err(e) => Err(e),
        },
        FlagKind::Unknown => Err(
            Message::new("unknown RakNet connected packet flag 0x").upper_hex_byte(data[0]).text(
                " (need 0x80 datagram / 0xC0 ACK / 0xA0 NACK)",
            ).protocol(),
        ),
    }
}

/// An encoded datagram is told apart as a datagram and decoded in full.
pub proof fn law_classify_datagram(d: DatagramView)
    requires
        d.sequence_number <= U24_MAX,
        forall|i: int| 0 <= i < d.frames.len() ==> frame_valid(#[trigger] d.frames[i]),
        frames_error(d.frames) is None,
    ensures
        incoming_of(datagram_bytes(d)) == Ok::<IncomingView, Seq<char>>(
            IncomingView::Datagram(d),
        ),
{
    law_datagram_round_trip(d);
    assert(datagram_bytes(d)[0] == FLAG_DATAGRAM);
}

/// An encoded ACK is told apart as an ACK, an encoded NACK as a NACK.
pub proof fn law_classify_acknowledgement(a: AckView)
    requires
        a.ranges.len() <= 65535,
        forall|i: int| 0 <= i < a.ranges.len() ==> ack_range_valid(#[trigger] a.ranges[i]),
    ensures
        incoming_of(ack_bytes(a)) == Ok::<IncomingView, Seq<char>>(
            if a.is_ack {
                IncomingView::Ack(a)
            } else {
                IncomingView::Nack(a)
            },
        ),
{
    law_acknowledgement_round_trip(a);
    assert(ack_bytes(a)[0] == if a.is_ack { FLAG_ACK } else { FLAG_NACK });
}

// ==================== Splitting and reassembly ====================

/// Where the `i`-th fragment of at most `m` bytes starts in a body of `len` bytes.
pub open spec fn cut(len: nat, m: nat, i: nat) -> int {
    if i * m <= len {
        (i * m) as int
    } else {
        len as int
    }
}

/// How many fragments of at most `m` bytes a body of `len` bytes needs.
pub open spec fn fragment_count(len: nat, m: nat) -> nat {
    (len / m + (if len % m == 0 {
        0nat
    } else {
        1nat
    })) as nat
}

/// The `i`-th fragment of a frame.
pub open spec fn fragment(f: FrameView, m: nat, id: u16, i: nat) -> FrameView {
    FrameView {
        split: Some(
            SplitInfo { count: fragment_count(f.body.len(), m) as u32, id, index: i as u32 },
        ),
        body: f.body.subrange(cut(f.body.len(), m, i), cut(f.body.len(), m, i + 1)),
        ..f
    }
}

/// What splitting a frame gives: the frame itself where its body fits, else its fragments, all
/// with the header of the frame.
pub open spec fn split_frames(f: FrameView, m: nat, id: u16) -> Result<
    Seq<FrameView>,
    Seq<char>,
> {
    let count = fragment_count(f.body.len(), m);
    if m == 0 {
        Err("cannot split a frame with a zero-byte MTU budget"@)
    } else if f.body.len() <= m {
        Ok(seq![f])
    } else if count > u32::MAX {
        Err("too many split fragments: "@ + text::decimal(count))
    } else {
        Ok(Seq::new(count, |i: int| fragment(f, m, id, i as nat)))
    }
}

proof fn lemma_cuts(len: nat, m: nat, i: nat)
    requires
        m > 0,
        i < fragment_count(len, m),
    ensures
        cut(len, m, i) == i * m,
        cut(len, m, i) < len,
        cut(len, m, i + 1) == (if len - i * m > m {
            i * m + m
        } else {
            len
        }),
        cut(len, m, fragment_count(len, m)) == len,
{
    let n = fragment_count(len, m);
    let q = len / m;
    let r = len % m;
    vstd::arithmetic::div_mod::lemma_fundamental_div_mod(len as int, m as int);
    assert(len == m * q + r && 0 <= r < m);
    assert(m * q == q * m) by (nonlinear_arith);
    assert((i + 1) * m == i * m + m) by (nonlinear_arith);
    assert((n - 1) * m == n * m - m) by (nonlinear_arith);
    assert(i * m <= (n - 1) * m) by (nonlinear_arith)
        requires
            i <= n - 1,
            m > 0,
    ;
    if r == 0 {
        assert(n * m == len);
    } else {
        assert(n == q + 1);
        assert(n * m == q * m + m) by (nonlinear_arith)
            requires
                n == q + 1,
        ;
    }
}

impl Frame {
    /// Splits the body of `template` over frames of at most `max_body_bytes` bytes each, all with
    /// the header of `template`.
    pub fn split_into(template: &Frame, max_body_bytes: usize, split_id: u16) -> (r: Result<
        Vec<Frame>,
        PingError,
    >)
        ensures
            match (r, split_frames(template@, max_body_bytes as nat, split_id)) {
                (Ok(fs), Ok(vs)) => frame_views(fs@) == vs,
                (Err(e), Err(m)) => e.says(m),
                _ => false,
            },
    {
        if max_body_bytes == 0 {
            return Err(protocol_error("cannot split a frame with a zero-byte MTU budget"));
        }
        let len: usize = template.body.len();
        if len <= max_body_bytes {
            let mut one: Vec<Frame> = Vec::new();
            one.push(template.clone());
            assert(frame_views(one@) == seq![template@]);
            return Ok(one);
        }
        let whole: usize = len / max_body_bytes;
        assert(whole < len || max_body_bytes == 1) by (nonlinear_arith)
            requires
                whole == len / max_body_bytes,
                len > max_body_bytes > 0,
        ;
        let count: usize = if len % max_body_bytes == 0 {
            whole
        } else {
            whole + 1
        };
        let ghost v = template@;
        let ghost m = max_body_bytes as nat;
        assert(count == fragment_count(len as nat, m));
        if count > 0xffff_ffff {
            return Err(
                Message::new("too many split fragments: ").number(count as u128).protocol(),
            );
        }
        let count_u32: u32 = count as u32;
        let mut fragments: Vec<Frame> = Vec::new();
        let mut index: u32 = 0;
        let mut start: usize = 0;
        let ghost want = Seq::new(count as nat, |i: int| fragment(v, m, split_id, i as nat));
        assert(want.take(0) == Seq::<FrameView>::empty());
        assert(frame_views(fragments@) == Seq::<FrameView>::empty());
        while index < count_u32
            invariant
                index <= count_u32,
                count_u32 == count,
                count == fragment_count(len as nat, m),
                m == max_body_bytes,
                max_body_bytes > 0,
                len == template.body@.len(),
                v == template@,
                start <= len,
                start == cut(len as nat, m, index as nat),
                want == Seq::new(count as nat, |i: int| fragment(v, m, split_id, i as nat)),
                frame_views(fragments@) == want.take(index as int),
            decreases count_u32 - index,
        {
            proof {
                lemma_cuts(len as nat, m, index as nat);
            }
            let end: usize = if len - start > max_body_bytes {
                start + max_body_bytes
            } else {
                len
            };
            let f = Frame {
                reliability: template.reliability,
                reliable_index: template.reliable_index,
                sequence_index: template.sequence_index,
                order_index: template.order_index,
                order_channel: template.order_channel,
                split: Some(SplitInfo { count: count_u32, id: split_id, index }),
                body: bytes::copy_range(template.body.as_slice(), start, end),
            };
            let ghost before = frame_views(fragments@);
            let ghost fv = f@;
            fragments.push(f);
            proof {
                assert(fv == want[index as int]);
                assert(frame_views(fragments@) == before.push(fv));
                assert(want.take(index as int + 1) == want.take(index as int).push(
                    want[index as int],
                ));
            }
            start = end;
            index = index + 1;
        }
        assert(want.take(index as int) == want);
        Ok(fragments)
    }
}

/// Collects the fragments of one split payload and joins them once all have arrived.
#[derive(Debug, Default)]
pub struct Reassembler {
    fragments: BTreeMap<u32, Vec<u8>>,
    count: u32,
}

/// What a [`Reassembler`] holds: the bodies that arrived, by index, and the expected number.
#[verifier::ext_equal]
pub struct ReassemblerView {
    pub fragments: Map<u32, Seq<u8>>,
    pub count: u32,
}

impl View for Reassembler {
    type V = ReassemblerView;

    closed spec fn view(&self) -> ReassemblerView {
        ReassemblerView {
            fragments: self.fragments@.map_values(|b: Vec<u8>| b@),
            count: self.count,
        }
    }
}

/// A reassembler without fragments.
pub open spec fn no_fragments() -> ReassemblerView {
    ReassemblerView { fragments: Map::empty(), count: 0 }
}

impl ReassemblerView {
    /// Every fragment has an index below the count, and at least one is missing.
    pub open spec fn wf(self) -> bool {
        &&& self.fragments.dom().finite()
        &&& self.fragments.dom().len() > 0 ==> self.fragments.dom().len() < self.count
        &&& forall|i: u32| #[trigger] self.fragments.dom().contains(i) ==> i < self.count
    }
}

/// The bodies of the first `n` fragments, joined in index order.
pub open spec fn joined(fragments: Map<u32, Seq<u8>>, n: nat) -> Seq<u8>
    decreases n,
{
    if n == 0 {
        seq![]
    } else {
        joined(fragments, (n - 1) as nat) + fragments[(n - 1) as u32]
    }
}

/// What a reassembler does with one more fragment: its next state and, once the last fragment
/// has arrived, the joined body; or why the fragment is refused.
pub open spec fn add_fragment(r: ReassemblerView, split: SplitInfo, body: Seq<u8>) -> Result<
    (ReassemblerView, Option<Seq<u8>>),
    Seq<char>,
> {
    let all = r.fragments.insert(split.index, body);
    if split.count == 0 {
        Err("split frame declares count=0"@)
    } else if split.index >= split.count {
        Err(
            "split_index "@ + text::decimal(split.index as nat) + " >= split_count "@
                + text::decimal(split.count as nat),
        )
    } else if r.fragments.dom().contains(split.index) {
        Err("duplicate split fragment index "@ + text::decimal(split.index as nat))
    } else if r.fragments.dom().len() > 0 && r.count != split.count {
        Err(
            "split count mismatch: expected "@ + text::decimal(r.count as nat) + ", got "@
                + text::decimal(split.count as nat),
        )
    } else if all.dom().len() == split.count {
        Ok((no_fragments(), Some(joined(all, split.count as nat))))
    } else {
        Ok((ReassemblerView { fragments: all, count: split.count }, None))
    }
}

/// A set of `n` numbers below `n` holds all of them.
proof fn lemma_full_range(s: Set<u32>, n: nat, k: u32)
    requires
        s.finite(),
        s.len() == n,
        k < n,
        forall|i: u32| #[trigger] s.contains(i) ==> i < n,
    ensures
        s.contains(k),
{
    let full = vstd::set_lib::set_int_range(0, n as int);
    vstd::set_lib::lemma_int_range(0, n as int);
    let image = s.map(|i: u32| i as int);
    assert(image.subset_of(full)) by {
        assert forall|x: int| image.contains(x) implies full.contains(x) by {
            let i = choose|i: u32| s.contains(i) && x == i as int;
        }
    }
    vstd::set_lib::lemma_map_size(s, image, |i: u32| i as int);
    vstd::set_lib::lemma_subset_equality(image, full);
    assert(image.contains(k as int));
    let i = choose|i: u32| s.contains(i) && k as int == i as int;
    assert(i == k);
}

impl Reassembler {
    /// The state is one that adding fragments leads to.
    pub open spec fn wf(&self) -> bool {
        self@.wf()
    }

    /// An empty reassembler.
    pub fn new() -> (r: Reassembler)
        ensures
            r.wf(),
            r@ == no_fragments(),
    {
        let r = Reassembler { fragments: BTreeMap::new(), count: 0 };
        assert(r@.fragments == Map::<u32, Seq<u8>>::empty());
        r
    }

    /// Adds a fragment; gives the joined body once the last one has arrived. A refused fragment
    /// changes nothing.
    pub fn add(&mut self, split: SplitInfo, body: Vec<u8>) -> (r: Result<
        Option<Vec<u8>>,
        PingError,
    >)
        requires
            old(self).wf(),
        ensures
            final(self).wf(),
            match (r, add_fragment(old(self)@, split, body@)) {
                (Ok(None), Ok((next, None))) => final(self)@ == next,
                (Ok(Some(b)), Ok((next, Some(v)))) => final(self)@ == next && b@ == v,
                (Err(e), Err(m)) => e.says(m) && final(self)@ == old(self)@,
                _ => false,
            },
    {
        broadcast use vstd::std_specs::btree::group_btree_axioms;

        if split.count == 0 {
            return Err(protocol_error("split frame declares count=0"));
        }
        if split.index >= split.count {
            return Err(
                Message::new("split_index ").number(split.index as u128).text(
                    " >= split_count ",
                ).number(split.count as u128).protocol(),
            );
        }
        if self.fragments.contains_key(&split.index) {
            return Err(
                Message::new("duplicate split fragment index ").number(
                    split.index as u128,
                ).protocol(),
            );
        }
        let ghost before = self@;
        assert(before.fragments.dom() =~= self.fragments@.dom());
        if self.fragments.len() > 0 && self.count != split.count {
            return Err(
                Message::new("split count mismatch: expected ").number(self.count as u128).text(
                    ", got ",
                ).number(split.count as u128).protocol(),
            );
        }
        let ghost bv = body@;
        self.count = split.count;
        self.fragments.insert(split.index, body);
        let ghost all = before.fragments.insert(split.index, bv);
        assert(self@.fragments =~= all);
        assert(self.fragments@.dom() =~= all.dom());
        if self.fragments.len() == self.count as usize {
            let n: u32 = self.count;
            let mut assembled: Vec<u8> = Vec::new();
            let mut i: u32 = 0;
            while i < n
                invariant
                    i <= n,
                    all == self.fragments@.map_values(|b: Vec<u8>| b@),
                    all.dom().finite(),
                    all.dom().len() == n,
                    forall|k: u32| #[trigger] all.dom().contains(k) ==> k < n,
                    assembled@ == joined(all, i as nat),
                decreases n - i,
            {
                proof {
                    lemma_full_range(all.dom(), n as nat, i);
                    assert(self.fragments@.dom().contains(i));
                }
                match self.fragments.get(&i) {
                    Some(chunk) => {
                        assert(chunk@ == all[i]);
                        bytes::extend(&mut assembled, chunk.as_slice());
                    },
                    None => {
                        assert(false);
                    },
                }
                i = i + 1;
            }
            self.fragments.clear();
            self.count = 0;
            assert(self@.fragments == Map::<u32, Seq<u8>>::empty());
            Ok(Some(assembled))
        } else {
            proof {
                lemma_below(all.dom(), split.count as nat);
            }
            Ok(None)
        }
    }
}

/// A set of numbers below `n` holds at most `n`.
proof fn lemma_below(s: Set<u32>, n: nat)
    requires
        s.finite(),
        forall|i: u32| #[trigger] s.contains(i) ==> i < n,
    ensures
        s.len() <= n,
{
    let full = vstd::set_lib::set_int_range(0, n as int);
    vstd::set_lib::lemma_int_range(0, n as int);
    let image = s.map(|i: u32| i as int);
    assert(image.subset_of(full)) by {
        assert forall|x: int| image.contains(x) implies full.contains(x) by {
            let i = choose|i: u32| s.contains(i) && x == i as int;
        }
    }
    vstd::set_lib::lemma_map_size(s, image, |i: u32| i as int);
    vstd::set_lib::lemma_len_subset(image, full);
}

/// What a reassembler makes of fragments handed to it in a given order: its last state and what
/// it gave for the last fragment.
pub open spec fn arrive(parts: Seq<FrameView>, order: Seq<int>) -> Result<
    (ReassemblerView, Option<Seq<u8>>),
    Seq<char>,
>
    decreases order.len(),
{
    if order.len() == 0 {
        Ok((no_fragments(), None))
    } else {
        match arrive(parts, order.drop_last()) {
            Err(m) => Err(m),
            Ok((r, _)) => add_fragment(r, parts[order.last()].split->0, parts[order.last()].body),
        }
    }
}

/// The bodies of the fragments with the given positions, by index.
spec fn arrived(parts: Seq<FrameView>, order: Seq<int>) -> Map<u32, Seq<u8>>
    decreases order.len(),
{
    if order.len() == 0 {
        Map::empty()
    } else {
        arrived(parts, order.drop_last()).insert(order.last() as u32, parts[order.last()].body)
    }
}

proof fn lemma_arrived(parts: Seq<FrameView>, order: Seq<int>)
    requires
        order.no_duplicates(),
        parts.len() <= u32::MAX,
        forall|i: int| 0 <= i < order.len() ==> 0 <= #[trigger] order[i] < parts.len(),
    ensures
        arrived(parts, order).dom().finite(),
        arrived(parts, order).dom().len() == order.len(),
        forall|k: u32|
            #[trigger] arrived(parts, order).dom().contains(k) <==> order.contains(k as int),
        forall|k: u32|
            arrived(parts, order).dom().contains(k) ==> #[trigger] arrived(parts, order)[k]
                == parts[k as int].body,
    decreases order.len(),
{
    let m = arrived(parts, order);
    if order.len() > 0 {
        let prev = order.drop_last();
        let last = order.last();
        lemma_arrived(parts, prev);
        assert(!prev.contains(last)) by {
            if prev.contains(last) {
                let i = choose|i: int| 0 <= i < prev.len() && prev[i] == last;
                assert(order[i] == order[order.len() - 1]);
            }
        }
        assert(!arrived(parts, prev).dom().contains(last as u32));
        assert(m.dom() =~= arrived(parts, prev).dom().insert(last as u32));
        assert forall|k: u32| #[trigger] m.dom().contains(k) <==> order.contains(k as int) by {
            if order.contains(k as int) {
                let i = choose|i: int| 0 <= i < order.len() && order[i] == k as int;
                if i < prev.len() {
                    assert(prev[i] == k as int);
                    assert(prev.contains(k as int));
                }
            }
            if prev.contains(k as int) {
                let i = choose|i: int| 0 <= i < prev.len() && prev[i] == k as int;
                assert(order[i] == k as int);
            }
            assert(order[order.len() - 1] == last);
        }
    }
}

/// The fragments of `f`, for a budget of `m` bytes each that `f` exceeds.
pub open spec fn fragments_of(f: FrameView, m: nat, id: u16) -> Seq<FrameView> {
    split_frames(f, m, id)->Ok_0
}

/// A frame is split: the budget is positive, the body exceeds it, and the fragments can be
/// counted.
pub open spec fn is_split(f: FrameView, m: nat) -> bool {
    0 < m < f.body.len() && fragment_count(f.body.len(), m) <= u32::MAX
}

proof fn lemma_joined_prefix(fragments: Map<u32, Seq<u8>>, f: FrameView, m: nat, id: u16, n: nat)
    requires
        is_split(f, m),
        n <= fragment_count(f.body.len(), m),
        forall|k: u32|
            k < fragment_count(f.body.len(), m) ==> #[trigger] fragments[k] == fragment(
                f,
                m,
                id,
                k as nat,
            ).body,
    ensures
        joined(fragments, n) == f.body.subrange(0, cut(f.body.len(), m, n)),
        0 <= cut(f.body.len(), m, n) <= f.body.len(),
    decreases n,
{
    if n == 0 {
        assert(joined(fragments, n) == f.body.subrange(0, 0));
        assert(cut(f.body.len(), m, 0) == 0) by (nonlinear_arith)
            requires
                m > 0,
                cut(f.body.len(), m, 0) == (if 0 * m <= f.body.len() {
                    (0 * m) as int
                } else {
                    f.body.len() as int
                }),
        ;
    } else {
        let k = (n - 1) as nat;
        lemma_joined_prefix(fragments, f, m, id, k);
        lemma_cuts(f.body.len(), m, k);
        assert(fragments[k as u32] == fragment(f, m, id, k).body);
        bytes::lemma_join(f.body, 0, cut(f.body.len(), m, k), cut(f.body.len(), m, n));
    }
}

proof fn lemma_arrive_state(f: FrameView, m: nat, id: u16, order: Seq<int>)
    requires
        is_split(f, m),
        order.no_duplicates(),
        order.len() <= fragment_count(f.body.len(), m),
        forall|i: int|
            0 <= i < order.len() ==> 0 <= #[trigger] order[i] < fragment_count(f.body.len(), m),
    ensures
        order.len() < fragment_count(f.body.len(), m) ==> arrive(fragments_of(f, m, id), order)
            == Ok::<(ReassemblerView, Option<Seq<u8>>), Seq<char>>(
            (
                ReassemblerView {
                    fragments: arrived(fragments_of(f, m, id), order),
                    count: if order.len() == 0 {
                        0
                    } else {
                        fragment_count(f.body.len(), m) as u32
                    },
                },
                None,
            ),
        ),
        order.len() == fragment_count(f.body.len(), m) ==> arrive(fragments_of(f, m, id), order)
            == Ok::<(ReassemblerView, Option<Seq<u8>>), Seq<char>>(
            (no_fragments(), Some(f.body)),
        ),
    decreases order.len(),
{
    let parts = fragments_of(f, m, id);
    let count = fragment_count(f.body.len(), m);
    assert(parts.len() == count);
    lemma_cuts_positive(f.body.len(), m);
    if order.len() > 0 {
        let prev = order.drop_last();
        let last = order.last();
        assert(order[order.len() - 1] == last);
        assert forall|i: int| 0 <= i < prev.len() implies 0 <= #[trigger] prev[i] < count by {
            assert(prev[i] == order[i]);
        }
        lemma_arrive_state(f, m, id, prev);
        lemma_arrived(parts, prev);
        lemma_arrived(parts, order);
        assert(!prev.contains(last)) by {
            if prev.contains(last) {
                let i = choose|i: int| 0 <= i < prev.len() && prev[i] == last;
                assert(order[i] == order[order.len() - 1]);
            }
        }
        assert(parts[last] == fragment(f, m, id, last as nat));
        assert(!arrived(parts, prev).dom().contains(last as u32));
        let all = arrived(parts, order);
        if order.len() == count {
            assert forall|k: u32| k < count implies #[trigger] all[k] == fragment(
                f,
                m,
                id,
                k as nat,
            ).body by {
                assert forall|i: u32| #[trigger] all.dom().contains(i) implies i < count by {
                    assert(order.contains(i as int));
                    let j = choose|j: int| 0 <= j < order.len() && order[j] == i as int;
                }
                lemma_full_range(all.dom(), count, k);
                assert(parts[k as int] == fragment(f, m, id, k as nat));
            }
            lemma_joined_prefix(all, f, m, id, count);
            assert(f.body.subrange(0, f.body.len() as int) == f.body);
            assert(cut(f.body.len(), m, count) == f.body.len());
        }
    }
}

proof fn lemma_cuts_positive(len: nat, m: nat)
    requires
        0 < m < len,
    ensures
        fragment_count(len, m) > 0,
        cut(len, m, fragment_count(len, m)) == len,
{
    vstd::arithmetic::div_mod::lemma_fundamental_div_mod(len as int, m as int);
    let q = len / m;
    assert(q > 0) by (nonlinear_arith)
        requires
            len == m * q + len % m,
            len % m < m,
            len > m,
            m > 0,
    ;
    lemma_cuts(len, m, 0);
}

/// A payload split into fragments is put together again, whatever order the fragments arrive
/// in: every fragment but the last to arrive gives nothing yet, the last one gives the payload,
/// and the reassembler is empty again.
pub proof fn law_split_then_reassemble(f: FrameView, m: nat, id: u16, order: Seq<int>)
    requires
        is_split(f, m),
        order.no_duplicates(),
        order.len() == fragment_count(f.body.len(), m),
        forall|i: int|
            0 <= i < order.len() ==> 0 <= #[trigger] order[i] < fragment_count(f.body.len(), m),
    ensures
        arrive(fragments_of(f, m, id), order) == Ok::<
            (ReassemblerView, Option<Seq<u8>>),
            Seq<char>,
        >((no_fragments(), Some(f.body))),
        forall|n: int|
            0 <= n < order.len() ==> (#[trigger] arrive(fragments_of(f, m, id), order.take(n)))
                is Ok && arrive(fragments_of(f, m, id), order.take(n))->Ok_0.1 is None,
{
    lemma_arrive_state(f, m, id, order);
    assert forall|n: int| 0 <= n < order.len() implies (#[trigger] arrive(
        fragments_of(f, m, id),
        order.take(n),
    )) is Ok && arrive(fragments_of(f, m, id), order.take(n))->Ok_0.1 is None by {
        let prefix = order.take(n);
        assert forall|i: int, j: int|
            0 <= i < prefix.len() && 0 <= j < prefix.len() && i != j implies prefix[i]
            != prefix[j] by {
            assert(prefix[i] == order[i] && prefix[j] == order[j]);
        }
        lemma_arrive_state(f, m, id, prefix);
    }
}

/// Every fragment of a split payload keeps the header of the payload and stays within the
/// budget.
pub proof fn law_fragments_fit(f: FrameView, m: nat, id: u16)
    requires
        is_split(f, m),
    ensures
        forall|i: int|
            0 <= i < fragments_of(f, m, id).len() ==> {
                let part = #[trigger] fragments_of(f, m, id)[i];
                &&& 0 < part.body.len() <= m
                &&& part == (FrameView { split: part.split, body: part.body, ..f })
            },
{
    assert forall|i: int| 0 <= i < fragments_of(f, m, id).len() implies {
        let part = #[trigger] fragments_of(f, m, id)[i];
        &&& 0 < part.body.len() <= m
        &&& part == (FrameView { split: part.split, body: part.body, ..f })
    } by {
        lemma_cuts(f.body.len(), m, i as nat);
    }
}

// ==================== Laws ====================

/// A datagram can be encoded exactly if each of its frames can, and else the first that cannot says
/// why.
pub proof fn law_frames_error(frames: Seq<FrameView>)
    ensures
        frames_error(frames) is None <==> forall|i: int|
            0 <= i < frames.len() ==> frame_error(#[trigger] frames[i]) is None,
        frames_error(frames) is Some ==> exists|i: int|
            0 <= i < frames.len() && frames_error(frames) == frame_error(#[trigger] frames[i])
                && forall|k: int| 0 <= k < i ==> frame_error(#[trigger] frames[k]) is None,
    decreases frames.len(),
{
    if frames.len() > 0 {
        let less = frames.drop_last();
        let n = frames.len() - 1;
        law_frames_error(less);
        assert forall|i: int| 0 <= i < n implies #[trigger] frames[i] == less[i] by {}
        assert(frames[n] == frames.last());
        if frames_error(less) is Some {
            let i = choose|i: int|
                0 <= i < less.len() && frames_error(less) == frame_error(#[trigger] less[i])
                    && forall|k: int| 0 <= k < i ==> frame_error(#[trigger] less[k]) is None;
            assert(frames[i] == less[i]);
            assert forall|k: int| 0 <= k < i implies frame_error(#[trigger] frames[k]) is None by {
                assert(frames[k] == less[k]);
            }
        } else {
            assert forall|k: int| 0 <= k < n implies frame_error(#[trigger] frames[k]) is None by {
                assert(frames[k] == less[k]);
            }
        }
    }
}

/// The reliabilities by their wire values, and the indices that each carries.
pub proof fn law_reliabilities(r: Reliability)
    ensures
        match r {
            Reliability::Unreliable => raw_of(r) == 0 && !r.reliable() && !r.sequenced()
                && !r.ordered(),
            Reliability::UnreliableSequenced => raw_of(r) == 1 && !r.reliable() && r.sequenced()
                && r.ordered(),
            Reliability::Reliable => raw_of(r) == 2 && r.reliable() && !r.sequenced()
                && !r.ordered(),
            Reliability::ReliableOrdered => raw_of(r) == 3 && r.reliable() && !r.sequenced()
                && r.ordered(),
            Reliability::ReliableSequenced => raw_of(r) == 4 && r.reliable() && r.sequenced()
                && r.ordered(),
        },
        reliability_of(raw_of(r)) == r,
{
}

/// A frame can be encoded exactly if it has the indices that its reliability carries and no other,
/// each in 24 bits, and a body of at most 8191 bytes.
pub proof fn law_frame_can_be_encoded(f: FrameView)
    ensures
        frame_error(f) is None <==> {
            &&& f.reliability.reliable() <==> f.reliable_index is Some
            &&& f.reliability.sequenced() <==> f.sequence_index is Some
            &&& f.reliability.ordered() <==> f.order_index is Some
            &&& f.reliable_index matches Some(i) ==> i < 0x100_0000
            &&& f.sequence_index matches Some(i) ==> i < 0x100_0000
            &&& f.order_index matches Some(i) ==> i < 0x100_0000
            &&& f.body.len() <= 8191
        },
{
}

/// How many bytes of indices the reliability with a wire value has.
pub open spec fn indices_len(raw: int) -> int {
    if raw == 1 {
        7
    } else if raw == 2 {
        3
    } else if raw == 3 {
        7
    } else if raw == 4 {
        10
    } else {
        0
    }
}

/// How many bytes stand in front of the body of the frame at an offset.
pub open spec fn header_len(s: Seq<u8>, at: int) -> int {
    3 + indices_len((s[at] / 32) as int) + (if s[at] / 16 % 2 == 1 {
        10int
    } else {
        0
    })
}

/// When a frame stands at an offset, and where it ends: its reliability is one of five, its length
/// is one of whole bytes, and all its bytes are there.
pub proof fn law_frame_is_understood(tag: Seq<char>, s: Seq<u8>, at: int)
    requires
        0 <= at,
    ensures
        (frame_at(tag, s, at) matches Ok(r) && r is None) <==> at >= s.len(),
        (frame_at(tag, s, at) matches Ok(r) && r is Some) <==> {
            &&& at + 3 <= s.len()
            &&& s[at] / 32 <= 4
            &&& (s[at + 1] * 256 + s[at + 2]) % 8 == 0
            &&& at + header_len(s, at) + (s[at + 1] * 256 + s[at + 2]) / 8 <= s.len()
        },
        frame_at(tag, s, at) matches Ok(Some((f, end))) ==> {
            &&& end == at + header_len(s, at) + (s[at + 1] * 256 + s[at + 2]) / 8
            &&& f.body == s.subrange(at + header_len(s, at), end)
            &&& raw_of(f.reliability) == s[at] / 32
            &&& f.split is Some <==> s[at] / 16 % 2 == 1
        },
{
    reveal(frame_at);
    bytes::law_digits_are_read(s, at + 1);
}

/// Where the indices of a frame stand: in front the reliable one, then the sequence index, then the
/// order index with its channel, each in 24 bits, least significant byte first; behind them how
/// many fragments there are, their ID and the number of this one.
pub proof fn law_frame_indices(tag: Seq<char>, s: Seq<u8>, at: int)
    requires
        0 <= at,
        frame_at(tag, s, at) matches Ok(r) && r is Some,
    ensures
        frame_at(tag, s, at) matches Ok(Some((f, _))) && {
            let raw = s[at] / 32;
            let split_at = at + 3 + indices_len(raw as int);
            &&& f.reliable_index == (if raw >= 2 {
                Some(bytes::u24_at(s, at + 3))
            } else {
                None
            })
            &&& f.sequence_index == (if raw == 1 {
                Some(bytes::u24_at(s, at + 3))
            } else if raw == 4 {
                Some(bytes::u24_at(s, at + 6))
            } else {
                None
            })
            &&& f.order_index == (if raw == 1 || raw == 3 {
                Some(bytes::u24_at(s, at + 6))
            } else if raw == 4 {
                Some(bytes::u24_at(s, at + 9))
            } else {
                None
            })
            &&& raw == 1 || raw == 3 ==> f.order_channel == s[at + 9]
            &&& raw == 4 ==> f.order_channel == s[at + 12]
            &&& raw == 0 || raw == 2 ==> f.order_channel == 0
            &&& f.split matches Some(i) ==> i.count == bytes::u32_at(s, split_at) && i.id
                == bytes::u16_at(s, split_at + 4) && i.index == bytes::u32_at(s, split_at + 6)
        },
{
    reveal(frame_at);
}

/// A datagram's frames stand one behind the other from offset 4 on, behind its number, and nothing
/// else does.
pub proof fn law_datagram_is_understood(data: Seq<u8>)
    ensures
        (datagram_of(data) matches Ok(d) && d is None) <==> data.len() == 0 || data[0] < 0x80
            || data[0] >= 0xa0,
        datagram_of(data) matches Ok(Some(d)) ==> {
            &&& data.len() >= 4
            &&& d.sequence_number == data[1] + data[2] * 256 + data[3] * 0x1_0000
            &&& frames_at("Datagram"@, data, 4) == Ok::<Seq<FrameView>, Seq<char>>(d.frames)
        },
        datagram_of(data) is Err <==> data.len() > 0 && 0x80 <= data[0] < 0xa0 && (data.len() < 4
            || frames_at("Datagram"@, data, 4) is Err),
{
    bytes::law_digits_are_read(data, 1);
}

/// The frames from an offset on are the one there and those from its end on; at the end of the
/// packet there are none, and a malformed one makes all of them malformed.
pub proof fn law_frames_follow(tag: Seq<char>, s: Seq<u8>, at: int)
    requires
        0 <= at,
    ensures
        at >= s.len() ==> frames_at(tag, s, at) == Ok::<Seq<FrameView>, Seq<char>>(seq![]),
        frame_at(tag, s, at) matches Ok(Some((f, end))) ==> match frames_at(tag, s, end) {
            Ok(rest) => frames_at(tag, s, at) == Ok::<Seq<FrameView>, Seq<char>>(seq![f] + rest),
            Err(_) => frames_at(tag, s, at) is Err,
        },
        frame_at(tag, s, at) is Err ==> frames_at(tag, s, at) is Err,
{
    law_frame_is_understood(tag, s, at);
    lemma_frame_end(tag, s, at);
}

/// The leading byte tells the packets of a session apart: from 0xc0 on an ACK, from 0xa0 on a NACK,
/// from 0x80 on a datagram; below, it is none of them.
pub proof fn law_packet_kinds(data: Seq<u8>)
    ensures
        data.len() == 0 || data[0] < 0x80 ==> incoming_of(data) is Err,
        data.len() > 0 && data[0] >= 0xc0 ==> (match (incoming_of(data), ack_of(data)) {
            (Ok(IncomingView::Ack(a)), Ok(Some(b))) => a == b && a.is_ack,
            (Err(m), Err(n)) => m == n,
            _ => false,
        }),
        data.len() > 0 && 0xa0 <= data[0] < 0xc0 ==> (match (incoming_of(data), ack_of(data)) {
            (Ok(IncomingView::Nack(a)), Ok(Some(b))) => a == b && !a.is_ack,
            (Err(m), Err(n)) => m == n,
            _ => false,
        }),
        data.len() > 0 && 0x80 <= data[0] < 0xa0 ==> (match (incoming_of(data), datagram_of(
            data,
        )) {
            (Ok(IncomingView::Datagram(a)), Ok(Some(b))) => a == b,
            (Err(m), Err(n)) => m == n,
            _ => false,
        }),
{
}

/// A record on the wire: the byte 1 and a number, or the byte 0 and the ends of a range, each in 24
/// bits, least significant byte first.
pub proof fn law_record_layout(start: u32, end: u32)
    requires
        start < 0x100_0000,
        end < 0x100_0000,
    ensures
        ({
            let one = record_bytes(AckRange::make(start, None));
            let range = record_bytes(AckRange::make(start, Some(end)));
            &&& one.len() == 4
            &&& one[0] == 1
            &&& one[1] + one[2] * 256 + one[3] * 0x1_0000 == start
            &&& range.len() == 7
            &&& range[0] == 0
            &&& range[1] + range[2] * 256 + range[3] * 0x1_0000 == start
            &&& range[4] + range[5] * 256 + range[6] * 0x1_0000 == end
        }),
{
    broadcast use lemma_ack_range_fields;

    bytes::law_bytes_are_digits(0, start, 0);
    bytes::law_bytes_are_digits(0, end, 0);
}

/// When a record stands at an offset, and what it says: the byte 1 marks a number, any other a
/// range.
pub proof fn law_record_is_understood(tag: Seq<char>, s: Seq<u8>, at: int)
    requires
        0 <= at,
    ensures
        record_at(tag, s, at) is Ok <==> at + 4 <= s.len() && (s[at] == 1 || at + 7 <= s.len()),
        record_at(tag, s, at) matches Ok((r, end)) ==> {
            &&& r.first() == s[at + 1] + s[at + 2] * 256 + s[at + 3] * 0x1_0000
            &&& s[at] == 1 ==> r.last() is None && end == at + 4
            &&& s[at] != 1 ==> end == at + 7 && r.last() == Some(
                (s[at + 4] + s[at + 5] * 256 + s[at + 6] * 0x1_0000) as u32,
            )
        },
{
    broadcast use lemma_ack_range_fields;

    bytes::law_digits_are_read(s, at + 1);
    bytes::law_digits_are_read(s, at + 4);
}

/// An ACK or NACK lists as many records as it says at offset 1, from offset 3 on, one behind the
/// other.
pub proof fn law_acknowledgement_is_understood(data: Seq<u8>)
    ensures
        (ack_of(data) matches Ok(a) && a is None) <==> data.len() == 0 || data[0] < 0xa0,
        ack_of(data) matches Ok(Some(a)) ==> {
            &&& data.len() >= 3
            &&& a.is_ack <==> data[0] >= 0xc0
            &&& a.ranges.len() == data[1] * 256 + data[2]
            &&& records_at(ack_name(a.is_ack), data, 3, a.ranges.len()) == Ok::<
                Seq<AckRange>,
                Seq<char>,
            >(a.ranges)
        },
{
    bytes::law_digits_are_read(data, 1);
    if data.len() >= 3 {
        let n = bytes::u16_at(data, 1) as nat;
        law_records_follow(ack_name(true), data, 3, n);
        law_records_follow(ack_name(false), data, 3, n);
    }
}

/// Records are the one at an offset and those from its end on, as many as are asked for.
pub proof fn law_records_follow(tag: Seq<char>, s: Seq<u8>, at: int, n: nat)
    ensures
        records_at(tag, s, at, n) matches Ok(list) ==> list.len() == n,
        n > 0 ==> (match record_at(tag, s, at) {
            Ok((r, end)) => match records_at(tag, s, end, (n - 1) as nat) {
                Ok(rest) => records_at(tag, s, at, n) == Ok::<Seq<AckRange>, Seq<char>>(
                    seq![r] + rest,
                ),
                Err(_) => records_at(tag, s, at, n) is Err,
            },
            Err(_) => records_at(tag, s, at, n) is Err,
        }),
    decreases n,
{
    if n > 0 {
        if let Ok((_, end)) = record_at(tag, s, at) {
            law_records_follow(tag, s, end, (n - 1) as nat);
        }
    }
}

/// The fragments of a payload: as many as are needed, each as long as allowed but the last, cut one
/// behind the other, and numbered from 0 on under one ID and their count.
pub proof fn law_fragments(f: FrameView, m: nat, id: u16)
    requires
        is_split(f, m),
    ensures
        ({
            let parts = fragments_of(f, m, id);
            let n = parts.len();
            &&& (n - 1) * m < f.body.len() <= n * m
            &&& forall|i: int|
                0 <= i < n ==> (#[trigger] parts[i]).split == Some(
                    SplitInfo { count: n as u32, id, index: i as u32 },
                )
            &&& forall|i: int|
                0 <= i < n - 1 ==> (#[trigger] parts[i]).body == f.body.subrange(i * m, i * m + m)
            &&& parts[n - 1].body == f.body.subrange((n - 1) * m, f.body.len() as int)
        }),
{
    let len = f.body.len();
    let n = fragment_count(len, m);
    lemma_cuts_positive(len, m);
    let q = len / m;
    let r = len % m;
    vstd::arithmetic::div_mod::lemma_fundamental_div_mod(len as int, m as int);
    vstd::arithmetic::div_mod::lemma_mod_bound(len as int, m as int);
    assert((n - 1) * m < len <= n * m) by (nonlinear_arith)
        requires
            len == m * q + r,
            0 <= r < m,
            n == q + (if r == 0 {
                0int
            } else {
                1
            }),
    ;
    let parts = fragments_of(f, m, id);
    assert(parts.len() == n);
    assert forall|i: int| 0 <= i < n - 1 implies (#[trigger] parts[i]).body == f.body.subrange(
        i * m,
        i * m + m,
    ) by {
        lemma_cuts(len, m, i as nat);
        assert(len - i * m > m) by (nonlinear_arith)
            requires
                0 <= i < n - 1,
                (n - 1) * m < len,
                m > 0,
        ;
    }
    lemma_cuts(len, m, (n - 1) as nat);
    assert(len - (n - 1) * m <= m) by (nonlinear_arith)
        requires
            len <= n * m,
    ;
}

/// A payload that fits is sent whole, as one frame; with nothing allowed none can be sent.
pub proof fn law_short_payload_is_not_split(f: FrameView, m: nat, id: u16)
    ensures
        0 < m && f.body.len() <= m ==> split_frames(f, m, id) == Ok::<Seq<FrameView>, Seq<char>>(
            seq![f],
        ),
        m == 0 ==> split_frames(f, m, id) is Err,
        f.body.len() > m > 0 ==> (split_frames(f, m, id) is Ok <==> is_split(f, m)),
{
}

/// Which fragments are refused: one of no fragments, one past the last, one that is there already,
/// and one that counts otherwise than those before. Any other is kept; the one that completes the
/// payload, and no other, gives it.
pub proof fn law_fragment_is_taken(r: ReassemblerView, split: SplitInfo, body: Seq<u8>)
    requires
        r.fragments.dom().finite(),
    ensures
        add_fragment(r, split, body) is Err <==> {
            ||| split.index >= split.count
            ||| r.fragments.dom().contains(split.index)
            ||| r.fragments.dom().len() > 0 && r.count != split.count
        },
        add_fragment(r, split, body) matches Ok((next, None)) ==> {
            &&& r.fragments.dom().len() + 1 != split.count
            &&& next.count == split.count
            &&& next.fragments.dom().len() == r.fragments.dom().len() + 1
            &&& next.fragments.contains_key(split.index) && next.fragments[split.index] == body
            &&& forall|i: u32| #[trigger]
                r.fragments.dom().contains(i) ==> next.fragments.contains_key(i)
                    && next.fragments[i] == r.fragments[i]
        },
        add_fragment(r, split, body) matches Ok((next, Some(_))) ==> {
            &&& r.fragments.dom().len() + 1 == split.count
            &&& next.fragments.dom().is_empty()
        },
{
    let all = r.fragments.insert(split.index, body);
    assert(all.dom() =~= r.fragments.dom().insert(split.index));
}

/// The payload that fragments give has the body of each in its place, in the order of their
/// numbers, and nothing else.
pub proof fn law_joined(fragments: Map<u32, Seq<u8>>, n: nat)
    requires
        n < u32::MAX,
    ensures
        joined(fragments, 0) == Seq::<u8>::empty(),
        joined(fragments, n + 1) == joined(fragments, n) + fragments[n as u32],
{
}

/// What is said of a refused fragment: its number and the count where it lies past the last, its
/// number where it is there already, and the counts, the expected one first, where they differ.
pub proof fn law_refused_fragment_says(r: ReassemblerView, split: SplitInfo, body: Seq<u8>)
    requires
        split.count > 0,
    ensures
        split.index >= split.count ==> (add_fragment(r, split, body) matches Err(m)
            && text::shows(m, seq![split.index as nat, split.count as nat])),
        split.index < split.count && r.fragments.dom().contains(split.index) ==> (add_fragment(
            r,
            split,
            body,
        ) matches Err(m) && text::shows(m, seq![split.index as nat])),
        split.index < split.count && !r.fragments.dom().contains(split.index)
            && r.fragments.dom().len() > 0 && r.count != split.count ==> (add_fragment(
            r,
            split,
            body,
        ) matches Err(m) && text::shows(m, seq![r.count as nat, split.count as nat])),
{
    reveal_strlit("split_index ");
    reveal_strlit(" >= split_count ");
    reveal_strlit("duplicate split fragment index ");
    reveal_strlit("split count mismatch: expected ");
    reveal_strlit(", got ");
    let none = Seq::<char>::empty();
    let i = split.index as nat;
    let n = split.count as nat;
    text::lemma_shows_two("split_index "@, i, " >= split_count "@, n, none);
    text::lemma_shows_one("duplicate split fragment index "@, i, none);
    text::lemma_shows_two("split count mismatch: expected "@, r.count as nat, ", got "@, n, none);
    let a = "split_index "@ + text::decimal(i) + " >= split_count "@ + text::decimal(n);
    let b = "duplicate split fragment index "@ + text::decimal(i);
    let c = "split count mismatch: expected "@ + text::decimal(r.count as nat) + ", got "@
        + text::decimal(n);
    assert(a + none =~= a && b + none =~= b && c + none =~= c);
}

/// What is said of a number over 24 bits: what it is, and then the number in hexadecimal.
pub proof fn law_over_24_bits_says(what: Seq<char>, idx: u32)
    ensures
        ({
            let m = over_24_bits(what, idx);
            let n = what.len() as int;
            &&& what.is_prefix_of(m)
            &&& m.len() >= n + text::hex(idx as nat).len()
            &&& text::hex_value(m.subrange(n, n + text::hex(idx as nat).len())) == idx
        }),
{
    let m = over_24_bits(what, idx);
    let n = what.len() as int;
    text::law_hex_round_trip(idx as nat, 0);
    assert(m.take(n) =~= what);
    assert(m.subrange(n, n + text::hex(idx as nat).len()) =~= text::hex(idx as nat));
}

/// Each reliability has a name of its own.
pub proof fn law_reliability_names_differ(a: Reliability, b: Reliability)
    requires
        reliability_name(a) == reliability_name(b),
    ensures
        a == b,
{
    reveal_strlit("Unreliable");
    reveal_strlit("UnreliableSequenced");
    reveal_strlit("Reliable");
    reveal_strlit("ReliableOrdered");
    reveal_strlit("ReliableSequenced");
    assert("Unreliable"@.len() == 10 && "UnreliableSequenced"@.len() == 19);
    assert("Reliable"@.len() == 8 && "ReliableOrdered"@.len() == 15);
    assert("ReliableSequenced"@.len() == 17);
}

} // verus!
