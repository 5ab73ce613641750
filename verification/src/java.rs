//! Minecraft Java edition: the Server List Ping.
//!
//! Over TCP, by default to port 25565:
//!
//! 1. The client sends a Handshake packet (`0x00`) that asks for the status state.
//! 2. The client sends a Status Request packet (`0x00`), which is empty.
//! 3. The server answers with a Status Response packet (`0x00`), a JSON string.
//! 4. To measure the round trip, the client sends a Ping Request packet (`0x01`) with a timestamp,
//!    and the server echoes it in a Pong packet (`0x01`).
//!
//! Every packet stands behind its length, a VarInt.
use vstd::prelude::*;
use vstd::slice::slice_subrange;
use vstd::utf8::{decode_utf8, encode_utf8, valid_utf8};

use crate::addr::{HostAddr, SocketAddr};
use crate::bytes;
use crate::error::PingError;
use crate::json;
use crate::json::Json;
use crate::leb128;
use crate::text;
use crate::text::{protocol_error, Message};
use crate::varint;
use crate::varint::{Cursor, VarInt, VarIntRead, VarIntWrite};

verus! {

/// Default port of Java servers.
pub const DEFAULT_PORT: u16 = 25565;

/// The protocol number that stands for any version.
pub const ANY_PROTOCOL_VERSION: i32 = -1;

// ==================== The server's description ====================

/// What a server says of itself.
#[derive(Debug, Clone, PartialEq)]
pub struct StatusResponse {
    /// The server's version.
    pub version: Version,
    /// Who is playing.
    pub players: Players,
    /// The message of the day.
    pub description: Description,
    /// The server's icon, a PNG image as base64 text.
    pub favicon: Option<String>,
    /// Whether chat messages must be signed.
    pub enforces_secure_chat: Option<bool>,
    /// Whether chat previews are on.
    pub previews_chat: Option<bool>,
}

/// A server's version.
#[derive(Debug, Clone, PartialEq, Eq)]
pub struct Version {
    /// The version's name, e.g. `"1.21.8"`.
    pub name: String,
    /// The protocol's number, e.g. `772`.
    pub protocol: i32,
}

/// Who is playing.
#[derive(Debug, Clone, PartialEq, Eq)]
pub struct Players {
    /// How many may play.
    pub max: i32,
    /// How many are playing.
    pub online: i32,
    /// Some of those playing.
    pub sample: Option<Vec<PlayerSample>>,
}

/// One player.
#[derive(Debug, Clone, PartialEq, Eq)]
pub struct PlayerSample {
    /// The player's name.
    pub name: String,
    /// The player's UUID.
    pub id: String,
}

/// The message of the day: plain text, or text in fragments.
#[derive(Debug, Clone, PartialEq)]
pub enum Description {
    /// Plain text.
    Plain(String),
    /// Text with fragments and style.
    Object {
        /// The first text.
        text: String,
        /// The fragments behind it.
        extra: Option<Vec<serde_json::Value>>,
        /// All other members.
        other: serde_json::Map<String, serde_json::Value>,
    },
}

/// The texts of fragments, one behind the other; a fragment without a text has none.
pub open spec fn fragments_text(fragments: Seq<Json>) -> Seq<char>
    decreases fragments.len(),
{
    if fragments.len() == 0 {
        seq![]
    } else {
        fragments_text(fragments.drop_last()) + match json::text_member(
            fragments.last(),
            "text"@,
        ) {
            Some(t) => t,
            None => seq![],
        }
    }
}

impl Description {
    /// The text without style.
    pub open spec fn plain_text(self) -> Seq<char> {
        match self {
            Description::Plain(s) => s@,
            Description::Object { text, extra, .. } => text@ + match extra {
                Some(list) => fragments_text(json::contents(list@)),
                None => seq![],
            },
        }
    }

    /// The text without style: the first text and the text of each fragment.
    pub fn to_plain_text(&self) -> (r: String)
        ensures
            r@ == self.plain_text(),
    {
        match self {
            Description::Plain(s) => text::copy_text(s.as_str()),
            Description::Object { text, extra, .. } => {
                let mut out = text::copy_text(text.as_str());
                let ghost start = out@;
                if let Some(list) = extra {
                    let ghost all = json::contents(list@);
                    let mut i: usize = 0;
                    assert(all.take(0) == Seq::<Json>::empty());
                    assert(start + fragments_text(all.take(0)) == start);
                    while i < list.len()
                        invariant
                            i <= list@.len(),
                            all == json::contents(list@),
                            out@ == start + fragments_text(all.take(i as int)),
                        decreases list@.len() - i,
                    {
                        proof {
                            let next = all.take(i as int + 1);
                            assert(next.drop_last() == all.take(i as int));
                            assert(next.last() == json::content(list@[i as int]));
                        }
                        let ghost before = fragments_text(all.take(i as int));
                        match json::member_text(&list[i], "text") {
                            Some(t) => {
                                out.append(t.as_str());
                                assert(start + before + t@ == start + (before + t@));
                            },
                            None => {
                                assert(before + Seq::<char>::empty() == before);
                            },
                        }
                        i = i + 1;
                    }
                    assert(all.take(i as int) == all);
                } else {
                    assert(start + Seq::<char>::empty() == start);
                }
                out
            },
        }
    }
}

// ==================== Strings and packets on the wire ====================

/// A length as a VarInt, which holds 32 bits.
pub open spec fn length_bytes(n: nat) -> Seq<u8> {
    leb128::leb(n % 0x1_0000_0000)
}

/// A VarInt on the wire.
pub open spec fn number_bytes(n: i32) -> Seq<u8> {
    leb128::leb(bytes::i32_bits(n) as nat)
}

fn push_number(buf: &mut Vec<u8>, n: i32)
    ensures
        final(buf)@ == old(buf)@ + number_bytes(n),
{
    proof {
        varint::law_var_int_round_trip(n, seq![], seq![]);
    }
    buf.write_var_int(VarInt::from(n));
}

fn push_length(buf: &mut Vec<u8>, n: usize)
    ensures
        final(buf)@ == old(buf)@ + length_bytes(n as nat),
{
    let low: u32 = ((n as u64) % 0x1_0000_0000) as u32;
    push_number(buf, bytes::i32_from_bits(low));
}

/// A string on the wire: UTF-8 bytes behind their length.
pub open spec fn string_bytes(s: Seq<char>) -> Seq<u8> {
    length_bytes(encode_utf8(s).len()) + encode_utf8(s)
}

/// Appends a string.
pub fn write_string(buf: &mut Vec<u8>, s: &str)
    ensures
        final(buf)@ == old(buf)@ + string_bytes(s@),
{
    let data = s.as_bytes();
    push_length(buf, data.len());
    bytes::extend(buf, data);
    assert(buf@ == old(buf)@ + string_bytes(s@));
}

/// The number that `n` bytes at the start of `data` spell.
pub open spec fn number_at(data: Seq<u8>, n: int) -> i32 {
    bytes::i32_of_bits((leb128::value_of(data.take(n)) % 0x1_0000_0000) as u32)
}

/// The string at the start of `data` and how many bytes it has.
pub open spec fn string_of(data: Seq<u8>) -> Result<(Seq<char>, int), Seq<char>> {
    match varint::read_len(data, 0, 5) {
        Err(too_long) => Err(
            "VarInt parse I/O error: "@ + varint::error_text(
                if too_long {
                    varint::ReadError::VarIntTooLong
                } else {
                    varint::ReadError::UnexpectedEnd
                },
            ),
        ),
        Ok(n) => {
            let len = number_at(data, n);
            if len < 0 {
                Err("negative string length: "@ + text::signed_decimal(len as int))
            } else if data.len() < n + len {
                Err(
                    "string declares "@ + text::decimal(len as nat)
                        + " bytes but not enough input remains"@,
                )
            } else {
                let encoded = data.subrange(n, n + len);
                if valid_utf8(encoded) {
                    Ok((decode_utf8(encoded), n + len))
                } else {
                    Err("string is not UTF-8: "@ + text::utf8_error(encoded))
                }
            }
        },
    }
}

/// Reads the string at the start of `data`; says how many bytes it has.
pub fn read_string(data: &[u8]) -> (r: Result<(String, usize), PingError>)
    ensures
        match (r, string_of(data@)) {
            (Ok(p), Ok(v)) => p.0@ == v.0 && p.1 == v.1,
            (Err(e), Err(m)) => e.says(m),
            _ => false,
        },
{
    let mut cursor = Cursor::new(bytes::copy_all(data));
    let v = match cursor.read_var_int() {
        Ok(v) => v,
        Err(e) => {
            let m = e.message();
            return Err(Message::new("VarInt parse I/O error: ").text(m.as_str()).protocol());
        },
    };
    let len: i32 = i32::from(v);
    let n: usize = cursor.position();
    proof {
        varint::lemma_read_number(v, data@, 0, n as int);
        assert(data@.subrange(0, n as int) == data@.take(n as int));
    }
    if len < 0 {
        return Err(Message::new("negative string length: ").signed(len as i64).protocol());
    }
    let left: usize = data.len() - n;
    if (left as u64) < len as u64 {
        return Err(
            Message::new("string declares ").number(len as u128).text(
                " bytes but not enough input remains",
            ).protocol(),
        );
    }
    let end: usize = n + len as usize;
    let encoded = slice_subrange(data, n, end);
    match text::text_from_utf8(encoded) {
        Ok(s) => Ok((s, end)),
        Err(m) => Err(Message::new("string is not UTF-8: ").text(m.as_str()).protocol()),
    }
}

/// A string is read back from its bytes, whatever follows them; it must be countable in 31 bits.
pub proof fn law_string_round_trip(s: Seq<char>, after: Seq<u8>)
    requires
        encode_utf8(s).len() <= i32::MAX,
    ensures
        string_of(string_bytes(s) + after) == Ok::<(Seq<char>, int), Seq<char>>(
            (s, string_bytes(s).len() as int),
        ),
{
    broadcast use vstd::utf8::encode_utf8_valid_utf8, vstd::utf8::encode_utf8_decode_utf8;

    let encoded = encode_utf8(s);
    let n = encoded.len() as i32;
    let head = number_bytes(n);
    let data = string_bytes(s) + after;
    varint::law_var_int_round_trip(n, seq![], encoded + after);
    assert(seq![] + head + (encoded + after) == data);
    leb128::lemma_leb_round_trip(n as nat, encoded + after);
    assert(data.take(head.len() as int) == head);
    assert(data.subrange(head.len() as int, head.len() + n) == encoded);
}

/// A packet on the wire: its content behind its length.
pub open spec fn frame(payload: Seq<u8>) -> Seq<u8> {
    length_bytes(payload.len()) + payload
}

/// A packet on the wire.
pub fn frame_packet(payload: &[u8]) -> (r: Vec<u8>)
    ensures
        r@ == frame(payload@),
{
    let mut out: Vec<u8> = Vec::new();
    push_length(&mut out, payload.len());
    bytes::extend(&mut out, payload);
    assert(out@ == frame(payload@));
    out
}

/// What one more byte of a packet's length leads to.
pub enum LengthStep {
    /// Another byte follows.
    More,
    /// The packet has this many bytes.
    Done(u32),
    /// It is no length.
    Fail(PingError),
}

/// What a [`LengthStep`] holds.
pub enum LengthOutcome {
    More,
    Done(u32),
    Fail(Seq<char>),
}

/// What one more byte leads to, behind the bytes `seen`; no byte is the end of the stream.
pub open spec fn length_step(seen: Seq<u8>, byte: Option<u8>) -> LengthOutcome {
    match byte {
        None => LengthOutcome::Fail("connection closed while reading packet length"@),
        Some(b) => if seen.len() >= 5 {
            LengthOutcome::Fail("packet length VarInt exceeds 5 bytes"@)
        } else if b >= 128 {
            LengthOutcome::More
        } else {
            let all = seen.push(b);
            let len = number_at(all, all.len() as int);
            if len < 0 {
                LengthOutcome::Fail("negative packet length: "@ + text::signed_decimal(len as int))
            } else {
                LengthOutcome::Done(len as u32)
            }
        },
    }
}

/// The bytes seen after one more, of which no more than five are kept.
pub open spec fn seen_after(seen: Seq<u8>, byte: Option<u8>) -> Seq<u8> {
    match byte {
        Some(b) => if seen.len() < 5 {
            seen.push(b)
        } else {
            seen
        },
        None => seen,
    }
}

/// Reads the length of a packet, byte by byte.
pub struct PacketLength {
    seen: Vec<u8>,
}

impl View for PacketLength {
    type V = Seq<u8>;

    closed spec fn view(&self) -> Seq<u8> {
        self.seen@
    }
}

impl PacketLength {
    /// Nothing was read yet.
    pub fn new() -> (r: PacketLength)
        ensures
            r@ == Seq::<u8>::empty(),
    {
        PacketLength { seen: Vec::new() }
    }

    /// Takes the next byte, or the end of the stream.
    pub fn step(&mut self, byte: Option<u8>) -> (r: LengthStep)
        ensures
            match (r, length_step(old(self)@, byte)) {
                (LengthStep::More, LengthOutcome::More) => true,
                (LengthStep::Done(a), LengthOutcome::Done(b)) => a == b,
                (LengthStep::Fail(e), LengthOutcome::Fail(m)) => e.says(m),
                _ => false,
            },
            final(self)@ == seen_after(old(self)@, byte),
            final(self)@ == (match byte {
                Some(b) if old(self)@.len() < 5 => old(self)@.push(b),
                _ => old(self)@,
            }),
    {
        let b: u8 = match byte {
            Some(b) => b,
            None => {
                return LengthStep::Fail(
                    protocol_error("connection closed while reading packet length"),
                );
            },
        };
        if self.seen.len() >= 5 {
            return LengthStep::Fail(protocol_error("packet length VarInt exceeds 5 bytes"));
        }
        self.seen.push(b);
        if b >= 128 {
            return LengthStep::More;
        }
        let n: usize = self.seen.len();
        let value: u128 = leb128::number_at(self.seen.as_slice(), 0, n);
        proof {
            assert(self.seen@.subrange(0, n as int) == self.seen@.take(n as int));
        }
        let len: i32 = bytes::i32_from_bits((value % 0x1_0000_0000) as u32);
        if len < 0 {
            LengthStep::Fail(
                Message::new("negative packet length: ").signed(len as i64).protocol(),
            )
        } else {
            LengthStep::Done(len as u32)
        }
    }
}

/// What reading a length from the start of `data` leads to, behind the bytes `seen`: the length and
/// how many bytes were taken, or the error.
pub open spec fn length_of(seen: Seq<u8>, data: Seq<u8>) -> Result<(u32, int), Seq<char>>
    decreases data.len(),
{
    let byte = if data.len() == 0 {
        None
    } else {
        Some(data[0])
    };
    match length_step(seen, byte) {
        LengthOutcome::Done(n) => Ok((n, seen.len() as int + 1)),
        LengthOutcome::Fail(m) => Err(m),
        LengthOutcome::More => if data.len() == 0 {
            Err(""@)
        } else {
            length_of(seen_after(seen, Some(data[0])), data.drop_first())
        },
    }
}

proof fn lemma_length_of(whole: Seq<u8>, k: int, n: u32)
    requires
        0 <= k < leb128::leb(n as nat).len() <= 5,
        leb128::leb(n as nat).is_prefix_of(whole),
        n <= i32::MAX,
    ensures
        length_of(whole.take(k), whole.skip(k)) == Ok::<(u32, int), Seq<char>>(
            (n, leb128::leb(n as nat).len() as int),
        ),
    decreases leb128::leb(n as nat).len() - k,
{
    let head = leb128::leb(n as nat);
    let after = whole.skip(head.len() as int);
    assert(whole == head + after);
    leb128::lemma_leb_round_trip(n as nat, after);
    leb128::lemma_end_at_bounds(whole);
    let rest = whole.skip(k);
    assert(rest[0] == whole[k]);
    assert(whole.take(k).push(rest[0]) == whole.take(k + 1));
    if k == head.len() - 1 {
        assert(whole.take(k + 1) == head);
        assert(head.take(head.len() as int) == head);
    } else {
        assert(rest.drop_first() == whole.skip(k + 1));
        lemma_length_of(whole, k + 1, n);
    }
}

/// The length of a packet is read back from the start of its frame, byte by byte; the packet must
/// be countable in 31 bits.
pub proof fn law_frame_length(payload: Seq<u8>, after: Seq<u8>)
    requires
        payload.len() <= i32::MAX,
    ensures
        ({
            let data = frame(payload) + after;
            &&& length_of(seq![], data) matches Ok((n, taken))
            &&& n == payload.len()
            &&& data.subrange(taken, taken + n) == payload
        }),
{
    let n = payload.len() as u32;
    let head = leb128::leb(n as nat);
    let data = frame(payload) + after;
    leb128::lemma_powers();
    leb128::lemma_leb_len(n as nat, 5);
    assert(data.take(head.len() as int) == head);
    lemma_length_of(data, 0, n);
    assert(data.take(0) == Seq::<u8>::empty());
    assert(data.skip(0) == data);
    assert(data.subrange(head.len() as int, head.len() + n) == payload);
}

// ==================== Client / RequestBuilder ====================

/// A reusable client.
#[derive(Debug, Clone, Copy, PartialEq, Eq)]
pub struct Client {}

impl Default for Client {
    fn default() -> (r: Client)
        ensures
            r == (Client {  }),
    {
        Client {  }
    }
}

impl Client {
    /// A client.
    pub fn new() -> (r: Client)
        ensures
            r == (Client {  }),
    {
        Client {  }
    }

    /// A request to the last of the addresses that `addr` resolved to.
    pub fn ping<A: HostAddr>(&self, addr: A, resolved: Vec<SocketAddr>) -> (r: Result<
        RequestBuilder,
        PingError,
    >)
        ensures
            request_outcome(r, addr.host(), resolved@),
    {
        RequestBuilder::new(addr, resolved)
    }
}

/// A status request to one address.
#[derive(Debug, Clone, PartialEq, Eq)]
pub struct RequestBuilder {
    /// The address to connect to.
    pub addr: SocketAddr,
    /// The host that the handshake names.
    pub host_for_handshake: String,
    /// The port that the handshake names.
    pub port: u16,
    /// The protocol version that the handshake names.
    pub protocol_version: i32,
}

/// A request goes to the last address, names the host and that address's port, and asks for any
/// version; without an address there is none.
pub open spec fn request_outcome(
    r: Result<RequestBuilder, PingError>,
    host: Seq<char>,
    resolved: Seq<SocketAddr>,
) -> bool {
    match r {
        Ok(b) => {
            &&& resolved.len() > 0
            &&& b.addr == resolved.last()
            &&& b.host_for_handshake@ == host
            &&& b.port == resolved.last().port_number()
            &&& b.protocol_version == ANY_PROTOCOL_VERSION
        },
        Err(e) => resolved.len() == 0 && e.says("to_socket_addrs returned no address"@),
    }
}

/// The content of a Handshake packet that asks for the status state.
pub open spec fn handshake_bytes(protocol_version: i32, host: Seq<char>, port: u16) -> Seq<u8> {
    seq![0u8] + number_bytes(protocol_version) + string_bytes(host) + bytes::be16(port)
        + number_bytes(1)
}

/// The content of a Status Request packet.
pub open spec fn status_request_bytes() -> Seq<u8> {
    seq![0u8]
}

/// The content of a Ping Request packet.
pub open spec fn ping_request_bytes(sent: i64) -> Seq<u8> {
    seq![1u8] + bytes::be64(bytes::i64_bits(sent))
}

impl RequestBuilder {
    /// A request to the last of the addresses that `addr` resolved to.
    pub fn new<A: HostAddr>(addr: A, resolved: Vec<SocketAddr>) -> (r: Result<
        RequestBuilder,
        PingError,
    >)
        ensures
            request_outcome(r, addr.host(), resolved@),
    {
        let host_for_handshake = addr.host_string();
        let mut addrs = resolved;
        match addrs.pop() {
            Some(socket) => {
                let port: u16 = socket.port();
                Ok(
                    RequestBuilder {
                        addr: socket,
                        host_for_handshake,
                        port,
                        protocol_version: ANY_PROTOCOL_VERSION,
                    },
                )
            },
            None => Err(protocol_error("to_socket_addrs returned no address")),
        }
    }

    /// Sets the protocol version that the handshake names.
    pub fn protocol_version(self, v: i32) -> (r: RequestBuilder)
        ensures
            r == (RequestBuilder { protocol_version: v, ..self }),
    {
        RequestBuilder { protocol_version: v, ..self }
    }

    /// A request that measures the round trip too.
    pub fn with_latency(self) -> (r: LatencyRequestBuilder)
        ensures
            r.inner == self,
    {
        LatencyRequestBuilder { inner: self }
    }

    /// The content of the Handshake packet.
    pub fn handshake(&self) -> (r: Vec<u8>)
        ensures
            r@ == handshake_bytes(self.protocol_version, self.host_for_handshake@, self.port),
    {
        let mut buf: Vec<u8> = Vec::new();
        buf.push(0);
        push_number(&mut buf, self.protocol_version);
        write_string(&mut buf, self.host_for_handshake.as_str());
        bytes::push_be16(&mut buf, self.port);
        push_number(&mut buf, 1);
        assert(buf@ == handshake_bytes(
            self.protocol_version,
            self.host_for_handshake@,
            self.port,
        ));
        buf
    }

    /// The exchange that this request stands for.
    pub fn exchange(self) -> (r: Exchange)
        ensures
            r.request() == self,
            !r.measures(),
            r.stage() == Stage::Opening,
    {
        Exchange { request: self, measures: false, stage: Stage::Opening }
    }
}

/// A status request that measures the round trip too.
#[derive(Debug, Clone, PartialEq, Eq)]
pub struct LatencyRequestBuilder {
    /// The request.
    pub inner: RequestBuilder,
}

impl LatencyRequestBuilder {
    /// Sets the protocol version that the handshake names.
    pub fn protocol_version(self, v: i32) -> (r: LatencyRequestBuilder)
        ensures
            r.inner == (RequestBuilder { protocol_version: v, ..self.inner }),
    {
        LatencyRequestBuilder { inner: self.inner.protocol_version(v) }
    }

    /// The exchange that this request stands for.
    pub fn exchange(self) -> (r: Exchange)
        ensures
            r.request() == self.inner,
            r.measures(),
            r.stage() == Stage::Opening,
    {
        Exchange { request: self.inner, measures: true, stage: Stage::Opening }
    }
}

// ==================== Replies ====================

/// The text of a packet ID that is not the expected one; a packet without content has none.
pub open spec fn id_text(payload: Seq<u8>) -> Seq<char> {
    if payload.len() == 0 {
        "None"@
    } else {
        "Some("@ + text::decimal(payload[0] as nat) + ")"@
    }
}

fn wrong_id(what: &str, payload: &[u8]) -> (r: PingError)
    ensures
        r.says(what@ + id_text(payload@)),
{
    if payload.len() == 0 {
        Message::new(what).text("None").protocol()
    } else {
        let tail = Message::new("Some(").number(payload[0] as u128).text(")").done();
        Message::new(what).text(tail.as_str()).protocol()
    }
}

/// The JSON text in a Status Response packet.
pub open spec fn status_text_of(payload: Seq<u8>) -> Result<Seq<char>, Seq<char>> {
    if payload.len() == 0 || payload[0] != 0 {
        Err("Status Response packet ID is not 0x00: "@ + id_text(payload))
    } else {
        match string_of(payload.skip(1)) {
            Ok((s, _)) => Ok(s),
            Err(m) => Err(m),
        }
    }
}

/// Reads the JSON text out of a Status Response packet.
pub fn status_text(payload: &[u8]) -> (r: Result<String, PingError>)
    ensures
        match (r, status_text_of(payload@)) {
            (Ok(s), Ok(v)) => s@ == v,
            (Err(e), Err(m)) => e.says(m),
            _ => false,
        },
{
    if payload.len() == 0 || payload[0] != 0 {
        return Err(wrong_id("Status Response packet ID is not 0x00: ", payload));
    }
    let rest = slice_subrange(payload, 1, payload.len());
    assert(rest@ == payload@.skip(1));
    let (s, _n) = read_string(rest)?;
    Ok(s)
}

/// What a Pong packet says to a ping that was sent at `sent`.
pub open spec fn pong_of(payload: Seq<u8>, sent: i64) -> Result<(), Seq<char>> {
    if payload.len() == 0 || payload[0] != 1 {
        Err("Pong packet ID is not 0x01: "@ + id_text(payload))
    } else if payload.len() < 9 {
        Err("Pong payload too short: "@ + text::decimal(payload.len()) + " bytes"@)
    } else if bytes::i64_at(payload, 1) != sent {
        Err(
            "Pong echoed timestamp mismatch: sent "@ + text::signed_decimal(sent as int)
                + ", received "@ + text::signed_decimal(bytes::i64_at(payload, 1) as int),
        )
    } else {
        Ok(())
    }
}

/// Checks that a Pong packet echoes the timestamp that was sent.
pub fn check_pong(payload: &[u8], sent: i64) -> (r: Result<(), PingError>)
    ensures
        crate::error::agrees(r, pong_of(payload@, sent)),
{
    if payload.len() == 0 || payload[0] != 1 {
        return Err(wrong_id("Pong packet ID is not 0x01: ", payload));
    }
    if payload.len() < 9 {
        return Err(
            Message::new("Pong payload too short: ").number(payload.len() as u128).text(
                " bytes",
            ).protocol(),
        );
    }
    let echoed: i64 = bytes::get_i64(payload, 1);
    if echoed != sent {
        return Err(
            Message::new("Pong echoed timestamp mismatch: sent ").signed(sent).text(
                ", received ",
            ).signed(echoed).protocol(),
        );
    }
    Ok(())
}

/// The content of a Ping Request packet.
pub fn ping_request(sent: i64) -> (r: Vec<u8>)
    ensures
        r@ == ping_request_bytes(sent),
{
    let mut buf: Vec<u8> = Vec::new();
    buf.push(1);
    bytes::push_i64(&mut buf, sent);
    assert(buf@ == ping_request_bytes(sent));
    buf
}

/// A server's status reply is read back as the server wrote it; it must be countable in 31 bits.
pub proof fn law_status_is_read_back(json: Seq<char>)
    requires
        encode_utf8(json).len() <= i32::MAX,
    ensures
        status_text_of(seq![0u8] + string_bytes(json)) == Ok::<Seq<char>, Seq<char>>(json),
{
    let payload = seq![0u8] + string_bytes(json);
    assert(payload.skip(1) == string_bytes(json) + seq![]);
    law_string_round_trip(json, seq![]);
}

/// A pong that echoes a ping's content is accepted, and one with another timestamp is not.
pub proof fn law_echo_is_accepted(sent: i64, echoed: i64, after: Seq<u8>)
    ensures
        pong_of(ping_request_bytes(echoed) + after, sent) is Ok <==> echoed == sent,
{
    broadcast use bytes::group_widths;

    let b = bytes::be64(bytes::i64_bits(echoed));
    bytes::lemma_be64_round_trip(echoed, seq![1u8], after);
    let payload = ping_request_bytes(echoed) + after;
    assert(payload[0] == 1u8);
}

// ==================== The exchange ====================

/// How far an exchange is.
#[derive(Debug, Clone, Copy, PartialEq, Eq, Structural)]
pub enum Stage {
    /// Nothing was sent.
    Opening,
    /// The request was sent.
    AwaitStatus,
    /// The status arrived as text.
    Parsing,
    /// A ping was sent with this timestamp.
    AwaitPong(i64),
    /// Nothing more happens.
    Closed,
}

/// What happened.
#[derive(Debug, Clone, PartialEq, Eq)]
pub enum Event {
    /// The connection stands.
    Connected,
    /// A packet arrived, with this content.
    Packet(Vec<u8>),
    /// The status text was understood; the clock shows this many milliseconds.
    Parsed(i64),
}

/// What to do next.
#[derive(Debug)]
pub enum Action {
    /// Send these frames, and wait for a packet.
    Send(Vec<Vec<u8>>),
    /// Parse the status text.
    Parse(String),
    /// The exchange has succeeded.
    Finish,
    /// The exchange has failed.
    Fail(PingError),
}

/// What to do next.
#[verifier::ext_equal]
pub enum ActionView {
    Send(Seq<Seq<u8>>),
    Parse(Seq<char>),
    Finish,
    Fail(Seq<char>),
}

/// The bytes of each frame.
pub open spec fn frame_views(frames: Seq<Vec<u8>>) -> Seq<Seq<u8>> {
    frames.map_values(|f: Vec<u8>| f@)
}

impl Action {
    /// The action is the modelled one.
    pub open spec fn does(self, model: ActionView) -> bool {
        match (self, model) {
            (Action::Send(a), ActionView::Send(b)) => frame_views(a@) == b,
            (Action::Parse(a), ActionView::Parse(b)) => a@ == b,
            (Action::Finish, ActionView::Finish) => true,
            (Action::Fail(e), ActionView::Fail(m)) => e.says(m),
            _ => false,
        }
    }
}

/// A status exchange with a server: the order of packets, and what each reply leads to.
#[derive(Debug, Clone, PartialEq, Eq)]
pub struct Exchange {
    request: RequestBuilder,
    measures: bool,
    stage: Stage,
}

/// Whether an event can happen in a stage.
pub open spec fn expects(stage: Stage, event: Event) -> bool {
    match (stage, event) {
        (Stage::Opening, Event::Connected) => true,
        (Stage::AwaitStatus, Event::Packet(_)) => true,
        (Stage::Parsing, Event::Parsed(_)) => true,
        (Stage::AwaitPong(_), Event::Packet(_)) => true,
        _ => false,
    }
}

/// The frames that open an exchange: the handshake, then the status request.
pub open spec fn opening_frames(request: RequestBuilder) -> Seq<Seq<u8>> {
    seq![
        frame(
            handshake_bytes(
                request.protocol_version,
                request.host_for_handshake@,
                request.port,
            ),
        ),
        frame(status_request_bytes()),
    ]
}

/// The stage and the action that an event leads to.
pub open spec fn next(
    request: RequestBuilder,
    measures: bool,
    stage: Stage,
    event: Event,
) -> (Stage, ActionView) {
    match (stage, event) {
        (Stage::Opening, Event::Connected) => (
            Stage::AwaitStatus,
            ActionView::Send(opening_frames(request)),
        ),
        (Stage::AwaitStatus, Event::Packet(p)) => match status_text_of(p@) {
            Ok(s) => (Stage::Parsing, ActionView::Parse(s)),
            Err(m) => (Stage::Closed, ActionView::Fail(m)),
        },
        (Stage::Parsing, Event::Parsed(now)) => if measures {
            (
                Stage::AwaitPong(now),
                ActionView::Send(seq![frame(ping_request_bytes(now))]),
            )
        } else {
            (Stage::Closed, ActionView::Finish)
        },
        (Stage::AwaitPong(sent), Event::Packet(p)) => match pong_of(p@, sent) {
            Ok(_) => (Stage::Closed, ActionView::Finish),
            Err(m) => (Stage::Closed, ActionView::Fail(m)),
        },
        _ => (stage, ActionView::Finish),
    }
}

impl Exchange {
    /// The request.
    pub closed spec fn request(&self) -> RequestBuilder {
        self.request
    }

    /// Whether the round trip is measured.
    pub closed spec fn measures(&self) -> bool {
        self.measures
    }

    /// How far the exchange is.
    pub closed spec fn stage(&self) -> Stage {
        self.stage
    }

    /// The address to connect to.
    pub fn target(&self) -> (r: &SocketAddr)
        ensures
            *r == self.request().addr,
    {
        &self.request.addr
    }

    /// Takes an event and says what to do next.
    pub fn step(&mut self, event: Event) -> (r: Action)
        requires
            expects(old(self).stage(), event),
        ensures
            ({
                let (stage, action) = next(
                    old(self).request(),
                    old(self).measures(),
                    old(self).stage(),
                    event,
                );
                r.does(action) && final(self).stage() == stage
            }),
            final(self).request() == old(self).request(),
            final(self).measures() == old(self).measures(),
    {
        match event {
            Event::Connected => {
                let handshake = self.request.handshake();
                let mut frames: Vec<Vec<u8>> = Vec::new();
                frames.push(frame_packet(handshake.as_slice()));
                let mut status: Vec<u8> = Vec::new();
                status.push(0);
                assert(status@ == status_request_bytes());
                frames.push(frame_packet(status.as_slice()));
                assert(frame_views(frames@) == opening_frames(self.request));
                self.stage = Stage::AwaitStatus;
                Action::Send(frames)
            },
            Event::Packet(payload) => match self.stage {
                Stage::AwaitPong(sent) => {
                    self.stage = Stage::Closed;
                    match check_pong(payload.as_slice(), sent) {
                        Ok(_) => Action::Finish,
                        Err(e) => Action::Fail(e),
                    }
                },
                _ => match status_text(payload.as_slice()) {
                    Ok(s) => {
                        self.stage = Stage::Parsing;
                        Action::Parse(s)
                    },
                    Err(e) => {
                        self.stage = Stage::Closed;
                        Action::Fail(e)
                    },
                },
            },
            Event::Parsed(now) => if self.measures {
                let ping = ping_request(now);
                let mut frames: Vec<Vec<u8>> = Vec::new();
                frames.push(frame_packet(ping.as_slice()));
                assert(frame_views(frames@) == seq![frame(ping_request_bytes(now))]);
                self.stage = Stage::AwaitPong(now);
                Action::Send(frames)
            } else {
                self.stage = Stage::Closed;
                Action::Finish
            },
        }
    }
}

/// An exchange with a server that answers as it should comes to its end: the status is read as the
/// server wrote it, and a pong that echoes the ping finishes a measured exchange.
pub proof fn law_exchange_succeeds(
    request: RequestBuilder,
    measures: bool,
    status: Vec<u8>,
    json: Seq<char>,
    now: i64,
    pong: Vec<u8>,
)
    requires
        encode_utf8(json).len() <= i32::MAX,
        status@ == seq![0u8] + string_bytes(json),
        pong@ == ping_request_bytes(now),
    ensures
        next(request, measures, Stage::Opening, Event::Connected).0 == Stage::AwaitStatus,
        next(request, measures, Stage::AwaitStatus, Event::Packet(status)) == (
            Stage::Parsing,
            ActionView::Parse(json),
        ),
        !measures ==> next(request, measures, Stage::Parsing, Event::Parsed(now)) == (
            Stage::Closed,
            ActionView::Finish,
        ),
        measures ==> next(request, measures, Stage::Parsing, Event::Parsed(now)).0
            == Stage::AwaitPong(now),
        next(request, measures, Stage::AwaitPong(now), Event::Packet(pong)) == (
            Stage::Closed,
            ActionView::Finish,
        ),
{
    law_status_is_read_back(json);
    law_echo_is_accepted(now, now, seq![]);
    assert(ping_request_bytes(now) + Seq::<u8>::empty() == ping_request_bytes(now));
}

// ==================== Laws ====================

/// The text of a fragment: its member `text`, where it is an object with a text of that name.
pub open spec fn fragment_text(fragment: Json) -> Seq<char> {
    match fragment {
        Json::Object(m) => if m.contains_key("text"@) && m["text"@] is Text {
            m["text"@]->Text_0
        } else {
            seq![]
        },
        _ => seq![],
    }
}

/// How many characters the texts of fragments have.
pub open spec fn fragments_len(fragments: Seq<Json>) -> nat
    decreases fragments.len(),
{
    if fragments.len() == 0 {
        0
    } else {
        fragment_text(fragments[0]).len() + fragments_len(fragments.drop_first())
    }
}

proof fn lemma_fragments_len(fragments: Seq<Json>)
    requires
        fragments.len() > 0,
    ensures
        fragments_len(fragments) == fragments_len(fragments.drop_last()) + fragment_text(
            fragments.last(),
        ).len(),
    decreases fragments.len(),
{
    if fragments.len() == 1 {
        assert(fragments.drop_first() =~= fragments.drop_last());
        assert(fragments_len(fragments.drop_last()) == 0);
    } else {
        let rest = fragments.drop_first();
        lemma_fragments_len(rest);
        assert(rest.drop_last() =~= fragments.drop_last().drop_first());
        assert(fragments.drop_last()[0] == fragments[0]);
    }
}

proof fn lemma_fragments_text_len(fragments: Seq<Json>)
    ensures
        fragments_text(fragments).len() == fragments_len(fragments),
    decreases fragments.len(),
{
    if fragments.len() > 0 {
        lemma_fragments_text_len(fragments.drop_last());
        lemma_fragments_len(fragments);
    }
}

/// The text of each fragment stands behind those of the fragments before it.
proof fn lemma_fragment_in_place(fragments: Seq<Json>, i: int)
    requires
        0 <= i < fragments.len(),
    ensures
        ({
            let from = fragments_len(fragments.take(i)) as int;
            let t = fragment_text(fragments[i]);
            &&& from + t.len() <= fragments_text(fragments).len()
            &&& fragments_text(fragments).subrange(from, from + t.len()) == t
        }),
    decreases fragments.len(),
{
    let less = fragments.drop_last();
    let from = fragments_len(fragments.take(i)) as int;
    let t = fragment_text(fragments[i]);
    lemma_fragments_text_len(less);
    if i == fragments.len() - 1 {
        assert(fragments.take(i) =~= less);
        assert(fragments_text(fragments).subrange(from, from + t.len()) =~= t);
    } else {
        lemma_fragment_in_place(less, i);
        assert(less.take(i) =~= fragments.take(i));
        assert(fragments_text(fragments).subrange(from, from + t.len()) =~= fragments_text(
            less,
        ).subrange(from, from + t.len()));
    }
}

/// The plain text of a description with fragments, whatever its first text: it begins with the
/// first text, the text of every fragment stands in its place behind it, and there is nothing else.
pub proof fn law_plain_text_has_every_text(
    text: String,
    list: Vec<serde_json::Value>,
    other: serde_json::Map<String, serde_json::Value>,
)
    ensures
        ({
            let d = Description::Object { text, extra: Some(list), other };
            let fragments = json::contents(list@);
            &&& d.plain_text().len() == text@.len() + fragments_len(fragments)
            &&& text@.is_prefix_of(d.plain_text())
            &&& forall|i: int|
                0 <= i < list@.len() ==> {
                    let from = (text@.len() + fragments_len(fragments.take(i))) as int;
                    let t = fragment_text(json::content(#[trigger] list@[i]));
                    d.plain_text().subrange(from, from + t.len()) == t
                }
        }),
{
    let fragments = json::contents(list@);
    let all = fragments_text(fragments);
    let d = Description::Object { text, extra: Some(list), other };
    lemma_fragments_text_len(fragments);
    assert(d.plain_text() == text@ + all);
    assert forall|i: int| 0 <= i < list@.len() implies {
        let from = (text@.len() + fragments_len(fragments.take(i))) as int;
        let t = fragment_text(json::content(#[trigger] list@[i]));
        d.plain_text().subrange(from, from + t.len()) == t
    } by {
        lemma_fragment_in_place(fragments, i);
        let at = fragments_len(fragments.take(i)) as int;
        let t = fragment_text(fragments[i]);
        assert(d.plain_text().subrange(text@.len() + at, text@.len() + at + t.len())
            =~= all.subrange(at, at + t.len()));
    }
}

/// One more fragment adds its text behind the plain text, and a fragment without a text adds
/// nothing. Without fragments the first text is the plain text; so is a description that is plain.
pub proof fn law_plain_text_grows(
    text: String,
    list: Vec<serde_json::Value>,
    fragment: serde_json::Value,
    longer: Vec<serde_json::Value>,
    other: serde_json::Map<String, serde_json::Value>,
    style: serde_json::Map<String, serde_json::Value>,
)
    requires
        longer@ == list@.push(fragment),
    ensures
        ({
            let more = Description::Object { text, extra: Some(longer), other: style };
            let some = Description::Object { text, extra: Some(list), other };
            let none = Description::Object { text, extra: None, other };
            &&& more.plain_text() == some.plain_text() + fragment_text(json::content(fragment))
            &&& none.plain_text() == text@
            &&& list@.len() == 0 ==> some.plain_text() == text@
        }),
        Description::Plain(text).plain_text() == text@,
{
    let fragments = json::contents(longer@);
    assert(fragments.drop_last() =~= json::contents(list@));
    assert(fragments.last() == json::content(fragment));
    let before = fragments_text(json::contents(list@));
    let t = fragment_text(json::content(fragment));
    assert(fragments_text(fragments) == before + t);
    assert(text@ + (before + t) =~= text@ + before + t);
    assert(text@ + Seq::<char>::empty() =~= text@);
}

/// A packet is its length and its content; a length takes one byte below 128.
pub proof fn law_frame_layout(payload: Seq<u8>)
    requires
        payload.len() < 0x1_0000_0000,
    ensures
        frame(payload).len() > payload.len(),
        frame(payload).subrange(frame(payload).len() - payload.len(), frame(payload).len() as int)
            == payload,
        leb128::value_of(frame(payload).take(frame(payload).len() - payload.len()))
            == payload.len(),
        payload.len() < 128 ==> frame(payload).len() == payload.len() + 1 && frame(payload)[0]
            == payload.len(),
{
    let head = leb128::leb(payload.len());
    leb128::lemma_leb_round_trip(payload.len(), payload);
    assert(payload.len() % 0x1_0000_0000 == payload.len());
    assert(frame(payload).take(head.len() as int) =~= head);
    assert(frame(payload).subrange(head.len() as int, frame(payload).len() as int) =~= payload);
}

/// When bytes begin with a string, and which: its length is a number of at most five bytes that is
/// not negative, and as many bytes of UTF-8 follow.
pub proof fn law_string_is_understood(data: Seq<u8>, n: int)
    requires
        1 <= n <= 5,
        n <= data.len(),
        forall|k: int| 0 <= k < n - 1 ==> #[trigger] data[k] >= 128,
        data[n - 1] < 128,
    ensures
        ({
            let len = leb128::value_of(data.take(n)) % 0x1_0000_0000;
            &&& string_of(data) is Ok <==> len < 0x8000_0000 && data.len() >= n + len
                && valid_utf8(data.subrange(n, n + len))
            &&& string_of(data) matches Ok((s, used)) ==> used == n + len && encode_utf8(s)
                == data.subrange(n, n + len)
        }),
{
    broadcast use vstd::utf8::decode_utf8_encode_utf8;

    leb128::lemma_end_at(data, n - 1);
    assert(data.skip(0) =~= data);
    let u = (leb128::value_of(data.take(n)) % 0x1_0000_0000) as u32;
    bytes::law_bit_patterns(0, 0, 0, u);
}

/// Bytes that do not end a number within five do not begin with a string.
pub proof fn law_string_needs_a_length(data: Seq<u8>)
    requires
        forall|k: int| 0 <= k < data.len() && k < 5 ==> #[trigger] data[k] >= 128,
    ensures
        string_of(data) is Err,
{
    leb128::lemma_end_at_bounds(data);
    assert(data.skip(0) =~= data);
    if leb128::end_at(data) < data.len() && leb128::end_at(data) < 5 {
        assert(data[leb128::end_at(data)] < 128);
    }
}

/// What each byte of a packet's length leads to: one of 128 or more asks for another, up to the
/// fifth; one below ends the number, which must not be negative in 32 bits.
pub proof fn law_length_bytes(seen: Seq<u8>, b: u8)
    ensures
        length_step(seen, None) is Fail,
        length_step(seen, Some(b)) is More <==> seen.len() < 5 && b >= 128,
        length_step(seen, Some(b)) is Done <==> seen.len() < 5 && b < 128 && leb128::value_of(
            seen.push(b),
        ) % 0x1_0000_0000 < 0x8000_0000,
        length_step(seen, Some(b)) matches LengthOutcome::Done(n) ==> n == leb128::value_of(
            seen.push(b),
        ) % 0x1_0000_0000,
{
    let all = seen.push(b);
    assert(all.take(all.len() as int) =~= all);
    let u = (leb128::value_of(all) % 0x1_0000_0000) as u32;
    bytes::law_bit_patterns(0, 0, 0, u);
}

/// What a handshake says: the packet ID 0, then the protocol version, the host and the port, each
/// read back from where the one before it ends, and last the number 1, which asks for the status.
pub proof fn law_handshake_says(protocol_version: i32, host: Seq<char>, port: u16)
    requires
        encode_utf8(host).len() <= i32::MAX,
    ensures
        ({
            let h = handshake_bytes(protocol_version, host, port);
            let rest = h.skip(1);
            &&& h[0] == 0
            &&& varint::read_len(rest, 0, 5) matches Ok(n)
            &&& number_at(rest, n) == protocol_version
            &&& string_of(rest.skip(n)) matches Ok((s, used))
            &&& s == host
            &&& bytes::u16_at(h, 1 + n + used) == port
            &&& h.len() == 1 + n + used + 3
            &&& h.last() == 1
        }),
{
    broadcast use bytes::group_widths;

    let h = handshake_bytes(protocol_version, host, port);
    let v = number_bytes(protocol_version);
    let s = string_bytes(host);
    let p = bytes::be16(port);
    let one = number_bytes(1);
    assert(one =~= seq![1u8]);
    let rest = h.skip(1);
    assert(rest =~= v + (s + p + one));
    varint::law_var_int_round_trip(protocol_version, seq![], s + p + one);
    assert(seq![] + v + (s + p + one) =~= rest);
    leb128::lemma_leb_round_trip(bytes::i32_bits(protocol_version) as nat, s + p + one);
    assert(rest.take(v.len() as int) =~= v);
    bytes::law_bit_patterns(0, protocol_version, 0, 0);
    let tail = rest.skip(v.len() as int);
    assert(tail =~= s + (p + one));
    law_string_round_trip(host, p + one);
    assert(h =~= (seq![0u8] + v + s) + p + one);
    bytes::lemma_be16_round_trip(port, seq![0u8] + v + s, one);
}

/// The frames that open an exchange: the handshake, and then a packet with nothing but the ID 0.
pub proof fn law_opening_frames(request: RequestBuilder)
    requires
        encode_utf8(request.host_for_handshake@).len() < 0x7fff_0000,
    ensures
        ({
            let frames = opening_frames(request);
            let h = handshake_bytes(
                request.protocol_version,
                request.host_for_handshake@,
                request.port,
            );
            &&& frames.len() == 2
            &&& frames[0].subrange(frames[0].len() - h.len(), frames[0].len() as int) == h
            &&& leb128::value_of(frames[0].take(frames[0].len() - h.len())) == h.len()
            &&& frames[1] == seq![1u8, 0]
        }),
{
    broadcast use bytes::group_widths;

    let h = handshake_bytes(request.protocol_version, request.host_for_handshake@, request.port);
    leb128::lemma_powers();
    leb128::lemma_leb_len(bytes::i32_bits(request.protocol_version) as nat, 5);
    leb128::lemma_leb_len(bytes::i32_bits(1) as nat, 5);
    leb128::lemma_leb_len(encode_utf8(request.host_for_handshake@).len() % 0x1_0000_0000, 5);
    assert(h.len() < 0x1_0000_0000);
    law_frame_layout(h);
    law_frame_layout(status_request_bytes());
    let f = opening_frames(request)[1];
    assert(f.subrange(1, 2)[0] == f[1]);
    assert(f =~= seq![1u8, 0]);
}

/// The frame of a ping: the length 9, the packet ID 1, and the timestamp.
pub proof fn law_ping_frame(sent: i64)
    ensures
        frame(ping_request_bytes(sent)).len() == 10,
        frame(ping_request_bytes(sent))[0] == 9,
        frame(ping_request_bytes(sent))[1] == 1,
        bytes::i64_at(frame(ping_request_bytes(sent)), 2) == sent,
{
    broadcast use bytes::group_widths;

    let p = ping_request_bytes(sent);
    let f = frame(p);
    law_frame_layout(p);
    assert(f.subrange(1, 10)[0] == f[1]);
    let b = bytes::be64(bytes::i64_bits(sent));
    assert(p =~= seq![1u8] + b);
    assert(f =~= seq![9u8, 1u8] + b + Seq::<u8>::empty()) by {
        assert forall|i: int| 1 <= i < 10 implies f[i] == p[i - 1] by {
            assert(f.subrange(1, 10)[i - 1] == f[i]);
        }
    }
    bytes::lemma_be64_round_trip(sent, seq![9u8, 1u8], Seq::empty());
}

/// When a status reply is accepted: the packet ID 0 and a string. When a pong is: the packet ID 1
/// and the timestamp that was sent, whatever follows.
pub proof fn law_replies_are_accepted(payload: Seq<u8>, sent: i64)
    ensures
        status_text_of(payload) is Ok <==> payload.len() > 0 && payload[0] == 0 && string_of(
            payload.skip(1),
        ) is Ok,
        status_text_of(payload) matches Ok(s) ==> string_of(payload.skip(1))->Ok_0.0 == s,
        pong_of(payload, sent) is Ok <==> payload.len() >= 9 && payload[0] == 1 && bytes::i64_at(
            payload,
            1,
        ) == sent,
{
}

/// How an exchange goes. It opens with two frames; a packet that is no status reply ends it with a
/// failure; after the status it ends, unless it measures: then it sends one ping, and a packet ends
/// it, with success exactly if it is the pong to that ping.
pub proof fn law_exchange_order(
    request: RequestBuilder,
    measures: bool,
    now: i64,
    packet: Vec<u8>,
)
    ensures
        next(request, measures, Stage::Opening, Event::Connected) matches (
            Stage::AwaitStatus,
            ActionView::Send(frames),
        ) && frames.len() == 2,
        packet@.len() == 0 || packet@[0] != 0 ==> (next(
            request,
            measures,
            Stage::AwaitStatus,
            Event::Packet(packet),
        ) matches (Stage::Closed, ActionView::Fail(_))),
        next(request, false, Stage::Parsing, Event::Parsed(now)) == (
            Stage::Closed,
            ActionView::Finish,
        ),
        next(request, true, Stage::Parsing, Event::Parsed(now)) matches (
            Stage::AwaitPong(sent),
            ActionView::Send(frames),
        ) && sent == now && frames.len() == 1 && bytes::i64_at(frames[0], 2) == now,
        ({
            let (stage, action) = next(
                request,
                measures,
                Stage::AwaitPong(now),
                Event::Packet(packet),
            );
            &&& stage == Stage::Closed
            &&& action is Finish || action is Fail
            &&& action is Finish <==> packet@.len() >= 9 && packet@[0] == 1 && bytes::i64_at(
                packet@,
                1,
            ) == now
        }),
{
    law_ping_frame(now);
}

/// A request goes to the last of the addresses that a host resolved to, whatever those before it
/// are, names the host and the port of that address, and asks for any version, which is -1.
pub proof fn law_request(
    r: Result<RequestBuilder, PingError>,
    host: Seq<char>,
    before: Seq<SocketAddr>,
    last: SocketAddr,
)
    requires
        request_outcome(r, host, before.push(last)),
    ensures
        r matches Ok(b) && b.addr == last && b.host_for_handshake@ == host && b.port
            == last.port_number() && b.protocol_version == -1,
{
    assert(before.push(last).last() == last);
}

/// What is said of a string that ends early: how many bytes it declares. What is said of a pong that
/// does: how many bytes it has.
pub proof fn law_short_replies_say(data: Seq<u8>, n: int, payload: Seq<u8>, sent: i64)
    requires
        varint::read_len(data, 0, 5) == Ok::<int, bool>(n),
        0 <= number_at(data, n),
        data.len() < n + number_at(data, n),
        0 < payload.len() < 9,
        payload[0] == 1,
    ensures
        string_of(data) matches Err(m) && text::shows(m, seq![number_at(data, n) as nat]),
        pong_of(payload, sent) matches Err(m) && text::shows(m, seq![payload.len()]),
{
    reveal_strlit("string declares ");
    reveal_strlit(" bytes but not enough input remains");
    reveal_strlit("Pong payload too short: ");
    reveal_strlit(" bytes");
    text::lemma_shows_one(
        "string declares "@,
        number_at(data, n) as nat,
        " bytes but not enough input remains"@,
    );
    text::lemma_shows_one("Pong payload too short: "@, payload.len(), " bytes"@);
}

/// A wrong packet ID is named in decimal, and the absence of one is told apart from every ID.
pub proof fn law_id_text(payload: Seq<u8>)
    ensures
        payload.len() > 0 ==> text::shows(id_text(payload), seq![payload[0] as nat]),
        payload.len() == 0 ==> text::no_digit(id_text(payload)),
{
    reveal_strlit("None");
    reveal_strlit("Some(");
    reveal_strlit(")");
    text::lemma_shows_one("Some("@, payload[0] as nat, ")"@);
}

} // verus!
