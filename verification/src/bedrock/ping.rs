//! RakNet's Unconnected Ping: one packet each way to read a server's name and player counts.
//!
//! ```text
//! Ping (0x01):  id | time(i64 BE) | magic | client_guid(i64 BE)
//! Pong (0x1C):  id | time(i64 BE) | server_guid(i64 BE) | magic | len(u16 BE) | server_id_string
//! ```
use core::time::Duration;
use vstd::prelude::*;

use super::conn::ConnectBuilder;
use super::raknet;
use super::raknet::{PacketBuf, MAGIC};
use crate::addr::SocketAddr;
use crate::bytes;
use crate::error::PingError;
use crate::text;
use crate::text::{protocol_error, Message};

verus! {

broadcast use bytes::group_widths;

/// Packet ID of an Unconnected Ping.
pub const ID_UNCONNECTED_PING: u8 = 0x01;

/// Packet ID of an Unconnected Pong.
pub const ID_UNCONNECTED_PONG: u8 = 0x1c;

/// What an Unconnected Pong says.
///
/// The server describes itself in a string of fields separated by semicolons. Servers leave out
/// trailing fields; those read as zero or as empty text. All fields stand in `fields`, too.
#[derive(Debug, PartialEq, Eq)]
pub struct PongResponse {
    /// The client timestamp (ms), echoed.
    pub time: i64,
    /// The server's GUID.
    pub server_guid: i64,
    /// The server's description as it was sent.
    pub raw_server_id: String,
    /// All fields of the description.
    pub fields: Vec<String>,
    /// Edition, usually `"MCPE"`.
    pub edition: String,
    /// Message of the day.
    pub motd: String,
    /// Protocol version.
    pub protocol_version: u32,
    /// Version name.
    pub version_name: String,
    /// Players online.
    pub player_count: u32,
    /// Most players allowed.
    pub max_players: u32,
    /// The server's unique ID.
    pub server_id_field: String,
    /// Second line of the message of the day.
    pub second_motd: String,
    /// Game mode.
    pub gamemode: String,
    /// Game mode as a number.
    pub gamemode_numeric: u32,
    /// IPv4 port.
    pub port_ipv4: u16,
    /// IPv6 port.
    pub port_ipv6: u16,
    /// Time from the ping to the pong.
    pub latency: Duration,
}

/// What a [`PongResponse`] holds.
#[verifier::ext_equal]
pub struct PongView {
    pub time: i64,
    pub server_guid: i64,
    pub raw_server_id: Seq<char>,
    pub fields: Seq<Seq<char>>,
    pub edition: Seq<char>,
    pub motd: Seq<char>,
    pub protocol_version: u32,
    pub version_name: Seq<char>,
    pub player_count: u32,
    pub max_players: u32,
    pub server_id_field: Seq<char>,
    pub second_motd: Seq<char>,
    pub gamemode: Seq<char>,
    pub gamemode_numeric: u32,
    pub port_ipv4: u16,
    pub port_ipv6: u16,
    pub latency: Duration,
}

impl View for PongResponse {
    type V = PongView;

    open spec fn view(&self) -> PongView {
        PongView {
            time: self.time,
            server_guid: self.server_guid,
            raw_server_id: self.raw_server_id@,
            fields: text::texts(self.fields@),
            edition: self.edition@,
            motd: self.motd@,
            protocol_version: self.protocol_version,
            version_name: self.version_name@,
            player_count: self.player_count,
            max_players: self.max_players,
            server_id_field: self.server_id_field@,
            second_motd: self.second_motd@,
            gamemode: self.gamemode@,
            gamemode_numeric: self.gamemode_numeric,
            port_ipv4: self.port_ipv4,
            port_ipv6: self.port_ipv6,
            latency: self.latency,
        }
    }
}

impl Clone for PongResponse {
    fn clone(&self) -> (r: PongResponse)
        ensures
            r@ == self@,
    {
        PongResponse {
            time: self.time,
            server_guid: self.server_guid,
            raw_server_id: text::copy_text(self.raw_server_id.as_str()),
            fields: text::copy_texts(&self.fields),
            edition: text::copy_text(self.edition.as_str()),
            motd: text::copy_text(self.motd.as_str()),
            protocol_version: self.protocol_version,
            version_name: text::copy_text(self.version_name.as_str()),
            player_count: self.player_count,
            max_players: self.max_players,
            server_id_field: text::copy_text(self.server_id_field.as_str()),
            second_motd: text::copy_text(self.second_motd.as_str()),
            gamemode: text::copy_text(self.gamemode.as_str()),
            gamemode_numeric: self.gamemode_numeric,
            port_ipv4: self.port_ipv4,
            port_ipv6: self.port_ipv6,
            latency: self.latency,
        }
    }
}

/// The field at a position; empty where there is none.
pub open spec fn field(fields: Seq<Seq<char>>, i: int) -> Seq<char> {
    if 0 <= i < fields.len() {
        fields[i]
    } else {
        Seq::empty()
    }
}

/// The field at a position as a number of at most `max`; zero where it is none.
pub open spec fn number_field(fields: Seq<Seq<char>>, i: int, max: nat) -> nat {
    match text::number_of(field(fields, i), max) {
        Some(n) => n,
        None => 0,
    }
}

/// What a server description says, beside what the packet around it says.
pub open spec fn description_of(
    raw: Seq<char>,
    time: i64,
    server_guid: i64,
    latency: Duration,
) -> PongView {
    let fields = text::terminated_parts(raw, ';');
    PongView {
        time,
        server_guid,
        raw_server_id: raw,
        fields,
        edition: field(fields, 0),
        motd: field(fields, 1),
        protocol_version: number_field(fields, 2, u32::MAX as nat) as u32,
        version_name: field(fields, 3),
        player_count: number_field(fields, 4, u32::MAX as nat) as u32,
        max_players: number_field(fields, 5, u32::MAX as nat) as u32,
        server_id_field: field(fields, 6),
        second_motd: field(fields, 7),
        gamemode: field(fields, 8),
        gamemode_numeric: number_field(fields, 9, u32::MAX as nat) as u32,
        port_ipv4: number_field(fields, 10, u16::MAX as nat) as u16,
        port_ipv6: number_field(fields, 11, u16::MAX as nat) as u16,
        latency,
    }
}

fn copy_field(fields: &Vec<String>, i: usize) -> (r: String)
    ensures
        r@ == field(text::texts(fields@), i as int),
{
    if i < fields.len() {
        text::copy_text(fields[i].as_str())
    } else {
        let r = String::new();
        assert(r@ == Seq::<char>::empty());
        r
    }
}

fn u32_field(fields: &Vec<String>, i: usize) -> (r: u32)
    ensures
        r == number_field(text::texts(fields@), i as int, u32::MAX as nat),
{
    match text::parse_u32(copy_field(fields, i).as_str()) {
        Some(n) => n,
        None => 0,
    }
}

fn port_field(fields: &Vec<String>, i: usize) -> (r: u16)
    ensures
        r == number_field(text::texts(fields@), i as int, u16::MAX as nat),
{
    match text::parse_u16(copy_field(fields, i).as_str()) {
        Some(n) => n,
        None => 0,
    }
}

/// Parses a server description. The time and the GUID, which the packet around it gives, are
/// zero; the latency is the caller's.
pub fn parse_server_id_string(raw: &str, latency: Duration) -> (r: Result<
    PongResponse,
    PingError,
>)
    ensures
        r is Ok,
        r->Ok_0@ == description_of(raw@, 0, 0, latency),
{
    let fields = text::split_terminated(raw, ';');
    let response = PongResponse {
        time: 0,
        server_guid: 0,
        raw_server_id: text::copy_text(raw),
        edition: copy_field(&fields, 0),
        motd: copy_field(&fields, 1),
        protocol_version: u32_field(&fields, 2),
        version_name: copy_field(&fields, 3),
        player_count: u32_field(&fields, 4),
        max_players: u32_field(&fields, 5),
        server_id_field: copy_field(&fields, 6),
        second_motd: copy_field(&fields, 7),
        gamemode: copy_field(&fields, 8),
        gamemode_numeric: u32_field(&fields, 9),
        port_ipv4: port_field(&fields, 10),
        port_ipv6: port_field(&fields, 11),
        fields,
        latency,
    };
    Ok(response)
}

/// What an Unconnected Pong says.
pub open spec fn pong_of(data: Seq<u8>, latency: Duration) -> Result<PongView, Seq<char>> {
    let name = "Pong"@;
    let n = data.len() as int;
    if n < 1 {
        Err(raknet::too_short(name, 0, n, 1))
    } else if data[0] != ID_UNCONNECTED_PONG {
        Err(raknet::wrong_id(name, ID_UNCONNECTED_PONG, data[0]))
    } else if n < 9 {
        Err(raknet::too_short(name, 1, n - 1, 8))
    } else if n < 17 {
        Err(raknet::too_short(name, 9, n - 9, 8))
    } else if n < 33 {
        Err(raknet::too_short(name, 17, n - 17, 16))
    } else if data.subrange(17, 33) != MAGIC@ {
        Err(raknet::wrong_magic(name, data.subrange(17, 33)))
    } else if n < 35 {
        Err(raknet::too_short(name, 33, n - 33, 2))
    } else {
        let size = bytes::u16_at(data, 33) as int;
        let raw = data.subrange(35, 35 + size);
        if n < 35 + size {
            Err(
                "server_id_string declares "@ + text::decimal(size as nat) + " bytes but only "@
                    + text::decimal((n - 35) as nat) + " remain"@,
            )
        } else if !vstd::utf8::valid_utf8(raw) {
            Err("server_id_string is not UTF-8: "@ + text::utf8_error(raw))
        } else {
            Ok(
                description_of(
                    vstd::utf8::decode_utf8(raw),
                    bytes::i64_at(data, 1),
                    bytes::i64_at(data, 9),
                    latency,
                ),
            )
        }
    }
}

/// Parses an Unconnected Pong. The latency is the caller's.
pub fn parse_pong(data: &[u8], latency: Duration) -> (r: Result<PongResponse, PingError>)
    ensures
        match (r, pong_of(data@, latency)) {
            (Ok(p), Ok(v)) => p@ == v,
            (Err(e), Err(m)) => e.says(m),
            _ => false,
        },
{
    let mut p = PacketBuf::new(data, "Pong");
    p.expect_id(ID_UNCONNECTED_PONG)?;
    let time: i64 = p.read_i64()?;
    let server_guid: i64 = p.read_i64()?;
    p.read_magic()?;
    let str_len: usize = p.read_u16()? as usize;
    let left: usize = p.remaining();
    let str_bytes = match p.read_bytes(str_len) {
        Ok(b) => b,
        Err(_) => {
            return Err(
                Message::new("server_id_string declares ").number(str_len as u128).text(
                    " bytes but only ",
                ).number(left as u128).text(" remain").protocol(),
            );
        },
    };
    let raw = match text::text_from_utf8(str_bytes) {
        Ok(raw) => raw,
        Err(m) => {
            return Err(
                Message::new("server_id_string is not UTF-8: ").text(m.as_str()).protocol(),
            );
        },
    };
    let response = parse_server_id_string(raw.as_str(), latency)?;
    Ok(PongResponse { time, server_guid, ..response })
}

// ==================== Client / RequestBuilder ====================

/// A reusable Bedrock client.
#[derive(Debug, Clone, PartialEq, Eq)]
pub struct Client {
    /// The GUID that this client gives itself.
    pub client_guid: i64,
}

impl Default for Client {
    fn default() -> (r: Client)
        ensures
            r.client_guid == 0,
    {
        Client::new()
    }
}

/// An Unconnected Ping to one address.
#[derive(Debug, Clone, PartialEq, Eq)]
pub struct RequestBuilder {
    /// The address to send to.
    pub addr: SocketAddr,
    /// The client's GUID.
    pub client_guid: i64,
}

impl Client {
    /// A client with GUID 0.
    pub fn new() -> (r: Client)
        ensures
            r.client_guid == 0,
    {
        Client { client_guid: 0 }
    }

    /// Sets the GUID.
    pub fn client_guid(self, guid: i64) -> (r: Client)
        ensures
            r.client_guid == guid,
    {
        Client { client_guid: guid }
    }

    /// A ping to the last of the addresses that the target resolved to.
    pub fn ping(&self, resolved: Vec<SocketAddr>) -> (r: Result<RequestBuilder, PingError>)
        ensures
            r is Ok <==> ping_target(resolved@) is Some,
            r matches Ok(b) ==> ping_target(resolved@) == Some(b.addr),
            match r {
                Ok(b) => resolved@.len() > 0 && b.addr == resolved@.last() && b.client_guid
                    == self.client_guid,
                Err(e) => resolved@.len() == 0 && e.says("to_socket_addrs returned no address"@),
            },
    {
        RequestBuilder::new(resolved, self.client_guid)
    }

    /// A handshake configuration with this client's GUID.
    pub fn connect(&self) -> (r: ConnectBuilder)
        ensures
            r.client_guid == self.client_guid,
            r.has_defaults(),
    {
        ConnectBuilder::with_client_guid(self.client_guid)
    }
}

/// An Unconnected Ping on the wire.
pub open spec fn ping_packet(now_millis: i64, client_guid: i64) -> Seq<u8> {
    seq![ID_UNCONNECTED_PING] + bytes::be64(bytes::i64_bits(now_millis)) + MAGIC@ + bytes::be64(
        bytes::i64_bits(client_guid),
    )
}

/// The address that a ping goes to, among those that a target resolved to.
pub open spec fn ping_target(resolved: Seq<SocketAddr>) -> Option<SocketAddr> {
    if resolved.len() > 0 {
        Some(resolved.last())
    } else {
        None
    }
}

/// What to make of a received packet: nothing, where it is no pong.
pub open spec fn heard(data: Seq<u8>, latency: Duration) -> Option<Result<PongView, Seq<char>>> {
    if data.len() > 0 && data[0] == ID_UNCONNECTED_PONG {
        Some(pong_of(data, latency))
    } else {
        None
    }
}

impl RequestBuilder {
    /// A ping to the last of the addresses that the target resolved to.
    pub fn new(resolved: Vec<SocketAddr>, client_guid: i64) -> (r: Result<
        RequestBuilder,
        PingError,
    >)
        ensures
            r is Ok <==> ping_target(resolved@) is Some,
            r matches Ok(b) ==> ping_target(resolved@) == Some(b.addr),
            match r {
                Ok(b) => resolved@.len() > 0 && b.addr == resolved@.last() && b.client_guid
                    == client_guid,
                Err(e) => resolved@.len() == 0 && e.says("to_socket_addrs returned no address"@),
            },
    {
        let mut addrs = resolved;
        match addrs.pop() {
            Some(addr) => Ok(RequestBuilder { addr, client_guid }),
            None => Err(protocol_error("to_socket_addrs returned no address")),
        }
    }

    /// The packet to send; `now_millis` is the client's clock, which the server echoes.
    pub fn packet(&self, now_millis: i64) -> (r: Vec<u8>)
        ensures
            r@ == ping_packet(now_millis, self.client_guid),
            r@.len() == 33,
    {
        let mut packet: Vec<u8> = Vec::new();
        packet.push(ID_UNCONNECTED_PING);
        bytes::push_i64(&mut packet, now_millis);
        let magic: [u8; 16] = MAGIC;
        bytes::extend(&mut packet, magic.as_slice());
        bytes::push_i64(&mut packet, self.client_guid);
        assert(packet@ == ping_packet(now_millis, self.client_guid));
        packet
    }

    /// What to make of a received packet: `None` for one that is no pong, after which the wait
    /// goes on; else the parsed pong or its error.
    pub fn receive(&self, data: &[u8], latency: Duration) -> (r: Option<
        Result<PongResponse, PingError>,
    >)
        ensures
            r is Some <==> data@.len() > 0 && data@[0] == ID_UNCONNECTED_PONG,
            match (r, heard(data@, latency)) {
                (Some(Ok(p)), Some(Ok(v))) => p@ == v,
                (Some(Err(e)), Some(Err(m))) => e.says(m),
                (None, None) => true,
                _ => false,
            },
            r matches Some(pong) ==> match (pong, pong_of(data@, latency)) {
                (Ok(p), Ok(v)) => p@ == v,
                (Err(e), Err(m)) => e.says(m),
                _ => false,
            },
    {
        if data.len() > 0 && data[0] == ID_UNCONNECTED_PONG {
            Some(parse_pong(data, latency))
        } else {
            None
        }
    }
}

/// A pong on the wire that describes the server as `raw`.
pub open spec fn pong_packet(time: i64, server_guid: i64, raw: Seq<char>) -> Seq<u8> {
    let encoded = vstd::utf8::encode_utf8(raw);
    seq![ID_UNCONNECTED_PONG] + bytes::be64(bytes::i64_bits(time)) + bytes::be64(
        bytes::i64_bits(server_guid),
    ) + MAGIC@ + bytes::be16(encoded.len() as u16) + encoded
}

/// A server's pong is read back as the server wrote it.
pub proof fn law_pong_is_read_back(
    time: i64,
    server_guid: i64,
    raw: Seq<char>,
    latency: Duration,
)
    requires
        vstd::utf8::encode_utf8(raw).len() <= 65535,
    ensures
        pong_of(pong_packet(time, server_guid, raw), latency) == Ok::<PongView, Seq<char>>(
            description_of(raw, time, server_guid, latency),
        ),
{
    broadcast use vstd::utf8::encode_utf8_valid_utf8, vstd::utf8::encode_utf8_decode_utf8;

    let encoded = vstd::utf8::encode_utf8(raw);
    let data = pong_packet(time, server_guid, raw);
    let id = seq![ID_UNCONNECTED_PONG];
    let t = bytes::be64(bytes::i64_bits(time));
    let g = bytes::be64(bytes::i64_bits(server_guid));
    let size = bytes::be16(encoded.len() as u16);
    assert(data == id + t + (g + MAGIC@ + size + encoded));
    bytes::lemma_be64_round_trip(time, id, g + MAGIC@ + size + encoded);
    assert(data == (id + t) + g + (MAGIC@ + size + encoded));
    bytes::lemma_be64_round_trip(server_guid, id + t, MAGIC@ + size + encoded);
    assert(data.subrange(17, 33) == MAGIC@);
    assert(data == (id + t + g + MAGIC@) + size + encoded);
    bytes::lemma_be16_round_trip(encoded.len() as u16, id + t + g + MAGIC@, encoded);
    assert(data.subrange(35, 35 + encoded.len() as int) == encoded);
    assert(data[0] == id[0]);
}

/// A ping on the wire: the byte 1, the clock at offset 1, the magic from 9 to 25, and the client's
/// GUID at offset 25.
pub proof fn law_ping_layout(now_millis: i64, client_guid: i64)
    ensures
        ({
            let p = ping_packet(now_millis, client_guid);
            &&& p.len() == 33
            &&& p[0] == 0x01
            &&& bytes::i64_at(p, 1) == now_millis
            &&& p.subrange(9, 25) == MAGIC@
            &&& bytes::i64_at(p, 25) == client_guid
        }),
{
    let p = ping_packet(now_millis, client_guid);
    let id = seq![ID_UNCONNECTED_PING];
    let t = bytes::be64(bytes::i64_bits(now_millis));
    let g = bytes::be64(bytes::i64_bits(client_guid));
    assert(p =~= id + t + (MAGIC@ + g));
    bytes::lemma_be64_round_trip(now_millis, id, MAGIC@ + g);
    assert(p =~= (id + t + MAGIC@) + g + Seq::<u8>::empty());
    bytes::lemma_be64_round_trip(client_guid, id + t + MAGIC@, Seq::empty());
    assert(p.subrange(9, 25) =~= MAGIC@);
}

/// When a packet is a pong, and what it says: the byte 0x1c, the echoed clock at offset 1, the
/// server's GUID at 9, the magic from 17 to 33, and at 33 the length of the UTF-8 text that follows.
pub proof fn law_pong_is_understood(data: Seq<u8>, latency: Duration)
    ensures
        pong_of(data, latency) is Ok <==> {
            &&& data.len() >= 35
            &&& data[0] == 0x1c
            &&& data.subrange(17, 33) == MAGIC@
            &&& data.len() >= 35 + (data[33] * 256 + data[34])
            &&& vstd::utf8::valid_utf8(data.subrange(35, 35 + (data[33] * 256 + data[34])))
        },
        pong_of(data, latency) matches Ok(v) ==> {
            &&& v.time == bytes::i64_at(data, 1)
            &&& v.server_guid == bytes::i64_at(data, 9)
            &&& vstd::utf8::encode_utf8(v.raw_server_id) == data.subrange(
                35,
                35 + (data[33] * 256 + data[34]),
            )
            &&& v.latency == latency
        },
{
    broadcast use vstd::utf8::decode_utf8_encode_utf8;

    bytes::law_digits_are_read(data, 33);
}

/// What a description says: the fields between its semicolons, each at its place. A field that is
/// absent reads as empty or zero, and so does a number that is none or does not fit.
pub proof fn law_description_is_its_fields(
    fields: Seq<Seq<char>>,
    time: i64,
    server_guid: i64,
    latency: Duration,
)
    requires
        fields.len() > 0,
        forall|i: int| 0 <= i < fields.len() ==> !(#[trigger] fields[i]).contains(';'),
    ensures
        ({
            let v = description_of(text::joined(fields, ';').push(';'), time, server_guid, latency);
            let n = fields.len();
            &&& v.fields == fields
            &&& v.raw_server_id == text::joined(fields, ';').push(';')
            &&& v.time == time && v.server_guid == server_guid && v.latency == latency
            &&& v.edition == fields[0]
            &&& v.motd == (if n > 1 { fields[1] } else { seq![] })
            &&& v.version_name == (if n > 3 { fields[3] } else { seq![] })
            &&& v.server_id_field == (if n > 6 { fields[6] } else { seq![] })
            &&& v.second_motd == (if n > 7 { fields[7] } else { seq![] })
            &&& v.gamemode == (if n > 8 { fields[8] } else { seq![] })
            &&& reads_as(fields, 2, 0xffff_ffff, v.protocol_version as nat)
            &&& reads_as(fields, 4, 0xffff_ffff, v.player_count as nat)
            &&& reads_as(fields, 5, 0xffff_ffff, v.max_players as nat)
            &&& reads_as(fields, 9, 0xffff_ffff, v.gamemode_numeric as nat)
            &&& reads_as(fields, 10, 0xffff, v.port_ipv4 as nat)
            &&& reads_as(fields, 11, 0xffff, v.port_ipv6 as nat)
        }),
{
    text::law_join_and_split(fields, ';');
    lemma_reads_as(fields, 2, 0xffff_ffff);
    lemma_reads_as(fields, 4, 0xffff_ffff);
    lemma_reads_as(fields, 5, 0xffff_ffff);
    lemma_reads_as(fields, 9, 0xffff_ffff);
    lemma_reads_as(fields, 10, 0xffff);
    lemma_reads_as(fields, 11, 0xffff);
}

/// A last field that is not empty needs no semicolon behind it.
pub proof fn law_description_end(fields: Seq<Seq<char>>, time: i64, guid: i64, latency: Duration)
    requires
        fields.len() > 0,
        fields.last().len() > 0,
        forall|i: int| 0 <= i < fields.len() ==> !(#[trigger] fields[i]).contains(';'),
    ensures
        ({
            let ended = description_of(text::joined(fields, ';').push(';'), time, guid, latency);
            description_of(text::joined(fields, ';'), time, guid, latency) == (PongView {
                raw_server_id: text::joined(fields, ';'),
                ..ended
            })
        }),
{
    text::law_join_and_split(fields, ';');
}

/// The field at a place reads as a number: the one it is in decimal, or zero where it is absent, is
/// none, or is above the limit.
pub open spec fn reads_as(fields: Seq<Seq<char>>, i: int, max: nat, n: nat) -> bool {
    &&& n <= max
    &&& i >= fields.len() ==> n == 0
    &&& i < fields.len() ==> {
        &&& text::number_of(fields[i], max) is None ==> n == 0
        &&& forall|k: nat| k <= max && fields[i] == #[trigger] text::decimal(k) ==> n == k
        &&& text::all_digits(fields[i]) && text::digits_value(fields[i]) <= max ==> n
            == text::digits_value(fields[i])
    }
}

proof fn lemma_reads_as(fields: Seq<Seq<char>>, i: int, max: nat)
    requires
        0 <= i,
    ensures
        reads_as(fields, i, max, number_field(fields, i, max)),
{
    if i < fields.len() {
        text::law_what_is_a_number(fields[i], max);
        assert forall|k: nat| k <= max && fields[i] == #[trigger] text::decimal(k) implies
            number_field(fields, i, max) == k by {
            text::law_decimal_round_trip(k);
        }
    } else {
        text::law_what_is_a_number(Seq::empty(), max);
    }
}

/// Only a packet that begins with 0x1c ends the wait for a pong; it ends it, even if it is malformed.
pub proof fn law_what_ends_the_wait(data: Seq<u8>, latency: Duration)
    ensures
        heard(data, latency) is Some <==> data.len() > 0 && data[0] == 0x1c,
        heard(data, latency) matches Some(r) ==> r == pong_of(data, latency),
{
}

/// A ping goes to the last of the addresses that a target resolved to, whatever those before it are.
pub proof fn law_ping_target(before: Seq<SocketAddr>, last: SocketAddr)
    ensures
        ping_target(before.push(last)) == Some(last),
        ping_target(Seq::empty()) is None,
{
    assert(before.push(last).last() == last);
}

/// What is said of a pong whose text ends early: how many bytes it declares, and then how many
/// remain.
pub proof fn law_short_pong_says(data: Seq<u8>, latency: Duration)
    requires
        data.len() >= 35,
        data[0] == 0x1c,
        data.subrange(17, 33) == MAGIC@,
        data.len() < 35 + bytes::u16_at(data, 33),
    ensures
        pong_of(data, latency) matches Err(m) && text::shows(
            m,
            seq![bytes::u16_at(data, 33) as nat, (data.len() - 35) as nat],
        ),
{
    reveal_strlit("server_id_string declares ");
    reveal_strlit(" bytes but only ");
    reveal_strlit(" remain");
    text::lemma_shows_two(
        "server_id_string declares "@,
        bytes::u16_at(data, 33) as nat,
        " bytes but only "@,
        (data.len() - 35) as nat,
        " remain"@,
    );
}

} // verus!
