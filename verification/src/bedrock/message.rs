//! RakNet's connected system messages: the small packets that frames carry once the offline
//! handshake is done. The first byte of such a frame body is the message ID.
use vstd::prelude::*;

use crate::addr::SocketAddrV4;
use crate::bytes;
use crate::error::PingError;
use crate::text;
use crate::text::{protocol_error, Message};

verus! {

broadcast use bytes::group_widths;

/// Connected Ping keep-alive.
pub const ID_CONNECTED_PING: u8 = 0x00;

/// Connected Pong, the reply to a Connected Ping.
pub const ID_CONNECTED_PONG: u8 = 0x03;

/// Connection Request, the start of the online handshake.
pub const ID_CONNECTION_REQUEST: u8 = 0x09;

/// Connection Request Accepted.
pub const ID_CONNECTION_REQUEST_ACCEPTED: u8 = 0x10;

/// New Incoming Connection, the end of the online handshake.
pub const ID_NEW_INCOMING_CONNECTION: u8 = 0x13;

/// Disconnect Notification.
pub const ID_DISCONNECT: u8 = 0x15;

/// How many system addresses the address lists hold on the wire.
pub const SYSTEM_ADDRESS_COUNT: usize = 20;

/// Connected Ping.
#[derive(Debug, Clone, Copy, PartialEq, Eq, Structural)]
pub struct ConnectedPing {
    /// Client timestamp (ms), echoed in the reply.
    pub time: i64,
}

/// Connected Pong.
#[derive(Debug, Clone, Copy, PartialEq, Eq, Structural)]
pub struct ConnectedPong {
    /// The timestamp of the ping being answered.
    pub ping_time: i64,
    /// Server timestamp (ms) of the reply.
    pub pong_time: i64,
}

/// Connection Request.
#[derive(Debug, Clone, Copy, PartialEq, Eq, Structural)]
pub struct ConnectionRequest {
    pub client_guid: i64,
    pub request_time: i64,
    pub use_security: bool,
}

/// Connection Request Accepted.
#[derive(Debug, Clone, PartialEq, Eq)]
pub struct ConnectionRequestAccepted {
    /// The client's address as the server saw it.
    pub client_address: SocketAddrV4,
    /// Index into the server's address list.
    pub system_index: u16,
    /// The server's addresses.
    pub system_addresses: Vec<SocketAddrV4>,
    /// The request time of the [`ConnectionRequest`].
    pub ping_time: i64,
    /// Server timestamp (ms) of the acceptance.
    pub pong_time: i64,
}

/// New Incoming Connection.
#[derive(Debug, Clone, PartialEq, Eq)]
pub struct NewIncomingConnection {
    /// The server's address as the client saw it.
    pub server_address: SocketAddrV4,
    /// The addresses of the server's acceptance.
    pub system_addresses: Vec<SocketAddrV4>,
    /// The pong time of the acceptance.
    pub ping_time: i64,
    /// Client timestamp (ms) of sending.
    pub pong_time: i64,
}

/// Disconnect Notification; nothing but the ID.
#[derive(Debug, Clone, Copy, PartialEq, Eq, Structural)]
pub struct Disconnect;

/// What a [`ConnectionRequestAccepted`] holds.
#[verifier::ext_equal]
pub struct AcceptedView {
    pub client_address: SocketAddrV4,
    pub system_index: u16,
    pub system_addresses: Seq<SocketAddrV4>,
    pub ping_time: i64,
    pub pong_time: i64,
}

impl View for ConnectionRequestAccepted {
    type V = AcceptedView;

    open spec fn view(&self) -> AcceptedView {
        AcceptedView {
            client_address: self.client_address,
            system_index: self.system_index,
            system_addresses: self.system_addresses@,
            ping_time: self.ping_time,
            pong_time: self.pong_time,
        }
    }
}

/// What a [`NewIncomingConnection`] holds.
#[verifier::ext_equal]
pub struct IncomingConnectionView {
    pub server_address: SocketAddrV4,
    pub system_addresses: Seq<SocketAddrV4>,
    pub ping_time: i64,
    pub pong_time: i64,
}

impl View for NewIncomingConnection {
    type V = IncomingConnectionView;

    open spec fn view(&self) -> IncomingConnectionView {
        IncomingConnectionView {
            server_address: self.server_address,
            system_addresses: self.system_addresses@,
            ping_time: self.ping_time,
            pong_time: self.pong_time,
        }
    }
}

// ==================== Fields on the wire ====================

/// A signed 64-bit number on the wire.
pub open spec fn i64_bytes(v: i64) -> Seq<u8> {
    bytes::be64(bytes::i64_bits(v))
}

/// An address in a connected message: the family 4, the four octets inverted, the port.
pub open spec fn addr_bytes(a: SocketAddrV4) -> Seq<u8> {
    seq![4u8, (255 - a.a) as u8, (255 - a.b) as u8, (255 - a.c) as u8, (255 - a.d) as u8]
        + bytes::be16(a.port)
}

/// The address at offset `i`, whatever its family byte says.
pub open spec fn addr_at(s: Seq<u8>, i: int) -> SocketAddrV4 {
    SocketAddrV4 {
        a: (255 - s[i + 1]) as u8,
        b: (255 - s[i + 2]) as u8,
        c: (255 - s[i + 3]) as u8,
        d: (255 - s[i + 4]) as u8,
        port: bytes::u16_at(s, i + 5),
    }
}

/// The address that fills unused slots.
pub open spec fn no_address() -> SocketAddrV4 {
    SocketAddrV4 { a: 0, b: 0, c: 0, d: 0, port: 0 }
}

/// The address list as it goes on the wire: cut or filled up to twenty slots.
pub open spec fn slots(addrs: Seq<SocketAddrV4>) -> Seq<SocketAddrV4> {
    Seq::new(
        SYSTEM_ADDRESS_COUNT as nat,
        |i: int|
            if i < addrs.len() {
                addrs[i]
            } else {
                no_address()
            },
    )
}

/// Addresses on the wire, one behind the other.
pub open spec fn addrs_bytes(addrs: Seq<SocketAddrV4>) -> Seq<u8>
    decreases addrs.len(),
{
    if addrs.len() == 0 {
        seq![]
    } else {
        addrs_bytes(addrs.drop_last()) + addr_bytes(addrs.last())
    }
}

/// The `n` addresses from offset `at` on.
pub open spec fn addrs_at(s: Seq<u8>, at: int, n: nat) -> Seq<SocketAddrV4> {
    Seq::new(n, |i: int| addr_at(s, at + 7 * i))
}

/// The message for a field of `n` bytes of which only `got` are there.
pub open spec fn need_bytes(ctx: Seq<char>, n: int, got: int) -> Seq<char> {
    ctx + ": need "@ + text::decimal(n as nat) + " bytes, got "@ + text::decimal(got as nat)
}

/// The message for an address of which only `got` bytes are there.
pub open spec fn need_address(ctx: Seq<char>, got: int) -> Seq<char> {
    ctx + ": address needs 7 bytes, got "@ + text::decimal(got as nat)
}

// ==================== Messages on the wire ====================

pub open spec fn ping_bytes(m: ConnectedPing) -> Seq<u8> {
    seq![ID_CONNECTED_PING] + i64_bytes(m.time)
}

pub open spec fn pong_bytes(m: ConnectedPong) -> Seq<u8> {
    seq![ID_CONNECTED_PONG] + i64_bytes(m.ping_time) + i64_bytes(m.pong_time)
}

pub open spec fn request_bytes(m: ConnectionRequest) -> Seq<u8> {
    seq![ID_CONNECTION_REQUEST] + i64_bytes(m.client_guid) + i64_bytes(m.request_time) + seq![
        if m.use_security {
            1u8
        } else {
            0u8
        },
    ]
}

pub open spec fn accepted_bytes(m: AcceptedView) -> Seq<u8> {
    seq![ID_CONNECTION_REQUEST_ACCEPTED] + addr_bytes(m.client_address) + bytes::be16(
        m.system_index,
    ) + addrs_bytes(slots(m.system_addresses)) + i64_bytes(m.ping_time) + i64_bytes(m.pong_time)
}

pub open spec fn incoming_bytes(m: IncomingConnectionView) -> Seq<u8> {
    seq![ID_NEW_INCOMING_CONNECTION] + addr_bytes(m.server_address) + addrs_bytes(
        slots(m.system_addresses),
    ) + i64_bytes(m.ping_time) + i64_bytes(m.pong_time)
}

pub open spec fn ping_of(data: Seq<u8>) -> Result<ConnectedPing, Seq<char>> {
    if data.len() < 8 {
        Err(need_bytes("ConnectedPing"@, 8, data.len() as int))
    } else {
        Ok(ConnectedPing { time: bytes::i64_at(data, 0) })
    }
}

pub open spec fn pong_of(data: Seq<u8>) -> Result<ConnectedPong, Seq<char>> {
    if data.len() < 8 {
        Err(need_bytes("ConnectedPong.ping_time"@, 8, data.len() as int))
    } else if data.len() < 16 {
        Err(need_bytes("ConnectedPong.pong_time"@, 8, data.len() - 8))
    } else {
        Ok(
            ConnectedPong {
                ping_time: bytes::i64_at(data, 0),
                pong_time: bytes::i64_at(data, 8),
            },
        )
    }
}

pub open spec fn request_of(data: Seq<u8>) -> Result<ConnectionRequest, Seq<char>> {
    if data.len() < 8 {
        Err(need_bytes("ConnectionRequest.client_guid"@, 8, data.len() as int))
    } else if data.len() < 16 {
        Err(need_bytes("ConnectionRequest.request_time"@, 8, data.len() - 8))
    } else {
        Ok(
            ConnectionRequest {
                client_guid: bytes::i64_at(data, 0),
                request_time: bytes::i64_at(data, 8),
                use_security: data.len() > 16 && data[16] != 0,
            },
        )
    }
}

pub open spec fn accepted_of(data: Seq<u8>) -> Result<AcceptedView, Seq<char>> {
    if data.len() < 7 {
        Err(need_address("ConnectionRequestAccepted.client_address"@, data.len() as int))
    } else if data.len() < 9 {
        Err(need_bytes("ConnectionRequestAccepted.system_index"@, 2, data.len() - 7))
    } else if data.len() < 149 {
        Err(need_address("ConnectionRequestAccepted.system_address"@, (data.len() - 9) % 7))
    } else if data.len() < 157 {
        Err(need_bytes("ConnectionRequestAccepted.ping_time"@, 8, data.len() - 149))
    } else if data.len() < 165 {
        Err(need_bytes("ConnectionRequestAccepted.pong_time"@, 8, data.len() - 157))
    } else {
        Ok(
            AcceptedView {
                client_address: addr_at(data, 0),
                system_index: bytes::u16_at(data, 7),
                system_addresses: addrs_at(data, 9, SYSTEM_ADDRESS_COUNT as nat),
                ping_time: bytes::i64_at(data, 149),
                pong_time: bytes::i64_at(data, 157),
            },
        )
    }
}

pub open spec fn incoming_of(data: Seq<u8>) -> Result<IncomingConnectionView, Seq<char>> {
    if data.len() < 7 {
        Err(need_address("NewIncomingConnection.server_address"@, data.len() as int))
    } else if data.len() < 147 {
        Err(need_address("NewIncomingConnection.system_address"@, (data.len() - 7) % 7))
    } else if data.len() < 155 {
        Err(need_bytes("NewIncomingConnection.ping_time"@, 8, data.len() - 147))
    } else if data.len() < 163 {
        Err(need_bytes("NewIncomingConnection.pong_time"@, 8, data.len() - 155))
    } else {
        Ok(
            IncomingConnectionView {
                server_address: addr_at(data, 0),
                system_addresses: addrs_at(data, 7, SYSTEM_ADDRESS_COUNT as nat),
                ping_time: bytes::i64_at(data, 147),
                pong_time: bytes::i64_at(data, 155),
            },
        )
    }
}

// ==================== Field codecs ====================

/// Encodes an address of a connected message.
pub fn encode_addr_v4(addr: &SocketAddrV4) -> (r: [u8; 7])
    ensures
        r@ == addr_bytes(*addr),
{
    let r: [u8; 7] = [
        4,
        255 - addr.a,
        255 - addr.b,
        255 - addr.c,
        255 - addr.d,
        (addr.port / 256) as u8,
        (addr.port % 256) as u8,
    ];
    proof {
        reveal(bytes::be16);
    }
    assert(r@ == addr_bytes(*addr));
    r
}

/// Decodes an address of a connected message and says how many bytes it took.
pub fn decode_addr_v4(data: &[u8], ctx: &str) -> (r: Result<(SocketAddrV4, usize), PingError>)
    ensures
        match r {
            Ok(p) => data@.len() >= 7 && p == (addr_at(data@, 0), 7usize),
            Err(e) => data@.len() < 7 && e.says(need_address(ctx@, data@.len() as int)),
        },
{
    match addr_from(data, 0, ctx) {
        Ok(a) => Ok((a, 7)),
        Err(e) => Err(e),
    }
}

fn addr_from(data: &[u8], at: usize, ctx: &str) -> (r: Result<SocketAddrV4, PingError>)
    requires
        at <= data@.len(),
    ensures
        match r {
            Ok(a) => data@.len() >= at + 7 && a == addr_at(data@, at as int),
            Err(e) => data@.len() < at + 7 && e.says(need_address(ctx@, data@.len() - at)),
        },
{
    if data.len() - at < 7 {
        return Err(
            Message::new(ctx).text(": address needs 7 bytes, got ").number(
                (data.len() - at) as u128,
            ).protocol(),
        );
    }
    Ok(
        SocketAddrV4::new(
            255 - data[at + 1],
            255 - data[at + 2],
            255 - data[at + 3],
            255 - data[at + 4],
            bytes::get_u16(data, at + 5),
        ),
    )
}

fn addrs_from(data: &[u8], at: usize, ctx: &str) -> (r: Result<Vec<SocketAddrV4>, PingError>)
    requires
        at <= data@.len(),
    ensures
        match r {
            Ok(v) => data@.len() >= at + 140 && v@ == addrs_at(data@, at as int, 20),
            Err(e) => data@.len() < at + 140 && e.says(
                need_address(ctx@, (data@.len() - at) % 7),
            ),
        },
{
    let mut out: Vec<SocketAddrV4> = Vec::new();
    let mut i: usize = 0;
    while i < SYSTEM_ADDRESS_COUNT
        invariant
            i <= 20,
            at + 7 * i <= data@.len(),
            out@ == addrs_at(data@, at as int, i as nat),
        decreases 20 - i,
    {
        assert(at + 7 * i <= data.len());
        match addr_from(data, at + 7 * i, ctx) {
            Ok(a) => {
                out.push(a);
                assert(out@ == addrs_at(data@, at as int, (i + 1) as nat));
            },
            Err(e) => {
                assert((data@.len() - at) % 7 == data@.len() - at - 7 * i);
                return Err(e);
            },
        }
        i = i + 1;
    }
    Ok(out)
}

fn u16_from(data: &[u8], at: usize, ctx: &str) -> (r: Result<u16, PingError>)
    requires
        at <= data@.len(),
    ensures
        match r {
            Ok(v) => data@.len() >= at + 2 && v == bytes::u16_at(data@, at as int),
            Err(e) => data@.len() < at + 2 && e.says(need_bytes(ctx@, 2, data@.len() - at)),
        },
{
    if data.len() - at < 2 {
        return Err(
            Message::new(ctx).text(": need ").number(2).text(" bytes, got ").number(
                (data.len() - at) as u128,
            ).protocol(),
        );
    }
    Ok(bytes::get_u16(data, at))
}

fn i64_from(data: &[u8], at: usize, ctx: &str) -> (r: Result<i64, PingError>)
    requires
        at <= data@.len(),
    ensures
        match r {
            Ok(v) => data@.len() >= at + 8 && v == bytes::i64_at(data@, at as int),
            Err(e) => data@.len() < at + 8 && e.says(need_bytes(ctx@, 8, data@.len() - at)),
        },
{
    if data.len() - at < 8 {
        return Err(
            Message::new(ctx).text(": need ").number(8).text(" bytes, got ").number(
                (data.len() - at) as u128,
            ).protocol(),
        );
    }
    Ok(bytes::get_i64(data, at))
}

fn push_addrs(buf: &mut Vec<u8>, addrs: &Vec<SocketAddrV4>)
    ensures
        final(buf)@ == old(buf)@ + addrs_bytes(slots(addrs@)),
{
    let ghost all = slots(addrs@);
    let mut i: usize = 0;
    assert(all.take(0) == Seq::<SocketAddrV4>::empty());
    while i < SYSTEM_ADDRESS_COUNT
        invariant
            i <= 20,
            all == slots(addrs@),
            buf@ == old(buf)@ + addrs_bytes(all.take(i as int)),
        decreases 20 - i,
    {
        let a = if i < addrs.len() {
            addrs[i]
        } else {
            SocketAddrV4::new(0, 0, 0, 0, 0)
        };
        let b: [u8; 7] = encode_addr_v4(&a);
        bytes::extend(buf, b.as_slice());
        proof {
            assert(all.take(i as int + 1).drop_last() == all.take(i as int));
            assert(all.take(i as int + 1).last() == a);
            assert(buf@ == old(buf)@ + addrs_bytes(all.take(i as int + 1)));
        }
        i = i + 1;
    }
    assert(all.take(20) == all);
}

// ==================== Encode / decode ====================

impl ConnectedPing {
    /// Encodes the message, its ID first.
    pub fn encode(&self) -> (r: Vec<u8>)
        ensures
            r@ == ping_bytes(*self),
    {
        let mut b: Vec<u8> = Vec::new();
        b.push(ID_CONNECTED_PING);
        bytes::push_i64(&mut b, self.time);
        assert(b@ == ping_bytes(*self));
        b
    }

    /// Decodes the bytes behind the message ID.
    pub fn decode(data: &[u8]) -> (r: Result<ConnectedPing, PingError>)
        ensures
            crate::error::agrees(r, ping_of(data@)),
    {
        let time: i64 = i64_from(data, 0, "ConnectedPing")?;
        Ok(ConnectedPing { time })
    }
}

impl ConnectedPong {
    /// Encodes the message, its ID first.
    pub fn encode(&self) -> (r: Vec<u8>)
        ensures
            r@ == pong_bytes(*self),
    {
        let mut b: Vec<u8> = Vec::new();
        b.push(ID_CONNECTED_PONG);
        bytes::push_i64(&mut b, self.ping_time);
        bytes::push_i64(&mut b, self.pong_time);
        assert(b@ == pong_bytes(*self));
        b
    }

    /// Decodes the bytes behind the message ID.
    pub fn decode(data: &[u8]) -> (r: Result<ConnectedPong, PingError>)
        ensures
            crate::error::agrees(r, pong_of(data@)),
    {
        let ping_time: i64 = i64_from(data, 0, "ConnectedPong.ping_time")?;
        let pong_time: i64 = i64_from(data, 8, "ConnectedPong.pong_time")?;
        Ok(ConnectedPong { ping_time, pong_time })
    }
}

impl ConnectionRequest {
    /// Encodes the message, its ID first.
    pub fn encode(&self) -> (r: Vec<u8>)
        ensures
            r@ == request_bytes(*self),
    {
        let mut b: Vec<u8> = Vec::new();
        b.push(ID_CONNECTION_REQUEST);
        bytes::push_i64(&mut b, self.client_guid);
        bytes::push_i64(&mut b, self.request_time);
        b.push(
            if self.use_security {
                1
            } else {
                0
            },
        );
        assert(b@ == request_bytes(*self));
        b
    }

    /// Decodes the bytes behind the message ID; an absent security byte counts as zero.
    pub fn decode(data: &[u8]) -> (r: Result<ConnectionRequest, PingError>)
        ensures
            crate::error::agrees(r, request_of(data@)),
    {
        let client_guid: i64 = i64_from(data, 0, "ConnectionRequest.client_guid")?;
        let request_time: i64 = i64_from(data, 8, "ConnectionRequest.request_time")?;
        let use_security = data.len() > 16 && data[16] != 0;
        Ok(ConnectionRequest { client_guid, request_time, use_security })
    }
}

impl ConnectionRequestAccepted {
    /// Encodes the message, its ID first; the address list is cut or filled up to twenty.
    pub fn encode(&self) -> (r: Vec<u8>)
        ensures
            r@ == accepted_bytes(self@),
    {
        let mut b: Vec<u8> = Vec::new();
        b.push(ID_CONNECTION_REQUEST_ACCEPTED);
        let a: [u8; 7] = encode_addr_v4(&self.client_address);
        bytes::extend(&mut b, a.as_slice());
        bytes::push_be16(&mut b, self.system_index);
        push_addrs(&mut b, &self.system_addresses);
        bytes::push_i64(&mut b, self.ping_time);
        bytes::push_i64(&mut b, self.pong_time);
        b
    }

    /// Decodes the bytes behind the message ID.
    pub fn decode(data: &[u8]) -> (r: Result<ConnectionRequestAccepted, PingError>)
        ensures
            match (r, accepted_of(data@)) {
                (Ok(m), Ok(v)) => m@ == v,
                (Err(e), Err(t)) => e.says(t),
                _ => false,
            },
    {
        let client_address = addr_from(data, 0, "ConnectionRequestAccepted.client_address")?;
        let system_index: u16 = u16_from(data, 7, "ConnectionRequestAccepted.system_index")?;
        let system_addresses = addrs_from(data, 9, "ConnectionRequestAccepted.system_address")?;
        let ping_time: i64 = i64_from(data, 149, "ConnectionRequestAccepted.ping_time")?;
        let pong_time: i64 = i64_from(data, 157, "ConnectionRequestAccepted.pong_time")?;
        Ok(
            ConnectionRequestAccepted {
                client_address,
                system_index,
                system_addresses,
                ping_time,
                pong_time,
            },
        )
    }
}

impl NewIncomingConnection {
    /// Encodes the message, its ID first; the address list is cut or filled up to twenty.
    pub fn encode(&self) -> (r: Vec<u8>)
        ensures
            r@ == incoming_bytes(self@),
    {
        let mut b: Vec<u8> = Vec::new();
        b.push(ID_NEW_INCOMING_CONNECTION);
        let a: [u8; 7] = encode_addr_v4(&self.server_address);
        bytes::extend(&mut b, a.as_slice());
        push_addrs(&mut b, &self.system_addresses);
        bytes::push_i64(&mut b, self.ping_time);
        bytes::push_i64(&mut b, self.pong_time);
        b
    }

    /// Decodes the bytes behind the message ID.
    pub fn decode(data: &[u8]) -> (r: Result<NewIncomingConnection, PingError>)
        ensures
            match (r, incoming_of(data@)) {
                (Ok(m), Ok(v)) => m@ == v,
                (Err(e), Err(t)) => e.says(t),
                _ => false,
            },
    {
        let server_address = addr_from(data, 0, "NewIncomingConnection.server_address")?;
        let system_addresses = addrs_from(data, 7, "NewIncomingConnection.system_address")?;
        let ping_time: i64 = i64_from(data, 147, "NewIncomingConnection.ping_time")?;
        let pong_time: i64 = i64_from(data, 155, "NewIncomingConnection.pong_time")?;
        Ok(NewIncomingConnection { server_address, system_addresses, ping_time, pong_time })
    }
}

impl Disconnect {
    /// The message ID alone.
    pub fn encode(&self) -> (r: Vec<u8>)
        ensures
            r@ == disconnect_bytes(),
            r@ == seq![ID_DISCONNECT],
    {
        let mut b: Vec<u8> = Vec::new();
        b.push(ID_DISCONNECT);
        assert(b@ == seq![ID_DISCONNECT]);
        b
    }

    /// Decodes the bytes behind the message ID, whatever they are.
    pub fn decode(_data: &[u8]) -> (r: Result<Disconnect, PingError>)
        ensures
            r == Ok::<Disconnect, PingError>(Disconnect),
    {
        Ok(Disconnect)
    }
}

// ==================== Dispatch ====================

/// A frame body, told apart by its first byte.
#[derive(Debug, Clone, PartialEq, Eq)]
pub enum SystemMessage {
    ConnectedPing(ConnectedPing),
    ConnectedPong(ConnectedPong),
    ConnectionRequest(ConnectionRequest),
    ConnectionRequestAccepted(ConnectionRequestAccepted),
    NewIncomingConnection(NewIncomingConnection),
    Disconnect(Disconnect),
    /// An application payload: the first byte is no system message ID.
    Application(Vec<u8>),
}

/// What a [`SystemMessage`] holds.
pub enum SystemView {
    ConnectedPing(ConnectedPing),
    ConnectedPong(ConnectedPong),
    ConnectionRequest(ConnectionRequest),
    ConnectionRequestAccepted(AcceptedView),
    NewIncomingConnection(IncomingConnectionView),
    Disconnect,
    Application(Seq<u8>),
}

impl View for SystemMessage {
    type V = SystemView;

    open spec fn view(&self) -> SystemView {
        match self {
            SystemMessage::ConnectedPing(m) => SystemView::ConnectedPing(*m),
            SystemMessage::ConnectedPong(m) => SystemView::ConnectedPong(*m),
            SystemMessage::ConnectionRequest(m) => SystemView::ConnectionRequest(*m),
            SystemMessage::ConnectionRequestAccepted(m) => SystemView::ConnectionRequestAccepted(
                m@,
            ),
            SystemMessage::NewIncomingConnection(m) => SystemView::NewIncomingConnection(m@),
            SystemMessage::Disconnect(_) => SystemView::Disconnect,
            SystemMessage::Application(b) => SystemView::Application(b@),
        }
    }
}

/// The name of a kind of message.
pub open spec fn name_of(m: SystemView) -> Seq<char> {
    match m {
        SystemView::ConnectedPing(_) => "ConnectedPing"@,
        SystemView::ConnectedPong(_) => "ConnectedPong"@,
        SystemView::ConnectionRequest(_) => "ConnectionRequest"@,
        SystemView::ConnectionRequestAccepted(_) => "ConnectionRequestAccepted"@,
        SystemView::NewIncomingConnection(_) => "NewIncomingConnection"@,
        SystemView::Disconnect => "Disconnect"@,
        SystemView::Application(_) => "Application"@,
    }
}

impl SystemMessage {
    /// The name of the variant.
    pub fn debug_name(&self) -> (r: &'static str)
        ensures
            r@ == name_of(self@),
    {
        match self {
            SystemMessage::ConnectedPing(_) => "ConnectedPing",
            SystemMessage::ConnectedPong(_) => "ConnectedPong",
            SystemMessage::ConnectionRequest(_) => "ConnectionRequest",
            SystemMessage::ConnectionRequestAccepted(_) => "ConnectionRequestAccepted",
            SystemMessage::NewIncomingConnection(_) => "NewIncomingConnection",
            SystemMessage::Disconnect(_) => "Disconnect",
            SystemMessage::Application(_) => "Application",
        }
    }
}

/// What a frame body is.
pub open spec fn message_of(body: Seq<u8>) -> Result<SystemView, Seq<char>> {
    let rest = body.skip(1);
    if body.len() == 0 {
        Err("cannot classify an empty frame body"@)
    } else if body[0] == ID_CONNECTED_PING {
        match ping_of(rest) {
            Ok(m) => Ok(SystemView::ConnectedPing(m)),
            Err(e) => Err(e),
        }
    } else if body[0] == ID_CONNECTED_PONG {
        match pong_of(rest) {
            Ok(m) => Ok(SystemView::ConnectedPong(m)),
            Err(e) => Err(e),
        }
    } else if body[0] == ID_CONNECTION_REQUEST {
        match request_of(rest) {
            Ok(m) => Ok(SystemView::ConnectionRequest(m)),
            Err(e) => Err(e),
        }
    } else if body[0] == ID_CONNECTION_REQUEST_ACCEPTED {
        match accepted_of(rest) {
            Ok(m) => Ok(SystemView::ConnectionRequestAccepted(m)),
            Err(e) => Err(e),
        }
    } else if body[0] == ID_NEW_INCOMING_CONNECTION {
        match incoming_of(rest) {
            Ok(m) => Ok(SystemView::NewIncomingConnection(m)),
            Err(e) => Err(e),
        }
    } else if body[0] == ID_DISCONNECT {
        Ok(SystemView::Disconnect)
    } else {
        Ok(SystemView::Application(body))
    }
}

/// Tells a frame body apart by its first byte and decodes it.
pub fn classify(body: &[u8]) -> (r: Result<SystemMessage, PingError>)
    ensures
        match (r, message_of(body@)) {
            (Ok(m), Ok(v)) => m@ == v,
            (Err(e), Err(t)) => e.says(t),
            _ => false,
        },
{
    if body.len() == 0 {
        return Err(protocol_error("cannot classify an empty frame body"));
    }
    let id: u8 = body[0];
    let rest = vstd::slice::slice_subrange(body, 1, body.len());
    assert(rest@ == body@.skip(1));
    if id == ID_CONNECTED_PING {
        Ok(SystemMessage::ConnectedPing(ConnectedPing::decode(rest)?))
    } else if id == ID_CONNECTED_PONG {
        Ok(SystemMessage::ConnectedPong(ConnectedPong::decode(rest)?))
    } else if id == ID_CONNECTION_REQUEST {
        Ok(SystemMessage::ConnectionRequest(ConnectionRequest::decode(rest)?))
    } else if id == ID_CONNECTION_REQUEST_ACCEPTED {
        Ok(SystemMessage::ConnectionRequestAccepted(ConnectionRequestAccepted::decode(rest)?))
    } else if id == ID_NEW_INCOMING_CONNECTION {
        Ok(SystemMessage::NewIncomingConnection(NewIncomingConnection::decode(rest)?))
    } else if id == ID_DISCONNECT {
        Ok(SystemMessage::Disconnect(Disconnect::decode(rest)?))
    } else {
        Ok(SystemMessage::Application(bytes::copy_all(body)))
    }
}

// ==================== Laws ====================

proof fn lemma_addr_round_trip(a: SocketAddrV4, before: Seq<u8>, after: Seq<u8>)
    ensures
        addr_at(before + addr_bytes(a) + after, before.len() as int) == a,
{
    let s = before + addr_bytes(a) + after;
    let n = before.len() as int;
    let head = seq![4u8, (255 - a.a) as u8, (255 - a.b) as u8, (255 - a.c) as u8, (255 - a.d) as u8];
    bytes::lemma_peel(before, head, bytes::be16(a.port), after);
    bytes::lemma_be16_round_trip(a.port, before + head, after);
    assert(s[n + 1] == head[1] && s[n + 2] == head[2] && s[n + 3] == head[3] && s[n + 4]
        == head[4]);
}

/// An address survives being written in a connected message and read back.
pub proof fn law_address_round_trip(a: SocketAddrV4)
    ensures
        addr_at(addr_bytes(a), 0) == a,
        addr_bytes(a).len() == 7,
{
    lemma_addr_round_trip(a, Seq::empty(), Seq::empty());
    assert(Seq::<u8>::empty() + addr_bytes(a) + Seq::<u8>::empty() == addr_bytes(a));
}

proof fn lemma_addrs_round_trip(addrs: Seq<SocketAddrV4>, before: Seq<u8>, after: Seq<u8>)
    ensures
        addrs_bytes(addrs).len() == 7 * addrs.len(),
        addrs_at(
            before + addrs_bytes(addrs) + after,
            before.len() as int,
            addrs.len(),
        ) == addrs,
    decreases addrs.len(),
{
    if addrs.len() > 0 {
        let prev = addrs.drop_last();
        let b = addr_bytes(addrs.last());
        lemma_addrs_round_trip(prev, before, b + after);
        bytes::lemma_peel(before, addrs_bytes(prev), b, after);
        lemma_addr_round_trip(addrs.last(), before + addrs_bytes(prev), after);
        let s = before + addrs_bytes(addrs) + after;
        let got = addrs_at(s, before.len() as int, addrs.len());
        assert forall|i: int| 0 <= i < addrs.len() implies got[i] == addrs[i] by {
            if i < prev.len() {
                assert(addrs_at(s, before.len() as int, prev.len())[i] == prev[i]);
            }
        }
        assert(got == addrs);
    } else {
        assert(addrs_at(before + addrs_bytes(addrs) + after, before.len() as int, 0) == addrs);
    }
}

proof fn lemma_two_times(before: Seq<u8>, x: i64, y: i64)
    ensures
        bytes::i64_at(before + i64_bytes(x) + i64_bytes(y), before.len() as int) == x,
        bytes::i64_at(before + i64_bytes(x) + i64_bytes(y), before.len() as int + 8) == y,
{
    bytes::lemma_be64_round_trip(x, before, i64_bytes(y));
    bytes::lemma_be64_round_trip(y, before + i64_bytes(x), Seq::empty());
    assert(before + i64_bytes(x) + i64_bytes(y) == (before + i64_bytes(x)) + i64_bytes(y) + Seq::<
        u8,
    >::empty());
}

/// A Connected Ping is told apart from its bytes and read back.
pub proof fn law_ping_round_trip(m: ConnectedPing)
    ensures
        message_of(ping_bytes(m)) == Ok::<SystemView, Seq<char>>(SystemView::ConnectedPing(m)),
{
    let rest = ping_bytes(m).skip(1);
    assert(rest == Seq::<u8>::empty() + i64_bytes(m.time) + Seq::<u8>::empty());
    bytes::lemma_be64_round_trip(m.time, Seq::empty(), Seq::empty());
}

/// A Connected Pong is told apart from its bytes and read back.
pub proof fn law_pong_round_trip(m: ConnectedPong)
    ensures
        message_of(pong_bytes(m)) == Ok::<SystemView, Seq<char>>(SystemView::ConnectedPong(m)),
{
    let rest = pong_bytes(m).skip(1);
    assert(rest == Seq::<u8>::empty() + i64_bytes(m.ping_time) + i64_bytes(m.pong_time));
    lemma_two_times(Seq::empty(), m.ping_time, m.pong_time);
}

/// A Connection Request is told apart from its bytes and read back.
pub proof fn law_request_round_trip(m: ConnectionRequest)
    ensures
        message_of(request_bytes(m)) == Ok::<SystemView, Seq<char>>(
            SystemView::ConnectionRequest(m),
        ),
{
    let rest = request_bytes(m).skip(1);
    let g = i64_bytes(m.client_guid);
    let t = i64_bytes(m.request_time);
    let flag = seq![if m.use_security { 1u8 } else { 0u8 }];
    assert(rest == g + t + flag);
    assert(rest == Seq::<u8>::empty() + g + (t + flag));
    bytes::lemma_be64_round_trip(m.client_guid, Seq::empty(), t + flag);
    bytes::lemma_be64_round_trip(m.request_time, g, flag);
    assert(rest[16] == flag[0]);
}

/// An acceptance is told apart from its bytes and read back, with its address list cut or filled
/// up to twenty.
pub proof fn law_accepted_round_trip(m: AcceptedView)
    ensures
        message_of(accepted_bytes(m)) == Ok::<SystemView, Seq<char>>(
            SystemView::ConnectionRequestAccepted(
                AcceptedView { system_addresses: slots(m.system_addresses), ..m },
            ),
        ),
{
    let c = addr_bytes(m.client_address);
    let x = bytes::be16(m.system_index);
    let l = addrs_bytes(slots(m.system_addresses));
    let p = i64_bytes(m.ping_time);
    let q = i64_bytes(m.pong_time);
    let rest = accepted_bytes(m).skip(1);
    let none = Seq::<u8>::empty();
    lemma_addrs_round_trip(slots(m.system_addresses), c + x, p + q);
    assert(rest == c + x + l + p + q);
    assert(rest == none + c + (x + l + p + q));
    assert(rest == c + x + (l + p + q));
    assert(rest == (c + x) + l + (p + q));
    lemma_addr_round_trip(m.client_address, none, x + l + p + q);
    bytes::lemma_be16_round_trip(m.system_index, c, l + p + q);
    lemma_two_times(c + x + l, m.ping_time, m.pong_time);
}

/// A New Incoming Connection is told apart from its bytes and read back, with its address list
/// cut or filled up to twenty.
pub proof fn law_incoming_round_trip(m: IncomingConnectionView)
    ensures
        message_of(incoming_bytes(m)) == Ok::<SystemView, Seq<char>>(
            SystemView::NewIncomingConnection(
                IncomingConnectionView { system_addresses: slots(m.system_addresses), ..m },
            ),
        ),
{
    let c = addr_bytes(m.server_address);
    let l = addrs_bytes(slots(m.system_addresses));
    let p = i64_bytes(m.ping_time);
    let q = i64_bytes(m.pong_time);
    let rest = incoming_bytes(m).skip(1);
    let none = Seq::<u8>::empty();
    lemma_addrs_round_trip(slots(m.system_addresses), c, p + q);
    assert(rest == c + l + p + q);
    assert(rest == none + c + (l + p + q));
    assert(rest == c + l + (p + q));
    lemma_addr_round_trip(m.server_address, none, l + p + q);
    lemma_two_times(c + l, m.ping_time, m.pong_time);
}

/// An address in a connected message: the byte 4, the octets inverted, and the port.
pub proof fn law_address_layout(addr: SocketAddrV4, s: Seq<u8>, i: int)
    ensures
        addr_bytes(addr).len() == 7,
        addr_bytes(addr)[0] == 4,
        addr_bytes(addr)[1] + addr.a == 255,
        addr_bytes(addr)[2] + addr.b == 255,
        addr_bytes(addr)[3] + addr.c == 255,
        addr_bytes(addr)[4] + addr.d == 255,
        addr_bytes(addr)[5] * 256 + addr_bytes(addr)[6] == addr.port,
        addr_at(s, i).a + s[i + 1] == 255,
        addr_at(s, i).b + s[i + 2] == 255,
        addr_at(s, i).c + s[i + 3] == 255,
        addr_at(s, i).d + s[i + 4] == 255,
        addr_at(s, i).port == s[i + 5] * 256 + s[i + 6],
{
    bytes::law_bytes_are_digits(addr.port, 0, 0);
    bytes::law_digits_are_read(s, i + 5);
}

/// An address list has twenty slots on the wire: the first twenty addresses, and 0.0.0.0 with
/// port 0 in each that is left.
pub proof fn law_twenty_slots(addrs: Seq<SocketAddrV4>, i: int)
    requires
        0 <= i < 20,
    ensures
        slots(addrs).len() == 20,
        i < addrs.len() ==> slots(addrs)[i] == addrs[i],
        i >= addrs.len() ==> slots(addrs)[i] == (SocketAddrV4 { a: 0, b: 0, c: 0, d: 0, port: 0 }),
{
}

proof fn lemma_addr_at_rest(s: Seq<u8>, i: int)
    requires
        0 <= i,
        i + 8 <= s.len(),
    ensures
        addr_at(s.skip(1), i) == addr_at(s, i + 1),
{
    bytes::lemma_at_rest(s, 1, i + 5);
}

/// When a frame body is a ping, a pong or a connection request, and what it says. Bytes behind the
/// last field are ignored.
pub proof fn law_short_messages(body: Seq<u8>)
    requires
        body.len() > 0,
    ensures
        body[0] == 0x00 ==> (match message_of(body) {
            Ok(m) => body.len() >= 9 && m == SystemView::ConnectedPing(
                ConnectedPing { time: bytes::i64_at(body, 1) },
            ),
            Err(_) => body.len() < 9,
        }),
        body[0] == 0x03 ==> (match message_of(body) {
            Ok(m) => body.len() >= 17 && m == SystemView::ConnectedPong(
                ConnectedPong {
                    ping_time: bytes::i64_at(body, 1),
                    pong_time: bytes::i64_at(body, 9),
                },
            ),
            Err(_) => body.len() < 17,
        }),
        body[0] == 0x09 ==> (match message_of(body) {
            Ok(m) => body.len() >= 17 && m == SystemView::ConnectionRequest(
                ConnectionRequest {
                    client_guid: bytes::i64_at(body, 1),
                    request_time: bytes::i64_at(body, 9),
                    use_security: body.len() >= 18 && body[17] != 0,
                },
            ),
            Err(_) => body.len() < 17,
        }),
{
    bytes::lemma_at_rest(body, 1, 0);
    bytes::lemma_at_rest(body, 1, 8);
}

/// When a frame body is an acceptance, and what it says: the client's address at offset 1, the
/// index at 8, the twenty addresses from 10 on, and the times at 150 and 158.
pub proof fn law_acceptance_is_understood(body: Seq<u8>)
    requires
        body.len() > 0,
        body[0] == 0x10,
    ensures
        match message_of(body) {
            Ok(SystemView::ConnectionRequestAccepted(m)) => {
                &&& body.len() >= 166
                &&& m.client_address == addr_at(body, 1)
                &&& m.system_index == bytes::u16_at(body, 8)
                &&& m.system_addresses.len() == 20
                &&& forall|i: int|
                    0 <= i < 20 ==> #[trigger] m.system_addresses[i] == addr_at(body, 10 + 7 * i)
                &&& m.ping_time == bytes::i64_at(body, 150)
                &&& m.pong_time == bytes::i64_at(body, 158)
            },
            Ok(_) => false,
            Err(_) => body.len() < 166,
        },
{
    if body.len() >= 166 {
        lemma_addr_at_rest(body, 0);
        bytes::lemma_at_rest(body, 1, 7);
        bytes::lemma_at_rest(body, 1, 149);
        bytes::lemma_at_rest(body, 1, 157);
        let list = addrs_at(body.skip(1), 9, 20);
        assert forall|i: int| 0 <= i < 20 implies #[trigger] list[i] == addr_at(
            body,
            10 + 7 * i,
        ) by {
            lemma_addr_at_rest(body, 9 + 7 * i);
        }
    }
}

/// When a frame body is a New Incoming Connection, and what it says: the server's address at
/// offset 1, the twenty addresses from 8 on, and the times at 148 and 156.
pub proof fn law_incoming_is_understood(body: Seq<u8>)
    requires
        body.len() > 0,
        body[0] == 0x13,
    ensures
        match message_of(body) {
            Ok(SystemView::NewIncomingConnection(m)) => {
                &&& body.len() >= 164
                &&& m.server_address == addr_at(body, 1)
                &&& m.system_addresses.len() == 20
                &&& forall|i: int|
                    0 <= i < 20 ==> #[trigger] m.system_addresses[i] == addr_at(body, 8 + 7 * i)
                &&& m.ping_time == bytes::i64_at(body, 148)
                &&& m.pong_time == bytes::i64_at(body, 156)
            },
            Ok(_) => false,
            Err(_) => body.len() < 164,
        },
{
    if body.len() >= 164 {
        lemma_addr_at_rest(body, 0);
        bytes::lemma_at_rest(body, 1, 147);
        bytes::lemma_at_rest(body, 1, 155);
        let list = addrs_at(body.skip(1), 7, 20);
        assert forall|i: int| 0 <= i < 20 implies #[trigger] list[i] == addr_at(
            body,
            8 + 7 * i,
        ) by {
            lemma_addr_at_rest(body, 7 + 7 * i);
        }
    }
}

/// What any other frame body is: a disconnect by its ID alone, an application payload, whole, under
/// an ID of none of the messages, and nothing at all where it is empty.
pub proof fn law_other_bodies(body: Seq<u8>)
    ensures
        body.len() == 0 ==> message_of(body) is Err,
        body.len() > 0 && body[0] == 0x15 ==> message_of(body) == Ok::<SystemView, Seq<char>>(
            SystemView::Disconnect,
        ),
        body.len() > 0 && body[0] != 0x00 && body[0] != 0x03 && body[0] != 0x09 && body[0] != 0x10
            && body[0] != 0x13 && body[0] != 0x15 ==> message_of(body) == Ok::<
            SystemView,
            Seq<char>,
        >(SystemView::Application(body)),
{
}

/// How long the messages are on the wire, and their IDs.
pub proof fn law_message_lengths(
    ping: ConnectedPing,
    pong: ConnectedPong,
    request: ConnectionRequest,
    accepted: AcceptedView,
    incoming: IncomingConnectionView,
)
    ensures
        ping_bytes(ping).len() == 9 && ping_bytes(ping)[0] == 0x00,
        pong_bytes(pong).len() == 17 && pong_bytes(pong)[0] == 0x03,
        request_bytes(request).len() == 18 && request_bytes(request)[0] == 0x09,
        request_bytes(request)[17] == (if request.use_security {
            1int
        } else {
            0
        }),
        accepted_bytes(accepted).len() == 166 && accepted_bytes(accepted)[0] == 0x10,
        incoming_bytes(incoming).len() == 164 && incoming_bytes(incoming)[0] == 0x13,
{
    lemma_addrs_round_trip(slots(accepted.system_addresses), Seq::empty(), Seq::empty());
    lemma_addrs_round_trip(slots(incoming.system_addresses), Seq::empty(), Seq::empty());
}

/// What is said of a field that ends early: how many bytes it needs, and then how many are there.
pub proof fn law_need_bytes_says(ctx: Seq<char>, n: nat, got: nat)
    requires
        text::no_digit(ctx),
    ensures
        ctx.is_prefix_of(need_bytes(ctx, n as int, got as int)),
        text::shows(need_bytes(ctx, n as int, got as int), seq![n, got]),
        ctx.is_prefix_of(need_address(ctx, got as int)),
        text::shows(need_address(ctx, got as int), seq![7, got]),
{
    reveal_strlit(": need ");
    reveal_strlit(" bytes, got ");
    reveal_strlit(": address needs 7 bytes, got ");
    let m = need_bytes(ctx, n as int, got as int);
    assert(m.take(ctx.len() as int) =~= ctx);
    text::lemma_shows_two(ctx + ": need "@, n, " bytes, got "@, got, seq![]);
    assert(m + Seq::<char>::empty() =~= m);
    let a = need_address(ctx, got as int);
    assert(a.take(ctx.len() as int) =~= ctx);
    let head = ": address needs 7 bytes, got "@.take(16);
    assert(text::decimal(7) =~= seq!['7']);
    assert(text::no_digit(head)) by {
        assert forall|i: int| 0 <= i < head.len() implies !text::is_digit(#[trigger] head[i]) by {}
    }
    text::lemma_shows_two(ctx + head, 7, " bytes, got "@, got, seq![]);
    assert(": address needs 7 bytes, got "@ =~= head + seq!['7'] + " bytes, got "@);
    assert(a =~= ctx + head + text::decimal(7) + " bytes, got "@ + text::decimal(got)
        + Seq::<char>::empty());
}

/// A message that ends early is refused with what its first unfinished field needs, and with what
/// is there of it.
pub proof fn law_short_messages_are_refused(data: Seq<u8>)
    ensures
        data.len() < 8 ==> ping_of(data) == Err::<ConnectedPing, Seq<char>>(
            need_bytes("ConnectedPing"@, 8, data.len() as int),
        ),
        pong_of(data) matches Err(m) ==> exists|ctx: Seq<char>, got: int|
            m == #[trigger] need_bytes(ctx, 8, got) && 0 <= got < 8 && (got == data.len() || got
                + 8 == data.len()),
        request_of(data) matches Err(m) ==> exists|ctx: Seq<char>, got: int|
            m == #[trigger] need_bytes(ctx, 8, got) && 0 <= got < 8 && (got == data.len() || got
                + 8 == data.len()),
        9 <= data.len() < 149 ==> exists|got: int|
            accepted_of(data) == Err::<AcceptedView, Seq<char>>(
                #[trigger] need_address("ConnectionRequestAccepted.system_address"@, got),
            ) && 0 <= got < 7 && (data.len() - 9 - got) % 7 == 0,
        7 <= data.len() < 147 ==> exists|got: int|
            incoming_of(data) == Err::<IncomingConnectionView, Seq<char>>(
                #[trigger] need_address("NewIncomingConnection.system_address"@, got),
            ) && 0 <= got < 7 && (data.len() - 7 - got) % 7 == 0,
{
    let n = data.len() as int;
    if n < 8 {
        assert(pong_of(data)->Err_0 == need_bytes("ConnectedPong.ping_time"@, 8, n));
        assert(request_of(data)->Err_0 == need_bytes("ConnectionRequest.client_guid"@, 8, n));
    } else if n < 16 {
        assert(pong_of(data)->Err_0 == need_bytes("ConnectedPong.pong_time"@, 8, n - 8));
        assert(request_of(data)->Err_0 == need_bytes("ConnectionRequest.request_time"@, 8, n - 8));
    }
    if 9 <= n < 149 {
        assert(accepted_of(data) == Err::<AcceptedView, Seq<char>>(
            need_address("ConnectionRequestAccepted.system_address"@, (n - 9) % 7),
        ));
    }
    if 7 <= n < 147 {
        assert(incoming_of(data) == Err::<IncomingConnectionView, Seq<char>>(
            need_address("NewIncomingConnection.system_address"@, (n - 7) % 7),
        ));
    }
}

/// The bytes of a Disconnect Notification.
pub open spec fn disconnect_bytes() -> Seq<u8> {
    seq![ID_DISCONNECT]
}

/// A Disconnect Notification is told apart from its one byte, 0x15.
pub proof fn law_disconnect_round_trip()
    ensures
        disconnect_bytes() == seq![0x15u8],
        message_of(disconnect_bytes()) == Ok::<SystemView, Seq<char>>(SystemView::Disconnect),
{
}

/// Messages of different kinds have different names.
pub proof fn law_message_names_differ(a: SystemView, b: SystemView)
    requires
        name_of(a) == name_of(b),
    ensures
        a is ConnectedPing <==> b is ConnectedPing,
        a is ConnectedPong <==> b is ConnectedPong,
        a is ConnectionRequest <==> b is ConnectionRequest,
        a is ConnectionRequestAccepted <==> b is ConnectionRequestAccepted,
        a is NewIncomingConnection <==> b is NewIncomingConnection,
        a is Disconnect <==> b is Disconnect,
        a is Application <==> b is Application,
{
    reveal_strlit("ConnectedPing");
    reveal_strlit("ConnectedPong");
    reveal_strlit("ConnectionRequest");
    reveal_strlit("ConnectionRequestAccepted");
    reveal_strlit("NewIncomingConnection");
    reveal_strlit("Disconnect");
    reveal_strlit("Application");
    assert("ConnectedPing"@.len() == 13 && "ConnectedPong"@.len() == 13);
    assert("ConnectedPing"@[10] == 'i' && "ConnectedPong"@[10] == 'o');
    assert("ConnectionRequest"@.len() == 17 && "ConnectionRequestAccepted"@.len() == 25);
    assert("NewIncomingConnection"@.len() == 21 && "Disconnect"@.len() == 10);
    assert("Application"@.len() == 11);
}

} // verus!
