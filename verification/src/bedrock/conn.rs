//! The RakNet connection handshake.
//!
//! ```text
//! Client                                      Server
//!   |  0x05 Request 1 (magic, version, padding)  |
//!   |------------------------------------------->|
//!   |  0x06 Reply 1 (magic, guid, enc, mtu)      |
//!   |<-------------------------------------------|
//!   |  0x07 Request 2 (magic, addr, mtu, guid)   |
//!   |------------------------------------------->|
//!   |  0x08 Reply 2 (magic, guid, addr, mtu, enc)|
//!   |<-------------------------------------------|
//! ```
//!
//! A server that refuses answers with one of the packets 0x09 to 0x0c instead.
//!
//! The handshake runs as a state machine: [`ConnectBuilder::stage1`] and
//! [`ConnectBuilder::stage2`] say what to send and how long to wait, and the caller reports what
//! came back. Spans of time are whole nanoseconds.
use vstd::prelude::*;

use super::datagram;
use super::raknet;
use super::raknet::{PacketBuf, MAGIC};
use crate::addr::{SocketAddr, SocketAddrV4};
use crate::bytes;
use crate::error::PingError;
use crate::text;
use crate::text::{protocol_error, Message};

pub use super::datagram::{Datagram, Frame, Incoming, Reliability};

verus! {

broadcast use bytes::group_widths;

/// Open Connection Request 1.
pub const ID_OPEN_CONN_REQ_1: u8 = 0x05;

/// Open Connection Reply 1.
pub const ID_OPEN_CONN_REPL_1: u8 = 0x06;

/// Open Connection Request 2.
pub const ID_OPEN_CONN_REQ_2: u8 = 0x07;

/// Open Connection Reply 2.
pub const ID_OPEN_CONN_REPL_2: u8 = 0x08;

/// Rejection: incompatible protocol version.
pub const ID_INCOMPATIBLE_PROTOCOL: u8 = 0x09;

/// Rejection: IP recently banned.
pub const ID_IP_BANNED: u8 = 0x0a;

/// Rejection: already connected.
pub const ID_ALREADY_CONNECTED: u8 = 0x0b;

/// Rejection: no free incoming connections.
pub const ID_NO_FREE_INCOMING: u8 = 0x0c;

/// The smallest MTU that is tried.
pub const MIN_MTU: u16 = 46;

/// The shortest wait for an answer, in nanoseconds.
pub const MIN_WAIT: u128 = 500_000_000;

/// The overall timeout of a handshake unless another is set, in nanoseconds.
pub const DEFAULT_TIMEOUT: u128 = 10_000_000_000;

// ==================== Packets ====================

/// What a Reply 1 says.
#[derive(Debug, Clone, Copy, PartialEq, Eq, Structural)]
pub struct Reply1 {
    pub server_guid: i64,
    pub use_encryption: bool,
    pub mtu: u16,
}

/// What a Reply 2 says.
#[derive(Debug, Clone, Copy, PartialEq, Eq, Structural)]
pub struct Reply2 {
    pub server_guid: i64,
    pub client_addr: SocketAddrV4,
    pub mtu: u16,
    pub use_encryption: bool,
}

/// Why a server refused.
#[derive(Debug, Clone, Copy, PartialEq, Eq, Structural)]
pub enum HandshakeRejection {
    /// The server speaks another protocol version.
    IncompatibleProtocol { server_protocol: u8 },
    /// This client was recently banned.
    IpBanned,
    /// This client has a session already.
    AlreadyConnected,
    /// The server is full.
    NoFreeIncomingConnections,
}

/// The explanation of a rejection.
pub open spec fn rejection_text(r: HandshakeRejection, client_protocol: u8) -> Seq<char> {
    match r {
        HandshakeRejection::IncompatibleProtocol { server_protocol } =>
            "incompatible protocol version (server="@ + text::decimal(server_protocol as nat)
                + ", client="@ + text::decimal(client_protocol as nat) + ")"@,
        HandshakeRejection::IpBanned => "client IP was recently banned"@,
        HandshakeRejection::AlreadyConnected => "already connected"@,
        HandshakeRejection::NoFreeIncomingConnections =>
            "no free incoming connections (server full)"@,
    }
}

impl HandshakeRejection {
    /// The explanation of the rejection, for a client of the given protocol version.
    pub fn as_message(self, client_protocol: u8) -> (r: String)
        ensures
            r@ == rejection_text(self, client_protocol),
    {
        match self {
            HandshakeRejection::IncompatibleProtocol { server_protocol } => Message::new(
                "incompatible protocol version (server=",
            ).number(server_protocol as u128).text(", client=").number(
                client_protocol as u128,
            ).text(")").done(),
            HandshakeRejection::IpBanned => text::copy_text("client IP was recently banned"),
            HandshakeRejection::AlreadyConnected => text::copy_text("already connected"),
            HandshakeRejection::NoFreeIncomingConnections => text::copy_text(
                "no free incoming connections (server full)",
            ),
        }
    }
}

/// A Request 1 on the wire: as long as the proposed MTU, but at least its 18 fixed bytes.
pub open spec fn request1_bytes(protocol_version: u8, mtu: u16) -> Seq<u8> {
    let padding = if mtu >= 18 {
        (mtu - 18) as nat
    } else {
        0
    };
    seq![ID_OPEN_CONN_REQ_1] + MAGIC@ + seq![protocol_version] + Seq::new(padding, |i: int| 0u8)
}

/// A Request 2 on the wire.
pub open spec fn request2_bytes(client_addr: SocketAddrV4, mtu: u16, client_guid: i64) -> Seq<
    u8,
> {
    seq![ID_OPEN_CONN_REQ_2] + MAGIC@ + raknet::ipv4_bytes(client_addr) + bytes::be16(mtu)
        + bytes::be64(bytes::i64_bits(client_guid))
}

/// Builds a Request 1.
pub fn build_request1(protocol_version: u8, mtu: u16) -> (r: Vec<u8>)
    ensures
        r@ == request1_bytes(protocol_version, mtu),
        r@.len() == (if mtu >= 18 {
            mtu as int
        } else {
            18
        }),
{
    let total: usize = if mtu >= 18 {
        mtu as usize
    } else {
        18
    };
    let mut buf: Vec<u8> = Vec::new();
    buf.push(ID_OPEN_CONN_REQ_1);
    let magic: [u8; 16] = MAGIC;
    bytes::extend(&mut buf, magic.as_slice());
    buf.push(protocol_version);
    while buf.len() < total
        invariant
            18 <= buf@.len() <= total,
            buf@.take(18) == seq![ID_OPEN_CONN_REQ_1] + MAGIC@ + seq![protocol_version],
            forall|i: int| 18 <= i < buf@.len() ==> buf@[i] == 0,
        decreases total - buf@.len(),
    {
        let ghost before = buf@;
        buf.push(0);
        assert(buf@.take(18) == before.take(18));
    }
    assert(buf@ == buf@.take(18) + Seq::new((total - 18) as nat, |i: int| 0u8));
    buf
}

/// Builds a Request 2.
pub fn build_request2(client_addr: SocketAddrV4, mtu: u16, client_guid: i64) -> (r: Vec<u8>)
    ensures
        r@ == request2_bytes(client_addr, mtu, client_guid),
        r@.len() == 34,
{
    let mut buf: Vec<u8> = Vec::new();
    buf.push(ID_OPEN_CONN_REQ_2);
    let magic: [u8; 16] = MAGIC;
    bytes::extend(&mut buf, magic.as_slice());
    let addr: [u8; 7] = raknet::encode_ipv4_addr(&client_addr);
    bytes::extend(&mut buf, addr.as_slice());
    bytes::push_be16(&mut buf, mtu);
    bytes::push_i64(&mut buf, client_guid);
    assert(buf@ == request2_bytes(client_addr, mtu, client_guid));
    buf
}

/// What `data` says as a Reply 1; `None` if it is another packet.
pub open spec fn reply1_of(data: Seq<u8>) -> Result<Option<Reply1>, Seq<char>> {
    let name = "Reply 1"@;
    let n = data.len() as int;
    if n == 0 || data[0] != ID_OPEN_CONN_REPL_1 {
        Ok(None)
    } else if n < 17 {
        Err(raknet::too_short(name, 1, n - 1, 16))
    } else if data.subrange(1, 17) != MAGIC@ {
        Err(raknet::wrong_magic(name, data.subrange(1, 17)))
    } else if n < 25 {
        Err(raknet::too_short(name, 17, n - 17, 8))
    } else if n < 26 {
        Err(raknet::too_short(name, 25, n - 25, 1))
    } else if n < 28 {
        Err(raknet::too_short(name, 26, n - 26, 2))
    } else {
        Ok(
            Some(
                Reply1 {
                    server_guid: bytes::i64_at(data, 17),
                    use_encryption: data[25] != 0,
                    mtu: bytes::u16_at(data, 26),
                },
            ),
        )
    }
}

/// What `data` says as a Reply 2; `None` if it is another packet.
pub open spec fn reply2_of(data: Seq<u8>) -> Result<Option<Reply2>, Seq<char>> {
    let name = "Reply 2"@;
    let n = data.len() as int;
    if n == 0 || data[0] != ID_OPEN_CONN_REPL_2 {
        Ok(None)
    } else if n < 17 {
        Err(raknet::too_short(name, 1, n - 1, 16))
    } else if data.subrange(1, 17) != MAGIC@ {
        Err(raknet::wrong_magic(name, data.subrange(1, 17)))
    } else if n < 25 {
        Err(raknet::too_short(name, 17, n - 17, 8))
    } else if n < 32 {
        Err(raknet::too_short(name, 25, n - 25, 7))
    } else {
        match raknet::ipv4_of_bytes(data.subrange(25, 32)) {
            Err(m) => Err(m),
            Ok(client_addr) => if n < 34 {
                Err(raknet::too_short(name, 32, n - 32, 2))
            } else if n < 35 {
                Err(raknet::too_short(name, 34, n - 34, 1))
            } else {
                Ok(
                    Some(
                        Reply2 {
                            server_guid: bytes::i64_at(data, 17),
                            client_addr,
                            mtu: bytes::u16_at(data, 32),
                            use_encryption: data[34] != 0,
                        },
                    ),
                )
            },
        }
    }
}

/// The rejection that `data` is, if it is one: its ID, the magic, and for an incompatible
/// protocol the server's version. A rejection without its version is malformed.
pub open spec fn rejection_of(data: Seq<u8>) -> Result<Option<HandshakeRejection>, Seq<char>> {
    if data.len() < 17 || data.subrange(1, 17) != MAGIC@ {
        Ok(None)
    } else if data[0] == ID_INCOMPATIBLE_PROTOCOL {
        if data.len() == 17 {
            Err(raknet::too_short("Rejection"@, 17, 0, 1))
        } else {
            Ok(Some(HandshakeRejection::IncompatibleProtocol { server_protocol: data[17] }))
        }
    } else if data[0] == ID_IP_BANNED {
        Ok(Some(HandshakeRejection::IpBanned))
    } else if data[0] == ID_ALREADY_CONNECTED {
        Ok(Some(HandshakeRejection::AlreadyConnected))
    } else if data[0] == ID_NO_FREE_INCOMING {
        Ok(Some(HandshakeRejection::NoFreeIncomingConnections))
    } else {
        Ok(None)
    }
}

/// Parses a Reply 1; `None` if `data` is another packet.
pub fn parse_reply1(data: &[u8]) -> (r: Result<Option<Reply1>, PingError>)
    ensures
        crate::error::agrees(r, reply1_of(data@)),
{
    if data.len() == 0 || data[0] != ID_OPEN_CONN_REPL_1 {
        return Ok(None);
    }
    let mut p = PacketBuf::new(data, "Reply 1");
    p.expect_id(ID_OPEN_CONN_REPL_1)?;
    p.read_magic()?;
    let server_guid: i64 = p.read_i64()?;
    let use_encryption = p.read_u8()? != 0;
    let mtu: u16 = p.read_u16()?;
    Ok(Some(Reply1 { server_guid, use_encryption, mtu }))
}

/// Parses a Reply 2; `None` if `data` is another packet.
pub fn parse_reply2(data: &[u8]) -> (r: Result<Option<Reply2>, PingError>)
    ensures
        crate::error::agrees(r, reply2_of(data@)),
{
    if data.len() == 0 || data[0] != ID_OPEN_CONN_REPL_2 {
        return Ok(None);
    }
    let mut p = PacketBuf::new(data, "Reply 2");
    p.expect_id(ID_OPEN_CONN_REPL_2)?;
    p.read_magic()?;
    let server_guid: i64 = p.read_i64()?;
    let client_addr = raknet::decode_ipv4_addr(p.read_bytes(7)?)?;
    let mtu: u16 = p.read_u16()?;
    let use_encryption = p.read_u8()? != 0;
    Ok(Some(Reply2 { server_guid, client_addr, mtu, use_encryption }))
}

/// Tells whether `data` is a rejection, and which; an error if it is one with a malformed body.
/// Anything else is `None`, also what is too short for the magic or does not hold it.
pub fn classify_rejection(data: &[u8]) -> (r: Result<Option<HandshakeRejection>, PingError>)
    ensures
        crate::error::agrees(r, rejection_of(data@)),
{
    let mut p = PacketBuf::new(data, "Rejection");
    let id: u8 = match p.read_u8() {
        Ok(id) => id,
        Err(_) => {
            return Ok(None);
        },
    };
    if p.read_magic().is_err() {
        return Ok(None);
    }
    if id == ID_INCOMPATIBLE_PROTOCOL {
        let server_protocol: u8 = p.read_u8()?;
        Ok(Some(HandshakeRejection::IncompatibleProtocol { server_protocol }))
    } else if id == ID_IP_BANNED {
        Ok(Some(HandshakeRejection::IpBanned))
    } else if id == ID_ALREADY_CONNECTED {
        Ok(Some(HandshakeRejection::AlreadyConnected))
    } else if id == ID_NO_FREE_INCOMING {
        Ok(Some(HandshakeRejection::NoFreeIncomingConnections))
    } else {
        Ok(None)
    }
}

// ==================== Configuration ====================

/// The configuration of a handshake.
#[derive(Debug, Clone, PartialEq, Eq)]
pub struct ConnectBuilder {
    /// The client's GUID.
    pub client_guid: i64,
    /// The RakNet protocol version.
    pub protocol_version: u8,
    /// The MTUs to try, in order.
    pub mtu_candidates: Vec<u16>,
    /// The overall timeout in nanoseconds.
    pub timeout: u128,
    /// How often each request is sent.
    pub max_retries: u32,
}

impl Default for ConnectBuilder {
    fn default() -> (r: ConnectBuilder)
        ensures
            r.client_guid == 0,
            r.has_defaults(),
    {
        ConnectBuilder::with_client_guid(0)
    }
}

impl ConnectBuilder {
    /// Everything but the GUID is as it is by default.
    pub open spec fn has_defaults(self) -> bool {
        &&& self.protocol_version == 11
        &&& self.mtu_candidates@ == seq![1492u16, 1200, 576]
        &&& self.timeout == DEFAULT_TIMEOUT
        &&& self.max_retries == 3
    }

    /// A configuration with the given GUID.
    pub fn with_client_guid(client_guid: i64) -> (r: ConnectBuilder)
        ensures
            r.client_guid == client_guid,
            r.has_defaults(),
    {
        let mtu_candidates: Vec<u16> = vec![1492, 1200, 576];
        assert(mtu_candidates@ == seq![1492u16, 1200, 576]);
        ConnectBuilder {
            client_guid,
            protocol_version: 11,
            mtu_candidates,
            timeout: DEFAULT_TIMEOUT,
            max_retries: 3,
        }
    }

    /// Sets the client's GUID.
    pub fn client_guid(self, guid: i64) -> (r: ConnectBuilder)
        ensures
            r == (ConnectBuilder { client_guid: guid, ..self }),
    {
        ConnectBuilder { client_guid: guid, ..self }
    }

    /// Sets the RakNet protocol version.
    pub fn protocol_version(self, version: u8) -> (r: ConnectBuilder)
        ensures
            r == (ConnectBuilder { protocol_version: version, ..self }),
    {
        ConnectBuilder { protocol_version: version, ..self }
    }

    /// Sets the MTUs to try, in order.
    pub fn mtu_candidates(self, candidates: Vec<u16>) -> (r: ConnectBuilder)
        ensures
            r == (ConnectBuilder { mtu_candidates: candidates, ..self }),
    {
        ConnectBuilder { mtu_candidates: candidates, ..self }
    }

    /// Sets the overall timeout, in nanoseconds.
    pub fn timeout(self, t: u128) -> (r: ConnectBuilder)
        ensures
            r == (ConnectBuilder { timeout: t, ..self }),
    {
        ConnectBuilder { timeout: t, ..self }
    }

    /// Sets how often each request is sent.
    pub fn max_retries(self, retries: u32) -> (r: ConnectBuilder)
        ensures
            r == (ConnectBuilder { max_retries: retries, ..self }),
    {
        ConnectBuilder { max_retries: retries, ..self }
    }
}

// ==================== The state machine ====================

/// An attempt of the first stage: the position of the MTU candidate and how often it was tried
/// before.
#[derive(Debug, Clone, Copy, PartialEq, Eq, Structural)]
pub struct Attempt1 {
    pub candidate: usize,
    pub attempt: u32,
}

/// What to do in the first stage.
#[derive(Debug)]
pub enum Stage1Step {
    /// Send the packet and wait so many nanoseconds for an answer.
    Send { at: Attempt1, packet: Vec<u8>, wait: u128 },
    /// The server accepted.
    Agreed(Reply1),
    /// The handshake failed.
    Failed(PingError),
}

/// What a [`Stage1Step`] holds.
pub enum Stage1View {
    Send { at: Attempt1, packet: Seq<u8>, wait: u128 },
    Agreed(Reply1),
    Failed(Seq<char>),
}

/// A step of the first stage and its model.
pub open spec fn stage1_matches(s: Stage1Step, v: Stage1View) -> bool {
    match (s, v) {
        (
            Stage1Step::Send { at, packet, wait },
            Stage1View::Send { at: at_v, packet: packet_v, wait: wait_v },
        ) => at == at_v && packet@ == packet_v && wait == wait_v,
        (Stage1Step::Agreed(a), Stage1View::Agreed(b)) => a == b,
        (Stage1Step::Failed(e), Stage1View::Failed(m)) => e.says(m),
        _ => false,
    }
}

/// An attempt of the second stage: how often the request was sent before.
#[derive(Debug, Clone, Copy, PartialEq, Eq, Structural)]
pub struct Attempt2 {
    pub local: SocketAddrV4,
    pub reply1: Reply1,
    pub attempt: u32,
}

/// What to do in the second stage.
#[derive(Debug)]
pub enum Stage2Step {
    /// Send the packet and wait so many nanoseconds for an answer.
    Send { at: Attempt2, packet: Vec<u8>, wait: u128 },
    /// The server confirmed.
    Confirmed(Reply2),
    /// The handshake failed.
    Failed(PingError),
}

/// What a [`Stage2Step`] holds.
pub enum Stage2View {
    Send { at: Attempt2, packet: Seq<u8>, wait: u128 },
    Confirmed(Reply2),
    Failed(Seq<char>),
}

/// A step of the second stage and its model.
pub open spec fn stage2_matches(s: Stage2Step, v: Stage2View) -> bool {
    match (s, v) {
        (
            Stage2Step::Send { at, packet, wait },
            Stage2View::Send { at: at_v, packet: packet_v, wait: wait_v },
        ) => at == at_v && packet@ == packet_v && wait == wait_v,
        (Stage2Step::Confirmed(a), Stage2View::Confirmed(b)) => a == b,
        (Stage2Step::Failed(e), Stage2View::Failed(m)) => e.says(m),
        _ => false,
    }
}

/// The share of the timeout that one of `attempts` attempts gets, and at least half a second.
pub open spec fn wait_share(timeout: u128, attempts: nat) -> u128 {
    let share = timeout as nat / attempts;
    if share >= MIN_WAIT {
        share as u128
    } else {
        MIN_WAIT
    }
}

/// The message for a handshake that the server refused.
pub open spec fn rejected(r: HandshakeRejection, protocol_version: u8) -> Seq<char> {
    "handshake rejected: "@ + rejection_text(r, protocol_version)
}

/// The session that two replies establish, if they agree.
pub open spec fn agreed_session(
    client_guid: i64,
    server_addr: SocketAddrV4,
    reply1: Reply1,
    reply2: Reply2,
) -> Option<Connection> {
    if reply2.mtu == reply1.mtu && reply2.server_guid == reply1.server_guid {
        Some(
            Connection {
                server_addr,
                server_guid: reply2.server_guid,
                mtu: reply2.mtu,
                use_encryption: reply2.use_encryption,
                client_guid,
            },
        )
    } else {
        None
    }
}

/// The server among the addresses that a target resolved to, if it can be talked to.
pub open spec fn chosen_server(resolved: Seq<SocketAddr>) -> Option<SocketAddrV4> {
    if resolved.len() == 0 {
        None
    } else {
        match resolved.last() {
            SocketAddr::V4(a) => Some(a),
            SocketAddr::V6 { .. } => None,
        }
    }
}

impl ConnectBuilder {
    /// The number of attempts of the first stage fits in 32 bits, where there is any attempt.
    pub open spec fn attempts_fit(self) -> bool {
        self.max_retries > 0 && (exists|i: int|
            0 <= i < self.mtu_candidates@.len() && #[trigger] self.mtu_candidates@[i] >= MIN_MTU)
            ==> self.mtu_candidates@.len() * self.max_retries <= u32::MAX
    }

    /// Whether the number of attempts of the first stage fits in 32 bits, where there is any.
    pub fn can_be_tried(&self) -> (r: bool)
        ensures
            r == self.attempts_fit(),
    {
        let candidates: u64 = self.mtu_candidates.len() as u64;
        let retries: u32 = self.max_retries;
        assert(candidates * retries <= u128::MAX) by (nonlinear_arith)
            requires
                candidates <= u64::MAX,
                retries <= u32::MAX,
        ;
        let n: u128 = candidates as u128 * retries as u128;
        if n <= 0xffff_ffff || self.max_retries == 0 {
            return true;
        }
        let mut i: usize = 0;
        while i < self.mtu_candidates.len()
            invariant
                i <= self.mtu_candidates@.len(),
                forall|k: int| 0 <= k < i ==> self.mtu_candidates@[k] < MIN_MTU,
                self.mtu_candidates@.len() * self.max_retries > u32::MAX,
                self.max_retries > 0,
            decreases self.mtu_candidates@.len() - i,
        {
            if self.mtu_candidates[i] >= MIN_MTU {
                return false;
            }
            i = i + 1;
        }
        true
    }

    /// An attempt that the first stage makes: its candidate is large enough, and it was not tried
    /// too often.
    pub open spec fn makes(self, at: Attempt1) -> bool {
        &&& at.candidate < self.mtu_candidates@.len()
        &&& self.mtu_candidates@[at.candidate as int] >= MIN_MTU
        &&& at.attempt < self.max_retries
    }

    /// The first attempt that the first stage makes from the given one on, if any.
    pub open spec fn next_attempt(self, candidate: nat, attempt: nat) -> Option<Attempt1>
        decreases self.mtu_candidates@.len() - candidate,
    {
        if candidate >= self.mtu_candidates@.len() {
            None
        } else if self.mtu_candidates@[candidate as int] < MIN_MTU || attempt
            >= self.max_retries {
            self.next_attempt(candidate + 1, 0)
        } else {
            Some(Attempt1 { candidate: candidate as usize, attempt: attempt as u32 })
        }
    }

    /// What the first stage does from the given attempt on.
    pub open spec fn stage1_from(self, candidate: nat, attempt: nat) -> Stage1View {
        match self.next_attempt(candidate, attempt) {
            None => Stage1View::Failed("all MTU candidates rejected"@),
            Some(at) => Stage1View::Send {
                at,
                packet: request1_bytes(
                    self.protocol_version,
                    self.mtu_candidates@[at.candidate as int],
                ),
                wait: wait_share(
                    self.timeout,
                    (self.mtu_candidates@.len() * self.max_retries) as nat,
                ),
            },
        }
    }

    /// What the first stage does with a packet: a rejection, a malformed one too, or a malformed
    /// Reply 1 ends it, a Reply 1 completes it, and after anything else the next attempt is made.
    pub open spec fn stage1_after(self, at: Attempt1, data: Seq<u8>) -> Stage1View {
        match rejection_of(data) {
            Err(m) => Stage1View::Failed(m),
            Ok(Some(r)) => Stage1View::Failed(rejected(r, self.protocol_version)),
            Ok(None) => match reply1_of(data) {
                Err(m) => Stage1View::Failed(m),
                Ok(Some(reply)) => Stage1View::Agreed(reply),
                Ok(None) => self.stage1_from(at.candidate as nat, at.attempt as nat + 1),
            },
        }
    }

    /// What the second stage does from the given attempt on.
    pub open spec fn stage2_from(self, local: SocketAddrV4, reply1: Reply1, attempt: nat)
        -> Stage2View {
        if attempt < self.max_retries {
            Stage2View::Send {
                at: Attempt2 { local, reply1, attempt: attempt as u32 },
                packet: request2_bytes(local, reply1.mtu, self.client_guid),
                wait: wait_share(self.timeout, self.max_retries as nat),
            }
        } else {
            Stage2View::Failed(
                "no Reply 2 (0x08) after "@ + text::decimal(self.max_retries as nat)
                    + " retries"@,
            )
        }
    }

    /// What the second stage does with a packet.
    pub open spec fn stage2_after(self, at: Attempt2, data: Seq<u8>) -> Stage2View {
        match rejection_of(data) {
            Err(m) => Stage2View::Failed(m),
            Ok(Some(r)) => Stage2View::Failed(rejected(r, self.protocol_version)),
            Ok(None) => match reply2_of(data) {
                Err(m) => Stage2View::Failed(m),
                Ok(Some(reply)) => Stage2View::Confirmed(reply),
                Ok(None) => self.stage2_from(at.local, at.reply1, at.attempt as nat + 1),
            },
        }
    }

    fn rejection_error(&self, r: HandshakeRejection) -> (e: PingError)
        ensures
            e.says(rejected(r, self.protocol_version)),
    {
        let reason = r.as_message(self.protocol_version);
        Message::new("handshake rejected: ").text(reason.as_str()).protocol()
    }

    fn stage1_at(&self, candidate: usize, attempt: u32) -> (r: Stage1Step)
        requires
            self.attempts_fit(),
            candidate <= self.mtu_candidates@.len(),
        ensures
            stage1_matches(r, self.stage1_from(candidate as nat, attempt as nat)),
            r matches Stage1Step::Send { at, .. } ==> self.makes(at),
    {
        let mut i: usize = candidate;
        let mut k: u32 = attempt;
        while i < self.mtu_candidates.len() && (self.mtu_candidates[i] < MIN_MTU || k
            >= self.max_retries)
            invariant
                i <= self.mtu_candidates@.len(),
                self.next_attempt(i as nat, k as nat) == self.next_attempt(
                    candidate as nat,
                    attempt as nat,
                ),
            decreases self.mtu_candidates@.len() - i,
        {
            i = i + 1;
            k = 0;
        }
        if i >= self.mtu_candidates.len() {
            return Stage1Step::Failed(protocol_error("all MTU candidates rejected"));
        }
        let mtu: u16 = self.mtu_candidates[i];
        proof {
            assert(self.mtu_candidates@[i as int] >= MIN_MTU);
            let n = self.mtu_candidates@.len();
            let m = self.max_retries as nat;
            assert(n * m <= u32::MAX && n * m > 0) by (nonlinear_arith)
                requires
                    n > 0,
                    m > 0,
                    n * m <= u32::MAX,
            ;
        }
        let attempts: u128 = self.mtu_candidates.len() as u128 * self.max_retries as u128;
        Stage1Step::Send {
            at: Attempt1 { candidate: i, attempt: k },
            packet: build_request1(self.protocol_version, mtu),
            wait: share_of(self.timeout, attempts),
        }
    }

    /// The first thing to do.
    pub fn stage1(&self) -> (r: Stage1Step)
        requires
            self.attempts_fit(),
        ensures
            stage1_matches(r, self.stage1_from(0, 0)),
            r matches Stage1Step::Send { at, .. } ==> self.makes(at),
    {
        self.stage1_at(0, 0)
    }

    /// What to do after a packet arrived.
    pub fn stage1_packet(&self, at: Attempt1, data: &[u8]) -> (r: Stage1Step)
        requires
            self.attempts_fit(),
            self.makes(at),
        ensures
            stage1_matches(r, self.stage1_after(at, data@)),
            r matches Stage1Step::Send { at, .. } ==> self.makes(at),
    {
        match classify_rejection(data) {
            Ok(Some(r)) => {
                return Stage1Step::Failed(self.rejection_error(r));
            },
            Err(e) => {
                return Stage1Step::Failed(e);
            },
            Ok(None) => {},
        }
        match parse_reply1(data) {
            Err(e) => Stage1Step::Failed(e),
            Ok(Some(reply)) => Stage1Step::Agreed(reply),
            Ok(None) => self.stage1_at(at.candidate, at.attempt + 1),
        }
    }

    /// What to do after the wait was over or receiving failed.
    pub fn stage1_silence(&self, at: Attempt1) -> (r: Stage1Step)
        requires
            self.attempts_fit(),
            self.makes(at),
        ensures
            stage1_matches(r, self.stage1_from(at.candidate as nat, at.attempt as nat + 1)),
            r matches Stage1Step::Send { at, .. } ==> self.makes(at),
    {
        self.stage1_at(at.candidate, at.attempt + 1)
    }

    fn stage2_at(&self, local: SocketAddrV4, reply1: Reply1, attempt: u32) -> (r: Stage2Step)
        ensures
            stage2_matches(r, self.stage2_from(local, reply1, attempt as nat)),
            r matches Stage2Step::Send { at, .. } ==> at.attempt < self.max_retries,
    {
        if attempt < self.max_retries {
            Stage2Step::Send {
                at: Attempt2 { local, reply1, attempt },
                packet: build_request2(local, reply1.mtu, self.client_guid),
                wait: share_of(self.timeout, self.max_retries as u128),
            }
        } else {
            Stage2Step::Failed(
                Message::new("no Reply 2 (0x08) after ").number(self.max_retries as u128).text(
                    " retries",
                ).protocol(),
            )
        }
    }

    /// The first thing to do in the second stage. The local address must be an IPv4 one.
    pub fn stage2(&self, local: &SocketAddr, reply1: Reply1) -> (r: Stage2Step)
        ensures
            match local {
                SocketAddr::V4(a) => stage2_matches(r, self.stage2_from(*a, reply1, 0)),
                SocketAddr::V6 { .. } => r matches Stage2Step::Failed(e) && e.says(
                    "local socket bound to IPv6 (handshake is IPv4-only)"@,
                ),
            },
            r matches Stage2Step::Send { at, .. } ==> at.attempt < self.max_retries,
    {
        match local {
            SocketAddr::V4(a) => self.stage2_at(*a, reply1, 0),
            SocketAddr::V6 { .. } => Stage2Step::Failed(
                protocol_error("local socket bound to IPv6 (handshake is IPv4-only)"),
            ),
        }
    }

    /// What to do after a packet arrived.
    pub fn stage2_packet(&self, at: Attempt2, data: &[u8]) -> (r: Stage2Step)
        requires
            at.attempt < self.max_retries,
        ensures
            stage2_matches(r, self.stage2_after(at, data@)),
            r matches Stage2Step::Send { at, .. } ==> at.attempt < self.max_retries,
    {
        match classify_rejection(data) {
            Ok(Some(r)) => {
                return Stage2Step::Failed(self.rejection_error(r));
            },
            Err(e) => {
                return Stage2Step::Failed(e);
            },
            Ok(None) => {},
        }
        match parse_reply2(data) {
            Err(e) => Stage2Step::Failed(e),
            Ok(Some(reply)) => Stage2Step::Confirmed(reply),
            Ok(None) => self.stage2_at(at.local, at.reply1, at.attempt + 1),
        }
    }

    /// What to do after the wait was over or receiving failed.
    pub fn stage2_silence(&self, at: Attempt2) -> (r: Stage2Step)
        requires
            at.attempt < self.max_retries,
        ensures
            stage2_matches(r, self.stage2_from(at.local, at.reply1, at.attempt as nat + 1)),
            r matches Stage2Step::Send { at, .. } ==> at.attempt < self.max_retries,
    {
        self.stage2_at(at.local, at.reply1, at.attempt + 1)
    }

    /// The server to talk to: the last of the addresses that the target resolved to, which must
    /// be an IPv4 one.
    pub fn server(&self, resolved: Vec<SocketAddr>) -> (r: Result<SocketAddrV4, PingError>)
        ensures
            r is Ok <==> chosen_server(resolved@) is Some,
            r matches Ok(a) ==> chosen_server(resolved@) == Some(a),
            match r {
                Ok(a) => resolved@.len() > 0 && resolved@.last() == SocketAddr::V4(a),
                Err(e) => if resolved@.len() == 0 {
                    e.says("to_socket_addrs returned no address"@)
                } else {
                    resolved@.last() is V6 && e.says(
                        "IPv6 server addresses are not supported by the handshake yet"@,
                    )
                },
            },
    {
        let mut addrs = resolved;
        match addrs.pop() {
            None => Err(protocol_error("to_socket_addrs returned no address")),
            Some(SocketAddr::V4(a)) => Ok(a),
            Some(SocketAddr::V6 { .. }) => Err(
                protocol_error("IPv6 server addresses are not supported by the handshake yet"),
            ),
        }
    }

    /// The session that the two replies establish; they must agree on the GUID and the MTU.
    pub fn establish(&self, server_addr: SocketAddrV4, reply1: Reply1, reply2: Reply2) -> (r:
        Result<Connection, PingError>)
        ensures
            r is Ok <==> agreed_session(self.client_guid, server_addr, reply1, reply2) is Some,
            r matches Ok(c) ==> agreed_session(self.client_guid, server_addr, reply1, reply2)
                == Some(c),
            match r {
                Ok(c) => reply2.mtu == reply1.mtu && reply2.server_guid == reply1.server_guid && c
                    == (Connection {
                    server_addr,
                    server_guid: reply2.server_guid,
                    mtu: reply2.mtu,
                    use_encryption: reply2.use_encryption,
                    client_guid: self.client_guid,
                }),
                Err(e) => (reply2.mtu != reply1.mtu || reply2.server_guid != reply1.server_guid)
                    && e.says(
                    "handshake parameters diverged between Reply 1 and Reply 2 (guid "@
                        + text::signed_decimal(reply1.server_guid as int) + "/"@
                        + text::signed_decimal(reply2.server_guid as int) + ", mtu "@
                        + text::decimal(reply1.mtu as nat) + "/"@ + text::decimal(
                        reply2.mtu as nat,
                    ) + ")"@,
                ),
            },
    {
        if reply2.mtu != reply1.mtu || reply2.server_guid != reply1.server_guid {
            return Err(
                Message::new(
                    "handshake parameters diverged between Reply 1 and Reply 2 (guid ",
                ).signed(reply1.server_guid).text("/").signed(reply2.server_guid).text(
                    ", mtu ",
                ).number(reply1.mtu as u128).text("/").number(reply2.mtu as u128).text(
                    ")",
                ).protocol(),
            );
        }
        Ok(
            Connection {
                server_addr,
                server_guid: reply2.server_guid,
                mtu: reply2.mtu,
                use_encryption: reply2.use_encryption,
                client_guid: self.client_guid,
            },
        )
    }
}

fn share_of(timeout: u128, attempts: u128) -> (r: u128)
    requires
        attempts > 0,
    ensures
        r == wait_share(timeout, attempts as nat),
{
    let share: u128 = timeout / attempts;
    proof {
        assert(share == timeout as nat / attempts as nat);
    }
    if share >= MIN_WAIT {
        share
    } else {
        MIN_WAIT
    }
}

// ==================== The session ====================

/// The parameters of an established session.
#[derive(Debug, Clone, Copy, PartialEq, Eq, Structural)]
pub struct Connection {
    pub server_addr: SocketAddrV4,
    pub server_guid: i64,
    pub mtu: u16,
    pub use_encryption: bool,
    pub client_guid: i64,
}

/// The packet of a datagram under an MTU, or why it cannot be sent.
pub open spec fn packet_for(d: datagram::DatagramView, mtu: u16) -> Result<Seq<u8>, Seq<char>> {
    let packet = datagram::datagram_bytes(d);
    match datagram::frames_error(d.frames) {
        Some(m) => Err(m),
        None => if packet.len() > mtu {
            Err(
                "datagram is "@ + text::decimal(packet.len())
                    + " bytes which exceeds the negotiated MTU of "@ + text::decimal(mtu as nat),
            )
        } else {
            Ok(packet)
        },
    }
}

/// How many bytes a session receives at most.
pub open spec fn receive_limit(mtu: u16) -> nat {
    (mtu + 1) as nat
}

impl Connection {
    /// A handshake configuration with the defaults.
    pub fn builder() -> (r: ConnectBuilder)
        ensures
            r.client_guid == 0,
            r.has_defaults(),
    {
        ConnectBuilder::default()
    }

    /// The server's GUID.
    pub fn server_guid(&self) -> (r: i64)
        ensures
            r == self.server_guid,
    {
        self.server_guid
    }

    /// The negotiated MTU.
    pub fn mtu(&self) -> (r: u16)
        ensures
            r == self.mtu,
    {
        self.mtu
    }

    /// Whether the server asked for encryption.
    pub fn use_encryption(&self) -> (r: bool)
        ensures
            r == self.use_encryption,
    {
        self.use_encryption
    }

    /// This client's GUID.
    pub fn client_guid(&self) -> (r: i64)
        ensures
            r == self.client_guid,
    {
        self.client_guid
    }

    /// The server's address.
    pub fn peer(&self) -> (r: SocketAddrV4)
        ensures
            r == self.server_addr,
    {
        self.server_addr
    }

    /// The packet of a datagram; it must not exceed the MTU.
    pub fn datagram_packet(&self, dg: &Datagram) -> (r: Result<Vec<u8>, PingError>)
        ensures
            match (r, packet_for(dg@, self.mtu)) {
                (Ok(b), Ok(v)) => b@ == v,
                (Err(e), Err(m)) => e.says(m),
                _ => false,
            },
    {
        let buf = dg.encode()?;
        if buf.len() > self.mtu as usize {
            return Err(
                Message::new("datagram is ").number(buf.len() as u128).text(
                    " bytes which exceeds the negotiated MTU of ",
                ).number(self.mtu as u128).protocol(),
            );
        }
        Ok(buf)
    }

    /// How many bytes to receive at most: one more than the MTU.
    pub fn receive_len(&self) -> (r: usize)
        ensures
            r == receive_limit(self.mtu),
            r == self.mtu + 1,
    {
        self.mtu as usize + 1
    }
}

// ==================== Laws ====================

impl ConnectBuilder {
    /// How many attempts the first stage makes from the given one on.
    pub open spec fn attempts_left(self, candidate: nat, attempt: nat) -> nat
        decreases self.mtu_candidates@.len() - candidate,
    {
        if candidate >= self.mtu_candidates@.len() {
            0
        } else if self.mtu_candidates@[candidate as int] < MIN_MTU || attempt
            >= self.max_retries {
            self.attempts_left(candidate + 1, 0)
        } else {
            (self.max_retries - attempt) as nat + self.attempts_left(candidate + 1, 0)
        }
    }
}

/// The first stage sends as long as attempts are left, every attempt uses one up, and with none
/// left it fails.
pub proof fn law_stage1_ends(b: ConnectBuilder, candidate: nat, attempt: nat)
    requires
        b.mtu_candidates@.len() <= usize::MAX,
    ensures
        b.attempts_left(candidate, attempt) == 0 <==> b.stage1_from(candidate, attempt) is Failed,
        b.stage1_from(candidate, attempt) matches Stage1View::Send { at, .. } ==> b.makes(at)
            && b.attempts_left(at.candidate as nat, at.attempt as nat + 1) + 1
            == b.attempts_left(candidate, attempt),
    decreases b.mtu_candidates@.len() - candidate,
{
    if candidate < b.mtu_candidates@.len() {
        if b.mtu_candidates@[candidate as int] < MIN_MTU || attempt >= b.max_retries {
            law_stage1_ends(b, candidate + 1, 0);
        } else {
            assert(b.next_attempt(candidate, attempt) == Some(
                Attempt1 { candidate: candidate as usize, attempt: attempt as u32 },
            ));
        }
    }
}

/// The first stage sends at most as often as there are candidates times retries.
pub proof fn law_stage1_is_bounded(b: ConnectBuilder, candidate: nat)
    requires
        candidate <= b.mtu_candidates@.len(),
    ensures
        b.attempts_left(candidate, 0) <= (b.mtu_candidates@.len() - candidate) * b.max_retries,
    decreases b.mtu_candidates@.len() - candidate,
{
    let n = b.mtu_candidates@.len() - candidate;
    let m = b.max_retries as int;
    if n > 0 {
        law_stage1_is_bounded(b, candidate + 1);
        assert(n * m == (n - 1) * m + m) by (nonlinear_arith);
        assert(n * m >= 0) by (nonlinear_arith)
            requires
                n >= 0,
                m >= 0,
        ;
    } else {
        assert(n * m == 0) by (nonlinear_arith)
            requires
                n == 0,
        ;
    }
}

/// A rejection ends either stage at once, with its explanation; a malformed one ends it too.
pub proof fn law_rejection_ends_the_handshake(
    b: ConnectBuilder,
    at1: Attempt1,
    at2: Attempt2,
    data: Seq<u8>,
)
    ensures
        rejection_of(data) matches Ok(Some(r)) ==> b.stage1_after(at1, data) == Stage1View::Failed(
            rejected(r, b.protocol_version),
        ) && b.stage2_after(at2, data) == Stage2View::Failed(rejected(r, b.protocol_version)),
        rejection_of(data) matches Err(m) ==> b.stage1_after(at1, data) == Stage1View::Failed(m)
            && b.stage2_after(at2, data) == Stage2View::Failed(m),
{
}

/// A reply is no rejection, and a rejection, malformed or not, is no reply.
pub proof fn law_replies_are_not_rejections(data: Seq<u8>)
    ensures
        rejection_of(data) != Ok::<Option<HandshakeRejection>, Seq<char>>(None) ==> reply1_of(data)
            == Ok::<Option<Reply1>, Seq<char>>(None) && reply2_of(data) == Ok::<
            Option<Reply2>,
            Seq<char>,
        >(None),
{
}

/// A Request 1 on the wire: the byte 5, the magic, the protocol version at offset 17, and zeros up
/// to the length that is tried.
pub proof fn law_request1_layout(protocol_version: u8, mtu: u16)
    ensures
        ({
            let p = request1_bytes(protocol_version, mtu);
            &&& p.len() == (if mtu < 18 {
                18
            } else {
                mtu as int
            })
            &&& p[0] == 0x05
            &&& p.subrange(1, 17) == MAGIC@
            &&& p[17] == protocol_version
            &&& forall|i: int| 18 <= i < p.len() ==> #[trigger] p[i] == 0
        }),
{
    let p = request1_bytes(protocol_version, mtu);
    assert(p.subrange(1, 17) =~= MAGIC@);
}

/// A Request 2 on the wire: the byte 7, the magic, the client's address at offset 17, the MTU at 24
/// and the client's GUID at 26.
pub proof fn law_request2_layout(client_addr: SocketAddrV4, mtu: u16, client_guid: i64)
    ensures
        ({
            let p = request2_bytes(client_addr, mtu, client_guid);
            &&& p.len() == 34
            &&& p[0] == 0x07
            &&& p.subrange(1, 17) == MAGIC@
            &&& raknet::ipv4_of_bytes(p.subrange(17, 24)) == Ok::<SocketAddrV4, Seq<char>>(
                client_addr,
            )
            &&& bytes::u16_at(p, 24) == mtu
            &&& bytes::i64_at(p, 26) == client_guid
        }),
{
    let p = request2_bytes(client_addr, mtu, client_guid);
    let head = seq![ID_OPEN_CONN_REQ_2] + MAGIC@ + raknet::ipv4_bytes(client_addr);
    let m = bytes::be16(mtu);
    let g = bytes::be64(bytes::i64_bits(client_guid));
    assert(p =~= head + m + g);
    bytes::lemma_be16_round_trip(mtu, head, g);
    assert(p =~= (head + m) + g + Seq::<u8>::empty());
    bytes::lemma_be64_round_trip(client_guid, head + m, Seq::empty());
    assert(p.subrange(1, 17) =~= MAGIC@);
    assert(p.subrange(17, 24) =~= raknet::ipv4_bytes(client_addr));
    raknet::law_ipv4_round_trip(client_addr);
}

/// An attempt waits for half a second at least; all attempts together wait no longer than the
/// timeout, unless each waits that least time, and not so short that they could wait longer.
pub proof fn law_wait_share(timeout: u128, attempts: nat)
    requires
        attempts > 0,
    ensures
        wait_share(timeout, attempts) >= 500_000_000,
        wait_share(timeout, attempts) == 500_000_000 || wait_share(timeout, attempts) * attempts
            <= timeout,
        timeout < (wait_share(timeout, attempts) + 1) * attempts,
{
    let t = timeout as int;
    let n = attempts as int;
    let share = t / n;
    vstd::arithmetic::div_mod::lemma_fundamental_div_mod(t, n);
    vstd::arithmetic::div_mod::lemma_mod_bound(t, n);
    assert(0 <= share <= t) by (nonlinear_arith)
        requires
            t == n * share + t % n,
            0 <= t % n < n,
            n > 0,
            t >= 0,
    ;
    assert(share * n <= t && t < (share + 1) * n) by (nonlinear_arith)
        requires
            t == n * share + t % n,
            0 <= t % n < n,
    ;
    let w = wait_share(timeout, attempts) as int;
    assert((share + 1) * n <= (w + 1) * n) by (nonlinear_arith)
        requires
            share <= w,
            n > 0,
    ;
}

/// What the first stage sends next: a Request 1 as long as the MTU that it tries. Candidates below
/// 46 bytes are left out, the others are tried in order, each as often as there are retries; it
/// fails exactly when none of that is left.
pub proof fn law_first_stage_request(b: ConnectBuilder, candidate: nat, attempt: nat)
    requires
        b.mtu_candidates@.len() <= usize::MAX,
    ensures
        match b.stage1_from(candidate, attempt) {
            Stage1View::Send { at, packet, wait } => {
                let mtu = b.mtu_candidates@[at.candidate as int];
                &&& candidate <= at.candidate < b.mtu_candidates@.len()
                &&& mtu >= 46
                &&& packet.len() == mtu
                &&& packet[0] == 0x05
                &&& packet.subrange(1, 17) == MAGIC@
                &&& packet[17] == b.protocol_version
                &&& at.attempt < b.max_retries
                &&& at.candidate == candidate ==> at.attempt == attempt
                &&& at.candidate > candidate ==> at.attempt == 0
                &&& at.candidate > candidate ==> b.mtu_candidates@[candidate as int] < 46
                    || attempt >= b.max_retries
                &&& forall|c: int|
                    candidate < c < at.candidate ==> #[trigger] b.mtu_candidates@[c] < 46
            },
            Stage1View::Agreed(_) => false,
            Stage1View::Failed(_) => b.max_retries == 0 || forall|c: int|
                candidate <= c < b.mtu_candidates@.len() ==> #[trigger] b.mtu_candidates@[c] < 46
                    || c == candidate && attempt >= b.max_retries,
        },
    decreases b.mtu_candidates@.len() - candidate,
{
    if candidate < b.mtu_candidates@.len() {
        if b.mtu_candidates@[candidate as int] < MIN_MTU || attempt >= b.max_retries {
            law_first_stage_request(b, candidate + 1, 0);
            assert(b.stage1_from(candidate, attempt) == b.stage1_from(candidate + 1, 0));
        } else {
            law_request1_layout(b.protocol_version, b.mtu_candidates@[candidate as int]);
            assert(b.next_attempt(candidate, attempt) == Some(
                Attempt1 { candidate: candidate as usize, attempt: attempt as u32 },
            ));
        }
    }
}

/// The attempts of the first stage share the timeout: each waits half a second at least, and all
/// together no longer than the timeout unless each waits that least time.
pub proof fn law_first_stage_wait(b: ConnectBuilder, candidate: nat, attempt: nat)
    requires
        b.mtu_candidates@.len() <= usize::MAX,
    ensures
        b.stage1_from(candidate, attempt) matches Stage1View::Send { wait, .. } ==> {
            let all = b.mtu_candidates@.len() * b.max_retries;
            &&& wait >= 500_000_000
            &&& wait == 500_000_000 || wait * all <= b.timeout
            &&& b.timeout < (wait + 1) * all
        },
{
    law_first_stage_request(b, candidate, attempt);
    if b.stage1_from(candidate, attempt) is Send {
        let n = b.mtu_candidates@.len();
        let m = b.max_retries as nat;
        assert(n * m > 0) by (nonlinear_arith)
            requires
                n > 0,
                m > 0,
        ;
        law_wait_share(b.timeout, n * m);
    }
}

/// What the second stage sends, in every attempt: a Request 2 with the local address, the MTU of
/// the Reply 1 that the first stage ended with, and this client's GUID. It does so as often as
/// there are retries, and then fails.
pub proof fn law_second_stage_request(
    b: ConnectBuilder,
    local: SocketAddrV4,
    reply1: Reply1,
    attempt: nat,
)
    ensures
        match b.stage2_from(local, reply1, attempt) {
            Stage2View::Send { at, packet, wait } => {
                &&& attempt < b.max_retries
                &&& at.local == local
                &&& at.reply1 == reply1
                &&& at.attempt == attempt
                &&& packet.len() == 34
                &&& packet[0] == 0x07
                &&& packet.subrange(1, 17) == MAGIC@
                &&& raknet::ipv4_of_bytes(packet.subrange(17, 24)) == Ok::<
                    SocketAddrV4,
                    Seq<char>,
                >(local)
                &&& bytes::u16_at(packet, 24) == reply1.mtu
                &&& bytes::i64_at(packet, 26) == b.client_guid
                &&& wait >= 500_000_000
                &&& wait == 500_000_000 || wait * b.max_retries <= b.timeout
                &&& b.timeout < (wait + 1) * b.max_retries
            },
            Stage2View::Confirmed(_) => false,
            Stage2View::Failed(_) => attempt >= b.max_retries,
        },
{
    law_request2_layout(local, reply1.mtu, b.client_guid);
    if attempt < b.max_retries {
        law_wait_share(b.timeout, b.max_retries as nat);
    }
}

/// What is neither a reply of its kind nor a rejection leads to the next attempt, in either stage;
/// the second one asks for the same again.
pub proof fn law_other_packets_are_ignored(
    b: ConnectBuilder,
    at1: Attempt1,
    at2: Attempt2,
    data: Seq<u8>,
)
    requires
        data.len() == 0 || data[0] < 0x06 || data[0] > 0x0c,
    ensures
        b.stage1_after(at1, data) == b.stage1_from(at1.candidate as nat, at1.attempt as nat + 1),
        b.stage2_after(at2, data) is Send <==> at2.attempt + 1 < b.max_retries,
        b.stage2_after(at2, data) matches Stage2View::Send { at, packet, .. } ==> {
            &&& at.local == at2.local
            &&& at.reply1 == at2.reply1
            &&& at.attempt == at2.attempt + 1
            &&& bytes::u16_at(packet, 24) == at2.reply1.mtu
        },
        b.stage2_after(at2, data) is Send || b.stage2_after(at2, data) is Failed,
{
    law_second_stage_request(b, at2.local, at2.reply1, at2.attempt as nat + 1);
}

/// When a packet is a Reply 1, and what it says.
pub proof fn law_reply1_is_understood(data: Seq<u8>)
    ensures
        (reply1_of(data) matches Ok(r) && r is Some) <==> data.len() >= 28 && data[0] == 0x06
            && data.subrange(1, 17) == MAGIC@,
        (reply1_of(data) matches Ok(r) && r is None) <==> data.len() == 0 || data[0] != 0x06,
        reply1_of(data) matches Ok(Some(r)) ==> {
            &&& r.server_guid == bytes::i64_at(data, 17)
            &&& r.use_encryption <==> data[25] != 0
            &&& r.mtu == data[26] * 256 + data[27]
        },
{
    bytes::law_digits_are_read(data, 26);
}

/// When a packet is a Reply 2, and what it says.
pub proof fn law_reply2_is_understood(data: Seq<u8>)
    ensures
        (reply2_of(data) matches Ok(r) && r is Some) <==> data.len() >= 35 && data[0] == 0x08
            && data.subrange(1, 17) == MAGIC@ && data[25] == 4,
        (reply2_of(data) matches Ok(r) && r is None) <==> data.len() == 0 || data[0] != 0x08,
        reply2_of(data) matches Ok(Some(r)) ==> {
            &&& r.server_guid == bytes::i64_at(data, 17)
            &&& r.client_addr == (SocketAddrV4 {
                a: data[26],
                b: data[27],
                c: data[28],
                d: data[29],
                port: bytes::u16_at(data, 30),
            })
            &&& r.mtu == data[32] * 256 + data[33]
            &&& r.use_encryption <==> data[34] != 0
        },
{
    bytes::law_digits_are_read(data, 30);
    bytes::law_digits_are_read(data, 32);
    if data.len() >= 32 {
        let part = data.subrange(25, 32);
        raknet::law_ipv4_layout(SocketAddrV4 { a: 0, b: 0, c: 0, d: 0, port: 0 }, part);
        assert(part[0] == data[25] && part[1] == data[26] && part[2] == data[27]);
        assert(part[3] == data[28] && part[4] == data[29]);
        assert(part[5] == data[30] && part[6] == data[31]);
    }
}

/// When a packet is a rejection, and which one.
pub proof fn law_rejection_is_understood(data: Seq<u8>)
    ensures
        (rejection_of(data) matches Ok(r) && r is Some) <==> data.len() >= 17 && data.subrange(
            1,
            17,
        ) == MAGIC@ && (data[0] == 0x09 && data.len() >= 18 || 0x0a <= data[0] <= 0x0c),
        rejection_of(data) is Err <==> data.len() == 17 && data[0] == 0x09 && data.subrange(1, 17)
            == MAGIC@,
        rejection_of(data) matches Ok(Some(r)) ==> match r {
            HandshakeRejection::IncompatibleProtocol { server_protocol } => data[0] == 0x09
                && server_protocol == data[17],
            HandshakeRejection::IpBanned => data[0] == 0x0a,
            HandshakeRejection::AlreadyConnected => data[0] == 0x0b,
            HandshakeRejection::NoFreeIncomingConnections => data[0] == 0x0c,
        },
{
}

/// A server that answers a Request 2 with a Reply 2 that echoes the MTU of the request, and that
/// names the GUID of its Reply 1, confirms what it replied before: the two replies establish a
/// session.
pub proof fn law_echoed_mtu_is_agreed(
    b: ConnectBuilder,
    local: SocketAddrV4,
    reply1: Reply1,
    attempt: nat,
    data: Seq<u8>,
    server_addr: SocketAddrV4,
)
    requires
        attempt < b.max_retries,
        data.len() >= 35,
        data[0] == 0x08,
        data.subrange(1, 17) == MAGIC@,
        data[25] == 4,
        bytes::i64_at(data, 17) == reply1.server_guid,
        b.stage2_from(local, reply1, attempt) matches Stage2View::Send { packet, .. }
            && data.subrange(32, 34) == packet.subrange(24, 26),
    ensures
        b.stage2_from(local, reply1, attempt) matches Stage2View::Send { at, .. }
            && b.stage2_after(at, data) matches Stage2View::Confirmed(reply2) && reply2.mtu
            == reply1.mtu && reply2.server_guid == reply1.server_guid && agreed_session(
            b.client_guid,
            server_addr,
            reply1,
            reply2,
        ) is Some,
{
    law_second_stage_request(b, local, reply1, attempt);
    law_reply2_is_understood(data);
    let packet = b.stage2_from(local, reply1, attempt)->packet;
    bytes::law_digits_are_read(packet, 24);
    assert(packet.subrange(24, 26)[0] == packet[24] && packet.subrange(24, 26)[1] == packet[25]);
    assert(data.subrange(32, 34)[0] == data[32] && data.subrange(32, 34)[1] == data[33]);
    law_rejection_is_understood(data);
}

/// A reply completes its stage with what it says, and a malformed one ends the handshake.
pub proof fn law_replies_complete(
    b: ConnectBuilder,
    at1: Attempt1,
    at2: Attempt2,
    data: Seq<u8>,
)
    requires
        data.len() > 0,
    ensures
        data[0] == 0x06 ==> (match reply1_of(data) {
            Ok(Some(r)) => b.stage1_after(at1, data) == Stage1View::Agreed(r),
            Ok(None) => false,
            Err(m) => b.stage1_after(at1, data) == Stage1View::Failed(m),
        }),
        data[0] == 0x08 ==> (match reply2_of(data) {
            Ok(Some(r)) => b.stage2_after(at2, data) == Stage2View::Confirmed(r),
            Ok(None) => false,
            Err(m) => b.stage2_after(at2, data) == Stage2View::Failed(m),
        }),
        data[0] == 0x06 ==> b.stage2_after(at2, data) == b.stage2_from(
            at2.local,
            at2.reply1,
            at2.attempt as nat + 1,
        ),
        data[0] == 0x08 ==> b.stage1_after(at1, data) == b.stage1_from(
            at1.candidate as nat,
            at1.attempt as nat + 1,
        ),
{
    law_rejection_is_understood(data);
}

/// A packet that a session sends is no longer than its MTU and is read back as the datagram; every
/// datagram whose packet is that short is sent.
pub proof fn law_packet_fits(d: datagram::DatagramView, mtu: u16)
    requires
        d.sequence_number < 0x100_0000,
        datagram::frames_valid(d.frames),
    ensures
        packet_for(d, mtu) is Ok <==> datagram::datagram_bytes(d).len() <= mtu,
        packet_for(d, mtu) matches Ok(p) ==> p.len() <= mtu && datagram::incoming_of(p) == Ok::<
            datagram::IncomingView,
            Seq<char>,
        >(datagram::IncomingView::Datagram(d)),
{
    datagram::law_frames_error(d.frames);
    datagram::law_classify_datagram(d);
}

/// A session is established exactly if the two replies agree on the GUID and the MTU. It is one with
/// that server under that MTU, as this client, and it is encrypted as the second reply says.
pub proof fn law_session_is_agreed(
    client_guid: i64,
    server_addr: SocketAddrV4,
    reply1: Reply1,
    reply2: Reply2,
)
    ensures
        agreed_session(client_guid, server_addr, reply1, reply2) is None <==> reply1.mtu
            != reply2.mtu || reply1.server_guid != reply2.server_guid,
        agreed_session(client_guid, server_addr, reply1, reply2) matches Some(c) ==> {
            &&& c.server_addr == server_addr
            &&& c.mtu == reply1.mtu
            &&& c.server_guid == reply1.server_guid
            &&& c.use_encryption == reply2.use_encryption
            &&& c.client_guid == client_guid
        },
{
}

/// The server is the last of the addresses that a target resolved to, whatever those before it are;
/// it must be an IPv4 one.
pub proof fn law_last_address_is_chosen(before: Seq<SocketAddr>, a: SocketAddrV4, v6: SocketAddr)
    requires
        v6 is V6,
    ensures
        chosen_server(before.push(SocketAddr::V4(a))) == Some(a),
        chosen_server(before.push(v6)) is None,
        chosen_server(Seq::empty()) is None,
{
    assert(before.push(SocketAddr::V4(a)).last() == SocketAddr::V4(a));
    assert(before.push(v6).last() == v6);
}

/// A configuration has these defaults: protocol version 11, MTUs of 1492, 1200 and 576 bytes, three
/// retries and ten seconds.
pub proof fn law_defaults(b: ConnectBuilder)
    requires
        b.has_defaults(),
    ensures
        b.protocol_version == 11,
        b.mtu_candidates@.len() == 3,
        b.mtu_candidates@[0] == 1492 && b.mtu_candidates@[1] == 1200 && b.mtu_candidates@[2] == 576,
        b.timeout == 10_000_000_000,
        b.max_retries == 3,
        b.attempts_fit(),
{
}

/// What is said of a reply that ends early: how much was read and how much remains, which together
/// is what there is, and that more is needed than remains.
pub proof fn law_short_replies(data: Seq<u8>)
    requires
        data.len() >= 17,
        data.subrange(1, 17) == MAGIC@,
    ensures
        data[0] == 0x06 && data.len() < 28 ==> exists|consumed: int, need: int|
            reply1_of(data) == Err::<Option<Reply1>, Seq<char>>(
                #[trigger] raknet::too_short("Reply 1"@, consumed, data.len() - consumed, need),
            ) && 17 <= consumed <= data.len() && data.len() - consumed < need <= 8,
        data[0] == 0x08 && data.len() < 32 ==> exists|consumed: int, need: int|
            reply2_of(data) == Err::<Option<Reply2>, Seq<char>>(
                #[trigger] raknet::too_short("Reply 2"@, consumed, data.len() - consumed, need),
            ) && 17 <= consumed <= data.len() && data.len() - consumed < need <= 8,
{
    let n = data.len() as int;
    if data[0] == 0x06 && n < 28 {
        let (consumed, need): (int, int) = if n < 25 {
            (17, 8)
        } else if n < 26 {
            (25, 1)
        } else {
            (26, 2)
        };
        assert(reply1_of(data) == Err::<Option<Reply1>, Seq<char>>(
            raknet::too_short("Reply 1"@, consumed, n - consumed, need),
        ));
    }
    if data[0] == 0x08 && n < 32 {
        let (consumed, need): (int, int) = if n < 25 {
            (17, 8)
        } else {
            (25, 7)
        };
        assert(reply2_of(data) == Err::<Option<Reply2>, Seq<char>>(
            raknet::too_short("Reply 2"@, consumed, n - consumed, need),
        ));
    }
}

/// What is said of a client of another version: the server's version, and then the client's.
pub proof fn law_versions_are_named(server_protocol: u8, client_protocol: u8)
    ensures
        ({
            let r = HandshakeRejection::IncompatibleProtocol { server_protocol };
            &&& text::shows(
                rejection_text(r, client_protocol),
                seq![server_protocol as nat, client_protocol as nat],
            )
            &&& text::shows(
                rejected(r, client_protocol),
                seq![server_protocol as nat, client_protocol as nat],
            )
        }),
{
    reveal_strlit("handshake rejected: ");
    reveal_strlit("incompatible protocol version (server=");
    reveal_strlit(", client=");
    reveal_strlit(")");
    let r = HandshakeRejection::IncompatibleProtocol { server_protocol };
    let a = "incompatible protocol version (server="@;
    let b = ", client="@;
    text::lemma_shows_two(a, server_protocol as nat, b, client_protocol as nat, ")"@);
    text::lemma_shows_two(
        "handshake rejected: "@ + a,
        server_protocol as nat,
        b,
        client_protocol as nat,
        ")"@,
    );
    assert(rejected(r, client_protocol) =~= "handshake rejected: "@ + a + text::decimal(
        server_protocol as nat,
    ) + b + text::decimal(client_protocol as nat) + ")"@);
}

/// The reasons of a server that refuses are told apart, and each is given behind the same words.
pub proof fn law_reasons_differ(client_protocol: u8)
    ensures
        ({
            let banned = rejection_text(HandshakeRejection::IpBanned, client_protocol);
            let connected = rejection_text(HandshakeRejection::AlreadyConnected, client_protocol);
            let full = rejection_text(
                HandshakeRejection::NoFreeIncomingConnections,
                client_protocol,
            );
            &&& banned != connected && banned != full && connected != full
            &&& rejected(HandshakeRejection::IpBanned, client_protocol)
                == "handshake rejected: "@ + banned
            &&& rejected(HandshakeRejection::AlreadyConnected, client_protocol)
                == "handshake rejected: "@ + connected
            &&& rejected(HandshakeRejection::NoFreeIncomingConnections, client_protocol)
                == "handshake rejected: "@ + full
        }),
{
    reveal_strlit("client IP was recently banned");
    reveal_strlit("already connected");
    reveal_strlit("no free incoming connections (server full)");
    assert("client IP was recently banned"@.len() == 29);
    assert("already connected"@.len() == 17);
    assert("no free incoming connections (server full)"@.len() == 42);
}

/// What is said of a datagram that is too long: its length, and then the MTU.
pub proof fn law_too_long_says(d: datagram::DatagramView, mtu: u16)
    requires
        datagram::frames_error(d.frames) is None,
        datagram::datagram_bytes(d).len() > mtu,
    ensures
        packet_for(d, mtu) matches Err(m) && text::shows(
            m,
            seq![datagram::datagram_bytes(d).len(), mtu as nat],
        ),
{
    reveal_strlit("datagram is ");
    reveal_strlit(" bytes which exceeds the negotiated MTU of ");
    let n = datagram::datagram_bytes(d).len();
    let b = " bytes which exceeds the negotiated MTU of "@;
    text::lemma_shows_two("datagram is "@, n, b, mtu as nat, seq![]);
    let m = "datagram is "@ + text::decimal(n) + b + text::decimal(mtu as nat);
    assert(m + Seq::<char>::empty() =~= m);
}

/// When a configuration can be tried: there is nothing to try, or the number of all attempts fits in
/// 32 bits.
pub proof fn law_attempts_fit(b: ConnectBuilder)
    ensures
        b.mtu_candidates@.len() * b.max_retries <= 0xffff_ffff ==> b.attempts_fit(),
        b.max_retries == 0 ==> b.attempts_fit(),
        (forall|i: int| 0 <= i < b.mtu_candidates@.len() ==> #[trigger] b.mtu_candidates@[i] < 46)
            ==> b.attempts_fit(),
        b.attempts_fit() && b.stage1_from(0, 0) is Send ==> b.mtu_candidates@.len() * b.max_retries
            <= 0xffff_ffff,
{
    if b.stage1_from(0, 0) is Send && b.attempts_fit() {
        assert(b.mtu_candidates@.len() <= usize::MAX) by {
            assert(b.mtu_candidates@.len() == b.mtu_candidates.len());
        }
        law_first_stage_request(b, 0, 0);
        let at = b.stage1_from(0, 0)->Send_at;
        assert(b.mtu_candidates@[at.candidate as int] >= MIN_MTU);
    }
}

/// A session receives every datagram that another may send under the same MTU, and one that is
/// longer is seen to be: it fills all that is received, which no datagram within the MTU does.
pub proof fn law_receive_limit(d: datagram::DatagramView, mtu: u16)
    ensures
        packet_for(d, mtu) matches Ok(p) ==> p.len() < receive_limit(mtu),
        receive_limit(mtu) == mtu + 1,
{
}

} // verus!
