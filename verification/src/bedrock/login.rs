//! Offline login: the login stage's game packets and the chain of unsigned tokens that a Login
//! packet carries.
//!
//! ```text
//! Client -> Server:  RequestNetworkSettings
//! Server -> Client:  NetworkSettings
//! Client -> Server:  Login
//! Server -> Client:  PlayStatus
//! ```
//!
//! A server that wants encryption answers a Login with `ServerToClientHandshake` instead; see
//! [`ServerHandshake`].
use vstd::prelude::*;
use vstd::slice::slice_subrange;
use vstd::utf8::{decode_utf8, encode_utf8, valid_utf8};

use crate::base64url;
use crate::bedrock::protocol;
use crate::bedrock::protocol::{GamePacket, GameView, ID_LOGIN, ID_REQUEST_NETWORK_SETTINGS};
use crate::bytes;
use crate::error::PingError;
use crate::json;
use crate::json::Json;
use crate::leb128;
use crate::text;
use crate::text::{protocol_error, Message};

pub use crate::bedrock::play_status;

verus! {

// ==================== Login-stage packets ====================

/// `RequestNetworkSettings`, sent by the client: the protocol version as a folded number.
#[derive(Debug, Clone, Copy, PartialEq, Eq)]
pub struct RequestNetworkSettings {
    pub protocol: i32,
}

/// The protocol version that a RequestNetworkSettings payload names.
pub open spec fn requested_version(data: Seq<u8>) -> Result<i32, Seq<char>> {
    match protocol::varuint32_of(data) {
        Ok((z, _)) => Ok(protocol::unzigzag(z)),
        Err(m) => Err(m),
    }
}

impl RequestNetworkSettings {
    /// Encodes the payload, without the packet ID.
    pub fn encode_payload(&self) -> (r: Vec<u8>)
        ensures
            r@ == leb128::leb(protocol::zigzag(self.protocol) as nat),
    {
        protocol::write_varint32(self.protocol)
    }

    /// Decodes the payload.
    pub fn decode_payload(data: &[u8]) -> (r: Result<RequestNetworkSettings, PingError>)
        ensures
            match (r, requested_version(data@)) {
                (Ok(p), Ok(v)) => p.protocol == v,
                (Err(e), Err(m)) => e.says(m),
                _ => false,
            },
            match (r, protocol::varuint32_of(data@)) {
                (Ok(p), Ok(u)) => p.protocol == protocol::unzigzag(u.0),
                (Err(e), Err(m)) => e.says(m),
                _ => false,
            },
    {
        let (protocol, _n) = protocol::read_varint32(data)?;
        Ok(RequestNetworkSettings { protocol })
    }
}

/// `NetworkSettings`, sent by the server: `threshold(u16) | algorithm(u16) | throttle(bool) |
/// throttle_threshold(u8) | throttle_scalar(4 bytes)`, most significant bytes first.
#[derive(Debug, Clone, Copy, PartialEq, Eq)]
pub struct NetworkSettings {
    /// The size from which batches are compressed.
    pub compression_threshold: u16,
    /// The compression algorithm.
    pub compression_algorithm: u16,
    /// Whether clients are throttled.
    pub client_throttle: bool,
    /// The number of players from which clients are throttled.
    pub client_throttle_threshold: u8,
    /// The bits of the throttle scalar, a single-precision number.
    pub client_throttle_scalar: u32,
}

/// What a NetworkSettings payload holds.
pub open spec fn network_settings_of(data: Seq<u8>) -> Result<NetworkSettings, Seq<char>> {
    if data.len() < 10 {
        Err("NetworkSettings needs 10 bytes, got "@ + text::decimal(data.len()))
    } else {
        Ok(
            NetworkSettings {
                compression_threshold: bytes::u16_at(data, 0),
                compression_algorithm: bytes::u16_at(data, 2),
                client_throttle: data[4] != 0,
                client_throttle_threshold: data[5],
                client_throttle_scalar: bytes::u32_at(data, 6),
            },
        )
    }
}

impl Default for NetworkSettings {
    fn default() -> (r: NetworkSettings)
        ensures
            r == (NetworkSettings {
                compression_threshold: 0,
                compression_algorithm: protocol::COMPRESSION_FLATE,
                client_throttle: false,
                client_throttle_threshold: 0,
                client_throttle_scalar: 0,
            }),
    {
        NetworkSettings {
            compression_threshold: 0,
            compression_algorithm: protocol::COMPRESSION_FLATE,
            client_throttle: false,
            client_throttle_threshold: 0,
            client_throttle_scalar: 0,
        }
    }
}

impl NetworkSettings {
    /// Decodes the payload.
    pub fn decode_payload(data: &[u8]) -> (r: Result<NetworkSettings, PingError>)
        ensures
            crate::error::agrees(r, network_settings_of(data@)),
    {
        if data.len() < 10 {
            return Err(
                Message::new("NetworkSettings needs 10 bytes, got ").number(
                    data.len() as u128,
                ).protocol(),
            );
        }
        Ok(
            NetworkSettings {
                compression_threshold: bytes::get_u16(data, 0),
                compression_algorithm: bytes::get_u16(data, 2),
                client_throttle: data[4] != 0,
                client_throttle_threshold: data[5],
                client_throttle_scalar: bytes::get_u32(data, 6),
            },
        )
    }
}

/// `PlayStatus`, sent by the server: `status(i32)`, most significant byte first.
#[derive(Debug, Clone, Copy, PartialEq, Eq)]
pub struct PlayStatus {
    /// One of the values in [`play_status`], or another.
    pub status: i32,
}

/// The signed number at the start of `data`.
pub open spec fn i32_of(data: Seq<u8>, what: Seq<char>) -> Result<i32, Seq<char>> {
    if data.len() < 4 {
        Err(what + ": need 4 bytes, got "@ + text::decimal(data.len()))
    } else {
        Ok(bytes::i32_of_bits(bytes::u32_at(data, 0)))
    }
}

fn read_i32_be(data: &[u8], what: &str) -> (r: Result<i32, PingError>)
    ensures
        crate::error::agrees(r, i32_of(data@, what@)),
{
    if data.len() < 4 {
        return Err(
            Message::new(what).text(": need 4 bytes, got ").number(data.len() as u128).protocol(),
        );
    }
    Ok(bytes::i32_from_bits(bytes::get_u32(data, 0)))
}

impl PlayStatus {
    /// Decodes the payload.
    pub fn decode_payload(data: &[u8]) -> (r: Result<PlayStatus, PingError>)
        ensures
            match (r, i32_of(data@, "PlayStatus.status"@)) {
                (Ok(p), Ok(v)) => p.status == v,
                (Err(e), Err(m)) => e.says(m),
                _ => false,
            },
    {
        let status: i32 = read_i32_be(data, "PlayStatus.status")?;
        Ok(PlayStatus { status })
    }
}

/// What a RequestNetworkSettings packet holds.
pub open spec fn settings_request(protocol: i32) -> GameView {
    GameView {
        id: ID_REQUEST_NETWORK_SETTINGS,
        payload: leb128::leb(protocol::zigzag(protocol) as nat),
    }
}

/// What a Login packet holds.
pub open spec fn login_view(protocol: i32, connection_request: Seq<u8>) -> GameView {
    GameView { id: ID_LOGIN, payload: login_payload(protocol, connection_request) }
}

/// A RequestNetworkSettings packet.
pub fn request_network_settings_packet(protocol: i32) -> (r: GamePacket)
    ensures
        r@ == settings_request(protocol),
        r@ == (GameView {
            id: ID_REQUEST_NETWORK_SETTINGS,
            payload: leb128::leb(protocol::zigzag(protocol) as nat),
        }),
{
    GamePacket::new(
        ID_REQUEST_NETWORK_SETTINGS,
        RequestNetworkSettings { protocol }.encode_payload(),
    )
}

/// What a Login packet carries: the protocol version, and the connection request behind its
/// length. The length field holds 32 bits.
pub open spec fn login_payload(protocol: i32, connection_request: Seq<u8>) -> Seq<u8> {
    leb128::leb(protocol::zigzag(protocol) as nat) + counted(connection_request)
}

/// Bytes behind their length, which holds 32 bits.
pub open spec fn counted(data: Seq<u8>) -> Seq<u8> {
    leb128::leb(data.len() % 0x1_0000_0000) + data
}

fn push_counted(buf: &mut Vec<u8>, data: &[u8])
    ensures
        final(buf)@ == old(buf)@ + counted(data@),
{
    let len: u64 = (data.len() as u64) % 0x1_0000_0000;
    leb128::push_leb(buf, len);
    bytes::extend(buf, data);
    assert(buf@ == old(buf)@ + counted(data@));
}

/// A Login packet.
pub fn login_packet(protocol: i32, connection_request: Vec<u8>) -> (r: GamePacket)
    ensures
        r@ == login_view(protocol, connection_request@),
        r@ == (GameView {
            id: ID_LOGIN,
            payload: login_payload(protocol, connection_request@),
        }),
{
    let mut payload = protocol::write_varint32(protocol);
    push_counted(&mut payload, connection_request.as_slice());
    GamePacket::new(ID_LOGIN, payload)
}

// ==================== Tokens ====================

/// The two encoded parts of a token `header.payload.signature`.
pub open spec fn parts_of(jwt: Seq<char>) -> Result<(Seq<char>, Seq<char>), Seq<char>> {
    let dot = text::first_at(jwt, '.');
    if dot >= jwt.len() {
        Err("ServerHandshake JWT: missing payload"@)
    } else {
        let rest = jwt.skip(dot + 1);
        Ok((jwt.take(dot), rest.take(text::first_at(rest, '.'))))
    }
}

/// The JSON value that one part of a token encodes.
pub open spec fn part_value(part: Seq<char>, what: Seq<char>) -> Result<Json, Seq<char>> {
    match base64url::decoded(part) {
        Err(m) => Err(what + " base64: "@ + m),
        Ok(data) => match json::parsed(data) {
            Err(m) => Err(what + " json: "@ + m),
            Ok(j) => Ok(j),
        },
    }
}

/// The header and the payload of a token.
pub open spec fn jwt_of(jwt: Seq<char>) -> Result<(Json, Json), Seq<char>> {
    match parts_of(jwt) {
        Err(m) => Err(m),
        Ok((h, p)) => match part_value(h, "header"@) {
            Err(m) => Err(m),
            Ok(header) => match part_value(p, "payload"@) {
                Err(m) => Err(m),
                Ok(payload) => Ok((header, payload)),
            },
        },
    }
}

/// A token without a signature, of two encoded parts.
pub open spec fn joined(header_b64: Seq<char>, payload_b64: Seq<char>) -> Seq<char> {
    header_b64 + seq!['.'] + payload_b64 + seq!['.']
}

/// The token without a signature that has this header and this payload.
pub open spec fn jwt_text(header: Json, payload: Json) -> Seq<char> {
    joined(
        base64url::encoded(encode_utf8(json::written(header))),
        base64url::encoded(encode_utf8(json::written(payload))),
    )
}

/// A token of three parts between dots, the last of which, the signature, is empty.
pub open spec fn is_unsigned(jwt: Seq<char>) -> bool {
    exists|header_b64: Seq<char>, payload_b64: Seq<char>|
        jwt == #[trigger] joined(header_b64, payload_b64) && !header_b64.contains('.')
            && !payload_b64.contains('.')
}

/// How many characters an unsigned token has at most whose header and payload are so long.
pub open spec fn token_limit(header_chars: nat, payload_chars: nat) -> nat {
    (header_chars * 16 + 2) / 3 + (payload_chars * 16 + 2) / 3 + 2
}

proof fn lemma_utf8_len(s: Seq<char>)
    ensures
        encode_utf8(s).len() <= 4 * s.len(),
    decreases s.len(),
{
    if s.len() > 0 {
        lemma_utf8_len(s.drop_first());
    }
}

/// Splits a token into its encoded header and payload.
pub fn jwt_parts(jwt: &str) -> (r: Result<(String, String), PingError>)
    ensures
        match (r, parts_of(jwt@)) {
            (Ok(p), Ok(v)) => p.0@ == v.0 && p.1@ == v.1,
            (Err(e), Err(m)) => e.says(m),
            _ => false,
        },
{
    let chars = text::chars_of(jwt);
    assert(chars@.skip(0) == chars@);
    let dot = text::find_char(chars.as_slice(), 0, '.');
    if dot >= chars.len() {
        return Err(protocol_error("ServerHandshake JWT: missing payload"));
    }
    let header = text::text_of(chars.as_slice(), 0, dot);
    let end = text::find_char(chars.as_slice(), dot + 1, '.');
    let payload = text::text_of(chars.as_slice(), dot + 1, end);
    proof {
        let rest = jwt@.skip(dot + 1);
        assert(header@ == jwt@.take(dot as int));
        assert(payload@ == rest.take(text::first_at(rest, '.')));
    }
    Ok((header, payload))
}

/// Joins an encoded header and an encoded payload to a token without a signature.
pub fn jwt_from_parts(header_b64: &str, payload_b64: &str) -> (r: String)
    ensures
        r@ == joined(header_b64@, payload_b64@),
{
    let mut out = text::copy_text(header_b64);
    out.push('.');
    out.append(payload_b64);
    out.push('.');
    assert(out@ == joined(header_b64@, payload_b64@));
    out
}

/// The parts of a joined token are the ones it was joined from, if neither holds a dot.
pub proof fn law_token_parts(header_b64: Seq<char>, payload_b64: Seq<char>)
    requires
        !header_b64.contains('.'),
        !payload_b64.contains('.'),
    ensures
        parts_of(joined(header_b64, payload_b64)) == Ok::<(Seq<char>, Seq<char>), Seq<char>>(
            (header_b64, payload_b64),
        ),
{
    let s = joined(header_b64, payload_b64);
    let h = header_b64.len() as int;
    let p = payload_b64.len() as int;
    assert forall|k: int| 0 <= k < h implies s[k] != '.' by {
        assert(s[k] == header_b64[k]);
        assert(header_b64.contains(header_b64[k]));
    }
    assert(s[h] == '.');
    text::lemma_first_at(s, '.', h);
    let rest = s.skip(h + 1);
    assert forall|k: int| 0 <= k < p implies rest[k] != '.' by {
        assert(rest[k] == payload_b64[k]);
        assert(payload_b64.contains(payload_b64[k]));
    }
    assert(rest[p] == '.');
    text::lemma_first_at(rest, '.', p);
    assert(s.take(h) == header_b64);
    assert(rest.take(p) == payload_b64);
}

fn read_part(part: &str, what: &str) -> (r: Result<serde_json::Value, PingError>)
    ensures
        match (r, part_value(part@, what@)) {
            (Ok(v), Ok(j)) => json::content(v) == j,
            (Err(e), Err(m)) => e.says(m),
            _ => false,
        },
{
    match base64url::decode(part) {
        Err(m) => Err(Message::new(what).text(" base64: ").text(m.as_str()).protocol()),
        Ok(data) => match json::parse(data.as_slice()) {
            Err(m) => Err(Message::new(what).text(" json: ").text(m.as_str()).protocol()),
            Ok(v) => Ok(v),
        },
    }
}

/// A token: a header and a payload, both JSON objects. It is written without a signature, which
/// servers accept that do not verify tokens.
pub struct Jwt {
    pub header_json: serde_json::Value,
    pub payload_json: serde_json::Value,
}

impl Jwt {
    /// Encodes the token as `header.payload.`. Reading the text gives the header and the payload
    /// back, if they are of few levels and hold no fractions; and it is not long, if they are not.
    pub fn encode(&self) -> (r: Result<String, PingError>)
        ensures
            match r {
                Ok(s) => {
                    let header = json::content(self.header_json);
                    let payload = json::content(self.payload_json);
                    &&& s@ == jwt_text(header, payload)
                    &&& is_unsigned(s@)
                    &&& json::simple(header, 16) && json::simple(payload, 16) ==> jwt_of(s@)
                        == Ok::<(Json, Json), Seq<char>>((header, payload))
                    &&& forall|depth: nat, entries: nat, chars: nat| #[trigger]
                        json::within(header, depth, entries, chars) && #[trigger] json::within(
                            payload,
                            depth,
                            entries,
                            chars,
                        ) ==> s@.len() <= token_limit(
                            json::longest(depth, entries, chars),
                            json::longest(depth, entries, chars),
                        )
                },
                Err(_) => false,
            },
    {
        let header = match json::write(&self.header_json) {
            Ok(s) => s,
            Err(m) => {
                return Err(Message::new("jwt header json: ").text(m.as_str()).protocol());
            },
        };
        let payload = match json::write(&self.payload_json) {
            Ok(s) => s,
            Err(m) => {
                return Err(Message::new("jwt payload json: ").text(m.as_str()).protocol());
            },
        };
        let header_b64 = base64url::encode(header.as_str().as_bytes());
        let payload_b64 = base64url::encode(payload.as_str().as_bytes());
        proof {
            assert(!base64url::in_alphabet('.'));
            law_token_parts(header_b64@, payload_b64@);
            lemma_utf8_len(header@);
            lemma_utf8_len(payload@);
        }
        Ok(jwt_from_parts(header_b64.as_str(), payload_b64.as_str()))
    }

    /// Reads the header and the payload of a token; a signature is not looked at.
    pub fn decode(jwt: &str) -> (r: Result<Jwt, PingError>)
        ensures
            match (r, jwt_of(jwt@)) {
                (Ok(t), Ok(v)) => json::content(t.header_json) == v.0 && json::content(
                    t.payload_json,
                ) == v.1,
                (Err(e), Err(m)) => e.says(m),
                _ => false,
            },
    {
        let (header_b64, payload_b64) = jwt_parts(jwt)?;
        let header_json = read_part(header_b64.as_str(), "header")?;
        let payload_json = read_part(payload_b64.as_str(), "payload")?;
        Ok(Jwt { header_json, payload_json })
    }
}

// ==================== The server's handshake ====================

/// What a `ServerToClientHandshake` token says: the server's public key and the salt of the key
/// derivation.
#[derive(Debug, Clone)]
pub struct ServerHandshake {
    /// The server's public key, base64 text, as the header's `x5u` has it.
    pub server_public_key_b64: String,
    /// The salt, decoded from the payload's `salt`.
    pub salt: Vec<u8>,
}

/// What a [`ServerHandshake`] holds.
#[verifier::ext_equal]
pub struct HandshakeView {
    pub server_public_key_b64: Seq<char>,
    pub salt: Seq<u8>,
}

impl View for ServerHandshake {
    type V = HandshakeView;

    open spec fn view(&self) -> HandshakeView {
        HandshakeView {
            server_public_key_b64: self.server_public_key_b64@,
            salt: self.salt@,
        }
    }
}

/// The header's `x5u` and the payload's `salt`, both texts.
pub open spec fn claims_of(header: Json, payload: Json) -> Result<
    (Seq<char>, Seq<char>),
    Seq<char>,
> {
    match json::text_member(header, "x5u"@) {
        None => Err("ServerHandshake JWT: missing x5u"@),
        Some(key) => match json::text_member(payload, "salt"@) {
            None => Err("ServerHandshake JWT: missing salt"@),
            Some(salt) => Ok((key, salt)),
        },
    }
}

/// What a handshake token says.
pub open spec fn handshake_of(jwt: Seq<char>) -> Result<HandshakeView, Seq<char>> {
    match jwt_of(jwt) {
        Err(m) => Err(m),
        Ok((header, payload)) => match claims_of(header, payload) {
            Err(m) => Err(m),
            Ok((key, salt)) => match base64url::decoded(salt) {
                Err(m) => Err("salt base64: "@ + m),
                Ok(data) => Ok(HandshakeView { server_public_key_b64: key, salt: data }),
            },
        },
    }
}

/// What a handshake payload holds: a token behind its length.
pub open spec fn handshake_payload_of(data: Seq<u8>) -> Result<HandshakeView, Seq<char>> {
    match protocol::varuint32_of(data) {
        Err(m) => Err("ServerHandshake jwt_len: "@ + ("protocol error: "@ + m)),
        Ok((len, n)) => if data.len() < n + len {
            Err("ServerHandshake JWT truncated"@)
        } else {
            let token = data.subrange(n as int, n + len);
            if valid_utf8(token) {
                handshake_of(decode_utf8(token))
            } else {
                Err("ServerHandshake JWT utf-8: "@ + text::utf8_error(token))
            }
        },
    }
}

/// A handshake's outcome and its model.
pub open spec fn handshake_agrees(
    r: Result<ServerHandshake, PingError>,
    model: Result<HandshakeView, Seq<char>>,
) -> bool {
    match (r, model) {
        (Ok(h), Ok(v)) => h@ == v,
        (Err(e), Err(m)) => e.says(m),
        _ => false,
    }
}

/// Picks the header's `x5u` and the payload's `salt`.
pub fn handshake_claims(header: &serde_json::Value, payload: &serde_json::Value) -> (r: Result<
    (String, String),
    PingError,
>)
    ensures
        match (r, claims_of(json::content(*header), json::content(*payload))) {
            (Ok(p), Ok(v)) => p.0@ == v.0 && p.1@ == v.1,
            (Err(e), Err(m)) => e.says(m),
            _ => false,
        },
{
    let key = match json::member_text(header, "x5u") {
        Some(s) => s,
        None => {
            return Err(protocol_error("ServerHandshake JWT: missing x5u"));
        },
    };
    match json::member_text(payload, "salt") {
        Some(salt) => Ok((key, salt)),
        None => Err(protocol_error("ServerHandshake JWT: missing salt")),
    }
}

impl ServerHandshake {
    /// Decodes the payload of a `ServerToClientHandshake` packet: `varuint32(len) | token`.
    pub fn decode_payload(data: &[u8]) -> (r: Result<ServerHandshake, PingError>)
        ensures
            handshake_agrees(r, handshake_payload_of(data@)),
    {
        let (len, n) = match protocol::read_varuint32(data) {
            Ok(p) => p,
            Err(e) => {
                let m = e.message();
                return Err(Message::new("ServerHandshake jwt_len: ").text(m.as_str()).protocol())
            },
        };
        let left: usize = data.len() - n;
        if (left as u64) < len as u64 {
            return Err(protocol_error("ServerHandshake JWT truncated"));
        }
        let token = slice_subrange(data, n, n + len as usize);
        match text::text_from_utf8(token) {
            Ok(jwt) => Self::decode_jwt(jwt.as_str()),
            Err(m) => Err(Message::new("ServerHandshake JWT utf-8: ").text(m.as_str()).protocol()),
        }
    }

    /// Reads a handshake token: `x5u` from the header, `salt` from the payload.
    pub fn decode_jwt(jwt: &str) -> (r: Result<ServerHandshake, PingError>)
        ensures
            handshake_agrees(r, handshake_of(jwt@)),
    {
        let token = Jwt::decode(jwt)?;
        let (server_public_key_b64, salt_b64) = handshake_claims(
            &token.header_json,
            &token.payload_json,
        )?;
        match base64url::decode(salt_b64.as_str()) {
            Ok(salt) => Ok(ServerHandshake { server_public_key_b64, salt }),
            Err(m) => Err(Message::new("salt base64: ").text(m.as_str()).protocol()),
        }
    }
}

// ==================== The offline chain ====================

/// Who the player is, as the identity token's `extraData` says it.
#[derive(Debug, Clone)]
pub struct IdentityData {
    /// The Xbox Live user ID; empty for an offline login.
    pub xuid: String,
    /// The player's identity; any text for an offline login.
    pub identity: String,
    /// The name shown to the server.
    pub display_name: String,
}

/// What an [`IdentityData`] holds.
#[verifier::ext_equal]
pub struct IdentityView {
    pub xuid: Seq<char>,
    pub identity: Seq<char>,
    pub display_name: Seq<char>,
}

impl View for IdentityData {
    type V = IdentityView;

    open spec fn view(&self) -> IdentityView {
        IdentityView {
            xuid: self.xuid@,
            identity: self.identity@,
            display_name: self.display_name@,
        }
    }
}

impl IdentityView {
    /// The JSON object that says it.
    pub open spec fn json(self) -> Json {
        Json::Object(
            json::no_names().insert("XUID"@, Json::Text(self.xuid)).insert(
                "identity"@,
                Json::Text(self.identity),
            ).insert("displayName"@, Json::Text(self.display_name)),
        )
    }
}

/// The identity of an offline login that is given none: the client GUID as 32 hexadecimal digits.
pub open spec fn placeholder_identity(client_guid: i64) -> IdentityView {
    IdentityView {
        xuid: ""@,
        identity: text::hex_fixed(bytes::i64_bits(client_guid) as nat, 32),
        display_name: "mcget"@,
    }
}

impl IdentityData {
    fn to_value(&self) -> (r: serde_json::Value)
        ensures
            json::content(r) == self@.json(),
    {
        let mut m = json::no_members();
        json::insert_member(&mut m, "XUID", json::text(self.xuid.as_str()));
        json::insert_member(&mut m, "identity", json::text(self.identity.as_str()));
        json::insert_member(&mut m, "displayName", json::text(self.display_name.as_str()));
        json::object(m)
    }
}

/// What the client says of itself: the few fields that a server looks at in an offline login.
#[derive(Debug, Clone)]
pub struct ClientData {
    /// The client GUID, the same as in the RakNet handshake.
    pub client_random_id: i64,
    /// The device's operating system; 0 is unknown.
    pub device_os: i32,
    /// The game's version.
    pub game_version: String,
    /// The language code.
    pub language_code: String,
    /// The device model; empty is unknown.
    pub device_model: String,
}

impl ClientData {
    /// The JSON object that says it.
    pub open spec fn json(self) -> Json {
        client_json(
            self.client_random_id,
            self.device_os,
            self.game_version@,
            self.language_code@,
            self.device_model@,
        )
    }

    /// What an offline desktop client says.
    pub fn offline(client_random_id: i64) -> (r: ClientData)
        ensures
            r.client_random_id == client_random_id,
            r.device_os == 0,
            r.game_version@ == "1.21.0"@,
            r.language_code@ == "en"@,
            r.device_model@ == ""@,
    {
        ClientData {
            client_random_id,
            device_os: 0,
            game_version: text::copy_text("1.21.0"),
            language_code: text::copy_text("en"),
            device_model: text::copy_text(""),
        }
    }

    fn to_value(&self) -> (r: serde_json::Value)
        ensures
            json::content(r) == self.json(),
    {
        let mut m = json::no_members();
        json::insert_member(&mut m, "ClientRandomId", json::integer(self.client_random_id));
        json::insert_member(&mut m, "DeviceOS", json::integer(self.device_os as i64));
        json::insert_member(&mut m, "GameVersion", json::text(self.game_version.as_str()));
        json::insert_member(&mut m, "LanguageCode", json::text(self.language_code.as_str()));
        json::insert_member(&mut m, "DeviceModel", json::text(self.device_model.as_str()));
        json::object(m)
    }
}

/// The JSON object of a [`ClientData`].
pub open spec fn client_json(
    client_random_id: i64,
    device_os: i32,
    game_version: Seq<char>,
    language_code: Seq<char>,
    device_model: Seq<char>,
) -> Json {
    Json::Object(
        json::no_names().insert("ClientRandomId"@, Json::Integer(client_random_id as int)).insert(
            "DeviceOS"@,
            Json::Integer(device_os as int),
        ).insert("GameVersion"@, Json::Text(game_version)).insert(
            "LanguageCode"@,
            Json::Text(language_code),
        ).insert("DeviceModel"@, Json::Text(device_model)),
    )
}

/// The public key in the tokens of an offline login. Servers that do not verify tokens accept any
/// well-formed one.
pub open spec fn placeholder_key() -> Seq<char> {
    "MHYwEAYHKoZIzj0CA3YFK4EEACIDYQAE"@
}

/// The header of both tokens.
pub open spec fn header_json() -> Json {
    Json::Object(
        json::no_names().insert("alg"@, Json::Text("es384"@)).insert(
            "x5u"@,
            Json::Text(placeholder_key()),
        ),
    )
}

/// The payload of the identity token.
pub open spec fn identity_payload(identity: IdentityView) -> Json {
    Json::Object(
        json::no_names().insert("extraData"@, identity.json()).insert(
            "identityPublicKey"@,
            Json::Text(placeholder_key()),
        ),
    )
}

/// The payload of the client token.
pub open spec fn offline_client_payload(client_guid: i64) -> Json {
    client_json(client_guid, 0, "1.21.0"@, "en"@, ""@)
}

/// A chain of one token.
pub open spec fn chain_json(jwt: Seq<char>) -> Json {
    Json::Object(json::no_names().insert("chain"@, Json::List(seq![Json::Text(jwt)])))
}

/// A connection request: the chain and the client token, each behind its length.
pub open spec fn connection_request(chain: Seq<u8>, client_jwt: Seq<u8>) -> Seq<u8> {
    counted(chain) + counted(client_jwt)
}

/// The bytes at the start of `data` that stand behind their length, and what follows them.
pub open spec fn counted_part(data: Seq<u8>) -> Option<(Seq<u8>, Seq<u8>)> {
    match protocol::varuint32_of(data) {
        Err(_) => None,
        Ok((len, n)) => if data.len() < n + len {
            None
        } else {
            Some((data.subrange(n as int, n + len), data.skip(n + len)))
        },
    }
}

/// The chain and the client token of an offline connection request can be read out of it again,
/// if both are countable in 32 bits.
pub proof fn law_connection_request_parts(chain: Seq<u8>, client_jwt: Seq<u8>)
    requires
        chain.len() <= u32::MAX,
        client_jwt.len() <= u32::MAX,
    ensures
        counted_part(connection_request(chain, client_jwt)) == Some((chain, counted(client_jwt))),
        counted_part(counted(client_jwt)) == Some((client_jwt, Seq::<u8>::empty())),
{
    lemma_counted_part(chain, counted(client_jwt));
    lemma_counted_part(client_jwt, Seq::empty());
    assert(counted(client_jwt) + Seq::<u8>::empty() == counted(client_jwt));
}

proof fn lemma_counted_part(data: Seq<u8>, after: Seq<u8>)
    requires
        data.len() <= u32::MAX,
    ensures
        counted_part(counted(data) + after) == Some((data, after)),
{
    let n = data.len() as u32;
    let head = leb128::leb(n as nat);
    protocol::law_varuint32_round_trip(n, data + after);
    let all = counted(data) + after;
    assert(all == head + (data + after));
    assert(all.subrange(head.len() as int, head.len() + n) == data);
    assert(all.skip(head.len() + n) == after);
}

/// Joins a chain and a client token to a connection request.
pub fn frame_connection_request(chain: &[u8], client_jwt: &[u8]) -> (r: Vec<u8>)
    ensures
        r@ == connection_request(chain@, client_jwt@),
{
    let mut out: Vec<u8> = Vec::new();
    push_counted(&mut out, chain);
    push_counted(&mut out, client_jwt);
    assert(out@ == connection_request(chain@, client_jwt@));
    out
}

fn offline_header() -> (r: serde_json::Value)
    ensures
        json::content(r) == header_json(),
{
    let mut m = json::no_members();
    json::insert_member(&mut m, "alg", json::text("es384"));
    json::insert_member(&mut m, "x5u", json::text("MHYwEAYHKoZIzj0CA3YFK4EEACIDYQAE"));
    json::object(m)
}

/// The identity token of an offline connection request.
pub open spec fn identity_jwt(identity: IdentityView) -> Seq<char> {
    jwt_text(header_json(), identity_payload(identity))
}

/// The client token of an offline connection request.
pub open spec fn client_jwt(client_guid: i64) -> Seq<char> {
    jwt_text(header_json(), offline_client_payload(client_guid))
}

/// An offline connection request.
pub open spec fn offline_request(client_guid: i64, identity: IdentityView) -> Seq<u8> {
    connection_request(
        encode_utf8(json::written(chain_json(identity_jwt(identity)))),
        encode_utf8(client_jwt(client_guid)),
    )
}

/// The chain and the tokens in an offline connection request say what they were made from, and the
/// tokens have no signature.
pub open spec fn says_who(client_guid: i64, identity: IdentityView) -> bool {
    let jwt = identity_jwt(identity);
    &&& is_unsigned(jwt)
    &&& is_unsigned(client_jwt(client_guid))
    &&& json::parses_to(json::written(chain_json(jwt)), chain_json(jwt))
    &&& jwt_of(jwt) == Ok::<(Json, Json), Seq<char>>((header_json(), identity_payload(identity)))
    &&& jwt_of(client_jwt(client_guid)) == Ok::<(Json, Json), Seq<char>>(
        (header_json(), offline_client_payload(client_guid)),
    )
}

/// The chain and the client token can be read out of an offline connection request again, each
/// from behind its length, and nothing follows them.
pub open spec fn comes_apart(data: Seq<u8>, client_guid: i64, identity: IdentityView) -> bool {
    let chain = encode_utf8(json::written(chain_json(identity_jwt(identity))));
    let token = encode_utf8(client_jwt(client_guid));
    counted_part(data) matches Some((first, rest)) && first == chain && counted_part(rest) == Some(
        (token, Seq::<u8>::empty()),
    )
}

/// An identity whose texts have at most five thousand characters each.
pub open spec fn is_short(identity: IdentityView) -> bool {
    &&& identity.xuid.len() <= 5_000
    &&& identity.identity.len() <= 5_000
    &&& identity.display_name.len() <= 5_000
}

proof fn lemma_within(client_guid: i64, identity: IdentityView)
    ensures
        is_short(identity) ==> json::within(identity_payload(identity), 2, 5, 5_000),
        json::within(header_json(), 2, 5, 5_000),
        json::within(offline_client_payload(client_guid), 2, 5, 5_000),
{
    reveal_with_fuel(json::within, 4);
    reveal_strlit("XUID");
    reveal_strlit("identity");
    reveal_strlit("displayName");
    reveal_strlit("alg");
    reveal_strlit("es384");
    reveal_strlit("x5u");
    reveal_strlit("MHYwEAYHKoZIzj0CA3YFK4EEACIDYQAE");
    reveal_strlit("extraData");
    reveal_strlit("identityPublicKey");
    reveal_strlit("ClientRandomId");
    reveal_strlit("DeviceOS");
    reveal_strlit("GameVersion");
    reveal_strlit("1.21.0");
    reveal_strlit("LanguageCode");
    reveal_strlit("en");
    reveal_strlit("DeviceModel");
    reveal_strlit("");
}

proof fn lemma_chain_within(jwt: Seq<char>, chars: nat)
    requires
        jwt.len() <= chars,
        chars >= 5,
    ensures
        json::within(chain_json(jwt), 2, 1, chars),
{
    reveal_with_fuel(json::within, 4);
    reveal_strlit("chain");
}

proof fn lemma_limits()
    ensures
        json::longest(2, 5, 5_000) == 1_830_802,
        token_limit(1_830_802, 1_830_802) == 19_528_558,
        json::longest(2, 1, 19_528_558) * 4 <= u32::MAX,
{
    reveal_with_fuel(json::longest, 4);
}

proof fn lemma_simple(client_guid: i64, identity: IdentityView, jwt: Seq<char>)
    ensures
        json::simple(header_json(), 16),
        json::simple(identity_payload(identity), 16),
        json::simple(offline_client_payload(client_guid), 16),
        json::simple(chain_json(jwt), 16),
{
    reveal_with_fuel(json::simple, 4);
}

/// The connection request of an offline login: a chain of one identity token, and the client
/// token. Both tokens have no signature. What the request says can be read back, and it comes
/// apart again if the identity is short.
pub fn build_offline_connection_request(client_guid: i64, identity: IdentityData) -> (r: Result<
    Vec<u8>,
    PingError,
>)
    ensures
        match r {
            Ok(data) => {
                &&& data@ == offline_request(client_guid, identity@)
                &&& says_who(client_guid, identity@)
                &&& is_short(identity@) ==> comes_apart(data@, client_guid, identity@)
            },
            Err(_) => false,
        },
{
    proof {
        lemma_simple(client_guid, identity@, identity_jwt(identity@));
        lemma_within(client_guid, identity@);
        lemma_limits();
    }
    let mut payload = json::no_members();
    json::insert_member(&mut payload, "extraData", identity.to_value());
    json::insert_member(
        &mut payload,
        "identityPublicKey",
        json::text("MHYwEAYHKoZIzj0CA3YFK4EEACIDYQAE"),
    );
    let identity_token = Jwt {
        header_json: offline_header(),
        payload_json: json::object(payload),
    }.encode()?;
    let client_token = Jwt {
        header_json: offline_header(),
        payload_json: ClientData::offline(client_guid).to_value(),
    }.encode()?;
    let mut tokens: Vec<serde_json::Value> = Vec::new();
    tokens.push(json::text(identity_token.as_str()));
    assert(json::contents(tokens@) == seq![Json::Text(identity_token@)]);
    let mut chain = json::no_members();
    json::insert_member(&mut chain, "chain", json::list(tokens));
    let chain_text = match json::write(&json::object(chain)) {
        Ok(s) => s,
        Err(m) => {
            return Err(Message::new("chain json: ").text(m.as_str()).protocol());
        },
    };
    proof {
        if is_short(identity@) {
            lemma_chain_within(identity_token@, 19_528_558);
            lemma_utf8_len(chain_text@);
            lemma_utf8_len(client_token@);
            law_connection_request_parts(encode_utf8(chain_text@), encode_utf8(client_token@));
        }
    }
    Ok(
        frame_connection_request(
            chain_text.as_str().as_bytes(),
            client_token.as_str().as_bytes(),
        ),
    )
}

/// The connection request of an offline login under a placeholder identity. What it says can be
/// read back, and it comes apart again.
pub fn default_offline_connection_request(client_guid: i64) -> (r: Result<Vec<u8>, PingError>)
    ensures
        match r {
            Ok(data) => {
                let identity = placeholder_identity(client_guid);
                &&& data@ == offline_request(client_guid, identity)
                &&& says_who(client_guid, identity)
                &&& comes_apart(data@, client_guid, identity)
            },
            Err(_) => false,
        },
{
    let mut id = String::new();
    text::push_hex_fixed(&mut id, bytes::i64_to_bits(client_guid) as u128, 32);
    let identity = IdentityData {
        xuid: text::copy_text(""),
        identity: id,
        display_name: text::copy_text("mcget"),
    };
    assert(identity@ == placeholder_identity(client_guid));
    proof {
        reveal_strlit("");
        reveal_strlit("mcget");
        text::lemma_hex_fixed_len(bytes::i64_bits(client_guid) as nat, 32);
    }
    build_offline_connection_request(client_guid, identity)
}

// ==================== Laws ====================

/// A RequestNetworkSettings payload is decoded to the version it was made from, whatever follows
/// it.
pub proof fn law_request_round_trip(protocol: i32, after: Seq<u8>)
    ensures
        protocol::varuint32_of(leb128::leb(protocol::zigzag(protocol) as nat) + after) matches Ok(
            u,
        ) && protocol::unzigzag(u.0) == protocol,
{
    protocol::law_varint32_round_trip(protocol, after);
}

/// A status is decoded from its four bytes, whatever follows them.
pub proof fn law_status_round_trip(status: i32, after: Seq<u8>, what: Seq<char>)
    ensures
        i32_of(bytes::be32(bytes::i32_bits(status)) + after, what) == Ok::<i32, Seq<char>>(status),
{
    broadcast use bytes::group_widths;

    let b = bytes::be32(bytes::i32_bits(status));
    bytes::lemma_be32_round_trip(bytes::i32_bits(status), seq![], after);
    assert(seq![] + b + after == b + after);
}

/// The version and the connection request can be read out of a Login payload again, if the request
/// is countable in 32 bits.
pub proof fn law_login_payload_parts(protocol: i32, connection_request: Seq<u8>)
    requires
        connection_request.len() <= u32::MAX,
    ensures
        ({
            let data = login_payload(protocol, connection_request);
            &&& protocol::varuint32_of(data) matches Ok((z, n))
            &&& protocol::unzigzag(z) == protocol
            &&& counted_part(data.skip(n as int)) == Some(
                (connection_request, Seq::<u8>::empty()),
            )
        }),
{
    let head = leb128::leb(protocol::zigzag(protocol) as nat);
    let tail = counted(connection_request);
    protocol::law_varint32_round_trip(protocol, tail);
    lemma_counted_part(connection_request, Seq::empty());
    assert(tail + Seq::<u8>::empty() == tail);
    assert((head + tail).skip(head.len() as int) == tail);
}

/// A handshake payload says what its token says: the length in front is the only frame. The token
/// must be countable in 32 bits.
pub proof fn law_handshake_payload_is_its_token(jwt: Seq<char>, after: Seq<u8>)
    requires
        encode_utf8(jwt).len() <= u32::MAX,
    ensures
        handshake_payload_of(counted(encode_utf8(jwt)) + after) == handshake_of(jwt),
{
    broadcast use vstd::utf8::encode_utf8_valid_utf8, vstd::utf8::encode_utf8_decode_utf8;

    let token = encode_utf8(jwt);
    let n = token.len() as u32;
    let head = leb128::leb(n as nat);
    protocol::law_varuint32_round_trip(n, token + after);
    let all = counted(token) + after;
    assert(all == head + (token + after));
    assert(all.subrange(head.len() as int, head.len() + n) == token);
}

/// The token that a server makes of its key and its salt is read as that key and that salt: `jwt`
/// encodes a header with the key and a payload with the encoded salt.
pub proof fn law_handshake_is_read(
    jwt: Seq<char>,
    header: Json,
    payload: Json,
    key: Seq<char>,
    salt_b64: Seq<char>,
    salt: Seq<u8>,
)
    requires
        jwt_of(jwt) == Ok::<(Json, Json), Seq<char>>((header, payload)),
        json::text_member(header, "x5u"@) == Some(key),
        json::text_member(payload, "salt"@) == Some(salt_b64),
        base64url::decoded(salt_b64) == Ok::<Seq<u8>, Seq<char>>(salt),
    ensures
        handshake_of(jwt) == Ok::<HandshakeView, Seq<char>>(
            HandshakeView { server_public_key_b64: key, salt },
        ),
{
}

/// When bytes hold network settings, and which: the threshold at offset 0, the algorithm at 2,
/// whether clients are throttled at 4, from how many players on at 5, and the scalar at 6.
pub proof fn law_network_settings_are_understood(data: Seq<u8>)
    ensures
        network_settings_of(data) is Ok <==> data.len() >= 10,
        network_settings_of(data) matches Ok(s) ==> {
            &&& s.compression_threshold == data[0] * 256 + data[1]
            &&& s.compression_algorithm == data[2] * 256 + data[3]
            &&& s.client_throttle <==> data[4] != 0
            &&& s.client_throttle_threshold == data[5]
            &&& s.client_throttle_scalar == data[6] * 0x100_0000 + data[7] * 0x1_0000 + data[8]
                * 256 + data[9]
        },
{
    bytes::law_digits_are_read(data, 0);
    bytes::law_digits_are_read(data, 2);
    bytes::law_digits_are_read(data, 6);
}

/// A status is the first four bytes, whatever follows them; fewer are none.
pub proof fn law_status_is_understood(data: Seq<u8>, what: Seq<char>)
    ensures
        i32_of(data, what) is Ok <==> data.len() >= 4,
        i32_of(data, what) matches Ok(n) ==> bytes::i32_bits(n) == data[0] * 0x100_0000 + data[1]
            * 0x1_0000 + data[2] * 256 + data[3],
{
    bytes::law_digits_are_read(data, 0);
    if data.len() >= 4 {
        bytes::law_bit_patterns(0, 0, 0, bytes::u32_at(data, 0));
    }
}

/// A token is read up to its second dot, whatever signature follows it, or to its end; without a
/// dot it is none.
pub proof fn law_token_is_taken_apart(header: Seq<char>, payload: Seq<char>, signature: Seq<char>)
    requires
        !header.contains('.'),
        !payload.contains('.'),
    ensures
        parts_of(header) is Err,
        parts_of(header + seq!['.'] + payload) == Ok::<(Seq<char>, Seq<char>), Seq<char>>(
            (header, payload),
        ),
        parts_of(header + seq!['.'] + payload + seq!['.'] + signature) == Ok::<
            (Seq<char>, Seq<char>),
            Seq<char>,
        >((header, payload)),
{
    let h = header.len() as int;
    let p = payload.len() as int;
    let short = header + seq!['.'] + payload;
    let long = short + seq!['.'] + signature;
    assert forall|k: int| 0 <= k < h implies header[k] != '.' && short[k] != '.' && long[k]
        != '.' by {
        assert(header.contains(header[k]));
    }
    text::lemma_first_at(header, '.', h);
    assert(short[h] == '.' && long[h] == '.');
    text::lemma_first_at(short, '.', h);
    text::lemma_first_at(long, '.', h);
    let a = short.skip(h + 1);
    let b = long.skip(h + 1);
    assert forall|k: int| 0 <= k < p implies a[k] != '.' && b[k] != '.' by {
        assert(a[k] == payload[k] && b[k] == payload[k]);
        assert(payload.contains(payload[k]));
    }
    assert(b[p] == '.');
    text::lemma_first_at(a, '.', p);
    text::lemma_first_at(b, '.', p);
    assert(short.take(h) =~= header && long.take(h) =~= header);
    assert(a.take(p) =~= payload && b.take(p) =~= payload);
}

/// A token says what its two parts say: it is understood exactly if each part is base64 text of
/// JSON.
pub proof fn law_token_is_understood(header_b64: Seq<char>, payload_b64: Seq<char>)
    requires
        !header_b64.contains('.'),
        !payload_b64.contains('.'),
    ensures
        match jwt_of(joined(header_b64, payload_b64)) {
            Ok((header, payload)) => {
                &&& base64url::decoded(header_b64) matches Ok(h)
                &&& json::parsed(h) == Ok::<Json, Seq<char>>(header)
                &&& base64url::decoded(payload_b64) matches Ok(p)
                &&& json::parsed(p) == Ok::<Json, Seq<char>>(payload)
            },
            Err(_) => !{
                &&& base64url::decoded(header_b64) matches Ok(h)
                &&& json::parsed(h) is Ok
                &&& base64url::decoded(payload_b64) matches Ok(p)
                &&& json::parsed(p) is Ok
            },
        },
{
    law_token_parts(header_b64, payload_b64);
}

/// What a handshake claims: the key is the header's text `x5u`, the salt the payload's text `salt`;
/// without either it claims nothing.
pub proof fn law_claims(header: Json, payload: Json)
    ensures
        claims_of(header, payload) is Ok <==> {
            &&& json::member_of(header, "x5u"@) matches Some(k)
            &&& k is Text
            &&& json::member_of(payload, "salt"@) matches Some(s)
            &&& s is Text
        },
        claims_of(header, payload) matches Ok((key, salt)) ==> json::member_of(header, "x5u"@)
            == Some(Json::Text(key)) && json::member_of(payload, "salt"@) == Some(
            Json::Text(salt),
        ),
{
}

/// What is read of a handshake token is what it claims, with the salt decoded; it is refused where
/// it cannot be read, claims nothing, or has a salt that is no base64 text.
pub proof fn law_handshake_is_understood(jwt: Seq<char>)
    ensures
        match handshake_of(jwt) {
            Ok(v) => {
                &&& jwt_of(jwt) matches Ok((header, payload))
                &&& json::member_of(header, "x5u"@) == Some(Json::Text(v.server_public_key_b64))
                &&& json::text_member(payload, "salt"@) matches Some(salt)
                &&& base64url::decoded(salt) == Ok::<Seq<u8>, Seq<char>>(v.salt)
            },
            Err(_) => !{
                &&& jwt_of(jwt) matches Ok((header, payload))
                &&& json::text_member(header, "x5u"@) is Some
                &&& json::text_member(payload, "salt"@) matches Some(salt)
                &&& base64url::decoded(salt) is Ok
            },
        },
{
}

/// The placeholder identity: no Xbox Live user, the client's GUID as 32 hexadecimal digits, and
/// the name of this program.
pub proof fn law_placeholder_identity(client_guid: i64)
    ensures
        ({
            let id = placeholder_identity(client_guid);
            &&& id.xuid.len() == 0
            &&& id.identity.len() == 32
            &&& forall|i: int| 0 <= i < 32 ==> text::is_lower_hex(#[trigger] id.identity[i])
            &&& text::hex_value(id.identity) == bytes::i64_bits(client_guid)
            &&& id.display_name == "mcget"@
        }),
{
    reveal_strlit("");
    let n = bytes::i64_bits(client_guid) as nat;
    text::lemma_hex_fixed_len(n, 32);
    text::law_fixed_hex_digits(n, 32);
    assert(vstd::arithmetic::power::pow(16, 16) == 0x1_0000_0000_0000_0000) by {
        reveal(vstd::arithmetic::power::pow);
        reveal_with_fuel(vstd::arithmetic::power::pow, 17);
    }
    text::law_fixed_hex_value(n, 32, 16);
}

/// What the identity token says of a player, member by member.
pub proof fn law_identity_says(identity: IdentityView)
    ensures
        json::member_of(identity_payload(identity), "identityPublicKey"@) == Some(
            Json::Text("MHYwEAYHKoZIzj0CA3YFK4EEACIDYQAE"@),
        ),
        json::member_of(identity_payload(identity), "extraData"@) matches Some(extra)
            && json::member_of(extra, "XUID"@) == Some(Json::Text(identity.xuid))
            && json::member_of(extra, "identity"@) == Some(Json::Text(identity.identity))
            && json::member_of(extra, "displayName"@) == Some(Json::Text(identity.display_name)),
{
    reveal_strlit("XUID");
    reveal_strlit("identity");
    reveal_strlit("displayName");
    reveal_strlit("extraData");
    reveal_strlit("identityPublicKey");
    assert("XUID"@.len() == 4 && "identity"@.len() == 8 && "displayName"@.len() == 11);
    assert("extraData"@.len() == 9 && "identityPublicKey"@.len() == 17);
}

/// What the client token says of the client, member by member.
pub proof fn law_client_says(
    client_random_id: i64,
    device_os: i32,
    game_version: Seq<char>,
    language_code: Seq<char>,
    device_model: Seq<char>,
)
    ensures
        ({
            let j = client_json(
                client_random_id,
                device_os,
                game_version,
                language_code,
                device_model,
            );
            &&& json::member_of(j, "ClientRandomId"@) == Some(
                Json::Integer(client_random_id as int),
            )
            &&& json::member_of(j, "DeviceOS"@) == Some(Json::Integer(device_os as int))
            &&& json::member_of(j, "GameVersion"@) == Some(Json::Text(game_version))
            &&& json::member_of(j, "LanguageCode"@) == Some(Json::Text(language_code))
            &&& json::member_of(j, "DeviceModel"@) == Some(Json::Text(device_model))
        }),
        json::member_of(offline_client_payload(client_random_id), "ClientRandomId"@) == Some(
            Json::Integer(client_random_id as int),
        ),
        json::member_of(offline_client_payload(client_random_id), "GameVersion"@) == Some(
            Json::Text("1.21.0"@),
        ),
        json::member_of(offline_client_payload(client_random_id), "LanguageCode"@) == Some(
            Json::Text("en"@),
        ),
        json::member_of(offline_client_payload(client_random_id), "DeviceOS"@) == Some(
            Json::Integer(0),
        ),
        json::member_of(offline_client_payload(client_random_id), "DeviceModel"@) == Some(
            Json::Text(""@),
        ),
{
    reveal_strlit("ClientRandomId");
    reveal_strlit("DeviceOS");
    reveal_strlit("GameVersion");
    reveal_strlit("LanguageCode");
    reveal_strlit("DeviceModel");
    assert("ClientRandomId"@.len() == 14 && "DeviceOS"@.len() == 8 && "LanguageCode"@.len() == 12);
    assert("GameVersion"@[0] == 'G' && "DeviceModel"@[0] == 'D');
}

/// The header of the tokens names the algorithm and the key, and a chain holds its one token.
pub proof fn law_header_and_chain_say(jwt: Seq<char>)
    ensures
        json::member_of(header_json(), "alg"@) == Some(Json::Text("es384"@)),
        json::member_of(header_json(), "x5u"@) == Some(
            Json::Text("MHYwEAYHKoZIzj0CA3YFK4EEACIDYQAE"@),
        ),
        json::member_of(chain_json(jwt), "chain"@) == Some(Json::List(seq![Json::Text(jwt)])),
{
    reveal_strlit("alg");
    reveal_strlit("x5u");
    assert("alg"@[0] == 'a' && "x5u"@[0] == 'x');
}

/// Who an offline connection request says it is: the identity token names the player, and the
/// client token the client.
pub proof fn law_request_says_who(client_guid: i64, identity: IdentityView)
    requires
        says_who(client_guid, identity),
    ensures
        jwt_of(identity_jwt(identity)) matches Ok((_, payload)) && json::member_of(
            payload,
            "extraData"@,
        ) matches Some(extra) && json::text_member(extra, "displayName"@) == Some(
            identity.display_name,
        ) && json::text_member(extra, "identity"@) == Some(identity.identity)
            && json::text_member(extra, "XUID"@) == Some(identity.xuid),
        jwt_of(client_jwt(client_guid)) matches Ok((_, payload)) && json::member_of(
            payload,
            "ClientRandomId"@,
        ) == Some(Json::Integer(client_guid as int)),
        is_unsigned(identity_jwt(identity)),
        is_unsigned(client_jwt(client_guid)),
{
    law_identity_says(identity);
    law_client_says(client_guid, 0, "1.21.0"@, "en"@, ""@);
}

/// An unsigned token ends in a dot, and its parts are those in front of its two dots.
pub proof fn law_unsigned(jwt: Seq<char>)
    requires
        is_unsigned(jwt),
    ensures
        jwt.len() >= 2,
        jwt.last() == '.',
        parts_of(jwt) matches Ok((header, payload)) && jwt.len() == header.len() + payload.len()
            + 2,
{
    let (h, p) = choose|h: Seq<char>, p: Seq<char>|
        jwt == #[trigger] joined(h, p) && !h.contains('.') && !p.contains('.');
    law_token_parts(h, p);
}

/// The packets that a login sends: under ID 179 the protocol version, and under ID 1 the version and
/// the connection request, each read back.
pub proof fn law_login_stage_packets(protocol: i32, connection_request: Seq<u8>)
    requires
        connection_request.len() <= u32::MAX,
    ensures
        settings_request(protocol).id == 179,
        protocol::varuint32_of(settings_request(protocol).payload) matches Ok((z, n))
            && protocol::unzigzag(z) == protocol && n == settings_request(protocol).payload.len(),
        login_view(protocol, connection_request).id == 1,
        protocol::varuint32_of(login_view(protocol, connection_request).payload) matches Ok((z, n))
            && protocol::unzigzag(z) == protocol && counted_part(
            login_view(protocol, connection_request).payload.skip(n as int),
        ) == Some((connection_request, Seq::<u8>::empty())),
{
    let p = settings_request(protocol).payload;
    protocol::law_varint32_round_trip(protocol, seq![]);
    assert(p + Seq::<u8>::empty() =~= p);
    law_login_payload_parts(protocol, connection_request);
}

/// When a handshake payload is understood: a length, and behind it as many bytes of UTF-8, which are
/// the token. What follows them is ignored.
pub proof fn law_handshake_payload_is_understood(data: Seq<u8>)
    ensures
        match protocol::varuint32_of(data) {
            Err(_) => handshake_payload_of(data) is Err,
            Ok((len, n)) => {
                &&& data.len() < n + len ==> handshake_payload_of(data) is Err
                &&& data.len() >= n + len && !valid_utf8(data.subrange(n as int, n + len))
                    ==> handshake_payload_of(data) is Err
                &&& data.len() >= n + len ==> forall|jwt: Seq<char>|
                    #[trigger] encode_utf8(jwt) == data.subrange(n as int, n + len)
                        ==> handshake_payload_of(data) == handshake_of(jwt)
            },
        },
{
    broadcast use vstd::utf8::encode_utf8_valid_utf8, vstd::utf8::encode_utf8_decode_utf8;

}

/// The version that a RequestNetworkSettings packet was made with is the one that is read from it.
pub proof fn law_requested_version(protocol: i32, after: Seq<u8>)
    ensures
        requested_version(settings_request(protocol).payload + after) == Ok::<i32, Seq<char>>(
            protocol,
        ),
{
    protocol::law_varint32_round_trip(protocol, after);
}

/// What is said of a part of a token that cannot be read: which part it is, and then why.
pub proof fn law_part_errors(part: Seq<char>, what: Seq<char>)
    ensures
        part_value(part, what) matches Err(m) ==> what.is_prefix_of(m),
        base64url::decoded(part) matches Err(why) ==> (part_value(part, what) matches Err(m)
            && m.len() >= why.len() && m.skip(m.len() - why.len()) == why),
{
    match base64url::decoded(part) {
        Err(why) => {
            let m = what + " base64: "@ + why;
            assert(m.take(what.len() as int) =~= what);
            assert(m.skip(m.len() - why.len()) =~= why);
        },
        Ok(data) => {
            if let Err(why) = json::parsed(data) {
                let m = what + " json: "@ + why;
                assert(m.take(what.len() as int) =~= what);
            }
        },
    }
}

} // verus!
