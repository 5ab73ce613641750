//! The connection handshake.
use mcget::addr::SocketAddrV4;
use mcget::bedrock::conn::{
    build_request1, build_request2, classify_rejection, parse_reply1, parse_reply2, ConnectBuilder,
    HandshakeRejection, ID_ALREADY_CONNECTED, ID_INCOMPATIBLE_PROTOCOL, ID_IP_BANNED,
    ID_NO_FREE_INCOMING, ID_OPEN_CONN_REPL_1, ID_OPEN_CONN_REPL_2, ID_OPEN_CONN_REQ_1,
    ID_OPEN_CONN_REQ_2,
};
use mcget::bedrock::raknet::{encode_ipv4_addr, MAGIC};

// The IPv4 system-address encoder now lives in the shared `raknet` module;
// pull it in unqualified so the test bodies stay readable.

#[test]
fn parse_reply1_valid() {
    let mut buf = Vec::new();
    buf.push(ID_OPEN_CONN_REPL_1);
    buf.extend_from_slice(&MAGIC);
    buf.extend_from_slice(&987654321i64.to_be_bytes()); // server_guid
    buf.push(1); // use_encryption = true
    buf.extend_from_slice(&1492u16.to_be_bytes()); // mtu
    let r = parse_reply1(&buf).unwrap().unwrap();
    assert_eq!(r.server_guid, 987654321);
    assert!(r.use_encryption);
    assert_eq!(r.mtu, 1492);
}

#[test]
fn parse_reply1_wrong_id_returns_none() {
    let mut buf = vec![0x00u8];
    buf.resize(28, 0);
    // Not a Reply 1 (wrong ID) — Ok(None), not an error.
    assert!(parse_reply1(&buf).unwrap().is_none());
}

#[test]
fn parse_reply1_too_short_is_error() {
    let mut buf = vec![ID_OPEN_CONN_REPL_1];
    buf.extend_from_slice(&MAGIC);
    // Only 17 bytes total — well under the 28-byte minimum.
    assert!(parse_reply1(&buf).is_err());
}

#[test]
fn parse_reply1_wrong_magic_is_error() {
    let mut buf = vec![ID_OPEN_CONN_REPL_1];
    buf.extend_from_slice(&[0u8; 16]); // bad magic
    buf.resize(28, 0);
    assert!(parse_reply1(&buf).is_err());
}

#[test]
fn parse_reply2_valid() {
    let mut buf = Vec::new();
    buf.push(ID_OPEN_CONN_REPL_2);
    buf.extend_from_slice(&MAGIC);
    buf.extend_from_slice(&111111i64.to_be_bytes()); // server_guid
    let client_addr = SocketAddrV4::new(10, 0, 0, 2, 54321);
    buf.extend_from_slice(&encode_ipv4_addr(&client_addr));
    buf.extend_from_slice(&1200u16.to_be_bytes()); // mtu
    buf.push(0); // use_encryption = false
    let r = parse_reply2(&buf).unwrap().unwrap();
    assert_eq!(r.server_guid, 111111);
    assert_eq!(r.client_addr, client_addr);
    assert_eq!(r.mtu, 1200);
    assert!(!r.use_encryption);
}

#[test]
fn parse_reply2_too_short_is_error() {
    let mut buf = vec![ID_OPEN_CONN_REPL_2];
    buf.extend_from_slice(&MAGIC);
    assert!(parse_reply2(&buf).is_err());
}

#[test]
fn parse_reply2_wrong_id_returns_none() {
    let mut buf = vec![0x00u8];
    buf.resize(44, 0);
    assert!(parse_reply2(&buf).unwrap().is_none());
}

/// Regression: real Bedrock servers (EaseCation, NetherGames) send a 35-byte
/// Reply 2 with a compact 7-byte IPv4 system address. Previously the parser
/// assumed a 16-byte address and rejected these with
/// "Reply 2 packet too short: 25 bytes consumed, only 10 remain (need 16)".
#[test]
fn parse_reply2_real_35_byte_shape() {
    let client_addr = SocketAddrV4::new(203, 0, 113, 7, 54321);
    let mut buf = Vec::with_capacity(35);
    buf.push(ID_OPEN_CONN_REPL_2);
    buf.extend_from_slice(&MAGIC);
    buf.extend_from_slice(&111111i64.to_be_bytes()); // server_guid
    buf.extend_from_slice(&encode_ipv4_addr(&client_addr)); // 7 bytes
    buf.extend_from_slice(&1200u16.to_be_bytes()); // mtu
    buf.push(0); // use_encryption = false
    assert_eq!(buf.len(), 35, "real Reply 2 is 35 bytes");

    let r = parse_reply2(&buf).unwrap().unwrap();
    assert_eq!(r.server_guid, 111111);
    assert_eq!(r.client_addr, client_addr);
    assert_eq!(r.mtu, 1200);
    assert!(!r.use_encryption);
}

#[test]
fn classify_incompatible_protocol_rejection() {
    let mut buf = vec![ID_INCOMPATIBLE_PROTOCOL];
    buf.extend_from_slice(&MAGIC);
    buf.push(10); // server protocol version
    let rej = classify_rejection(&buf).unwrap().unwrap();
    assert_eq!(
        rej,
        HandshakeRejection::IncompatibleProtocol {
            server_protocol: 10
        }
    );
    assert_eq!(
        rej.as_message(11),
        "incompatible protocol version (server=10, client=11)"
    );
}

#[test]
fn classify_ip_banned_rejection() {
    let mut buf = vec![ID_IP_BANNED];
    buf.extend_from_slice(&MAGIC);
    let rej = classify_rejection(&buf).unwrap().unwrap();
    assert_eq!(rej, HandshakeRejection::IpBanned);
    assert!(rej.as_message(11).contains("banned"));
}

#[test]
fn classify_already_connected_rejection() {
    let mut buf = vec![ID_ALREADY_CONNECTED];
    buf.extend_from_slice(&MAGIC);
    let rej = classify_rejection(&buf).unwrap().unwrap();
    assert_eq!(rej, HandshakeRejection::AlreadyConnected);
}

#[test]
fn classify_no_free_incoming_rejection() {
    let mut buf = vec![ID_NO_FREE_INCOMING];
    buf.extend_from_slice(&MAGIC);
    let rej = classify_rejection(&buf).unwrap().unwrap();
    assert_eq!(rej, HandshakeRejection::NoFreeIncomingConnections);
    assert!(rej.as_message(11).contains("full"));
}

#[test]
fn classify_rejection_ignores_non_rejection_packets() {
    // A Reply 1 packet (0x06) has magic, but is not a rejection.
    let mut buf = vec![ID_OPEN_CONN_REPL_1];
    buf.extend_from_slice(&MAGIC);
    buf.resize(28, 0);
    assert!(classify_rejection(&buf).unwrap().is_none());

    // Truncated (no magic) — also None, not an error.
    assert!(classify_rejection(&[ID_IP_BANNED]).unwrap().is_none());

    // Empty — None.
    assert!(classify_rejection(&[]).unwrap().is_none());
}

#[test]
fn build_request1_padding_matches_mtu() {
    let req = build_request1(11, 576);
    assert_eq!(req[0], ID_OPEN_CONN_REQ_1);
    assert_eq!(&req[1..17], &MAGIC);
    assert_eq!(req[17], 11); // protocol_version
    assert_eq!(req.len(), 576); // whole datagram equals the proposed MTU
                                // Trailing bytes must be zero padding.
    assert!(req[18..].iter().all(|&b| b == 0));
}

#[test]
fn build_request1_clamps_below_fixed_overhead() {
    // An MTU smaller than the 18-byte fixed header can't fit padding;
    // the builder must still emit a valid (padding-free) request.
    let req = build_request1(11, 10);
    assert_eq!(req.len(), 18);
    assert_eq!(req[17], 11);
}

#[test]
fn build_request2_layout() {
    let addr = SocketAddrV4::new(192, 168, 0, 5, 12345);
    let req = build_request2(addr, 1200, 42);
    // id(1) + magic(16) + addr(7) + mtu(2) + guid(8) = 34.
    assert_eq!(req.len(), 34);
    assert_eq!(req[0], ID_OPEN_CONN_REQ_2);
    assert_eq!(&req[1..17], &MAGIC);
    assert_eq!(&req[17..24], &encode_ipv4_addr(&addr));
    assert_eq!(u16::from_be_bytes([req[24], req[25]]), 1200);
    assert_eq!(i64::from_be_bytes(req[26..34].try_into().unwrap()), 42);
}

#[test]
fn connection_builder_defaults() {
    let b = ConnectBuilder::default();
    assert_eq!(b.client_guid, 0);
    assert_eq!(b.protocol_version, 11);
    assert_eq!(b.mtu_candidates, vec![1492, 1200, 576]);
    assert_eq!(b.timeout, 10_000_000_000);
    assert_eq!(b.max_retries, 3);
}

#[test]
fn connection_builder_setters_chain() {
    let b = ConnectBuilder::default()
        .client_guid(7)
        .protocol_version(10)
        .mtu_candidates(vec![1400])
        .timeout(2_000_000_000)
        .max_retries(1);
    assert_eq!(b.client_guid, 7);
    assert_eq!(b.protocol_version, 10);
    assert_eq!(b.mtu_candidates, vec![1400]);
    assert_eq!(b.timeout, 2_000_000_000);
    assert_eq!(b.max_retries, 1);
}
