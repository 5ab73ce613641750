//! Connected system messages.
use mcget::addr::SocketAddrV4;
use mcget::bedrock::message::{
    classify, decode_addr_v4, encode_addr_v4, ConnectedPing, ConnectedPong, ConnectionRequest,
    ConnectionRequestAccepted, Disconnect, NewIncomingConnection, SystemMessage, ID_CONNECTED_PING,
    ID_CONNECTED_PONG, ID_CONNECTION_REQUEST, ID_CONNECTION_REQUEST_ACCEPTED, ID_DISCONNECT,
    ID_NEW_INCOMING_CONNECTION, SYSTEM_ADDRESS_COUNT,
};

#[test]
fn connected_ping_round_trip() {
    let m = ConnectedPing { time: 0x0102030405060708 };
    let bytes = m.encode();
    assert_eq!(bytes[0], ID_CONNECTED_PING);
    assert_eq!(bytes.len(), 9);
    let back = ConnectedPing::decode(&bytes[1..]).unwrap();
    assert_eq!(back, m);
}

#[test]
fn connected_ping_encode_exact_bytes() {
    // id(0x00) | time BE.
    let m = ConnectedPing { time: 1 };
    assert_eq!(m.encode(), [0x00, 0, 0, 0, 0, 0, 0, 0, 1]);
}

#[test]
fn connected_pong_round_trip() {
    let m = ConnectedPong { ping_time: 100, pong_time: 200 };
    let bytes = m.encode();
    assert_eq!(bytes[0], ID_CONNECTED_PONG);
    assert_eq!(bytes.len(), 17);
    let back = ConnectedPong::decode(&bytes[1..]).unwrap();
    assert_eq!(back, m);
}

#[test]
fn connection_request_round_trip() {
    let m = ConnectionRequest { client_guid: -1, request_time: 42, use_security: false };
    let bytes = m.encode();
    assert_eq!(bytes[0], ID_CONNECTION_REQUEST);
    assert_eq!(bytes.len(), 18);
    let back = ConnectionRequest::decode(&bytes[1..]).unwrap();
    assert_eq!(back, m);
}

#[test]
fn connection_request_security_flag_round_trips() {
    let m = ConnectionRequest { client_guid: 7, request_time: 9, use_security: true };
    let back = ConnectionRequest::decode(&m.encode()[1..]).unwrap();
    assert!(back.use_security);
}

#[test]
fn connection_request_accepted_round_trip() {
    let m = ConnectionRequestAccepted {
        client_address: SocketAddrV4::new(127, 0, 0, 1, 19132),
        system_index: 0,
        system_addresses: vec![
            SocketAddrV4::new(10, 0, 0, 1, 19132),
            SocketAddrV4::new(0, 0, 0, 0, 0),
        ],
        ping_time: 1,
        pong_time: 2,
    };
    let bytes = m.encode();
    assert_eq!(bytes[0], ID_CONNECTION_REQUEST_ACCEPTED);
    let back = ConnectionRequestAccepted::decode(&bytes[1..]).unwrap();
    // The decode pads to 20 slots, so compare field-by-field.
    assert_eq!(back.client_address, m.client_address);
    assert_eq!(back.system_index, m.system_index);
    assert_eq!(back.system_addresses.len(), SYSTEM_ADDRESS_COUNT);
    assert_eq!(back.system_addresses[0], m.system_addresses[0]);
    assert_eq!(back.ping_time, m.ping_time);
    assert_eq!(back.pong_time, m.pong_time);
}

#[test]
fn addr_v4_bytes_are_bitwise_noted() {
    // 127.0.0.1 → !each = 128.255.255.254 on the wire.
    let addr = SocketAddrV4::new(127, 0, 0, 1, 19132);
    let enc = encode_addr_v4(&addr);
    assert_eq!(enc[0], 4); // family
    assert_eq!(&enc[1..5], &[128, 255, 255, 254]); // NOTed octets
    assert_eq!(&enc[5..7], &19132u16.to_be_bytes()); // port BE
    // Round-trip.
    let (back, n) = decode_addr_v4(&enc, "test").unwrap();
    assert_eq!(back, addr);
    assert_eq!(n, 7);
}

#[test]
fn new_incoming_connection_round_trip() {
    let m = NewIncomingConnection {
        server_address: SocketAddrV4::new(8, 8, 8, 8, 53),
        system_addresses: vec![],
        ping_time: 5,
        pong_time: 6,
    };
    let bytes = m.encode();
    assert_eq!(bytes[0], ID_NEW_INCOMING_CONNECTION);
    let back = NewIncomingConnection::decode(&bytes[1..]).unwrap();
    assert_eq!(back.server_address, m.server_address);
    assert_eq!(back.system_addresses.len(), SYSTEM_ADDRESS_COUNT);
    assert_eq!(back.ping_time, m.ping_time);
    assert_eq!(back.pong_time, m.pong_time);
}

#[test]
fn disconnect_is_single_byte() {
    let bytes = Disconnect.encode();
    assert_eq!(bytes, [ID_DISCONNECT]);
}

#[test]
fn classify_routes_each_message() {
    // Build each message, classify the encoded body, expect the right variant.
    let ping = ConnectedPing { time: 1 }.encode();
    assert!(matches!(classify(&ping).unwrap(), SystemMessage::ConnectedPing(_)));
    let pong = ConnectedPong { ping_time: 1, pong_time: 2 }.encode();
    assert!(matches!(classify(&pong).unwrap(), SystemMessage::ConnectedPong(_)));
    let disc = Disconnect.encode();
    assert!(matches!(classify(&disc).unwrap(), SystemMessage::Disconnect(_)));
}

#[test]
fn classify_routes_unknown_to_application() {
    // 0x99 is not a system message ID → Application.
    match classify(&[0x99, 0x01, 0x02]).unwrap() {
        SystemMessage::Application(b) => assert_eq!(b, vec![0x99, 0x01, 0x02]),
        other => panic!("expected Application, got {other:?}"),
    }
}

#[test]
fn classify_rejects_empty() {
    assert!(classify(&[]).is_err());
}

#[test]
fn messages_have_names() {
    let name = |body: &[u8]| classify(body).unwrap().debug_name();
    assert_eq!(name(&ConnectedPing { time: 1 }.encode()), "ConnectedPing");
    assert_eq!(name(&ConnectedPong { ping_time: 1, pong_time: 2 }.encode()), "ConnectedPong");
    let request = ConnectionRequest { client_guid: 1, request_time: 2, use_security: false };
    assert_eq!(name(&request.encode()), "ConnectionRequest");
    assert_eq!(name(&Disconnect.encode()), "Disconnect");
    assert_eq!(name(&[0x77]), "Application");
}

#[test]
fn truncated_messages_say_why() {
    let e = |body: &[u8]| match classify(body).unwrap_err() {
        mcget::PingError::Protocol(s) => s,
        other => panic!("expected a protocol error, got {other:?}"),
    };
    assert_eq!(e(&[]), "cannot classify an empty frame body");
    assert_eq!(e(&[ID_CONNECTED_PING, 1]), "ConnectedPing: need 8 bytes, got 1");
    assert_eq!(
        e(&[ID_CONNECTED_PONG, 0, 0, 0, 0, 0, 0, 0, 0, 9]),
        "ConnectedPong.pong_time: need 8 bytes, got 1"
    );
    assert_eq!(
        e(&[ID_CONNECTION_REQUEST]),
        "ConnectionRequest.client_guid: need 8 bytes, got 0"
    );
    assert_eq!(
        e(&[ID_CONNECTION_REQUEST_ACCEPTED, 4]),
        "ConnectionRequestAccepted.client_address: address needs 7 bytes, got 1"
    );
    assert_eq!(
        e(&[ID_NEW_INCOMING_CONNECTION, 4]),
        "NewIncomingConnection.server_address: address needs 7 bytes, got 1"
    );
}

#[test]
fn an_acceptance_without_its_index_is_an_error() {
    for (len, got) in [(7usize, 0), (8, 1)] {
        let want = format!("ConnectionRequestAccepted.system_index: need 2 bytes, got {got}");
        let data = vec![4u8; len];
        match ConnectionRequestAccepted::decode(&data) {
            Err(mcget::PingError::Protocol(m)) => assert_eq!(m, want),
            other => panic!("expected a protocol error, got {other:?}"),
        }
        let mut body = vec![ID_CONNECTION_REQUEST_ACCEPTED];
        body.extend_from_slice(&data);
        match classify(&body) {
            Err(mcget::PingError::Protocol(m)) => assert_eq!(m, want),
            other => panic!("expected a protocol error, got {other:?}"),
        }
    }
}
