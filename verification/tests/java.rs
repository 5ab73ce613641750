//! The Server List Ping.
use mcget::addr::{SocketAddr, SocketAddrV4};
use mcget::java::{
    check_pong, frame_packet, ping_request, read_string, status_text, write_string, Action, Client,
    Description, Event, LengthStep, PacketLength, PlayerSample, Players, StatusResponse, Version,
    ANY_PROTOCOL_VERSION,
};
use mcget::PingError;

/// The description that a JSON value stands for.
fn description(value: serde_json::Value) -> Description {
    match value {
        serde_json::Value::String(s) => Description::Plain(s),
        serde_json::Value::Object(mut m) => Description::Object {
            text: m.remove("text").unwrap().as_str().unwrap().to_string(),
            extra: m.remove("extra").map(|v| v.as_array().unwrap().clone()),
            other: m,
        },
        other => panic!("no description: {other}"),
    }
}

/// The status that a JSON value stands for.
fn status(value: serde_json::Value) -> StatusResponse {
    let text = |v: &serde_json::Value| v.as_str().unwrap().to_string();
    StatusResponse {
        version: Version {
            name: text(&value["version"]["name"]),
            protocol: value["version"]["protocol"].as_i64().unwrap() as i32,
        },
        players: Players {
            max: value["players"]["max"].as_i64().unwrap() as i32,
            online: value["players"]["online"].as_i64().unwrap() as i32,
            sample: value["players"]["sample"].as_array().map(|list| {
                list.iter()
                    .map(|p| PlayerSample { name: text(&p["name"]), id: text(&p["id"]) })
                    .collect()
            }),
        },
        description: description(value["description"].clone()),
        favicon: value["favicon"].as_str().map(|s| s.to_string()),
        enforces_secure_chat: value["enforcesSecureChat"].as_bool(),
        previews_chat: value["previewsChat"].as_bool(),
    }
}

fn localhost() -> Vec<SocketAddr> {
    vec![SocketAddr::V4(SocketAddrV4::new(127, 0, 0, 1, 25565))]
}

fn message(e: PingError) -> String {
    match e {
        PingError::Protocol(s) => s,
        other => panic!("expected a protocol error, got {other:?}"),
    }
}

#[test]
fn parse_plain_description() {
    let json = r#"{"text":"hello"}"#;
    let d = description(serde_json::from_str(json).unwrap());
    assert_eq!(d.to_plain_text(), "hello");
}

#[test]
fn parse_plain_string_description() {
    let json = r#""A Minecraft Server""#;
    let d = description(serde_json::from_str(json).unwrap());
    assert_eq!(d.to_plain_text(), "A Minecraft Server");
}

#[test]
fn parse_full_status_response() {
    let json = r#"{
        "version": {"name": "1.21.8", "protocol": 772},
        "players": {"max": 20, "online": 3, "sample": [{"name": "Steve", "id": "abc"}]},
        "description": {"text": "Hi", "extra": [{"text": "!"}]},
        "favicon": "data:image/png;base64,xxx",
        "enforcesSecureChat": true
    }"#;
    let s = status(serde_json::from_str(json).unwrap());
    assert_eq!(s.version.protocol, 772);
    assert_eq!(s.players.online, 3);
    assert_eq!(s.description.to_plain_text(), "Hi!");
    assert_eq!(s.enforces_secure_chat, Some(true));
    assert!(s.favicon.is_some());
}

#[test]
fn string_helpers_roundtrip() {
    let mut buf = Vec::new();
    write_string(&mut buf, "hello");
    let (s, n) = read_string(&buf).unwrap();
    assert_eq!(s, "hello");
    assert_eq!(n, buf.len());
}

#[test]
fn client_ping_resolves_addr() {
    let client = Client::new();
    let req = client.ping(("127.0.0.1", 25565), localhost()).unwrap();
    assert_eq!(req.port, 25565);
    assert_eq!(req.host_for_handshake, "127.0.0.1");
    assert_eq!(req.protocol_version, ANY_PROTOCOL_VERSION);
}

#[test]
fn protocol_version_builder_chain() {
    let client = Client::new();
    let req = client.ping(("127.0.0.1", 25565), localhost()).unwrap();
    let req = req.protocol_version(770);
    assert_eq!(req.protocol_version, 770);
}

#[test]
fn latency_builder_keeps_the_request() {
    let req = Client::new().ping("127.0.0.1", localhost()).unwrap();
    let req = req.with_latency().protocol_version(47);
    assert_eq!(req.inner.protocol_version, 47);
    assert_eq!(req.inner.host_for_handshake, "127.0.0.1");
}

#[test]
fn ping_needs_an_address() {
    let e = Client::new().ping("nowhere", Vec::new()).unwrap_err();
    assert_eq!(message(e), "to_socket_addrs returned no address");
}

#[test]
fn ping_takes_the_last_address() {
    let mut addrs = localhost();
    addrs.push(SocketAddr::V6 { ip: "::1".to_string(), port: 7 });
    let req = Client::new().ping("localhost", addrs).unwrap();
    assert_eq!(req.port, 7);
    assert_eq!(req.addr, SocketAddr::V6 { ip: "::1".to_string(), port: 7 });
}

#[test]
fn fragments_without_text_are_skipped() {
    let json = r#"{"text":"a","extra":[{"color":"red"},{"text":"b"},"c",{"text":5},{"text":"d"}]}"#;
    let d = description(serde_json::from_str(json).unwrap());
    assert_eq!(d.to_plain_text(), "abd");
}

#[test]
fn strings_are_utf8_behind_their_length() {
    let mut buf = vec![9];
    write_string(&mut buf, "é!");
    assert_eq!(buf, [9, 3, 0xc3, 0xa9, b'!']);
    let long = "x".repeat(200);
    let mut buf = Vec::new();
    write_string(&mut buf, &long);
    assert_eq!(&buf[..2], &[0xc8, 0x01]);
    assert_eq!(read_string(&buf).unwrap(), (long, 202));
}

#[test]
fn malformed_strings_say_why() {
    let e = |data: &[u8]| message(read_string(data).unwrap_err());
    assert_eq!(e(&[0x80]), "VarInt parse I/O error: failed to fill whole buffer");
    assert_eq!(
        e(&[0x80, 0x80, 0x80, 0x80, 0x80, 0x80]),
        "VarInt parse I/O error: varint too long (length > 5)"
    );
    assert_eq!(e(&[0xff, 0xff, 0xff, 0xff, 0x0f]), "negative string length: -1");
    assert_eq!(e(&[3, b'a']), "string declares 3 bytes but not enough input remains");
    assert!(e(&[1, 0xff]).starts_with("string is not UTF-8: invalid utf-8"));
}

#[test]
fn packets_stand_behind_their_length() {
    assert_eq!(frame_packet(&[0x00]), [1, 0]);
    let framed = frame_packet(&[7; 300]);
    assert_eq!(&framed[..3], &[0xac, 0x02, 7]);
    assert_eq!(framed.len(), 302);
}

#[test]
fn packet_length_is_read_byte_by_byte() {
    let mut length = PacketLength::new();
    assert!(matches!(length.step(Some(0xac)), LengthStep::More));
    assert!(matches!(length.step(Some(0x02)), LengthStep::Done(300)));
}

#[test]
fn packet_length_errors_say_why() {
    let run = |bytes: &[Option<u8>]| {
        let mut length = PacketLength::new();
        for &b in bytes {
            match length.step(b) {
                LengthStep::More => {}
                LengthStep::Done(n) => return format!("{n}"),
                LengthStep::Fail(e) => return message(e),
            }
        }
        "more".to_string()
    };
    assert_eq!(run(&[Some(0x80), None]), "connection closed while reading packet length");
    assert_eq!(run(&[Some(0x80); 6]), "packet length VarInt exceeds 5 bytes");
    assert_eq!(
        run(&[Some(0xff), Some(0xff), Some(0xff), Some(0xff), Some(0x0f)]),
        "negative packet length: -1"
    );
    assert_eq!(run(&[Some(0x80); 5]), "more");
}

#[test]
fn handshake_has_the_documented_layout() {
    let req = Client::new().ping("mc.example.net:4000", vec![SocketAddr::V4(
        SocketAddrV4::new(10, 0, 0, 1, 4000),
    )]).unwrap();
    let mut expected = vec![0x00, 0xff, 0xff, 0xff, 0xff, 0x0f, 14];
    expected.extend_from_slice(b"mc.example.net");
    expected.extend_from_slice(&4000u16.to_be_bytes());
    expected.push(1);
    assert_eq!(req.handshake(), expected);
}

#[test]
fn status_replies_are_checked() {
    let mut payload = vec![0];
    write_string(&mut payload, "{}");
    assert_eq!(status_text(&payload).unwrap(), "{}");
    let e = message(status_text(&[]).unwrap_err());
    assert_eq!(e, "Status Response packet ID is not 0x00: None");
    let e = message(status_text(&[5, 0]).unwrap_err());
    assert_eq!(e, "Status Response packet ID is not 0x00: Some(5)");
}

#[test]
fn pongs_are_checked() {
    assert!(check_pong(&ping_request(-5), -5).is_ok());
    let e = |data: &[u8], sent| message(check_pong(data, sent).unwrap_err());
    assert_eq!(e(&[], 1), "Pong packet ID is not 0x01: None");
    assert_eq!(e(&[0, 1], 1), "Pong packet ID is not 0x01: Some(0)");
    assert_eq!(e(&[1, 2, 3], 1), "Pong payload too short: 3 bytes");
    assert_eq!(
        e(&ping_request(-7), 1),
        "Pong echoed timestamp mismatch: sent 1, received -7"
    );
}

#[test]
fn exchange_without_latency_ends_after_the_status() {
    let req = Client::new().ping("127.0.0.1", localhost()).unwrap();
    let handshake = req.handshake();
    let mut exchange = req.exchange();
    match exchange.step(Event::Connected) {
        Action::Send(frames) => assert_eq!(frames, [frame_packet(&handshake), vec![1, 0]]),
        other => panic!("unexpected {other:?}"),
    }
    let mut reply = vec![0];
    write_string(&mut reply, "{\"a\":1}");
    match exchange.step(Event::Packet(reply)) {
        Action::Parse(s) => assert_eq!(s, "{\"a\":1}"),
        other => panic!("unexpected {other:?}"),
    }
    assert!(matches!(exchange.step(Event::Parsed(12)), Action::Finish));
}

#[test]
fn exchange_with_latency_waits_for_the_echo() {
    let req = Client::new().ping("127.0.0.1", localhost()).unwrap();
    let mut exchange = req.with_latency().exchange();
    assert_eq!(*exchange.target(), localhost()[0]);
    assert!(matches!(exchange.step(Event::Connected), Action::Send(_)));
    let mut reply = vec![0];
    write_string(&mut reply, "{}");
    assert!(matches!(exchange.step(Event::Packet(reply)), Action::Parse(_)));
    match exchange.step(Event::Parsed(1000)) {
        Action::Send(frames) => assert_eq!(frames, [frame_packet(&ping_request(1000))]),
        other => panic!("unexpected {other:?}"),
    }
    let mut late = exchange.clone();
    assert!(matches!(exchange.step(Event::Packet(ping_request(1000))), Action::Finish));
    match late.step(Event::Packet(ping_request(999))) {
        Action::Fail(e) => assert_eq!(
            message(e),
            "Pong echoed timestamp mismatch: sent 1000, received 999"
        ),
        other => panic!("unexpected {other:?}"),
    }
}

#[test]
fn exchange_fails_on_a_wrong_reply() {
    let req = Client::new().ping("127.0.0.1", localhost()).unwrap();
    let mut exchange = req.exchange();
    exchange.step(Event::Connected);
    match exchange.step(Event::Packet(vec![2])) {
        Action::Fail(e) => {
            assert_eq!(message(e), "Status Response packet ID is not 0x00: Some(2)")
        }
        other => panic!("unexpected {other:?}"),
    }
}
