//! The handshake and the reliable session.
use mcget::addr::{SocketAddr, SocketAddrV4};
use mcget::bedrock::conn::{
    parse_reply1, parse_reply2, ConnectBuilder, Connection, Reply1, Stage1Step, Stage2Step,
    ID_ALREADY_CONNECTED, ID_IP_BANNED, ID_OPEN_CONN_REPL_1, ID_OPEN_CONN_REPL_2, MIN_WAIT,
};
use mcget::bedrock::datagram::{
    AckRange, Acknowledgement, Datagram, Frame, Incoming, Reassembler, Reliability, SplitInfo,
};
use mcget::bedrock::raknet::{encode_ipv4_addr, PacketBuf, MAGIC};
use mcget::bedrock::reliability::ReliabilityEngine;
use mcget::bedrock::reliable_conn::{max_frame_body, ReliableConnection, DELIVERY_CHANNEL};
use mcget::PingError;

fn message(e: PingError) -> String {
    match e {
        PingError::Protocol(s) => s,
        other => panic!("expected a protocol error, got {other:?}"),
    }
}

fn server() -> SocketAddrV4 {
    SocketAddrV4::new(10, 0, 0, 1, 19132)
}

fn reply1(mtu: u16) -> Vec<u8> {
    let mut buf = vec![ID_OPEN_CONN_REPL_1];
    buf.extend_from_slice(&MAGIC);
    buf.extend_from_slice(&77i64.to_be_bytes());
    buf.push(0);
    buf.extend_from_slice(&mtu.to_be_bytes());
    buf
}

fn reply2(guid: i64, mtu: u16) -> Vec<u8> {
    let mut buf = vec![ID_OPEN_CONN_REPL_2];
    buf.extend_from_slice(&MAGIC);
    buf.extend_from_slice(&guid.to_be_bytes());
    buf.extend_from_slice(&encode_ipv4_addr(&SocketAddrV4::new(10, 0, 0, 2, 5000)));
    buf.extend_from_slice(&mtu.to_be_bytes());
    buf.push(1);
    buf
}

fn rejection(id: u8) -> Vec<u8> {
    let mut buf = vec![id];
    buf.extend_from_slice(&MAGIC);
    buf
}

#[test]
fn first_stage_tries_each_mtu_in_turn() {
    let b = ConnectBuilder::default().mtu_candidates(vec![1400, 40, 600]).max_retries(2);
    let mut step = b.stage1();
    let mut sizes = Vec::new();
    let end = loop {
        match step {
            Stage1Step::Send { at, packet, wait } => {
                sizes.push(packet.len());
                // A sixth of ten seconds.
                assert_eq!(wait, 1_666_666_666);
                step = if sizes.len() % 2 == 0 {
                    b.stage1_silence(at)
                } else {
                    b.stage1_packet(at, &[0x7f])
                };
            }
            Stage1Step::Failed(e) => break message(e),
            other => panic!("unexpected {other:?}"),
        }
    };
    assert_eq!(sizes, [1400, 1400, 600, 600]);
    assert_eq!(end, "all MTU candidates rejected");
}

#[test]
fn waits_are_at_least_half_a_second() {
    let b = ConnectBuilder::default().timeout(1_000_000_000);
    match b.stage1() {
        Stage1Step::Send { wait, .. } => assert_eq!(wait, MIN_WAIT),
        other => panic!("unexpected {other:?}"),
    }
}

#[test]
fn replies_complete_the_handshake() {
    let b = ConnectBuilder::default().client_guid(5);
    let r1 = match b.stage1() {
        Stage1Step::Send { at, .. } => match b.stage1_packet(at, &reply1(1200)) {
            Stage1Step::Agreed(r) => r,
            other => panic!("unexpected {other:?}"),
        },
        other => panic!("unexpected {other:?}"),
    };
    let local = SocketAddr::V4(SocketAddrV4::new(10, 0, 0, 2, 5000));
    let r2 = match b.stage2(&local, r1) {
        Stage2Step::Send { at, packet, wait } => {
            assert_eq!(packet.len(), 34);
            assert_eq!(wait, 3_333_333_333);
            match b.stage2_packet(at, &reply2(77, 1200)) {
                Stage2Step::Confirmed(r) => r,
                other => panic!("unexpected {other:?}"),
            }
        }
        other => panic!("unexpected {other:?}"),
    };
    let c = b.establish(server(), r1, r2).unwrap();
    assert_eq!((c.server_guid(), c.mtu(), c.client_guid()), (77, 1200, 5));
    assert!(c.use_encryption());
    assert_eq!(c.peer(), server());
    assert_eq!(c.receive_len(), 1201);
}

#[test]
fn rejections_end_the_handshake() {
    let b = ConnectBuilder::default();
    match b.stage1() {
        Stage1Step::Send { at, .. } => match b.stage1_packet(at, &rejection(ID_IP_BANNED)) {
            Stage1Step::Failed(e) => {
                let m = message(e);
                assert!(m.starts_with("handshake rejected: "), "{m}");
                assert!(m.contains("banned"), "{m}");
            }
            other => panic!("unexpected {other:?}"),
        },
        other => panic!("unexpected {other:?}"),
    }
    let r1 = parse_reply1(&reply1(1200)).unwrap().unwrap();
    let local = SocketAddr::V4(server());
    match b.stage2(&local, r1) {
        Stage2Step::Send { at, .. } => {
            match b.stage2_packet(at, &rejection(ID_ALREADY_CONNECTED)) {
                Stage2Step::Failed(e) => {
                    assert!(message(e).starts_with("handshake rejected: "));
                }
                other => panic!("unexpected {other:?}"),
            }
        }
        other => panic!("unexpected {other:?}"),
    }
}

#[test]
fn second_stage_gives_up_after_its_retries() {
    let b = ConnectBuilder::default().max_retries(2);
    let r1 = Reply1 { server_guid: 1, use_encryption: false, mtu: 600 };
    let mut step = b.stage2(&SocketAddr::V4(server()), r1);
    let mut sent = 0;
    let end = loop {
        match step {
            Stage2Step::Send { at, .. } => {
                sent += 1;
                step = b.stage2_silence(at);
            }
            Stage2Step::Failed(e) => break message(e),
            other => panic!("unexpected {other:?}"),
        }
    };
    assert_eq!(sent, 2);
    assert_eq!(end, "no Reply 2 (0x08) after 2 retries");
}

#[test]
fn replies_must_agree() {
    let b = ConnectBuilder::default();
    let r1 = parse_reply1(&reply1(1200)).unwrap().unwrap();
    let r2 = parse_reply2(&reply2(78, 1400)).unwrap().unwrap();
    assert_eq!(
        message(b.establish(server(), r1, r2).unwrap_err()),
        "handshake parameters diverged between Reply 1 and Reply 2 (guid 77/78, mtu 1200/1400)"
    );
}

#[test]
fn the_handshake_needs_ipv4() {
    let b = ConnectBuilder::default();
    let v6 = SocketAddr::V6 { ip: "::1".to_string(), port: 1 };
    assert_eq!(
        message(b.server(vec![SocketAddr::V4(server()), v6.clone()]).unwrap_err()),
        "IPv6 server addresses are not supported by the handshake yet"
    );
    assert_eq!(message(b.server(vec![]).unwrap_err()), "to_socket_addrs returned no address");
    assert_eq!(b.server(vec![v6.clone(), SocketAddr::V4(server())]).unwrap(), server());
    let r1 = parse_reply1(&reply1(1200)).unwrap().unwrap();
    match b.stage2(&v6, r1) {
        Stage2Step::Failed(e) => {
            assert_eq!(message(e), "local socket bound to IPv6 (handshake is IPv4-only)")
        }
        other => panic!("unexpected {other:?}"),
    }
}

fn connection(mtu: u16) -> Connection {
    Connection {
        server_addr: server(),
        server_guid: 3,
        mtu,
        use_encryption: false,
        client_guid: 4,
    }
}

#[test]
fn datagrams_must_fit_the_mtu() {
    let dg = Datagram::new(0, vec![Frame::new(Reliability::Unreliable, vec![1; 20])]).unwrap();
    assert_eq!(connection(27).datagram_packet(&dg).unwrap().len(), 27);
    assert_eq!(
        message(connection(26).datagram_packet(&dg).unwrap_err()),
        "datagram is 27 bytes which exceeds the negotiated MTU of 26"
    );
}

#[test]
fn frame_bodies_leave_room_for_headers() {
    assert_eq!(max_frame_body(1200), 1176);
    assert_eq!(max_frame_body(24), 0);
    assert_eq!(max_frame_body(3), 0);
}

#[test]
fn payloads_reach_the_other_application() {
    let mut a = ReliableConnection::new(&connection(600), 0);
    let mut b = ReliableConnection::new(&connection(600), 0);
    assert_eq!((a.mtu(), a.server_guid()), (600, 3));
    let big: Vec<u8> = (0..2000u32).map(|i| i as u8).collect();
    for body in [vec![1], big, vec![], vec![2, 3]] {
        for r in [Reliability::Unreliable, Reliability::Reliable, Reliability::ReliableOrdered] {
            let packet = a.send(r, body.clone(), 0).unwrap();
            assert!(b.handle_incoming(&packet, 0).unwrap().is_empty());
            let frame = b.recv().unwrap().unwrap();
            assert_eq!(frame.body(), &body[..]);
            assert_eq!(frame.reliability(), r);
            assert!(b.recv().unwrap().is_none());
        }
    }
    // The receiver acknowledges all of them, and the sender forgets them.
    assert!(b.tick(1));
    let acks = b.take_outgoing();
    assert_eq!(acks.len(), 1);
    let all = Acknowledgement::decode(&acks[0]).unwrap().unwrap();
    assert_eq!(all.ranges(), &[AckRange::range(0, 11)]);
    assert!(a.handle_incoming(&acks[0], 2).unwrap().is_empty());
    assert!(a.tick(5_000_000_000));
    assert!(a.take_outgoing().is_empty());
}

#[test]
fn lost_packets_are_asked_for_and_sent_again() {
    let mut a = ReliableConnection::new(&connection(600), 0);
    let mut b = ReliableConnection::new(&connection(600), 0);
    let first = a.send(Reliability::ReliableOrdered, vec![0], 0).unwrap();
    let lost = a.send(Reliability::ReliableOrdered, vec![1], 0).unwrap();
    let later = a.send(Reliability::ReliableOrdered, vec![2], 0).unwrap();
    b.handle_incoming(&first, 0).unwrap();
    assert_eq!(b.recv().unwrap().unwrap().body(), &[0]);
    b.handle_incoming(&later, 0).unwrap();
    assert!(b.recv().unwrap().is_none());
    b.tick(1);
    let out = b.take_outgoing();
    assert_eq!(out.len(), 2);
    assert!(a.handle_incoming(&out[0], 2).unwrap().is_empty());
    assert_eq!(a.handle_incoming(&out[1], 2).unwrap(), [lost.clone()]);
    b.handle_incoming(&lost, 3).unwrap();
    assert_eq!(b.recv().unwrap().unwrap().body(), &[1]);
    assert_eq!(b.recv().unwrap().unwrap().body(), &[2]);
}

#[test]
fn unanswered_packets_are_sent_again() {
    let mut a = ReliableConnection::new(&connection(600), 0);
    let packet = a.send(Reliability::Reliable, vec![1], 0).unwrap();
    a.tick(100_000_000);
    assert!(a.take_outgoing().is_empty());
    a.tick(2_000_000_000);
    assert_eq!(a.take_outgoing(), [packet]);
    a.tick(2_000_000_001);
    assert!(a.take_outgoing().is_empty());
}

#[test]
fn a_silent_session_dies_for_good() {
    let mut a = ReliableConnection::new(&connection(600), 0);
    assert!(!a.tick(60_000_000_000));
    assert_eq!(message(a.recv().unwrap_err()), "reliability delivery channel closed");
    assert!(!a.tick(1));
}

#[test]
fn frames_that_wait_are_given_out_after_death() {
    let mut a = ReliableConnection::new(&connection(600), 0);
    let mut b = ReliableConnection::new(&connection(600), 0);
    let packet = a.send(Reliability::Unreliable, vec![9], 0).unwrap();
    b.handle_incoming(&packet, 0).unwrap();
    assert!(!b.tick(60_000_000_000));
    assert_eq!(b.recv().unwrap().unwrap().body(), &[9]);
    assert!(b.recv().is_err());
}

#[test]
fn a_full_delivery_queue_is_an_error() {
    let mut a = ReliableConnection::new(&connection(600), 0);
    let mut b = ReliableConnection::new(&connection(600), 0);
    for _ in 0..DELIVERY_CHANNEL {
        let packet = a.send(Reliability::Unreliable, vec![1], 0).unwrap();
        b.handle_incoming(&packet, 0).unwrap();
    }
    let packet = a.send(Reliability::Unreliable, vec![1], 0).unwrap();
    assert_eq!(
        message(b.handle_incoming(&packet, 0).unwrap_err()),
        "delivery queue full; application recv too slow"
    );
}

#[test]
fn unknown_packets_are_errors() {
    let mut a = ReliableConnection::new(&connection(600), 0);
    assert_eq!(
        message(a.handle_incoming(&[], 0).unwrap_err()),
        "empty packet: cannot classify a 0-byte datagram"
    );
    assert_eq!(
        message(a.handle_incoming(&[0x1f], 0).unwrap_err()),
        "unknown RakNet connected packet flag 0x1F (need 0x80 datagram / 0xC0 ACK / 0xA0 NACK)"
    );
}

// ---------- engine and wire details ----------

#[test]
fn an_ack_moves_the_round_trip_time() {
    let mut e = ReliabilityEngine::new(0);
    assert_eq!(e.rtt(), 200_000_000);
    e.prepare_send(Reliability::Reliable, vec![1], 100, 0).unwrap();
    e.on_ack(&Acknowledgement::new(true, vec![AckRange::single(0)]), 100_000_000);
    assert!(e.rtt() < 200_000_000 && e.rtt() >= 100_000_000);
    assert_eq!(e.unacked_len(), 0);
}

#[test]
fn an_ack_for_one_number_acks_only_that() {
    let mut e = ReliabilityEngine::new(0);
    for _ in 0..3 {
        e.prepare_send(Reliability::Reliable, vec![1], 100, 0).unwrap();
    }
    e.on_ack(&Acknowledgement::new(true, vec![AckRange::single(1)]), 1);
    assert_eq!(e.unacked_len(), 2);
    e.on_ack(&Acknowledgement::new(true, vec![AckRange::range(0, 2)]), 1);
    assert_eq!(e.unacked_len(), 0);
}

#[test]
fn fragments_come_together_in_any_order() {
    let body: Vec<u8> = (0..50).collect();
    let template = Frame::new(Reliability::Unreliable, body.clone());
    let frags = Frame::split_into(&template, 7, 3).unwrap();
    assert_eq!(frags.len(), 8);
    assert!(frags.iter().all(|f| f.body().len() <= 7));
    for order in [[7, 0, 6, 1, 5, 2, 4, 3], [0, 1, 2, 3, 4, 5, 6, 7]] {
        let mut r = Reassembler::new();
        let mut whole = None;
        for i in order {
            let f: &Frame = &frags[i];
            whole = r.add(f.split().unwrap(), f.body().to_vec()).unwrap();
        }
        assert_eq!(whole.unwrap(), body);
    }
}

#[test]
fn fragment_errors_say_why() {
    let split = |count, index| SplitInfo { count, id: 1, index };
    let mut r = Reassembler::new();
    let e = message(r.add(split(0, 0), vec![]).unwrap_err());
    assert_eq!(e, "split frame declares count=0");
    let e = message(r.add(split(2, 2), vec![]).unwrap_err());
    assert_eq!(e, "split_index 2 >= split_count 2");
    r.add(split(2, 0), vec![]).unwrap();
    let e = message(r.add(split(2, 0), vec![]).unwrap_err());
    assert_eq!(e, "duplicate split fragment index 0");
    let e = message(r.add(split(3, 1), vec![]).unwrap_err());
    assert!(e.starts_with("split count mismatch: expected 2, got 3"), "{e}");
    let template = Frame::new(Reliability::Unreliable, vec![1, 2]);
    let e = message(Frame::split_into(&template, 0, 1).unwrap_err());
    assert_eq!(e, "cannot split a frame with a zero-byte MTU budget");
}

#[test]
fn frame_errors_say_why() {
    let e = message(Frame::new(Reliability::Reliable, vec![]).encode().unwrap_err());
    assert_eq!(e, "reliability Reliable requires reliable_index to be set");
    let f = Frame::new(Reliability::Unreliable, vec![]).with_sequence_index(1);
    let e = message(f.encode().unwrap_err());
    assert_eq!(e, "reliability Unreliable requires sequence_index to be absent");
    let f = Frame::new(Reliability::Reliable, vec![]).with_reliable_index(0x1234567);
    let e = message(f.encode().unwrap_err());
    assert_eq!(e, "frame index 0x1234567 exceeds 24-bit maximum 0xffffff");
    let e = message(Frame::new(Reliability::Unreliable, vec![0; 8192]).encode().unwrap_err());
    assert_eq!(e, "frame body too large to encode: 8192 bytes (65536 bits > 65535)");
    assert!(Frame::new(Reliability::Unreliable, vec![0; 8191]).encode().is_ok());
    let e = message(Datagram::new(0x1000000, vec![]).unwrap_err());
    assert_eq!(e, "datagram sequence number 0x1000000 exceeds 24-bit maximum 0xffffff");
    let data = [0x00, 0x00, 0x09, 0xaa];
    let e = message(Frame::decode(&mut PacketBuf::new(&data, "x")).unwrap_err());
    assert_eq!(e, "frame body length 9 is not a whole number of bytes");
}

#[test]
fn packets_are_classified() {
    let ack = Acknowledgement::new(true, vec![AckRange::range(3, 9)]);
    match mcget::bedrock::datagram::classify(&ack.encode().unwrap()).unwrap() {
        Incoming::Ack(a) => assert_eq!(a, ack),
        other => panic!("unexpected {other:?}"),
    }
}

#[test]
fn cursor_errors_say_why() {
    let data = [1u8, 2, 3];
    let mut p = PacketBuf::new(&data, "Thing");
    assert_eq!(p.read_u8().unwrap(), 1);
    assert_eq!(
        message(p.read_u32().unwrap_err()),
        "Thing packet too short: 1 bytes consumed, only 2 remain (need 4)"
    );
    assert_eq!(message(p.expect_id(9).unwrap_err()), "Thing packet ID is not 0x09: 0x02");
}
