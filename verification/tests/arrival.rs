//! What comes late, twice or out of order.
use mcget::bedrock::conn::{
    classify_rejection, ConnectBuilder, Reply1, Stage1Step, Stage2Step, ID_INCOMPATIBLE_PROTOCOL,
};
use mcget::addr::{SocketAddr, SocketAddrV4};
use mcget::bedrock::datagram::{
    classify, AckRange, Acknowledgement, Datagram, Frame, Incoming, Reliability, SplitInfo,
};
use mcget::bedrock::raknet::MAGIC;
use mcget::bedrock::reliability::ReliabilityEngine;
use mcget::bedrock::window::{DatagramWindow, SEQ_COUNT};
use mcget::PingError;

const SECOND: u64 = 1_000_000_000;

fn message(e: PingError) -> String {
    match e {
        PingError::Protocol(s) => s,
        other => panic!("expected a protocol error, got {other:?}"),
    }
}

fn datagram(bytes: &[u8]) -> Datagram {
    match classify(bytes).unwrap() {
        Incoming::Datagram(d) => d,
        other => panic!("expected a datagram, got {other:?}"),
    }
}

// ---------- the window ----------

#[test]
fn a_number_before_the_first_is_new_once() {
    let mut w = DatagramWindow::new();
    assert!(w.record(1));
    assert!(w.record(0));
    assert!(!w.record(0));
    assert!(!w.record(1));
    assert_eq!(w.lowest_unseen(), 2);
    assert_eq!(w.highest_seen(), 1);
    assert!(w.missing().is_empty());
    assert!(w.record(2));
    assert!(!w.record(0));
}

#[test]
fn early_numbers_wrap_round() {
    let mut w = DatagramWindow::new();
    assert!(w.record(2));
    assert!(w.record(SEQ_COUNT - 1));
    assert!(w.record(0));
    assert!(!w.record(SEQ_COUNT - 1));
    assert!(w.record(1));
    assert!(!w.record(1));
    assert_eq!(w.lowest_unseen(), 3);
}

#[test]
fn missing_numbers_were_never_recorded() {
    let mut w = DatagramWindow::new();
    for x in [10u32, 15, 12, 15, 20, 7, 19, 10, 16] {
        w.record(x);
    }
    // Between 10 and 20 there never came 11, 13, 14, 17 and 18.
    assert_eq!(
        w.missing(),
        vec![AckRange::single(11), AckRange::range(13, 14), AckRange::range(17, 18)]
    );
    for x in [18u32, 11, 14, 13, 17] {
        assert!(w.record(x));
    }
    assert!(w.missing().is_empty());
    assert_eq!(w.lowest_unseen(), 21);
}

#[test]
fn missing_numbers_wrap_round() {
    let mut w = DatagramWindow::new();
    for x in [SEQ_COUNT - 3, 2, SEQ_COUNT - 1] {
        assert!(w.record(x));
    }
    assert_eq!(
        w.missing(),
        vec![AckRange::single(SEQ_COUNT - 2), AckRange::range(0, 1)]
    );
}

// ---------- duplicates ----------

#[test]
fn a_duplicate_datagram_gives_nothing() {
    let mut eng = ReliabilityEngine::new(0);
    let dg = Datagram::new(0, vec![Frame::new(Reliability::Unreliable, vec![0x42])]).unwrap();
    assert_eq!(eng.on_datagram_received(&dg, 0).unwrap().len(), 1);
    assert!(eng.on_datagram_received(&dg, 0).unwrap().is_empty());
    assert_eq!(eng.drain_acks().unwrap().ranges(), &[AckRange::single(0)]);
    assert!(eng.on_datagram_received(&dg, 0).unwrap().is_empty());
    assert!(eng.drain_acks().is_none());
}

#[test]
fn a_repeated_fragment_keeps_the_reassembly() {
    let mut eng = ReliabilityEngine::new(0);
    let part = |index: u32, byte: u8| {
        Frame::new(Reliability::ReliableOrdered, vec![byte])
            .with_reliable_index(0)
            .with_order(0, 0)
            .with_split(SplitInfo { count: 2, id: 1, index })
    };
    let first = Datagram::new(0, vec![part(0, 1)]).unwrap();
    let second = Datagram::new(1, vec![part(1, 2)]).unwrap();
    eng.on_datagram_received(&first, 0).unwrap();
    assert!(eng.on_datagram_received(&first, 0).unwrap().is_empty());
    eng.on_datagram_received(&second, 0).unwrap();
    let drained = eng.drain_ordered();
    assert_eq!(drained.len(), 1);
    assert_eq!(drained[0].body(), &[1, 2]);
}

#[test]
fn an_early_datagram_is_acknowledged() {
    let mut eng = ReliabilityEngine::new(0);
    for seq in [1u32, 0] {
        eng.on_datagram_received(&Datagram::new(seq, vec![]).unwrap(), 0).unwrap();
    }
    assert_eq!(eng.drain_acks().unwrap().ranges(), &[AckRange::range(0, 1)]);
    assert!(eng.build_nack().is_none());
}

// ---------- order ----------

#[test]
fn ordered_payloads_come_out_in_order() {
    let mut sender = ReliabilityEngine::new(0);
    let bodies: Vec<Vec<u8>> = (0..40usize).map(|i| vec![i as u8; i * 7]).collect();
    let packets: Vec<Vec<u8>> = bodies
        .iter()
        .map(|b| sender.prepare_send(Reliability::ReliableOrdered, b.clone(), 50, 0).unwrap())
        .collect();

    // Nothing is drained before all have arrived.
    let mut late = ReliabilityEngine::new(0);
    for k in 0..40usize {
        let d = datagram(&packets[(k * 17 + 5) % 40]);
        assert!(late.on_datagram_received(&d, 0).unwrap().is_empty());
    }
    let drained = late.drain_ordered();
    assert_eq!(drained.len(), 40);
    for (i, f) in drained.iter().enumerate() {
        assert_eq!(f.body(), &bodies[i][..]);
        assert_eq!(f.order_index(), Some(i as u32));
        assert!(f.split().is_none());
    }
    assert!(late.drain_ordered().is_empty());

    // Every packet arrives twice, and the queue is drained now and then.
    let mut receiver = ReliabilityEngine::new(0);
    let mut given: Vec<Vec<u8>> = Vec::new();
    for k in 0..80usize {
        let d = datagram(&packets[(k * 29 + 3) % 40]);
        assert!(receiver.on_datagram_received(&d, 0).unwrap().is_empty());
        if k % 3 == 0 {
            given.extend(receiver.drain_ordered().iter().map(|f| f.body().to_vec()));
        }
    }
    given.extend(receiver.drain_ordered().iter().map(|f| f.body().to_vec()));
    assert_eq!(given, bodies);
}

// ---------- inactivity ----------

#[test]
fn every_packet_keeps_the_session_alive() {
    let t = 5 * SECOND;
    let silent = ReliabilityEngine::new(t);
    assert!(!silent.is_alive(t + 15 * SECOND));
    for is_ack in [true, false] {
        let mut eng = ReliabilityEngine::new(t);
        let empty = Acknowledgement::new(is_ack, vec![]);
        if is_ack {
            eng.on_ack(&empty, t + 9 * SECOND);
        } else {
            assert!(eng.on_nack(&empty, t + 9 * SECOND).is_empty());
        }
        assert!(eng.is_alive(t + 15 * SECOND));
        // Ten seconds and two round trips of 200 ms after the packet it is over.
        assert!(eng.is_alive(t + 19 * SECOND + 399_999_999));
        assert!(!eng.is_alive(t + 19 * SECOND + 400_000_000));
    }
    let mut eng = ReliabilityEngine::new(t);
    let dg = Datagram::new(3, vec![]).unwrap();
    eng.on_datagram_received(&dg, t).unwrap();
    eng.on_datagram_received(&dg, t + 9 * SECOND).unwrap();
    assert!(eng.is_alive(t + 15 * SECOND));
}

// ---------- malformed rejections ----------

#[test]
fn a_rejection_without_its_version_is_malformed() {
    let mut data = vec![ID_INCOMPATIBLE_PROTOCOL];
    data.extend_from_slice(&MAGIC);
    let why = message(classify_rejection(&data).unwrap_err());
    assert!(why.starts_with("Rejection"), "{why}");

    let b = ConnectBuilder::default();
    let at = match b.stage1() {
        Stage1Step::Send { at, .. } => at,
        other => panic!("nothing to send: {other:?}"),
    };
    match b.stage1_packet(at, &data) {
        Stage1Step::Failed(e) => assert_eq!(message(e), why),
        other => panic!("went on: {other:?}"),
    }
    let reply = Reply1 { server_guid: 1, use_encryption: false, mtu: 1200 };
    let local = SocketAddr::V4(SocketAddrV4::new(10, 0, 0, 2, 5000));
    let at = match b.stage2(&local, reply) {
        Stage2Step::Send { at, .. } => at,
        other => panic!("nothing to send: {other:?}"),
    };
    match b.stage2_packet(at, &data) {
        Stage2Step::Failed(e) => assert_eq!(message(e), why),
        other => panic!("went on: {other:?}"),
    }
}

// ---------- resending ----------

#[test]
fn a_datagram_is_sent_again_only_after_the_threshold() {
    let mut eng = ReliabilityEngine::new(0);
    let packet = eng.prepare_send(Reliability::Reliable, vec![1], 100, 0).unwrap();
    // Four round trips of 200 ms.
    assert!(eng.resend_due(800_000_000).is_empty());
    assert_eq!(eng.resend_due(800_000_001), vec![packet]);
}

#[test]
fn attempts_are_counted_where_there_are_any() {
    assert!(ConnectBuilder::default().can_be_tried());
    let many = ConnectBuilder::default().max_retries(u32::MAX);
    assert!(!many.can_be_tried());
    // No candidate is large enough, so nothing is tried.
    let none = ConnectBuilder::default().mtu_candidates(vec![0, 1]).max_retries(u32::MAX);
    assert!(none.can_be_tried());
    assert!(matches!(none.stage1(), Stage1Step::Failed(_)));
}
