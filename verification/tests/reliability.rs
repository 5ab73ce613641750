//! The reliability engine and its windows.
use mcget::bedrock::datagram::{
    classify, AckRange, Acknowledgement, Datagram, Frame, Incoming, Reliability, SplitInfo,
};
use mcget::bedrock::reliability::{
    ReliabilityEngine, INACTIVITY_BASE, INITIAL_RTT, RESEND_RTT_MULTIPLIER,
};
use mcget::bedrock::window::{coalesce_ranges, seq_greater, DatagramWindow, SEQ_COUNT};

/// A fixed "now" anchor, in nanoseconds.
fn t0() -> u64 {
    5_000_000_000
}

// ---------- DatagramWindow ----------

#[test]
fn window_records_contiguous_and_advances() {
    let mut w = DatagramWindow::new();
    assert!(w.record(0));
    assert!(w.record(1));
    assert!(w.record(2));
    assert_eq!(w.lowest_unseen(), 3);
    assert!(w.missing().is_empty());
}

#[test]
fn window_detects_gap_as_missing() {
    let mut w = DatagramWindow::new();
    assert!(w.record(0));
    assert!(w.record(2)); // gap at 1
    let missing = w.missing();
    assert_eq!(missing, vec![AckRange::single(1)]);
}

#[test]
fn window_ignores_duplicates() {
    let mut w = DatagramWindow::new();
    assert!(w.record(5));
    assert!(!w.record(5)); // duplicate → false
    assert_eq!(w.highest_seen(), 5);
}

#[test]
fn window_missing_coalesces_a_run() {
    let mut w = DatagramWindow::new();
    assert!(w.record(0));
    assert!(w.record(5)); // gaps at 1,2,3,4
    let missing = w.missing();
    assert_eq!(missing, vec![AckRange::range(1, 4)]);
}

#[test]
fn window_wraps_at_24_bits() {
    let mut w = DatagramWindow::new();
    let high = (SEQ_COUNT - 1); // 0xFFFFFF
    assert!(w.record(high));
    assert!(w.record(0)); // wrapped contiguous
    assert_eq!(w.lowest_unseen(), 1);
    assert!(w.missing().is_empty());
}

// ---------- sequence helpers ----------

#[test]
fn seq_greater_handles_wraparound() {
    assert!(seq_greater(5, 3));
    assert!(!seq_greater(3, 5));
    // Near the wrap boundary: high numbers are "old".
    assert!(seq_greater(0, (SEQ_COUNT - 1)));
    assert!(!seq_greater((SEQ_COUNT - 1), 0));
}

// ---------- prepare_send / on_ack (RTT) ----------

#[test]
fn prepare_send_allocates_increasing_sequence_numbers() {
    let mut eng = ReliabilityEngine::new(t0());
    let b1 = eng
        .prepare_send(Reliability::ReliableOrdered, vec![0x1], 1024, t0())
        .unwrap();
    let b2 = eng
        .prepare_send(Reliability::ReliableOrdered, vec![0x2], 1024, t0())
        .unwrap();
    // Decode to read the assigned sequence numbers.
    let d1 = decode_datagram(&b1);
    let d2 = decode_datagram(&b2);
    assert_eq!(d1.sequence_number(), 0);
    assert_eq!(d2.sequence_number(), 1);
}

#[test]
fn ack_removes_datagram_and_updates_rtt() {
    let mut eng = ReliabilityEngine::new(t0());
    let bytes = eng
        .prepare_send(Reliability::ReliableOrdered, vec![0x1], 1024, t0())
        .unwrap();
    let _ = bytes;
    assert_eq!(eng.unacked_len(), 1);

    // Simulate an ACK arriving 100 ms later.
    let later = t0() + 100_000_000;
    eng.on_ack(
        &Acknowledgement::new(true, vec![AckRange::single(0)]),
        later,
    );
    assert!(eng.unacked_len() == 0, "ACK should clear the unacked entry");
    // RTT should have moved toward 100 ms (from the 200 ms initial).
    assert!(
        eng.rtt() < INITIAL_RTT,
        "RTT should decrease after a fast sample"
    );
}

// ---------- NACK / retransmission ----------

#[test]
fn nack_returns_bytes_for_resend() {
    let mut eng = ReliabilityEngine::new(t0());
    let original = eng
        .prepare_send(Reliability::ReliableOrdered, vec![0xab], 1024, t0())
        .unwrap();
    let resent = eng.on_nack(
        &Acknowledgement::new(false, vec![AckRange::single(0)]),
        t0(),
    );
    assert_eq!(resent, vec![original]);
}

#[test]
fn resend_due_returns_stale_datagrams() {
    let mut eng = ReliabilityEngine::new(t0());
    let bytes = eng
        .prepare_send(Reliability::ReliableOrdered, vec![0x1], 1024, t0())
        .unwrap();

    // Not due immediately.
    assert!(eng.resend_due(t0()).is_empty());

    // Due after RTT × multiplier.
    let later = t0() + eng.rtt() * RESEND_RTT_MULTIPLIER as u64 * 2;
    let due = eng.resend_due(later);
    assert_eq!(due, vec![bytes.clone()]);
    // A second immediate check shouldn't resend again (timestamp refreshed).
    assert!(eng.resend_due(later).is_empty());
}

// ---------- ordered delivery ----------

#[test]
fn ordered_frames_deliver_in_order_despite_arrival_shuffle() {
    let mut eng = ReliabilityEngine::new(t0());
    // Frame with order_index 1 arrives before order_index 0.
    let f1 = Frame::new(Reliability::ReliableOrdered, vec![0x1])
        .with_reliable_index(0)
        .with_order(1, 0);
    let dg1 = Datagram::new(1, vec![f1]).unwrap();
    let delivered = eng.on_datagram_received(&dg1, t0()).unwrap();
    assert!(delivered.is_empty(), "out-of-order frame is buffered");
    assert!(eng.drain_ordered().is_empty());

    // Now order_index 0 arrives.
    let f0 = Frame::new(Reliability::ReliableOrdered, vec![0x0])
        .with_reliable_index(0)
        .with_order(0, 0);
    let dg0 = Datagram::new(0, vec![f0]).unwrap();
    eng.on_datagram_received(&dg0, t0()).unwrap();
    let drained = eng.drain_ordered();
    assert_eq!(drained.len(), 2);
    assert_eq!(drained[0].order_index(), Some(0));
    assert_eq!(drained[1].order_index(), Some(1));
}

#[test]
fn unordered_frames_deliver_immediately() {
    let mut eng = ReliabilityEngine::new(t0());
    let f = Frame::new(Reliability::Unreliable, vec![0x42]);
    let dg = Datagram::new(0, vec![f]).unwrap();
    let delivered = eng.on_datagram_received(&dg, t0()).unwrap();
    assert_eq!(delivered.len(), 1);
    assert_eq!(delivered[0].body(), &[0x42]);
}

// ---------- ACK coalescing ----------

#[test]
fn drain_acks_coalesces_consecutive_into_ranges() {
    let mut eng = ReliabilityEngine::new(t0());
    for seq in [0u32, 1, 2, 5, 6] {
        let dg = Datagram::new(seq, vec![]).unwrap();
        eng.on_datagram_received(&dg, t0()).unwrap();
    }
    let ack = eng.drain_acks().unwrap();
    let ranges = ack.ranges();
    // [0,1,2] → range; [5,6] → range.
    assert_eq!(ranges.len(), 2);
    assert_eq!(ranges[0].start(), 0);
    assert_eq!(ranges[0].end(), Some(2));
    assert_eq!(ranges[1].start(), 5);
    assert_eq!(ranges[1].end(), Some(6));
}

#[test]
fn drain_acks_single_becomes_single_record() {
    let mut eng = ReliabilityEngine::new(t0());
    let dg = Datagram::new(42, vec![]).unwrap();
    eng.on_datagram_received(&dg, t0()).unwrap();
    let ack = eng.drain_acks().unwrap();
    assert_eq!(ack.ranges(), &[AckRange::single(42)]);
}

#[test]
fn drain_acks_none_when_empty() {
    let mut eng = ReliabilityEngine::new(t0());
    assert!(eng.drain_acks().is_none());
}

// ---------- inactivity ----------

#[test]
fn is_alive_false_after_inactivity_window() {
    let eng = ReliabilityEngine::new(t0());
    let far_future = t0() + INACTIVITY_BASE + 60_000_000_000;
    assert!(!eng.is_alive(far_future));
}

#[test]
fn is_alive_true_after_recent_traffic() {
    let eng = ReliabilityEngine::new(t0());
    assert!(eng.is_alive(t0()));
}

// ---------- split reassembly through the engine ----------

#[test]
fn engine_reassembles_split_frames() {
    let mut eng = ReliabilityEngine::new(t0());
    // Two fragments of a split group, arriving in one datagram.
    let f0 = Frame::new(Reliability::ReliableOrdered, vec![0x1, 0x2])
        .with_reliable_index(0)
        .with_order(0, 0)
        .with_split(SplitInfo {
            count: 2,
            id: 1,
            index: 0,
        });
    let f1 = Frame::new(Reliability::ReliableOrdered, vec![0x3, 0x4])
        .with_reliable_index(0)
        .with_order(0, 0)
        .with_split(SplitInfo {
            count: 2,
            id: 1,
            index: 1,
        });
    let dg = Datagram::new(0, vec![f0, f1]).unwrap();
    eng.on_datagram_received(&dg, t0()).unwrap();
    let drained = eng.drain_ordered();
    assert_eq!(drained.len(), 1);
    // Reassembled body = concatenation in index order.
    assert_eq!(drained[0].body(), &[0x1, 0x2, 0x3, 0x4]);
    assert!(
        drained[0].split().is_none(),
        "reassembled frame is not split"
    );
}

#[test]
fn engine_buffers_partial_split_until_complete() {
    let mut eng = ReliabilityEngine::new(t0());
    // First fragment only.
    let f0 = Frame::new(Reliability::ReliableOrdered, vec![0x1])
        .with_order(0, 0)
        .with_split(SplitInfo {
            count: 2,
            id: 1,
            index: 0,
        });
    let dg0 = Datagram::new(0, vec![f0]).unwrap();
    eng.on_datagram_received(&dg0, t0()).unwrap();
    assert!(
        eng.drain_ordered().is_empty(),
        "partial split not delivered"
    );

    // Second fragment completes it.
    let f1 = Frame::new(Reliability::ReliableOrdered, vec![0x2])
        .with_order(0, 0)
        .with_split(SplitInfo {
            count: 2,
            id: 1,
            index: 1,
        });
    let dg1 = Datagram::new(1, vec![f1]).unwrap();
    eng.on_datagram_received(&dg1, t0()).unwrap();
    let drained = eng.drain_ordered();
    assert_eq!(drained.len(), 1);
    assert_eq!(drained[0].body(), &[0x1, 0x2]);
}

// ---------- coalesce_ranges helper ----------

#[test]
fn coalesce_ranges_wraps_correctly() {
    // Numbers near the wrap boundary should not be merged across it.
    let ranges = coalesce_ranges(&[(SEQ_COUNT - 1), 0]);
    assert_eq!(ranges.len(), 2, "wrap boundary must split the range");
}

/// Decodes a datagram from raw bytes (test helper).
fn decode_datagram(bytes: &[u8]) -> Datagram {
    match classify(bytes).unwrap() {
        Incoming::Datagram(d) => d,
        other => panic!("expected a datagram, got {other:?}"),
    }
}
