//! Frames, datagrams and acknowledgements.
use mcget::bedrock::datagram::{
    classify, write_u24_le, AckRange, Acknowledgement, Datagram, Frame, Incoming, Reassembler,
    Reliability, SplitInfo, ACK_RECORD_RANGE, ACK_RECORD_SINGLE,
};
use mcget::bedrock::raknet::PacketBuf;

// ---------- write_u24_le / read_u24_le round-trip ----------

#[test]
fn write_u24_le_matches_read_u24_le() {
    for &v in &[0u32, 1, 0xff, 0x0100, 0x010203, 0xff_ffff] {
        let bytes = write_u24_le(v);
        let mut p = PacketBuf::new(&bytes, "Test");
        assert_eq!(p.read_u24_le().unwrap(), v, "u24 LE round-trip for {v:#x}");
    }
}

#[test]
fn write_u24_le_is_little_endian() {
    // 0x030201 on the wire (LE) = [0x01, 0x02, 0x03].
    assert_eq!(write_u24_le(0x030201), [0x01, 0x02, 0x03]);
}

// ---------- Reliability ----------

#[test]
fn reliability_flags_are_consistent() {
    assert!(!Reliability::Unreliable.is_reliable());
    assert!(!Reliability::Unreliable.is_ordered());
    assert!(!Reliability::Unreliable.is_sequenced());

    assert!(Reliability::Reliable.is_reliable());
    assert!(!Reliability::Reliable.is_ordered());

    assert!(Reliability::ReliableOrdered.is_reliable());
    assert!(Reliability::ReliableOrdered.is_ordered());
    assert!(!Reliability::ReliableOrdered.is_sequenced());

    assert!(Reliability::ReliableSequenced.is_reliable());
    assert!(Reliability::ReliableSequenced.is_ordered());
    assert!(Reliability::ReliableSequenced.is_sequenced());

    assert!(Reliability::UnreliableSequenced.is_sequenced());
    assert!(Reliability::UnreliableSequenced.is_ordered());
}

#[test]
fn reliability_from_raw_rejects_unsupported() {
    assert!(Reliability::from_raw(0).is_ok());
    assert!(Reliability::from_raw(4).is_ok());
    // Variants 5–7 (with ack receipt) are unsupported.
    for raw in 5..=7u8 {
        assert!(
            Reliability::from_raw(raw).is_err(),
            "raw {raw} should be rejected"
        );
    }
    // Anything >= 8 can't fit in 3 bits, but defend anyway.
    assert!(Reliability::from_raw(8).is_err());
}

#[test]
fn reliability_round_trips_through_raw() {
    for r in [
        Reliability::Unreliable,
        Reliability::UnreliableSequenced,
        Reliability::Reliable,
        Reliability::ReliableOrdered,
        Reliability::ReliableSequenced,
    ] {
        assert_eq!(Reliability::from_raw(r.as_raw()).unwrap(), r);
    }
}

// ---------- Frame ----------

#[test]
fn frame_unreliable_encode_exact_bytes() {
    // flags(0x00) | body_len_bits(BE: 3<<3 = 0x0018) | body(0xaa 0xbb 0xcc).
    let f = Frame::new(Reliability::Unreliable, vec![0xaa, 0xbb, 0xcc]);
    assert_eq!(f.encode().unwrap(), [0x00, 0x00, 0x18, 0xaa, 0xbb, 0xcc]);
}

#[test]
fn frame_reliable_encode_exact_bytes() {
    // flags(0x40 = 2<<5) | len_bits(BE 2<<3=0x10) | reliable_index(LE 0x05 0x00 0x00) | body.
    let f = Frame::new(Reliability::Reliable, vec![0xde, 0xad]).with_reliable_index(5);
    assert_eq!(
        f.encode().unwrap(),
        [0x40, 0x00, 0x10, 0x05, 0x00, 0x00, 0xde, 0xad]
    );
}

#[test]
fn frame_reliable_ordered_encode_exact_bytes() {
    // flags(0x60 = 3<<5) | len_bits(BE) | reliable_idx(LE) | order_idx(LE) | channel | body.
    let f = Frame::new(Reliability::ReliableOrdered, vec![0x01])
        .with_reliable_index(0x010203)
        .with_order(0x0a, 2);
    assert_eq!(
        f.encode().unwrap(),
        [
            0x60, // reliability 3 << 5
            0x00, 0x08, // body_len_bits BE (1 << 3 = 8)
            0x03, 0x02, 0x01, // reliable_index LE (0x010203)
            0x0a, 0x00, 0x00, // order_index LE
            0x02, // order_channel
            0x01, // body
        ]
    );
}

#[test]
fn frame_reliable_sequenced_encode_exact_bytes() {
    // flags(0x80 = 4<<5) | len_bits(BE) | reliable | sequenced | order+channel | body.
    let f = Frame::new(Reliability::ReliableSequenced, vec![0xff])
        .with_reliable_index(1)
        .with_sequence_index(2)
        .with_order(3, 1);
    assert_eq!(
        f.encode().unwrap(),
        [
            0x80, 0x00, 0x08, // flags + len_bits (1 << 3 = 8)
            0x01, 0x00, 0x00, // reliable
            0x02, 0x00, 0x00, // sequenced
            0x03, 0x00, 0x00, 0x01, // order + channel
            0xff,
        ]
    );
}

#[test]
fn frame_split_encode_decode_round_trips() {
    // A reliable-ordered frame split into 3 fragments, each with body [0xAB].
    // Reliability 3 → flags high bits 0x60; split set → bit 4 → 0x70.
    let body = vec![0xAB];
    let split = SplitInfo {
        count: 3,
        id: 0x1234,
        index: 1,
    };
    let f = Frame::new(Reliability::ReliableOrdered, body.clone())
        .with_reliable_index(7)
        .with_order(9, 0)
        .with_split(split);
    let bytes = f.encode().unwrap();
    let mut p = PacketBuf::new(&bytes, "SplitFrame");
    let decoded = Frame::decode(&mut p).unwrap().unwrap();
    assert_eq!(decoded, f);
    assert_eq!(p.remaining(), 0);
}

#[test]
fn frame_split_encode_exact_bytes_big_endian() {
    // Prove the split fields are big-endian (unlike the LE index fields).
    // Unreliable (flags 0x00) split frame: body [0x42] (1 byte → 0x08 bits).
    // split_count=1 (BE: 00 00 00 01), split_id=0x0102 (BE: 01 02),
    // split_index=0 (BE: 00 00 00 00).
    let f = Frame::new(Reliability::Unreliable, vec![0x42]).with_split(SplitInfo {
        count: 1,
        id: 0x0102,
        index: 0,
    });
    assert_eq!(
        f.encode().unwrap(),
        [
            0x10, // flags: unreliable(0) | split bit(0x10)
            0x00, 0x08, // body_len_bits (1 << 3)
            0x00, 0x00, 0x00, 0x01, // split_count BE
            0x01, 0x02, // split_id BE
            0x00, 0x00, 0x00, 0x00, // split_index BE
            0x42, // body
        ]
    );
}

#[test]
fn frame_decode_reads_split_fields() {
    // Hand-build a split frame to prove the decoder reads BE split fields.
    let data = [
        0x10, // flags: unreliable | split
        0x00, 0x08, // body_len_bits = 8 = 1 byte
        0x00, 0x00, 0x00, 0x02, // split_count BE = 2
        0x00, 0x05, // split_id BE = 5
        0x00, 0x00, 0x00, 0x01, // split_index BE = 1
        0x99, // body
    ];
    let mut p = PacketBuf::new(&data, "Split");
    let f = Frame::decode(&mut p).unwrap().unwrap();
    let s = f.split().expect("split metadata present");
    assert_eq!(s.count, 2);
    assert_eq!(s.id, 5);
    assert_eq!(s.index, 1);
    assert_eq!(f.body(), &[0x99]);
}

#[test]
fn frame_non_split_has_no_split_fields() {
    // A plain unreliable frame: flags 0x00, no split bit, no split bytes.
    let f = Frame::new(Reliability::Unreliable, vec![0x01]);
    assert_eq!(f.encode().unwrap(), [0x00, 0x00, 0x08, 0x01]);
    assert!(f.split().is_none());
}

#[test]
fn frame_split_into_fits_in_one_returns_single() {
    // Body already fits → single non-split frame, no SplitInfo.
    let template = Frame::new(Reliability::ReliableOrdered, vec![0x1, 0x2]);
    let frags = Frame::split_into(&template, 100, 0).unwrap();
    assert_eq!(frags.len(), 1);
    assert!(frags[0].split().is_none());
    assert_eq!(frags[0].body(), &[0x1, 0x2]);
}

#[test]
fn frame_split_into_chunks_evenly() {
    // 10-byte body, max 4 bytes each → 3 fragments (4, 4, 2).
    let body: Vec<u8> = (0..10u8).collect();
    let template = Frame::new(Reliability::ReliableOrdered, body.clone()).with_order(0, 0);
    let frags = Frame::split_into(&template, 4, 0xAB).unwrap();
    assert_eq!(frags.len(), 3);
    for (i, f) in frags.iter().enumerate() {
        let s = f.split().expect("fragment has split info");
        assert_eq!(s.count, 3);
        assert_eq!(s.id, 0xAB);
        assert_eq!(s.index, i as u32);
    }
    // Bodies concatenate back to the original.
    let mut reassembled = Vec::new();
    for f in &frags {
        reassembled.extend_from_slice(f.body());
    }
    assert_eq!(reassembled, body);
}

#[test]
fn frame_split_into_preserves_reliability_header() {
    // The reliability/index fields are copied verbatim to every fragment.
    let template = Frame::new(Reliability::ReliableOrdered, vec![0u8; 10])
        .with_reliable_index(5)
        .with_order(7, 2);
    let frags = Frame::split_into(&template, 3, 1).unwrap();
    for f in &frags {
        assert_eq!(f.reliability(), Reliability::ReliableOrdered);
        assert_eq!(f.reliable_index(), Some(5));
        assert_eq!(f.order_index(), Some(7));
        assert_eq!(f.order_channel(), 2);
    }
}

#[test]
fn reassembler_collects_and_concatenates_in_index_order() {
    // Fragments arriving out of order must reassemble in index order.
    let mut r = Reassembler::new();
    assert!(r
        .add(
            SplitInfo {
                count: 3,
                id: 1,
                index: 2
            },
            vec![0x3]
        )
        .unwrap()
        .is_none());
    assert!(r
        .add(
            SplitInfo {
                count: 3,
                id: 1,
                index: 0
            },
            vec![0x1]
        )
        .unwrap()
        .is_none());
    let assembled = r
        .add(
            SplitInfo {
                count: 3,
                id: 1,
                index: 1,
            },
            vec![0x2],
        )
        .unwrap()
        .expect("complete after 3rd fragment");
    assert_eq!(assembled, vec![0x1, 0x2, 0x3]); // index order, not arrival order
}

#[test]
fn reassembler_rejects_duplicate_index() {
    let mut r = Reassembler::new();
    r.add(
        SplitInfo {
            count: 2,
            id: 1,
            index: 0,
        },
        vec![0x1],
    )
    .unwrap();
    assert!(r
        .add(
            SplitInfo {
                count: 2,
                id: 1,
                index: 0
            },
            vec![0x9]
        )
        .is_err());
}

#[test]
fn reassembler_rejects_count_mismatch() {
    let mut r = Reassembler::new();
    r.add(
        SplitInfo {
            count: 3,
            id: 1,
            index: 0,
        },
        vec![0x1],
    )
    .unwrap();
    assert!(r
        .add(
            SplitInfo {
                count: 2,
                id: 1,
                index: 1
            },
            vec![0x2]
        )
        .is_err());
}

#[test]
fn reassembler_rejects_index_out_of_range() {
    let mut r = Reassembler::new();
    assert!(r
        .add(
            SplitInfo {
                count: 2,
                id: 1,
                index: 5
            },
            vec![0x1]
        )
        .is_err());
}

#[test]
fn split_round_trip_through_wire() {
    // Split a payload, encode each fragment, decode it, reassemble — the
    // reassembled body must equal the original. End-to-end split path.
    let original: Vec<u8> = (0..25u8).collect();
    let template = Frame::new(Reliability::ReliableOrdered, original.clone())
        .with_reliable_index(1)
        .with_order(1, 0);
    let frags = Frame::split_into(&template, 10, 0x55).unwrap();
    assert_eq!(frags.len(), 3);

    let mut r = Reassembler::new();
    for f in frags {
        let bytes = f.encode().unwrap();
        let mut p = PacketBuf::new(&bytes, "WireSplit");
        let decoded = Frame::decode(&mut p).unwrap().unwrap();
        let split = decoded.split().expect("decoded fragment is split");
        let done = r.add(split, decoded.body().to_vec()).unwrap();
        if let Some(assembled) = done {
            assert_eq!(assembled, original);
        }
    }
}

#[test]
fn frame_decode_reads_body_length_in_bits() {
    // Hand-build a frame whose length field is in BITS to prove the decoder
    // converts correctly (an endianness/units bug round-trips but fails
    // against a real server's bytes). Body = [0xaa, 0xbb] → len_bits = 0x0010.
    let data = [0x00, 0x00, 0x10, 0xaa, 0xbb];
    let mut p = PacketBuf::new(&data, "BitsLen");
    let f = Frame::decode(&mut p).unwrap().unwrap();
    assert_eq!(f.body(), &[0xaa, 0xbb]);
    assert_eq!(p.remaining(), 0);
}

#[test]
fn frame_decode_rejects_non_byte_aligned_length() {
    // len_bits = 0x0009 (9 bits) — not a whole number of bytes.
    let data = [0x00, 0x00, 0x09, 0xaa];
    let mut p = PacketBuf::new(&data, "BadLen");
    assert!(Frame::decode(&mut p).is_err());
}

#[test]
fn frame_round_trips_all_reliabilities() {
    let cases: Vec<Frame> = vec![
        Frame::new(Reliability::Unreliable, vec![]),
        Frame::new(Reliability::UnreliableSequenced, vec![0x1, 0x2])
            .with_sequence_index(7)
            .with_order(8, 0),
        Frame::new(Reliability::Reliable, vec![0x0]).with_reliable_index(0xff_ffff),
        Frame::new(Reliability::ReliableOrdered, vec![0xa, 0xb, 0xc])
            .with_reliable_index(10)
            .with_order(11, 1),
        Frame::new(Reliability::ReliableSequenced, vec![0x5])
            .with_reliable_index(12)
            .with_sequence_index(13)
            .with_order(14, 3),
    ];
    for original in cases {
        let bytes = original.encode().unwrap();
        let mut p = PacketBuf::new(&bytes, "RoundTrip");
        let decoded = Frame::decode(&mut p)
            .unwrap()
            .expect("a frame should decode");
        assert_eq!(decoded, original, "frame round-trip mismatch");
        assert_eq!(p.remaining(), 0, "no trailing bytes after frame");
    }
}

#[test]
fn frame_encode_rejects_index_reliability_mismatch() {
    // Reliable reliability but no reliable_index.
    let f = Frame::new(Reliability::Reliable, vec![0x0]);
    assert!(f.encode().is_err());
    // Unreliable but with a stray reliable_index.
    let f = Frame::new(Reliability::Unreliable, vec![0x0]).with_reliable_index(1);
    assert!(f.encode().is_err());
}

#[test]
fn frame_encode_rejects_oversized_index() {
    let f = Frame::new(Reliability::Reliable, vec![0x0]).with_reliable_index(0x01_00_00_00); // > 24-bit max
    assert!(f.encode().is_err());
}

#[test]
fn frame_decode_returns_none_at_end_of_buffer() {
    let mut p = PacketBuf::new(&[], "Empty");
    assert!(Frame::decode(&mut p).unwrap().is_none());
}

#[test]
fn frame_decode_truncated_body_is_error() {
    // Declare body_len_bits=0x0010 (2 bytes) but only 1 body byte present.
    let data = [0x00, 0x00, 0x10, 0xaa];
    let mut p = PacketBuf::new(&data, "Trunc");
    assert!(Frame::decode(&mut p).is_err());
}

// ---------- Datagram ----------

#[test]
fn datagram_encode_exact_bytes_empty() {
    let d = Datagram::new(0x010203, vec![]).unwrap();
    // flag(0x80) | seq LE (0x03 0x02 0x01).
    assert_eq!(d.encode().unwrap(), [0x80, 0x03, 0x02, 0x01]);
}

#[test]
fn datagram_encode_exact_bytes_with_one_frame() {
    let frame = Frame::new(Reliability::Unreliable, vec![0x42]);
    let d = Datagram::new(0, vec![frame]).unwrap();
    // 0x80 | seq(0,0,0) | frame(flags 0x00 | len_bits BE 1<<3=0x08 | 0x42).
    assert_eq!(
        d.encode().unwrap(),
        [0x80, 0x00, 0x00, 0x00, 0x00, 0x00, 0x08, 0x42]
    );
}

#[test]
fn datagram_round_trips_multiple_frames() {
    let frames = vec![
        Frame::new(Reliability::Unreliable, vec![0x1]),
        Frame::new(Reliability::ReliableOrdered, vec![0x2, 0x3])
            .with_reliable_index(100)
            .with_order(200, 0),
        Frame::new(Reliability::Unreliable, vec![]),
    ];
    let original = Datagram::new(0xabcdef, frames).unwrap();
    let bytes = original.encode().unwrap();
    let decoded = Datagram::decode(&bytes)
        .unwrap()
        .expect("should decode as a datagram");
    assert_eq!(decoded, original);
}

#[test]
fn datagram_decode_returns_none_for_ack() {
    let ack = Acknowledgement::new(true, vec![AckRange::single(0)])
        .encode()
        .unwrap();
    assert!(Datagram::decode(&ack).unwrap().is_none());
}

#[test]
fn datagram_decode_returns_none_for_nack() {
    let nack = Acknowledgement::new(false, vec![AckRange::single(0)])
        .encode()
        .unwrap();
    assert!(Datagram::decode(&nack).unwrap().is_none());
}

#[test]
fn datagram_new_rejects_oversized_sequence() {
    assert!(Datagram::new(0x01_00_00_00, vec![]).is_err());
    assert!(Datagram::new(0x00ff_ffff, vec![]).is_ok());
}

#[test]
fn datagram_decode_reads_sequence_le() {
    // Manually build a datagram with a known LE sequence to prove the
    // decode side reads little-endian (an endianness bug round-trips).
    let bytes = [0x80, 0x05, 0x00, 0x00]; // flag + seq=5 (LE)
    let d = Datagram::decode(&bytes).unwrap().unwrap();
    assert_eq!(d.sequence_number(), 5);
    assert!(d.frames().is_empty());
}

// ---------- Acknowledgement ----------

#[test]
fn ack_encode_exact_bytes_single_records() {
    let ack = Acknowledgement::new(true, vec![AckRange::single(0x010203), AckRange::single(0)]);
    // flag(0xc0) | count(BE 0x00 0x02) | rec1(is_single=1 | start LE) | rec2(...).
    assert_eq!(
        ack.encode().unwrap(),
        [
            0xc0,
            0x00,
            0x02,
            ACK_RECORD_SINGLE,
            0x03,
            0x02,
            0x01,
            ACK_RECORD_SINGLE,
            0x00,
            0x00,
            0x00,
        ]
    );
}

#[test]
fn nack_encode_exact_bytes_mixed_ranges() {
    let nack = Acknowledgement::new(false, vec![AckRange::single(5), AckRange::range(10, 12)]);
    assert_eq!(
        nack.encode().unwrap(),
        [
            0xa0,
            0x00,
            0x02,
            ACK_RECORD_SINGLE,
            0x05,
            0x00,
            0x00,
            ACK_RECORD_RANGE,
            0x0a,
            0x00,
            0x00,
            0x0c,
            0x00,
            0x00,
        ]
    );
}

#[test]
fn acknowledgement_round_trips() {
    let cases = vec![
        Acknowledgement::new(true, vec![]),
        Acknowledgement::new(true, vec![AckRange::single(0xff_ffff)]),
        Acknowledgement::new(
            false,
            vec![
                AckRange::range(0, 9),
                AckRange::single(100),
                AckRange::range(200, 299),
            ],
        ),
    ];
    for original in cases {
        let bytes = original.encode().unwrap();
        let decoded = Acknowledgement::decode(&bytes)
            .unwrap()
            .expect("should decode as an ack/nack");
        assert_eq!(decoded, original);
    }
}

#[test]
fn acknowledgement_decode_reads_record_count_be() {
    // count is u16 BE: [0x00, 0x01] = 1 record.
    let bytes = [0xc0, 0x00, 0x01, ACK_RECORD_SINGLE, 0x00, 0x00, 0x00];
    let ack = Acknowledgement::decode(&bytes).unwrap().unwrap();
    assert!(ack.is_ack());
    assert_eq!(ack.ranges().len(), 1);
    assert_eq!(ack.ranges()[0], AckRange::single(0));
}

#[test]
fn acknowledgement_decode_returns_none_for_datagram() {
    let dg = Datagram::new(0, vec![]).unwrap().encode().unwrap();
    assert!(Acknowledgement::decode(&dg).unwrap().is_none());
}

// ---------- classify ----------

#[test]
fn classify_routes_datagram() {
    let bytes = Datagram::new(42, vec![Frame::new(Reliability::Unreliable, vec![0x9])])
        .unwrap()
        .encode()
        .unwrap();
    match classify(&bytes).unwrap() {
        Incoming::Datagram(d) => {
            assert_eq!(d.sequence_number(), 42);
            assert_eq!(d.frames().len(), 1);
        }
        other => panic!("expected Datagram, got {other:?}"),
    }
}

#[test]
fn classify_routes_ack_and_nack() {
    let ack = Acknowledgement::new(true, vec![AckRange::single(0)])
        .encode()
        .unwrap();
    assert!(matches!(classify(&ack).unwrap(), Incoming::Ack(_)));

    let nack = Acknowledgement::new(false, vec![AckRange::single(0)])
        .encode()
        .unwrap();
    assert!(matches!(classify(&nack).unwrap(), Incoming::Nack(_)));
}

#[test]
fn classify_rejects_unknown_flag() {
    // 0x00 is not a datagram/ACK/NACK.
    assert!(classify(&[0x00, 0x01, 0x02]).is_err());
}

#[test]
fn classify_rejects_empty_input() {
    assert!(classify(&[]).is_err());
}
