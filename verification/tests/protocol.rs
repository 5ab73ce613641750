//! Game packets and batches.
use mcget::bedrock::protocol::{
    decode_batch, encode_batch, read_varuint32, write_varuint32, GamePacket, COMPRESSION_FLATE,
    COMPRESSION_NONE, ID_BATCH, ID_DISCONNECT, ID_LOGIN, ID_NETWORK_SETTINGS, ID_PLAY_STATUS,
    ID_REQUEST_NETWORK_SETTINGS,
};

// ---------- varuint32 ----------

#[test]
fn varuint32_known_values() {
    // 0 → [0x00], 1 → [0x01], 127 → [0x7f], 128 → [0x80, 0x01].
    assert_eq!(write_varuint32(0), [0x00]);
    assert_eq!(write_varuint32(1), [0x01]);
    assert_eq!(write_varuint32(127), [0x7f]);
    assert_eq!(write_varuint32(128), [0x80, 0x01]);
    assert_eq!(write_varuint32(300), [0xac, 0x02]);
}

#[test]
fn varuint32_max_u32() {
    let bytes = write_varuint32(u32::MAX);
    assert_eq!(bytes.len(), 5);
    let (v, n) = read_varuint32(&bytes).unwrap();
    assert_eq!(v, u32::MAX);
    assert_eq!(n, 5);
}

#[test]
fn varuint32_round_trips() {
    for &v in &[
        0u32,
        1,
        127,
        128,
        255,
        256,
        16383,
        16384,
        0x00ff_ffff,
        u32::MAX,
    ] {
        let bytes = write_varuint32(v);
        let (back, n) = read_varuint32(&bytes).unwrap();
        assert_eq!(back, v, "round-trip for {v}");
        assert_eq!(n, bytes.len());
    }
}

#[test]
fn varuint32_truncated_is_error() {
    // Continuation bit set but no following byte.
    assert!(read_varuint32(&[0x80]).is_err());
    assert!(read_varuint32(&[]).is_err());
}

// ---------- GamePacket ----------

#[test]
fn game_packet_encode_decode_round_trip() {
    let p = GamePacket::new(ID_LOGIN, vec![0x01, 0x02, 0x03]);
    let bytes = p.encode();
    let (back, n) = GamePacket::decode(&bytes).unwrap();
    assert_eq!(back, p);
    assert_eq!(n, bytes.len());
}

#[test]
fn game_packet_decode_truncated_payload_is_error() {
    // id=1 (1 byte), len=5 (1 byte), but only 1 payload byte.
    let bytes = [0x01, 0x05, 0xaa];
    assert!(GamePacket::decode(&bytes).is_err());
}

// ---------- batch / zlib ----------

#[test]
fn batch_round_trip_single_packet_compressed() {
    let packets = vec![GamePacket::new(ID_PLAY_STATUS, vec![0xff; 64])];
    let bytes = encode_batch(&packets, COMPRESSION_FLATE).unwrap();
    assert_eq!(bytes[0], ID_BATCH as u8);
    let back = decode_batch(&bytes).unwrap();
    assert_eq!(back, packets);
}

#[test]
fn batch_round_trip_multiple_packets() {
    let packets = vec![
        GamePacket::new(ID_LOGIN, vec![0x01]),
        GamePacket::new(ID_NETWORK_SETTINGS, vec![0x02, 0x03]),
        GamePacket::new(ID_DISCONNECT, vec![]),
    ];
    let bytes = encode_batch(&packets, COMPRESSION_FLATE).unwrap();
    let back = decode_batch(&bytes).unwrap();
    assert_eq!(back, packets);
}

#[test]
fn batch_uncompressed_round_trip() {
    let packets = vec![GamePacket::new(ID_LOGIN, vec![0xab, 0xcd])];
    let bytes = encode_batch(&packets, COMPRESSION_NONE).unwrap();
    let back = decode_batch(&bytes).unwrap();
    assert_eq!(back, packets);
}

#[test]
fn batch_decode_rejects_wrong_prefix() {
    // Leading byte 0x01, not 0xfe.
    assert!(decode_batch(&[0x01, 0x02, 0x03]).is_err());
}

#[test]
fn batch_compression_is_actually_zlib() {
    // A highly compressible payload must shrink under zlib.
    let packets = vec![GamePacket::new(ID_LOGIN, vec![0x00; 500])];
    let compressed = encode_batch(&packets, COMPRESSION_FLATE).unwrap();
    let raw = encode_batch(&packets, COMPRESSION_NONE).unwrap();
    assert!(
        compressed.len() < raw.len(),
        "zlib should compress a repetitive payload: {} vs {}",
        compressed.len(),
        raw.len()
    );
}

// ---------- packet ID sanity ----------

#[test]
fn login_packet_ids_match_gophertunnel() {
    // Pin the critical IDs so an ordering drift in id.go is caught.
    assert_eq!(ID_LOGIN, 1);
    assert_eq!(ID_PLAY_STATUS, 2);
    assert_eq!(ID_DISCONNECT, 5);
    assert_eq!(ID_NETWORK_SETTINGS, 129);
    assert_eq!(ID_REQUEST_NETWORK_SETTINGS, 179);
    assert_eq!(ID_BATCH, 0xfe);
}
