//! Game packets, batches and their errors.
use mcget::bedrock::protocol::{
    build_batch_body, compress, decode_batch, decode_batch_body, decode_batch_with, encode_batch,
    encode_batch_legacy, read_varint32, read_varuint32, write_varint32, GamePacket,
    COMPRESSION_FLATE, COMPRESSION_NONE, COMPRESSION_SNAPPY, SURE_TO_COMPRESS,
};
use mcget::PingError;

fn message(e: PingError) -> String {
    match e {
        PingError::Protocol(s) => s,
        other => panic!("expected a protocol error, got {other:?}"),
    }
}

#[test]
fn signed_numbers_are_folded() {
    assert_eq!(write_varint32(0), [0]);
    assert_eq!(write_varint32(-1), [1]);
    assert_eq!(write_varint32(1), [2]);
    assert_eq!(write_varint32(i32::MIN), [0xff, 0xff, 0xff, 0xff, 0x0f]);
    for v in [0, 1, -1, 685, i32::MAX, i32::MIN] {
        let bytes = write_varint32(v);
        assert_eq!(read_varint32(&bytes).unwrap(), (v, bytes.len()));
    }
}

#[test]
fn numbers_of_six_bytes_are_refused() {
    let e = message(read_varuint32(&[0x80, 0x80, 0x80, 0x80, 0x80, 0x01]).unwrap_err());
    assert_eq!(e, "varuint32 is longer than 5 bytes");
    assert_eq!(read_varuint32(&[0x05, 0x06]).unwrap(), (5, 1));
}

#[test]
fn game_packet_exact_bytes() {
    let p = GamePacket::new(300, vec![1, 2]);
    assert_eq!(p.encode(), [0xac, 0x02, 2, 1, 2]);
    let (back, n) = GamePacket::decode(&[0xac, 0x02, 2, 1, 2, 99]).unwrap();
    assert_eq!((back, n), (p, 5));
    let e = message(GamePacket::decode(&[1, 5, 0xaa]).unwrap_err());
    assert_eq!(e, "game packet declares 5 payload bytes but only 1 remain");
}

#[test]
fn batch_body_is_the_packets_in_a_row() {
    let packets = vec![GamePacket::new(1, vec![7]), GamePacket::new(2, vec![])];
    let body = build_batch_body(&packets);
    assert_eq!(body, [1, 1, 7, 2, 0]);
    assert_eq!(decode_batch_body(&body).unwrap(), packets);
    assert!(decode_batch_body(&[1, 1]).is_err());
}

#[test]
fn compressed_batches_start_with_a_zlib_header() {
    let packets = vec![GamePacket::new(1, vec![0; 40])];
    let modern = encode_batch(&packets, COMPRESSION_FLATE).unwrap();
    assert_eq!(&modern[..3], &[0xfe, 0x00, 0x78]);
    let legacy = encode_batch_legacy(&packets).unwrap();
    assert_eq!(&legacy[..2], &[0xfe, 0x78]);
    assert_eq!(&legacy[1..], &modern[2..]);
    assert_eq!(&legacy[1..], &compress(&build_batch_body(&packets)).unwrap()[..]);
    assert_eq!(decode_batch(&legacy).unwrap(), packets);
    assert_eq!(encode_batch(&packets, COMPRESSION_NONE).unwrap()[1..], build_batch_body(&packets));
}

#[test]
fn unknown_algorithms_say_why() {
    let e = message(encode_batch(&[], COMPRESSION_SNAPPY).unwrap_err());
    assert_eq!(e, "snappy compression is not supported yet");
    let e = message(encode_batch(&[], 7).unwrap_err());
    assert_eq!(e, "unknown compression algorithm 7");
}

#[test]
fn malformed_batches_say_why() {
    assert_eq!(message(decode_batch(&[]).unwrap_err()), "empty batch");
    assert_eq!(
        message(decode_batch(&[0x0a]).unwrap_err()),
        "not a batch packet: leading byte 0x0A (expected 0xFE)"
    );
    let e = message(decode_batch(&[0xfe, 1, 9]).unwrap_err());
    assert_eq!(e, "snappy compression is not supported yet");
    let e = message(decode_batch(&[0xfe, 2, 9]).unwrap_err());
    assert_eq!(e, "game packet declares 9 payload bytes but only 0 remain");
    // Nothing behind the prefix is a batch without packets.
    assert_eq!(decode_batch(&[0xfe]).unwrap(), []);
}

#[test]
fn a_batch_is_read_in_the_first_form_that_fits() {
    let a = vec![GamePacket::new(1, vec![])];
    let b = vec![GamePacket::new(2, vec![])];
    let modern = Some(build_batch_body(&a));
    let legacy = Some(build_batch_body(&b));
    let data = [0xfe, 0, 3];
    assert_eq!(decode_batch_with(&data, modern.clone(), legacy.clone()).unwrap(), a);
    assert_eq!(decode_batch_with(&data, None, legacy.clone()).unwrap(), b);
    assert_eq!(decode_batch_with(&[0xfe, 3, 0], None, None).unwrap()[0].id, 3);
}

#[test]
fn bodies_of_some_size_are_always_encoded() {
    // Bytes without a pattern, which compress worst.
    let mut x: u32 = 12345;
    let noise: Vec<u8> = (0..SURE_TO_COMPRESS)
        .map(|_| {
            x ^= x << 13;
            x ^= x >> 17;
            x ^= x << 5;
            x as u8
        })
        .collect();
    assert!(compress(&noise).is_ok());
    let packet = GamePacket::new(5, noise[..32000].to_vec());
    let legacy = encode_batch_legacy(&[packet.clone()]).unwrap();
    let mut other = encode_batch(&[packet.clone()], COMPRESSION_FLATE).unwrap();
    assert_eq!(decode_batch(&legacy).unwrap(), vec![packet]);
    assert_eq!(other.remove(1), 0);
    assert_eq!(other, legacy);
}
