//! Packet cursors and the address codec of the handshake.
use mcget::addr::SocketAddrV4;
use mcget::bedrock::raknet::{
    decode_ipv4_addr, encode_ipv4_addr, PacketBuf, MAGIC, RAKNET_FAMILY_IPV4, RAKNET_IPV4_LEN,
};
use mcget::PingError;

// ---------- PacketBuf ----------

#[test]
fn packetbuf_reads_typed_fields_in_order() {
    // Layout: u8 | u16 | i64 | magic | 3 raw bytes.
    let mut buf = Vec::new();
    buf.push(0xAB);
    buf.extend_from_slice(&0x1234u16.to_be_bytes());
    buf.extend_from_slice(&(-42i64).to_be_bytes());
    buf.extend_from_slice(&MAGIC);
    buf.extend_from_slice(&[1, 2, 3]);

    let mut p = PacketBuf::new(&buf, "Test");
    assert_eq!(p.read_u8().unwrap(), 0xAB);
    assert_eq!(p.read_u16().unwrap(), 0x1234);
    assert_eq!(p.read_i64().unwrap(), -42);
    p.read_magic().unwrap();
    assert_eq!(p.read_bytes(3).unwrap(), &[1, 2, 3]);
    assert_eq!(p.remaining(), 0);
    assert_eq!(p.pos(), buf.len());
}

#[test]
fn packetbuf_ensure_reports_truncation_with_packet_name() {
    let buf = [0u8; 2];
    let p = PacketBuf::new(&buf, "Pong");
    let err = p.ensure(35).unwrap_err();
    let msg = match err {
        PingError::Protocol(s) => s,
        _ => panic!("expected Protocol error"),
    };
    assert!(msg.contains("Pong"), "error should name the packet: {msg}");
    assert!(
        msg.contains("need 35"),
        "error should report required size: {msg}"
    );
}

#[test]
fn packetbuf_expect_id_matches_and_advances() {
    let buf = [0x1Cu8, 0xFF];
    let mut p = PacketBuf::new(&buf, "Pong");
    p.expect_id(0x1C).unwrap();
    assert_eq!(p.pos(), 1, "expect_id should advance past the ID byte");
    assert_eq!(p.peek_u8(), Some(0xFF));
}

#[test]
fn packetbuf_expect_id_rejects_mismatch() {
    let buf = [0x00u8];
    let mut p = PacketBuf::new(&buf, "Pong");
    let err = p.expect_id(0x1C).unwrap_err();
    let msg = match err {
        PingError::Protocol(s) => s,
        _ => panic!("expected Protocol error"),
    };
    assert!(msg.contains("0x1C"), "error should name expected ID: {msg}");
    assert!(msg.contains("0x00"), "error should name actual ID: {msg}");
}

#[test]
fn packetbuf_read_magic_rejects_bad_bytes() {
    let buf = [0u8; 16];
    let mut p = PacketBuf::new(&buf, "Reply 1");
    let err = p.read_magic().unwrap_err();
    let msg = match err {
        PingError::Protocol(s) => s,
        _ => panic!("expected Protocol error"),
    };
    assert!(
        msg.contains("Reply 1"),
        "error should name the packet: {msg}"
    );
    assert!(msg.contains("magic"), "error should mention magic: {msg}");
}

#[test]
fn packetbuf_read_u8_returns_err_at_end() {
    let buf = [];
    let mut p = PacketBuf::new(&buf, "Empty");
    assert!(p.read_u8().is_err());
}

#[test]
fn packetbuf_read_i64_returns_err_on_short_buffer() {
    // Only 4 bytes — i64 needs 8.
    let buf = [1, 2, 3, 4];
    let mut p = PacketBuf::new(&buf, "Short");
    assert!(p.read_i64().is_err());
}

#[test]
fn packetbuf_read_u24_le_decodes_little_endian() {
    // 0x030201 little-endian on the wire = bytes [0x01, 0x02, 0x03] → value 0x030201.
    let buf = [0x01, 0x02, 0x03, 0xff];
    let mut p = PacketBuf::new(&buf, "Test");
    assert_eq!(p.read_u24_le().unwrap(), 0x030201);
    assert_eq!(p.pos(), 3, "read_u24_le should advance 3 bytes");
    assert_eq!(p.peek_u8(), Some(0xff), "next byte should be unconsumed");
}

#[test]
fn packetbuf_read_u24_le_max_value() {
    // All 0xff = 0x00ffffff (24-bit max), high byte must be zero.
    let buf = [0xff, 0xff, 0xff];
    let mut p = PacketBuf::new(&buf, "Test");
    assert_eq!(p.read_u24_le().unwrap(), 0x00ff_ffff);
}

#[test]
fn packetbuf_read_u24_le_returns_err_on_short_buffer() {
    // Only 2 bytes — u24 needs 3.
    let buf = [0x01, 0x02];
    let mut p = PacketBuf::new(&buf, "Short");
    assert!(p.read_u24_le().is_err());
}

#[test]
fn packetbuf_tail_returns_unconsumed_without_advancing() {
    let buf = [0xAA, 0xBB, 0xCC];
    let mut p = PacketBuf::new(&buf, "Test");
    let _ = p.read_u8().unwrap();
    assert_eq!(p.tail(), &[0xBB, 0xCC]);
    // Calling tail again must not advance.
    assert_eq!(p.tail(), &[0xBB, 0xCC]);
    assert_eq!(p.pos(), 1);
}

#[test]
fn packetbuf_peek_does_not_advance() {
    let buf = [0x42u8, 0x99];
    let p = PacketBuf::new(&buf, "Test");
    assert_eq!(p.peek_u8(), Some(0x42));
    assert_eq!(p.peek_u8(), Some(0x42), "peek must be idempotent");
    assert_eq!(p.pos(), 0);
}

// ---------- IPv4 system-address codec ----------

#[test]
fn raknet_ipv4_addr_roundtrip() {
    let cases = [
        ([127u8, 0, 0, 1], 19132u16),
        ([8, 8, 8, 8], 53),
        ([192, 168, 1, 1], 0),
        ([0, 0, 0, 0], 65535),
    ];
    for (ip, port) in cases {
        let addr = SocketAddrV4::new(ip[0], ip[1], ip[2], ip[3], port);
        let encoded = encode_ipv4_addr(&addr);
        // 7 bytes: family(1) + octets(4) + BE port(2).
        assert_eq!(encoded.len(), RAKNET_IPV4_LEN);
        assert_eq!(encoded[0], RAKNET_FAMILY_IPV4);
        assert_eq!(&encoded[1..5], &ip);
        assert_eq!(&encoded[5..7], &port.to_be_bytes());
        let decoded = decode_ipv4_addr(&encoded).unwrap();
        assert_eq!(decoded, addr, "roundtrip failed for {ip:?}:{port}");
    }
}

#[test]
fn decode_ipv4_addr_rejects_wrong_length() {
    assert!(decode_ipv4_addr(&[0u8; 6]).is_err());
    assert!(decode_ipv4_addr(&[0u8; 8]).is_err());
}

#[test]
fn decode_ipv4_addr_rejects_wrong_family() {
    // Family byte 6 = IPv6, not supported.
    let mut buf = vec![6u8];
    buf.resize(RAKNET_IPV4_LEN, 0);
    assert_eq!(buf.len(), RAKNET_IPV4_LEN);
    assert!(decode_ipv4_addr(&buf).is_err());
}
