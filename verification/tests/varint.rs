//! VarInts and VarLongs.
use mcget::varint::{
    Cursor, VarInt, VarIntRead, VarIntWrite, VarLong, VarLongRead, VarLongWrite,
};

#[test]
fn read_known_varint() {
    // Known case from wiki.vg.
    let mut cur = Cursor::new(vec![0xff, 0xff, 0xff, 0xff, 0x07]);
    let var_int = cur.read_var_int().unwrap();
    assert_eq!(var_int, VarInt::from(2147483647));
}

#[test]
fn write_known_varint() {
    let mut cur: Vec<u8> = Vec::with_capacity(5);
    let var_int = VarInt::from(2147483647);
    cur.write_var_int(var_int);
    assert_eq!(cur, vec![0xff, 0xff, 0xff, 0xff, 0x07]);
}

#[test]
fn roundtrip_varint() {
    let cases = [0i32, 1, 127, 128, 255, 2147483647, -1, -100, -2147483648];
    for &v in &cases {
        let vi = VarInt::from(v);
        let mut cur: Vec<u8> = Vec::with_capacity(5);
        cur.write_var_int(vi);
        let mut reader = Cursor::new(cur);
        let got = i32::from(reader.read_var_int().unwrap());
        assert_eq!(got, v, "roundtrip failed for value {v}");
    }
}

#[test]
fn roundtrip_varlong() {
    let cases = [
        0i64,
        1,
        127,
        128,
        9223372036854775807,
        -1,
        -9223372036854775808,
    ];
    for &v in &cases {
        let vl = VarLong::from(v);
        let mut cur: Vec<u8> = Vec::with_capacity(10);
        cur.write_var_long(vl);
        let mut reader = Cursor::new(cur);
        let got = i64::from(reader.read_var_long().unwrap());
        assert_eq!(got, v, "roundtrip failed for value {v}");
    }
}

#[test]
fn rejects_too_long_varint() {
    // 6 bytes all carrying the continuation bit -- an invalid VarInt.
    let mut cur = Cursor::new(vec![0x80, 0x80, 0x80, 0x80, 0x80, 0x80]);
    assert!(cur.read_var_int().is_err());
}

#[test]
fn zero_varint_writes_one_byte() {
    let mut cur: Vec<u8> = Vec::with_capacity(5);
    cur.write_var_int(VarInt::from(0));
    assert_eq!(cur, vec![0x00]);
}

#[test]
fn neg_one_is_five_bytes() {
    let mut cur: Vec<u8> = Vec::with_capacity(5);
    cur.write_var_int(VarInt::from(-1));
    assert_eq!(cur, vec![0xff, 0xff, 0xff, 0xff, 0x0f]);
}

#[test]
fn what_was_read_is_written_again() {
    for bytes in [vec![0x80u8, 0x00], vec![0x80, 0x80, 0x01], vec![0x00], vec![0xff, 0x00]] {
        let v = Cursor::new(bytes.clone()).read_var_int().unwrap();
        let mut out: Vec<u8> = Vec::new();
        out.write_var_int(v);
        assert_eq!(out, bytes);
        let v = Cursor::new(bytes.clone()).read_var_long().unwrap();
        let mut out: Vec<u8> = Vec::new();
        out.write_var_long(v);
        assert_eq!(out, bytes);
    }
}
