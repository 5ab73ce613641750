//! Fixed-width integers as bytes.
use vstd::prelude::*;
use vstd::slice::slice_subrange;

verus! {

/// Two bytes, most significant first.
#[verifier::opaque]
pub open spec fn be16(v: u16) -> Seq<u8> {
    seq![(v / 256) as u8, (v % 256) as u8]
}

/// Four bytes, most significant first.
#[verifier::opaque]
pub open spec fn be32(v: u32) -> Seq<u8> {
    seq![
        (v / 0x100_0000) as u8,
        (v / 0x1_0000 % 256) as u8,
        (v / 256 % 256) as u8,
        (v % 256) as u8,
    ]
}

/// Eight bytes, most significant first.
#[verifier::opaque]
pub open spec fn be64(v: u64) -> Seq<u8> {
    be32((v / 0x1_0000_0000) as u32) + be32((v % 0x1_0000_0000) as u32)
}

/// Three bytes, least significant first, of the low 24 bits of `v`.
#[verifier::opaque]
pub open spec fn le24(v: u32) -> Seq<u8> {
    seq![(v % 256) as u8, (v / 256 % 256) as u8, (v / 0x1_0000 % 256) as u8]
}

/// The two's-complement bit pattern of a signed 64-bit number.
pub open spec fn i64_bits(v: i64) -> u64 {
    if v < 0 {
        (v + 0x1_0000_0000_0000_0000) as u64
    } else {
        v as u64
    }
}

/// The signed 64-bit number with a given bit pattern.
pub open spec fn i64_of_bits(u: u64) -> i64 {
    if u >= 0x8000_0000_0000_0000 {
        (u - 0x1_0000_0000_0000_0000) as i64
    } else {
        u as i64
    }
}

/// The two's-complement bit pattern of a signed 32-bit number.
pub open spec fn i32_bits(v: i32) -> u32 {
    if v < 0 {
        (v + 0x1_0000_0000) as u32
    } else {
        v as u32
    }
}

/// The signed 32-bit number with a given bit pattern.
pub open spec fn i32_of_bits(u: u32) -> i32 {
    if u >= 0x8000_0000 {
        (u - 0x1_0000_0000) as i32
    } else {
        u as i32
    }
}

/// The big-endian 16-bit number at offset `i`.
#[verifier::opaque]
pub open spec fn u16_at(s: Seq<u8>, i: int) -> u16 {
    (s[i] * 256 + s[i + 1]) as u16
}

/// The big-endian 32-bit number at offset `i`.
#[verifier::opaque]
pub open spec fn u32_at(s: Seq<u8>, i: int) -> u32 {
    (s[i] * 0x100_0000 + s[i + 1] * 0x1_0000 + s[i + 2] * 256 + s[i + 3]) as u32
}

/// The big-endian 64-bit number at offset `i`.
#[verifier::opaque]
pub open spec fn u64_at(s: Seq<u8>, i: int) -> u64 {
    (u32_at(s, i) * 0x1_0000_0000 + u32_at(s, i + 4)) as u64
}

/// The big-endian signed 64-bit number at offset `i`.
pub open spec fn i64_at(s: Seq<u8>, i: int) -> i64 {
    i64_of_bits(u64_at(s, i))
}

/// The little-endian 24-bit number at offset `i`.
#[verifier::opaque]
pub open spec fn u24_at(s: Seq<u8>, i: int) -> u32 {
    (s[i] + s[i + 1] * 256 + s[i + 2] * 0x1_0000) as u32
}

/// The widths of the encodings.
pub broadcast proof fn lemma_be16_len(v: u16)
    ensures
        #[trigger] be16(v).len() == 2,
{
    reveal(be16);
}

pub broadcast proof fn lemma_be32_len(v: u32)
    ensures
        #[trigger] be32(v).len() == 4,
{
    reveal(be32);
}

pub broadcast proof fn lemma_be64_len(v: u64)
    ensures
        #[trigger] be64(v).len() == 8,
{
    reveal(be64);
    lemma_be32_len((v / 0x1_0000_0000) as u32);
    lemma_be32_len((v % 0x1_0000_0000) as u32);
}

pub broadcast proof fn lemma_le24_len(v: u32)
    ensures
        #[trigger] le24(v).len() == 3,
{
    reveal(le24);
}

pub broadcast proof fn lemma_u24_bound(s: Seq<u8>, i: int)
    ensures
        #[trigger] u24_at(s, i) <= 0xff_ffff,
{
    reveal(u24_at);
}

pub broadcast group group_widths {
    lemma_be16_len,
    lemma_be32_len,
    lemma_be64_len,
    lemma_le24_len,
    lemma_u24_bound,
}

/// Writing a 16-bit number and reading it back gives the number.
pub proof fn lemma_be16_round_trip(v: u16, before: Seq<u8>, after: Seq<u8>)
    ensures
        u16_at(before + be16(v) + after, before.len() as int) == v,
{
    reveal(be16);
    reveal(u16_at);
    let s = before + be16(v) + after;
    let n = before.len() as int;
    assert(s[n] == be16(v)[0] && s[n + 1] == be16(v)[1]);
}

/// Writing a 32-bit number and reading it back gives the number.
pub proof fn lemma_be32_round_trip(v: u32, before: Seq<u8>, after: Seq<u8>)
    ensures
        u32_at(before + be32(v) + after, before.len() as int) == v,
{
    reveal(be32);
    reveal(u32_at);
    let s = before + be32(v) + after;
    let n = before.len() as int;
    assert(s[n] == be32(v)[0] && s[n + 1] == be32(v)[1] && s[n + 2] == be32(v)[2] && s[n + 3]
        == be32(v)[3]);
}

/// Writing a signed 64-bit number and reading it back gives the number.
pub proof fn lemma_be64_round_trip(v: i64, before: Seq<u8>, after: Seq<u8>)
    ensures
        i64_at(before + be64(i64_bits(v)) + after, before.len() as int) == v,
{
    broadcast use group_widths;

    reveal(be64);
    reveal(u64_at);
    let u = i64_bits(v);
    let hi = (u / 0x1_0000_0000) as u32;
    let lo = (u % 0x1_0000_0000) as u32;
    let s = before + be64(u) + after;
    let n = before.len() as int;
    assert(s == before + be32(hi) + (be32(lo) + after));
    assert(s == (before + be32(hi)) + be32(lo) + after);
    lemma_be32_round_trip(hi, before, be32(lo) + after);
    lemma_be32_round_trip(lo, before + be32(hi), after);
    assert((before + be32(hi)).len() == n + 4);
}

/// Writing the low 24 bits of a number and reading them back gives those bits.
pub proof fn lemma_le24_round_trip(v: u32, before: Seq<u8>, after: Seq<u8>)
    ensures
        u24_at(before + le24(v) + after, before.len() as int) == v % 0x100_0000,
{
    reveal(le24);
    reveal(u24_at);
    let s = before + le24(v) + after;
    let n = before.len() as int;
    assert(s[n] == le24(v)[0] && s[n + 1] == le24(v)[1] && s[n + 2] == le24(v)[2]);
}

/// The two bytes that a 16-bit number was read from are the ones it is written as.
pub proof fn lemma_be16_of_bytes(s: Seq<u8>, i: int)
    requires
        0 <= i,
        i + 2 <= s.len(),
    ensures
        be16(u16_at(s, i)) == s.subrange(i, i + 2),
{
    reveal(be16);
    reveal(u16_at);
}

/// The four bytes that a 32-bit number was read from are the ones it is written as.
pub proof fn lemma_be32_of_bytes(s: Seq<u8>, i: int)
    requires
        0 <= i,
        i + 4 <= s.len(),
    ensures
        be32(u32_at(s, i)) == s.subrange(i, i + 4),
{
    reveal(be32);
    reveal(u32_at);
    let (a, b, c, d) = (s[i], s[i + 1], s[i + 2], s[i + 3]);
    let v = u32_at(s, i);
    lemma_base_256(a, b, c, d, v);
    assert(be32(v) == seq![a, b, c, d]);
    assert(s.subrange(i, i + 4) == seq![a, b, c, d]);
}

proof fn lemma_base_256(a: u8, b: u8, c: u8, d: u8, v: u32)
    requires
        v == a * 0x100_0000 + b * 0x1_0000 + c * 256 + d,
    ensures
        v / 0x100_0000 == a,
        v / 0x1_0000 % 256 == b,
        v / 256 % 256 == c,
        v % 256 == d,
{
    assert(v / 256 == a * 0x1_0000 + b * 256 + c);
    assert(v / 0x1_0000 == a * 256 + b);
}

/// The three bytes that a 24-bit number was read from are the ones it is written as.
pub proof fn lemma_le24_of_bytes(s: Seq<u8>, i: int)
    requires
        0 <= i,
        i + 3 <= s.len(),
    ensures
        le24(u24_at(s, i)) == s.subrange(i, i + 3),
        u24_at(s, i) <= 0xff_ffff,
{
    reveal(le24);
    reveal(u24_at);
}

/// Neighbouring parts of a sequence joined.
pub proof fn lemma_join(s: Seq<u8>, a: int, b: int, c: int)
    requires
        0 <= a <= b <= c <= s.len(),
    ensures
        s.subrange(a, b) + s.subrange(b, c) == s.subrange(a, c),
{
    assert(s.subrange(a, b) + s.subrange(b, c) == s.subrange(a, c));
}

/// The end of the middle one of three parts moved over to the last one.
pub proof fn lemma_peel(before: Seq<u8>, head: Seq<u8>, part: Seq<u8>, after: Seq<u8>)
    ensures
        before + (head + part) + after == (before + head) + part + after,
        before + (head + part) + after == before + head + (part + after),
{
    assert(before + (head + part) + after == (before + head) + part + after);
    assert(before + (head + part) + after == before + head + (part + after));
}

/// The bit pattern of an `i64`.
pub fn i64_to_bits(v: i64) -> (u: u64)
    ensures
        u == i64_bits(v),
{
    proof {
        assert(v < 0 ==> v as u64 == v + 0x1_0000_0000_0000_0000) by (bit_vector);
    }
    v as u64
}

/// The `i64` with a bit pattern.
pub fn i64_from_bits(u: u64) -> (v: i64)
    ensures
        v == i64_of_bits(u),
{
    proof {
        assert(u >= 0x8000_0000_0000_0000 ==> u as i64 == u - 0x1_0000_0000_0000_0000)
            by (bit_vector);
    }
    u as i64
}

/// The bit pattern of an `i32`.
pub fn i32_to_bits(v: i32) -> (u: u32)
    ensures
        u == i32_bits(v),
{
    proof {
        assert(v < 0 ==> v as u32 == v + 0x1_0000_0000) by (bit_vector);
    }
    v as u32
}

/// The `i32` with a bit pattern.
pub fn i32_from_bits(u: u32) -> (v: i32)
    ensures
        v == i32_of_bits(u),
{
    proof {
        assert(u >= 0x8000_0000 ==> u as i32 == u - 0x1_0000_0000) by (bit_vector);
    }
    u as i32
}

/// Appends a slice.
pub fn extend(buf: &mut Vec<u8>, s: &[u8])
    ensures
        final(buf)@ == old(buf)@ + s@,
{
    buf.extend_from_slice(s);
    assert(buf@ == old(buf)@ + s@);
}

/// Copies `data[from..to]`.
pub fn copy_range(data: &[u8], from: usize, to: usize) -> (r: Vec<u8>)
    requires
        from <= to <= data@.len(),
    ensures
        r@ == data@.subrange(from as int, to as int),
{
    let part = slice_subrange(data, from, to);
    let mut r: Vec<u8> = Vec::with_capacity(part.len());
    extend(&mut r, part);
    r
}

/// Copies a slice.
pub fn copy_all(data: &[u8]) -> (r: Vec<u8>)
    ensures
        r@ == data@,
{
    let mut r: Vec<u8> = Vec::with_capacity(data.len());
    extend(&mut r, data);
    r
}

/// Whether two slices hold the same bytes.
pub fn same_bytes(a: &[u8], b: &[u8]) -> (r: bool)
    ensures
        r == (a@ == b@),
{
    if a.len() != b.len() {
        return false;
    }
    let mut i: usize = 0;
    while i < a.len()
        invariant
            i <= a@.len(),
            a@.len() == b@.len(),
            forall|k: int| 0 <= k < i ==> a@[k] == b@[k],
        decreases a@.len() - i,
    {
        if a[i] != b[i] {
            return false;
        }
        i = i + 1;
    }
    assert(a@ == b@);
    true
}

/// Appends a 16-bit number.
pub fn push_be16(buf: &mut Vec<u8>, v: u16)
    ensures
        final(buf)@ == old(buf)@ + be16(v),
{
    proof {
        reveal(be16);
    }
    buf.push((v / 256) as u8);
    buf.push((v % 256) as u8);
}

/// Appends a 32-bit number.
pub fn push_be32(buf: &mut Vec<u8>, v: u32)
    ensures
        final(buf)@ == old(buf)@ + be32(v),
{
    proof {
        reveal(be32);
    }
    buf.push((v / 0x100_0000) as u8);
    buf.push((v / 0x1_0000 % 256) as u8);
    buf.push((v / 256 % 256) as u8);
    buf.push((v % 256) as u8);
}

/// Appends a signed 64-bit number.
pub fn push_i64(buf: &mut Vec<u8>, v: i64)
    ensures
        final(buf)@ == old(buf)@ + be64(i64_bits(v)),
{
    proof {
        reveal(be64);
    }
    let u: u64 = i64_to_bits(v);
    push_be32(buf, (u / 0x1_0000_0000) as u32);
    push_be32(buf, (u % 0x1_0000_0000) as u32);
    assert(buf@ == old(buf)@ + be64(i64_bits(v)));
}

/// Appends the low 24 bits of a number.
pub fn push_le24(buf: &mut Vec<u8>, v: u32)
    ensures
        final(buf)@ == old(buf)@ + le24(v),
{
    proof {
        reveal(le24);
    }
    buf.push((v % 256) as u8);
    buf.push((v / 256 % 256) as u8);
    buf.push((v / 0x1_0000 % 256) as u8);
}

/// Reads a 16-bit number.
pub fn get_u16(data: &[u8], i: usize) -> (v: u16)
    requires
        i + 2 <= data@.len(),
    ensures
        v == u16_at(data@, i as int),
{
    proof {
        reveal(u16_at);
    }
    data[i] as u16 * 256 + data[i + 1] as u16
}

/// Reads a 32-bit number.
pub fn get_u32(data: &[u8], i: usize) -> (v: u32)
    requires
        i + 4 <= data@.len(),
    ensures
        v == u32_at(data@, i as int),
{
    proof {
        reveal(u32_at);
    }
    data[i] as u32 * 0x100_0000 + data[i + 1] as u32 * 0x1_0000 + data[i + 2] as u32 * 256
        + data[i + 3] as u32
}

/// Reads a signed 64-bit number.
pub fn get_i64(data: &[u8], i: usize) -> (v: i64)
    requires
        i + 8 <= data@.len(),
    ensures
        v == i64_at(data@, i as int),
{
    proof {
        reveal(u64_at);
    }
    assert(i + 8 <= data.len());
    let u: u64 = get_u32(data, i) as u64 * 0x1_0000_0000 + get_u32(data, i + 4) as u64;
    i64_from_bits(u)
}

/// Reads a 24-bit number.
pub fn get_u24(data: &[u8], i: usize) -> (v: u32)
    requires
        i + 3 <= data@.len(),
    ensures
        v == u24_at(data@, i as int),
{
    proof {
        reveal(u24_at);
    }
    data[i] as u32 + data[i + 1] as u32 * 256 + data[i + 2] as u32 * 0x1_0000
}

// ==================== Laws ====================

/// The bytes of a number are its digits in base 256: most significant first, or least significant
/// first for the 24-bit ones.
pub proof fn law_bytes_are_digits(a: u16, b: u32, c: u64)
    ensures
        be16(a).len() == 2,
        be16(a)[0] * 256 + be16(a)[1] == a,
        be32(b).len() == 4,
        be32(b)[0] * 0x100_0000 + be32(b)[1] * 0x1_0000 + be32(b)[2] * 256 + be32(b)[3] == b,
        be64(c).len() == 8,
        be64(c)[0] * 0x100_0000_0000_0000 + be64(c)[1] * 0x1_0000_0000_0000 + be64(c)[2]
            * 0x100_0000_0000 + be64(c)[3] * 0x1_0000_0000 + be64(c)[4] * 0x100_0000 + be64(c)[5]
            * 0x1_0000 + be64(c)[6] * 256 + be64(c)[7] == c,
        le24(b).len() == 3,
        le24(b)[0] + le24(b)[1] * 256 + le24(b)[2] * 0x1_0000 == b % 0x100_0000,
{
    reveal(be16);
    lemma_digits32(b);
    lemma_digits24(b);
    let hi = (c / 0x1_0000_0000) as u32;
    let lo = (c % 0x1_0000_0000) as u32;
    lemma_digits32(hi);
    lemma_digits32(lo);
    assert(be64(c) == be32(hi) + be32(lo)) by {
        reveal(be64);
    }
}

proof fn lemma_digits32(b: u32)
    ensures
        be32(b).len() == 4,
        be32(b)[0] * 0x100_0000 + be32(b)[1] * 0x1_0000 + be32(b)[2] * 256 + be32(b)[3] == b,
{
    reveal(be32);
}

proof fn lemma_digits24(b: u32)
    ensures
        le24(b).len() == 3,
        le24(b)[0] + le24(b)[1] * 256 + le24(b)[2] * 0x1_0000 == b % 0x100_0000,
{
    reveal(le24);
}

/// The numbers in a packet are read as digits in base 256.
pub proof fn law_digits_are_read(s: Seq<u8>, i: int)
    ensures
        u16_at(s, i) == s[i] * 256 + s[i + 1],
        u32_at(s, i) == s[i] * 0x100_0000 + s[i + 1] * 0x1_0000 + s[i + 2] * 256 + s[i + 3],
        u64_at(s, i) == s[i] * 0x100_0000_0000_0000 + s[i + 1] * 0x1_0000_0000_0000 + s[i + 2]
            * 0x100_0000_0000 + s[i + 3] * 0x1_0000_0000 + s[i + 4] * 0x100_0000 + s[i + 5]
            * 0x1_0000 + s[i + 6] * 256 + s[i + 7],
        u24_at(s, i) == s[i] + s[i + 1] * 256 + s[i + 2] * 0x1_0000,
{
    reveal(u16_at);
    reveal(u32_at);
    reveal(u64_at);
    reveal(u24_at);
}

/// Numbers stand in the rest of a packet where they stand in the packet, less what was left out.
pub proof fn lemma_at_rest(s: Seq<u8>, k: int, i: int)
    requires
        0 <= k,
        0 <= i,
    ensures
        k + i + 2 <= s.len() ==> u16_at(s.skip(k), i) == u16_at(s, k + i),
        k + i + 8 <= s.len() ==> i64_at(s.skip(k), i) == i64_at(s, k + i),
{
    if k + i + 2 <= s.len() {
        reveal(u16_at);
    }
    if k + i + 8 <= s.len() {
        reveal(u64_at);
        reveal(u32_at);
    }
}

/// A signed number and its bit pattern differ by a multiple of the number of patterns, and each is
/// found from the other.
pub proof fn law_bit_patterns(a: i64, b: i32, u: u64, w: u32)
    ensures
        (i64_bits(a) - a) % 0x1_0000_0000_0000_0000 == 0,
        (i32_bits(b) - b) % 0x1_0000_0000 == 0,
        i64_of_bits(i64_bits(a)) == a,
        i64_bits(i64_of_bits(u)) == u,
        i32_of_bits(i32_bits(b)) == b,
        i32_bits(i32_of_bits(w)) == w,
{
}

} // verus!
