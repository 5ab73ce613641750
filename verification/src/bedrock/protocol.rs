//! The game layer's framing: numbers in groups of seven bits, game packets, and the batches that
//! carry them inside RakNet frames.
//!
//! ```text
//! Game packet:  varuint32(id) | varuint32(payload_len) | payload
//! Batch:        0xfe | algorithm(u8) | zlib stream of game packets
//!               0xfe | zlib stream of game packets
//!               0xfe | game packets
//! ```
use flate2::write::{ZlibDecoder, ZlibEncoder};
use flate2::Compression;
use std::io::Write;
use vstd::prelude::*;
use vstd::slice::slice_subrange;

use crate::bytes;
use crate::error::PingError;
use crate::leb128;
use crate::text;
use crate::text::{protocol_error, Message};

verus! {

/// Login.
pub const ID_LOGIN: u32 = 1;

/// Play Status.
pub const ID_PLAY_STATUS: u32 = 2;

/// Server to Client Handshake.
pub const ID_SERVER_TO_CLIENT_HANDSHAKE: u32 = 3;

/// Client to Server Handshake.
pub const ID_CLIENT_TO_SERVER_HANDSHAKE: u32 = 4;

/// Disconnect.
pub const ID_DISCONNECT: u32 = 5;

/// Network Settings.
pub const ID_NETWORK_SETTINGS: u32 = 129;

/// Request Network Settings.
pub const ID_REQUEST_NETWORK_SETTINGS: u32 = 179;

/// The first byte of a batch.
pub const ID_BATCH: u32 = 0xfe;

/// DEFLATE compression.
pub const COMPRESSION_FLATE: u16 = 0;

/// Snappy compression.
pub const COMPRESSION_SNAPPY: u16 = 1;

/// No compression.
pub const COMPRESSION_NONE: u16 = 0xffff;

// ==================== Numbers ====================

/// What reading a number from the start of `data` gives: the number and how many bytes it has.
pub open spec fn varuint32_of(data: Seq<u8>) -> Result<(u32, usize), Seq<char>> {
    let end = leb128::end_at(data);
    if end < 5 && end < data.len() {
        Ok(
            (
                (leb128::value_of(data.take(end + 1)) % 0x1_0000_0000) as u32,
                (end + 1) as usize,
            ),
        )
    } else if data.len() > 5 {
        Err("varuint32 is longer than 5 bytes"@)
    } else {
        Err("varuint32 was truncated (no terminating byte)"@)
    }
}

/// A signed number folded into an unsigned one, small ones into small ones.
pub open spec fn zigzag(v: i32) -> u32 {
    if v >= 0 {
        (2 * v) as u32
    } else {
        (-2 * v - 1) as u32
    }
}

/// The signed number that was folded into an unsigned one.
pub open spec fn unzigzag(z: u32) -> i32 {
    if z % 2 == 0 {
        (z / 2) as i32
    } else {
        (-(z / 2) - 1) as i32
    }
}

/// Writes an unsigned number.
pub fn write_varuint32(value: u32) -> (r: Vec<u8>)
    ensures
        r@ == leb128::leb(value as nat),
{
    let mut out: Vec<u8> = Vec::new();
    leb128::push_leb(&mut out, value as u64);
    assert(out@ == leb128::leb(value as nat));
    out
}

/// Reads an unsigned number of at most five bytes; says how many bytes it has.
pub fn read_varuint32(data: &[u8]) -> (r: Result<(u32, usize), PingError>)
    ensures
        crate::error::agrees(r, varuint32_of(data@)),
        r matches Ok(p) ==> 1 <= p.1 <= 5 && p.1 <= data@.len(),
{
    proof {
        assert(data@.skip(0) == data@);
        leb128::lemma_end_at_bounds(data@);
    }
    match leb128::find_end(data, 0, 5) {
        Some(i) => {
            let n: u128 = leb128::number_at(data, 0, i + 1);
            assert(data@.subrange(0, i + 1) == data@.take(i + 1));
            Ok(((n % 0x1_0000_0000) as u32, i + 1))
        },
        None => if data.len() > 5 {
            Err(protocol_error("varuint32 is longer than 5 bytes"))
        } else {
            Err(protocol_error("varuint32 was truncated (no terminating byte)"))
        },
    }
}

/// Writes a signed number, folded.
pub fn write_varint32(value: i32) -> (r: Vec<u8>)
    ensures
        r@ == leb128::leb(zigzag(value) as nat),
{
    let z: u32 = if value >= 0 {
        (2 * (value as i64)) as u32
    } else {
        (-(2 * (value as i64)) - 1) as u32
    };
    write_varuint32(z)
}

/// Reads a signed number; says how many bytes it has.
pub fn read_varint32(data: &[u8]) -> (r: Result<(i32, usize), PingError>)
    ensures
        match (r, varuint32_of(data@)) {
            (Ok(p), Ok(u)) => p == (unzigzag(u.0), u.1),
            (Err(e), Err(m)) => e.says(m),
            _ => false,
        },
        r matches Ok(p) ==> 1 <= p.1 <= 5 && p.1 <= data@.len(),
{
    let (z, n) = read_varuint32(data)?;
    let value: i32 = if z % 2 == 0 {
        (z / 2) as i32
    } else {
        (-((z / 2) as i64) - 1) as i32
    };
    Ok((value, n))
}

/// An unsigned number is read back from its bytes, whatever follows them.
pub proof fn law_varuint32_round_trip(v: u32, after: Seq<u8>)
    ensures
        1 <= leb128::leb(v as nat).len() <= 5,
        varuint32_of(leb128::leb(v as nat) + after) == Ok::<(u32, usize), Seq<char>>(
            (v, leb128::leb(v as nat).len() as usize),
        ),
{
    let b = leb128::leb(v as nat);
    leb128::lemma_powers();
    leb128::lemma_leb_len(v as nat, 5);
    leb128::lemma_leb_round_trip(v as nat, after);
    assert((b + after).take(b.len() as int) == b);
}

/// A signed number is read back from its bytes, whatever follows them.
pub proof fn law_varint32_round_trip(v: i32, after: Seq<u8>)
    ensures
        varuint32_of(leb128::leb(zigzag(v) as nat) + after) matches Ok(u) && unzigzag(u.0) == v
            && u.1 == leb128::leb(zigzag(v) as nat).len(),
{
    law_varuint32_round_trip(zigzag(v), after);
}

// ==================== Game packets ====================

/// One game packet.
#[derive(Debug, Clone, PartialEq, Eq)]
pub struct GamePacket {
    /// The packet ID.
    pub id: u32,
    /// What follows the ID.
    pub payload: Vec<u8>,
}

/// What a [`GamePacket`] holds.
#[verifier::ext_equal]
pub struct GameView {
    pub id: u32,
    pub payload: Seq<u8>,
}

impl View for GamePacket {
    type V = GameView;

    open spec fn view(&self) -> GameView {
        GameView { id: self.id, payload: self.payload@ }
    }
}

/// What a list of game packets holds.
pub open spec fn game_views(packets: Seq<GamePacket>) -> Seq<GameView> {
    packets.map_values(|p: GamePacket| p@)
}

/// A game packet on the wire. The length field holds 32 bits.
pub open spec fn game_bytes(p: GameView) -> Seq<u8> {
    leb128::leb(p.id as nat) + leb128::leb(p.payload.len() % 0x1_0000_0000) + p.payload
}

/// The game packet at the start of `data` and how many bytes it has.
pub open spec fn game_of(data: Seq<u8>) -> Result<(GameView, int), Seq<char>> {
    match varuint32_of(data) {
        Err(m) => Err(m),
        Ok((id, n1)) => match varuint32_of(data.skip(n1 as int)) {
            Err(m) => Err(m),
            Ok((len, n2)) => {
                let start = n1 + n2;
                if data.len() < start + len {
                    Err(
                        "game packet declares "@ + text::decimal(len as nat)
                            + " payload bytes but only "@ + text::decimal(
                            (data.len() - start) as nat,
                        ) + " remain"@,
                    )
                } else {
                    Ok(
                        (
                            GameView { id, payload: data.subrange(start, start + len) },
                            start + len,
                        ),
                    )
                }
            },
        },
    }
}

impl GamePacket {
    /// A game packet.
    pub fn new(id: u32, payload: Vec<u8>) -> (r: GamePacket)
        ensures
            r@ == (GameView { id, payload: payload@ }),
    {
        GamePacket { id, payload }
    }

    /// Encodes the packet.
    pub fn encode(&self) -> (r: Vec<u8>)
        ensures
            r@ == game_bytes(self@),
    {
        let mut buf = write_varuint32(self.id);
        let len: u64 = (self.payload.len() as u64) % 0x1_0000_0000;
        leb128::push_leb(&mut buf, len);
        bytes::extend(&mut buf, self.payload.as_slice());
        buf
    }

    /// Decodes the packet at the start of `data`; says how many bytes it has.
    pub fn decode(data: &[u8]) -> (r: Result<(GamePacket, usize), PingError>)
        ensures
            match (r, game_of(data@)) {
                (Ok(p), Ok(v)) => p.0@ == v.0 && p.1 == v.1 && 0 < p.1 <= data@.len(),
                (Err(e), Err(m)) => e.says(m),
                _ => false,
            },
    {
        let (id, n1) = read_varuint32(data)?;
        let rest = slice_subrange(data, n1, data.len());
        assert(rest@ == data@.skip(n1 as int));
        let (len, n2) = read_varuint32(rest)?;
        let start: usize = n1 + n2;
        let left: usize = data.len() - start;
        if left as u64 >= len as u64 {
            let end: usize = start + len as usize;
            let payload = bytes::copy_range(data, start, end);
            Ok((GamePacket { id, payload }, end))
        } else {
            Err(
                Message::new("game packet declares ").number(len as u128).text(
                    " payload bytes but only ",
                ).number(left as u128).text(" remain").protocol(),
            )
        }
    }
}

/// A game packet is decoded from its bytes, whatever follows them; its payload must be countable
/// in 32 bits.
pub proof fn law_game_packet_round_trip(p: GameView, after: Seq<u8>)
    requires
        p.payload.len() <= u32::MAX,
    ensures
        game_of(game_bytes(p) + after) == Ok::<(GameView, int), Seq<char>>(
            (p, game_bytes(p).len() as int),
        ),
{
    let a = leb128::leb(p.id as nat);
    let n = p.payload.len() as u32;
    let b = leb128::leb(n as nat);
    let data = game_bytes(p) + after;
    law_varuint32_round_trip(p.id, b + p.payload + after);
    law_varuint32_round_trip(n, p.payload + after);
    assert(data == a + (b + p.payload + after));
    assert(data.skip(a.len() as int) == b + (p.payload + after));
    let start = (a.len() + b.len()) as int;
    assert(data.subrange(start, start + n) == p.payload);
}

// ==================== Batches ====================

/// Game packets on the wire, one behind the other.
pub open spec fn body_of(packets: Seq<GameView>) -> Seq<u8>
    decreases packets.len(),
{
    if packets.len() == 0 {
        seq![]
    } else {
        body_of(packets.drop_last()) + game_bytes(packets.last())
    }
}

/// The game packets that a batch body holds, or the error of the first malformed one.
pub open spec fn packets_of(body: Seq<u8>) -> Result<Seq<GameView>, Seq<char>>
    decreases body.len(),
{
    if body.len() == 0 {
        Ok(seq![])
    } else {
        match game_of(body) {
            Err(m) => Err(m),
            Ok((p, n)) => if 0 < n <= body.len() {
                match packets_of(body.skip(n)) {
                    Err(m) => Err(m),
                    Ok(rest) => Ok(seq![p] + rest),
                }
            } else {
                Ok(seq![])
            },
        }
    }
}

/// The zlib stream that `flate2`'s `ZlibEncoder` at its default level makes of `data`; `None` if
/// it reports an error.
pub uninterp spec fn deflated(data: Seq<u8>) -> Option<Seq<u8>>;

/// What `flate2`'s `ZlibDecoder` makes of `data`; `None` if it reports an error.
pub uninterp spec fn inflated(data: Seq<u8>) -> Option<Seq<u8>>;

/// How many bytes are compressed without an error.
pub const SURE_TO_COMPRESS: usize = 32768;

/// Where compressing failed: while the data was written, or when the stream was finished.
#[derive(Debug)]
pub enum ZlibFailure {
    Write(std::io::Error),
    Finish(std::io::Error),
}

/// `flate2::write::ZlibEncoder`: compresses into a zlib stream. The decoder gives the data back,
/// and the low four bits of the first byte name the DEFLATE method, 8.
///
/// No error is reported for up to [`SURE_TO_COMPRESS`] bytes. A `Vec` takes every write, so the
/// encoder fails only where a compressed block outgrows its fixed buffer of some 85 000 bytes. A
/// literal takes at most 15 bits, and a match, which stands for three bytes or more, at most 48, so
/// a block of that much data has at most twice its size, besides its tables. Whether more data
/// can outgrow the buffer is left unsaid.
#[verifier::external_body]
pub(crate) fn zlib_compress(data: &[u8]) -> (r: Result<Vec<u8>, ZlibFailure>)
    ensures
        match (r, deflated(data@)) {
            (Ok(z), Some(s)) => z@ == s && inflated(z@) == Some(data@) && z@.len() > 0 && z@[0]
                % 16 == 8,
            (Err(_), None) => data@.len() > SURE_TO_COMPRESS,
            _ => false,
        },
{
    let mut encoder = ZlibEncoder::new(Vec::new(), Compression::default());
    match encoder.write_all(data) {
        Ok(_) => encoder.finish().map_err(ZlibFailure::Finish),
        Err(e) => Err(ZlibFailure::Write(e)),
    }
}

/// `flate2::write::ZlibDecoder`: decompresses a zlib stream.
#[verifier::external_body]
fn zlib_decompress(data: &[u8]) -> (r: Result<Vec<u8>, std::io::Error>)
    ensures
        match (r, inflated(data@)) {
            (Ok(z), Some(s)) => z@ == s,
            (Err(_), None) => true,
            _ => false,
        },
{
    let mut decoder = ZlibDecoder::new(Vec::new());
    decoder.write_all(data)?;
    decoder.finish()
}

/// The error of a failed compression: that of the write, or a message about the finish.
pub open spec fn compress_failed(e: PingError) -> bool {
    match e {
        PingError::Io(_) => true,
        PingError::Protocol(m) => "zlib compress: "@.is_prefix_of(m@),
        PingError::Json(_) => false,
    }
}

/// Compresses data into a zlib stream. Up to [`SURE_TO_COMPRESS`] bytes that succeeds.
pub fn compress(data: &[u8]) -> (r: Result<Vec<u8>, PingError>)
    ensures
        match (r, deflated(data@)) {
            (Ok(z), Some(s)) => z@ == s && inflated(z@) == Some(data@) && z@.len() > 0 && z@[0]
                % 16 == 8,
            (Err(e), None) => compress_failed(e) && data@.len() > SURE_TO_COMPRESS,
            _ => false,
        },
{
    match zlib_compress(data) {
        Ok(z) => Ok(z),
        Err(ZlibFailure::Write(e)) => Err(PingError::Io(e)),
        Err(ZlibFailure::Finish(e)) => {
            let t = crate::error::io_error_text(&e);
            let m = Message::new("zlib compress: ").text(t.as_str()).done();
            assert(m@.take("zlib compress: "@.len() as int) == "zlib compress: "@);
            Err(PingError::Protocol(m))
        },
    }
}

/// Joins game packets into a batch body.
pub fn build_batch_body(packets: &[GamePacket]) -> (r: Vec<u8>)
    ensures
        r@ == body_of(game_views(packets@)),
{
    let mut buf: Vec<u8> = Vec::new();
    let ghost all = game_views(packets@);
    let mut i: usize = 0;
    assert(all.take(0) == Seq::<GameView>::empty());
    while i < packets.len()
        invariant
            i <= packets@.len(),
            all == game_views(packets@),
            buf@ == body_of(all.take(i as int)),
        decreases packets@.len() - i,
    {
        let b = packets[i].encode();
        bytes::extend(&mut buf, b.as_slice());
        i = i + 1;
        proof {
            assert(all.take(i as int).drop_last() == all.take(i - 1));
            assert(all.take(i as int).last() == packets@[i - 1]@);
        }
    }
    assert(all.take(i as int) == all);
    buf
}

/// A batch in the format without an algorithm byte, around a zlib stream.
pub open spec fn legacy_batch(stream: Seq<u8>) -> Seq<u8> {
    seq![0xfeu8] + stream
}

/// A batch in the format with an algorithm byte, around a zlib stream.
pub open spec fn flate_batch(stream: Seq<u8>) -> Seq<u8> {
    seq![0xfeu8, 0] + stream
}

/// Encodes a batch in the format without an algorithm byte: a zlib stream of the batch body behind
/// the batch byte. Decoding it gives the packets back. A body of up to [`SURE_TO_COMPRESS`] bytes
/// is always encoded.
pub fn encode_batch_legacy(packets: &[GamePacket]) -> (r: Result<Vec<u8>, PingError>)
    ensures
        match (r, deflated(body_of(game_views(packets@)))) {
            (Ok(b), Some(s)) => {
                &&& b@ == legacy_batch(s)
                &&& inflated(b@.skip(1)) == Some(body_of(game_views(packets@)))
                &&& countable(game_views(packets@)) ==> decoded_batch(b@) == Ok::<
                    Seq<GameView>,
                    Seq<char>,
                >(game_views(packets@))
            },
            (Err(e), None) => compress_failed(e) && body_of(game_views(packets@)).len()
                > SURE_TO_COMPRESS,
            _ => false,
        },
{
    let body = build_batch_body(packets);
    let stream = compress(body.as_slice())?;
    let out = with_prefix(0xfe, None, stream.as_slice());
    proof {
        let views = game_views(packets@);
        assert(out@ == legacy_batch(stream@));
        assert(out@.skip(1) == stream@);
        if countable(views) {
            lemma_body_round_trip(views);
        }
    }
    Ok(out)
}

fn with_prefix(first: u8, second: Option<u8>, rest: &[u8]) -> (r: Vec<u8>)
    ensures
        r@ == (match second {
            Some(b) => seq![first, b],
            None => seq![first],
        }) + rest@,
{
    let mut out: Vec<u8> = Vec::new();
    out.push(first);
    if let Some(b) = second {
        out.push(b);
    }
    assert(out@ == match second {
        Some(b) => seq![first, b],
        None => seq![first],
    });
    bytes::extend(&mut out, rest);
    out
}

/// Why an algorithm cannot be used, if it cannot.
pub open spec fn algorithm_error(compress_with: u16) -> Option<Seq<char>> {
    if compress_with == COMPRESSION_FLATE || compress_with == COMPRESSION_NONE {
        None
    } else if compress_with == COMPRESSION_SNAPPY {
        Some("snappy compression is not supported yet"@)
    } else {
        Some("unknown compression algorithm "@ + text::decimal(compress_with as nat))
    }
}

/// The batch around a body under an algorithm, where there is one.
pub open spec fn encoded_batch(body: Seq<u8>, compress_with: u16) -> Option<Seq<u8>> {
    if compress_with == COMPRESSION_FLATE {
        match deflated(body) {
            Some(stream) => Some(flate_batch(stream)),
            None => None,
        }
    } else if compress_with == COMPRESSION_NONE {
        Some(legacy_batch(body))
    } else {
        None
    }
}

/// Encodes a batch. A DEFLATE batch decodes to the packets again; so does an uncompressed one,
/// unless its body happens to be a zlib stream. A body of up to [`SURE_TO_COMPRESS`] bytes is
/// always encoded, unless the algorithm is not supported.
pub fn encode_batch(packets: &[GamePacket], compress_with: u16) -> (r: Result<
    Vec<u8>,
    PingError,
>)
    ensures
        match (r, encoded_batch(body_of(game_views(packets@)), compress_with)) {
            (Ok(b), Some(v)) => b@ == v,
            (Err(_), None) => true,
            _ => false,
        },
        match r {
            Ok(b) => {
                let views = game_views(packets@);
                let body = body_of(views);
                if compress_with == COMPRESSION_FLATE {
                    &&& deflated(body) matches Some(s)
                    &&& b@ == flate_batch(s)
                    &&& inflated(b@.skip(2)) == Some(body)
                    &&& countable(views) ==> decoded_batch(b@) == Ok::<
                        Seq<GameView>,
                        Seq<char>,
                    >(views)
                } else {
                    &&& compress_with == COMPRESSION_NONE
                    &&& b@ == legacy_batch(body)
                    &&& countable(views) && inflated(body) is None && (body.len() == 0 || body[0]
                        != 0 || inflated(body.skip(1)) is None) ==> decoded_batch(b@) == Ok::<
                        Seq<GameView>,
                        Seq<char>,
                    >(views)
                }
            },
            Err(e) => match algorithm_error(compress_with) {
                Some(m) => e.says(m),
                None => {
                    let body = body_of(game_views(packets@));
                    &&& compress_with == COMPRESSION_FLATE
                    &&& deflated(body) is None
                    &&& compress_failed(e)
                    &&& body.len() > SURE_TO_COMPRESS
                },
            },
        },
{
    let body = build_batch_body(packets);
    let ghost views = game_views(packets@);
    if compress_with == COMPRESSION_FLATE {
        let stream = compress(body.as_slice())?;
        let out = with_prefix(0xfe, Some(0), stream.as_slice());
        proof {
            assert(out@ == flate_batch(stream@));
            assert(out@.skip(2) == stream@);
            if countable(views) {
                lemma_body_round_trip(views);
            }
        }
        Ok(out)
    } else if compress_with == COMPRESSION_NONE {
        let out = with_prefix(0xfe, None, body.as_slice());
        proof {
            assert(out@ == legacy_batch(body@));
            assert(out@.skip(1) == body@);
            if body@.len() > 0 {
                assert(out@.skip(2) == body@.skip(1));
            }
            if countable(views) {
                lemma_body_round_trip(views);
            }
        }
        Ok(out)
    } else if compress_with == COMPRESSION_SNAPPY {
        Err(protocol_error("snappy compression is not supported yet"))
    } else {
        Err(
            Message::new("unknown compression algorithm ").number(
                compress_with as u128,
            ).protocol(),
        )
    }
}

/// What a batch holds, given what its bytes behind the algorithm byte and its bytes behind the
/// batch byte decompress to: the former where the algorithm byte names DEFLATE, else the latter,
/// else the bytes as they are.
pub open spec fn batch_of(data: Seq<u8>, modern: Option<Seq<u8>>, legacy: Option<Seq<u8>>)
    -> Result<Seq<GameView>, Seq<char>> {
    let rest = data.skip(1);
    if data.len() == 0 {
        Err("empty batch"@)
    } else if data[0] != 0xfe {
        Err(
            "not a batch packet: leading byte 0x"@ + text::upper_hex_byte(data[0])
                + " (expected 0xFE)"@,
        )
    } else if rest.len() > 0 && rest[0] == 0 && modern is Some {
        packets_of(modern->0)
    } else if legacy is Some {
        packets_of(legacy->0)
    } else {
        match packets_of(rest) {
            Ok(p) => Ok(p),
            Err(m) => if rest.len() > 0 && rest[0] == 1 {
                Err("snappy compression is not supported yet"@)
            } else {
                Err(m)
            },
        }
    }
}

/// What a batch holds.
pub open spec fn decoded_batch(data: Seq<u8>) -> Result<Seq<GameView>, Seq<char>> {
    batch_of(data, inflated(data.skip(2)), inflated(data.skip(1)))
}

/// The content of a decompression result.
pub open spec fn content(z: Option<Vec<u8>>) -> Option<Seq<u8>> {
    match z {
        Some(v) => Some(v@),
        None => None,
    }
}

/// Decodes a batch body.
pub fn decode_batch_body(body: &[u8]) -> (r: Result<Vec<GamePacket>, PingError>)
    ensures
        match (r, packets_of(body@)) {
            (Ok(ps), Ok(vs)) => game_views(ps@) == vs,
            (Err(e), Err(m)) => e.says(m),
            _ => false,
        },
{
    let mut packets: Vec<GamePacket> = Vec::new();
    let mut off: usize = 0;
    let ghost total = packets_of(body@);
    proof {
        assert(body@.skip(0) == body@);
        assert(game_views(packets@) == Seq::<GameView>::empty());
        if let Ok(all) = total {
            assert(Seq::<GameView>::empty() + all == all);
        }
    }
    while off < body.len()
        invariant
            off <= body@.len(),
            total == packets_of(body@),
            total == prepend_packets(game_views(packets@), packets_of(body@.skip(off as int))),
        decreases body@.len() - off,
    {
        let rest = slice_subrange(body, off, body.len());
        assert(rest@ == body@.skip(off as int));
        let ghost done = game_views(packets@);
        let (p, n) = match GamePacket::decode(rest) {
            Ok(pair) => pair,
            Err(e) => {
                return Err(e);
            },
        };
        let ghost pv = p@;
        packets.push(p);
        proof {
            assert(game_views(packets@) == done.push(pv));
            assert(rest@.skip(n as int) == body@.skip(off + n));
            if let Ok(more) = packets_of(body@.skip(off + n)) {
                assert(done + (seq![pv] + more) == done.push(pv) + more);
            }
        }
        off = off + n;
    }
    proof {
        assert(body@.skip(off as int) == Seq::<u8>::empty());
        assert(game_views(packets@) + Seq::<GameView>::empty() == game_views(packets@));
    }
    Ok(packets)
}

/// Decoded packets continued by what decoding the rest gives.
pub open spec fn prepend_packets(
    done: Seq<GameView>,
    rest: Result<Seq<GameView>, Seq<char>>,
) -> Result<Seq<GameView>, Seq<char>> {
    match rest {
        Ok(more) => Ok(done + more),
        Err(m) => Err(m),
    }
}

/// Decodes a batch, given what its bytes decompress to: `modern` is for the bytes behind the
/// algorithm byte, `legacy` for those behind the batch byte.
pub fn decode_batch_with(
    data: &[u8],
    modern: Option<Vec<u8>>,
    legacy: Option<Vec<u8>>,
) -> (r: Result<Vec<GamePacket>, PingError>)
    ensures
        match (r, batch_of(data@, content(modern), content(legacy))) {
            (Ok(ps), Ok(vs)) => game_views(ps@) == vs,
            (Err(e), Err(m)) => e.says(m),
            _ => false,
        },
{
    if data.len() == 0 {
        return Err(protocol_error("empty batch"));
    }
    if data[0] != 0xfe {
        return Err(
            Message::new("not a batch packet: leading byte 0x").upper_hex_byte(data[0]).text(
                " (expected 0xFE)",
            ).protocol(),
        );
    }
    let rest = slice_subrange(data, 1, data.len());
    assert(rest@ == data@.skip(1));
    if rest.len() > 0 && rest[0] == 0 {
        if let Some(b) = &modern {
            return decode_batch_body(b.as_slice());
        }
    }
    if let Some(b) = &legacy {
        return decode_batch_body(b.as_slice());
    }
    match decode_batch_body(rest) {
        Ok(p) => Ok(p),
        Err(e) => if rest.len() > 0 && rest[0] == 1 {
            Err(protocol_error("snappy compression is not supported yet"))
        } else {
            Err(e)
        },
    }
}

/// Decodes a batch: compressed with an algorithm byte, compressed without one, or uncompressed,
/// whichever fits first.
pub fn decode_batch(data: &[u8]) -> (r: Result<Vec<GamePacket>, PingError>)
    ensures
        match (r, decoded_batch(data@)) {
            (Ok(ps), Ok(vs)) => game_views(ps@) == vs,
            (Err(e), Err(m)) => e.says(m),
            _ => false,
        },
{
    if data.len() == 0 || data[0] != 0xfe {
        return decode_batch_with(data, None, None);
    }
    if data.len() > 1 && data[1] == 0 {
        let compressed = slice_subrange(data, 2, data.len());
        assert(compressed@ == data@.skip(2));
        if let Ok(b) = zlib_decompress(compressed) {
            return decode_batch_with(data, Some(b), None);
        }
    }
    let rest = slice_subrange(data, 1, data.len());
    assert(rest@ == data@.skip(1));
    match zlib_decompress(rest) {
        Ok(b) => decode_batch_with(data, None, Some(b)),
        Err(_) => decode_batch_with(data, None, None),
    }
}

/// Every payload can be counted in 32 bits.
pub open spec fn countable(packets: Seq<GameView>) -> bool {
    forall|i: int| 0 <= i < packets.len() ==> (#[trigger] packets[i]).payload.len() <= u32::MAX
}

proof fn lemma_body_first(packets: Seq<GameView>)
    requires
        packets.len() > 0,
    ensures
        body_of(packets) == game_bytes(packets[0]) + body_of(packets.drop_first()),
    decreases packets.len(),
{
    if packets.len() == 1 {
        assert(packets.drop_last() == Seq::<GameView>::empty());
        assert(packets.drop_first() == Seq::<GameView>::empty());
        reveal_with_fuel(body_of, 2);
        assert(Seq::<u8>::empty() + game_bytes(packets[0]) == game_bytes(packets[0]) + Seq::<
            u8,
        >::empty());
    } else {
        lemma_body_first(packets.drop_last());
        assert(packets.drop_last().drop_first() == packets.drop_first().drop_last());
        assert(body_of(packets) == game_bytes(packets[0]) + body_of(packets.drop_first()));
    }
}

proof fn lemma_body_round_trip(packets: Seq<GameView>)
    requires
        countable(packets),
    ensures
        packets_of(body_of(packets)) == Ok::<Seq<GameView>, Seq<char>>(packets),
    decreases packets.len(),
{
    if packets.len() == 0 {
        assert(packets == Seq::<GameView>::empty());
    } else {
        let rest = packets.drop_first();
        let b = game_bytes(packets[0]);
        lemma_body_first(packets);
        law_game_packet_round_trip(packets[0], body_of(rest));
        lemma_body_round_trip(rest);
        leb128::lemma_leb_bytes(packets[0].id as nat);
        assert(b.len() > 0);
        assert(body_of(packets).skip(b.len() as int) == body_of(rest));
        assert(packets == seq![packets[0]] + rest);
    }
}

/// The two formats differ by the algorithm byte alone, which stands behind the batch byte.
pub proof fn law_legacy_lacks_the_algorithm_byte(stream: Seq<u8>)
    ensures
        flate_batch(stream)[1] == 0,
        legacy_batch(stream) == flate_batch(stream).remove(1),
{
    assert(legacy_batch(stream) =~= flate_batch(stream).remove(1));
}

/// Game packets are decoded from the batch body they were joined into, in order.
pub proof fn law_batch_body_round_trip(packets: Seq<GameView>)
    requires
        countable(packets),
    ensures
        packets_of(body_of(packets)) == Ok::<Seq<GameView>, Seq<char>>(packets),
{
    lemma_body_round_trip(packets);
}

// ==================== Laws ====================

/// Folding keeps every number apart: the even ones stand for the numbers from 0 on, the odd ones
/// for those below, small ones for small ones.
pub proof fn law_folding(v: i32, z: u32)
    ensures
        unzigzag(zigzag(v)) == v,
        zigzag(unzigzag(z)) == z,
        zigzag(v) % 2 == 0 <==> v >= 0,
        v >= 0 ==> 2 * v == zigzag(v),
        v < 0 ==> 2 * v + zigzag(v) == -1,
{
}

/// When bytes begin with a number, and which: one of the first five ends it.
pub proof fn law_varuint32_is_understood(data: Seq<u8>, n: int)
    requires
        1 <= n <= 5,
        n <= data.len(),
        forall|k: int| 0 <= k < n - 1 ==> #[trigger] data[k] >= 128,
        data[n - 1] < 128,
    ensures
        varuint32_of(data) matches Ok((v, used)) && used == n && v == leb128::value_of(
            data.take(n),
        ) % 0x1_0000_0000,
{
    leb128::lemma_end_at(data, n - 1);
}

/// Bytes of which none among the first five ends a number do not begin with one.
pub proof fn law_varuint32_must_end(data: Seq<u8>)
    requires
        forall|k: int| 0 <= k < data.len() && k < 5 ==> #[trigger] data[k] >= 128,
    ensures
        varuint32_of(data) is Err,
{
    leb128::lemma_end_at_bounds(data);
    if leb128::end_at(data) < data.len() && leb128::end_at(data) < 5 {
        assert(data[leb128::end_at(data)] < 128);
    }
}

/// When bytes begin with a game packet, and which: an ID, a length, and as many bytes behind them.
pub proof fn law_game_packet_is_understood(data: Seq<u8>)
    ensures
        game_of(data) is Ok <==> {
            &&& varuint32_of(data) matches Ok((_, n1))
            &&& varuint32_of(data.skip(n1 as int)) matches Ok((len, n2))
            &&& n1 + n2 + len <= data.len()
        },
        game_of(data) matches Ok((p, used)) ==> {
            &&& varuint32_of(data) matches Ok((id, n1))
            &&& varuint32_of(data.skip(n1 as int)) matches Ok((len, n2))
            &&& p.id == id
            &&& used == n1 + n2 + len
            &&& p.payload.len() == len
            &&& forall|i: int| 0 <= i < len ==> #[trigger] p.payload[i] == data[n1 + n2 + i]
        },
{
}

/// The packets of a body are the one at its start and those behind it; an empty body has none, and
/// a malformed packet makes the body malformed.
pub proof fn law_packets_follow(body: Seq<u8>)
    ensures
        body.len() == 0 ==> packets_of(body) == Ok::<Seq<GameView>, Seq<char>>(seq![]),
        body.len() > 0 && game_of(body) is Err ==> packets_of(body) is Err,
        body.len() > 0 ==> (game_of(body) matches Ok((p, n)) ==> match packets_of(body.skip(n)) {
            Ok(rest) => packets_of(body) == Ok::<Seq<GameView>, Seq<char>>(seq![p] + rest),
            Err(_) => packets_of(body) is Err,
        }),
{
    if body.len() > 0 {
        if let Ok((_, n1)) = varuint32_of(body) {
            leb128::lemma_end_at_bounds(body);
            leb128::lemma_end_at_bounds(body.skip(n1 as int));
        }
    }
}

/// A batch on the wire: the byte 0xfe, the byte 0 for DEFLATE where the format has an algorithm
/// byte, and the stream.
pub proof fn law_batch_layout(stream: Seq<u8>)
    ensures
        flate_batch(stream).len() == stream.len() + 2,
        flate_batch(stream)[0] == 0xfe,
        flate_batch(stream)[1] == 0,
        flate_batch(stream).skip(2) == stream,
        legacy_batch(stream).len() == stream.len() + 1,
        legacy_batch(stream)[0] == 0xfe,
        legacy_batch(stream).skip(1) == stream,
{
    assert(flate_batch(stream).skip(2) =~= stream);
    assert(legacy_batch(stream).skip(1) =~= stream);
}

/// Algorithm 0 is DEFLATE and 0xffff is none; no other can be used.
pub proof fn law_algorithms(compress_with: u16)
    ensures
        algorithm_error(compress_with) is None <==> compress_with == 0 || compress_with == 0xffff,
{
}

/// How a batch is read: it must begin with 0xfe. Behind an algorithm byte 0 its stream is read, if
/// it is one; else the stream behind the batch byte, if it is one; else the packets as they stand.
pub proof fn law_batch_is_read(data: Seq<u8>, modern: Option<Seq<u8>>, legacy: Option<Seq<u8>>)
    ensures
        data.len() == 0 || data[0] != 0xfe ==> batch_of(data, modern, legacy) is Err,
        data.len() >= 2 && data[0] == 0xfe && data[1] == 0 ==> (modern matches Some(body)
            ==> batch_of(data, modern, legacy) == packets_of(body)),
        data.len() >= 1 && data[0] == 0xfe && (data.len() < 2 || data[1] != 0 || modern is None)
            ==> (legacy matches Some(body) ==> batch_of(data, modern, legacy) == packets_of(body)),
        data.len() >= 1 && data[0] == 0xfe && (data.len() < 2 || data[1] != 0 || modern is None)
            && legacy is None ==> (match packets_of(data.skip(1)) {
            Ok(p) => batch_of(data, modern, legacy) == Ok::<Seq<GameView>, Seq<char>>(p),
            Err(_) => batch_of(data, modern, legacy) is Err,
        }),
{
}

/// A batch that is read as a whole is read from its own bytes: what they decompress to behind the
/// first two, and behind the first.
pub proof fn law_decoded_batch_is_its_own(data: Seq<u8>)
    requires
        data.len() >= 2,
        data[0] == 0xfe,
    ensures
        data[1] == 0 ==> (inflated(data.skip(2)) matches Some(body) ==> decoded_batch(data)
            == packets_of(body)),
        data[1] != 0 ==> (inflated(data.skip(1)) matches Some(body) ==> decoded_batch(data)
            == packets_of(body)),
{
}

/// The IDs of the packets of the login stage.
pub proof fn law_packet_ids()
    ensures
        ID_LOGIN == 1,
        ID_PLAY_STATUS == 2,
        ID_SERVER_TO_CLIENT_HANDSHAKE == 3,
        ID_CLIENT_TO_SERVER_HANDSHAKE == 4,
        ID_DISCONNECT == 5,
        ID_NETWORK_SETTINGS == 129,
        ID_REQUEST_NETWORK_SETTINGS == 179,
        ID_BATCH == 0xfe,
{
}

/// What is said of a game packet that ends early: how many bytes it declares, and then how many
/// remain.
pub proof fn law_short_game_packet_says(data: Seq<u8>, id: u32, n1: usize, len: u32, n2: usize)
    requires
        varuint32_of(data) == Ok::<(u32, usize), Seq<char>>((id, n1)),
        varuint32_of(data.skip(n1 as int)) == Ok::<(u32, usize), Seq<char>>((len, n2)),
        n1 + n2 <= data.len() < n1 + n2 + len,
    ensures
        game_of(data) matches Err(m) && text::shows(
            m,
            seq![len as nat, (data.len() - n1 - n2) as nat],
        ),
{
    reveal_strlit("game packet declares ");
    reveal_strlit(" payload bytes but only ");
    reveal_strlit(" remain");
    text::lemma_shows_two(
        "game packet declares "@,
        len as nat,
        " payload bytes but only "@,
        (data.len() - n1 - n2) as nat,
        " remain"@,
    );
}

/// What a batch is made of: under algorithm 0 the bytes 0xfe and 0 and the compressed body, under
/// 0xffff the byte 0xfe and the body as it is; under no other is there one.
pub proof fn law_encoded_batch(body: Seq<u8>, compress_with: u16)
    ensures
        match encoded_batch(body, compress_with) {
            Some(b) => {
                &&& b.len() >= 1
                &&& b[0] == 0xfe
                &&& compress_with == 0 ==> b.len() >= 2 && b[1] == 0 && deflated(body) == Some(
                    b.skip(2),
                )
                &&& compress_with != 0 ==> compress_with == 0xffff && b.skip(1) == body
            },
            None => compress_with != 0xffff && (compress_with == 0 ==> deflated(body) is None),
        },
{
    law_batch_layout(body);
    if let Some(stream) = deflated(body) {
        law_batch_layout(stream);
    }
}

} // verus!
