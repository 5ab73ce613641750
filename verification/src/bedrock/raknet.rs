//! RakNet wire-format primitives shared by the connectionless and the connected code.
//!
//! - [`MAGIC`]: the fixed 16-byte offline-message magic.
//! - [`PacketBuf`]: a reading cursor over a packet that reports truncation as an error.
//! - The 7-byte IPv4 system-address codec of the offline handshake.
use vstd::prelude::*;
use vstd::slice::slice_subrange;

use crate::addr::SocketAddrV4;
use crate::bytes;
use crate::error::PingError;
use crate::text;
use crate::text::Message;

verus! {

broadcast use bytes::group_widths;

/// Fixed RakNet offline-message magic (16 bytes).
pub const MAGIC: [u8; 16] = [
    0x00, 0xff, 0xff, 0x00, 0xfe, 0xfe, 0xfe, 0xfe, 0xfd, 0xfd, 0xfd, 0xfd, 0x12, 0x34, 0x56, 0x78,
];

/// Wire length of an offline IPv4 system address: family, four octets, port.
pub const RAKNET_IPV4_LEN: usize = 7;

/// Family byte of an IPv4 system address.
pub const RAKNET_FAMILY_IPV4: u8 = 4;

/// The message for a read of `need` bytes with only `remain` of them there.
pub open spec fn too_short(name: Seq<char>, consumed: int, remain: int, need: int) -> Seq<char> {
    name + " packet too short: "@ + text::decimal(consumed as nat) + " bytes consumed, only "@
        + text::decimal(remain as nat) + " remain (need "@ + text::decimal(need as nat) + ")"@
}

/// The message for a packet that starts with another ID than the expected one.
pub open spec fn wrong_id(name: Seq<char>, expected: u8, got: u8) -> Seq<char> {
    name + " packet ID is not 0x"@ + text::upper_hex_byte(expected) + ": 0x"@
        + text::upper_hex_byte(got)
}

/// The message for sixteen bytes that are not the magic.
pub open spec fn wrong_magic(name: Seq<char>, got: Seq<u8>) -> Seq<char> {
    name + " packet magic mismatch: "@ + text::hex_list(got)
}

/// A cursor over the bytes of one packet.
///
/// `name` is the packet's human-readable name and appears in every error.
#[derive(Debug)]
pub struct PacketBuf<'a> {
    data: &'a [u8],
    pos: usize,
    name: &'a str,
}

impl<'a> PacketBuf<'a> {
    /// All bytes of the packet, the consumed ones too.
    pub closed spec fn bytes(&self) -> Seq<u8> {
        self.data@
    }

    /// How many bytes were consumed.
    pub closed spec fn at(&self) -> int {
        self.pos as int
    }

    /// The name used in errors.
    pub closed spec fn tag(&self) -> Seq<char> {
        self.name@
    }

    /// The cursor stands within the packet.
    pub open spec fn wf(&self) -> bool {
        0 <= self.at() <= self.bytes().len() <= usize::MAX
    }

    /// How many bytes are left.
    pub open spec fn left(&self) -> int {
        self.bytes().len() - self.at()
    }

    /// The same packet, `n` bytes further on than `before`.
    pub open spec fn moved(&self, before: PacketBuf<'a>, n: int) -> bool {
        &&& self.wf()
        &&& self.bytes() == before.bytes()
        &&& self.tag() == before.tag()
        &&& self.at() == before.at() + n
    }

    /// The error for a read of `n` bytes at the cursor.
    pub open spec fn shortage(&self, n: int) -> Seq<char> {
        too_short(self.tag(), self.at(), self.left(), n)
    }

    /// Wraps `data`, tagging all errors with `name`.
    pub fn new(data: &'a [u8], name: &'a str) -> (r: PacketBuf<'a>)
        ensures
            r.wf(),
            r.bytes() == data@,
            r.tag() == name@,
            r.at() == 0,
    {
        let n: usize = data.len();
        PacketBuf { data, pos: 0, name }
    }

    /// Number of bytes not yet consumed.
    pub fn remaining(&self) -> (r: usize)
        requires
            self.wf(),
        ensures
            r == self.left(),
    {
        self.data.len() - self.pos
    }

    /// Fails if fewer than `n` bytes remain.
    pub fn ensure(&self, n: usize) -> (r: Result<(), PingError>)
        requires
            self.wf(),
        ensures
            match r {
                Ok(_) => self.left() >= n,
                Err(e) => self.left() < n && e.says(self.shortage(n as int)),
            },
    {
        if self.remaining() >= n {
            Ok(())
        } else {
            Err(
                Message::new(self.name).text(" packet too short: ").number(self.pos as u128).text(
                    " bytes consumed, only ",
                ).number(self.remaining() as u128).text(" remain (need ").number(n as u128).text(
                    ")",
                ).protocol(),
            )
        }
    }

    /// The next byte without consuming it, or `None` at the end.
    pub fn peek_u8(&self) -> (r: Option<u8>)
        requires
            self.wf(),
        ensures
            r == (if self.left() > 0 {
                Some(self.bytes()[self.at()])
            } else {
                None
            }),
    {
        if self.remaining() > 0 {
            Some(self.data[self.pos])
        } else {
            None
        }
    }

    /// Consumes the packet ID and fails if it is not `expected`.
    pub fn expect_id(&mut self, expected: u8) -> (r: Result<(), PingError>)
        requires
            old(self).wf(),
        ensures
            match r {
                Ok(_) => old(self).left() >= 1 && old(self).bytes()[old(self).at()] == expected
                    && final(self).moved(*old(self), 1),
                Err(e) => if old(self).left() < 1 {
                    e.says(old(self).shortage(1)) && final(self).moved(*old(self), 0)
                } else {
                    let got = old(self).bytes()[old(self).at()];
                    got != expected && e.says(wrong_id(old(self).tag(), expected, got))
                        && final(self).moved(*old(self), 1)
                },
            },
    {
        match self.read_u8() {
            Err(e) => Err(e),
            Ok(got) => if got == expected {
                Ok(())
            } else {
                Err(
                    Message::new(self.name).text(" packet ID is not 0x").upper_hex_byte(
                        expected,
                    ).text(": 0x").upper_hex_byte(got).protocol(),
                )
            },
        }
    }

    /// Reads one byte.
    pub fn read_u8(&mut self) -> (r: Result<u8, PingError>)
        requires
            old(self).wf(),
        ensures
            match r {
                Ok(v) => old(self).left() >= 1 && v == old(self).bytes()[old(self).at()]
                    && final(self).moved(*old(self), 1),
                Err(e) => old(self).left() < 1 && e.says(old(self).shortage(1)) && final(self).moved(*old(self), 0),
            },
    {
        self.ensure(1)?;
        let v: u8 = self.data[self.pos];
        self.pos = self.pos + 1;
        Ok(v)
    }

    /// Reads one big-endian `u16`.
    pub fn read_u16(&mut self) -> (r: Result<u16, PingError>)
        requires
            old(self).wf(),
        ensures
            match r {
                Ok(v) => old(self).left() >= 2 && v == bytes::u16_at(
                    old(self).bytes(),
                    old(self).at(),
                ) && final(self).moved(*old(self), 2),
                Err(e) => old(self).left() < 2 && e.says(old(self).shortage(2)) && final(self).moved(*old(self), 0),
            },
    {
        self.ensure(2)?;
        let v: u16 = bytes::get_u16(self.data, self.pos);
        self.pos = self.pos + 2;
        Ok(v)
    }

    /// Reads one big-endian `u32`.
    pub fn read_u32(&mut self) -> (r: Result<u32, PingError>)
        requires
            old(self).wf(),
        ensures
            match r {
                Ok(v) => old(self).left() >= 4 && v == bytes::u32_at(
                    old(self).bytes(),
                    old(self).at(),
                ) && final(self).moved(*old(self), 4),
                Err(e) => old(self).left() < 4 && e.says(old(self).shortage(4)) && final(self).moved(*old(self), 0),
            },
    {
        self.ensure(4)?;
        let v: u32 = bytes::get_u32(self.data, self.pos);
        self.pos = self.pos + 4;
        Ok(v)
    }

    /// Reads one big-endian `i64`.
    pub fn read_i64(&mut self) -> (r: Result<i64, PingError>)
        requires
            old(self).wf(),
        ensures
            match r {
                Ok(v) => old(self).left() >= 8 && v == bytes::i64_at(
                    old(self).bytes(),
                    old(self).at(),
                ) && final(self).moved(*old(self), 8),
                Err(e) => old(self).left() < 8 && e.says(old(self).shortage(8)) && final(self).moved(*old(self), 0),
            },
    {
        self.ensure(8)?;
        let v: i64 = bytes::get_i64(self.data, self.pos);
        self.pos = self.pos + 8;
        Ok(v)
    }

    /// Reads one little-endian 24-bit number.
    pub fn read_u24_le(&mut self) -> (r: Result<u32, PingError>)
        requires
            old(self).wf(),
        ensures
            match r {
                Ok(v) => old(self).left() >= 3 && v == bytes::u24_at(
                    old(self).bytes(),
                    old(self).at(),
                ) && v <= 0x00ff_ffff && final(self).moved(*old(self), 3),
                Err(e) => old(self).left() < 3 && e.says(old(self).shortage(3)) && final(self).moved(*old(self), 0),
            },
    {
        self.ensure(3)?;
        let v: u32 = bytes::get_u24(self.data, self.pos);
        self.pos = self.pos + 3;
        Ok(v)
    }

    /// Reads the next `n` bytes.
    pub fn read_bytes(&mut self, n: usize) -> (r: Result<&'a [u8], PingError>)
        requires
            old(self).wf(),
        ensures
            match r {
                Ok(s) => old(self).left() >= n && s@ == old(self).bytes().subrange(
                    old(self).at(),
                    old(self).at() + n,
                ) && final(self).moved(*old(self), n as int),
                Err(e) => old(self).left() < n && e.says(old(self).shortage(n as int)) && final(self).moved(*old(self), 0),
            },
    {
        self.ensure(n)?;
        let s = slice_subrange(self.data, self.pos, self.pos + n);
        self.pos = self.pos + n;
        Ok(s)
    }

    /// Reads sixteen bytes and fails if they are not [`MAGIC`].
    pub fn read_magic(&mut self) -> (r: Result<(), PingError>)
        requires
            old(self).wf(),
        ensures
            match r {
                Ok(_) => old(self).left() >= 16 && old(self).bytes().subrange(
                    old(self).at(),
                    old(self).at() + 16,
                ) == MAGIC@ && final(self).moved(*old(self), 16),
                Err(e) => if old(self).left() < 16 {
                    e.says(old(self).shortage(16)) && final(self).moved(*old(self), 0)
                } else {
                    let got = old(self).bytes().subrange(old(self).at(), old(self).at() + 16);
                    got != MAGIC@ && e.says(wrong_magic(old(self).tag(), got)) && final(self).moved(*old(self), 16)
                },
            },
    {
        match self.read_bytes(16) {
            Err(e) => Err(e),
            Ok(got) => {
                let magic: [u8; 16] = MAGIC;
                if bytes::same_bytes(got, magic.as_slice()) {
                    Ok(())
                } else {
                    Err(
                        Message::new(self.name).text(" packet magic mismatch: ").hex_list(
                            got,
                        ).protocol(),
                    )
                }
            },
        }
    }

    /// Current read offset.
    pub fn pos(&self) -> (r: usize)
        ensures
            r == self.at(),
    {
        self.pos
    }

    /// The unconsumed tail.
    pub fn tail(&self) -> (r: &'a [u8])
        requires
            self.wf(),
        ensures
            r@ == self.bytes().subrange(self.at(), self.bytes().len() as int),
    {
        slice_subrange(self.data, self.pos, self.data.len())
    }
}

/// The seven bytes of an offline IPv4 system address.
pub open spec fn ipv4_bytes(addr: SocketAddrV4) -> Seq<u8> {
    seq![RAKNET_FAMILY_IPV4, addr.a, addr.b, addr.c, addr.d] + bytes::be16(addr.port)
}

/// What seven bytes of an offline system address stand for.
pub open spec fn ipv4_of_bytes(data: Seq<u8>) -> Result<SocketAddrV4, Seq<char>> {
    if data.len() != RAKNET_IPV4_LEN {
        Err("RakNet address is "@ + text::decimal(data.len()) + " bytes, expected 7"@)
    } else if data[0] != RAKNET_FAMILY_IPV4 {
        Err("RakNet address family "@ + text::decimal(data[0] as nat) + " is not IPv4 (4)"@)
    } else {
        Ok(
            SocketAddrV4 {
                a: data[1],
                b: data[2],
                c: data[3],
                d: data[4],
                port: bytes::u16_at(data, 5),
            },
        )
    }
}

/// Encodes an offline IPv4 system address.
pub fn encode_ipv4_addr(addr: &SocketAddrV4) -> (r: [u8; 7])
    ensures
        r@ == ipv4_bytes(*addr),
{
    let r: [u8; 7] = [
        RAKNET_FAMILY_IPV4,
        addr.a,
        addr.b,
        addr.c,
        addr.d,
        (addr.port / 256) as u8,
        (addr.port % 256) as u8,
    ];
    proof {
        reveal(bytes::be16);
    }
    assert(r@ == ipv4_bytes(*addr));
    r
}

/// Decodes an offline IPv4 system address.
pub fn decode_ipv4_addr(data: &[u8]) -> (r: Result<SocketAddrV4, PingError>)
    ensures
        crate::error::agrees(r, ipv4_of_bytes(data@)),
{
    if data.len() != RAKNET_IPV4_LEN {
        return Err(
            Message::new("RakNet address is ").number(data.len() as u128).text(
                " bytes, expected 7",
            ).protocol(),
        );
    }
    if data[0] != RAKNET_FAMILY_IPV4 {
        return Err(
            Message::new("RakNet address family ").number(data[0] as u128).text(
                " is not IPv4 (4)",
            ).protocol(),
        );
    }
    Ok(SocketAddrV4::new(data[1], data[2], data[3], data[4], bytes::get_u16(data, 5)))
}

/// An address survives being written as an offline system address and read back.
pub proof fn law_ipv4_round_trip(addr: SocketAddrV4)
    ensures
        ipv4_of_bytes(ipv4_bytes(addr)) == Ok::<SocketAddrV4, Seq<char>>(addr),
{
    let s = ipv4_bytes(addr);
    assert(s == seq![RAKNET_FAMILY_IPV4, addr.a, addr.b, addr.c, addr.d] + bytes::be16(addr.port)
        + Seq::<u8>::empty());
    bytes::lemma_be16_round_trip(
        addr.port,
        seq![RAKNET_FAMILY_IPV4, addr.a, addr.b, addr.c, addr.d],
        Seq::empty(),
    );
}

/// An offline system address on the wire: the byte 4, the octets, and the port.
pub proof fn law_ipv4_layout(addr: SocketAddrV4, data: Seq<u8>)
    ensures
        ipv4_bytes(addr).len() == 7,
        ipv4_bytes(addr)[0] == 4,
        ipv4_bytes(addr)[1] == addr.a,
        ipv4_bytes(addr)[2] == addr.b,
        ipv4_bytes(addr)[3] == addr.c,
        ipv4_bytes(addr)[4] == addr.d,
        ipv4_bytes(addr)[5] * 256 + ipv4_bytes(addr)[6] == addr.port,
        ipv4_of_bytes(data) is Ok <==> data.len() == 7 && data[0] == 4,
        ipv4_of_bytes(data) matches Ok(a) ==> a.a == data[1] && a.b == data[2] && a.c == data[3]
            && a.d == data[4] && a.port == data[5] * 256 + data[6],
{
    bytes::law_bytes_are_digits(addr.port, 0, 0);
    bytes::law_digits_are_read(data, 5);
}

/// The magic is the sixteen bytes that mark RakNet's offline messages.
pub proof fn law_magic()
    ensures
        MAGIC@ == seq![
            0x00u8, 0xff, 0xff, 0x00, 0xfe, 0xfe, 0xfe, 0xfe, 0xfd, 0xfd, 0xfd, 0xfd, 0x12, 0x34,
            0x56, 0x78,
        ],
{
    assert(MAGIC@ =~= seq![
        0x00u8, 0xff, 0xff, 0x00, 0xfe, 0xfe, 0xfe, 0xfe, 0xfd, 0xfd, 0xfd, 0xfd, 0x12, 0x34, 0x56,
        0x78,
    ]);
}

/// What is said of a packet that is too short: its name, and then how many bytes were read, how many
/// remain, and how many are needed.
pub proof fn law_too_short_says(name: Seq<char>, consumed: nat, remain: nat, need: nat)
    requires
        text::no_digit(name),
    ensures
        name.is_prefix_of(too_short(name, consumed as int, remain as int, need as int)),
        text::shows(
            too_short(name, consumed as int, remain as int, need as int),
            seq![consumed, remain, need],
        ),
{
    reveal_strlit(" packet too short: ");
    reveal_strlit(" bytes consumed, only ");
    reveal_strlit(" remain (need ");
    reveal_strlit(")");
    let m = too_short(name, consumed as int, remain as int, need as int);
    assert(m.take(name.len() as int) =~= name);
    text::lemma_shows_three(
        name + " packet too short: "@,
        consumed,
        " bytes consumed, only "@,
        remain,
        " remain (need "@,
        need,
        ")"@,
    );
}

/// What is said of a packet with a wrong ID: its name, and then the ID that was expected and the one
/// that stands there, in hexadecimal.
pub proof fn law_wrong_id_says(name: Seq<char>, expected: u8, got: u8)
    ensures
        ({
            let m = wrong_id(name, expected, got);
            let n = name.len() as int;
            &&& name.is_prefix_of(m)
            &&& m.len() == n + 28
            &&& text::hex_value(m.subrange(n + 20, n + 22)) == expected
            &&& text::hex_value(m.subrange(n + 26, n + 28)) == got
        }),
{
    reveal_strlit(" packet ID is not 0x");
    reveal_strlit(": 0x");
    let m = wrong_id(name, expected, got);
    let n = name.len() as int;
    text::law_hex_round_trip(0, expected);
    text::law_hex_round_trip(0, got);
    assert(m.take(n) =~= name);
    assert(m.subrange(n + 20, n + 22) =~= text::upper_hex_byte(expected));
    assert(m.subrange(n + 26, n + 28) =~= text::upper_hex_byte(got));
}

/// What is said of a packet without the magic: its name, and then the bytes that stand there.
pub proof fn law_wrong_magic_says(name: Seq<char>, got: Seq<u8>)
    ensures
        name.is_prefix_of(wrong_magic(name, got)),
        wrong_magic(name, got).skip(name.len() as int + 24) == text::hex_list(got),
{
    reveal_strlit(" packet magic mismatch: ");
    let m = wrong_magic(name, got);
    assert(m.take(name.len() as int) =~= name);
    assert(m.skip(name.len() as int + 24) =~= text::hex_list(got));
}

} // verus!
