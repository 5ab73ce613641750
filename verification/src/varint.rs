//! Minecraft's VarInt and VarLong.
//!
//! [`VarInt`] takes five bytes and [`VarLong`] ten; unused bytes are zero. They are made from and
//! turned into plain numbers by `From`, and read from and written to byte sequences by the traits
//! below.
use vstd::prelude::*;

use crate::bytes;
use crate::leb128;
use crate::text;

verus! {

/// Why a number could not be read.
#[derive(Debug, Clone, Copy, PartialEq, Eq, Structural)]
pub enum ReadError {
    /// The bytes end before the number does.
    UnexpectedEnd,
    /// A VarInt of more than five bytes.
    VarIntTooLong,
    /// A VarLong of more than ten bytes.
    VarLongTooLong,
}

/// The text of an error.
pub open spec fn error_text(e: ReadError) -> Seq<char> {
    match e {
        ReadError::UnexpectedEnd => "failed to fill whole buffer"@,
        ReadError::VarIntTooLong => "varint too long (length > 5)"@,
        ReadError::VarLongTooLong => "varlong too long (length > 10)"@,
    }
}

impl ReadError {
    /// The text of the error.
    pub fn message(&self) -> (r: String)
        ensures
            r@ == error_text(*self),
    {
        match self {
            ReadError::UnexpectedEnd => text::copy_text("failed to fill whole buffer"),
            ReadError::VarIntTooLong => text::copy_text("varint too long (length > 5)"),
            ReadError::VarLongTooLong => text::copy_text("varlong too long (length > 10)"),
        }
    }
}

/// A 32-bit number in groups of seven bits.
#[derive(Debug, Clone, Copy, PartialEq, Eq)]
pub struct VarInt {
    inner: [u8; 5],
}

/// A 64-bit number in groups of seven bits.
#[derive(Debug, Clone, Copy, PartialEq, Eq)]
pub struct VarLong {
    inner: [u8; 10],
}

/// Bytes filled up with zeros to `n`.
pub open spec fn padded(s: Seq<u8>, n: nat) -> Seq<u8> {
    Seq::new(
        n,
        |i: int|
            if i < s.len() {
                s[i]
            } else {
                0
            },
    )
}

/// The bytes up to the one that ends the number: those that are written.
pub open spec fn used(s: Seq<u8>) -> Seq<u8> {
    s.take(leb128::end_at(s) + 1)
}

impl View for VarInt {
    type V = Seq<u8>;

    closed spec fn view(&self) -> Seq<u8> {
        self.inner@
    }
}

impl View for VarLong {
    type V = Seq<u8>;

    closed spec fn view(&self) -> Seq<u8> {
        self.inner@
    }
}

impl VarInt {
    /// One of the bytes ends the number.
    #[verifier::type_invariant]
    spec fn ends(self) -> bool {
        leb128::end_at(self.inner@) < 5
    }

    /// The number that a VarInt stands for.
    pub open spec fn number(self) -> i32 {
        bytes::i32_of_bits((leb128::value_of(used(self@)) % 0x1_0000_0000) as u32)
    }
}

impl VarLong {
    /// One of the bytes ends the number.
    #[verifier::type_invariant]
    spec fn ends(self) -> bool {
        leb128::end_at(self.inner@) < 10
    }

    /// The number that a VarLong stands for.
    pub open spec fn number(self) -> i64 {
        bytes::i64_of_bits((leb128::value_of(used(self@)) % 0x1_0000_0000_0000_0000) as u64)
    }
}

/// The five bytes of a number.
pub open spec fn var_int_bytes(n: i32) -> Seq<u8> {
    padded(leb128::leb(bytes::i32_bits(n) as nat), 5)
}

/// The ten bytes of a number.
pub open spec fn var_long_bytes(n: i64) -> Seq<u8> {
    padded(leb128::leb(bytes::i64_bits(n) as nat), 10)
}

proof fn lemma_padded_end(n: nat, width: nat)
    requires
        leb128::leb(n).len() <= width,
    ensures
        leb128::end_at(padded(leb128::leb(n), width)) == leb128::leb(n).len() - 1,
        used(padded(leb128::leb(n), width)) == leb128::leb(n),
        leb128::value_of(used(padded(leb128::leb(n), width))) == n,
{
    let s = padded(leb128::leb(n), width);
    leb128::lemma_leb_bytes(n);
    let i = leb128::leb(n).len() - 1;
    assert(leb128::leb(n).last() == leb128::leb(n)[i]);
    leb128::lemma_end_at(s, i as int);
    leb128::lemma_leb_round_trip(n, Seq::empty());
    assert(used(s) == leb128::leb(n));
}

impl Default for VarInt {
    fn default() -> (r: VarInt)
        ensures
            r@ == seq![0u8, 0, 0, 0, 0],
    {
        let inner: [u8; 5] = [0, 0, 0, 0, 0];
        proof {
            leb128::lemma_end_at(inner@, 0);
        }
        let r = VarInt { inner };
        assert(r@ == seq![0u8, 0, 0, 0, 0]);
        r
    }
}

impl Default for VarLong {
    fn default() -> (r: VarLong)
        ensures
            r@ == seq![0u8, 0, 0, 0, 0, 0, 0, 0, 0, 0],
    {
        let inner: [u8; 10] = [0, 0, 0, 0, 0, 0, 0, 0, 0, 0];
        proof {
            leb128::lemma_end_at(inner@, 0);
        }
        let r = VarLong { inner };
        assert(r@ == seq![0u8, 0, 0, 0, 0, 0, 0, 0, 0, 0]);
        r
    }
}

impl From<i32> for VarInt {
    fn from(n: i32) -> (r: VarInt)
        ensures
            r@ == var_int_bytes(n),
            r.number() == n,
    {
        let bits: u32 = bytes::i32_to_bits(n);
        let mut buf: Vec<u8> = Vec::new();
        leb128::push_leb(&mut buf, bits as u64);
        let ghost all = leb128::leb(bits as nat);
        proof {
            leb128::lemma_powers();
            leb128::lemma_leb_len(bits as nat, 5);
            lemma_padded_end(bits as nat, 5);
        }
        let mut inner: [u8; 5] = [0, 0, 0, 0, 0];
        let mut i: usize = 0;
        while i < buf.len()
            invariant
                i <= buf@.len() <= 5,
                inner@.len() == 5,
                forall|k: int| 0 <= k < i ==> inner@[k] == buf@[k],
                forall|k: int| i <= k < 5 ==> inner@[k] == 0,
            decreases buf@.len() - i,
        {
            inner[i] = buf[i];
            i = i + 1;
        }
        assert(buf@ == all);
        assert(inner@ == padded(all, 5));
        VarInt { inner }
    }
}

impl vstd::std_specs::convert::FromSpecImpl<i32> for VarInt {
    open spec fn obeys_from_spec() -> bool {
        false
    }

    open spec fn from_spec(n: i32) -> VarInt {
        arbitrary()
    }
}

impl From<i64> for VarLong {
    fn from(n: i64) -> (r: VarLong)
        ensures
            r@ == var_long_bytes(n),
            r.number() == n,
    {
        let bits: u64 = bytes::i64_to_bits(n);
        let mut buf: Vec<u8> = Vec::new();
        leb128::push_leb(&mut buf, bits);
        let ghost all = leb128::leb(bits as nat);
        proof {
            leb128::lemma_powers();
            leb128::lemma_leb_len(bits as nat, 10);
            lemma_padded_end(bits as nat, 10);
        }
        let mut inner: [u8; 10] = [0, 0, 0, 0, 0, 0, 0, 0, 0, 0];
        let mut i: usize = 0;
        while i < buf.len()
            invariant
                i <= buf@.len() <= 10,
                inner@.len() == 10,
                forall|k: int| 0 <= k < i ==> inner@[k] == buf@[k],
                forall|k: int| i <= k < 10 ==> inner@[k] == 0,
            decreases buf@.len() - i,
        {
            inner[i] = buf[i];
            i = i + 1;
        }
        assert(buf@ == all);
        assert(inner@ == padded(all, 10));
        VarLong { inner }
    }
}

impl vstd::std_specs::convert::FromSpecImpl<i64> for VarLong {
    open spec fn obeys_from_spec() -> bool {
        false
    }

    open spec fn from_spec(n: i64) -> VarLong {
        arbitrary()
    }
}

fn number_from(inner: &[u8], max: usize) -> (r: u128)
    requires
        leb128::end_at(inner@) < max <= 10,
        inner@.len() == max,
    ensures
        r == leb128::value_of(used(inner@)),
{
    assert(inner@.skip(0) == inner@);
    match leb128::find_end(inner, 0, max) {
        Some(i) => {
            assert(inner@.subrange(0, i + 1) == used(inner@));
            leb128::number_at(inner, 0, i + 1)
        },
        None => {
            assert(false);
            0
        },
    }
}

impl From<VarInt> for i32 {
    fn from(v: VarInt) -> (r: i32) {
        proof {
            use_type_invariant(&v);
        }
        let n: u128 = number_from(v.inner.as_slice(), 5);
        bytes::i32_from_bits((n % 0x1_0000_0000) as u32)
    }
}

impl vstd::std_specs::convert::FromSpecImpl<VarInt> for i32 {
    open spec fn obeys_from_spec() -> bool {
        true
    }

    open spec fn from_spec(v: VarInt) -> i32 {
        v.number()
    }
}

impl From<VarLong> for i64 {
    fn from(v: VarLong) -> (r: i64) {
        proof {
            use_type_invariant(&v);
        }
        let n: u128 = number_from(v.inner.as_slice(), 10);
        bytes::i64_from_bits((n % 0x1_0000_0000_0000_0000) as u64)
    }
}

impl vstd::std_specs::convert::FromSpecImpl<VarLong> for i64 {
    open spec fn obeys_from_spec() -> bool {
        true
    }

    open spec fn from_spec(v: VarLong) -> i64 {
        v.number()
    }
}

// ==================== Reading ====================

/// Bytes and a position to read from.
#[derive(Debug, Clone, PartialEq, Eq)]
pub struct Cursor {
    data: Vec<u8>,
    pos: usize,
}

/// Reading a number of at most `max` bytes at offset `at`: how many bytes it has; or, where it has
/// none, whether it is too long.
pub open spec fn read_len(s: Seq<u8>, at: int, max: int) -> Result<int, bool> {
    let rest = s.skip(at);
    let end = leb128::end_at(rest);
    if end < max && end < rest.len() {
        Ok(end + 1)
    } else {
        Err(rest.len() > max)
    }
}

impl Cursor {
    /// All bytes.
    pub closed spec fn bytes(&self) -> Seq<u8> {
        self.data@
    }

    /// How many bytes were read.
    pub closed spec fn at(&self) -> int {
        self.pos as int
    }

    /// The position stands within the bytes.
    pub open spec fn wf(&self) -> bool {
        0 <= self.at() <= self.bytes().len() <= usize::MAX
    }

    /// A cursor at the start of `data`.
    pub fn new(data: Vec<u8>) -> (r: Cursor)
        ensures
            r.wf(),
            r.bytes() == data@,
            r.at() == 0,
    {
        assert(data.len() == data@.len());
        Cursor { data, pos: 0 }
    }

    /// How many bytes were read.
    pub fn position(&self) -> (r: usize)
        ensures
            r == self.at(),
    {
        self.pos
    }

    fn scan(&self, max: usize) -> (r: Result<usize, bool>)
        requires
            self.wf(),
            max < 100,
        ensures
            match (r, read_len(self.bytes(), self.at(), max as int)) {
                (Ok(n), Ok(m)) => n == m && 0 < n <= max && self.at() + n <= self.bytes().len(),
                (Err(a), Err(b)) => a == b,
                _ => false,
            },
    {
        let ghost rest = self.bytes().skip(self.at());
        proof {
            leb128::lemma_end_at_bounds(rest);
        }
        match leb128::find_end(self.data.as_slice(), self.pos, max) {
            Some(i) => Ok(i + 1),
            None => Err(self.data.len() - self.pos > max),
        }
    }

    fn skip_failed(&mut self, max: usize, too_long: bool)
        requires
            old(self).wf(),
            max < 100,
            too_long == (old(self).bytes().len() - old(self).at() > max),
        ensures
            final(self).wf(),
            final(self).bytes() == old(self).bytes(),
            final(self).at() == (if too_long {
                old(self).at() + max + 1
            } else {
                old(self).bytes().len() as int
            }),
    {
        if too_long {
            self.pos = self.pos + max + 1;
        } else {
            self.pos = self.data.len();
        }
    }
}

/// Reads VarInts.
pub trait VarIntRead {
    /// What is read from, and how far it was read.
    spec fn source(&self) -> (Seq<u8>, int);

    /// The reader can be read from.
    spec fn ready(&self) -> bool;

    /// Reads a VarInt and moves past it. A failed read has consumed what it looked at.
    fn read_var_int(&mut self) -> (r: Result<VarInt, ReadError>)
        requires
            old(self).ready(),
        ensures
            final(self).ready(),
            final(self).source().0 == old(self).source().0,
            ({
                let (s, at) = old(self).source();
                match (r, read_len(s, at, 5)) {
                    (Ok(v), Ok(n)) => v@ == padded(s.subrange(at, at + n), 5) && final(self).source().1 == at + n,
                    (Err(e), Err(too_long)) => if too_long {
                        e == ReadError::VarIntTooLong && final(self).source().1 == at + 6
                    } else {
                        e == ReadError::UnexpectedEnd && final(self).source().1 == s.len()
                    },
                    _ => false,
                }
            }),
    ;
}

/// Reads VarLongs.
pub trait VarLongRead {
    /// What is read from, and how far it was read.
    spec fn long_source(&self) -> (Seq<u8>, int);

    /// The reader can be read from.
    spec fn long_ready(&self) -> bool;

    /// Reads a VarLong and moves past it. A failed read has consumed what it looked at.
    fn read_var_long(&mut self) -> (r: Result<VarLong, ReadError>)
        requires
            old(self).long_ready(),
        ensures
            final(self).long_ready(),
            final(self).long_source().0 == old(self).long_source().0,
            ({
                let (s, at) = old(self).long_source();
                match (r, read_len(s, at, 10)) {
                    (Ok(v), Ok(n)) => v@ == padded(s.subrange(at, at + n), 10) && final(self).long_source().1 == at + n,
                    (Err(e), Err(too_long)) => if too_long {
                        e == ReadError::VarLongTooLong && final(self).long_source().1 == at + 11
                    } else {
                        e == ReadError::UnexpectedEnd && final(self).long_source().1 == s.len()
                    },
                    _ => false,
                }
            }),
    ;
}

proof fn lemma_padded_ends(s: Seq<u8>, at: int, n: int, width: nat)
    requires
        0 <= at <= s.len(),
        read_len(s, at, width as int) == Ok::<int, bool>(n),
    ensures
        leb128::end_at(padded(s.subrange(at, at + n), width)) == n - 1,
{
    let rest = s.skip(at);
    leb128::lemma_end_at_bounds(rest);
    let p = padded(s.subrange(at, at + n), width);
    assert forall|k: int| 0 <= k < n - 1 implies p[k] >= 128 by {
        assert(p[k] == rest[k]);
    }
    assert(p[n - 1] == rest[n - 1]);
    leb128::lemma_end_at(p, n - 1);
}

impl VarIntRead for Cursor {
    open spec fn source(&self) -> (Seq<u8>, int) {
        (self.bytes(), self.at())
    }

    open spec fn ready(&self) -> bool {
        self.wf()
    }

    fn read_var_int(&mut self) -> (r: Result<VarInt, ReadError>) {
        match self.scan(5) {
            Err(too_long) => {
                self.skip_failed(5, too_long);
                if too_long {
                    Err(ReadError::VarIntTooLong)
                } else {
                    Err(ReadError::UnexpectedEnd)
                }
            },
            Ok(n) => {
                let ghost s = self.bytes();
                let ghost at = self.at();
                let mut inner: [u8; 5] = [0, 0, 0, 0, 0];
                let mut i: usize = 0;
                while i < n
                    invariant
                        i <= n <= 5,
                        self.bytes() == s,
                        self.at() == at,
                        self.wf(),
                        at + n <= s.len(),
                        inner@.len() == 5,
                        forall|k: int| 0 <= k < i ==> inner@[k] == s[at + k],
                        forall|k: int| i <= k < 5 ==> inner@[k] == 0,
                    decreases n - i,
                {
                    inner[i] = self.data[self.pos + i];
                    i = i + 1;
                }
                proof {
                    assert(inner@ == padded(s.subrange(at, at + n), 5));
                    lemma_padded_ends(s, at, n as int, 5);
                }
                self.pos = self.pos + n;
                Ok(VarInt { inner })
            },
        }
    }
}

impl VarLongRead for Cursor {
    open spec fn long_source(&self) -> (Seq<u8>, int) {
        (self.bytes(), self.at())
    }

    open spec fn long_ready(&self) -> bool {
        self.wf()
    }

    fn read_var_long(&mut self) -> (r: Result<VarLong, ReadError>) {
        match self.scan(10) {
            Err(too_long) => {
                self.skip_failed(10, too_long);
                if too_long {
                    Err(ReadError::VarLongTooLong)
                } else {
                    Err(ReadError::UnexpectedEnd)
                }
            },
            Ok(n) => {
                let ghost s = self.bytes();
                let ghost at = self.at();
                let mut inner: [u8; 10] = [0, 0, 0, 0, 0, 0, 0, 0, 0, 0];
                let mut i: usize = 0;
                while i < n
                    invariant
                        i <= n <= 10,
                        self.bytes() == s,
                        self.at() == at,
                        self.wf(),
                        at + n <= s.len(),
                        inner@.len() == 10,
                        forall|k: int| 0 <= k < i ==> inner@[k] == s[at + k],
                        forall|k: int| i <= k < 10 ==> inner@[k] == 0,
                    decreases n - i,
                {
                    inner[i] = self.data[self.pos + i];
                    i = i + 1;
                }
                proof {
                    assert(inner@ == padded(s.subrange(at, at + n), 10));
                    lemma_padded_ends(s, at, n as int, 10);
                }
                self.pos = self.pos + n;
                Ok(VarLong { inner })
            },
        }
    }
}

// ==================== Writing ====================

/// Writes VarInts.
pub trait VarIntWrite {
    /// What was written so far.
    spec fn sink(&self) -> Seq<u8>;

    /// Appends the bytes of a VarInt up to the one that ends it.
    fn write_var_int(&mut self, n: VarInt)
        ensures
            final(self).sink() == old(self).sink() + used(n@),
    ;
}

/// Writes VarLongs.
pub trait VarLongWrite {
    /// What was written so far.
    spec fn long_sink(&self) -> Seq<u8>;

    /// Appends the bytes of a VarLong up to the one that ends it.
    fn write_var_long(&mut self, n: VarLong)
        ensures
            final(self).long_sink() == old(self).long_sink() + used(n@),
    ;
}

fn push_used(buf: &mut Vec<u8>, inner: &[u8])
    requires
        leb128::end_at(inner@) < inner@.len(),
    ensures
        final(buf)@ == old(buf)@ + used(inner@),
{
    let ghost end = leb128::end_at(inner@);
    proof {
        leb128::lemma_end_at_bounds(inner@);
    }
    let mut i: usize = 0;
    assert(old(buf)@ + inner@.take(0) == old(buf)@);
    while inner[i] >= 128
        invariant
            i <= end < inner@.len(),
            forall|k: int| 0 <= k < end ==> inner@[k] >= 128,
            inner@[end] < 128,
            buf@ == old(buf)@ + inner@.take(i as int),
        decreases end - i,
    {
        buf.push(inner[i]);
        i = i + 1;
        assert(inner@.take(i as int) == inner@.take(i - 1).push(inner@[i - 1]));
        assert(buf@ == old(buf)@ + inner@.take(i as int));
    }
    buf.push(inner[i]);
    assert(used(inner@) == inner@.take(i as int).push(inner@[i as int]));
    assert(buf@ == old(buf)@ + used(inner@));
}

impl VarIntWrite for Vec<u8> {
    open spec fn sink(&self) -> Seq<u8> {
        self@
    }

    fn write_var_int(&mut self, n: VarInt) {
        proof {
            use_type_invariant(&n);
        }
        push_used(self, n.inner.as_slice());
    }
}

impl VarLongWrite for Vec<u8> {
    open spec fn long_sink(&self) -> Seq<u8> {
        self@
    }

    fn write_var_long(&mut self, n: VarLong) {
        proof {
            use_type_invariant(&n);
        }
        push_used(self, n.inner.as_slice());
    }
}

// ==================== Laws ====================

/// A 32-bit number made a VarInt, written, and read back, whatever follows it, is the same VarInt.
pub proof fn law_var_int_round_trip(n: i32, before: Seq<u8>, after: Seq<u8>)
    ensures
        ({
            let w = used(var_int_bytes(n));
            let s = before + w + after;
            &&& w == leb128::leb(bytes::i32_bits(n) as nat)
            &&& 1 <= w.len() <= 5
            &&& read_len(s, before.len() as int, 5) == Ok::<int, bool>(w.len() as int)
            &&& padded(s.subrange(before.len() as int, (before.len() + w.len()) as int), 5)
                == var_int_bytes(n)
        }),
{
    let bits = bytes::i32_bits(n) as nat;
    leb128::lemma_powers();
    leb128::lemma_leb_len(bits, 5);
    lemma_padded_end(bits, 5);
    leb128::lemma_leb_round_trip(bits, after);
    let w = leb128::leb(bits);
    let s = before + w + after;
    assert(s.skip(before.len() as int) == w + after);
    assert(s.subrange(before.len() as int, (before.len() + w.len()) as int) == w);
}

/// The number of a VarInt that was read is the one that its bytes spell.
pub proof fn lemma_read_number(v: VarInt, s: Seq<u8>, at: int, n: int)
    requires
        0 <= at <= s.len(),
        read_len(s, at, 5) == Ok::<int, bool>(n),
        v@ == padded(s.subrange(at, at + n), 5),
    ensures
        1 <= n <= 5,
        at + n <= s.len(),
        v.number() == bytes::i32_of_bits(
            (leb128::value_of(s.subrange(at, at + n)) % 0x1_0000_0000) as u32,
        ),
{
    lemma_padded_ends(s, at, n, 5);
    leb128::lemma_end_at_bounds(s.skip(at));
    assert(used(v@) == s.subrange(at, at + n));
}

/// A 64-bit number made a VarLong, written, and read back, whatever follows it, is the same
/// VarLong.
pub proof fn law_var_long_round_trip(n: i64, before: Seq<u8>, after: Seq<u8>)
    ensures
        ({
            let w = used(var_long_bytes(n));
            let s = before + w + after;
            &&& w == leb128::leb(bytes::i64_bits(n) as nat)
            &&& 1 <= w.len() <= 10
            &&& read_len(s, before.len() as int, 10) == Ok::<int, bool>(w.len() as int)
            &&& padded(s.subrange(before.len() as int, (before.len() + w.len()) as int), 10)
                == var_long_bytes(n)
        }),
{
    let bits = bytes::i64_bits(n) as nat;
    leb128::lemma_powers();
    leb128::lemma_leb_len(bits, 10);
    lemma_padded_end(bits, 10);
    leb128::lemma_leb_round_trip(bits, after);
    let w = leb128::leb(bits);
    let s = before + w + after;
    assert(s.skip(before.len() as int) == w + after);
    assert(s.subrange(before.len() as int, (before.len() + w.len()) as int) == w);
}

/// A VarInt or VarLong of at most `max` bytes that was read is written as the very bytes that it
/// was read from.
pub proof fn law_read_then_written(s: Seq<u8>, at: int, max: nat)
    requires
        0 <= at <= s.len(),
    ensures
        read_len(s, at, max as int) matches Ok(n) ==> used(padded(s.subrange(at, at + n), max))
            == s.subrange(at, at + n),
{
    if let Ok(n) = read_len(s, at, max as int) {
        leb128::lemma_end_at_bounds(s.skip(at));
        lemma_padded_ends(s, at, n, max);
        assert(used(padded(s.subrange(at, at + n), max)) =~= s.subrange(at, at + n));
    }
}

/// When a number of at most `max` bytes stands at an offset: one of that many bytes ends it. If none
/// does, it is too long where there are more bytes, and cut off where there are not.
pub proof fn law_number_is_understood(s: Seq<u8>, at: int, max: nat, n: int)
    requires
        0 <= at <= s.len(),
        0 <= n <= max,
        at + n <= s.len(),
        forall|k: int| at <= k < at + n ==> #[trigger] s[k] >= 128,
    ensures
        n < max && at + n < s.len() && s[at + n] < 128 ==> read_len(s, at, max as int) == Ok::<
            int,
            bool,
        >(n + 1),
        n == max && at + n < s.len() ==> read_len(s, at, max as int) == Err::<int, bool>(true),
        at + n == s.len() ==> read_len(s, at, max as int) == Err::<int, bool>(false),
{
    let rest = s.skip(at);
    assert forall|k: int| 0 <= k < n implies rest[k] >= 128 by {
        assert(rest[k] == s[at + k]);
    }
    leb128::lemma_end_at_bounds(rest);
    if leb128::end_at(rest) < n {
        assert(rest[leb128::end_at(rest)] < 128);
    }
    if at + n < s.len() && s[at + n] < 128 {
        assert(rest[n] == s[at + n]);
        leb128::lemma_end_at(rest, n);
    }
}

/// The bytes of a number are its groups, filled up with zeros.
pub proof fn law_padded(n: i32, m: i64, i: int)
    ensures
        var_int_bytes(n).len() == 5,
        var_long_bytes(m).len() == 10,
        ({
            let groups = leb128::leb(bytes::i32_bits(n) as nat);
            &&& 0 <= i < groups.len() && i < 5 ==> var_int_bytes(n)[i] == groups[i]
            &&& groups.len() <= i < 5 ==> var_int_bytes(n)[i] == 0
        }),
        ({
            let groups = leb128::leb(bytes::i64_bits(m) as nat);
            &&& 0 <= i < groups.len() && i < 10 ==> var_long_bytes(m)[i] == groups[i]
            &&& groups.len() <= i < 10 ==> var_long_bytes(m)[i] == 0
        }),
{
}

/// The errors are told apart by their texts.
pub proof fn law_error_texts_differ(a: ReadError, b: ReadError)
    requires
        error_text(a) == error_text(b),
    ensures
        a == b,
{
    reveal_strlit("failed to fill whole buffer");
    reveal_strlit("varint too long (length > 5)");
    reveal_strlit("varlong too long (length > 10)");
    assert("failed to fill whole buffer"@.len() == 27);
    assert("varint too long (length > 5)"@.len() == 28);
    assert("varlong too long (length > 10)"@.len() == 30);
}

} // verus!
