//! Numbers as text, and messages assembled from literals and numbers.
use vstd::prelude::*;
use vstd::std_specs::iter::IteratorSpec;

use crate::error::PingError;

verus! {

/// `String::push`: appends one character.
pub assume_specification[ String::push ](s: &mut String, c: char)
    ensures
        final(s)@ == old(s)@.push(c),
;

/// The lower-case digit for `d` in base sixteen or below.
pub open spec fn digit_char(d: nat) -> char {
    if d < 10 {
        (48 + d) as char
    } else {
        (87 + d) as char
    }
}

/// The upper-case digit for `d` in base sixteen or below.
pub open spec fn upper_digit_char(d: nat) -> char {
    if d < 10 {
        (48 + d) as char
    } else {
        (55 + d) as char
    }
}

/// `n` in decimal, without leading zeros.
pub open spec fn decimal(n: nat) -> Seq<char>
    decreases n,
{
    if n < 10 {
        seq![digit_char(n)]
    } else {
        decimal(n / 10).push(digit_char(n % 10))
    }
}

/// `n` in decimal with a leading `-` when negative.
pub open spec fn signed_decimal(n: int) -> Seq<char> {
    if n < 0 {
        seq!['-'] + decimal((-n) as nat)
    } else {
        decimal(n as nat)
    }
}

/// `n` in lower-case hexadecimal, without leading zeros.
pub open spec fn hex(n: nat) -> Seq<char>
    decreases n,
{
    if n < 16 {
        seq![digit_char(n)]
    } else {
        hex(n / 16).push(digit_char(n % 16))
    }
}

/// The low `width` hexadecimal digits of `n`, lower-case, with leading zeros.
pub open spec fn hex_fixed(n: nat, width: nat) -> Seq<char>
    decreases width,
{
    if width == 0 {
        seq![]
    } else {
        hex_fixed(n / 16, (width - 1) as nat).push(digit_char(n % 16))
    }
}

/// A number in a fixed width has that many digits.
pub proof fn lemma_hex_fixed_len(n: nat, width: nat)
    ensures
        hex_fixed(n, width).len() == width,
    decreases width,
{
    if width > 0 {
        lemma_hex_fixed_len(n / 16, (width - 1) as nat);
    }
}

/// A byte as two upper-case hexadecimal digits.
pub open spec fn upper_hex_byte(b: u8) -> Seq<char> {
    seq![upper_digit_char((b / 16) as nat), upper_digit_char((b % 16) as nat)]
}

/// A byte list as `[xx, xx]`, each byte two lower-case hexadecimal digits.
pub open spec fn hex_list(s: Seq<u8>) -> Seq<char> {
    seq!['['] + hex_list_items(s) + seq![']']
}

/// The items of [`hex_list`], separated by a comma and a space.
pub open spec fn hex_list_items(s: Seq<u8>) -> Seq<char>
    decreases s.len(),
{
    if s.len() == 0 {
        seq![]
    } else if s.len() == 1 {
        hex_fixed(s[0] as nat, 2)
    } else {
        hex_list_items(s.drop_last()) + seq![',', ' '] + hex_fixed(s.last() as nat, 2)
    }
}

fn digit(d: u8) -> (c: char)
    requires
        d < 16,
    ensures
        c == digit_char(d as nat),
{
    if d < 10 {
        (48 + d) as char
    } else {
        (87 + d) as char
    }
}

fn upper_digit(d: u8) -> (c: char)
    requires
        d < 16,
    ensures
        c == upper_digit_char(d as nat),
{
    if d < 10 {
        (48 + d) as char
    } else {
        (55 + d) as char
    }
}

/// Appends `n` in decimal.
pub fn push_decimal(s: &mut String, n: u128)
    ensures
        final(s)@ == old(s)@ + decimal(n as nat),
    decreases n,
{
    if n >= 10 {
        push_decimal(s, n / 10);
    }
    s.push(digit((n % 10) as u8));
}

/// Appends `n` in lower-case hexadecimal.
pub fn push_hex(s: &mut String, n: u128)
    ensures
        final(s)@ == old(s)@ + hex(n as nat),
    decreases n,
{
    if n >= 16 {
        push_hex(s, n / 16);
    }
    s.push(digit((n % 16) as u8));
}

/// Appends the low `width` hexadecimal digits of `n`.
pub fn push_hex_fixed(s: &mut String, n: u128, width: u8)
    ensures
        final(s)@ == old(s)@ + hex_fixed(n as nat, width as nat),
    decreases width,
{
    if width > 0 {
        push_hex_fixed(s, n / 16, width - 1);
        s.push(digit((n % 16) as u8));
    }
}

/// A message under construction.
pub struct Message {
    text: String,
}

impl View for Message {
    type V = Seq<char>;

    closed spec fn view(&self) -> Seq<char> {
        self.text@
    }
}

impl Message {
    /// Starts a message with a literal.
    pub fn new(s: &str) -> (r: Message)
        ensures
            r@ == s@,
    {
        Message { text: s.to_owned() }
    }

    /// Appends text.
    pub fn text(self, s: &str) -> (r: Message)
        ensures
            r@ == self@ + s@,
    {
        let mut t = self.text;
        t.append(s);
        Message { text: t }
    }

    /// Appends a number in decimal.
    pub fn number(self, n: u128) -> (r: Message)
        ensures
            r@ == self@ + decimal(n as nat),
    {
        let mut t = self.text;
        push_decimal(&mut t, n);
        Message { text: t }
    }

    /// Appends a signed number in decimal.
    pub fn signed(self, n: i64) -> (r: Message)
        ensures
            r@ == self@ + signed_decimal(n as int),
    {
        let mut t = self.text;
        if n < 0 {
            t.push('-');
            push_decimal(&mut t, (-(n as i128)) as u128);
        } else {
            push_decimal(&mut t, n as u128);
        }
        Message { text: t }
    }

    /// Appends a number in lower-case hexadecimal.
    pub fn hex(self, n: u128) -> (r: Message)
        ensures
            r@ == self@ + hex(n as nat),
    {
        let mut t = self.text;
        push_hex(&mut t, n);
        Message { text: t }
    }

    /// Appends a byte as two upper-case hexadecimal digits.
    pub fn upper_hex_byte(self, b: u8) -> (r: Message)
        ensures
            r@ == self@ + upper_hex_byte(b),
    {
        let mut t = self.text;
        t.push(upper_digit(b / 16));
        t.push(upper_digit(b % 16));
        Message { text: t }
    }

    /// Appends a byte list in the form of [`hex_list`].
    pub fn hex_list(self, data: &[u8]) -> (r: Message)
        ensures
            r@ == self@ + hex_list(data@),
    {
        let mut t = self.text;
        t.push('[');
        let mut i: usize = 0;
        while i < data.len()
            invariant
                i <= data@.len(),
                t@ == self@ + seq!['['] + hex_list_items(data@.take(i as int)),
            decreases data@.len() - i,
        {
            proof {
                let next = data@.take(i as int + 1);
                assert(next.drop_last() == data@.take(i as int));
                assert(next.last() == data@[i as int]);
            }
            if i > 0 {
                t.push(',');
                t.push(' ');
            }
            push_hex_fixed(&mut t, data[i] as u128, 2);
            i = i + 1;
        }
        assert(data@.take(i as int) == data@);
        t.push(']');
        Message { text: t }
    }

    /// The finished text.
    pub fn done(self) -> (r: String)
        ensures
            r@ == self@,
    {
        self.text
    }

    /// The finished text as a protocol error.
    pub fn protocol(self) -> (r: PingError)
        ensures
            r.says(self@),
    {
        PingError::Protocol(self.text)
    }
}

/// A protocol error with a literal message.
pub fn protocol_error(s: &str) -> (r: PingError)
    ensures
        r.says(s@),
{
    PingError::Protocol(s.to_owned())
}

// ==================== Text as characters ====================

/// The characters of a text.
pub fn chars_of(s: &str) -> (r: Vec<char>)
    ensures
        r@ == s@,
{
    let mut out: Vec<char> = Vec::new();
    let ghost all = s@;
    for c in it: s.chars()
        invariant
            it.seq() == all,
            out@ == all.take(it.index()),
    {
        out.push(c);
        assert(out@ == all.take(it.index() + 1));
    }
    assert(all.take(all.len() as int) == all);
    out
}

/// The text of the characters from `from` up to `to`.
pub fn text_of(chars: &[char], from: usize, to: usize) -> (r: String)
    requires
        from <= to <= chars@.len(),
    ensures
        r@ == chars@.subrange(from as int, to as int),
{
    let mut out = String::new();
    let mut i: usize = from;
    while i < to
        invariant
            from <= i <= to <= chars@.len(),
            out@ == chars@.subrange(from as int, i as int),
        decreases to - i,
    {
        out.push(chars[i]);
        i = i + 1;
        assert(out@ == chars@.subrange(from as int, i as int));
    }
    out
}

/// A copy of a text.
pub fn copy_text(s: &str) -> (r: String)
    ensures
        r@ == s@,
{
    s.to_owned()
}

/// Where `c` first occurs in `s`; the length of `s` where it does not.
pub open spec fn first_at(s: Seq<char>, c: char) -> int
    decreases s.len(),
{
    if s.len() == 0 || s[0] == c {
        0
    } else {
        1 + first_at(s.drop_first(), c)
    }
}

/// The first occurrence is where no earlier character matches.
pub proof fn lemma_first_at(s: Seq<char>, c: char, i: int)
    requires
        0 <= i <= s.len(),
        forall|k: int| 0 <= k < i ==> s[k] != c,
        i < s.len() ==> s[i] == c,
    ensures
        first_at(s, c) == i,
    decreases s.len(),
{
    if s.len() > 0 && i > 0 {
        assert(s[0] != c);
        let rest = s.drop_first();
        assert forall|k: int| 0 <= k < i - 1 implies rest[k] != c by {
            assert(rest[k] == s[k + 1]);
        }
        lemma_first_at(rest, c, i - 1);
    }
}

/// No character before the first occurrence matches, and the one there does.
pub proof fn lemma_first_at_bounds(s: Seq<char>, c: char)
    ensures
        0 <= first_at(s, c) <= s.len(),
        forall|k: int| 0 <= k < first_at(s, c) ==> s[k] != c,
        first_at(s, c) < s.len() ==> s[first_at(s, c)] == c,
    decreases s.len(),
{
    if s.len() > 0 && s[0] != c {
        let rest = s.drop_first();
        lemma_first_at_bounds(rest, c);
        assert forall|k: int| 0 <= k < first_at(s, c) implies s[k] != c by {
            if k > 0 {
                assert(rest[k - 1] == s[k]);
            }
        }
    }
}

/// Finds the first occurrence of `c` at or after `from`.
pub fn find_char(chars: &[char], from: usize, c: char) -> (r: usize)
    requires
        from <= chars@.len(),
    ensures
        from <= r <= chars@.len(),
        r == from + first_at(chars@.skip(from as int), c),
{
    let mut i: usize = from;
    while i < chars.len() && chars[i] != c
        invariant
            from <= i <= chars@.len(),
            forall|k: int| from <= k < i ==> chars@[k] != c,
        decreases chars@.len() - i,
    {
        i = i + 1;
    }
    proof {
        lemma_first_at(chars@.skip(from as int), c, i - from);
    }
    i
}

// ==================== Numbers out of text ====================

/// A decimal digit.
pub open spec fn is_digit(c: char) -> bool {
    '0' <= c && c <= '9'
}

/// One or more decimal digits.
pub open spec fn all_digits(s: Seq<char>) -> bool {
    s.len() > 0 && forall|i: int| 0 <= i < s.len() ==> is_digit(#[trigger] s[i])
}

/// The number that decimal digits stand for.
pub open spec fn digits_value(s: Seq<char>) -> nat
    decreases s.len(),
{
    if s.len() == 0 {
        0
    } else {
        digits_value(s.drop_last()) * 10 + (s.last() as nat - 48) as nat
    }
}

/// The digits of a number text: all of it, or what follows a leading `+`.
pub open spec fn unsigned_digits(s: Seq<char>) -> Seq<char> {
    if s.len() > 0 && s[0] == '+' {
        s.skip(1)
    } else {
        s
    }
}

/// The number that a text stands for, if it is one of at most `max`: one or more decimal digits,
/// with or without a leading `+`.
pub open spec fn number_of(s: Seq<char>, max: nat) -> Option<nat> {
    let d = unsigned_digits(s);
    if all_digits(d) && digits_value(d) <= max {
        Some(digits_value(d))
    } else {
        None
    }
}

proof fn lemma_digits_value_grows(s: Seq<char>, n: int)
    requires
        all_digits(s),
        0 <= n <= s.len(),
    ensures
        digits_value(s.take(n)) <= digits_value(s),
    decreases s.len() - n,
{
    if n == s.len() {
        assert(s.take(n) == s);
    } else {
        lemma_digits_value_grows(s, n + 1);
        assert(s.take(n + 1).drop_last() == s.take(n));
        assert(is_digit(s[n]));
    }
}

/// Reads a number of at most `max`; `max` is below 2^64.
pub fn parse_number(s: &str, max: u64) -> (r: Option<u64>)
    ensures
        match (r, number_of(s@, max as nat)) {
            (Some(v), Some(n)) => v == n,
            (None, None) => true,
            _ => false,
        },
{
    let chars = chars_of(s);
    let start: usize = if chars.len() > 0 && chars[0] == '+' {
        1
    } else {
        0
    };
    let ghost d = unsigned_digits(s@);
    assert(d == chars@.skip(start as int));
    if start == chars.len() {
        return None;
    }
    let mut value: u64 = 0;
    let mut i: usize = start;
    assert(d.take(0) == Seq::<char>::empty());
    while i < chars.len()
        invariant
            start <= i <= chars@.len(),
            start < chars@.len(),
            chars@ == s@,
            d == unsigned_digits(s@),
            d == chars@.skip(start as int),
            forall|k: int| 0 <= k < i - start ==> is_digit(#[trigger] d[k]),
            value == digits_value(d.take(i - start)),
            value <= max,
        decreases chars@.len() - i,
    {
        let c: char = chars[i];
        assert(c == d[i - start]);
        if c < '0' || c > '9' {
            return None;
        }
        let next: u128 = value as u128 * 10 + (c as u128 - 48);
        proof {
            assert(d.take(i - start + 1).drop_last() == d.take(i - start));
            assert(next == digits_value(d.take(i - start + 1)));
        }
        if next > max as u128 {
            proof {
                if all_digits(d) {
                    lemma_digits_value_grows(d, i - start + 1);
                }
            }
            return None;
        }
        value = next as u64;
        i = i + 1;
    }
    assert(d.take(i - start) == d);
    Some(value)
}

/// Reads a 16-bit number.
pub fn parse_u16(s: &str) -> (r: Option<u16>)
    ensures
        match (r, number_of(s@, u16::MAX as nat)) {
            (Some(v), Some(n)) => v == n,
            (None, None) => true,
            _ => false,
        },
{
    match parse_number(s, 65535) {
        Some(v) => Some(v as u16),
        None => None,
    }
}

/// Reads a 32-bit number.
pub fn parse_u32(s: &str) -> (r: Option<u32>)
    ensures
        match (r, number_of(s@, u32::MAX as nat)) {
            (Some(v), Some(n)) => v == n,
            (None, None) => true,
            _ => false,
        },
{
    match parse_number(s, 0xffff_ffff) {
        Some(v) => Some(v as u32),
        None => None,
    }
}

/// Every number survives being written in decimal and read back.
pub proof fn law_decimal_round_trip(n: nat)
    ensures
        all_digits(decimal(n)),
        digits_value(decimal(n)) == n,
        forall|max: nat| n <= max ==> #[trigger] number_of(decimal(n), max) == Some(n),
    decreases n,
{
    let s = decimal(n);
    if n >= 10 {
        law_decimal_round_trip(n / 10);
        assert(s.drop_last() == decimal(n / 10));
        assert forall|i: int| 0 <= i < s.len() implies is_digit(#[trigger] s[i]) by {
            if i < s.len() - 1 {
                assert(s[i] == decimal(n / 10)[i]);
            }
        }
    } else {
        assert(s.drop_last() == Seq::<char>::empty());
        reveal_with_fuel(digits_value, 2);
    }
    assert(is_digit(s[0]));
    assert(unsigned_digits(s) == s);
}

// ==================== Fields ====================

/// What a list of texts holds.
pub open spec fn texts(list: Seq<String>) -> Seq<Seq<char>> {
    list.map_values(|s: String| s@)
}

/// A copy of a list of texts.
pub fn copy_texts(list: &Vec<String>) -> (r: Vec<String>)
    ensures
        texts(r@) == texts(list@),
{
    let mut out: Vec<String> = Vec::new();
    let mut i: usize = 0;
    while i < list.len()
        invariant
            i <= list@.len(),
            texts(out@) == texts(list@).take(i as int),
        decreases list@.len() - i,
    {
        let ghost before = texts(out@);
        out.push(copy_text(list[i].as_str()));
        i = i + 1;
        assert(texts(out@) == before.push(texts(list@)[i - 1]));
        assert(texts(out@) == texts(list@).take(i as int));
    }
    assert(texts(list@).take(i as int) == texts(list@));
    out
}

/// The parts of `s` between the separators; one more than there are separators.
pub open spec fn split_at_each(s: Seq<char>, sep: char) -> Seq<Seq<char>>
    decreases s.len(),
{
    if s.len() == 0 {
        seq![Seq::empty()]
    } else {
        let before = split_at_each(s.drop_last(), sep);
        if s.last() == sep {
            before.push(Seq::empty())
        } else {
            before.drop_last().push(before.last().push(s.last()))
        }
    }
}

/// The parts of `s` that a separator ends, and the rest where it is not empty.
pub open spec fn terminated_parts(s: Seq<char>, sep: char) -> Seq<Seq<char>> {
    let parts = split_at_each(s, sep);
    if parts.last().len() == 0 {
        parts.drop_last()
    } else {
        parts
    }
}

/// There is always at least one part.
pub proof fn lemma_split_nonempty(s: Seq<char>, sep: char)
    ensures
        split_at_each(s, sep).len() > 0,
    decreases s.len(),
{
    if s.len() > 0 {
        lemma_split_nonempty(s.drop_last(), sep);
    }
}

/// Splits a text at each separator, and leaves out an empty last part.
pub fn split_terminated(s: &str, sep: char) -> (r: Vec<String>)
    ensures
        texts(r@) == terminated_parts(s@, sep),
{
    let chars = chars_of(s);
    let mut done: Vec<String> = Vec::new();
    let mut part = String::new();
    let mut i: usize = 0;
    proof {
        assert(chars@.take(0) == Seq::<char>::empty());
        assert(texts(done@).push(part@) == seq![Seq::<char>::empty()]);
    }
    while i < chars.len()
        invariant
            i <= chars@.len(),
            split_at_each(chars@.take(i as int), sep) == texts(done@).push(part@),
        decreases chars@.len() - i,
    {
        let c: char = chars[i];
        let ghost before = texts(done@);
        let ghost open_part = part@;
        proof {
            assert(chars@.take(i as int + 1).drop_last() == chars@.take(i as int));
            assert(before.push(open_part).drop_last() == before);
        }
        if c == sep {
            done.push(part);
            part = String::new();
            assert(texts(done@) == before.push(open_part));
            assert(part@ == Seq::<char>::empty());
        } else {
            part.push(c);
        }
        i = i + 1;
    }
    assert(chars@.take(i as int) == chars@);
    assert(texts(done@).push(part@).drop_last() == texts(done@));
    let ghost before = texts(done@);
    let ghost last = part@;
    if part_is_empty(&part) {
        done
    } else {
        done.push(part);
        assert(texts(done@) == before.push(last));
        done
    }
}

fn part_is_empty(s: &String) -> (r: bool)
    ensures
        r == (s@.len() == 0),
{
    let chars = chars_of(s.as_str());
    chars.len() == 0
}

/// Whether two texts are the same.
pub fn same_text(a: &str, b: &str) -> (r: bool)
    ensures
        r == (a@ == b@),
{
    broadcast use vstd::utf8::encode_utf8_decode_utf8;

    let r: bool = crate::bytes::same_bytes(a.as_bytes(), b.as_bytes());
    assert(vstd::utf8::decode_utf8(vstd::utf8::encode_utf8(a@)) == a@);
    assert(vstd::utf8::decode_utf8(vstd::utf8::encode_utf8(b@)) == b@);
    r
}

// ==================== Bytes as text ====================

/// The text with which `std::str::from_utf8` reports bytes that are not UTF-8.
pub uninterp spec fn utf8_error(data: Seq<u8>) -> Seq<char>;

/// `std::str::from_utf8`: the text that UTF-8 bytes encode; for other bytes the error, as text.
#[verifier::external_body]
pub(crate) fn text_from_utf8(data: &[u8]) -> (r: Result<String, String>)
    ensures
        match r {
            Ok(s) => vstd::utf8::valid_utf8(data@) && s@ == vstd::utf8::decode_utf8(data@),
            Err(m) => !vstd::utf8::valid_utf8(data@) && m@ == utf8_error(data@),
        },
{
    match std::str::from_utf8(data) {
        Ok(s) => Ok(s.to_string()),
        Err(e) => Err(e.to_string()),
    }
}

// ==================== Laws ====================

/// Decimal text has no needless zero in front.
pub proof fn law_decimal_is_shortest(n: nat)
    ensures
        decimal(n).len() > 0,
        decimal(n)[0] == '0' <==> n == 0,
        n < 10 <==> decimal(n).len() == 1,
        n < 10 ==> decimal(n)[0] as nat == 48 + n,
        signed_decimal(n as int) == decimal(n),
        n > 0 ==> signed_decimal(-n) == seq!['-'] + decimal(n),
    decreases n,
{
    if n >= 10 {
        law_decimal_is_shortest(n / 10);
        assert(decimal(n)[0] == decimal(n / 10)[0]);
    }
}

/// A digit more makes ten times as much and the digit, and zeros in front do not count.
pub proof fn law_digits_add_up(s: Seq<char>, c: char)
    requires
        is_digit(c),
    ensures
        digits_value(Seq::<char>::empty()) == 0,
        digits_value(s.push(c)) == 10 * digits_value(s) + (c as nat - 48),
        digits_value(seq!['0'] + s) == digits_value(s),
    decreases s.len(),
{
    assert(s.push(c).drop_last() =~= s);
    let z = seq!['0'] + s;
    if s.len() == 0 {
        assert(z.drop_last() =~= Seq::<char>::empty());
        reveal_with_fuel(digits_value, 2);
    } else {
        law_digits_add_up(s.drop_last(), c);
        assert(z.drop_last() =~= seq!['0'] + s.drop_last());
        assert(z.last() == s.last());
    }
}

/// What is a number: digits, at least one, with or without a plus sign in front, of a value that
/// is not above the limit. Nothing else is one.
pub proof fn law_what_is_a_number(s: Seq<char>, max: nat)
    ensures
        number_of(s, max) matches Some(n) ==> n <= max,
        all_digits(s) && digits_value(s) <= max ==> number_of(s, max) == Some(digits_value(s)),
        all_digits(s) && digits_value(s) <= max ==> number_of(seq!['+'] + s, max) == Some(
            digits_value(s),
        ),
        digits_value(s) > max && all_digits(s) ==> number_of(s, max) is None && number_of(
            seq!['+'] + s,
            max,
        ) is None,
        s.len() == 0 || s == seq!['+'] ==> number_of(s, max) is None,
        (exists|i: int| 0 <= i < s.len() && !is_digit(#[trigger] s[i]) && (i > 0 || s[i] != '+'))
            ==> number_of(s, max) is None,
{
    let plus = seq!['+'] + s;
    assert(plus.skip(1) =~= s);
    if all_digits(s) {
        assert(is_digit(s[0]));
        assert(unsigned_digits(s) == s);
    }
    if s == seq!['+'] {
        assert(s.skip(1).len() == 0);
    }
    if exists|i: int| 0 <= i < s.len() && !is_digit(#[trigger] s[i]) && (i > 0 || s[i] != '+') {
        let i = choose|i: int|
            0 <= i < s.len() && !is_digit(#[trigger] s[i]) && (i > 0 || s[i] != '+');
        let d = unsigned_digits(s);
        if s[0] == '+' {
            assert(d[i - 1] == s[i]);
            assert(!is_digit(d[i - 1]));
        } else {
            assert(!is_digit(d[i]));
        }
    }
}

/// The value of a hexadecimal digit in either case.
pub open spec fn hex_digit_value(c: char) -> nat {
    if '0' <= c <= '9' {
        (c as nat - 48) as nat
    } else if 'a' <= c <= 'f' {
        (c as nat - 87) as nat
    } else {
        (c as nat - 55) as nat
    }
}

/// The value of hexadecimal digits.
pub open spec fn hex_value(s: Seq<char>) -> nat
    decreases s.len(),
{
    if s.len() == 0 {
        0
    } else {
        16 * hex_value(s.drop_last()) + hex_digit_value(s.last())
    }
}

/// A lower-case hexadecimal digit.
pub open spec fn is_lower_hex(c: char) -> bool {
    '0' <= c <= '9' || 'a' <= c <= 'f'
}

/// Hexadecimal text has the value it was made from, in lower-case digits; a byte in upper case has
/// two digits.
pub proof fn law_hex_round_trip(n: nat, b: u8)
    ensures
        hex_value(hex(n)) == n,
        forall|i: int| 0 <= i < hex(n).len() ==> is_lower_hex(#[trigger] hex(n)[i]),
        hex(n).len() > 0,
        hex(n)[0] == '0' <==> n == 0,
        upper_hex_byte(b).len() == 2,
        hex_value(upper_hex_byte(b)) == b,
        forall|i: int|
            0 <= i < 2 ==> ('0' <= #[trigger] upper_hex_byte(b)[i] <= '9' || 'A'
                <= upper_hex_byte(b)[i] <= 'F'),
        hex_value(hex_fixed(b as nat, 2)) == b,
        hex_fixed(b as nat, 2).len() == 2,
        is_lower_hex(hex_fixed(b as nat, 2)[0]) && is_lower_hex(hex_fixed(b as nat, 2)[1]),
    decreases n,
{
    let u = upper_hex_byte(b);
    assert(u.drop_last() =~= seq![u[0]]);
    assert(seq![u[0]].drop_last() =~= Seq::<char>::empty());
    reveal_with_fuel(hex_value, 4);
    reveal_with_fuel(hex_fixed, 4);
    let f = hex_fixed(b as nat, 2);
    assert(f =~= seq![digit_char((b / 16 % 16) as nat), digit_char((b % 16) as nat)]);
    assert(f.drop_last() =~= seq![f[0]]);
    assert(seq![f[0]].drop_last() =~= Seq::<char>::empty());
    let s = hex(n);
    if n >= 16 {
        law_hex_round_trip(n / 16, b);
        assert(s.drop_last() =~= hex(n / 16));
        assert forall|i: int| 0 <= i < s.len() implies is_lower_hex(#[trigger] s[i]) by {
            if i < s.len() - 1 {
                assert(s[i] == hex(n / 16)[i]);
            }
        }
        assert(s[0] == hex(n / 16)[0]);
    } else {
        assert(s.drop_last() =~= Seq::<char>::empty());
    }
}

/// The digits of a number in a fixed width: each is the one for its power of sixteen.
pub proof fn law_fixed_hex_digits(n: nat, width: nat)
    ensures
        hex_fixed(n, width).len() == width,
        width > 0 ==> hex_digit_value(hex_fixed(n, width).last()) == n % 16,
        width > 0 ==> hex_fixed(n, width).drop_last() == hex_fixed(n / 16, (width - 1) as nat),
        forall|i: int| 0 <= i < width ==> is_lower_hex(#[trigger] hex_fixed(n, width)[i]),
    decreases width,
{
    lemma_hex_fixed_len(n, width);
    if width > 0 {
        law_fixed_hex_digits(n / 16, (width - 1) as nat);
        let s = hex_fixed(n, width);
        let rest = hex_fixed(n / 16, (width - 1) as nat);
        assert(s.drop_last() =~= rest);
        assert forall|i: int| 0 <= i < width implies is_lower_hex(#[trigger] s[i]) by {
            if i < width - 1 {
                assert(s[i] == rest[i]);
            }
        }
    }
}

/// The digits of a number that fits in them stand for it.
pub proof fn law_fixed_hex_value(n: nat, width: nat, k: nat)
    requires
        k <= width,
        n < vstd::arithmetic::power::pow(16, k),
    ensures
        hex_value(hex_fixed(n, width)) == n,
    decreases width,
{
    reveal(vstd::arithmetic::power::pow);
    if width > 0 {
        law_fixed_hex_digits(n, width);
        if k == 0 {
            law_fixed_hex_value(0, (width - 1) as nat, 0);
        } else {
            law_fixed_hex_value(n / 16, (width - 1) as nat, (k - 1) as nat);
        }
    }
}

/// A list of bytes as text: in brackets, each byte as two digits, four characters from one to the
/// next.
pub proof fn law_hex_list_items(s: Seq<u8>, i: int)
    requires
        0 <= i < s.len(),
    ensures
        hex_list(s).len() == 4 * s.len(),
        hex_list(s)[0] == '[',
        hex_list(s).last() == ']',
        hex_value(hex_list(s).subrange(1 + 4 * i, 3 + 4 * i)) == s[i],
        i > 0 ==> hex_list(s)[4 * i - 1] == ',' && hex_list(s)[4 * i] == ' ',
    decreases s.len(),
{
    let n = s.len();
    let items = hex_list_items(s);
    let last = hex_fixed(s.last() as nat, 2);
    law_hex_round_trip(0, s.last());
    if n == 1 {
        assert(items =~= last);
        assert(hex_list(s).subrange(1, 3) =~= last);
    } else {
        let fewer = s.drop_last();
        let before = hex_list_items(fewer);
        law_hex_list_items(fewer, if i < n - 1 { i } else { 0 });
        assert(hex_list(fewer).len() == before.len() + 2);
        if i < n - 1 {
            assert(hex_list(s).subrange(1 + 4 * i, 3 + 4 * i) =~= hex_list(fewer).subrange(
                1 + 4 * i,
                3 + 4 * i,
            ));
            if i > 0 {
                assert(hex_list(s)[4 * i - 1] == hex_list(fewer)[4 * i - 1]);
                assert(hex_list(s)[4 * i] == hex_list(fewer)[4 * i]);
            }
        } else {
            assert(hex_list(s).subrange(1 + 4 * i, 3 + 4 * i) =~= last);
        }
    }
}

/// Parts with a separator between them.
pub open spec fn joined(parts: Seq<Seq<char>>, sep: char) -> Seq<char>
    decreases parts.len(),
{
    if parts.len() == 0 {
        seq![]
    } else if parts.len() == 1 {
        parts[0]
    } else {
        joined(parts.drop_last(), sep).push(sep) + parts.last()
    }
}

/// Splitting and joining undo each other: the parts of a text hold no separator and make it up
/// again, and parts without one are found again.
pub proof fn law_split_and_join(s: Seq<char>, sep: char)
    ensures
        split_at_each(s, sep).len() > 0,
        joined(split_at_each(s, sep), sep) == s,
        forall|i: int|
            0 <= i < split_at_each(s, sep).len() ==> !(#[trigger] split_at_each(s, sep)[i]).contains(
                sep,
            ),
    decreases s.len(),
{
    let parts = split_at_each(s, sep);
    if s.len() == 0 {
        assert(parts[0] =~= s);
    } else {
        let t = s.drop_last();
        let before = split_at_each(t, sep);
        law_split_and_join(t, sep);
        if s.last() == sep {
            assert(parts.drop_last() =~= before);
            assert(joined(parts, sep) =~= s);
            assert forall|i: int| 0 <= i < parts.len() implies !(#[trigger] parts[i]).contains(
                sep,
            ) by {
                if i < before.len() {
                    assert(parts[i] == before[i]);
                }
            }
        } else {
            assert(parts.drop_last() =~= before.drop_last());
            assert(parts.last() == before.last().push(s.last()));
            assert(joined(parts, sep) =~= joined(before, sep).push(s.last()));
            assert forall|i: int| 0 <= i < parts.len() implies !(#[trigger] parts[i]).contains(
                sep,
            ) by {
                if i < before.len() - 1 {
                    assert(parts[i] == before[i]);
                } else {
                    let p = before[i];
                    assert(!p.contains(sep));
                    if parts[i].contains(sep) {
                        let k = choose|k: int| 0 <= k < parts[i].len() && parts[i][k] == sep;
                        assert(p[k] == sep);
                    }
                }
            }
        }
    }
}

/// Parts without a separator are found again in their joined text; a text that ends with a part
/// that is not empty has all of them as its fields, and so has one that a separator ends.
pub proof fn law_join_and_split(parts: Seq<Seq<char>>, sep: char)
    requires
        parts.len() > 0,
        forall|i: int| 0 <= i < parts.len() ==> !(#[trigger] parts[i]).contains(sep),
    ensures
        split_at_each(joined(parts, sep), sep) == parts,
        parts.last().len() > 0 ==> terminated_parts(joined(parts, sep), sep) == parts,
        terminated_parts(joined(parts, sep).push(sep), sep) == parts,
    decreases joined(parts, sep).len(),
{
    let s = joined(parts, sep);
    let last = parts.last();
    let front = parts.drop_last();
    if last.len() == 0 {
        if parts.len() == 1 {
            assert(s =~= Seq::<char>::empty());
            assert(parts =~= seq![Seq::<char>::empty()]);
        } else {
            assert(s =~= joined(front, sep).push(sep));
            assert(s.drop_last() =~= joined(front, sep));
            assert forall|i: int| 0 <= i < front.len() implies !(#[trigger] front[i]).contains(
                sep,
            ) by {
                assert(front[i] == parts[i]);
            }
            law_join_and_split(front, sep);
            assert(last =~= Seq::<char>::empty());
            assert(front.push(last) =~= parts);
        }
    } else {
        let c = last.last();
        let shorter = front.push(last.drop_last());
        assert(shorter.drop_last() =~= front);
        assert(s.last() == c);
        assert(s.drop_last() =~= joined(shorter, sep));
        assert(c != sep) by {
            assert(!parts[parts.len() - 1].contains(sep));
            assert(last[last.len() - 1] == c);
        }
        assert forall|i: int| 0 <= i < shorter.len() implies !(#[trigger] shorter[i]).contains(
            sep,
        ) by {
            if i < front.len() {
                assert(shorter[i] == parts[i]);
            } else {
                assert(!parts[i].contains(sep));
                if shorter[i].contains(sep) {
                    let k = choose|k: int| 0 <= k < shorter[i].len() && shorter[i][k] == sep;
                    assert(parts[i][k] == sep);
                }
            }
        }
        law_join_and_split(shorter, sep);
        assert(last.drop_last().push(c) =~= last);
        assert(front.push(last) =~= parts);
    }
    let ended = s.push(sep);
    assert(split_at_each(s, sep) == parts);
    assert(ended.drop_last() =~= s);
    assert(ended.last() == sep && ended.len() > 0);
    assert(split_at_each(ended, sep) == split_at_each(ended.drop_last(), sep).push(Seq::empty()));
    assert(parts.push(Seq::<char>::empty()).drop_last() =~= parts);
}

// ==================== Numbers in messages ====================

/// A text without digits.
pub open spec fn no_digit(s: Seq<char>) -> bool {
    forall|i: int| 0 <= i < s.len() ==> !is_digit(#[trigger] s[i])
}

/// The first number in a text, between what stands before and behind it.
pub open spec fn begins_with_number(s: Seq<char>, a: Seq<char>, n: nat, rest: Seq<char>) -> bool {
    &&& s == a + decimal(n) + rest
    &&& no_digit(a)
    &&& rest.len() == 0 || !is_digit(rest[0])
}

/// The numbers in a text, in decimal and in this order, and no others.
pub open spec fn shows(s: Seq<char>, numbers: Seq<nat>) -> bool
    decreases numbers.len(),
{
    if numbers.len() == 0 {
        no_digit(s)
    } else {
        exists|a: Seq<char>, rest: Seq<char>| #[trigger]
            begins_with_number(s, a, numbers[0], rest) && shows(rest, numbers.drop_first())
    }
}

pub proof fn lemma_shows_one(a: Seq<char>, n: nat, z: Seq<char>)
    requires
        no_digit(a),
        no_digit(z),
    ensures
        shows(a + decimal(n) + z, seq![n]),
{
    let numbers = seq![n];
    assert(numbers.drop_first() =~= Seq::<nat>::empty());
    assert(shows(z, numbers.drop_first()));
    assert(begins_with_number(a + decimal(n) + z, a, numbers[0], z));
}

pub proof fn lemma_shows_two(a: Seq<char>, n: nat, b: Seq<char>, m: nat, z: Seq<char>)
    requires
        no_digit(a),
        no_digit(b),
        b.len() > 0,
        no_digit(z),
    ensures
        shows(a + decimal(n) + b + decimal(m) + z, seq![n, m]),
{
    let numbers = seq![n, m];
    let rest = b + decimal(m) + z;
    let s = a + decimal(n) + b + decimal(m) + z;
    lemma_shows_one(b, m, z);
    assert(numbers.drop_first() =~= seq![m]);
    assert(s =~= a + decimal(n) + rest);
    assert(rest[0] == b[0]);
    assert(begins_with_number(s, a, numbers[0], rest));
}

pub proof fn lemma_shows_three(
    a: Seq<char>,
    n: nat,
    b: Seq<char>,
    m: nat,
    c: Seq<char>,
    k: nat,
    z: Seq<char>,
)
    requires
        no_digit(a),
        no_digit(b),
        b.len() > 0,
        no_digit(c),
        c.len() > 0,
        no_digit(z),
    ensures
        shows(a + decimal(n) + b + decimal(m) + c + decimal(k) + z, seq![n, m, k]),
{
    let numbers = seq![n, m, k];
    let rest = b + decimal(m) + c + decimal(k) + z;
    let s = a + decimal(n) + b + decimal(m) + c + decimal(k) + z;
    lemma_shows_two(b, m, c, k, z);
    assert(numbers.drop_first() =~= seq![m, k]);
    assert(s =~= a + decimal(n) + rest);
    assert(rest[0] == b[0]);
    assert(begins_with_number(s, a, numbers[0], rest));
}

/// A text shows no other numbers than it shows.
pub proof fn law_shown_numbers_are_determined(s: Seq<char>, a: Seq<nat>, b: Seq<nat>)
    requires
        shows(s, a),
        shows(s, b),
    ensures
        a == b,
    decreases a.len(),
{
    if a.len() == 0 {
        if b.len() > 0 {
            let (p, rest) = choose|p: Seq<char>, rest: Seq<char>| #[trigger]
                begins_with_number(s, p, b[0], rest) && shows(rest, b.drop_first());
            lemma_first_digit(s, p, b[0], rest);
            assert(is_digit(s[p.len() as int]));
        }
        assert(a =~= b);
    } else {
        let (p, x) = choose|p: Seq<char>, x: Seq<char>| #[trigger]
            begins_with_number(s, p, a[0], x) && shows(x, a.drop_first());
        lemma_first_digit(s, p, a[0], x);
        if b.len() == 0 {
            assert(is_digit(s[p.len() as int]));
        } else {
            let (q, y) = choose|q: Seq<char>, y: Seq<char>| #[trigger]
                begins_with_number(s, q, b[0], y) && shows(y, b.drop_first());
            lemma_first_digit(s, q, b[0], y);
            assert(p.len() == q.len()) by {
                if p.len() < q.len() {
                    assert(s[p.len() as int] == q[p.len() as int]);
                }
                if q.len() < p.len() {
                    assert(s[q.len() as int] == p[q.len() as int]);
                }
            }
            let n = p.len() as int;
            let da = decimal(a[0]);
            let db = decimal(b[0]);
            law_decimal_round_trip(a[0]);
            law_decimal_round_trip(b[0]);
            assert(da.len() == db.len()) by {
                if da.len() < db.len() {
                    assert(s[n + da.len()] == db[da.len() as int]);
                    assert(x.len() > 0 && s[n + da.len()] == x[0]);
                }
                if db.len() < da.len() {
                    assert(s[n + db.len()] == da[db.len() as int]);
                    assert(y.len() > 0 && s[n + db.len()] == y[0]);
                }
            }
            assert(da =~= db) by {
                assert forall|i: int| 0 <= i < da.len() implies da[i] == db[i] by {
                    assert(da[i] == s[n + i] && db[i] == s[n + i]);
                }
            }
            assert(x =~= y) by {
                assert forall|i: int| 0 <= i < x.len() implies x[i] == y[i] by {
                    assert(x[i] == s[n + da.len() + i] && y[i] == s[n + da.len() + i]);
                }
            }
            law_shown_numbers_are_determined(x, a.drop_first(), b.drop_first());
            assert(a =~= seq![a[0]] + a.drop_first());
            assert(b =~= seq![b[0]] + b.drop_first());
        }
    }
}

proof fn lemma_first_digit(s: Seq<char>, a: Seq<char>, n: nat, rest: Seq<char>)
    requires
        begins_with_number(s, a, n, rest),
    ensures
        decimal(n).len() > 0,
        a.len() + decimal(n).len() + rest.len() == s.len(),
        forall|i: int| 0 <= i < decimal(n).len() ==> is_digit(#[trigger] decimal(n)[i]),
        is_digit(s[a.len() as int]),
        forall|i: int| 0 <= i < a.len() ==> !is_digit(#[trigger] a[i]),
{
    law_decimal_round_trip(n);
    assert(s[a.len() as int] == decimal(n)[0]);
}

/// A signed number in decimal is its absolute value behind a minus sign where it is below 0, and
/// nothing in front where it is not; the text of no other number is the same.
pub proof fn law_signed_decimal(n: int, m: int)
    ensures
        n >= 0 ==> signed_decimal(n) == decimal(n as nat),
        n < 0 ==> signed_decimal(n)[0] == '-' && signed_decimal(n).skip(1) == decimal((-n) as nat),
        signed_decimal(n) == signed_decimal(m) ==> n == m,
{
    let a = decimal((-n) as nat);
    let b = decimal((-m) as nat);
    if n < 0 {
        assert((seq!['-'] + a).skip(1) =~= a);
        law_decimal_round_trip((-n) as nat);
    } else {
        law_decimal_round_trip(n as nat);
        assert(is_digit(decimal(n as nat)[0]));
    }
    if m < 0 {
        assert((seq!['-'] + b).skip(1) =~= b);
        law_decimal_round_trip((-m) as nat);
    } else {
        law_decimal_round_trip(m as nat);
        assert(is_digit(decimal(m as nat)[0]));
    }
}

} // verus!
