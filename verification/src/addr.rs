//! Server addresses: host and port out of a string, and the host that a handshake names.
//!
//! An IPv6 address with a port is written in brackets, as in `[2001:db8::1]:25565`. Without
//! brackets it cannot be told from an address alone, so it counts as having no port.
use vstd::prelude::*;

use crate::text;
use crate::text::Message;

verus! {

/// An IPv4 socket address: the four octets `a.b.c.d` and a port.
#[derive(Debug, Clone, Copy, PartialEq, Eq, Structural)]
pub struct SocketAddrV4 {
    pub a: u8,
    pub b: u8,
    pub c: u8,
    pub d: u8,
    pub port: u16,
}

impl SocketAddrV4 {
    /// The address `a.b.c.d:port`.
    pub fn new(a: u8, b: u8, c: u8, d: u8, port: u16) -> (r: SocketAddrV4)
        ensures
            r == (SocketAddrV4 { a, b, c, d, port }),
    {
        SocketAddrV4 { a, b, c, d, port }
    }
}

/// The text `a.b.c.d`.
pub open spec fn ipv4_text(a: SocketAddrV4) -> Seq<char> {
    text::decimal(a.a as nat) + "."@ + text::decimal(a.b as nat) + "."@ + text::decimal(
        a.c as nat,
    ) + "."@ + text::decimal(a.d as nat)
}

/// A resolved socket address.
#[derive(Debug, Clone, PartialEq, Eq)]
pub enum SocketAddr {
    V4(SocketAddrV4),
    /// An IPv6 address, by its text.
    V6 { ip: String, port: u16 },
}

impl SocketAddr {
    /// The port.
    pub open spec fn port_number(self) -> u16 {
        match self {
            SocketAddr::V4(a) => a.port,
            SocketAddr::V6 { port, .. } => port,
        }
    }

    /// The port.
    pub fn port(&self) -> (r: u16)
        ensures
            r == self.port_number(),
    {
        match self {
            SocketAddr::V4(a) => a.port,
            SocketAddr::V6 { port, .. } => *port,
        }
    }
}

/// The number of a port, where the text is one.
pub open spec fn port_of(s: Seq<char>) -> Option<u16> {
    match text::number_of(s, 65535) {
        Some(n) => Some(n as u16),
        None => None,
    }
}

/// The host and the port that an address string names.
pub open spec fn host_port(s: Seq<char>, default_port: u16) -> (Seq<char>, u16) {
    let bracket = text::first_at(s, ']');
    let colon = text::first_at(s, ':');
    if s.len() > 0 && s[0] == '[' && bracket < s.len() {
        let after = s.skip(bracket + 1);
        (
            s.subrange(1, bracket),
            if after.len() > 0 && after[0] == ':' && port_of(after.skip(1)) is Some {
                port_of(after.skip(1))->0
            } else {
                default_port
            },
        )
    } else if colon < s.len() && port_of(s.skip(colon + 1)) is Some {
        (s.take(colon), port_of(s.skip(colon + 1))->0)
    } else {
        (s, default_port)
    }
}

/// Parses an address string into host and port. A string without a port has `default_port`.
///
/// - `"host"` gives `("host", default_port)`
/// - `"host:port"` gives `("host", port)`
/// - `"[::1]:port"` gives `("::1", port)`
/// - `"[::1]"` gives `("::1", default_port)`
/// - `"::1"` gives `("::1", default_port)`
pub fn parse_host_port(s: &str, default_port: u16) -> (r: (String, u16))
    ensures
        (r.0@, r.1) == host_port(s@, default_port),
{
    let chars = text::chars_of(s);
    let n: usize = chars.len();
    proof {
        assert(chars@.skip(0) == chars@);
    }
    if n > 0 && chars[0] == '[' {
        let bracket: usize = text::find_char(chars.as_slice(), 0, ']');
        if bracket < n {
            let ghost after = s@.skip(bracket + 1);
            proof {
                text::lemma_first_at_bounds(s@, ']');
                assert(s@[0] == '[');
                assert(bracket > 0);
            }
            let host = text::text_of(chars.as_slice(), 1, bracket);
            if bracket + 1 < n && chars[bracket + 1] == ':' {
                let port_text = text::text_of(chars.as_slice(), bracket + 2, n);
                assert(port_text@ == after.skip(1));
                if let Some(p) = text::parse_u16(port_text.as_str()) {
                    return (host, p);
                }
            }
            return (host, default_port);
        }
    }
    let colon: usize = text::find_char(chars.as_slice(), 0, ':');
    if colon < n {
        let port_text = text::text_of(chars.as_slice(), colon + 1, n);
        assert(port_text@ == s@.skip(colon + 1));
        if let Some(p) = text::parse_u16(port_text.as_str()) {
            let host = text::text_of(chars.as_slice(), 0, colon);
            assert(host@ == s@.take(colon as int));
            return (host, p);
        }
    }
    (text::copy_text(s), default_port)
}

/// A bracket.
pub open spec fn is_bracket(c: char) -> bool {
    c == '[' || c == ']'
}

/// A text without the brackets that it starts with.
pub open spec fn trim_front(s: Seq<char>) -> Seq<char>
    decreases s.len(),
{
    if s.len() > 0 && is_bracket(s[0]) {
        trim_front(s.drop_first())
    } else {
        s
    }
}

/// A text without the brackets that it ends with.
pub open spec fn trim_back(s: Seq<char>) -> Seq<char>
    decreases s.len(),
{
    if s.len() > 0 && is_bracket(s.last()) {
        trim_back(s.drop_last())
    } else {
        s
    }
}

/// A text without the brackets at its ends.
pub fn trim_brackets(s: &str) -> (r: String)
    ensures
        r@ == trim_back(trim_front(s@)),
{
    let chars = text::chars_of(s);
    let mut from: usize = 0;
    assert(chars@.skip(0) == chars@);
    while from < chars.len() && (chars[from] == '[' || chars[from] == ']')
        invariant
            from <= chars@.len(),
            trim_front(chars@.skip(from as int)) == trim_front(chars@),
        decreases chars@.len() - from,
    {
        assert(chars@.skip(from as int).drop_first() == chars@.skip(from as int + 1));
        from = from + 1;
    }
    let ghost front = chars@.skip(from as int);
    assert(trim_front(front) == front);
    let mut to: usize = chars.len();
    assert(chars@.subrange(from as int, to as int) == front);
    while to > from && (chars[to - 1] == '[' || chars[to - 1] == ']')
        invariant
            from <= to <= chars@.len(),
            trim_back(chars@.subrange(from as int, to as int)) == trim_back(front),
        decreases to,
    {
        assert(chars@.subrange(from as int, to as int).drop_last() == chars@.subrange(
            from as int,
            to - 1,
        ));
        to = to - 1;
    }
    text::text_of(chars.as_slice(), from, to)
}

/// A server address: what to resolve, and the host that a handshake names.
pub trait HostAddr {
    /// The host that a handshake names.
    spec fn host(&self) -> Seq<char>;

    /// The host and port to resolve.
    spec fn target(&self, default_port: u16) -> (Seq<char>, u16);

    /// The string for the server address field of a handshake: the host without the port.
    fn host_string(&self) -> (r: String)
        ensures
            r@ == self.host(),
    ;

    /// The host and port to resolve; `default_port` stands in where none is given.
    fn resolve_target(&self, default_port: u16) -> (r: (String, u16))
        ensures
            (r.0@, r.1) == self.target(default_port),
    ;
}

impl HostAddr for (&str, u16) {
    open spec fn host(&self) -> Seq<char> {
        self.0@
    }

    open spec fn target(&self, default_port: u16) -> (Seq<char>, u16) {
        (self.0@, self.1)
    }

    fn host_string(&self) -> (r: String) {
        text::copy_text(self.0)
    }

    fn resolve_target(&self, default_port: u16) -> (r: (String, u16)) {
        (text::copy_text(self.0), self.1)
    }
}

impl HostAddr for (String, u16) {
    open spec fn host(&self) -> Seq<char> {
        self.0@
    }

    open spec fn target(&self, default_port: u16) -> (Seq<char>, u16) {
        (self.0@, self.1)
    }

    fn host_string(&self) -> (r: String) {
        text::copy_text(self.0.as_str())
    }

    fn resolve_target(&self, default_port: u16) -> (r: (String, u16)) {
        (text::copy_text(self.0.as_str()), self.1)
    }
}

impl HostAddr for str {
    open spec fn host(&self) -> Seq<char> {
        trim_back(trim_front(host_port(self@, 0).0))
    }

    open spec fn target(&self, default_port: u16) -> (Seq<char>, u16) {
        host_port(self@, default_port)
    }

    fn host_string(&self) -> (r: String) {
        let (host, _port) = parse_host_port(self, 0);
        trim_brackets(host.as_str())
    }

    fn resolve_target(&self, default_port: u16) -> (r: (String, u16)) {
        parse_host_port(self, default_port)
    }
}

impl HostAddr for &str {
    open spec fn host(&self) -> Seq<char> {
        (**self).host()
    }

    open spec fn target(&self, default_port: u16) -> (Seq<char>, u16) {
        (**self).target(default_port)
    }

    fn host_string(&self) -> (r: String) {
        (**self).host_string()
    }

    fn resolve_target(&self, default_port: u16) -> (r: (String, u16)) {
        (**self).resolve_target(default_port)
    }
}

impl HostAddr for String {
    open spec fn host(&self) -> Seq<char> {
        trim_back(trim_front(host_port(self@, 0).0))
    }

    open spec fn target(&self, default_port: u16) -> (Seq<char>, u16) {
        host_port(self@, default_port)
    }

    fn host_string(&self) -> (r: String) {
        self.as_str().host_string()
    }

    fn resolve_target(&self, default_port: u16) -> (r: (String, u16)) {
        self.as_str().resolve_target(default_port)
    }
}

impl HostAddr for SocketAddr {
    open spec fn host(&self) -> Seq<char> {
        match self {
            SocketAddr::V4(a) => ipv4_text(*a),
            SocketAddr::V6 { ip, .. } => ip@,
        }
    }

    open spec fn target(&self, default_port: u16) -> (Seq<char>, u16) {
        match self {
            SocketAddr::V4(a) => (ipv4_text(*a), a.port),
            SocketAddr::V6 { ip, port } => (ip@, *port),
        }
    }

    fn host_string(&self) -> (r: String) {
        match self {
            SocketAddr::V4(a) => a.ip_text(),
            SocketAddr::V6 { ip, .. } => text::copy_text(ip.as_str()),
        }
    }

    fn resolve_target(&self, default_port: u16) -> (r: (String, u16)) {
        match self {
            SocketAddr::V4(a) => (a.ip_text(), a.port),
            SocketAddr::V6 { ip, port } => (text::copy_text(ip.as_str()), *port),
        }
    }
}

impl SocketAddrV4 {
    /// The address without the port, as `a.b.c.d`.
    pub fn ip_text(&self) -> (r: String)
        ensures
            r@ == ipv4_text(*self),
    {
        let first = Message::new("").number(self.a as u128).text(".");
        proof {
            reveal_strlit("");
            assert(""@ + text::decimal(self.a as nat) == text::decimal(self.a as nat));
        }
        first.number(self.b as u128).text(".").number(self.c as u128).text(".").number(
            self.d as u128,
        ).done()
    }
}

// ==================== Laws ====================

/// A host without a colon that does not start with a bracket is the host, and the port is the
/// default one.
pub proof fn law_host_alone(host: Seq<char>, default_port: u16)
    requires
        forall|i: int| 0 <= i < host.len() ==> host[i] != ':',
        host.len() > 0 ==> host[0] != '[',
    ensures
        host_port(host, default_port) == (host, default_port),
{
    text::lemma_first_at(host, ':', host.len() as int);
}

/// A host without a colon that does not start with a bracket, a colon and a port in decimal give
/// the host and the port.
pub proof fn law_host_with_port(host: Seq<char>, port: u16, default_port: u16)
    requires
        forall|i: int| 0 <= i < host.len() ==> host[i] != ':',
        host.len() > 0 ==> host[0] != '[',
    ensures
        host_port(host + seq![':'] + text::decimal(port as nat), default_port) == (host, port),
{
    let s = host + seq![':'] + text::decimal(port as nat);
    let n = host.len() as int;
    text::law_decimal_round_trip(port as nat);
    assert(s[n] == ':');
    assert forall|k: int| 0 <= k < n implies s[k] != ':' by {
        assert(s[k] == host[k]);
    }
    text::lemma_first_at(s, ':', n);
    assert(s.skip(n + 1) == text::decimal(port as nat));
    assert(s.take(n) == host);
    assert(s[0] != '[') by {
        if n > 0 {
            assert(s[0] == host[0]);
        }
    }
    assert(text::number_of(text::decimal(port as nat), 65535) == Some(port as nat));
}

/// An address in brackets, without a closing bracket inside, is the host; a colon and a port in
/// decimal behind the brackets are its port, and without them it has the default one.
pub proof fn law_bracketed_address(ip: Seq<char>, port: u16, default_port: u16)
    requires
        forall|i: int| 0 <= i < ip.len() ==> ip[i] != ']',
    ensures
        host_port(seq!['['] + ip + seq![']'], default_port) == (ip, default_port),
        host_port(
            seq!['['] + ip + seq![']'] + seq![':'] + text::decimal(port as nat),
            default_port,
        ) == (ip, port),
{
    let n = ip.len() as int;
    let bare = seq!['['] + ip + seq![']'];
    let full = bare + seq![':'] + text::decimal(port as nat);
    assert(bare[n + 1] == ']');
    assert forall|k: int| 0 <= k < n + 1 implies bare[k] != ']' by {
        if k > 0 {
            assert(bare[k] == ip[k - 1]);
        }
    }
    text::lemma_first_at(bare, ']', n + 1);
    assert(bare.subrange(1, n + 1) == ip);
    assert forall|k: int| 0 <= k < n + 1 implies full[k] != ']' by {
        assert(full[k] == bare[k]);
    }
    assert(full[n + 1] == bare[n + 1]);
    text::lemma_first_at(full, ']', n + 1);
    assert(full.subrange(1, n + 1) == ip);
    let after = full.skip(n + 2);
    assert(after == seq![':'] + text::decimal(port as nat));
    assert(after.skip(1) == text::decimal(port as nat));
    text::law_decimal_round_trip(port as nat);
    assert(text::number_of(text::decimal(port as nat), 65535) == Some(port as nat));
    assert(full[0] == bare[0] && bare[0] == '[');
}

/// An address with two colons or more that does not start with a bracket has no port.
pub proof fn law_bare_ipv6_has_no_port(s: Seq<char>, i: int, j: int, default_port: u16)
    requires
        0 <= i < j < s.len(),
        s[i] == ':',
        s[j] == ':',
        s[0] != '[',
    ensures
        host_port(s, default_port) == (s, default_port),
{
    let colon = text::first_at(s, ':');
    text::lemma_first_at_bounds(s, ':');
    assert(colon <= i);
    let rest = s.skip(colon + 1);
    assert(rest[j - colon - 1] == ':');
    assert(!text::all_digits(text::unsigned_digits(rest))) by {
        let d = text::unsigned_digits(rest);
        if text::all_digits(d) {
            let k = if rest[0] == '+' {
                j - colon - 2
            } else {
                j - colon - 1
            };
            assert(d[k] == ':');
            assert(text::is_digit(d[k]));
        }
    }
}

/// What follows the first colon is the port if it is a number of 16 bits, however it is written;
/// otherwise all of it is the host. A leading bracket counts only where one closes it.
pub proof fn law_port_or_none(host: Seq<char>, rest: Seq<char>, default_port: u16)
    requires
        !host.contains(':'),
        host.len() == 0 || host[0] != '[' || !(host + rest).contains(']'),
    ensures
        ({
            let s = host + seq![':'] + rest;
            match text::number_of(rest, 65535) {
                Some(n) => host_port(s, default_port) == (host, n as u16),
                None => host_port(s, default_port) == (s, default_port),
            }
        }),
{
    let s = host + seq![':'] + rest;
    let n = host.len() as int;
    assert(s[n] == ':');
    assert forall|k: int| 0 <= k < n implies s[k] != ':' by {
        assert(s[k] == host[k]);
        assert(host.contains(host[k]));
    }
    text::lemma_first_at(s, ':', n);
    text::lemma_first_at_bounds(s, ']');
    let b = text::first_at(s, ']');
    if s[0] == '[' && b < s.len() {
        assert(n > 0 && host[0] == '[');
        let all = host + rest;
        assert(b != n);
        if b < n {
            assert(all[b] == ']');
        } else {
            assert(all[b - 1] == ']');
        }
        assert(all.contains(']'));
    }
    assert(s.skip(n + 1) =~= rest);
    assert(s.take(n) =~= host);
}

/// A text without a colon and without a closed bracket in front is the host as it is.
pub proof fn law_no_colon(s: Seq<char>, default_port: u16)
    requires
        !s.contains(':'),
        s.len() == 0 || s[0] != '[' || !s.contains(']'),
    ensures
        host_port(s, default_port) == (s, default_port),
{
    text::lemma_first_at_bounds(s, ':');
    text::lemma_first_at_bounds(s, ']');
    if text::first_at(s, ':') < s.len() {
        assert(s[text::first_at(s, ':')] == ':');
    }
    if text::first_at(s, ']') < s.len() {
        assert(s[text::first_at(s, ']')] == ']');
    }
}

/// Whatever follows an address in brackets, the address is the host; the port is what follows a
/// colon right behind the brackets, where that is a number of 16 bits, and else the default one.
pub proof fn law_behind_brackets(ip: Seq<char>, tail: Seq<char>, default_port: u16)
    requires
        !ip.contains(']'),
    ensures
        ({
            let (host, port) = host_port(seq!['['] + ip + seq![']'] + tail, default_port);
            &&& host == ip
            &&& tail.len() > 0 && tail[0] == ':' ==> (match text::number_of(tail.skip(1), 65535) {
                Some(n) => port == n,
                None => port == default_port,
            })
            &&& tail.len() == 0 || tail[0] != ':' ==> port == default_port
        }),
{
    let s = seq!['['] + ip + seq![']'] + tail;
    let n = ip.len() as int;
    assert(s[0] == '[');
    assert(s[n + 1] == ']');
    assert forall|k: int| 0 <= k < n + 1 implies s[k] != ']' by {
        if k > 0 {
            assert(s[k] == ip[k - 1]);
            assert(ip.contains(ip[k - 1]));
        }
    }
    text::lemma_first_at(s, ']', n + 1);
    assert(s.subrange(1, n + 1) =~= ip);
    assert(s.skip(n + 2) =~= tail);
}

/// Trimming takes brackets from both ends and nothing else, and leaves none there.
pub proof fn law_trimmed(s: Seq<char>)
    ensures
        ({
            let r = trim_back(trim_front(s));
            &&& r.len() > 0 ==> r[0] != '[' && r[0] != ']' && r.last() != '[' && r.last() != ']'
            &&& exists|a: int, b: int|
                0 <= a <= b <= s.len() && r == #[trigger] s.subrange(a, b) && (forall|k: int|
                    0 <= k < a || b <= k < s.len() ==> (#[trigger] s[k] == '[' || s[k] == ']'))
        }),
{
    let f = trim_front(s);
    let a = lemma_trim_front(s);
    let r = trim_back(f);
    let m = lemma_trim_back(f);
    let b = a + m;
    assert(r =~= s.subrange(a, b));
    assert forall|k: int| 0 <= k < a || b <= k < s.len() implies (#[trigger] s[k] == '[' || s[k]
        == ']') by {
        if k >= b {
            assert(f[k - a] == s[k]);
        }
    }
    if r.len() > 0 {
        assert(r[0] == f[0]);
        assert(r.last() == r[r.len() - 1]);
    }
}

proof fn lemma_trim_front(s: Seq<char>) -> (a: int)
    ensures
        0 <= a <= s.len(),
        trim_front(s) == s.skip(a),
        forall|k: int| 0 <= k < a ==> is_bracket(#[trigger] s[k]),
        a < s.len() ==> !is_bracket(s[a]),
    decreases s.len(),
{
    if s.len() > 0 && is_bracket(s[0]) {
        let rest = s.drop_first();
        let a = lemma_trim_front(rest);
        assert(rest.skip(a) =~= s.skip(a + 1));
        assert forall|k: int| 0 <= k < a + 1 implies is_bracket(#[trigger] s[k]) by {
            if k > 0 {
                assert(rest[k - 1] == s[k]);
            }
        }
        if a < rest.len() {
            assert(rest[a] == s[a + 1]);
        }
        a + 1
    } else {
        assert(s.skip(0) =~= s);
        0
    }
}

proof fn lemma_trim_back(s: Seq<char>) -> (b: int)
    ensures
        0 <= b <= s.len(),
        trim_back(s) == s.take(b),
        forall|k: int| b <= k < s.len() ==> is_bracket(#[trigger] s[k]),
        b > 0 ==> !is_bracket(s[b - 1]),
    decreases s.len(),
{
    if s.len() > 0 && is_bracket(s.last()) {
        let rest = s.drop_last();
        let b = lemma_trim_back(rest);
        assert(rest.take(b) =~= s.take(b));
        assert forall|k: int| b <= k < s.len() implies is_bracket(#[trigger] s[k]) by {
            if k < rest.len() {
                assert(rest[k] == s[k]);
            }
        }
        b
    } else {
        assert(s.take(s.len() as int) =~= s);
        s.len() as int
    }
}

/// The text of an IPv4 address is its four octets in decimal between dots.
pub proof fn law_ipv4_text_parts(a: SocketAddrV4)
    ensures
        text::split_at_each(ipv4_text(a), '.') == seq![
            text::decimal(a.a as nat),
            text::decimal(a.b as nat),
            text::decimal(a.c as nat),
            text::decimal(a.d as nat),
        ],
{
    let parts = seq![
        text::decimal(a.a as nat),
        text::decimal(a.b as nat),
        text::decimal(a.c as nat),
        text::decimal(a.d as nat),
    ];
    reveal_strlit(".");
    text::law_decimal_round_trip(a.a as nat);
    text::law_decimal_round_trip(a.b as nat);
    text::law_decimal_round_trip(a.c as nat);
    text::law_decimal_round_trip(a.d as nat);
    assert forall|i: int| 0 <= i < parts.len() implies !(#[trigger] parts[i]).contains('.') by {
        let p = parts[i];
        assert(text::all_digits(p));
        if p.contains('.') {
            let k = choose|k: int| 0 <= k < p.len() && p[k] == '.';
            assert(text::is_digit(p[k]));
        }
    }
    text::law_join_and_split(parts, '.');
    let p3 = parts.drop_last();
    let p2 = p3.drop_last();
    let p1 = p2.drop_last();
    reveal_with_fuel(text::joined, 5);
    assert(p3 =~= seq![parts[0], parts[1], parts[2]]);
    assert(p2 =~= seq![parts[0], parts[1]]);
    assert(p1 =~= seq![parts[0]]);
    assert(text::joined(p2, '.') =~= parts[0] + seq!['.'] + parts[1]);
    assert(text::joined(p3, '.') =~= parts[0] + seq!['.'] + parts[1] + seq!['.'] + parts[2]);
    assert(ipv4_text(a) =~= text::joined(parts, '.'));
}

/// Addresses of every kind name their host, and resolve to it: a pair as it is given, whatever the
/// default port; a resolved address with its own port; and a text as it is parsed, its host without
/// brackets at the ends.
pub proof fn law_hosts_and_targets(
    pair: (String, u16),
    socket: SocketAddr,
    s: String,
    default_port: u16,
)
    ensures
        pair.host() == pair.0@,
        pair.target(default_port) == (pair.0@, pair.1),
        socket.target(default_port) == (socket.host(), socket.port_number()),
        socket matches SocketAddr::V4(a) ==> socket.port_number() == a.port
            && text::split_at_each(socket.host(), '.').len() == 4 && text::split_at_each(
            socket.host(),
            '.',
        )[0] == text::decimal(a.a as nat),
        socket matches SocketAddr::V6 { ip, port } ==> socket.port_number() == port
            && socket.host() == ip@,
        s.target(default_port) == host_port(s@, default_port),
        s.host() == trim_back(trim_front(s.target(default_port).0)),
{
    if let SocketAddr::V4(a) = socket {
        law_ipv4_text_parts(a);
    }
}

/// A text slice is an address just as a text is, and a pair with a slice as a pair with a text.
pub proof fn law_slices_are_texts(s: &str, t: String, port: u16, default_port: u16)
    requires
        s@ == t@,
    ensures
        s.host() == t.host(),
        s.target(default_port) == t.target(default_port),
        (s, port).host() == (t, port).host(),
        (s, port).target(default_port) == (t, port).target(default_port),
{
}

} // verus!
