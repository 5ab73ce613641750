//! Login encryption: the key agreement that a `ServerToClientHandshake` starts, and the cipher
//! that protects every batch after it.
//!
//! 1. The server's handshake token names its P-384 public key and a salt.
//! 2. The client makes a key pair of its own, agrees on a secret with the server's key, and
//!    derives `SHA-384(salt | secret)`: the first 32 bytes are the AES-256 key, the next 8 the
//!    start of every nonce.
//! 3. The client answers with `ClientToServerHandshake`: an empty buffer, compressed and
//!    encrypted.
//! 4. Every batch is encrypted with AES-256-GCM, under the next nonce: the 8 bytes and a counter.
use aes_gcm::aead::{Aead, KeyInit, Payload};
use aes_gcm::{Aes256Gcm, Key, Nonce};
use p384::ecdh::EphemeralSecret;
use p384::PublicKey;
use rand::rngs::OsRng;
use sha2::{Digest, Sha384};
use vstd::prelude::*;

use crate::base64url;
use crate::bedrock::protocol;
use crate::bedrock::protocol::ZlibFailure;
use crate::bytes;
use crate::error::PingError;
use crate::text::{protocol_error, Message};

verus! {

// ==================== The cipher, the digest and the curve ====================

/// What AES-256-GCM, without associated data, encrypts `msg` to: the ciphertext and the tag.
pub uninterp spec fn sealed(key: Seq<u8>, nonce: Seq<u8>, msg: Seq<u8>) -> Seq<u8>;

/// What AES-256-GCM, without associated data, decrypts `data` to; `None` if the tag is wrong.
pub uninterp spec fn opened(key: Seq<u8>, nonce: Seq<u8>, data: Seq<u8>) -> Option<Seq<u8>>;

/// The SHA-384 digest of `data`.
pub uninterp spec fn sha384(data: Seq<u8>) -> Seq<u8>;

/// Whether `data` is a P-384 public key in one of the encodings of SEC 1.
pub uninterp spec fn is_public_key(data: Seq<u8>) -> bool;

/// The secret on which the holder of the secret key of `own` agrees with the holder of that of
/// `other`.
pub uninterp spec fn agreed(own: Seq<u8>, other: Seq<u8>) -> Seq<u8>;

/// The longest message that the cipher takes.
pub const MAX_MESSAGE: u64 = 0x10_0000_0000;

/// `aes_gcm::Aes256Gcm::new` and `encrypt`, without associated data: a message of up to 2^36
/// bytes is encrypted to the ciphertext and 16 bytes of tag, which decrypt to the message; a longer
/// one is refused.
#[allow(deprecated)]
#[verifier::external_body]
fn seal(key: &[u8], nonce: &[u8], msg: &[u8]) -> (r: Result<Vec<u8>, String>)
    requires
        key@.len() == 32,
        nonce@.len() == 12,
    ensures
        match r {
            Ok(c) => msg@.len() <= MAX_MESSAGE && c@ == sealed(key@, nonce@, msg@) && c@.len()
                == msg@.len() + 16 && opened(key@, nonce@, c@) == Some(msg@),
            Err(m) => msg@.len() > MAX_MESSAGE && m@ == "aead::Error"@,
        },
{
    let cipher = Aes256Gcm::new(Key::<Aes256Gcm>::from_slice(key));
    match cipher.encrypt(Nonce::from_slice(nonce), Payload { msg, aad: &[] }) {
        Ok(c) => Ok(c),
        Err(e) => Err(e.to_string()),
    }
}

/// `aes_gcm::Aes256Gcm::new` and `decrypt`, without associated data: the message, or an error if
/// the data is not what the message encrypts to. Data without room for a tag is refused.
#[allow(deprecated)]
#[verifier::external_body]
fn open(key: &[u8], nonce: &[u8], data: &[u8]) -> (r: Result<Vec<u8>, String>)
    requires
        key@.len() == 32,
        nonce@.len() == 12,
    ensures
        match (r, opened(key@, nonce@, data@)) {
            (Ok(p), Some(v)) => p@ == v && sealed(key@, nonce@, p@) == data@ && p@.len() + 16
                == data@.len(),
            (Err(m), None) => m@ == "aead::Error"@,
            _ => false,
        },
{
    let cipher = Aes256Gcm::new(Key::<Aes256Gcm>::from_slice(key));
    match cipher.decrypt(Nonce::from_slice(nonce), Payload { msg: data, aad: &[] }) {
        Ok(p) => Ok(p),
        Err(e) => Err(e.to_string()),
    }
}

/// `sha2::Sha384::digest`: the digest, 48 bytes.
#[verifier::external_body]
fn digest(data: &[u8]) -> (r: Vec<u8>)
    ensures
        r@ == sha384(data@),
        r@.len() == 48,
{
    Sha384::digest(data).to_vec()
}

/// `p384::PublicKey::from_sec1_bytes`: whether `data` is a public key; the error as text if not.
#[verifier::external_body]
fn check_public_key(data: &[u8]) -> (r: Result<(), String>)
    ensures
        match r {
            Ok(_) => is_public_key(data@),
            Err(m) => !is_public_key(data@) && m@ == "crypto error"@,
        },
{
    match PublicKey::from_sec1_bytes(data) {
        Ok(_) => Ok(()),
        Err(e) => Err(e.to_string()),
    }
}

/// `p384::ecdh::EphemeralSecret::random`, its `public_key` and its `diffie_hellman` with the key
/// `other`: a new key pair, of which this gives the public key, uncompressed, and the secret
/// agreed on, 48 bytes. The holder of the other secret key agrees on the same one. Which key pair
/// it is depends on the system's random numbers.
#[verifier::external_body]
fn agree(other: &[u8]) -> (r: (Vec<u8>, Vec<u8>))
    requires
        is_public_key(other@),
    ensures
        is_public_key(r.0@),
        r.0@.len() == 97,
        r.1@ == agreed(r.0@, other@),
        r.1@ == agreed(other@, r.0@),
        r.1@.len() == 48,
{
    let other = PublicKey::from_sec1_bytes(other).unwrap();
    let own = EphemeralSecret::random(&mut OsRng);
    let shared = own.diffie_hellman(&other);
    (own.public_key().to_sec1_bytes().to_vec(), shared.raw_secret_bytes().to_vec())
}

// ==================== Sessions ====================

/// An encrypted session: key, nonces and the client's public key.
pub struct EncryptionSession {
    key: [u8; 32],
    iv_base: [u8; 8],
    send_counter: u64,
    recv_counter: u64,
    client_public_b64: String,
}

/// What an [`EncryptionSession`] holds.
#[verifier::ext_equal]
pub struct SessionView {
    /// The cipher's key.
    pub key: Seq<u8>,
    /// The start of every nonce.
    pub iv_base: Seq<u8>,
    /// How many messages were encrypted.
    pub send_counter: u64,
    /// How many messages were decrypted, or tried.
    pub recv_counter: u64,
    /// The client's public key as base64 text.
    pub client_public_b64: Seq<char>,
}

impl View for EncryptionSession {
    type V = SessionView;

    closed spec fn view(&self) -> SessionView {
        SessionView {
            key: self.key@,
            iv_base: self.iv_base@,
            send_counter: self.send_counter,
            recv_counter: self.recv_counter,
            client_public_b64: self.client_public_b64@,
        }
    }
}

/// The nonce of the message with this number: the session's bytes, and the low 32 bits of the
/// number, most significant byte first.
pub open spec fn nonce_of(iv_base: Seq<u8>, counter: u64) -> Seq<u8> {
    iv_base + bytes::be32((counter % 0x1_0000_0000) as u32)
}

/// A session that has sent and received nothing.
pub open spec fn fresh(key: Seq<u8>, iv_base: Seq<u8>, client_public_b64: Seq<char>) -> SessionView {
    SessionView { key, iv_base, send_counter: 0, recv_counter: 0, client_public_b64 }
}

/// The session that is derived from a salt and an agreed secret.
pub open spec fn derived(
    salt: Seq<u8>,
    secret: Seq<u8>,
    client_public_b64: Seq<char>,
) -> SessionView {
    let d = sha384(salt + secret);
    fresh(d.subrange(0, 32), d.subrange(32, 40), client_public_b64)
}

impl SessionView {
    /// The session after a message was encrypted.
    pub open spec fn sent(self) -> SessionView {
        SessionView { send_counter: (self.send_counter + 1) as u64, ..self }
    }

    /// The session after decrypting a message was tried.
    pub open spec fn received(self) -> SessionView {
        SessionView { recv_counter: (self.recv_counter + 1) as u64, ..self }
    }

    /// The session after encrypting a message was asked for.
    pub open spec fn after_sealing(self) -> SessionView {
        if self.send_counter == u64::MAX {
            self
        } else {
            self.sent()
        }
    }

    /// The session after decrypting a message was asked for.
    pub open spec fn after_opening(self) -> SessionView {
        if self.recv_counter == u64::MAX {
            self
        } else {
            self.received()
        }
    }

    /// What the session encrypts `msg` to.
    pub open spec fn seals(self, msg: Seq<u8>) -> Result<Seq<u8>, Seq<char>> {
        if self.send_counter == u64::MAX {
            Err("encryption send counter overflow"@)
        } else if msg.len() > MAX_MESSAGE {
            Err("AES-GCM encrypt: "@ + "aead::Error"@)
        } else {
            Ok(sealed(self.key, nonce_of(self.iv_base, self.send_counter), msg))
        }
    }

    /// What the session decrypts `data` to.
    pub open spec fn opens(self, data: Seq<u8>) -> Result<Seq<u8>, Seq<char>> {
        if self.recv_counter == u64::MAX {
            Err("encryption recv counter overflow"@)
        } else {
            match opened(self.key, nonce_of(self.iv_base, self.recv_counter), data) {
                Some(msg) => Ok(msg),
                None => Err("AES-GCM decrypt: "@ + "aead::Error"@),
            }
        }
    }

    /// The session at the other end: it has the same key and has received what this one sent.
    pub open spec fn hears(self, sender: SessionView) -> bool {
        &&& self.key == sender.key
        &&& self.iv_base == sender.iv_base
        &&& self.recv_counter == sender.send_counter
    }
}

/// Two sessions that took their keys from the same material hear each other from the start.
pub proof fn law_same_material_agrees(salt: Seq<u8>, secret: Seq<u8>, a: Seq<char>, b: Seq<char>)
    ensures
        derived(salt, secret, a).hears(derived(salt, secret, b)),
        derived(salt, secret, b).hears(derived(salt, secret, a)),
{
}

/// A message that one session encrypts and the other decrypts leaves them in step for the next.
pub proof fn law_in_step(sender: SessionView, receiver: SessionView)
    requires
        receiver.hears(sender),
    ensures
        receiver.received().hears(sender.sent()),
{
}

/// No two of any 2^32 messages in a row have the same nonce.
pub proof fn law_nonces_differ(iv_base: Seq<u8>, a: u64, b: u64)
    requires
        a < b,
        b - a < 0x1_0000_0000,
    ensures
        nonce_of(iv_base, a) != nonce_of(iv_base, b),
{
    let x = (a % 0x1_0000_0000) as u32;
    let y = (b % 0x1_0000_0000) as u32;
    assert(x != y);
    bytes::lemma_be32_round_trip(x, iv_base, Seq::empty());
    bytes::lemma_be32_round_trip(y, iv_base, Seq::empty());
    assert(iv_base + bytes::be32(x) + Seq::<u8>::empty() == nonce_of(iv_base, a));
    assert(iv_base + bytes::be32(y) + Seq::<u8>::empty() == nonce_of(iv_base, b));
}

/// A handshake's outcome: on success the server's key parses, the session's client key is a
/// public key, and the session is derived from the salt and what the two keys agree on.
pub open spec fn handshake_outcome(
    r: Result<EncryptionSession, PingError>,
    server_pub_b64: Seq<char>,
    salt: Seq<u8>,
) -> bool {
    match base64url::decoded(server_pub_b64) {
        Err(m) => r matches Err(e) && e.says("server pubkey base64: "@ + m),
        Ok(server) => if is_public_key(server) {
            &&& r matches Ok(s)
            &&& base64url::decoded(s@.client_public_b64) matches Ok(client)
            &&& is_public_key(client)
            &&& client.len() == 97
            &&& s@ == derived(salt, agreed(server, client), s@.client_public_b64)
            &&& s@ == derived(salt, agreed(client, server), s@.client_public_b64)
        } else {
            r matches Err(e) && e.says("server pubkey parse: "@ + "crypto error"@)
        },
    }
}

impl EncryptionSession {
    /// Agrees on a key with a server: takes the server's public key as base64 text and the salt of
    /// its handshake. The session is new each time, because the client's key pair is.
    pub fn from_handshake(server_pub_b64: &str, salt: &[u8]) -> (r: Result<
        EncryptionSession,
        PingError,
    >)
        ensures
            handshake_outcome(r, server_pub_b64@, salt@),
    {
        let server = match base64url::decode(server_pub_b64) {
            Ok(d) => d,
            Err(m) => {
                return Err(Message::new("server pubkey base64: ").text(m.as_str()).protocol());
            },
        };
        if let Err(m) = check_public_key(server.as_slice()) {
            return Err(Message::new("server pubkey parse: ").text(m.as_str()).protocol());
        }
        let (client, secret) = agree(server.as_slice());
        let client_public_b64 = base64url::encode(client.as_slice());
        Ok(Self::from_secret(salt, secret.as_slice(), client_public_b64))
    }

    /// The session that a salt and an agreed secret give.
    pub fn from_secret(salt: &[u8], secret: &[u8], client_public_b64: String) -> (r: Self)
        ensures
            r@ == derived(salt@, secret@, client_public_b64@),
    {
        let mut material = bytes::copy_all(salt);
        bytes::extend(&mut material, secret);
        let d = digest(material.as_slice());
        let mut key: [u8; 32] = [0;32];
        let mut i: usize = 0;
        while i < 32
            invariant
                i <= 32,
                d@.len() == 48,
                forall|k: int| 0 <= k < i ==> key@[k] == d@[k],
            decreases 32 - i,
        {
            key[i] = d[i];
            i = i + 1;
        }
        let mut iv_base: [u8; 8] = [0;8];
        let mut j: usize = 0;
        while j < 8
            invariant
                j <= 8,
                d@.len() == 48,
                forall|k: int| 0 <= k < j ==> iv_base@[k] == d@[32 + k],
            decreases 8 - j,
        {
            iv_base[j] = d[32 + j];
            j = j + 1;
        }
        assert(key@ == d@.subrange(0, 32));
        assert(iv_base@ == d@.subrange(32, 40));
        Self::from_key_iv(key, iv_base, client_public_b64)
    }

    /// The session with this key and this start of the nonces.
    pub fn from_key_iv(key: [u8; 32], iv_base: [u8; 8], client_public_b64: String) -> (r: Self)
        ensures
            r@ == fresh(key@, iv_base@, client_public_b64@),
    {
        EncryptionSession { key, iv_base, send_counter: 0, recv_counter: 0, client_public_b64 }
    }

    /// The client's public key as base64 text.
    pub fn client_public_b64(&self) -> (r: &str)
        ensures
            r@ == self@.client_public_b64,
    {
        self.client_public_b64.as_str()
    }

    fn nonce_bytes(&self, counter: u64) -> (r: Vec<u8>)
        ensures
            r@ == nonce_of(self@.iv_base, counter),
            r@.len() == 12,
    {
        broadcast use bytes::group_widths;

        let mut nonce = bytes::copy_all(self.iv_base.as_slice());
        bytes::push_be32(&mut nonce, (counter % 0x1_0000_0000) as u32);
        nonce
    }

    /// Encrypts a message to its ciphertext and 16 bytes of tag, and counts it. The session at the
    /// other end decrypts it.
    pub fn encrypt(&mut self, plaintext: &[u8]) -> (r: Result<Vec<u8>, PingError>)
        ensures
            match (r, old(self)@.seals(plaintext@)) {
                (Ok(c), Ok(v)) => c@ == v && c@.len() == plaintext@.len() + 16,
                (Err(e), Err(m)) => e.says(m),
                _ => false,
            },
            final(self)@ == old(self)@.after_sealing(),
            final(self)@ == (if old(self)@.send_counter == u64::MAX {
                old(self)@
            } else {
                old(self)@.sent()
            }),
            r matches Ok(c) ==> forall|receiver: SessionView| #[trigger]
                receiver.hears(old(self)@) ==> receiver.opens(c@) == Ok::<Seq<u8>, Seq<char>>(
                    plaintext@,
                ),
    {
        if self.send_counter == u64::MAX {
            return Err(protocol_error("encryption send counter overflow"));
        }
        let nonce = self.nonce_bytes(self.send_counter);
        let outcome = seal(self.key.as_slice(), nonce.as_slice(), plaintext);
        self.send_counter = self.send_counter + 1;
        match outcome {
            Ok(c) => Ok(c),
            Err(m) => Err(Message::new("AES-GCM encrypt: ").text(m.as_str()).protocol()),
        }
    }

    /// Decrypts a message that ends in its tag, and counts it, also where it cannot be decrypted.
    pub fn decrypt(&mut self, ciphertext: &[u8]) -> (r: Result<Vec<u8>, PingError>)
        ensures
            match (r, old(self)@.opens(ciphertext@)) {
                (Ok(p), Ok(v)) => p@ == v && p@.len() + 16 == ciphertext@.len() && sealed(
                    old(self)@.key,
                    nonce_of(old(self)@.iv_base, old(self)@.recv_counter),
                    p@,
                ) == ciphertext@,
                (Err(e), Err(m)) => e.says(m),
                _ => false,
            },
            final(self)@ == old(self)@.after_opening(),
            final(self)@ == (if old(self)@.recv_counter == u64::MAX {
                old(self)@
            } else {
                old(self)@.received()
            }),
    {
        if self.recv_counter == u64::MAX {
            return Err(protocol_error("encryption recv counter overflow"));
        }
        let nonce = self.nonce_bytes(self.recv_counter);
        let outcome = open(self.key.as_slice(), nonce.as_slice(), ciphertext);
        self.recv_counter = self.recv_counter + 1;
        match outcome {
            Ok(p) => Ok(p),
            Err(m) => Err(Message::new("AES-GCM decrypt: ").text(m.as_str()).protocol()),
        }
    }

    /// The payload of a `ClientToServerHandshake`: an empty buffer, compressed and encrypted. The
    /// session at the other end decrypts it to a stream that decompresses to nothing.
    pub fn encrypt_handshake(&mut self) -> (r: Result<Vec<u8>, PingError>)
        ensures
            protocol::deflated(Seq::empty()) matches Some(stream) && {
                &&& match (r, old(self)@.seals(stream)) {
                    (Ok(c), Ok(v)) => c@ == v,
                    (Err(e), Err(m)) => e.says(m),
                    _ => false,
                }
                &&& final(self)@ == (if old(self)@.send_counter == u64::MAX {
                    old(self)@
                } else {
                    old(self)@.sent()
                })
                &&& protocol::inflated(stream) == Some(Seq::<u8>::empty())
                &&& r matches Ok(c) ==> forall|receiver: SessionView| #[trigger]
                    receiver.hears(old(self)@) ==> receiver.opens(c@) == Ok::<
                        Seq<u8>,
                        Seq<char>,
                    >(stream)
            },
    {
        let nothing: Vec<u8> = Vec::new();
        assert(nothing@ == Seq::<u8>::empty());
        match protocol::zlib_compress(nothing.as_slice()) {
            Ok(stream) => self.encrypt(stream.as_slice()),
            Err(ZlibFailure::Write(e)) => {
                let t = crate::error::io_error_text(&e);
                Err(Message::new("handshake deflate: ").text(t.as_str()).protocol())
            },
            Err(ZlibFailure::Finish(e)) => {
                let t = crate::error::io_error_text(&e);
                Err(Message::new("handshake deflate finish: ").text(t.as_str()).protocol())
            },
        }
    }
}

// ==================== Laws ====================

/// A nonce is the session's bytes and, behind them, the low 32 bits of the message's number, most
/// significant byte first.
pub proof fn law_nonce_layout(iv_base: Seq<u8>, counter: u64)
    ensures
        ({
            let nonce = nonce_of(iv_base, counter);
            let n = iv_base.len() as int;
            &&& nonce.len() == n + 4
            &&& nonce.take(n) == iv_base
            &&& nonce[n] * 0x100_0000 + nonce[n + 1] * 0x1_0000 + nonce[n + 2] * 256 + nonce[n + 3]
                == counter % 0x1_0000_0000
        }),
{
    let nonce = nonce_of(iv_base, counter);
    bytes::law_bytes_are_digits(0, (counter % 0x1_0000_0000) as u32, 0);
    assert(nonce.take(iv_base.len() as int) =~= iv_base);
}

/// A derived session takes its key from the first 32 bytes of the digest of the salt and the
/// secret, in this order, and the start of its nonces from the next 8; it has counted nothing.
pub proof fn law_derived(salt: Seq<u8>, secret: Seq<u8>, client: Seq<char>)
    requires
        sha384(salt + secret).len() == 48,
    ensures
        ({
            let s = derived(salt, secret, client);
            let d = sha384(salt + secret);
            &&& s.key.len() == 32
            &&& forall|i: int| 0 <= i < 32 ==> #[trigger] s.key[i] == d[i]
            &&& s.iv_base.len() == 8
            &&& forall|i: int| 0 <= i < 8 ==> #[trigger] s.iv_base[i] == d[32 + i]
            &&& s.send_counter == 0
            &&& s.recv_counter == 0
            &&& s.client_public_b64 == client
        }),
{
}

/// A message counts at the end that sends it and at the end that receives it, and nothing else
/// changes.
pub proof fn law_messages_count(s: SessionView)
    requires
        s.send_counter < u64::MAX,
        s.recv_counter < u64::MAX,
    ensures
        s.sent().send_counter == s.send_counter + 1,
        s.sent().recv_counter == s.recv_counter,
        s.received().recv_counter == s.recv_counter + 1,
        s.received().send_counter == s.send_counter,
        s.sent().key == s.key && s.sent().iv_base == s.iv_base,
        s.received().key == s.key && s.received().iv_base == s.iv_base,
        s.sent().client_public_b64 == s.client_public_b64,
        s.received().client_public_b64 == s.client_public_b64,
{
}

/// Which messages a session encrypts: any of up to 2^36 bytes, until its counter is used up. Each is
/// encrypted under the session's key and a nonce that ends in its number.
pub proof fn law_session_seals(s: SessionView, msg: Seq<u8>)
    ensures
        s.seals(msg) is Ok <==> s.send_counter < u64::MAX && msg.len() <= 0x10_0000_0000,
        s.seals(msg) matches Ok(c) ==> exists|nonce: Seq<u8>|
            c == #[trigger] sealed(s.key, nonce, msg) && nonce.len() == s.iv_base.len() + 4
                && s.iv_base.is_prefix_of(nonce) && bytes::u32_at(nonce, s.iv_base.len() as int)
                == s.send_counter % 0x1_0000_0000,
{
    let nonce = nonce_of(s.iv_base, s.send_counter);
    law_nonce_layout(s.iv_base, s.send_counter);
    bytes::law_digits_are_read(nonce, s.iv_base.len() as int);
    if s.seals(msg) is Ok {
        assert(s.seals(msg)->Ok_0 == sealed(s.key, nonce, msg));
    }
}

/// What a session decrypts: what opens under its key and the nonce of the message that it awaits.
pub proof fn law_session_opens(sender: SessionView, receiver: SessionView, data: Seq<u8>)
    requires
        receiver.hears(sender),
        sender.send_counter < u64::MAX,
    ensures
        match opened(sender.key, nonce_of(sender.iv_base, sender.send_counter), data) {
            Some(msg) => receiver.opens(data) == Ok::<Seq<u8>, Seq<char>>(msg),
            None => receiver.opens(data) is Err,
        },
{
}

/// Two ends that hear each other stay in step, message by message, and no message of the sender is
/// encrypted under the nonce of the one before it.
pub proof fn law_ends_stay_in_step(sender: SessionView, receiver: SessionView)
    requires
        receiver.hears(sender),
        sender.send_counter < u64::MAX,
    ensures
        receiver.after_opening().hears(sender.after_sealing()),
        sender.after_sealing().send_counter == sender.send_counter + 1,
        receiver.after_opening().recv_counter == receiver.recv_counter + 1,
        nonce_of(sender.iv_base, sender.send_counter) != nonce_of(
            sender.after_sealing().iv_base,
            sender.after_sealing().send_counter,
        ),
{
    law_nonces_differ(
        sender.iv_base,
        sender.send_counter,
        (sender.send_counter + 1) as u64,
    );
}

/// What a handshake with a server leads to: a session whose key the server, which knows the salt and
/// the secret key of its own, derives too, because the secret is the same from both ends. A server
/// key that is no base64 text or no public key leads to none.
pub proof fn law_handshake_agrees(
    r: Result<EncryptionSession, PingError>,
    server_pub_b64: Seq<char>,
    salt: Seq<u8>,
)
    requires
        handshake_outcome(r, server_pub_b64, salt),
    ensures
        r is Ok <==> (base64url::decoded(server_pub_b64) matches Ok(server) && is_public_key(
            server,
        )),
        r matches Ok(s) ==> {
            &&& base64url::decoded(server_pub_b64) matches Ok(server)
            &&& base64url::decoded(s@.client_public_b64) matches Ok(client)
            &&& is_public_key(client)
            &&& client.len() == 97
            &&& derived(salt, agreed(server, client), seq![]).hears(s@)
            &&& s@.hears(derived(salt, agreed(server, client), seq![]))
            &&& s@.send_counter == 0 && s@.recv_counter == 0
        },
{
}

} // verus!
