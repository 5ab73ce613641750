//! Login encryption.
use base64::engine::general_purpose::URL_SAFE_NO_PAD;
use base64::Engine;
use flate2::read::ZlibDecoder;
use mcget::bedrock::encryption::EncryptionSession;
use p384::ecdh::EphemeralSecret;
use p384::PublicKey;
use rand::rngs::OsRng;
use sha2::{Digest, Sha384};
use std::io::Read;

#[test]
fn from_handshake_produces_valid_session() {
    // A session built from a real P-384 server key + salt must succeed and
    // expose a well-formed client public key.
    let server_secret = EphemeralSecret::random(&mut OsRng);
    let server_pub_b64 = URL_SAFE_NO_PAD.encode(server_secret.public_key().to_sec1_bytes());
    let s = EncryptionSession::from_handshake(&server_pub_b64, b"salt").unwrap();
    let bytes = URL_SAFE_NO_PAD.decode(s.client_public_b64()).unwrap();
    assert!(PublicKey::from_sec1_bytes(&bytes).is_ok());
}

#[test]
fn symmetric_key_agreement_both_sides_match() {
    // The core ECDH invariant: client and server independently derive the
    // same key/IV. We reconstruct both sides explicitly and verify a
    // message encrypted by one decrypts with the other.
    let salt = b"symmetric-salt";
    let server_secret = EphemeralSecret::random(&mut OsRng);
    let server_pub_bytes = server_secret.public_key().to_sec1_bytes();
    let server_pub_b64 = URL_SAFE_NO_PAD.encode(&server_pub_bytes);

    // Client side: full handshake session.
    let mut client = EncryptionSession::from_handshake(&server_pub_b64, salt).unwrap();
    let client_pub_b64 = client.client_public_b64().to_string();

    // Server side: derive the same key independently.
    let client_bytes = URL_SAFE_NO_PAD.decode(&client_pub_b64).unwrap();
    let client_pub = PublicKey::from_sec1_bytes(&client_bytes).unwrap();
    let shared = server_secret.diffie_hellman(&client_pub);
    let mut h = Sha384::new();
    h.update(salt);
    h.update(shared.raw_secret_bytes().as_slice());
    let digest = h.finalize();
    let mut key = [0u8; 32];
    key.copy_from_slice(&digest[..32]);
    let mut iv = [0u8; 8];
    iv.copy_from_slice(&digest[32..40]);
    let mut server = EncryptionSession::from_key_iv(key, iv, client_pub_b64);

    // Client encrypts at counter 0; server decrypts at counter 0.
    let ct = client.encrypt(b"hello bedrock").unwrap();
    let pt = server.decrypt(&ct).unwrap();
    assert_eq!(pt, b"hello bedrock");
}

#[test]
fn aes_gcm_round_trip_single_session() {
    // A single session must be able to decrypt what it encrypted (verifying
    // the cipher/key wiring), using matching send/recv counters.
    // Build two sessions sharing the same key by deriving it once and using
    // from_key_iv for both.
    let key = [0x42u8; 32];
    let iv = [0x11u8; 8];
    let mut enc = EncryptionSession::from_key_iv(key, iv, String::new());
    let mut dec = EncryptionSession::from_key_iv(key, iv, String::new());
    for msg in [b"".as_slice(), b"a", b"hello world", &[0x55u8; 250]] {
        let ct = enc.encrypt(msg).unwrap();
        assert_eq!(ct.len(), msg.len() + 16, "GCM appends a 16-byte tag");
        let pt = dec.decrypt(&ct).unwrap();
        assert_eq!(pt, msg);
    }
}

#[test]
fn counters_increment_in_order() {
    let key = [0x77u8; 32];
    let iv = [0x22u8; 8];
    let mut enc = EncryptionSession::from_key_iv(key, iv, String::new());
    let mut dec = EncryptionSession::from_key_iv(key, iv, String::new());
    // Out-of-order / replayed counter must fail; only sequential works.
    let cts: Vec<_> = (0..3).map(|_| enc.encrypt(b"x").unwrap()).collect();
    for ct in cts {
        assert_eq!(dec.decrypt(&ct).unwrap(), b"x");
    }
}

#[test]
fn handshake_payload_round_trips() {
    let key = [0x33u8; 32];
    let iv = [0x44u8; 8];
    let mut enc = EncryptionSession::from_key_iv(key, iv, String::new());
    let mut dec = EncryptionSession::from_key_iv(key, iv, String::new());
    let handshake_ct = enc.encrypt_handshake().unwrap();
    let compressed = dec.decrypt(&handshake_ct).unwrap();
    let mut d = ZlibDecoder::new(&compressed[..]);
    let mut out = Vec::new();
    d.read_to_end(&mut out).unwrap();
    assert!(out.is_empty(), "handshake payload decompresses to empty");
}

#[test]
fn rejects_garbage_ciphertext() {
    let key = [0x55u8; 32];
    let iv = [0x66u8; 8];
    let mut dec = EncryptionSession::from_key_iv(key, iv, String::new());
    // Too short to even contain a GCM tag.
    assert!(dec.decrypt(&[0u8; 5]).is_err());
}
