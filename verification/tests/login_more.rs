//! Offline login and encryption: exact bytes, errors, and what is read back.
use aes_gcm::aead::{Aead, KeyInit};
use aes_gcm::{Aes256Gcm, Key, Nonce};
use base64::engine::general_purpose::URL_SAFE_NO_PAD;
use base64::Engine;
use mcget::bedrock::encryption::EncryptionSession;
use mcget::bedrock::login::{
    build_offline_connection_request, default_offline_connection_request, frame_connection_request,
    handshake_claims, jwt_from_parts, jwt_parts, login_packet, ClientData, IdentityData, Jwt,
    NetworkSettings, PlayStatus, RequestNetworkSettings, ServerHandshake,
};
use mcget::bedrock::protocol::{read_varuint32, COMPRESSION_FLATE};
use mcget::PingError;
use sha2::{Digest, Sha384};

fn message(e: PingError) -> String {
    match e {
        PingError::Protocol(s) => s,
        other => panic!("expected a protocol error, got {other:?}"),
    }
}

fn json(text: &str) -> serde_json::Value {
    serde_json::from_str(text).unwrap()
}

fn token(header: &str, payload: &str) -> String {
    jwt_from_parts(&URL_SAFE_NO_PAD.encode(header), &URL_SAFE_NO_PAD.encode(payload))
}

#[test]
fn network_settings_are_read_field_by_field() {
    let data = [0x01, 0x00, 0xff, 0xff, 1, 9, 0x3f, 0x80, 0x00, 0x00, 77];
    let ns = NetworkSettings::decode_payload(&data).unwrap();
    assert_eq!(ns.compression_threshold, 256);
    assert_eq!(ns.compression_algorithm, 0xffff);
    assert!(ns.client_throttle);
    assert_eq!(ns.client_throttle_threshold, 9);
    assert_eq!(f32::from_bits(ns.client_throttle_scalar), 1.0);
    let e = message(NetworkSettings::decode_payload(&data[..9]).unwrap_err());
    assert_eq!(e, "NetworkSettings needs 10 bytes, got 9");
    let d = NetworkSettings::default();
    assert_eq!(d.compression_algorithm, COMPRESSION_FLATE);
    assert_eq!(f32::from_bits(d.client_throttle_scalar), 0.0);
}

#[test]
fn play_status_is_signed() {
    assert_eq!(PlayStatus::decode_payload(&[0xff; 4]).unwrap().status, -1);
    let e = message(PlayStatus::decode_payload(&[0, 0]).unwrap_err());
    assert_eq!(e, "PlayStatus.status: need 4 bytes, got 2");
}

#[test]
fn network_request_is_folded() {
    assert_eq!(RequestNetworkSettings { protocol: -1 }.encode_payload(), [1]);
    assert_eq!(RequestNetworkSettings { protocol: 64 }.encode_payload(), [0x80, 0x01]);
    let back = RequestNetworkSettings::decode_payload(&[0xff, 0xff, 0xff, 0xff, 0x0f]).unwrap();
    assert_eq!(back.protocol, i32::MIN);
    let e = message(RequestNetworkSettings::decode_payload(&[]).unwrap_err());
    assert_eq!(e, "varuint32 was truncated (no terminating byte)");
}

#[test]
fn login_payload_exact_bytes() {
    assert_eq!(login_packet(1, vec![7, 8]).payload, [2, 2, 7, 8]);
}

#[test]
fn connection_request_exact_bytes() {
    assert_eq!(frame_connection_request(&[9], &[]), [1, 9, 0]);
}

#[test]
fn tokens_are_split_at_dots() {
    assert_eq!(jwt_from_parts("ab", "c"), "ab.c.");
    assert_eq!(jwt_parts("ab.c.d.e").unwrap(), ("ab".to_string(), "c".to_string()));
    assert_eq!(jwt_parts("ab.c").unwrap(), ("ab".to_string(), "c".to_string()));
    let e = message(jwt_parts("abc").unwrap_err());
    assert_eq!(e, "ServerHandshake JWT: missing payload");
}

#[test]
fn tokens_are_read_back() {
    let jwt = Jwt {
        header_json: json(r#"{"alg":"es384","n":[1,-2,null,true]}"#),
        payload_json: json(r#"{"text":"quote \" and é"}"#),
    };
    let text = jwt.encode().unwrap();
    assert!(text.ends_with('.'));
    let back = Jwt::decode(&text).unwrap();
    assert_eq!(back.header_json, jwt.header_json);
    assert_eq!(back.payload_json, jwt.payload_json);
}

#[test]
fn malformed_tokens_say_why() {
    let e = |jwt: &str| message(ServerHandshake::decode_jwt(jwt).unwrap_err());
    assert!(e("!.e30.").starts_with("header base64: "));
    assert!(e(&token("{", "{}")).starts_with("header json: "));
    assert!(e("e30.!.").starts_with("payload base64: "));
    assert!(e(&token("{}", "nothing")).starts_with("payload json: "));
    assert_eq!(e(&token("{}", "{}")), "ServerHandshake JWT: missing x5u");
    assert_eq!(e(&token(r#"{"x5u":7}"#, "{}")), "ServerHandshake JWT: missing x5u");
    assert_eq!(e(&token(r#"{"x5u":"k"}"#, "[]")), "ServerHandshake JWT: missing salt");
    let bad_salt = token(r#"{"x5u":"k"}"#, r#"{"salt":"!"}"#);
    assert!(e(&bad_salt).starts_with("salt base64: "));
}

#[test]
fn claims_are_picked_by_name() {
    let header = json(r#"{"alg":"a","x5u":"key"}"#);
    let payload = json(r#"{"salt":"c2FsdA","x5u":"other"}"#);
    let got = handshake_claims(&header, &payload).unwrap();
    assert_eq!(got, ("key".to_string(), "c2FsdA".to_string()));
}

#[test]
fn malformed_handshake_payloads_say_why() {
    let e = |data: &[u8]| message(ServerHandshake::decode_payload(data).unwrap_err());
    assert_eq!(
        e(&[0x80]),
        "ServerHandshake jwt_len: protocol error: varuint32 was truncated (no terminating byte)"
    );
    assert_eq!(e(&[3, b'a']), "ServerHandshake JWT truncated");
    assert!(e(&[1, 0xff]).starts_with("ServerHandshake JWT utf-8: "));
    assert_eq!(e(&[1, b'a']), "ServerHandshake JWT: missing payload");
}

fn parts(req: &[u8]) -> (Vec<u8>, Vec<u8>) {
    let (len, n) = read_varuint32(req).unwrap();
    let chain = req[n..n + len as usize].to_vec();
    let rest = &req[n + len as usize..];
    let (len, n) = read_varuint32(rest).unwrap();
    assert_eq!(rest.len(), n + len as usize);
    (chain, rest[n..].to_vec())
}

#[test]
fn offline_request_says_who_the_player_is() {
    let identity = IdentityData {
        xuid: "x".to_string(),
        identity: "i".to_string(),
        display_name: "d".to_string(),
    };
    let (chain, client) = parts(&build_offline_connection_request(-5, identity).unwrap());
    let chain: serde_json::Value = serde_json::from_slice(&chain).unwrap();
    let key = "MHYwEAYHKoZIzj0CA3YFK4EEACIDYQAE";
    let header = json(&format!(r#"{{"alg":"es384","x5u":"{key}"}}"#));
    let identity = Jwt::decode(chain["chain"][0].as_str().unwrap()).unwrap();
    assert_eq!(chain["chain"].as_array().unwrap().len(), 1);
    assert_eq!(identity.header_json, header);
    let data = r#"{"XUID":"x","identity":"i","displayName":"d"}"#;
    let text = format!(r#"{{"extraData":{data},"identityPublicKey":"{key}"}}"#);
    assert_eq!(identity.payload_json, json(&text));
    let client = Jwt::decode(std::str::from_utf8(&client).unwrap()).unwrap();
    assert_eq!(client.header_json, header);
    assert_eq!(
        client.payload_json,
        json(
            r#"{"ClientRandomId":-5,"DeviceOS":0,"GameVersion":"1.21.0","LanguageCode":"en",
                "DeviceModel":""}"#
        )
    );
}

#[test]
fn default_identity_is_the_guid() {
    let identity = |guid: i64| {
        let (chain, _) = parts(&default_offline_connection_request(guid).unwrap());
        let chain: serde_json::Value = serde_json::from_slice(&chain).unwrap();
        let jwt = Jwt::decode(chain["chain"][0].as_str().unwrap()).unwrap();
        let data = jwt.payload_json["extraData"].clone();
        assert_eq!(data["displayName"], "mcget");
        assert_eq!(data["XUID"], "");
        data["identity"].as_str().unwrap().to_string()
    };
    assert_eq!(identity(0xAD), "000000000000000000000000000000ad");
    assert_eq!(identity(-1), "0000000000000000ffffffffffffffff");
}

#[test]
fn offline_client_data() {
    let c = ClientData::offline(9);
    assert_eq!(c.client_random_id, 9);
    assert_eq!(c.device_os, 0);
    assert_eq!(c.game_version, "1.21.0");
    assert_eq!(c.language_code, "en");
    assert_eq!(c.device_model, "");
}

// ---------- encryption ----------

#[test]
fn messages_are_sealed_with_key_nonce_and_counter() {
    let key = [7u8; 32];
    let iv = [1, 2, 3, 4, 5, 6, 7, 8];
    let mut s = EncryptionSession::from_key_iv(key, iv, "pub".to_string());
    assert_eq!(s.client_public_b64(), "pub");
    let cipher = Aes256Gcm::new(&Key::<Aes256Gcm>::from(key));
    for counter in 0u8..3 {
        let nonce = Nonce::from([1, 2, 3, 4, 5, 6, 7, 8, 0, 0, 0, counter]);
        let expected = cipher.encrypt(&nonce, &b"message"[..]).unwrap();
        assert_eq!(s.encrypt(b"message").unwrap(), expected);
    }
}

#[test]
fn keys_are_derived_from_salt_and_secret() {
    let digest = Sha384::digest(b"saltsecret");
    let mut key = [0u8; 32];
    key.copy_from_slice(&digest[..32]);
    let mut iv = [0u8; 8];
    iv.copy_from_slice(&digest[32..40]);
    let mut a = EncryptionSession::from_secret(b"salt", b"secret", String::new());
    let mut b = EncryptionSession::from_key_iv(key, iv, String::new());
    assert_eq!(a.encrypt(b"m").unwrap(), b.encrypt(b"m").unwrap());
}

#[test]
fn tampered_and_late_messages_are_refused() {
    let session = || EncryptionSession::from_key_iv([1; 32], [2; 8], String::new());
    let (mut enc, mut dec) = (session(), session());
    let first = enc.encrypt(b"one").unwrap();
    let second = enc.encrypt(b"two").unwrap();
    let mut bad = first.clone();
    bad[0] ^= 1;
    assert_eq!(message(dec.decrypt(&bad).unwrap_err()), "AES-GCM decrypt: aead::Error");
    // The failed try was counted: the second message is next.
    assert!(session().decrypt(&second).is_err());
    assert_eq!(dec.decrypt(&second).unwrap(), b"two");
    assert!(dec.decrypt(&first).is_err());
}

#[test]
fn bad_server_keys_say_why() {
    let e = |key: &str| match EncryptionSession::from_handshake(key, b"salt") {
        Ok(_) => panic!("accepted"),
        Err(e) => message(e),
    };
    assert!(e("!").starts_with("server pubkey base64: "));
    assert_eq!(e(&URL_SAFE_NO_PAD.encode([4, 1, 2])), "server pubkey parse: crypto error");
}
