//! Offline login.
use base64::engine::general_purpose::URL_SAFE_NO_PAD;
use base64::Engine;
use mcget::bedrock::login::{
    build_offline_connection_request, default_offline_connection_request, login_packet, play_status,
    request_network_settings_packet, IdentityData, NetworkSettings, PlayStatus,
    RequestNetworkSettings, ServerHandshake,
};
use mcget::bedrock::protocol::{
    read_varint32, read_varuint32, write_varuint32, ID_LOGIN, ID_REQUEST_NETWORK_SETTINGS,
};

/// A JSON object with text members.
fn object(members: &[(&str, String)]) -> serde_json::Value {
    let mut m = serde_json::Map::new();
    for (k, v) in members {
        m.insert(k.to_string(), serde_json::Value::String(v.clone()));
    }
    serde_json::Value::Object(m)
}

#[test]
fn request_network_settings_round_trip() {
    let p = RequestNetworkSettings { protocol: 685 };
    let payload = p.encode_payload();
    let back = RequestNetworkSettings::decode_payload(&payload).unwrap();
    assert_eq!(back, p);
}

#[test]
fn request_network_settings_packet_has_correct_id() {
    let pkt = request_network_settings_packet(685);
    assert_eq!(pkt.id, ID_REQUEST_NETWORK_SETTINGS);
}

#[test]
fn network_settings_decode() {
    // Hand-build: threshold=256, algorithm=0(flate), throttle=false,
    // threshold=0, scalar=0.0.
    let mut data = Vec::new();
    data.extend_from_slice(&256u16.to_be_bytes());
    data.extend_from_slice(&0u16.to_be_bytes());
    data.push(0); // throttle false
    data.push(0); // throttle threshold
    data.extend_from_slice(&0f32.to_be_bytes());
    let ns = NetworkSettings::decode_payload(&data).unwrap();
    assert_eq!(ns.compression_threshold, 256);
    assert_eq!(ns.compression_algorithm, 0);
    assert!(!ns.client_throttle);
}

#[test]
fn play_status_decode_login_success() {
    let data = play_status::LOGIN_SUCCESS.to_be_bytes();
    let ps = PlayStatus::decode_payload(&data).unwrap();
    assert_eq!(ps.status, play_status::LOGIN_SUCCESS);
}

#[test]
fn login_packet_structure() {
    // Login payload: protocol(varint32) | varuint32(conn_req_len) | conn_req.
    let conn_req = vec![0xab, 0xcd, 0xef];
    let pkt = login_packet(685, conn_req.clone());
    assert_eq!(pkt.id, ID_LOGIN);
    // Decode it back by hand.
    let p = &pkt.payload;
    let (proto, n1) = read_varint32(p).unwrap();
    assert_eq!(proto, 685);
    let (len, n2) = read_varuint32(&p[n1..]).unwrap();
    assert_eq!(len as usize, conn_req.len());
    assert_eq!(&p[n1 + n2..n1 + n2 + conn_req.len()], &conn_req[..]);
}

#[test]
fn offline_connection_request_is_well_formed() {
    // Build a default offline chain and verify it parses back as JSON.
    let req = default_offline_connection_request(0xAD).unwrap();
    // chain_len | chain_json | client_jwt_len | client_jwt
    let (chain_len, n1) = read_varuint32(&req).unwrap();
    let chain_json: serde_json::Value =
        serde_json::from_slice(&req[n1..n1 + chain_len as usize]).unwrap();
    let chain = chain_json["chain"].as_array().unwrap();
    assert!(!chain.is_empty(), "offline chain has at least one JWT");
    // The identity JWT must have three dot-separated parts.
    let jwt_str = chain[0].as_str().unwrap();
    let parts: Vec<&str> = jwt_str.split('.').collect();
    assert_eq!(parts.len(), 3, "JWT has header.payload.signature");

    let (client_len, n2) = read_varuint32(&req[n1 + chain_len as usize..]).unwrap();
    let client_jwt = &req[n1 + chain_len as usize + n2..];
    assert_eq!(client_jwt.len(), client_len as usize);
    let client_str = std::str::from_utf8(client_jwt).unwrap();
    let client_parts: Vec<&str> = client_str.split('.').collect();
    assert_eq!(client_parts.len(), 3);
}

#[test]
fn server_handshake_decodes_jwt() {
    // Build a JWT with a known x5u and salt.
    let salt = b"my-salt-bytes";
    let header = object(&[("alg", "ES384".to_string()), ("x5u", "FAKEPUBKEY".to_string())]);
    let payload = object(&[("salt", URL_SAFE_NO_PAD.encode(salt))]);
    let header_b64 = URL_SAFE_NO_PAD.encode(serde_json::to_vec(&header).unwrap());
    let payload_b64 = URL_SAFE_NO_PAD.encode(serde_json::to_vec(&payload).unwrap());
    let jwt = format!("{header_b64}.{payload_b64}.");
    let hs = ServerHandshake::decode_jwt(&jwt).unwrap();
    assert_eq!(hs.server_public_key_b64, "FAKEPUBKEY");
    assert_eq!(hs.salt, salt);
}

#[test]
fn server_handshake_decode_payload_round_trips() {
    let salt = b"salt";
    let header_b64 = URL_SAFE_NO_PAD.encode(object(&[("x5u", "PK".to_string())]).to_string());
    let payload_b64 = URL_SAFE_NO_PAD
        .encode(object(&[("salt", URL_SAFE_NO_PAD.encode(salt))]).to_string());
    let jwt = format!("{header_b64}.{payload_b64}.");
    // varuint32(len) + jwt
    let mut payload = write_varuint32(jwt.len() as u32);
    payload.extend_from_slice(jwt.as_bytes());
    let hs = ServerHandshake::decode_payload(&payload).unwrap();
    assert_eq!(hs.server_public_key_b64, "PK");
    assert_eq!(hs.salt, salt);
}

#[test]
fn offline_chain_carries_identity_data() {
    let identity = IdentityData {
        xuid: String::new(),
        identity: "deadbeef".to_string(),
        display_name: "test".to_string(),
    };
    let req = build_offline_connection_request(1, identity.clone()).unwrap();
    let (chain_len, n1) = read_varuint32(&req).unwrap();
    let chain_json: serde_json::Value =
        serde_json::from_slice(&req[n1..n1 + chain_len as usize]).unwrap();
    let jwt_str = chain_json["chain"][0].as_str().unwrap();
    // Decode the payload (second segment) and check extraData.
    let payload_b64 = jwt_str.split('.').nth(1).unwrap();
    let payload_bytes = URL_SAFE_NO_PAD.decode(payload_b64).unwrap();
    let payload: serde_json::Value = serde_json::from_slice(&payload_bytes).unwrap();
    assert_eq!(payload["extraData"]["identity"], "deadbeef");
    assert_eq!(payload["extraData"]["displayName"], "test");
}
