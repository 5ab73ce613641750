//! Unconnected pings and pongs.
use std::time::Duration;

use mcget::addr::{SocketAddr, SocketAddrV4};
use mcget::bedrock::ping::{parse_pong, parse_server_id_string, ID_UNCONNECTED_PONG};
use mcget::bedrock::{Client, MAGIC};

#[test]
fn parse_nethergames_style_server_id_string() {
    // Real NetherGames response (13 fields, full official standard order).
    let raw = "MCPE;𝗡𝗚: 𝟭𝟬𝘁𝗵 𝗔𝗻𝗻𝗶𝘃𝗲𝗿𝘀𝗮𝗿𝘆 ♛;975;1.26.20;304;309;2207098668697635884;NetherGames;Creative;1;19132;19132;0;";
    let r = parse_server_id_string(raw, Duration::ZERO).unwrap();
    assert_eq!(r.edition, "MCPE");
    assert_eq!(r.motd, "𝗡𝗚: 𝟭𝟬𝘁𝗵 𝗔𝗻𝗻𝗶𝘃𝗲𝗿𝘀𝗮𝗿𝘆 ♛");
    assert_eq!(r.protocol_version, 975);
    assert_eq!(r.version_name, "1.26.20");
    assert_eq!(r.player_count, 304);
    assert_eq!(r.max_players, 309);
    assert_eq!(r.server_id_field, "2207098668697635884");
    assert_eq!(r.second_motd, "NetherGames");
    assert_eq!(r.gamemode, "Creative");
    assert_eq!(r.gamemode_numeric, 1);
    assert_eq!(r.port_ipv4, 19132);
    assert_eq!(r.port_ipv6, 19132);
}

#[test]
fn parse_hive_style_server_id_string() {
    // Real Hive response (9 fields, omitting trailing gamemode numeric / port / ipv6).
    let raw =
        "MCPE;EGG HUNT | BEDWARS;121;1.0;15563;100001;-3029535197259639200;Hive Games;Survival";
    let r = parse_server_id_string(raw, Duration::ZERO).unwrap();
    assert_eq!(r.edition, "MCPE");
    assert_eq!(r.motd, "EGG HUNT | BEDWARS");
    assert_eq!(r.protocol_version, 121);
    assert_eq!(r.version_name, "1.0");
    assert_eq!(r.player_count, 15563);
    assert_eq!(r.max_players, 100001);
    assert_eq!(r.server_id_field, "-3029535197259639200");
    assert_eq!(r.second_motd, "Hive Games");
    assert_eq!(r.gamemode, "Survival");
    // Omitted fields should be defaults.
    assert_eq!(r.gamemode_numeric, 0);
    assert_eq!(r.port_ipv4, 0);
}

#[test]
fn parse_full_standard_layout() {
    // Full official standard, 12 fields (with trailing semicolon).
    let raw =
        "MCPE;§aMy Server;685;1.21.80;42;100;13251324523;§eSecond line;Survival;0;19132;19133;";
    let r = parse_server_id_string(raw, Duration::ZERO).unwrap();
    assert_eq!(r.edition, "MCPE");
    assert_eq!(r.motd, "§aMy Server");
    assert_eq!(r.protocol_version, 685);
    assert_eq!(r.version_name, "1.21.80");
    assert_eq!(r.player_count, 42);
    assert_eq!(r.max_players, 100);
    assert_eq!(r.gamemode, "Survival");
    assert_eq!(r.gamemode_numeric, 0);
    assert_eq!(r.port_ipv4, 19132);
    assert_eq!(r.port_ipv6, 19133);
}

#[test]
fn parse_partial_server_id_string_does_not_panic() {
    // Should return safely when fields are missing; missing fields get defaults.
    let raw = "MCPE;Hello;1;1.0;0;20";
    let r = parse_server_id_string(raw, Duration::ZERO).unwrap();
    assert_eq!(r.motd, "Hello");
    assert_eq!(r.protocol_version, 1);
    assert_eq!(r.player_count, 0);
    assert_eq!(r.max_players, 20);
    assert_eq!(r.gamemode, "");
    assert_eq!(r.port_ipv4, 0);
}

#[test]
fn parse_full_pong_packet() {
    // Build a complete 0x1c pong byte stream (official standard field order).
    let server_id = "MCPE;MOTD;685;1.21.80;5;20;12345;MOTD2;Survival;0;19132;19133;";
    let mut buf = Vec::new();
    buf.push(ID_UNCONNECTED_PONG);
    buf.extend_from_slice(&123456789i64.to_be_bytes()); // time
    buf.extend_from_slice(&987654321i64.to_be_bytes()); // server guid
    buf.extend_from_slice(&MAGIC);
    let len = server_id.len() as u16;
    buf.extend_from_slice(&len.to_be_bytes());
    buf.extend_from_slice(server_id.as_bytes());

    let r = parse_pong(&buf, Duration::from_millis(50)).unwrap();
    assert_eq!(r.time, 123456789);
    assert_eq!(r.server_guid, 987654321);
    assert_eq!(r.edition, "MCPE");
    assert_eq!(r.motd, "MOTD");
    assert_eq!(r.protocol_version, 685);
    assert_eq!(r.player_count, 5);
    assert_eq!(r.max_players, 20);
    assert_eq!(r.gamemode, "Survival");
    assert_eq!(r.gamemode_numeric, 0);
    assert_eq!(r.port_ipv4, 19132);
    assert_eq!(r.port_ipv6, 19133);
    assert_eq!(r.latency, Duration::from_millis(50));
}

#[test]
fn rejects_bad_magic() {
    let mut buf = Vec::new();
    buf.push(ID_UNCONNECTED_PONG);
    buf.extend_from_slice(&0i64.to_be_bytes());
    buf.extend_from_slice(&0i64.to_be_bytes());
    buf.extend_from_slice(&[0u8; 16]); // wrong magic
    buf.extend_from_slice(&0u16.to_be_bytes());
    assert!(parse_pong(&buf, Duration::ZERO).is_err());
}

#[test]
fn rejects_wrong_packet_id() {
    let mut buf = vec![0x00u8]; // wrong ID
    buf.resize(40, 0);
    assert!(parse_pong(&buf, Duration::ZERO).is_err());
}

#[test]
fn client_guid_builder_chain() {
    let client = Client::new().client_guid(42);
    let req = client.ping(vec![SocketAddr::V4(SocketAddrV4::new(127, 0, 0, 1, 19132))]).unwrap();
    assert_eq!(req.client_guid, 42);
}

#[test]
fn client_default_guid_is_zero() {
    let client = Client::new();
    let req = client.ping(vec![SocketAddr::V4(SocketAddrV4::new(127, 0, 0, 1, 19132))]).unwrap();
    assert_eq!(req.client_guid, 0);
}
