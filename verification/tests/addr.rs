//! Address strings and the hosts they name.
use mcget::addr::{parse_host_port, HostAddr, SocketAddr, SocketAddrV4};

#[test]
fn parse_plain_host_no_port() {
    assert_eq!(
        parse_host_port("mc.hypixel.net", 25565),
        ("mc.hypixel.net".into(), 25565)
    );
}

#[test]
fn parse_host_with_port() {
    assert_eq!(
        parse_host_port("play.cubecraft.net:25565", 25565),
        ("play.cubecraft.net".into(), 25565)
    );
    assert_eq!(
        parse_host_port("example.com:1234", 25565),
        ("example.com".into(), 1234)
    );
}

#[test]
fn parse_ipv6_bracketed_with_port() {
    assert_eq!(parse_host_port("[::1]:25565", 25565), ("::1".into(), 25565));
    assert_eq!(
        parse_host_port("[2001:db8::1]:19132", 25565),
        ("2001:db8::1".into(), 19132)
    );
}

#[test]
fn parse_ipv6_bracketed_no_port() {
    assert_eq!(parse_host_port("[::1]", 25565), ("::1".into(), 25565));
    assert_eq!(
        parse_host_port("[2001:db8::1]", 19132),
        ("2001:db8::1".into(), 19132)
    );
}

#[test]
fn parse_bare_ipv6_treated_as_no_port() {
    // A bare IPv6 (no brackets) cannot be identified as having a port, so
    // per the Minecraft convention it is treated as port-less.
    assert_eq!(parse_host_port("::1", 25565), ("::1".into(), 25565));
    assert_eq!(
        parse_host_port("2001:db8::1", 25565),
        ("2001:db8::1".into(), 25565)
    );
}

#[test]
fn parse_ipv4_with_port() {
    assert_eq!(
        parse_host_port("127.0.0.1:8080", 25565),
        ("127.0.0.1".into(), 8080)
    );
}

#[test]
fn parse_ipv4_no_port() {
    assert_eq!(
        parse_host_port("127.0.0.1", 25565),
        ("127.0.0.1".into(), 25565)
    );
}

#[test]
fn host_string_for_tuple() {
    assert_eq!(("mc.hypixel.net", 25565).host_string(), "mc.hypixel.net");
}

#[test]
fn host_string_for_str_with_port() {
    assert_eq!(
        "play.cubecraft.net:25565".host_string(),
        "play.cubecraft.net"
    );
    assert_eq!("example.com:1234".host_string(), "example.com");
}

#[test]
fn host_string_for_str_no_port() {
    assert_eq!("mc.hypixel.net".host_string(), "mc.hypixel.net");
}

#[test]
fn host_string_for_ipv6_bracketed() {
    assert_eq!("[::1]:25565".host_string(), "::1");
    assert_eq!("[2001:db8::1]:19132".host_string(), "2001:db8::1");
    assert_eq!("[::1]".host_string(), "::1");
}

#[test]
fn host_string_for_bare_ipv6() {
    assert_eq!("::1".host_string(), "::1");
}

#[test]
fn host_string_for_socketaddr() {
    let sa = SocketAddr::V4(SocketAddrV4::new(127, 0, 0, 1, 25565));
    assert_eq!(sa.host_string(), "127.0.0.1");
}

#[test]
fn resolve_localhost_default_port() {
    // localhost is to be resolved with the default port.
    let (host, port) = "localhost".resolve_target(25565);
    assert_eq!(host, "localhost");
    assert_eq!(port, 25565);
}

#[test]
fn resolve_localhost_explicit_port() {
    let (host, port) = "localhost:12345".resolve_target(25565);
    assert_eq!(host, "localhost");
    assert_eq!(port, 12345);
}

#[test]
fn resolve_ipv4_literal() {
    let (host, port) = "127.0.0.1:8080".resolve_target(25565);
    assert_eq!(host, "127.0.0.1");
    assert_eq!(port, 8080);
}
