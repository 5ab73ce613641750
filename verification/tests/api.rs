//! The public paths, and the text of errors.
use mcget::PingError;

#[test]
fn public_api_compiles() {
    let _ = std::any::TypeId::of::<mcget::PingError>();
    let _ = std::any::TypeId::of::<mcget::java::StatusResponse>();
    let _ = std::any::TypeId::of::<mcget::bedrock::PongResponse>();
    let _ = std::any::TypeId::of::<mcget::java::Client>();
    let _ = std::any::TypeId::of::<mcget::bedrock::Client>();
}

#[test]
fn errors_name_their_kind() {
    let e = PingError::Protocol("bad byte".to_string());
    assert_eq!(e.message(), "protocol error: bad byte");
    let io = std::io::Error::new(std::io::ErrorKind::Other, "broken");
    assert_eq!(PingError::Io(io).message(), "network I/O error: broken");
    let json = serde_json::from_str::<u8>("x").unwrap_err();
    let expected = format!("JSON error: {json}");
    assert_eq!(PingError::Json(json).message(), expected);
}

#[test]
fn default_ports() {
    assert_eq!(mcget::java::DEFAULT_PORT, 25565);
    assert_eq!(mcget::bedrock::DEFAULT_PORT, 19132);
}
