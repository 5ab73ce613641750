//! Minecraft server queries: the wire formats of the Java status protocol and of Bedrock's RakNet
//! transport, and the rules that drive a session over them.
//!
//! Nothing here opens a socket, reads a clock or prints. A caller hands in what arrived and when,
//! and gets back what to send or show.

pub mod addr;
pub mod base64url;
pub mod bedrock;
pub mod bytes;
pub mod cli;
pub mod error;
pub mod java;
pub mod json;
pub mod leb128;
pub mod text;
pub mod varint;

pub use error::PingError;
