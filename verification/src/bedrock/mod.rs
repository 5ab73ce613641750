//! Minecraft Bedrock edition: RakNet discovery, handshake and connected transport.
use vstd::prelude::*;

pub mod conn;
pub mod datagram;
pub mod delivery;
pub mod encryption;
pub mod login;
pub mod message;
pub mod ordering;
pub mod ping;
pub mod play_status;
pub mod protocol;
pub mod raknet;
pub mod reliability;
pub mod reliable_conn;
pub mod window;

pub use ping::{Client, PongResponse, RequestBuilder};
pub use raknet::MAGIC;

verus! {

/// Default port of Bedrock servers.
pub const DEFAULT_PORT: u16 = 19132;

} // verus!
