//! The values that a PlayStatus packet carries.
use vstd::prelude::*;

verus! {

/// Login successful: the server goes on to send game data.
pub const LOGIN_SUCCESS: i32 = 0;

/// The client's protocol is outdated.
pub const CLIENT_OUTDATED: i32 = 1;

/// The server is full.
pub const SERVER_FULL: i32 = 2;

/// A change of scene; not an outcome of a login.
pub const SPAWN_SCENE: i32 = 3;

} // verus!
