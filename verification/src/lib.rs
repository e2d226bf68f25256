//! Verified core of a small web console that manages Minecraft (Paper) servers:
//! the password list and session tokens, the cache of server builds, the
//! ordering of versions, paths of installations and the state of a server.
pub mod text;
pub mod digest;
pub mod auth;
pub mod paths;
pub mod server;
pub mod manager;
pub mod console;
