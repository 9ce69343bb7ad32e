//! Session server core for a two-player tag game: the wire messages, line
//! framing, and the server state that pairs sessions into lobbies and relays
//! position telemetry between lobby members.
pub mod frame;
pub mod ident;
pub mod laws;
pub mod message;
pub mod server;
