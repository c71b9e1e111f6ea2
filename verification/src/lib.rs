//! Server-side session and presence engine for a room-based chat hub.
//!
//! Clients register once and then join named rooms, where text messages are
//! fanned out to every current member. The registry of clients and rooms is
//! the single source of truth; a periodic sweep evicts clients that stopped
//! sending heartbeats. Each client entry owns an outbound queue of serialized
//! messages; the connection layer drains that queue toward the client's
//! physical connection.

pub mod handlers;
pub mod laws;
pub mod message;
pub mod registry;
pub mod sweep;
pub mod wire;

mod clock;
mod ids;
