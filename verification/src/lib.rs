//! The core of a real-time text chat: the wire codec for chat envelopes,
//! the registry of display names, the lossy broadcast hub, the state
//! machine of one connection, and what holds of all connections together.

pub mod text;
pub mod codec;
pub mod registry;
pub mod hub;
pub mod session;
pub mod server;
pub mod client;
