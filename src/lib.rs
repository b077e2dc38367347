//! Server-side WebSocket (RFC 6455) protocol engine: frame codec, opening
//! handshake and the per-connection state machine that an event loop drives.
pub mod bytes_be;
pub mod client;
pub mod frame;
pub mod handshake;
pub mod server;
