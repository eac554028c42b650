//! A WebSocket-style messaging server core carried over QUIC.
//!
//! The crate holds the verified heart of the server: the RFC 6455 frame
//! codec used by the HTTP/3 dispatcher, the native length-prefixed binary
//! message codec, the session registry with admission and subscriptions,
//! and the message-handler state machine. Network I/O, TLS setup and the
//! event loops live outside the library and call into it with plain values.

pub mod bytes_be;
pub mod client;
pub mod close_codes;
pub mod codec;
pub mod error_codes;
pub mod h3_server;
pub mod handler;
pub mod message;
pub mod text;
pub mod websocket;

use vstd::prelude::*;

verus! {

/// Default protocol version expected in a native handshake.
pub const PROTOCOL_VERSION: &'static str = "1.0";

/// Largest native message payload accepted on a stream, in bytes (1 MiB).
pub const DEFAULT_MAX_MESSAGE_SIZE: u32 = 1048576;

/// Default cap on concurrently admitted sessions.
pub const DEFAULT_MAX_CLIENTS: usize = 1000;

} // verus!
