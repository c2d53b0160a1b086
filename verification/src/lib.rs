//! A transparent intermediary for the Redis wire protocol (RESP).
//!
//! The library holds the verified core of the proxy: the incremental wire
//! parser that extracts command names from a byte stream, the statistics
//! collector that tallies commands by uppercased name, the per-connection
//! relay engine that forwards bytes verbatim while observing them, the
//! configuration rules, and the per-connection lifecycle state machine.
//! Sockets, TLS handshakes and the event loop live outside the library and
//! feed it plain byte chunks.

pub mod config;
pub mod frames;
pub mod proxy;
pub mod session;
pub mod resp;
pub mod stats;
pub mod text;
