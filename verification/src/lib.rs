//! A TLS-terminating blob store: the framing codec, the per-connection state
//! machine, the bounded connection table, and the TTL-aware message store that
//! the connection engine drives.
//!
//! Socket and TLS record I/O live outside this crate; everything here works on
//! plain byte buffers and is verified.

pub mod connection;
pub mod protocol;
pub mod store;
pub mod table;
pub mod wire;
