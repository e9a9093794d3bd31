//! Gilma: a small directory synchronisation tool.
//!
//! The library holds the parts of the client and server that compute:
//! chunk-level delta synchronisation, the encryption engine and its key
//! schedule, the framing of encrypted messages, the line protocol spoken
//! between client and server, and the policy of the connection pool.

pub mod crypto;
pub mod text;
pub mod delta_sync;
pub mod secure_stream;
pub mod protocol;
pub mod server;
pub mod simple_transfer;
pub mod connection_pool;
