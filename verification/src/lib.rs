//! An embeddable, persistent key-value store built on a log-structured
//! engine: an append-only command log split into generations, an in-memory
//! index from keys to log locations, and a compactor that reclaims dead
//! records.  The crate also holds the request/response protocol of the
//! accompanying network service and the handlers that serve it.
//!
//! The store itself is modelled over in-memory generation logs; the thin
//! surrounding process (files, sockets, threads) mirrors each appended
//! record to disk and feeds the log text back in at startup.

pub mod client;
pub mod codec;
pub mod engine;
pub mod error;
pub mod kv;
pub mod laws;
pub mod net;
pub mod server;
pub mod text;
