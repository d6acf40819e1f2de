//! Core of a small distributed image-sharing system: a stop-and-wait chunked
//! datagram transport, per-request coordinator election over a priority table,
//! a directory of clients and resources with queued pending rights, a
//! steganographic two-layer carrier with an access-rights row, and a
//! client-side store of remaining views.
//!
//! Everything here is verified; the surrounding process (sockets, files,
//! the database backend, the interactive menu) lives outside the library and
//! exchanges plain values with it.

pub mod carrier;
pub mod config;
pub mod directory;
pub mod dispatch;
pub mod election;
pub mod encoding;
pub mod files;
pub mod kvlist;
pub mod peer;
pub mod rights;
pub mod transport;
