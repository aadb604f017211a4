//! A single-threaded line-broadcasting chat server core.
//!
//! The library holds every decision of the server: the connection registry,
//! the line protocol, and the broadcaster with its outbound queues. The event
//! loop that owns the sockets feeds it readiness outcomes and applies the
//! registration changes it reports.

mod outside;

pub mod errors;
pub mod laws;
pub mod model;
pub mod protocol;
pub mod registry;

pub use errors::{interrupted, would_block};
