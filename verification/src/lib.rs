//! Verified core of a realtime collaborative spreadsheet backend.
//!
//! The library holds the in-memory collaboration engine: per-cell text
//! editing under short-lived authorship locks, the lock sweeper's tick
//! logic, the per-table broadcast hub ordering model, the session
//! registry, and the JSON wire codec. Transport (WebSocket upgrade,
//! socket reads and writes) and the durable store live outside it.

pub mod cell;
pub mod codec;
pub mod conn;
pub mod hub;
pub mod msg;
pub mod registry;
pub mod runs;
pub mod storage;
pub mod sweeper;
pub mod system;
pub mod table;
