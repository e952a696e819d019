//! Market-data polling and pub/sub broadcast core.
//!
//! The library aggregates market orders pulled page by page from a remote
//! listing into per-item-type order books, keeps a registry of connected
//! subscribers with their channel subscriptions, and drives the periodic
//! polling schedule of one worker per region.  Transport concerns (the HTTP
//! client, the realtime connection, JSON encoding) live outside; the library
//! works on plain values handed in from that edge.

pub mod handler;
pub mod logging;
pub mod orders;
pub mod protocol;
pub mod registry;
pub mod text;
pub mod worker;
