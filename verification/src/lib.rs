//! A server-authoritative state-synchronization layer for a 2D top-down game:
//! channel registry, server authority, client-side reconciliation, a render
//! decoupling layer, and the wire codec for control and snapshot payloads.

pub mod arena;
pub mod channels;
pub mod client;
pub mod codec;
pub mod fixed;
pub mod idtable;
pub mod messages;
pub mod protocol;
pub mod render;
pub mod server;
