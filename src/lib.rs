//! An append-only message broker library: the on-disk record and index
//! formats, the per-topic segment store, the wire protocol, the broker
//! registry policy, configuration sizes and the retention sweep.

pub mod codec;
pub mod store;
pub mod config;
pub mod protocol;
pub mod registry;
pub mod transfer;
pub mod layout;
pub mod retention;
