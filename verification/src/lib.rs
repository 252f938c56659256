//! Verified core of the Braid synchronisation toolkit: pruneable sequence
//! CRDTs, merge types, version bookkeeping and the helpers around them.

pub mod collections;
pub mod sequence_crdt;
pub mod text;
pub mod json_crdt;
pub mod diamond;
pub mod server;
pub mod layout;
pub mod mapping;
pub mod fs_state;
pub mod antimatter;
pub mod prune;
pub mod messaging;
pub mod blob_names;
pub mod merge;
pub mod simpleton;
pub mod rate_limiter;
pub mod diamond_merge;
pub mod antimatter_merge;
pub mod resource;
pub mod diff;
pub mod sync_rules;
pub mod blob_store;
pub mod local_sync;
