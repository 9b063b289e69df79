//! An embeddable key-value store with durability through a write-ahead log,
//! an in-memory index for fast reads, snapshot persistence, and change
//! notifications delivered over per-subscriber channels.
//!
//! The library is the verified core: it holds the authoritative mapping, the
//! byte-level log and snapshot formats, and the coordination rules between
//! them. File and thread handling is left to the embedding host, which feeds
//! the library the bytes it read and persists the bytes the library returns.

mod codec;
mod engine;
mod errors;
mod kv;
mod kvmap;
mod ops;
mod subscriber;
mod wal;

pub use codec::{
    lemma_parse_canonical, lemma_parse_payload_of, lemma_wal_append, lemma_wal_round_trip,
    op_encodable, parse_payload, payload_of, record_of, views_of, wal_bytes_of, wal_ops, wal_wf,
};
pub use engine::{
    lemma_apply_puts, map_encodable, put_views, FileStorageEngine, InMemoryStorageEngine,
    StorageEngine,
};
pub use errors::DbError;
pub use kv::{lemma_recovery_reconstructs, Database, DatabaseConfig};
pub use kvmap::{distinct_keys, entry_map, KvMap};
pub use ops::{
    apply_op, apply_ops, disjoint_puts, last_write, lemma_apply_ops_pointwise,
    lemma_apply_ops_push, lemma_disjoint_puts_all_present, lemma_replay_idempotent, op_key,
    ChangeEvent, EventView, OpView, Operation,
};
pub use subscriber::{EventBus, SubscriptionHandle};
pub use wal::WriteAheadLog;
