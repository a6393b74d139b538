//! Verified core of an embedded typed property-graph database: identifier
//! types, the on-disk page and superblock formats, the storage backend
//! traits and the in-memory backend, the buffer pool with clock eviction,
//! B-tree node updates and range cursors, the two-phase commit of new tree
//! roots, configuration, error types, and the inference engine's state
//! (rule registry, result cache, provenance bookkeeping).

pub mod codec;
pub mod text;
pub mod types;
pub mod constraint;
pub mod inference;
pub mod error;
pub mod crc32c;
pub mod keys;
pub mod page;
pub mod backend;
pub mod format;
pub mod snapshot;
pub mod config;
pub mod provenance;
pub mod inference_engine;
pub mod btree;
pub mod buffer_pool;
pub mod commit;
pub mod schema_records;
pub mod overlay;
