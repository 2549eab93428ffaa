//! Task-scoped, checkpointable state for stream operators.
//!
//! A [`StateStore`] owns one durable backend and a registry of table caches.
//! Tables are materialised on first access, mutated purely in memory, and
//! flushed to the backend as deltas when a checkpoint barrier arrives.
//! Keys and values are opaque byte strings; event times are microseconds
//! since the Unix epoch.

pub mod backend;
pub mod bytes;
pub mod catalog;
pub mod compaction;
pub mod descriptor;
pub mod error;
pub mod hashing;
pub mod memory;
pub mod metadata;
pub mod operation;
pub mod protocol;
pub mod replay;
pub mod store;
pub mod tables;

pub use crate::backend::BackingStore;
pub use crate::catalog::CheckpointCatalog;
pub use crate::descriptor::{
    global_table, timestamp_table, TableDeleteBehavior, TableDescriptor, TableWriteBehavior,
};
pub use crate::error::{StateError, TableType, TypeTag};
pub use crate::hashing::hash_key;
pub use crate::memory::MemoryBackend;
pub use crate::metadata::{
    CheckpointBarrier, CheckpointMetadata, CompactionResult, OperatorCheckpointMetadata, TaskInfo,
};
pub use crate::operation::{DataOperation, DataTuple};
pub use crate::protocol::{checkpoint_with, CheckpointCycle, CheckpointPhase};
pub use crate::store::{tables_valid, StateStore};
