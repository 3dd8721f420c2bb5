//! Server-side core of a telemetry and profiling infrastructure: a
//! time-indexed chunked store with disk spill, a string interning pool,
//! and the decision logic of the shared-memory poller.

pub mod common;
pub mod memdb;
pub mod memdb_lemmas;
pub mod server_info;
pub mod shmem_poller;
pub mod stoppable_thread;
pub mod string_collection;
