//! A persistent key-value store built around an append-only command log.
//!
//! The storage engine keeps the log's characters in memory together with an
//! index from each live key to the position of its latest record; callers that
//! persist the log to disk write exactly the characters held here, so every
//! property proved about the in-memory log holds of the file as well.

pub mod codec;
pub mod engine;
pub mod error;
pub mod laws;
pub mod recovery;
pub mod sled_engine;
pub mod store;
pub mod thread_pool;

pub use codec::Command;
pub use engine::KvsEngine;
pub use error::KvError;
pub use sled_engine::SledKvsEngine;
pub use store::KvStore;
pub use thread_pool::NaiveThreadPool;

use vstd::prelude::*;

verus! {

/// Name of the log file used by callers that persist the log.
pub const LOGFILENAM: &'static str = "kvs.log";

} // verus!
