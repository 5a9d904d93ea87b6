//! A log-structured key/value store in the Bitcask style.
//!
//! Commands (`Set`, `Rm`) are appended to generation log files; an in-memory
//! index maps each live key to the byte range of the command that set it.
//! Compaction copies the live commands into a fresh generation and retires
//! the stale files. The store core keeps the log files as in-memory
//! character buffers; callers mirror them to disk.

use vstd::prelude::*;

pub mod codec;
pub mod engine;
pub mod index;
pub mod names;
pub mod resp;
pub mod server;
pub mod store;
pub mod thread_pool;
mod strutil;

pub use engine::{Bitcask, KvsEngine};
pub use index::CmdPos;
pub use server::KvsServer;
pub use names::log_path;
pub use store::{KvStore, LogFile};

verus! {

/// Error kinds surfaced by the store and its front ends.
#[derive(Debug, Clone)]
pub enum KvsError {
    /// Underlying file or network failure, reported by the caller's I/O layer.
    Io(String),
    /// Malformed on-disk record or wire frame.
    Serde(String),
    /// `remove` was called for a key that is not present.
    KeyNotFound,
    /// A log range referenced by the index did not decode to a `Set` command.
    Unknown,
    /// Other error, described by a message.
    StringError(String),
}

/// The message text of each error kind.
pub open spec fn spec_message(e: KvsError) -> Seq<char> {
    match e {
        KvsError::Io(s) => s@,
        KvsError::Serde(s) => s@,
        KvsError::KeyNotFound => "Key not found"@,
        KvsError::Unknown => "Unexpected command type"@,
        KvsError::StringError(s) => s@,
    }
}

impl KvsError {
    /// A human-readable description of the error: the carried message,
    /// or the fixed phrase of the variant.
    pub fn message(&self) -> (m: String)
        ensures
            m@ == spec_message(*self),
    {
        match self {
            KvsError::Io(s) => s.clone(),
            KvsError::Serde(s) => s.clone(),
            KvsError::KeyNotFound => "Key not found".to_owned(),
            KvsError::Unknown => "Unexpected command type".to_owned(),
            KvsError::StringError(s) => s.clone(),
        }
    }
}

} // verus!
