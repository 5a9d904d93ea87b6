//! The shareable engine facade. A `Bitcask` wraps the store core in a
//! reader/writer lock behind an `Arc`: clones share the same store, reads
//! run concurrently, and writes are serialized. The lock's predicate is
//! the store invariant, so every operation starts from a well-formed
//! store.

use crate::codec::{lemma_encode_len, Cmd, CmdModel};
use crate::store::{apply_log, flatten_logs, valid_input, KvStore, LogFile};
use crate::KvsError;
use std::sync::Arc;
use vstd::prelude::*;
use vstd::rwlock::{RwLock, RwLockPredicate};

verus! {

/// The storage interface the server dispatches to.
pub trait KvsEngine: Clone + Send + 'static {
    /// Bind `key` to `value`, overwriting any previous binding.
    fn set(&self, key: String, value: String) -> Result<(), KvsError>;

    /// Look up the value bound to `key`; `Ok(None)` when it is not bound.
    fn get(&self, key: String) -> Result<Option<String>, KvsError>;

    /// Unbind `key`; `KeyNotFound` when it is not bound.
    fn rm(&self, key: String) -> Result<(), KvsError>;
}

/// The lock predicate for the shared store: whatever is stored is well
/// formed.
pub struct StorePred;

impl RwLockPredicate<KvStore> for StorePred {
    open spec fn inv(self, v: KvStore) -> bool {
        v.wf()
    }
}

/// The concurrent engine: a store core shared through a reader/writer
/// lock. Clones address the same store. The engine remembers, as a
/// ghost view, the contents it was opened over.
#[derive(Clone)]
pub struct Bitcask {
    inner: Arc<RwLock<KvStore, StorePred>>,
    init: Ghost<Map<Seq<char>, Seq<char>>>,
}

impl Bitcask {
    /// The key/value map the engine held at the moment it was opened;
    /// later writes through any clone move the shared store past it.
    pub closed spec fn initial_contents(self) -> Map<Seq<char>, Seq<char>> {
        self.init@
    }

    /// Open an engine over the given log files; see [`KvStore::open`].
    /// Decodable input always opens, and the engine starts from exactly
    /// the replay of that input.
    pub fn open(files: Vec<LogFile>) -> (r: Result<Bitcask, KvsError>)
        ensures
            forall|logs: Seq<Seq<CmdModel>>|
                #[trigger] valid_input(files.deep_view(), logs) ==> r is Ok,
            forall|logs: Seq<Seq<CmdModel>>|
                #[trigger] valid_input(files.deep_view(), logs) ==> (r matches Result::Ok(b)
                    && b.initial_contents() == apply_log(Map::empty(), flatten_logs(logs))),
    {
        match KvStore::open(files) {
            Result::Ok(s) => {
                let ghost init = s.contents();
                Result::Ok(
                    Bitcask { inner: Arc::new(RwLock::new(s, Ghost(StorePred))), init: Ghost(init) },
                )
            },
            Result::Err(e) => Result::Err(e),
        }
    }

    /// A copy of the log files, for mirroring to disk.
    pub fn snapshot(&self) -> (r: Vec<LogFile>) {
        let handle = self.inner.acquire_read();
        let r = handle.borrow().snapshot();
        handle.release_read();
        r
    }

    /// The total size of the log files.
    pub fn disk_size(&self) -> (n: u64) {
        let handle = self.inner.acquire_read();
        let n = handle.borrow().disk_size();
        handle.release_read();
        n
    }

    fn do_set(&self, key: String, value: String) -> (r: Result<(), KvsError>)
        ensures
            r is Ok || (r matches Result::Err(KvsError::StringError(_))),
    {

        let (mut s, handle) = self.inner.acquire_write();
        let cmd = Cmd::set(key.clone(), value.clone());
        let enc = crate::codec::encode_cmd(&cmd);
        let el = enc.len() as u64;
        proof {
            lemma_encode_len(cmd@);
        }
        let r = if s.disk_size() <= u64::MAX - el && s.cur_fid() <= u64::MAX - 2 {
            s.set(key, value)
        } else {
            Result::Err(KvsError::StringError("log exceeds addressable size".to_owned()))
        };
        handle.release_write(s);
        r
    }

    fn do_get(&self, key: String) -> (r: Result<Option<String>, KvsError>)
        ensures
            r is Ok,
    {
        let handle = self.inner.acquire_read();
        let r = handle.borrow().get(key);
        handle.release_read();
        r
    }

    fn do_rm(&self, key: String) -> (r: Result<(), KvsError>)
        ensures
            r is Ok || (r matches Result::Err(KvsError::KeyNotFound)) || (r matches Result::Err(
                KvsError::StringError(_),
            )),
    {
        let (mut s, handle) = self.inner.acquire_write();
        let cmd = Cmd::rm(key.clone());
        let enc = crate::codec::encode_cmd(&cmd);
        let el = enc.len() as u64;
        proof {
            lemma_encode_len(cmd@);
        }
        let r = if s.disk_size() <= u64::MAX - el && s.cur_fid() <= u64::MAX - 2 {
            s.remove(key)
        } else {
            Result::Err(KvsError::StringError("log exceeds addressable size".to_owned()))
        };
        handle.release_write(s);
        r
    }
}

impl KvsEngine for Bitcask {
    /// Serialize the write through the lock; the store core's contract
    /// guarantees the new binding. Fails only when the log would exceed
    /// the addressable size.
    fn set(&self, key: String, value: String) -> (r: Result<(), KvsError>)
        ensures
            r is Ok || (r matches Result::Err(KvsError::StringError(_))),
    {
        self.do_set(key, value)
    }

    /// Read under a shared lock; never fails on a well-formed store.
    fn get(&self, key: String) -> (r: Result<Option<String>, KvsError>)
        ensures
            r is Ok,
    {
        self.do_get(key)
    }

    /// Serialize the removal through the lock. Fails only when the key
    /// is missing or the log would exceed the addressable size.
    fn rm(&self, key: String) -> (r: Result<(), KvsError>)
        ensures
            r is Ok || (r matches Result::Err(KvsError::KeyNotFound)) || (r matches Result::Err(
                KvsError::StringError(_),
            )),
    {
        self.do_rm(key)
    }
}

} // verus!
