//! The server core: an engine paired with a worker pool, and the handler
//! that turns one decoded request into one reply. The TCP accept loop and
//! the socket I/O live with the caller; per connection, requests are
//! decoded in order and each is served by [`handle_request`].

use crate::engine::KvsEngine;
use crate::resp::{Reply, ReplyModel, ReqModel, Request};
use crate::spec_message;
use crate::thread_pool::WorkerPool;
use crate::KvsError;
use vstd::prelude::*;

verus! {

/// A key/value server: a shareable engine and the pool that runs one job
/// per connection.
pub struct KvsServer<E: KvsEngine, P: WorkerPool> {
    engine: E,
    pool: P,
}

impl<E: KvsEngine, P: WorkerPool> KvsServer<E, P> {
    /// The engine the server was built with.
    pub closed spec fn spec_engine(self) -> E {
        self.engine
    }

    /// The pool the server was built with.
    pub closed spec fn spec_pool(self) -> P {
        self.pool
    }

    /// Pair an engine with a worker pool.
    pub fn new(engine: E, pool: P) -> (s: KvsServer<E, P>)
        ensures
            s.spec_engine() == engine,
            s.spec_pool() == pool,
    {
        KvsServer { engine, pool }
    }

    /// A clone of the engine, for one connection's worker.
    pub fn engine(&self) -> E {
        self.engine.clone()
    }

    /// Run `job` on the pool. Like [`WorkerPool::spawn`], the job must
    /// be callable unconditionally.
    pub fn spawn<F: FnOnce() + Send + 'static>(&self, job: F)
        requires
            job.requires(()),
    {
        self.pool.spawn(job)
    }

    /// Hand the engine and pool back to the caller.
    pub fn into_parts(self) -> (r: (E, P))
        ensures
            r.0 == self.spec_engine(),
            r.1 == self.spec_pool(),
    {
        (self.engine, self.pool)
    }
}

/// The reply that mirrors one `get` result: the value when one was
/// found, nothing on a miss, and the error's message on failure.
pub open spec fn get_reply(res: Result<Option<String>, KvsError>, r: ReplyModel) -> bool {
    match res {
        Result::Ok(o) => match o {
            Option::Some(v) => r == (ReplyModel::Value { value: v@ }),
            Option::None => r == ReplyModel::Nothing,
        },
        Result::Err(e) => r == (ReplyModel::Failure { message: spec_message(e) }),
    }
}

/// The reply that mirrors one `set` or `rm` result: a bare
/// acknowledgement on success, the error's message on failure.
pub open spec fn ack_reply(res: Result<(), KvsError>, r: ReplyModel) -> bool {
    match res {
        Result::Ok(u) => r == ReplyModel::Nothing,
        Result::Err(e) => r == (ReplyModel::Failure { message: spec_message(e) }),
    }
}

/// Serve one request against the engine. Exactly one matching engine
/// call is made — `Get{k}` calls `get(k)`, `Set{k,v}` calls `set(k,v)`,
/// `Rm{k}` calls `rm(k)` — and the reply is the exact image of that
/// call's result: the value or nothing on success, a failure carrying
/// the error's message otherwise.
pub fn handle_request<E: KvsEngine>(engine: &E, req: Request) -> (r: Reply)
    ensures
        match req@ {
            ReqModel::Get { key } => exists|ks: String, res: Result<Option<String>, KvsError>|
                ks@ == key && #[trigger] call_ensures(E::get, (engine, ks), res) && get_reply(
                    res,
                    r@,
                ),
            ReqModel::Put { key, value } => exists|
                ks: String,
                vs: String,
                res: Result<(), KvsError>,
            |
                ks@ == key && vs@ == value && #[trigger] call_ensures(E::set, (engine, ks, vs), res)
                    && ack_reply(res, r@),
            ReqModel::Rm { key } => exists|ks: String, res: Result<(), KvsError>|
                ks@ == key && #[trigger] call_ensures(E::rm, (engine, ks), res) && ack_reply(
                    res,
                    r@,
                ),
        },
        (req@ matches ReqModel::Put { .. }) ==> !(r@ matches ReplyModel::Value { .. }),
        (req@ matches ReqModel::Rm { .. }) ==> !(r@ matches ReplyModel::Value { .. }),
{
    match req {
        Request::Get { key } => {
            let res = engine.get(key);
            let ghost gres = res;
            let reply = match res {
                Result::Ok(v) => match v {
                    Option::Some(value) => Reply::Value { value },
                    Option::None => Reply::Nothing,
                },
                Result::Err(e) => Reply::Failure { message: e.message() },
            };
            proof {
                assert(call_ensures(E::get, (engine, key), gres));
                assert(get_reply(gres, reply@));
            }
            reply
        },
        Request::Put { key, value } => {
            let res = engine.set(key, value);
            let ghost gres = res;
            let reply = match res {
                Result::Ok(u) => Reply::Nothing,
                Result::Err(e) => Reply::Failure { message: e.message() },
            };
            proof {
                assert(call_ensures(E::set, (engine, key, value), gres));
                assert(ack_reply(gres, reply@));
            }
            reply
        },
        Request::Rm { key } => {
            let res = engine.rm(key);
            let ghost gres = res;
            let reply = match res {
                Result::Ok(u) => Reply::Nothing,
                Result::Err(e) => Reply::Failure { message: e.message() },
            };
            proof {
                assert(call_ensures(E::rm, (engine, key), gres));
                assert(ack_reply(gres, reply@));
            }
            reply
        },
    }
}

} // verus!
