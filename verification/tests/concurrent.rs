use std::sync::atomic::{AtomicUsize, Ordering};
use std::sync::{Arc, Mutex};

use crossbeam_utils::sync::WaitGroup;
use rskv::engine::{Bitcask, KvsEngine};
use rskv::server::{handle_request, KvsServer};
use rskv::resp::{Reply, Request};
use rskv::thread_pool::{RayonThreadPool, WorkerPool};

fn spawn_counter<P: WorkerPool>(pool: P) {
    let task_num: usize = 20;
    let add_count: usize = 1000;

    let wg = WaitGroup::new();
    let counter = Arc::new(AtomicUsize::new(0));

    for _ in 0..task_num {
        let counter = Arc::clone(&counter);
        let wg = wg.clone();
        pool.spawn(move || {
            for _ in 0..add_count {
                counter.fetch_add(1, Ordering::SeqCst);
            }
            drop(wg);
        })
    }

    wg.wait();
    assert_eq!(counter.load(Ordering::SeqCst), task_num * add_count);
}

#[test]
fn rayon_thread_pool_spawn_counter() {
    let pool = RayonThreadPool::new(4).unwrap();
    spawn_counter(pool);

    let pool = RayonThreadPool::new(4).unwrap();
    let task_num: usize = 20;

    let counter = Arc::new(Mutex::new(0));

    (0..task_num).for_each(|_| {
        let counter = counter.clone();

        pool.scope(move |_| {
            let mut num = counter.lock().unwrap();
            *num += 1;
        })
    });
    drop(pool);

    assert_eq!(*counter.lock().unwrap(), 20);
}

#[test]
fn zero_workers_is_a_configuration_error() {
    match RayonThreadPool::new(0) {
        Err(rskv::KvsError::StringError(m)) => {
            assert_eq!(m, "num_threads must greater than zero")
        }
        _ => panic!("a zero-size pool must be refused"),
    }
}

#[test]
fn concurrent_set_then_get() {
    let engine = Bitcask::open(Vec::new()).unwrap();
    let pool = RayonThreadPool::new(4).unwrap();
    let wg = WaitGroup::new();
    let failures = Arc::new(AtomicUsize::new(0));
    for t in 0..4u32 {
        let engine = engine.clone();
        let wg = wg.clone();
        let failures = Arc::clone(&failures);
        pool.spawn(move || {
            let key = format!("key_{}", t);
            for i in 0..1000u32 {
                let value = format!("value_{}_{}", t, i);
                engine.set(key.clone(), value).unwrap();
            }
            for i in 0..1000u32 {
                let got = engine.get(key.clone()).unwrap();
                let want = format!("value_{}_{}", t, 999);
                if got != Some(want) {
                    failures.fetch_add(1, Ordering::SeqCst);
                }
                let _ = i;
            }
            drop(wg);
        });
    }
    wg.wait();
    assert_eq!(failures.load(Ordering::SeqCst), 0);
}

#[test]
fn engine_clones_share_one_store() {
    let engine = Bitcask::open(Vec::new()).unwrap();
    let other = engine.clone();
    engine.set("x".to_owned(), "1".to_owned()).unwrap();
    assert_eq!(other.get("x".to_owned()).unwrap(), Some("1".to_owned()));
    other.rm("x".to_owned()).unwrap();
    assert_eq!(engine.get("x".to_owned()).unwrap(), None);
}

#[test]
fn server_round_trip_over_frames() {
    // two clients share the engine through the server's handler; frames
    // cross an in-memory buffer in place of the socket
    let engine = Bitcask::open(Vec::new()).unwrap();
    let pool = RayonThreadPool::new(2).unwrap();
    let server = KvsServer::new(engine, pool);

    let client1 = Request::Put { key: "x".to_owned(), value: "1".to_owned() };
    let wire = rskv::resp::encode_req(&client1);
    let decoded = match rskv::resp::decode_req(&wire, 0) {
        rskv::resp::ReqParse::Found { req, .. } => req,
        _ => panic!("request frame should decode"),
    };
    let e1 = server.engine();
    let reply = handle_request(&e1, decoded);
    assert!(matches!(reply, Reply::Nothing));

    let client2 = Request::Get { key: "x".to_owned() };
    let wire = rskv::resp::encode_req(&client2);
    let decoded = match rskv::resp::decode_req(&wire, 0) {
        rskv::resp::ReqParse::Found { req, .. } => req,
        _ => panic!("request frame should decode"),
    };
    let e2 = server.engine();
    let reply = handle_request(&e2, decoded);
    match reply {
        Reply::Value { value } => assert_eq!(value, "1"),
        _ => panic!("get should answer with the value"),
    }

    let missing = handle_request(&e2, Request::Rm { key: "y".to_owned() });
    match missing {
        Reply::Failure { message } => assert_eq!(message, "Key not found"),
        _ => panic!("removing a missing key should fail"),
    }
}
