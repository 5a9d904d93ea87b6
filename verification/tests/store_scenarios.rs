use rskv::store::{KvStore, LogFile};
use rskv::KvsError;

fn chars_of(s: &str) -> Vec<char> {
    s.chars().collect()
}

fn fresh() -> KvStore {
    KvStore::open(Vec::new()).unwrap()
}

#[test]
fn fresh_directory_gets() {
    let mut store = fresh();
    store.set("a".to_owned(), "1".to_owned()).unwrap();
    store.set("b".to_owned(), "2".to_owned()).unwrap();
    store.set("a".to_owned(), "3".to_owned()).unwrap();
    assert_eq!(store.get("a".to_owned()).unwrap(), Some("3".to_owned()));
    assert_eq!(store.get("b".to_owned()).unwrap(), Some("2".to_owned()));
    assert_eq!(store.get("c".to_owned()).unwrap(), None);
}

#[test]
fn persistence_across_reopen() {
    let mut store = fresh();
    store.set("a".to_owned(), "1".to_owned()).unwrap();
    store.set("b".to_owned(), "2".to_owned()).unwrap();
    store.set("a".to_owned(), "3".to_owned()).unwrap();
    let files = store.snapshot();
    drop(store);
    let store = KvStore::open(files).unwrap();
    assert_eq!(store.get("a".to_owned()).unwrap(), Some("3".to_owned()));
    assert_eq!(store.get("b".to_owned()).unwrap(), Some("2".to_owned()));
    assert_eq!(store.get("c".to_owned()).unwrap(), None);
}

#[test]
fn remove_then_missing() {
    let mut store = fresh();
    store.set("k".to_owned(), "v".to_owned()).unwrap();
    assert_eq!(store.get("k".to_owned()).unwrap(), Some("v".to_owned()));
    store.remove("k".to_owned()).unwrap();
    assert_eq!(store.get("k".to_owned()).unwrap(), None);
    assert!(matches!(
        store.remove("k".to_owned()),
        Err(KvsError::KeyNotFound)
    ));
}

#[test]
fn remove_missing_does_not_grow_log() {
    let mut store = fresh();
    store.set("a".to_owned(), "1".to_owned()).unwrap();
    let before = store.disk_size();
    assert!(matches!(
        store.remove("b".to_owned()),
        Err(KvsError::KeyNotFound)
    ));
    assert_eq!(store.disk_size(), before);
}

#[test]
fn compaction_bounds_disk_size() {
    let mut store = fresh();
    let big = "x".repeat(2048);
    for _ in 0..2000 {
        store.set("k".to_owned(), big.clone()).unwrap();
    }
    assert_eq!(store.get("k".to_owned()).unwrap(), Some(big));
    assert!(store.disk_size() < 4 * 1024 * 1024);
}

#[test]
fn explicit_compaction_preserves_contents() {
    let mut store = fresh();
    store.set("a".to_owned(), "1".to_owned()).unwrap();
    store.set("b".to_owned(), "2".to_owned()).unwrap();
    store.set("c".to_owned(), "3".to_owned()).unwrap();
    store.remove("b".to_owned()).unwrap();
    store.set("a".to_owned(), "9".to_owned()).unwrap();
    store.compact().unwrap();
    assert_eq!(store.get("a".to_owned()).unwrap(), Some("9".to_owned()));
    assert_eq!(store.get("b".to_owned()).unwrap(), None);
    assert_eq!(store.get("c".to_owned()).unwrap(), Some("3".to_owned()));
    assert_eq!(store.stale(), 0);
    // after compaction the log holds exactly the live records
    let live: u64 = store.disk_size();
    store.compact().unwrap();
    assert_eq!(store.disk_size(), live);
}

#[test]
fn compaction_mid_sequence_keeps_replay_exact() {
    let mut store = fresh();
    let big = "y".repeat(4096);
    for i in 0..600 {
        let key = format!("key{}", i % 7);
        store.set(key, big.clone()).unwrap();
    }
    store.remove("key3".to_owned()).unwrap();
    let files = store.snapshot();
    let reopened = KvStore::open(files).unwrap();
    for i in 0..7 {
        let key = format!("key{}", i);
        let expect = if i == 3 { None } else { Some(big.clone()) };
        assert_eq!(store.get(key.clone()).unwrap(), expect);
        assert_eq!(reopened.get(key).unwrap(), expect);
    }
}

#[test]
fn open_rejects_unsorted_files() {
    let files = vec![
        LogFile { fid: 2, data: Vec::new() },
        LogFile { fid: 1, data: Vec::new() },
    ];
    assert!(matches!(
        KvStore::open(files),
        Err(KvsError::StringError(_))
    ));
}

#[test]
fn open_rejects_corrupt_record() {
    let files = vec![LogFile { fid: 1, data: chars_of("not a record") }];
    assert!(matches!(KvStore::open(files), Err(KvsError::Serde(_))));
}

#[test]
fn open_drops_partial_tail() {
    let mut store = fresh();
    store.set("a".to_owned(), "1".to_owned()).unwrap();
    let mut files = store.snapshot();
    // append the first half of another record to the active file
    let mut partial = chars_of("{\"Set\":{\"key\":\"b\"");
    files.last_mut().unwrap().data.append(&mut partial);
    let reopened = KvStore::open(files).unwrap();
    assert_eq!(reopened.get("a".to_owned()).unwrap(), Some("1".to_owned()));
    assert_eq!(reopened.get("b".to_owned()).unwrap(), None);
}

#[test]
fn keys_and_values_round_trip_escapes() {
    let mut store = fresh();
    let odd_key = "a\"b\\c\nd".to_owned();
    let odd_value = "tab\there \"quoted\" back\\slash \u{1}end".to_owned();
    store.set(odd_key.clone(), odd_value.clone()).unwrap();
    assert_eq!(store.get(odd_key.clone()).unwrap(), Some(odd_value.clone()));
    let files = store.snapshot();
    let reopened = KvStore::open(files).unwrap();
    assert_eq!(reopened.get(odd_key).unwrap(), Some(odd_value));
}

#[test]
fn generation_file_names() {
    assert_eq!(rskv::log_path(0), "0.log");
    assert_eq!(rskv::log_path(7), "7.log");
    assert_eq!(rskv::log_path(42), "42.log");
    assert_eq!(rskv::log_path(1048576), "1048576.log");
    assert_eq!(rskv::log_path(u64::MAX), "18446744073709551615.log");
}

#[test]
fn generation_file_names_parse_back() {
    assert_eq!(rskv::names::parse_log_name("0.log"), Some(0));
    assert_eq!(rskv::names::parse_log_name("42.log"), Some(42));
    assert_eq!(
        rskv::names::parse_log_name("18446744073709551615.log"),
        Some(u64::MAX)
    );
    // not names the store writes
    assert_eq!(rskv::names::parse_log_name("042.log"), None);
    assert_eq!(rskv::names::parse_log_name("18446744073709551616.log"), None);
    assert_eq!(rskv::names::parse_log_name(".log"), None);
    assert_eq!(rskv::names::parse_log_name("7.txt"), None);
    assert_eq!(rskv::names::parse_log_name("x7.log"), None);
    for fid in [0u64, 1, 9, 10, 99, 12345, u64::MAX - 1] {
        assert_eq!(rskv::names::parse_log_name(&rskv::log_path(fid)), Some(fid));
    }
}

#[test]
fn error_messages() {
    assert_eq!(KvsError::KeyNotFound.message(), "Key not found");
    assert_eq!(
        KvsError::Unknown.message(),
        "Unexpected command type"
    );
    assert_eq!(KvsError::Io("boom".to_owned()).message(), "boom");
    assert_eq!(KvsError::Serde("bad".to_owned()).message(), "bad");
    assert_eq!(KvsError::StringError("msg".to_owned()).message(), "msg");
}
