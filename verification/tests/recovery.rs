use lohdb::{Database, DatabaseConfig};

fn config(dir: &str) -> DatabaseConfig {
    DatabaseConfig { data_dir: dir.to_string(), wal_sync_interval_ms: 100 }
}

fn open_empty(dir: &str) -> Database {
    Database::open(config(dir), &None, Vec::new()).unwrap()
}

/// Stages a put, "persists" the record into the log image kept by the test,
/// then commits — the order a host follows with the real log file.
fn logged_set(db: &mut Database, wal_file: &mut Vec<u8>, key: &str, value: &[u8]) {
    wal_file.extend(db.stage_set(&key.to_string(), &value.to_vec()));
    db.set(key.to_string(), value.to_vec());
}

/// The delete counterpart of `logged_set`.
fn logged_delete(db: &mut Database, wal_file: &mut Vec<u8>, key: &str) -> bool {
    wal_file.extend(db.stage_delete(&key.to_string()));
    db.delete(&key.to_string())
}

#[test]
fn test_crash_recovery() {
    // One session of mutations, the log and snapshot bytes kept as a host
    // would keep the two files.
    let mut wal_file: Vec<u8> = Vec::new();
    let snapshot_file: Option<Vec<u8>>;
    {
        let mut db = open_empty("data");
        logged_set(&mut db, &mut wal_file, "key1", b"value1");
        logged_set(&mut db, &mut wal_file, "key2", b"value2");
        logged_set(&mut db, &mut wal_file, "key3", b"value3");

        assert!(logged_delete(&mut db, &mut wal_file, "key2"));
        logged_set(&mut db, &mut wal_file, "key4", b"value4");

        // Force flush; the host writes these bytes over the snapshot file.
        snapshot_file = db.flush();
        assert!(snapshot_file.is_some());
    } // the process "crashes" here

    // Recover from the same two files: snapshot load, then full log replay.
    {
        let db = Database::open(config("data"), &snapshot_file, wal_file).unwrap();

        assert_eq!(db.get(&"key1".to_string()), Some(b"value1".to_vec()));
        assert_eq!(db.get(&"key2".to_string()), None); // was deleted
        assert_eq!(db.get(&"key3".to_string()), Some(b"value3".to_vec()));
        assert_eq!(db.get(&"key4".to_string()), Some(b"value4".to_vec()));

        let keys = db.list_keys();
        assert_eq!(keys.len(), 3);
        assert!(keys.contains(&"key1".to_string()));
        assert!(keys.contains(&"key3".to_string()));
        assert!(keys.contains(&"key4".to_string()));
        assert!(!keys.contains(&"key2".to_string()));
    }
}

#[test]
fn test_change_subscriptions() {
    let mut db = open_empty("data");

    let (_handle, events, _shutdown) = db.subscribe();

    // Perform some operations
    db.set("test_key".to_string(), b"test_value".to_vec());
    db.delete(&"test_key".to_string());

    let mut captured: Vec<String> = Vec::new();
    while let Ok(event) = events.try_recv() {
        let line = match event {
            lohdb::ChangeEvent::Put { key, value } => format!("put {} {:?}", key, value),
            lohdb::ChangeEvent::Delete { key } => format!("delete {}", key),
        };
        captured.push(line);
    }
    assert!(captured.len() >= 1); // At least one event should be captured
}

#[test]
fn test_concurrent_operations() {
    let db = std::sync::Arc::new(std::sync::Mutex::new(open_empty("data")));

    // Multiple threads doing operations on disjoint keys, each reading its
    // own write back.
    crossbeam::thread::scope(|scope| {
        for i in 0..5 {
            let db_clone = db.clone();
            scope.spawn(move |_| {
                for j in 0..10 {
                    let key = format!("key_{}_{}", i, j);
                    let value = format!("value_{}_{}", i, j).into_bytes();

                    db_clone.lock().unwrap().set(key.clone(), value);

                    // Verify we can read it back
                    let retrieved = db_clone.lock().unwrap().get(&key);
                    assert!(retrieved.is_some());
                }
            });
        }
    })
    .unwrap();

    // Verify all data is present
    let keys = db.lock().unwrap().list_keys();
    assert_eq!(keys.len(), 50); // 5 threads x 10 operations each
}

#[test]
fn scenario_flush_close_reopen() {
    // set(k1,v1), set(k2,v2), set(k3,v3), delete(k2), set(k4,v4), flush,
    // close, reopen: k1, k3, k4 present with their values, k2 absent,
    // and the key list holds exactly those three keys.
    let mut wal_file: Vec<u8> = Vec::new();
    let mut db = open_empty("data");
    logged_set(&mut db, &mut wal_file, "k1", b"v1");
    logged_set(&mut db, &mut wal_file, "k2", b"v2");
    logged_set(&mut db, &mut wal_file, "k3", b"v3");
    assert!(logged_delete(&mut db, &mut wal_file, "k2"));
    logged_set(&mut db, &mut wal_file, "k4", b"v4");
    let snapshot_file = db.flush();
    assert!(snapshot_file.is_some());
    drop(db);

    let db = Database::open(config("data"), &snapshot_file, wal_file).unwrap();
    assert_eq!(db.get(&"k1".to_string()), Some(b"v1".to_vec()));
    assert_eq!(db.get(&"k2".to_string()), None);
    assert_eq!(db.get(&"k3".to_string()), Some(b"v3".to_vec()));
    assert_eq!(db.get(&"k4".to_string()), Some(b"v4".to_vec()));
    let mut keys = db.list_keys();
    keys.sort();
    assert_eq!(keys, vec!["k1".to_string(), "k3".to_string(), "k4".to_string()]);
}

#[test]
fn scenario_replay_without_snapshot_matches_live_session() {
    // Closing without any flush and reopening against the empty snapshot
    // must rebuild exactly the live session's reads.
    let mut wal_file: Vec<u8> = Vec::new();
    let mut db = open_empty("data");
    logged_set(&mut db, &mut wal_file, "alpha", &[1, 2, 3]);
    logged_set(&mut db, &mut wal_file, "beta", &[4]);
    logged_delete(&mut db, &mut wal_file, "alpha");
    logged_set(&mut db, &mut wal_file, "beta", &[5, 6]);
    let live_beta = db.get(&"beta".to_string());
    let live_alpha = db.get(&"alpha".to_string());
    drop(db); // no flush: recovery has only the log

    let db = Database::open(config("data"), &None, wal_file).unwrap();
    assert_eq!(db.get(&"beta".to_string()), live_beta);
    assert_eq!(db.get(&"beta".to_string()), Some(vec![5, 6]));
    assert_eq!(db.get(&"alpha".to_string()), live_alpha);
    assert_eq!(db.get(&"alpha".to_string()), None);
    assert_eq!(db.list_keys(), vec!["beta".to_string()]);
}

#[test]
fn scenario_replaying_log_twice_is_idempotent() {
    // Replaying the full log a second time over the state it already built
    // changes nothing: feed the same log through open twice, using the first
    // recovery's snapshot as the second's starting point.
    let mut wal_file: Vec<u8> = Vec::new();
    let mut db = open_empty("data");
    logged_set(&mut db, &mut wal_file, "x", &[9]);
    logged_set(&mut db, &mut wal_file, "y", &[8]);
    logged_delete(&mut db, &mut wal_file, "y");
    drop(db);

    let mut once = Database::open(config("data"), &None, wal_file.clone()).unwrap();
    let snap_after_once = once.flush();
    assert!(snap_after_once.is_some());

    // Second full replay of the same log against that snapshot.
    let twice = Database::open(config("data"), &snap_after_once, wal_file).unwrap();
    assert_eq!(twice.get(&"x".to_string()), Some(vec![9]));
    assert_eq!(twice.get(&"y".to_string()), None);
    assert_eq!(twice.list_keys(), vec!["x".to_string()]);
}

#[test]
fn delete_of_absent_key_is_logged_but_silent() {
    // Deleting a nonexistent key returns false, still writes a log record,
    // and publishes no event.
    let mut db = open_empty("data");
    let (_handle, events, _shutdown) = db.subscribe();

    let before = db.wal_size();
    let rec = db.stage_delete(&"ghost".to_string());
    assert!(!rec.is_empty());
    assert!(!db.delete(&"ghost".to_string()));
    assert_eq!(db.wal_size(), before + rec.len());
    assert!(events.try_recv().is_err()); // nothing was published
}

#[test]
fn subscriber_sees_put_before_delete() {
    // subscribe, set("a",[1]), delete("a"): the subscriber observes a put
    // event for "a" strictly before a delete event for "a".
    let mut db = open_empty("data");
    let (_handle, events, _shutdown) = db.subscribe();

    db.set("a".to_string(), vec![1]);
    assert!(db.delete(&"a".to_string()));

    match events.recv().unwrap() {
        lohdb::ChangeEvent::Put { key, value } => {
            assert_eq!(key, "a");
            assert_eq!(value, vec![1]);
        }
        _ => panic!("expected the put event first"),
    }
    match events.recv().unwrap() {
        lohdb::ChangeEvent::Delete { key } => assert_eq!(key, "a"),
        _ => panic!("expected the delete event second"),
    }
}

#[test]
fn subscription_ids_never_repeat() {
    // Every subscription gets an id unlike every earlier one, kept even
    // though the registry never shrinks.
    let mut db = open_empty("data");
    let mut ids: Vec<u128> = Vec::new();
    for _ in 0..8 {
        let (handle, _events, _shutdown) = db.subscribe();
        assert!(!ids.contains(&handle.id()));
        ids.push(handle.id());
    }
}

#[test]
fn slow_subscriber_never_delays_writers() {
    // A subscriber that never drains its queue must not delay later calls:
    // the queue is unbounded and delivery attempts never block.
    let mut db = open_empty("data");
    let (_handle, _events, _shutdown) = db.subscribe();
    // _events is never read: the backlog only grows.
    for i in 0..200 {
        db.set(format!("k{}", i), vec![i as u8]);
    }
    assert_eq!(db.list_keys().len(), 200);
}

#[test]
fn corrupt_snapshot_fails_open() {
    // A snapshot that does not decode fails the open outright with a
    // serialization error; a missing or empty snapshot file is fine.
    let garbage = Some(vec![0xde, 0xad, 0xbe, 0xef, 1, 2, 3]);
    let r = Database::open(config("data"), &garbage, Vec::new());
    assert!(matches!(r, Err(lohdb::DbError::SerializationError)));

    assert!(Database::open(config("data"), &None, Vec::new()).is_ok());
    assert!(Database::open(config("data"), &Some(Vec::new()), Vec::new()).is_ok());
}

#[test]
fn torn_log_tail_is_tolerated() {
    // A log whose last record was cut short by a crash replays every whole
    // record and stops at the tear without failing.
    let mut wal_file: Vec<u8> = Vec::new();
    let mut db = open_empty("data");
    logged_set(&mut db, &mut wal_file, "whole", &[1]);
    let torn = db.stage_set(&"torn".to_string(), &vec![2]);
    db.set("torn".to_string(), vec![2]);
    wal_file.extend(&torn[..torn.len() - 1]); // the crash cut the last byte
    drop(db);

    let db = Database::open(config("data"), &None, wal_file.clone()).unwrap();
    assert_eq!(db.get(&"whole".to_string()), Some(vec![1]));
    assert_eq!(db.get(&"torn".to_string()), None);
    // The host cuts the file back to the clean prefix before appending.
    assert!(db.wal_size() < wal_file.len());
}
