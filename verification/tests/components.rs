use lohdb::{
    ChangeEvent, EventBus, InMemoryStorageEngine, KvMap, Operation, StorageEngine, WriteAheadLog,
};

#[test]
fn kvmap_insert_get_remove() {
    let mut m = KvMap::new();
    assert_eq!(m.get(&"a".to_string()), None);
    m.insert("a".to_string(), vec![1, 2]);
    m.insert("b".to_string(), vec![3]);
    assert_eq!(m.get(&"a".to_string()), Some(&vec![1, 2]));
    m.insert("a".to_string(), vec![9]); // overwrite
    assert_eq!(m.get(&"a".to_string()), Some(&vec![9]));
    assert!(m.contains(&"b".to_string()));
    assert!(m.remove(&"b".to_string()));
    assert!(!m.remove(&"b".to_string()));
    let keys = m.key_list();
    assert_eq!(keys, vec!["a".to_string()]);
}

#[test]
fn in_memory_engine_tracks_all_mutations() {
    let mut eng = InMemoryStorageEngine::new();
    eng.initialize();
    eng.store("k".to_string(), vec![1]);
    eng.store("k".to_string(), vec![2]);
    eng.store("other".to_string(), vec![3]);
    assert_eq!(eng.retrieve(&"k".to_string()), Some(vec![2]));
    assert!(eng.remove(&"other".to_string()));
    assert!(!eng.remove(&"other".to_string()));
    eng.flush(); // a no-op
    assert_eq!(eng.retrieve(&"k".to_string()), Some(vec![2]));
    assert_eq!(eng.list_keys(), vec!["k".to_string()]);
}

#[test]
fn file_engine_flush_only_when_dirty() {
    let mut eng = lohdb::FileStorageEngine::new("data".to_string());
    assert_eq!(eng.data_file_path(), "data/data.db");
    assert!(eng.initialize(&None).is_ok());
    assert!(eng.flush().is_none()); // nothing was mutated: no rewrite

    eng.store("k".to_string(), vec![5]);
    let snap = eng.flush();
    assert!(snap.is_some());
    assert!(eng.flush().is_none()); // clean again until the next mutation

    // Removing an absent key does not dirty the store.
    assert!(!eng.remove(&"absent".to_string()));
    assert!(eng.flush().is_none());

    // The snapshot loads back to the same mapping.
    let mut other = lohdb::FileStorageEngine::new("data".to_string());
    assert!(other.initialize(&snap).is_ok());
    assert_eq!(other.retrieve(&"k".to_string()), Some(vec![5]));
    assert_eq!(other.list_keys(), vec!["k".to_string()]);
}

#[test]
fn file_engine_empty_snapshot_is_a_no_op() {
    // A snapshot file that exists but holds zero bytes loads nothing and
    // disturbs nothing.
    let mut eng = lohdb::FileStorageEngine::new("data".to_string());
    eng.store("kept".to_string(), vec![1]);
    assert!(eng.initialize(&Some(Vec::new())).is_ok());
    assert_eq!(eng.retrieve(&"kept".to_string()), Some(vec![1]));
    assert_eq!(eng.list_keys(), vec!["kept".to_string()]);
}

#[test]
fn file_engine_rejects_undecodable_snapshot() {
    let mut eng = lohdb::FileStorageEngine::new("data".to_string());
    let r = eng.initialize(&Some(vec![1, 2, 3]));
    assert!(matches!(r, Err(lohdb::DbError::SerializationError)));
    // fail-fast: nothing was partially loaded
    assert!(eng.list_keys().is_empty());
}

#[test]
fn error_descriptions() {
    assert_eq!(lohdb::DbError::IOError.describe(), "i/o failure");
    assert_eq!(lohdb::DbError::SerializationError.describe(), "malformed binary payload");
}

#[test]
fn wal_record_layout_is_length_prefixed_little_endian() {
    let mut wal = WriteAheadLog::new();
    let rec = wal.append(&Operation::Put { key: "a".to_string(), value: vec![7] });
    // payload: tag 0 (4 bytes), key length 1 (8 bytes), 'a', value length 1
    // (8 bytes), the value byte; prefixed by the payload length 22.
    let expected = vec![
        22, 0, 0, 0, // length prefix
        0, 0, 0, 0, // tag: put
        1, 0, 0, 0, 0, 0, 0, 0, // key length
        0x61, // "a"
        1, 0, 0, 0, 0, 0, 0, 0, // value length
        7, // value
    ];
    assert_eq!(rec, expected);
    assert_eq!(wal.bytes(), &expected);

    let rec2 = wal.append(&Operation::Delete { key: "key".to_string() });
    let expected2 = vec![
        15, 0, 0, 0, // length prefix
        1, 0, 0, 0, // tag: delete
        3, 0, 0, 0, 0, 0, 0, 0, // key length
        0x6b, 0x65, 0x79, // "key"
    ];
    assert_eq!(rec2, expected2);
    assert_eq!(wal.len(), expected.len() + expected2.len());
}

#[test]
fn wal_replay_round_trip() {
    let mut wal = WriteAheadLog::new();
    wal.append(&Operation::Put { key: "résumé".to_string(), value: vec![0, 255] });
    wal.append(&Operation::Delete { key: "résumé".to_string() });
    let image = wal.bytes().clone();

    let replayed = WriteAheadLog::from_bytes(image).replay();
    assert_eq!(replayed.len(), 2);
    match &replayed[0] {
        Operation::Put { key, value } => {
            assert_eq!(key, "résumé");
            assert_eq!(value, &vec![0, 255]);
        }
        _ => panic!("expected the put first"),
    }
    match &replayed[1] {
        Operation::Delete { key } => assert_eq!(key, "résumé"),
        _ => panic!("expected the delete second"),
    }
}

#[test]
fn wal_truncate_empties_the_log() {
    let mut wal = WriteAheadLog::new();
    wal.append(&Operation::Put { key: "k".to_string(), value: vec![1] });
    wal.truncate();
    assert_eq!(wal.len(), 0);
    assert!(wal.replay().is_empty());
}

#[test]
fn wal_from_bytes_discards_torn_tail() {
    let mut wal = WriteAheadLog::new();
    wal.append(&Operation::Put { key: "good".to_string(), value: vec![1] });
    let mut image = wal.bytes().clone();
    let clean = image.len();
    image.extend(vec![99, 0, 0, 0, 5, 5]); // a record cut short mid-append

    let adopted = WriteAheadLog::from_bytes(image);
    assert_eq!(adopted.len(), clean);
    assert_eq!(adopted.replay().len(), 1);
}

#[test]
fn event_bus_delivers_in_order_per_subscriber() {
    let mut bus = EventBus::new();
    let (handle_a, events_a, _shutdown_a) = bus.subscribe();
    let (handle_b, events_b, _shutdown_b) = bus.subscribe();
    assert_ne!(handle_a.id(), handle_b.id());

    assert_eq!(bus.publish(&ChangeEvent::Put { key: "k".to_string(), value: vec![1] }), 2);
    assert_eq!(bus.publish(&ChangeEvent::Delete { key: "k".to_string() }), 2);

    for events in [events_a, events_b] {
        assert!(matches!(events.recv().unwrap(), ChangeEvent::Put { .. }));
        assert!(matches!(events.recv().unwrap(), ChangeEvent::Delete { .. }));
        assert!(events.try_recv().is_err());
    }
}

#[test]
fn event_bus_skips_gone_subscribers() {
    let mut bus = EventBus::new();
    let (_handle, events, _shutdown) = bus.subscribe();
    drop(events); // the worker is gone; its queue is closed
    let delivered = bus.publish(&ChangeEvent::Put { key: "k".to_string(), value: vec![] });
    assert_eq!(delivered, 0); // dropped for that subscriber only, no block
}
