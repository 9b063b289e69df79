//! The database coordinator. Every mutation runs log → storage →
//! notification, in that order, and the coordinator's invariant ties the
//! three persistent pieces together: replaying the whole log against the
//! snapshot always rebuilds the current mapping. The host around it moves
//! bytes: it reads both files into `open`, appends what `set` and `delete`
//! return to the log file, and writes what `flush` returns over the snapshot
//! file; a background timer may call `flush` on the configured interval.

use crossbeam::channel::Receiver;

use vstd::prelude::*;
use vstd::slice::*;

use crate::codec::{
    encode_record, lemma_wal_round_trip, op_encodable, record_of, views_of, wal_bytes_of,
    wal_ops, wal_wf,
};
use crate::engine::{FileStorageEngine, StorageEngine};
use crate::errors::DbError;
use crate::ops::{
    apply_ops, lemma_apply_ops_push, lemma_replay_idempotent, ChangeEvent, EventView, OpView,
    Operation,
};
use crate::subscriber::{EventBus, SubscriptionHandle};
use crate::wal::WriteAheadLog;

verus! {

/// What `open` is given: where the files live, and how often the background
/// timer should flush.
pub struct DatabaseConfig {
    pub data_dir: String,
    pub wal_sync_interval_ms: u64,
}

/// The coordinator: storage, log, and bus, plus the recovery state — the
/// mapping the on-disk snapshot holds and the events published so far.
pub struct Database {
    storage: FileStorageEngine,
    wal: WriteAheadLog,
    event_bus: EventBus,
    snapshot: Ghost<Map<Seq<char>, Seq<u8>>>,
    events: Ghost<Seq<EventView>>,
}

impl Database {
    /// The current key→value mapping.
    pub closed spec fn mapping(&self) -> Map<Seq<char>, Seq<u8>> {
        self.storage.mapping()
    }

    /// The operations the log holds, oldest first.
    pub closed spec fn log_ops(&self) -> Seq<OpView> {
        self.wal.ops()
    }

    /// The log file's bytes.
    pub closed spec fn log_bytes(&self) -> Seq<u8> {
        self.wal@
    }

    /// The mapping the on-disk snapshot holds.
    pub closed spec fn snapshot_map(&self) -> Map<Seq<char>, Seq<u8>> {
        self.snapshot@
    }

    /// Every event published so far, in publication order.
    pub closed spec fn events_view(&self) -> Seq<EventView> {
        self.events@
    }

    /// The registered subscription identifiers.
    pub closed spec fn subscriber_ids(&self) -> Seq<u128> {
        self.event_bus.ids()
    }

    /// Whether the mapping changed since the last flush.
    pub closed spec fn dirty(&self) -> bool {
        self.storage.is_dirty()
    }

    /// The coordinator's invariant: the parts are valid, and replaying the
    /// whole log against the snapshot rebuilds the current mapping — so a
    /// crash at any point between calls recovers to exactly this mapping.
    pub closed spec fn wf(&self) -> bool {
        &&& self.storage.inv()
        &&& self.wal.wf()
        &&& self.event_bus.ids_wf()
        &&& apply_ops(self.snapshot@, self.wal.ops()) == self.storage.mapping()
    }

    /// Opens the store from what the host read: the snapshot file's bytes
    /// (`None` when the file does not exist) and the log file's bytes. A
    /// snapshot that does not decode in full fails the open outright; the
    /// log is replayed from its start, stopping without error at a trailing
    /// truncated record. The host should cut the log file to `wal_size()`
    /// afterwards so later appends land after the last whole record.
    pub fn open(
        config: DatabaseConfig,
        snapshot_bytes: &Option<Vec<u8>>,
        wal_bytes: Vec<u8>,
    ) -> (r: Result<Database, DbError>)
        ensures
            match *snapshot_bytes {
                None => r is Ok,
                Some(b) => r is Ok <==> wal_wf(b@),
            },
            r is Err ==> r->Err_0 == DbError::SerializationError,
            match r {
                Ok(db) => {
                    &&& db.wf()
                    &&& match *snapshot_bytes {
                        None => db.snapshot_map() == Map::<Seq<char>, Seq<u8>>::empty(),
                        Some(b) => db.snapshot_map() == apply_ops(
                            Map::<Seq<char>, Seq<u8>>::empty(),
                            wal_ops(b@),
                        ),
                    }
                    &&& db.log_ops() == wal_ops(wal_bytes@)
                    &&& db.mapping() == apply_ops(db.snapshot_map(), wal_ops(wal_bytes@))
                    &&& db.events_view() == Seq::<EventView>::empty()
                    &&& db.subscriber_ids() == Seq::<u128>::empty()
                },
                Err(_) => true,
            },
    {
        let mut storage = FileStorageEngine::new(config.data_dir);
        match storage.initialize(snapshot_bytes) {
            Err(e) => {
                return Err(e);
            },
            Ok(()) => {},
        }
        let ghost snap = storage.mapping();
        let wal = WriteAheadLog::from_bytes(wal_bytes);
        let ops = wal.replay();
        let n = ops.len();
        let mut i: usize = 0;
        proof {
            assert(views_of(ops@).take(0) =~= Seq::<OpView>::empty());
        }
        while i < n
            invariant
                storage.inv(),
                n == ops@.len(),
                i <= n,
                forall|j: int| 0 <= j < ops@.len() ==> op_encodable(#[trigger] ops@[j]@),
                storage.mapping() == apply_ops(snap, views_of(ops@).take(i as int)),
            decreases n - i,
        {
            let ghost taken = views_of(ops@).take(i as int);
            match &ops[i] {
                Operation::Put { key, value } => {
                    proof {
                        assert(op_encodable(ops@[i as int]@));
                        assert(ops@[i as int]@ == (OpView::Put { key: key@, value: value@ }));
                    }
                    storage.store(key.clone(), slice_to_vec(value.as_slice()));
                },
                Operation::Delete { key } => {
                    let _ = storage.remove(key);
                },
            }
            i = i + 1;
            proof {
                assert(views_of(ops@).take(i as int) =~= taken.push(ops@[i as int - 1]@));
                lemma_apply_ops_push(snap, taken, ops@[i as int - 1]@);
            }
        }
        proof {
            assert(views_of(ops@).take(n as int) =~= views_of(ops@));
        }
        Ok(
            Database {
                storage,
                wal,
                event_bus: EventBus::new(),
                snapshot: Ghost(snap),
                events: Ghost(Seq::empty()),
            },
        )
    }

    /// The log image's size; the host keeps the log file this long at open.
    pub fn wal_size(&self) -> (n: usize)
        ensures
            n == self.log_bytes().len(),
    {
        self.wal.len()
    }

    /// The log record a put would write, without changing any state. A
    /// mutation is two steps: the host stages the record, appends it to the
    /// log file and forces it to stable storage, and only then calls `set` —
    /// so nothing becomes visible before it is durable, and a failed file
    /// write aborts the whole call with the store untouched.
    pub fn stage_set(&self, key: &String, value: &Vec<u8>) -> (rec: Vec<u8>)
        requires
            op_encodable(OpView::Put { key: key@, value: value@ }),
        ensures
            rec@ == record_of(OpView::Put { key: key@, value: value@ }),
    {
        encode_record(&Operation::Put { key: key.clone(), value: slice_to_vec(value.as_slice()) })
    }

    /// Binds `key` to `value`: appends the put to the log image, applies it
    /// to storage, then publishes the change. The host calls this only after
    /// the staged record (see `stage_set`) is durably in the log file.
    pub fn set(&mut self, key: String, value: Vec<u8>)
        requires
            old(self).wf(),
            op_encodable(OpView::Put { key: key@, value: value@ }),
        ensures
            final(self).wf(),
            final(self).mapping() == old(self).mapping().insert(key@, value@),
            final(self).log_ops() == old(self).log_ops().push(
                OpView::Put { key: key@, value: value@ },
            ),
            final(self).log_bytes() == old(self).log_bytes() + record_of(
                OpView::Put { key: key@, value: value@ },
            ),
            final(self).dirty(),
            final(self).snapshot_map() == old(self).snapshot_map(),
            final(self).events_view() == old(self).events_view().push(
                EventView::Put { key: key@, value: value@ },
            ),
            final(self).subscriber_ids() == old(self).subscriber_ids(),
    {
        let op = Operation::Put { key: key.clone(), value: slice_to_vec(value.as_slice()) };
        let _ = self.wal.append(&op);
        proof {
            lemma_apply_ops_push(self.snapshot@, old(self).wal.ops(), op@);
        }
        self.storage.store_entry(key.clone(), slice_to_vec(value.as_slice()));
        let event = ChangeEvent::Put { key, value };
        let _ = self.event_bus.publish(&event);
        self.events = Ghost(self.events@.push(event@));
    }

    /// The log record a delete would write, without changing any state; the
    /// counterpart of `stage_set` for `delete`.
    pub fn stage_delete(&self, key: &String) -> (rec: Vec<u8>)
        requires
            op_encodable(OpView::Delete { key: key@ }),
        ensures
            rec@ == record_of(OpView::Delete { key: key@ }),
    {
        encode_record(&Operation::Delete { key: key.clone() })
    }

    /// Unbinds `key`: appends the delete to the log image — also when the
    /// key was absent, since replaying such a delete is a no-op — applies
    /// it, and publishes a change only when a binding existed. The host
    /// calls this only after the staged record (see `stage_delete`) is
    /// durably in the log file.
    pub fn delete(&mut self, key: &String) -> (existed: bool)
        requires
            old(self).wf(),
            op_encodable(OpView::Delete { key: key@ }),
        ensures
            final(self).wf(),
            existed == old(self).mapping().contains_key(key@),
            final(self).mapping() == old(self).mapping().remove(key@),
            final(self).log_ops() == old(self).log_ops().push(OpView::Delete { key: key@ }),
            final(self).log_bytes() == old(self).log_bytes() + record_of(
                OpView::Delete { key: key@ },
            ),
            final(self).dirty() == (old(self).dirty() || existed),
            final(self).snapshot_map() == old(self).snapshot_map(),
            final(self).events_view() == if old(self).mapping().contains_key(key@) {
                old(self).events_view().push(EventView::Delete { key: key@ })
            } else {
                old(self).events_view()
            },
            final(self).subscriber_ids() == old(self).subscriber_ids(),
    {
        let op = Operation::Delete { key: key.clone() };
        let _ = self.wal.append(&op);
        proof {
            lemma_apply_ops_push(self.snapshot@, old(self).wal.ops(), op@);
        }
        let existed = self.storage.remove_entry(key);
        if existed {
            let event = ChangeEvent::Delete { key: key.clone() };
            let _ = self.event_bus.publish(&event);
            self.events = Ghost(self.events@.push(event@));
        }
        existed
    }

    /// Reads one key from storage: no log record, no event.
    pub fn get(&self, key: &String) -> (r: Option<Vec<u8>>)
        requires
            self.wf(),
        ensures
            match r {
                Some(v) => self.mapping().contains_key(key@) && v@ == self.mapping()[key@],
                None => !self.mapping().contains_key(key@),
            },
    {
        self.storage.retrieve(key)
    }

    /// Every currently bound key, each exactly once, in no promised order.
    pub fn list_keys(&self) -> (r: Vec<String>)
        requires
            self.wf(),
        ensures
            forall|i: int| 0 <= i < r@.len() ==> self.mapping().contains_key(#[trigger] r@[i]@),
            forall|k: Seq<char>|
                self.mapping().contains_key(k) ==> exists|i: int|
                    0 <= i < r@.len() && #[trigger] r@[i]@ == k,
            forall|i: int, j: int| 0 <= i < j < r@.len() ==> r@[i]@ != r@[j]@,
    {
        self.storage.list_keys()
    }

    /// Registers a subscriber; the host runs one worker on the returned
    /// receivers that calls the subscriber's callback once per event, in
    /// publication order, until the shutdown channel fires or closes.
    pub fn subscribe(&mut self) -> (r: (SubscriptionHandle, Receiver<ChangeEvent>, Receiver<()>))
        requires
            old(self).wf(),
        ensures
            final(self).wf(),
            final(self).subscriber_ids() == old(self).subscriber_ids().push(r.0.id_spec()),
            forall|j: int|
                0 <= j < old(self).subscriber_ids().len() ==> old(self).subscriber_ids()[j]
                    != r.0.id_spec(),
            final(self).mapping() == old(self).mapping(),
            final(self).log_ops() == old(self).log_ops(),
            final(self).snapshot_map() == old(self).snapshot_map(),
            final(self).events_view() == old(self).events_view(),
    {
        self.event_bus.subscribe()
    }

    /// Forces a snapshot: when anything changed since the last flush, hands
    /// back the bytes the host must write over the snapshot file, and those
    /// bytes decode back to exactly the current mapping. When nothing
    /// changed, hands back nothing and the file is left alone. Replay stays
    /// correct either way because replay is idempotent: the untruncated log,
    /// replayed over the new snapshot, rebuilds the same mapping.
    pub fn flush(&mut self) -> (r: Option<Vec<u8>>)
        requires
            old(self).wf(),
        ensures
            final(self).wf(),
            final(self).mapping() == old(self).mapping(),
            final(self).log_ops() == old(self).log_ops(),
            final(self).events_view() == old(self).events_view(),
            final(self).subscriber_ids() == old(self).subscriber_ids(),
            r is Some <==> old(self).dirty(),
            !final(self).dirty(),
            match r {
                Some(b) => wal_wf(b@) && apply_ops(Map::<Seq<char>, Seq<u8>>::empty(), wal_ops(b@))
                    == old(self).mapping() && final(self).snapshot_map() == old(self).mapping(),
                None => final(self).snapshot_map() == old(self).snapshot_map(),
            },
    {
        let r = self.storage.flush();
        match r {
            Some(b) => {
                proof {
                    lemma_replay_idempotent(self.snapshot@, self.wal.ops());
                }
                self.snapshot = Ghost(self.storage.mapping());
                Some(b)
            },
            None => None,
        }
    }
}

/// Recovery reconstructs a session: operations run against an initially
/// empty store, logged in order and never flushed, replay from the written
/// log against the empty snapshot into exactly the mapping the same
/// operations built live.
pub proof fn lemma_recovery_reconstructs(ops: Seq<OpView>)
    requires
        forall|i: int| 0 <= i < ops.len() ==> op_encodable(#[trigger] ops[i]),
    ensures
        wal_wf(wal_bytes_of(ops)),
        apply_ops(Map::<Seq<char>, Seq<u8>>::empty(), wal_ops(wal_bytes_of(ops))) == apply_ops(
            Map::<Seq<char>, Seq<u8>>::empty(),
            ops,
        ),
{
    lemma_wal_round_trip(ops);
}

} // verus!
