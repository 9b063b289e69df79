//! Storage backends. A backend holds the authoritative key→value mapping in
//! memory; the file-backed one additionally converts that mapping to and from
//! snapshot bytes and tracks a dirty flag, so its host only moves bytes
//! between these methods and the snapshot file.

use vstd::prelude::*;
use vstd::slice::*;
use vstd::string::StringExecFns;

use crate::codec::{
    decode_wal, encode_record, lemma_wal_append, op_encodable, views_of, wal_ops, wal_wf,
};
use crate::errors::DbError;
use crate::kvmap::{entry_map, lemma_entry_map_index, KvMap};
use crate::ops::{
    apply_ops, last_write, lemma_apply_ops_pointwise, lemma_apply_ops_push, op_key,
    OpView, Operation,
};

verus! {

/// Every binding is small enough to be written as one log record.
pub open spec fn map_encodable(m: Map<Seq<char>, Seq<u8>>) -> bool {
    forall|k: Seq<char>|
        m.contains_key(k) ==> op_encodable(OpView::Put { key: k, value: m[k] })
}

/// The put operations that rewrite an entry sequence from scratch.
pub open spec fn put_views(s: Seq<(String, Vec<u8>)>) -> Seq<OpView> {
    s.map_values(|e: (String, Vec<u8>)| OpView::Put { key: e.0@, value: e.1@ })
}

/// Writing every entry as a put, in order, rebuilds the entry sequence's map.
pub proof fn lemma_apply_puts(s: Seq<(String, Vec<u8>)>)
    ensures
        apply_ops(Map::<Seq<char>, Seq<u8>>::empty(), put_views(s)) == entry_map(s),
    decreases s.len(),
{
    if s.len() > 0 {
        lemma_apply_puts(s.drop_last());
        assert(put_views(s).drop_last() =~= put_views(s.drop_last()));
        assert(put_views(s).last() == (OpView::Put { key: s.last().0@, value: s.last().1@ }));
    }
}

/// Replaying operations that are each encodable keeps every binding
/// encodable: each surviving binding was put by one of the operations or was
/// already there.
pub proof fn lemma_apply_ops_encodable(m: Map<Seq<char>, Seq<u8>>, ops: Seq<OpView>)
    requires
        map_encodable(m),
        forall|i: int| 0 <= i < ops.len() ==> op_encodable(#[trigger] ops[i]),
    ensures
        map_encodable(apply_ops(m, ops)),
{
    let m1 = apply_ops(m, ops);
    assert forall|k: Seq<char>| m1.contains_key(k) implies op_encodable(
        OpView::Put { key: k, value: m1[k] },
    ) by {
        lemma_apply_ops_pointwise(m, ops, k);
        match last_write(ops, k) {
            None => {
                assert(m.contains_key(k));
                assert(op_encodable(OpView::Put { key: k, value: m[k] }));
            },
            Some(op) => {
                lemma_last_write_member(ops, k);
                let i = choose|i: int| 0 <= i < ops.len() && ops[i] == op;
                assert(op_encodable(ops[i]));
                match op {
                    OpView::Put { key, value } => {
                        assert(key == k);
                        assert(m1[k] == value);
                    },
                    OpView::Delete { .. } => {
                        assert(!m1.contains_key(k));
                    },
                }
            },
        }
    }
}

/// The last write to a key, when there is one, is one of the operations, and
/// it touches that key.
proof fn lemma_last_write_member(ops: Seq<OpView>, k: Seq<char>)
    requires
        last_write(ops, k) is Some,
    ensures
        exists|i: int| 0 <= i < ops.len() && ops[i] == last_write(ops, k)->Some_0,
        op_key(last_write(ops, k)->Some_0) == k,
    decreases ops.len(),
{
    if ops.len() > 0 && op_key(ops.last()) != k {
        lemma_last_write_member(ops.drop_last(), k);
        let i = choose|i: int|
            0 <= i < ops.drop_last().len() && ops.drop_last()[i] == last_write(
                ops.drop_last(),
                k,
            )->Some_0;
        assert(ops[i] == last_write(ops, k)->Some_0);
    }
}

/// The in-memory capability set every storage backend offers. The mapping a
/// backend holds and its internal validity are given by each implementation;
/// the methods read and change that mapping exactly as stated here.
pub trait StorageEngine: Sized {
    /// The key→value mapping the backend currently holds.
    spec fn mapping(&self) -> Map<Seq<char>, Seq<u8>>;

    /// The backend's internal validity.
    spec fn inv(&self) -> bool;

    /// Which bindings the backend accepts (a persistent backend bounds them
    /// by what its record format can carry).
    spec fn accepts(&self, key: Seq<char>, value: Seq<u8>) -> bool;

    /// Binds `key` to `value`, replacing any earlier binding.
    fn store(&mut self, key: String, value: Vec<u8>)
        requires
            old(self).inv(),
            old(self).accepts(key@, value@),
        ensures
            final(self).inv(),
            final(self).mapping() == old(self).mapping().insert(key@, value@),
    ;

    /// The value bound to `key`, if any.
    fn retrieve(&self, key: &String) -> (r: Option<Vec<u8>>)
        requires
            self.inv(),
        ensures
            match r {
                Some(v) => self.mapping().contains_key(key@) && v@ == self.mapping()[key@],
                None => !self.mapping().contains_key(key@),
            },
    ;

    /// Unbinds `key`; reports whether a binding existed.
    fn remove(&mut self, key: &String) -> (existed: bool)
        requires
            old(self).inv(),
        ensures
            final(self).inv(),
            existed == old(self).mapping().contains_key(key@),
            final(self).mapping() == old(self).mapping().remove(key@),
    ;

    /// Every bound key, each exactly once, in no promised order.
    fn list_keys(&self) -> (r: Vec<String>)
        requires
            self.inv(),
        ensures
            forall|i: int| 0 <= i < r@.len() ==> self.mapping().contains_key(#[trigger] r@[i]@),
            forall|k: Seq<char>|
                self.mapping().contains_key(k) ==> exists|i: int|
                    0 <= i < r@.len() && #[trigger] r@[i]@ == k,
            forall|i: int, j: int| 0 <= i < j < r@.len() ==> r@[i]@ != r@[j]@,
    ;
}

/// A backend with no persistence: reads and writes the mapping and nothing
/// else. Meant for testing and caching.
pub struct InMemoryStorageEngine {
    data: KvMap,
}

impl InMemoryStorageEngine {
    /// An empty in-memory backend.
    pub fn new() -> (r: InMemoryStorageEngine)
        ensures
            r.inv(),
            r.mapping() == Map::<Seq<char>, Seq<u8>>::empty(),
    {
        InMemoryStorageEngine { data: KvMap::new() }
    }

    /// Nothing to load: the mapping starts and stays as it is.
    pub fn initialize(&mut self)
        requires
            old(self).inv(),
        ensures
            final(self).inv(),
            final(self).mapping() == old(self).mapping(),
    {
    }

    /// Nothing to persist: a no-op.
    pub fn flush(&mut self)
        requires
            old(self).inv(),
        ensures
            final(self).inv(),
            final(self).mapping() == old(self).mapping(),
    {
    }
}

impl StorageEngine for InMemoryStorageEngine {
    closed spec fn mapping(&self) -> Map<Seq<char>, Seq<u8>> {
        self.data@
    }

    closed spec fn inv(&self) -> bool {
        self.data.wf()
    }

    open spec fn accepts(&self, key: Seq<char>, value: Seq<u8>) -> bool {
        true
    }

    fn store(&mut self, key: String, value: Vec<u8>) {
        self.data.insert(key, value);
    }

    fn retrieve(&self, key: &String) -> (r: Option<Vec<u8>>) {
        match self.data.get(key) {
            Some(v) => Some(slice_to_vec(v.as_slice())),
            None => None,
        }
    }

    fn remove(&mut self, key: &String) -> (existed: bool) {
        self.data.remove(key)
    }

    fn list_keys(&self) -> (r: Vec<String>) {
        self.data.key_list()
    }
}

/// A backend whose mapping is persisted wholesale as a snapshot: the host
/// reads the snapshot file into `initialize` and writes what `flush` returns
/// back to it. A dirty flag set on every mutation keeps an un-mutated store
/// from ever rewriting the file.
pub struct FileStorageEngine {
    data: KvMap,
    data_dir: String,
    dirty: bool,
}

impl FileStorageEngine {
    /// Whether the mapping changed since the last flush.
    pub closed spec fn is_dirty(&self) -> bool {
        self.dirty
    }

    /// The configured data directory.
    pub closed spec fn dir(&self) -> Seq<char> {
        self.data_dir@
    }

    /// An empty file-backed backend for the given data directory.
    pub fn new(data_dir: String) -> (r: FileStorageEngine)
        ensures
            r.inv(),
            r.mapping() == Map::<Seq<char>, Seq<u8>>::empty(),
            !r.is_dirty(),
            r.dir() == data_dir@,
    {
        FileStorageEngine { data: KvMap::new(), data_dir, dirty: false }
    }

    /// Where the snapshot lives under the data directory.
    pub fn data_file_path(&self) -> (r: String)
        ensures
            r@ == self.dir() + "/data.db"@,
    {
        self.data_dir.clone().concat("/data.db")
    }

    /// Binds `key` to `value` and marks the store dirty: every mutating call
    /// leaves something for the next flush to persist.
    pub fn store_entry(&mut self, key: String, value: Vec<u8>)
        requires
            old(self).inv(),
            op_encodable(OpView::Put { key: key@, value: value@ }),
        ensures
            final(self).inv(),
            final(self).mapping() == old(self).mapping().insert(key@, value@),
            final(self).is_dirty(),
            final(self).dir() == old(self).dir(),
    {
        self.data.insert(key, value);
        self.dirty = true;
    }

    /// Unbinds `key`; the store becomes dirty exactly when a binding
    /// existed — removing nothing changes nothing.
    pub fn remove_entry(&mut self, key: &String) -> (existed: bool)
        requires
            old(self).inv(),
        ensures
            final(self).inv(),
            existed == old(self).mapping().contains_key(key@),
            final(self).mapping() == old(self).mapping().remove(key@),
            final(self).is_dirty() == (old(self).is_dirty() || existed),
            final(self).dir() == old(self).dir(),
    {
        let existed = self.data.remove(key);
        if existed {
            self.dirty = true;
        }
        existed
    }

    /// Loads a snapshot: `None` (no file) or empty bytes (a file with
    /// nothing in it) keep the mapping as it was; non-empty bytes are
    /// decoded in full, fail-fast — a snapshot with anything undecodable in
    /// it is rejected whole and the mapping is left as it was.
    pub fn initialize(&mut self, snapshot: &Option<Vec<u8>>) -> (r: Result<(), DbError>)
        requires
            old(self).inv(),
        ensures
            final(self).inv(),
            final(self).is_dirty() == old(self).is_dirty(),
            final(self).dir() == old(self).dir(),
            match *snapshot {
                None => r is Ok && final(self).mapping() == old(self).mapping(),
                Some(b) => {
                    if b@.len() == 0 {
                        r is Ok && final(self).mapping() == old(self).mapping()
                    } else if wal_wf(b@) {
                        r is Ok && final(self).mapping() == apply_ops(
                            Map::<Seq<char>, Seq<u8>>::empty(),
                            wal_ops(b@),
                        )
                    } else {
                        r is Err && r->Err_0 == DbError::SerializationError
                            && final(self).mapping() == old(self).mapping()
                    }
                },
            },
    {
        match snapshot {
            None => Ok(()),
            Some(bytes) => {
                if bytes.len() == 0 {
                    return Ok(());
                }
                let (ops, clean_len) = decode_wal(bytes);
                if clean_len != bytes.len() {
                    proof {
                        lemma_wal_wf_whole(bytes@, clean_len as int);
                    }
                    return Err(DbError::SerializationError);
                }
                proof {
                    assert(bytes@.subrange(0, bytes@.len() as int) =~= bytes@);
                }
                let loaded = apply_to_map(KvMap::new(), &ops);
                self.data = loaded;
                proof {
                    lemma_apply_ops_encodable(
                        Map::<Seq<char>, Seq<u8>>::empty(),
                        views_of(ops@),
                    );
                }
                Ok(())
            },
        }
    }

    /// The bytes to persist, when there is anything new to persist: `Some`
    /// exactly when the mapping changed since the last flush, holding a
    /// snapshot that decodes back to the current mapping. Clears the flag.
    pub fn flush(&mut self) -> (r: Option<Vec<u8>>)
        requires
            old(self).inv(),
        ensures
            final(self).inv(),
            final(self).mapping() == old(self).mapping(),
            final(self).dir() == old(self).dir(),
            !final(self).is_dirty(),
            r is Some <==> old(self).is_dirty(),
            match r {
                Some(b) => wal_wf(b@) && apply_ops(Map::<Seq<char>, Seq<u8>>::empty(), wal_ops(b@))
                    == old(self).mapping(),
                None => true,
            },
    {
        if !self.dirty {
            return None;
        }
        self.dirty = false;
        Some(self.snapshot_bytes())
    }

    /// Encodes the whole mapping as a sequence of put records.
    fn snapshot_bytes(&self) -> (r: Vec<u8>)
        requires
            self.inv(),
        ensures
            wal_wf(r@),
            apply_ops(Map::<Seq<char>, Seq<u8>>::empty(), wal_ops(r@)) == self.mapping(),
    {
        let n = self.data.num_entries();
        let mut out: Vec<u8> = Vec::new();
        let mut i: usize = 0;
        proof {
            assert(wal_ops(out@) =~= Seq::<OpView>::empty());
            assert(put_views(self.data.entries_seq().take(0)) =~= Seq::<OpView>::empty());
        }
        while i < n
            invariant
                self.inv(),
                n == self.data.entries_seq().len(),
                i <= n,
                wal_wf(out@),
                wal_ops(out@) == put_views(self.data.entries_seq().take(i as int)),
            decreases n - i,
        {
            let ghost entries = self.data.entries_seq();
            let key = self.data.entry_key(i).clone();
            let value = slice_to_vec(self.data.entry_value(i).as_slice());
            proof {
                lemma_entry_map_index(entries, i as int);
                self.data.lemma_view_is_entry_map();
                assert(op_encodable(OpView::Put { key: key@, value: value@ }));
            }
            let op = Operation::Put { key, value };
            let mut rec = encode_record(&op);
            proof {
                lemma_wal_append(out@, op@);
            }
            out.append(&mut rec);
            i = i + 1;
            proof {
                assert(put_views(entries.take(i as int)) =~= put_views(
                    entries.take(i as int - 1),
                ).push(op@));
            }
        }
        proof {
            assert(self.data.entries_seq().take(n as int) =~= self.data.entries_seq());
            lemma_apply_puts(self.data.entries_seq());
            self.data.lemma_view_is_entry_map();
        }
        out
    }
}

impl StorageEngine for FileStorageEngine {
    closed spec fn mapping(&self) -> Map<Seq<char>, Seq<u8>> {
        self.data@
    }

    closed spec fn inv(&self) -> bool {
        self.data.wf() && map_encodable(self.data@)
    }

    open spec fn accepts(&self, key: Seq<char>, value: Seq<u8>) -> bool {
        op_encodable(OpView::Put { key, value })
    }

    fn store(&mut self, key: String, value: Vec<u8>) {
        self.store_entry(key, value);
    }

    fn retrieve(&self, key: &String) -> (r: Option<Vec<u8>>) {
        match self.data.get(key) {
            Some(v) => Some(slice_to_vec(v.as_slice())),
            None => None,
        }
    }

    fn remove(&mut self, key: &String) -> (existed: bool) {
        self.remove_entry(key)
    }

    fn list_keys(&self) -> (r: Vec<String>) {
        self.data.key_list()
    }
}

/// A log image whose clean prefix is shorter than the image holds a trailing
/// truncated or undecodable record, so it is not well formed as a whole.
proof fn lemma_wal_wf_whole(b: Seq<u8>, clean: int)
    requires
        0 <= clean <= b.len(),
        wal_wf(b.subrange(0, clean)),
        wal_ops(b.subrange(0, clean)) == wal_ops(b),
        clean < b.len(),
    ensures
        !wal_wf(b),
{
    if wal_wf(b) {
        lemma_wal_wf_ops_count(b);
        lemma_wal_wf_ops_count(b.subrange(0, clean));
    }
}

/// On a well-formed log the byte length is pinned by the operations it
/// holds, so two well-formed logs holding the same operations have the same
/// length.
proof fn lemma_wal_wf_ops_count(b: Seq<u8>)
    requires
        wal_wf(b),
    ensures
        b.len() == wal_bytes_len(wal_ops(b)),
    decreases b.len(),
{
    if b.len() > 0 {
        let len0 = vstd::bytes::spec_u32_from_le_bytes(b.subrange(0, 4)) as int;
        let rest = b.subrange(4 + len0, b.len() as int);
        let p = b.subrange(4, 4 + len0);
        lemma_wal_wf_ops_count(rest);
        assert(p.len() == len0 && len0 <= 0xFFFF_FFFF);
        crate::codec::lemma_parse_canonical(p);
        assert(wal_ops(b).drop_first() =~= wal_ops(rest));
        assert(wal_ops(b).first() == crate::codec::parse_payload(p)->Some_0);
    }
}

/// The total byte length the given operations occupy on disk.
pub open spec fn wal_bytes_len(ops: Seq<OpView>) -> int
    decreases ops.len(),
{
    if ops.len() == 0 {
        0
    } else {
        wal_bytes_len(ops.drop_first()) + 4 + crate::codec::payload_of(ops.first()).len()
    }
}

/// Builds a mapping by applying each decoded operation in order.
fn apply_to_map(start: KvMap, ops: &Vec<Operation>) -> (r: KvMap)
    requires
        start.wf(),
    ensures
        r.wf(),
        r@ == apply_ops(start@, views_of(ops@)),
{
    let ghost m0 = start@;
    let mut m = start;
    let n = ops.len();
    let mut i: usize = 0;
    proof {
        assert(views_of(ops@).take(0) =~= Seq::<OpView>::empty());
    }
    while i < n
        invariant
            m.wf(),
            n == ops@.len(),
            i <= n,
            m@ == apply_ops(m0, views_of(ops@).take(i as int)),
        decreases n - i,
    {
        let ghost taken = views_of(ops@).take(i as int);
        match &ops[i] {
            Operation::Put { key, value } => {
                m.insert(key.clone(), slice_to_vec(value.as_slice()));
            },
            Operation::Delete { key } => {
                let _ = m.remove(key);
            },
        }
        i = i + 1;
        proof {
            assert(views_of(ops@).take(i as int) =~= taken.push(ops@[i as int - 1]@));
            lemma_apply_ops_push(m0, taken, ops@[i as int - 1]@);
        }
    }
    proof {
        assert(views_of(ops@).take(n as int) =~= views_of(ops@));
    }
    m
}

} // verus!
