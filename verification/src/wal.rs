//! The write-ahead log component. It owns the in-memory image of the log
//! file: the host reads the file into `from_bytes` at startup, appends to the
//! file exactly the bytes each `append` returns, and empties the file when it
//! calls `truncate`. Every durability decision — what a record looks like,
//! what the log holds, where a damaged log ends — is made and proved here.

use vstd::prelude::*;
use vstd::slice::*;

use crate::codec::{
    decode_wal, encode_record, lemma_wal_append, op_encodable, record_of, views_of, wal_ops,
    wal_wf,
};
use crate::ops::{OpView, Operation};

verus! {

/// An append-only log of operations, held as the image of the log file.
pub struct WriteAheadLog {
    log: Vec<u8>,
}

impl View for WriteAheadLog {
    type V = Seq<u8>;

    closed spec fn view(&self) -> Seq<u8> {
        self.log@
    }
}

impl WriteAheadLog {
    /// The image is a whole number of decodable records.
    pub open spec fn wf(&self) -> bool {
        wal_wf(self@)
    }

    /// The operations the log holds, in file order.
    pub open spec fn ops(&self) -> Seq<OpView> {
        wal_ops(self@)
    }

    /// An empty log.
    pub fn new() -> (r: WriteAheadLog)
        ensures
            r.wf(),
            r@ == Seq::<u8>::empty(),
            r.ops() == Seq::<OpView>::empty(),
    {
        let r = WriteAheadLog { log: Vec::new() };
        proof {
            assert(wal_ops(r@) =~= Seq::<OpView>::empty());
        }
        r
    }

    /// Adopts a log file image. A trailing truncated or undecodable record —
    /// what a crash in the middle of an append leaves — is discarded, and no
    /// operation is lost by that: the kept prefix holds every operation a
    /// reader of the whole image would see. The host should cut the file to
    /// `len()` so later appends land after the last whole record.
    pub fn from_bytes(bytes: Vec<u8>) -> (r: WriteAheadLog)
        ensures
            r.wf(),
            r@.len() <= bytes@.len(),
            r@ == bytes@.subrange(0, r@.len() as int),
            r.ops() == wal_ops(bytes@),
    {
        let (_, clean_len) = decode_wal(&bytes);
        let mut log = bytes;
        log.truncate(clean_len);
        WriteAheadLog { log }
    }

    /// How many bytes the log image holds.
    pub fn len(&self) -> (n: usize)
        ensures
            n == self@.len(),
    {
        self.log.len()
    }

    /// The whole image, for a host that persists it anew.
    pub fn bytes(&self) -> (r: &Vec<u8>)
        ensures
            r@ == self@,
    {
        &self.log
    }

    /// Logs one operation: appends its record to the image and hands the
    /// same bytes back for the host to append to the log file and force to
    /// stable storage before it relies on the call.
    pub fn append(&mut self, op: &Operation) -> (rec: Vec<u8>)
        requires
            old(self).wf(),
            op_encodable(op@),
        ensures
            final(self).wf(),
            rec@ == record_of(op@),
            final(self)@ == old(self)@ + rec@,
            final(self).ops() == old(self).ops().push(op@),
    {
        proof {
            lemma_wal_append(self.log@, op@);
        }
        let rec = encode_record(op);
        let mut copy = slice_to_vec(rec.as_slice());
        self.log.append(&mut copy);
        rec
    }

    /// Reads the operations back, in file order, for replay against a
    /// storage backend.
    pub fn replay(&self) -> (r: Vec<Operation>)
        requires
            self.wf(),
        ensures
            views_of(r@) == self.ops(),
            forall|i: int| 0 <= i < r@.len() ==> op_encodable(#[trigger] r@[i]@),
    {
        let (ops, _) = decode_wal(&self.log);
        ops
    }

    /// Empties the log; the host deletes and recreates the file empty.
    pub fn truncate(&mut self)
        ensures
            final(self).wf(),
            final(self)@ == Seq::<u8>::empty(),
            final(self).ops() == Seq::<OpView>::empty(),
    {
        self.log.clear();
        proof {
            assert(wal_ops(self.log@) =~= Seq::<OpView>::empty());
        }
    }
}

} // verus!
