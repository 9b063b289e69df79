//! The binary format of the persisted files. A log is a sequence of records,
//! each a 4-byte little-endian length prefix followed by that many payload
//! bytes. A payload is one `Operation`: a 4-byte little-endian tag (0 a put,
//! 1 a delete), an 8-byte little-endian key length, the key's UTF-8 bytes,
//! and for a put an 8-byte little-endian value length and the value bytes.
//! A reader stops, without failing, at a trailing truncated or undecodable
//! record, so a crash in the middle of an append never poisons the log.

use vstd::bytes::*;
use vstd::prelude::*;
use vstd::slice::*;
use vstd::utf8::*;

use crate::ops::{OpView, Operation};

verus! {

/// The payload length limit the 4-byte length prefix forces.
pub open spec fn op_encodable(op: OpView) -> bool {
    match op {
        OpView::Put { key, value } => encode_utf8(key).len() + value.len() + 20 <= 0xFFFF_FFFF,
        OpView::Delete { key } => encode_utf8(key).len() + 12 <= 0xFFFF_FFFF,
    }
}

/// The payload bytes of one operation.
pub open spec fn payload_of(op: OpView) -> Seq<u8> {
    match op {
        OpView::Put { key, value } => spec_u32_to_le_bytes(0u32) + spec_u64_to_le_bytes(
            encode_utf8(key).len() as u64,
        ) + encode_utf8(key) + spec_u64_to_le_bytes(value.len() as u64) + value,
        OpView::Delete { key } => spec_u32_to_le_bytes(1u32) + spec_u64_to_le_bytes(
            encode_utf8(key).len() as u64,
        ) + encode_utf8(key),
    }
}

/// The full record of one operation: length prefix, then payload.
pub open spec fn record_of(op: OpView) -> Seq<u8> {
    spec_u32_to_le_bytes(payload_of(op).len() as u32) + payload_of(op)
}

/// What one payload decodes to, if anything. Decoding is strict: the tag must
/// be known, the lengths must account for every byte, and the key bytes must
/// be valid UTF-8.
pub open spec fn parse_payload(b: Seq<u8>) -> Option<OpView> {
    if b.len() < 12 {
        None
    } else {
        let tag = spec_u32_from_le_bytes(b.subrange(0, 4));
        let klen = spec_u64_from_le_bytes(b.subrange(4, 12)) as int;
        if tag == 0 {
            if b.len() < 20 + klen {
                None
            } else {
                let kb = b.subrange(12, 12 + klen);
                let vlen = spec_u64_from_le_bytes(b.subrange(12 + klen, 20 + klen)) as int;
                if b.len() == 20 + klen + vlen && valid_utf8(kb) {
                    Some(
                        OpView::Put {
                            key: decode_utf8(kb),
                            value: b.subrange(20 + klen, b.len() as int),
                        },
                    )
                } else {
                    None
                }
            }
        } else if tag == 1 {
            let kb = b.subrange(12, b.len() as int);
            if b.len() == 12 + klen && valid_utf8(kb) {
                Some(OpView::Delete { key: decode_utf8(kb) })
            } else {
                None
            }
        } else {
            None
        }
    }
}

/// The operations a log byte sequence holds, in file order, up to the first
/// truncated or undecodable record.
pub open spec fn wal_ops(b: Seq<u8>) -> Seq<OpView>
    decreases b.len(),
{
    if b.len() < 4 {
        Seq::empty()
    } else {
        let len = spec_u32_from_le_bytes(b.subrange(0, 4)) as int;
        if b.len() < 4 + len {
            Seq::empty()
        } else {
            match parse_payload(b.subrange(4, 4 + len)) {
                Some(op) => seq![op] + wal_ops(b.subrange(4 + len, b.len() as int)),
                None => Seq::empty(),
            }
        }
    }
}

/// The byte sequence is a whole number of decodable records: nothing of it is
/// discarded when it is read back.
pub open spec fn wal_wf(b: Seq<u8>) -> bool
    decreases b.len(),
{
    if b.len() == 0 {
        true
    } else if b.len() < 4 {
        false
    } else {
        let len = spec_u32_from_le_bytes(b.subrange(0, 4)) as int;
        &&& b.len() >= 4 + len
        &&& parse_payload(b.subrange(4, 4 + len)) is Some
        &&& wal_wf(b.subrange(4 + len, b.len() as int))
    }
}

/// The log image that holds exactly the given operations.
pub open spec fn wal_bytes_of(ops: Seq<OpView>) -> Seq<u8>
    decreases ops.len(),
{
    if ops.len() == 0 {
        Seq::empty()
    } else {
        wal_bytes_of(ops.drop_last()) + record_of(ops.last())
    }
}

/// The views of a sequence of operations.
pub open spec fn views_of(ops: Seq<Operation>) -> Seq<OpView> {
    ops.map_values(|op: Operation| op@)
}

/// Encoding an operation and decoding the payload gives the operation back.
pub proof fn lemma_parse_payload_of(op: OpView)
    requires
        op_encodable(op),
    ensures
        parse_payload(payload_of(op)) == Some(op),
        payload_of(op).len() <= 0xFFFF_FFFF,
{
    lemma_auto_spec_u32_to_from_le_bytes();
    lemma_auto_spec_u64_to_from_le_bytes();
    let p = payload_of(op);
    match op {
        OpView::Put { key, value } => {
            let kb = encode_utf8(key);
            encode_utf8_valid_utf8(key);
            encode_utf8_decode_utf8(key);
            assert(p.len() == 20 + kb.len() + value.len());
            assert(p.subrange(0, 4) =~= spec_u32_to_le_bytes(0u32));
            assert(p.subrange(4, 12) =~= spec_u64_to_le_bytes(kb.len() as u64));
            assert(p.subrange(12, 12 + kb.len() as int) =~= kb);
            assert(p.subrange(12 + kb.len() as int, 20 + kb.len() as int) =~= spec_u64_to_le_bytes(
                value.len() as u64,
            ));
            assert(p.subrange(20 + kb.len() as int, p.len() as int) =~= value);
        },
        OpView::Delete { key } => {
            let kb = encode_utf8(key);
            encode_utf8_valid_utf8(key);
            encode_utf8_decode_utf8(key);
            assert(p.len() == 12 + kb.len());
            assert(p.subrange(0, 4) =~= spec_u32_to_le_bytes(1u32));
            assert(p.subrange(4, 12) =~= spec_u64_to_le_bytes(kb.len() as u64));
            assert(p.subrange(12, p.len() as int) =~= kb);
        },
    }
}

/// Decoding is canonical: a payload that decodes is exactly the encoding of
/// what it decodes to.
pub proof fn lemma_parse_canonical(p: Seq<u8>)
    requires
        parse_payload(p) is Some,
        p.len() <= 0xFFFF_FFFF,
    ensures
        op_encodable(parse_payload(p)->Some_0),
        payload_of(parse_payload(p)->Some_0) == p,
{
    lemma_auto_spec_u32_to_from_le_bytes();
    lemma_auto_spec_u64_to_from_le_bytes();
    let op = parse_payload(p)->Some_0;
    let tag = spec_u32_from_le_bytes(p.subrange(0, 4));
    let klen = spec_u64_from_le_bytes(p.subrange(4, 12)) as int;
    if tag == 0 {
        let kb = p.subrange(12, 12 + klen);
        let vlen = spec_u64_from_le_bytes(p.subrange(12 + klen, 20 + klen)) as int;
        decode_utf8_encode_utf8(kb);
        assert(encode_utf8(decode_utf8(kb)) == kb);
        assert(kb.len() == klen);
        let q = payload_of(op);
        assert(q.subrange(0, 4) =~= spec_u32_to_le_bytes(0u32));
        assert(q =~= p) by {
            assert(spec_u32_to_le_bytes(tag) =~= p.subrange(0, 4));
            assert(spec_u64_to_le_bytes(klen as u64) =~= p.subrange(4, 12));
            assert(spec_u64_to_le_bytes(vlen as u64) =~= p.subrange(12 + klen, 20 + klen));
            assert(op->Put_value =~= p.subrange(20 + klen, p.len() as int));
        }
    } else {
        let kb = p.subrange(12, p.len() as int);
        decode_utf8_encode_utf8(kb);
        assert(encode_utf8(decode_utf8(kb)) == kb);
        assert(kb.len() == klen);
        let q = payload_of(op);
        assert(q =~= p) by {
            assert(spec_u32_to_le_bytes(tag) =~= p.subrange(0, 4));
            assert(spec_u64_to_le_bytes(klen as u64) =~= p.subrange(4, 12));
        }
    }
}

/// Appending one encoded record to a clean log keeps it clean and appends
/// exactly that operation to what the log holds.
pub proof fn lemma_wal_append(b: Seq<u8>, op: OpView)
    requires
        wal_wf(b),
        op_encodable(op),
    ensures
        wal_wf(b + record_of(op)),
        wal_ops(b + record_of(op)) == wal_ops(b).push(op),
    decreases b.len(),
{
    lemma_auto_spec_u32_to_from_le_bytes();
    lemma_parse_payload_of(op);
    let r = record_of(op);
    let p = payload_of(op);
    let c = b + r;
    if b.len() == 0 {
        assert(c =~= r);
        assert(c.subrange(0, 4) =~= spec_u32_to_le_bytes(p.len() as u32));
        assert(spec_u32_from_le_bytes(c.subrange(0, 4)) as int == p.len());
        assert(c.subrange(4, 4 + p.len() as int) =~= p);
        assert(c.subrange(4 + p.len() as int, c.len() as int) =~= Seq::<u8>::empty());
        assert(wal_ops(Seq::<u8>::empty()) =~= Seq::<OpView>::empty());
        assert(wal_wf(Seq::<u8>::empty()));
        assert(wal_ops(c) =~= seq![op] + Seq::<OpView>::empty());
        assert(wal_ops(c) =~= seq![op]);
        assert(wal_ops(b) =~= Seq::<OpView>::empty());
        assert(wal_ops(b).push(op) =~= seq![op]);
        assert(wal_wf(c));
    } else {
        let len0 = spec_u32_from_le_bytes(b.subrange(0, 4)) as int;
        let rest = b.subrange(4 + len0, b.len() as int);
        let op0 = parse_payload(b.subrange(4, 4 + len0))->Some_0;
        assert(b.len() >= 4 + len0 && parse_payload(b.subrange(4, 4 + len0)) is Some && wal_wf(
            rest,
        ));
        assert(c.subrange(0, 4) =~= b.subrange(0, 4));
        assert(c.len() >= 4 + len0);
        assert(c.subrange(4, 4 + len0) =~= b.subrange(4, 4 + len0));
        assert(c.subrange(4 + len0, c.len() as int) =~= rest + r);
        lemma_wal_append(rest, op);
        assert(wal_ops(c) =~= seq![op0] + wal_ops(rest).push(op));
        assert(wal_ops(b) =~= seq![op0] + wal_ops(rest));
        assert(seq![op0] + wal_ops(rest).push(op) =~= (seq![op0] + wal_ops(rest)).push(op));
        assert(wal_wf(c));
    }
}

/// Writing out a sequence of operations and reading the log back gives the
/// same sequence: nothing is lost, reordered, or invented.
pub proof fn lemma_wal_round_trip(ops: Seq<OpView>)
    requires
        forall|i: int| 0 <= i < ops.len() ==> op_encodable(#[trigger] ops[i]),
    ensures
        wal_wf(wal_bytes_of(ops)),
        wal_ops(wal_bytes_of(ops)) == ops,
    decreases ops.len(),
{
    if ops.len() > 0 {
        lemma_wal_round_trip(ops.drop_last());
        lemma_wal_append(wal_bytes_of(ops.drop_last()), ops.last());
        assert(wal_ops(wal_bytes_of(ops)) == wal_ops(wal_bytes_of(ops.drop_last())).push(
            ops.last(),
        ));
        assert(ops.drop_last().push(ops.last()) =~= ops);
    }
}

/// Relies on `String::from_utf8`: it succeeds exactly on valid UTF-8 input
/// and returns the string whose UTF-8 encoding is that input.
#[verifier::external_body]
fn bytes_to_string(b: Vec<u8>) -> (r: Option<String>)
    ensures
        match r {
            Some(s) => encode_utf8(s@) == b@,
            None => !valid_utf8(b@),
        },
{
    String::from_utf8(b).ok()
}

/// Encodes one operation's payload.
pub fn encode_payload(op: &Operation) -> (r: Vec<u8>)
    requires
        op_encodable(op@),
    ensures
        r@ == payload_of(op@),
{
    match op {
        Operation::Put { key, value } => {
            let mut r = u32_to_le_bytes(0u32);
            let kb = slice_to_vec(key.as_str().as_bytes());
            let mut klen_b = u64_to_le_bytes(kb.len() as u64);
            r.append(&mut klen_b);
            let mut kbm = kb;
            r.append(&mut kbm);
            let mut vlen_b = u64_to_le_bytes(value.len() as u64);
            r.append(&mut vlen_b);
            let mut vv = slice_to_vec(value.as_slice());
            r.append(&mut vv);
            r
        },
        Operation::Delete { key } => {
            let mut r = u32_to_le_bytes(1u32);
            let kb = slice_to_vec(key.as_str().as_bytes());
            let mut klen_b = u64_to_le_bytes(kb.len() as u64);
            r.append(&mut klen_b);
            let mut kbm = kb;
            r.append(&mut kbm);
            r
        },
    }
}

/// Encodes one full record: length prefix, then payload.
pub fn encode_record(op: &Operation) -> (r: Vec<u8>)
    requires
        op_encodable(op@),
    ensures
        r@ == record_of(op@),
{
    proof {
        lemma_parse_payload_of(op@);
    }
    let payload = encode_payload(op);
    let mut r = u32_to_le_bytes(payload.len() as u32);
    let mut p = payload;
    r.append(&mut p);
    r
}

/// Decodes one payload; agrees exactly with `parse_payload`.
fn parse_payload_exec(b: &[u8]) -> (r: Option<Operation>)
    ensures
        match r {
            Some(op) => parse_payload(b@) == Some(op@),
            None => parse_payload(b@) is None,
        },
{
    let n = b.len();
    if n < 12 {
        return None;
    }
    let tag = u32_from_le_bytes(slice_subrange(b, 0, 4));
    let klen64 = u64_from_le_bytes(slice_subrange(b, 4, 12));
    if tag == 0 {
        if n < 20 {
            return None;
        }
        if klen64 > (n - 20) as u64 {
            return None;
        }
        let klen = klen64 as usize;
        let vlen64 = u64_from_le_bytes(slice_subrange(b, 12 + klen, 20 + klen));
        if vlen64 != (n - 20 - klen) as u64 {
            return None;
        }
        let kb = slice_subrange(b, 12, 12 + klen);
        match bytes_to_string(slice_to_vec(kb)) {
            None => None,
            Some(key) => {
                proof {
                    encode_utf8_valid_utf8(key@);
                    encode_utf8_decode_utf8(key@);
                }
                let value = slice_to_vec(slice_subrange(b, 20 + klen, n));
                Some(Operation::Put { key, value })
            },
        }
    } else if tag == 1 {
        if klen64 != (n - 12) as u64 {
            return None;
        }
        let kb = slice_subrange(b, 12, n);
        match bytes_to_string(slice_to_vec(kb)) {
            None => None,
            Some(key) => {
                proof {
                    encode_utf8_valid_utf8(key@);
                    encode_utf8_decode_utf8(key@);
                }
                Some(Operation::Delete { key })
            },
        }
    } else {
        None
    }
}

/// Decodes a log image: the operations it holds in file order, and the
/// length of its clean prefix. Reading stops, without failing, at a trailing
/// truncated or undecodable record; everything before that point is kept.
pub fn decode_wal(b: &Vec<u8>) -> (r: (Vec<Operation>, usize))
    ensures
        views_of(r.0@) == wal_ops(b@),
        r.1 <= b@.len(),
        wal_wf(b@.subrange(0, r.1 as int)),
        wal_ops(b@.subrange(0, r.1 as int)) == wal_ops(b@),
        forall|i: int| 0 <= i < r.0@.len() ==> op_encodable(#[trigger] r.0@[i]@),
{
    let n = b.len();
    let mut pos: usize = 0;
    let mut out: Vec<Operation> = Vec::new();
    proof {
        assert(b@.subrange(0, 0) =~= Seq::<u8>::empty());
        assert(b@.subrange(0, n as int) =~= b@);
        assert(views_of(out@) =~= Seq::<OpView>::empty());
        assert(wal_ops(b@) =~= views_of(out@) + wal_ops(b@.subrange(0, n as int)));
    }
    loop
        invariant
            n == b@.len(),
            pos <= n,
            wal_wf(b@.subrange(0, pos as int)),
            views_of(out@) == wal_ops(b@.subrange(0, pos as int)),
            wal_ops(b@) == views_of(out@) + wal_ops(b@.subrange(pos as int, n as int)),
            forall|i: int| 0 <= i < out@.len() ==> op_encodable(#[trigger] out@[i]@),
        ensures
            pos <= n,
            n == b@.len(),
            wal_wf(b@.subrange(0, pos as int)),
            views_of(out@) == wal_ops(b@.subrange(0, pos as int)),
            views_of(out@) == wal_ops(b@),
            forall|i: int| 0 <= i < out@.len() ==> op_encodable(#[trigger] out@[i]@),
        decreases n - pos,
    {
        let ghost suffix = b@.subrange(pos as int, n as int);
        if n - pos < 4 {
            proof {
                assert(wal_ops(suffix) =~= Seq::<OpView>::empty());
                assert(views_of(out@) + wal_ops(suffix) =~= views_of(out@));
            }
            break ;
        }
        let len32 = u32_from_le_bytes(slice_subrange(b.as_slice(), pos, pos + 4));
        proof {
            assert(b@.subrange(pos as int, pos as int + 4) =~= suffix.subrange(0, 4));
        }
        let ghost len_spec = spec_u32_from_le_bytes(suffix.subrange(0, 4)) as int;
        let remaining64 = (n - pos - 4) as u64;
        let len64 = len32 as u64;
        if remaining64 < len64 {
            proof {
                assert(suffix.len() < 4 + len_spec);
                assert(wal_ops(suffix) =~= Seq::<OpView>::empty());
                assert(views_of(out@) + wal_ops(suffix) =~= views_of(out@));
            }
            break ;
        }
        let len_us = len32 as usize;
        let payload = slice_subrange(b.as_slice(), pos + 4, pos + 4 + len_us);
        proof {
            assert(payload@ =~= suffix.subrange(4, 4 + len_spec));
        }
        match parse_payload_exec(payload) {
            Some(op) => {
                let ghost pos0 = pos as int;
                let ghost out0 = out@;
                out.push(op);
                pos = pos + 4 + len_us;
                proof {
                    lemma_parse_canonical(payload@);
                    assert(payload@ == payload_of(op@));
                    let prefix0 = b@.subrange(0, pos0);
                    let prefix1 = b@.subrange(0, pos as int);
                    assert(prefix1 =~= prefix0 + record_of(op@)) by {
                        assert(record_of(op@) =~= b@.subrange(pos0, pos as int)) by {
                            lemma_auto_spec_u32_to_from_le_bytes();
                            assert(spec_u32_to_le_bytes(payload_of(op@).len() as u32) =~= b@
                                .subrange(pos0, pos0 + 4));
                            assert(payload_of(op@) =~= b@.subrange(pos0 + 4, pos as int));
                        }
                    }
                    lemma_wal_append(prefix0, op@);
                    assert(views_of(out@) =~= views_of(out0).push(op@));
                    let suffix1 = b@.subrange(pos as int, n as int);
                    assert(wal_ops(suffix) == seq![op@] + wal_ops(suffix1)) by {
                        assert(suffix.subrange(4 + len_spec, suffix.len() as int) =~= suffix1);
                    }
                    assert(views_of(out0) + wal_ops(suffix) =~= views_of(out@) + wal_ops(
                        suffix1,
                    ));
                }
            },
            None => {
                proof {
                    assert(wal_ops(suffix) =~= Seq::<OpView>::empty());
                    assert(views_of(out@) + wal_ops(suffix) =~= views_of(out@));
                }
                break ;
            },
        }
    }
    (out, pos)
}

} // verus!
