//! Mutations and notifications: the `Operation` recorded in the write-ahead
//! log, the `ChangeEvent` delivered to subscribers, and the replay model —
//! what applying a sequence of logged operations does to a mapping.

use vstd::prelude::*;

verus! {

/// The unit of durability: one logged mutation.
pub enum Operation {
    Put { key: String, value: Vec<u8> },
    Delete { key: String },
}

/// The mathematical form of an `Operation`.
pub enum OpView {
    Put { key: Seq<char>, value: Seq<u8> },
    Delete { key: Seq<char> },
}

impl View for Operation {
    type V = OpView;

    open spec fn view(&self) -> OpView {
        match self {
            Operation::Put { key, value } => OpView::Put { key: key@, value: value@ },
            Operation::Delete { key } => OpView::Delete { key: key@ },
        }
    }
}

/// A notification emitted after a mutation was logged and applied.
pub enum ChangeEvent {
    Put { key: String, value: Vec<u8> },
    Delete { key: String },
}

/// The mathematical form of a `ChangeEvent`.
pub enum EventView {
    Put { key: Seq<char>, value: Seq<u8> },
    Delete { key: Seq<char> },
}

impl View for ChangeEvent {
    type V = EventView;

    open spec fn view(&self) -> EventView {
        match self {
            ChangeEvent::Put { key, value } => EventView::Put { key: key@, value: value@ },
            ChangeEvent::Delete { key } => EventView::Delete { key: key@ },
        }
    }
}

impl ChangeEvent {
    /// An equal event, for delivery to one more subscriber.
    pub fn duplicate(&self) -> (r: ChangeEvent)
        ensures
            r@ == self@,
    {
        match self {
            ChangeEvent::Put { key, value } => ChangeEvent::Put {
                key: key.clone(),
                value: vstd::slice::slice_to_vec(value.as_slice()),
            },
            ChangeEvent::Delete { key } => ChangeEvent::Delete { key: key.clone() },
        }
    }
}

/// The key an operation touches.
pub open spec fn op_key(op: OpView) -> Seq<char> {
    match op {
        OpView::Put { key, .. } => key,
        OpView::Delete { key } => key,
    }
}

/// What one operation does to a mapping.
pub open spec fn apply_op(m: Map<Seq<char>, Seq<u8>>, op: OpView) -> Map<Seq<char>, Seq<u8>> {
    match op {
        OpView::Put { key, value } => m.insert(key, value),
        OpView::Delete { key } => m.remove(key),
    }
}

/// What replaying a sequence of operations, in order, does to a mapping.
pub open spec fn apply_ops(m: Map<Seq<char>, Seq<u8>>, ops: Seq<OpView>) -> Map<
    Seq<char>,
    Seq<u8>,
>
    decreases ops.len(),
{
    if ops.len() == 0 {
        m
    } else {
        apply_op(apply_ops(m, ops.drop_last()), ops.last())
    }
}

/// Replaying one more operation applies it to the replayed state.
pub proof fn lemma_apply_ops_push(m: Map<Seq<char>, Seq<u8>>, ops: Seq<OpView>, op: OpView)
    ensures
        apply_ops(m, ops.push(op)) == apply_op(apply_ops(m, ops), op),
{
    assert(ops.push(op).drop_last() =~= ops);
}

/// The last operation in `ops` that touches `k`, if any.
pub open spec fn last_write(ops: Seq<OpView>, k: Seq<char>) -> Option<OpView>
    decreases ops.len(),
{
    if ops.len() == 0 {
        None
    } else if op_key(ops.last()) == k {
        Some(ops.last())
    } else {
        last_write(ops.drop_last(), k)
    }
}

/// Replay, read at one key: untouched keys keep the starting mapping's
/// binding; a touched key ends as its last operation left it.
pub proof fn lemma_apply_ops_pointwise(m: Map<Seq<char>, Seq<u8>>, ops: Seq<OpView>, k: Seq<char>)
    ensures
        match last_write(ops, k) {
            None => apply_ops(m, ops).contains_key(k) == m.contains_key(k) && (m.contains_key(k)
                ==> apply_ops(m, ops)[k] == m[k]),
            Some(op) => match op {
                OpView::Put { value, .. } => apply_ops(m, ops).contains_key(k) && apply_ops(
                    m,
                    ops,
                )[k] == value,
                OpView::Delete { .. } => !apply_ops(m, ops).contains_key(k),
            },
        },
    decreases ops.len(),
{
    if ops.len() > 0 {
        lemma_apply_ops_pointwise(m, ops.drop_last(), k);
    }
}

/// Replaying the same operation sequence a second time changes nothing:
/// replay is idempotent.
pub proof fn lemma_replay_idempotent(m: Map<Seq<char>, Seq<u8>>, ops: Seq<OpView>)
    ensures
        apply_ops(apply_ops(m, ops), ops) == apply_ops(m, ops),
{
    let m1 = apply_ops(m, ops);
    let m2 = apply_ops(m1, ops);
    assert forall|k: Seq<char>| #[trigger] m2.contains_key(k) == m1.contains_key(k) && (
    m1.contains_key(k) ==> m2[k] == m1[k]) by {
        lemma_apply_ops_pointwise(m, ops, k);
        lemma_apply_ops_pointwise(m1, ops, k);
    }
    assert(m2 =~= m1);
}

/// The operations are all puts, no two on the same key.
pub open spec fn disjoint_puts(ops: Seq<OpView>) -> bool {
    &&& forall|i: int| 0 <= i < ops.len() ==> ops[i] is Put
    &&& forall|i: int, j: int| 0 <= i < j < ops.len() ==> op_key(ops[i]) != op_key(ops[j])
}

/// Puts on pairwise-distinct keys never lose an update, whatever order
/// they ran in: afterwards every written key holds the value written to it.
pub proof fn lemma_disjoint_puts_all_present(
    m: Map<Seq<char>, Seq<u8>>,
    ops: Seq<OpView>,
    i: int,
)
    requires
        disjoint_puts(ops),
        0 <= i < ops.len(),
    ensures
        apply_ops(m, ops).contains_key(op_key(ops[i])),
        apply_ops(m, ops)[op_key(ops[i])] == ops[i]->Put_value,
    decreases ops.len(),
{
    let k = op_key(ops[i]);
    assert(last_write(ops, k) == Some(ops[i])) by {
        lemma_last_write_at(ops, i);
    }
    lemma_apply_ops_pointwise(m, ops, k);
}

/// When the keys are pairwise distinct, the operation at position `i` is the
/// last write to its key.
proof fn lemma_last_write_at(ops: Seq<OpView>, i: int)
    requires
        forall|p: int, q: int| 0 <= p < q < ops.len() ==> op_key(ops[p]) != op_key(ops[q]),
        0 <= i < ops.len(),
    ensures
        last_write(ops, op_key(ops[i])) == Some(ops[i]),
    decreases ops.len(),
{
    if i < ops.len() - 1 {
        assert(op_key(ops.last()) != op_key(ops[i]));
        assert(ops.drop_last()[i] == ops[i]);
        lemma_last_write_at(ops.drop_last(), i);
    }
}

} // verus!
