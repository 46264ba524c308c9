use vstd::prelude::*;

use crate::apool::Mem;

verus! {

/// The three kinds of run-length operation.
#[derive(Clone, Copy, Debug, PartialEq, Eq, Structural)]
pub enum OpKind {
    /// Copy characters of the input document.
    Keep,
    /// Insert characters taken from the char bank.
    Insert,
    /// Remove characters of the input document.
    Delete,
}

/// One run-length operation with the attribute codes that it applies.
#[derive(Debug)]
pub struct Op {
    pub kind: OpKind,
    pub count: u32,
    pub attribs: Vec<u32>,
}

impl Clone for Op {
    fn clone(&self) -> (r: Op)
        ensures
            r.kind == self.kind,
            r.count == self.count,
            r.attribs@ == self.attribs@,
    {
        Op { kind: self.kind, count: self.count, attribs: self.attribs.clone() }
    }
}

/// Total count of the operations of `kind` in `ops`.
pub open spec fn sum_by(ops: Seq<Op>, kind: OpKind) -> nat
    decreases ops.len(),
{
    if ops.len() == 0 {
        0
    } else {
        sum_by(ops.drop_last(), kind) + if ops.last().kind == kind {
            ops.last().count as nat
        } else {
            0
        }
    }
}

/// Characters of the input document that `ops` read (kept or deleted).
pub open spec fn consumed(ops: Seq<Op>) -> nat {
    sum_by(ops, OpKind::Keep) + sum_by(ops, OpKind::Delete)
}

/// Characters that `ops` write (kept or inserted).
pub open spec fn produced(ops: Seq<Op>) -> nat {
    sum_by(ops, OpKind::Keep) + sum_by(ops, OpKind::Insert)
}

/// Net change of length that `ops` make.
pub open spec fn op_delta(ops: Seq<Op>) -> int {
    sum_by(ops, OpKind::Insert) - sum_by(ops, OpKind::Delete)
}

/// Attribute codes in strictly increasing order: a canonical ordered set.
pub open spec fn sorted_codes(codes: Seq<u32>) -> bool {
    forall|i: int, j: int| 0 <= i < j < codes.len() ==> codes[i] < codes[j]
}

/// An operation is well formed against `pool`: its codes form an ordered set
/// of codes that the pool knows, and a deletion carries none.
pub open spec fn op_wf(op: Op, pool: Map<u32, Seq<char>>) -> bool {
    &&& sorted_codes(op.attribs@)
    &&& forall|i: int| 0 <= i < op.attribs@.len() ==> pool.contains_key(#[trigger] op.attribs@[i])
    &&& op.kind == OpKind::Delete ==> op.attribs@.len() == 0
}

pub open spec fn ops_wf(ops: Seq<Op>, pool: Map<u32, Seq<char>>) -> bool {
    forall|i: int| 0 <= i < ops.len() ==> op_wf(#[trigger] ops[i], pool)
}

pub proof fn lemma_sum_step(ops: Seq<Op>, i: int, kind: OpKind)
    requires
        0 <= i < ops.len(),
    ensures
        sum_by(ops.take(i + 1), kind) == sum_by(ops.take(i), kind) + if ops[i].kind == kind {
            ops[i].count as nat
        } else {
            0
        },
{
    assert(ops.take(i + 1).drop_last() =~= ops.take(i));
}

pub proof fn lemma_sum_push(ops: Seq<Op>, op: Op, kind: OpKind)
    ensures
        sum_by(ops.push(op), kind) == sum_by(ops, kind) + if op.kind == kind {
            op.count as nat
        } else {
            0
        },
{
    assert(ops.push(op).drop_last() =~= ops);
}

pub proof fn lemma_ops_wf_push(ops: Seq<Op>, op: Op, pool: Map<u32, Seq<char>>)
    requires
        ops_wf(ops, pool),
        op_wf(op, pool),
    ensures
        ops_wf(ops.push(op), pool),
{
    assert forall|i: int| 0 <= i < ops.push(op).len() implies op_wf(#[trigger] ops.push(op)[i], pool) by {
        if i < ops.len() {
            assert(ops.push(op)[i] == ops[i]);
        }
    }
}

/// A prefix reads no more than the whole.
pub proof fn lemma_consumed_prefix(ops: Seq<Op>, i: int)
    requires
        0 <= i <= ops.len(),
    ensures
        consumed(ops.take(i)) <= consumed(ops),
    decreases ops.len() - i,
{
    if i < ops.len() {
        lemma_consumed_prefix(ops, i + 1);
        lemma_sum_step(ops, i, OpKind::Keep);
        lemma_sum_step(ops, i, OpKind::Delete);
        assert(ops.take(ops.len() as int) =~= ops);
    } else {
        assert(ops.take(i) =~= ops);
    }
}

/// A prefix counts no more of a kind than the whole.
pub proof fn lemma_sum_prefix(ops: Seq<Op>, i: int, kind: OpKind)
    requires
        0 <= i <= ops.len(),
    ensures
        sum_by(ops.take(i), kind) <= sum_by(ops, kind),
    decreases ops.len() - i,
{
    if i < ops.len() {
        lemma_sum_prefix(ops, i + 1, kind);
        lemma_sum_step(ops, i, kind);
    } else {
        assert(ops.take(i) =~= ops);
    }
}

} // verus!
