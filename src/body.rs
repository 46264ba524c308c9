use vstd::prelude::*;

use crate::apool::Mem;
use crate::decimal::{dec, is_digit, lemma_dec_digits, number_at, push_dec, read_number};
use crate::error::ChangesetError;
use crate::ops::{
    consumed, lemma_ops_wf_push, lemma_sum_prefix, lemma_sum_push, lemma_sum_step, op_delta, op_wf, ops_wf, sorted_codes, sum_by, Op,
    OpKind,
};

verus! {

/// The operations of a changeset and the text that its insertions bring.
#[derive(Debug)]
pub struct Body {
    pub ops: Vec<Op>,
    pub char_bank: Vec<u8>,
}

impl Clone for Body {
    fn clone(&self) -> (r: Body)
        ensures
            r.ops@.len() == self.ops@.len(),
            forall|i: int| 0 <= i < self.ops@.len() ==> #[trigger] r.ops@[i].kind == self.ops@[i].kind
                && r.ops@[i].count == self.ops@[i].count && r.ops@[i].attribs@ == self.ops@[i].attribs@,
            r.char_bank@ == self.char_bank@,
    {
        let mut ops: Vec<Op> = Vec::new();
        let mut i: usize = 0;
        while i < self.ops.len()
            invariant
                i <= self.ops@.len(),
                ops@.len() == i,
                forall|k: int| 0 <= k < i ==> #[trigger] ops@[k].kind == self.ops@[k].kind
                    && ops@[k].count == self.ops@[k].count && ops@[k].attribs@ == self.ops@[k].attribs@,
            decreases self.ops@.len() - i,
        {
            ops.push(self.ops[i].clone());
            i = i + 1;
        }
        Body { ops, char_bank: self.char_bank.clone() }
    }
}

/// The ASCII byte that names an operation kind.
pub open spec fn kind_byte(k: OpKind) -> u8 {
    match k {
        OpKind::Keep => 61u8,
        OpKind::Insert => 43u8,
        OpKind::Delete => 45u8,
    }
}

/// `*<code>` for each code, in order.
pub open spec fn codes_text(codes: Seq<u32>) -> Seq<u8>
    decreases codes.len(),
{
    if codes.len() == 0 {
        Seq::empty()
    } else {
        codes_text(codes.drop_last()) + seq![42u8] + dec(codes.last() as nat)
    }
}

/// Canonical text of one operation: its selectors, its kind and its count.
pub open spec fn op_text(op: Op) -> Seq<u8> {
    codes_text(op.attribs@) + seq![kind_byte(op.kind)] + dec(op.count as nat)
}

/// Canonical text of a sequence of operations.
pub open spec fn ops_text(ops: Seq<Op>) -> Seq<u8>
    decreases ops.len(),
{
    if ops.len() == 0 {
        Seq::empty()
    } else {
        ops_text(ops.drop_last()) + op_text(ops.last())
    }
}

/// Canonical text of a body: the operations, `$`, then the char bank.
pub open spec fn body_text(b: Body) -> Seq<u8> {
    ops_text(b.ops@) + seq![36u8] + b.char_bank@
}

/// The text of two runs of codes is the text of each, in turn.
pub proof fn lemma_codes_text_concat(a: Seq<u32>, b: Seq<u32>)
    ensures
        codes_text(a + b) == codes_text(a) + codes_text(b),
    decreases b.len(),
{
    if b.len() == 0 {
        assert(a + b =~= a);
        assert(codes_text(b) =~= Seq::<u8>::empty());
        assert(codes_text(a) + codes_text(b) =~= codes_text(a));
    } else {
        lemma_codes_text_concat(a, b.drop_last());
        assert((a + b).drop_last() =~= a + b.drop_last());
        assert(codes_text(a + b) =~= codes_text(a) + codes_text(b));
    }
}

/// The text of two runs of operations is the text of each, in turn.
pub proof fn lemma_ops_text_concat(a: Seq<Op>, b: Seq<Op>)
    ensures
        ops_text(a + b) == ops_text(a) + ops_text(b),
    decreases b.len(),
{
    if b.len() == 0 {
        assert(a + b =~= a);
        assert(ops_text(b) =~= Seq::<u8>::empty());
        assert(ops_text(a) + ops_text(b) =~= ops_text(a));
    } else {
        lemma_ops_text_concat(a, b.drop_last());
        assert((a + b).drop_last() =~= a + b.drop_last());
        assert(ops_text(a + b) =~= ops_text(a) + ops_text(b));
    }
}

/// Two runs of operations that agree in kind, count and codes.
pub open spec fn same_ops(x: Seq<Op>, y: Seq<Op>) -> bool {
    &&& x.len() == y.len()
    &&& forall|i: int| 0 <= i < x.len() ==> #[trigger] x[i].kind == y[i].kind && x[i].count == y[i].count
        && x[i].attribs@ == y[i].attribs@
}

pub proof fn lemma_same_ops(x: Seq<Op>, y: Seq<Op>)
    requires
        same_ops(x, y),
    ensures
        ops_text(x) == ops_text(y),
        forall|k: OpKind| sum_by(x, k) == #[trigger] sum_by(y, k),
    decreases x.len(),
{
    if x.len() > 0 {
        assert(same_ops(x.drop_last(), y.drop_last()));
        lemma_same_ops(x.drop_last(), y.drop_last());
        assert(x[x.len() - 1].kind == y[y.len() - 1].kind);
        assert forall|k: OpKind| sum_by(x, k) == #[trigger] sum_by(y, k) by {
            assert(sum_by(x.drop_last(), k) == sum_by(y.drop_last(), k));
        }
    } else {
        assert forall|k: OpKind| sum_by(x, k) == #[trigger] sum_by(y, k) by {}
    }
}

/// The text of a body from the `j`-th selector of its `k`-th operation on
/// (from `$` on, once every operation is read).
pub open spec fn rest_text(b: Body, k: int, j: int) -> Seq<u8> {
    if k < b.ops@.len() {
        codes_text(b.ops@[k].attribs@.skip(j)) + seq![kind_byte(b.ops@[k].kind)] + dec(b.ops@[k].count as nat)
            + ops_text(b.ops@.skip(k + 1)) + seq![36u8] + b.char_bank@
    } else {
        seq![36u8] + b.char_bank@
    }
}

/// A body's text split at the `j`-th selector of its `k`-th operation.
pub proof fn lemma_body_split(b: Body, k: int, j: int)
    requires
        0 <= k <= b.ops@.len(),
        k < b.ops@.len() ==> 0 <= j <= b.ops@[k].attribs@.len(),
        k == b.ops@.len() ==> j == 0,
    ensures
        body_text(b) == ops_text(b.ops@.take(k)) + (if k < b.ops@.len() {
            codes_text(b.ops@[k].attribs@.take(j))
        } else {
            Seq::empty()
        }) + rest_text(b, k, j),
{
    let ops = b.ops@;
    if k < ops.len() {
        let op = ops[k];
        assert(ops =~= ops.take(k) + seq![op] + ops.skip(k + 1));
        lemma_ops_text_concat(ops.take(k) + seq![op], ops.skip(k + 1));
        lemma_ops_text_concat(ops.take(k), seq![op]);
        assert(seq![op].drop_last() =~= Seq::<Op>::empty());
        assert(ops_text(Seq::<Op>::empty()) =~= Seq::<u8>::empty());
        assert(seq![op].last() == op);
        assert(ops_text(seq![op]) =~= op_text(op));
        assert(op.attribs@ =~= op.attribs@.take(j) + op.attribs@.skip(j));
        lemma_codes_text_concat(op.attribs@.take(j), op.attribs@.skip(j));
        assert(body_text(b) =~= ops_text(ops.take(k)) + codes_text(op.attribs@.take(j)) + rest_text(b, k, j));
    } else {
        assert(ops.take(k) =~= ops);
        assert(body_text(b) =~= ops_text(ops.take(k)) + Seq::<u8>::empty() + rest_text(b, k, j));
    }
}

/// The text after a position starts with `*`, an operation's byte or `$`.
pub proof fn lemma_rest_first(b: Body, k: int, j: int)
    requires
        0 <= k <= b.ops@.len(),
        k < b.ops@.len() ==> 0 <= j <= b.ops@[k].attribs@.len(),
    ensures
        rest_text(b, k, j).len() > 0,
        k < b.ops@.len() && j < b.ops@[k].attribs@.len() ==> rest_text(b, k, j)[0] == 42u8
            && 1 + dec(b.ops@[k].attribs@[j] as nat).len() < rest_text(b, k, j).len()
            && rest_text(b, k, j).subrange(1, 1 + dec(b.ops@[k].attribs@[j] as nat).len() as int) == dec(b.ops@[k].attribs@[j] as nat)
            && !is_digit(rest_text(b, k, j)[1 + dec(b.ops@[k].attribs@[j] as nat).len() as int]),
        k < b.ops@.len() && j == b.ops@[k].attribs@.len() ==> rest_text(b, k, j)[0] == kind_byte(b.ops@[k].kind)
            && 1 + dec(b.ops@[k].count as nat).len() < rest_text(b, k, j).len()
            && rest_text(b, k, j).subrange(1, 1 + dec(b.ops@[k].count as nat).len() as int) == dec(b.ops@[k].count as nat)
            && !is_digit(rest_text(b, k, j)[1 + dec(b.ops@[k].count as nat).len() as int]),
        k == b.ops@.len() ==> rest_text(b, k, j)[0] == 36u8 && rest_text(b, k, j).skip(1) == b.char_bank@,
{
    let ops = b.ops@;
    if k < ops.len() {
        let op = ops[k];
        let tail = ops_text(ops.skip(k + 1)) + seq![36u8] + b.char_bank@;
        lemma_tail_first(ops.skip(k + 1), b.char_bank@);
        if j < op.attribs@.len() {
            let c = op.attribs@[j];
            let rest = op.attribs@.skip(j + 1);
            assert(op.attribs@.skip(j) =~= seq![c] + rest);
            lemma_codes_text_concat(seq![c], rest);
            assert(seq![c].drop_last() =~= Seq::<u32>::empty());
            assert(codes_text(Seq::<u32>::empty()) =~= Seq::<u8>::empty());
            assert(seq![c].last() == c);
            assert(codes_text(seq![c]) =~= seq![42u8] + dec(c as nat));
            lemma_dec_digits(c as nat);
            let after = codes_text(rest) + seq![kind_byte(op.kind)] + dec(op.count as nat) + tail;
            assert(rest_text(b, k, j) =~= seq![42u8] + dec(c as nat) + after);
            lemma_codes_first(rest);
            assert(after[0] == 42u8 || after[0] == kind_byte(op.kind));
            assert(rest_text(b, k, j).subrange(1, 1 + dec(c as nat).len() as int) =~= dec(c as nat));
            assert(rest_text(b, k, j)[1 + dec(c as nat).len() as int] == after[0]);
        } else {
            assert(op.attribs@.skip(j) =~= Seq::<u32>::empty());
            assert(codes_text(op.attribs@.skip(j)) =~= Seq::<u8>::empty());
            lemma_dec_digits(op.count as nat);
            assert(rest_text(b, k, j) =~= seq![kind_byte(op.kind)] + dec(op.count as nat) + tail);
            assert(rest_text(b, k, j).subrange(1, 1 + dec(op.count as nat).len() as int) =~= dec(op.count as nat));
            assert(rest_text(b, k, j)[1 + dec(op.count as nat).len() as int] == tail[0]);
        }
    } else {
        assert(rest_text(b, k, j).skip(1) =~= b.char_bank@);
    }
}

/// A run of codes, when not empty, starts its text with `*`.
proof fn lemma_codes_first(c: Seq<u32>)
    ensures
        c.len() > 0 ==> codes_text(c).len() > 0 && codes_text(c)[0] == 42u8,
    decreases c.len(),
{
    if c.len() > 0 {
        lemma_codes_first(c.drop_last());
        if c.drop_last().len() == 0 {
            assert(codes_text(c.drop_last()) =~= Seq::<u8>::empty());
        }
    }
}

/// Operations followed by `$` start with a byte that is not a digit.
pub proof fn lemma_tail_first(ops: Seq<Op>, bank: Seq<u8>)
    ensures
        (ops_text(ops) + seq![36u8] + bank).len() > 0,
        !is_digit((ops_text(ops) + seq![36u8] + bank)[0]),
    decreases ops.len(),
{
    if ops.len() > 0 {
        let op = ops[0];
        assert(ops =~= seq![op] + ops.skip(1));
        lemma_ops_text_concat(seq![op], ops.skip(1));
        assert(seq![op].drop_last() =~= Seq::<Op>::empty());
        assert(ops_text(Seq::<Op>::empty()) =~= Seq::<u8>::empty());
        assert(seq![op].last() == op);
        assert(ops_text(seq![op]) =~= op_text(op));
        lemma_codes_first(op.attribs@);
        if op.attribs@.len() == 0 {
            assert(codes_text(op.attribs@) =~= Seq::<u8>::empty());
        }
        assert((ops_text(ops) + seq![36u8] + bank)[0] == op_text(op)[0]);
    } else {
        assert(ops_text(ops) =~= Seq::<u8>::empty());
    }
}

/// Adds `code` to an ordered set of codes.
pub fn insert_code(set: &mut Vec<u32>, code: u32)
    requires
        sorted_codes(old(set)@),
    ensures
        sorted_codes(final(set)@),
        final(set)@.to_set() == old(set)@.to_set().insert(code),
        (forall|k: int| 0 <= k < old(set)@.len() ==> #[trigger] old(set)@[k] < code) ==> final(set)@
            == old(set)@.push(code),
{
    let ghost pre = set@;
    let mut i: usize = 0;
    while i < set.len() && set[i] < code
        invariant
            i <= set@.len(),
            forall|k: int| 0 <= k < i ==> set@[k] < code,
            set@ == pre,
        decreases set@.len() - i,
    {
        i = i + 1;
    }
    if i < set.len() && set[i] == code {
        assert(set@[i as int] == code);
        assert(set@.to_set() =~= pre.to_set().insert(code));
        return;
    }
    set.insert(i, code);
    proof {
        if forall|k: int| 0 <= k < pre.len() ==> #[trigger] pre[k] < code {
            if i < pre.len() {
                assert(pre[i as int] < code);
            }
            assert(set@ =~= pre.push(code));
        }
        assert forall|a: int, b: int| 0 <= a < b < set@.len() implies set@[a] < set@[b] by {
            if b < i {
            } else if a < i && b == i {
            } else if a == i as int {
                assert(pre[b - 1] >= code);
            } else if a < i {
                assert(set@[b] == pre[b - 1]);
            } else {
                assert(set@[a] == pre[a - 1]);
                assert(set@[b] == pre[b - 1]);
            }
        }
        assert forall|c: u32| #[trigger] set@.to_set().contains(c) <==> pre.to_set().insert(code).contains(c) by {
            if set@.contains(c) {
                let k = choose|k: int| 0 <= k < set@.len() && set@[k] == c;
                if k < i {
                    assert(pre[k] == c);
                } else if k > i {
                    assert(pre[k - 1] == c);
                }
            }
            if pre.contains(c) {
                let k = choose|k: int| 0 <= k < pre.len() && pre[k] == c;
                if k < i {
                    assert(set@[k] == c);
                } else {
                    assert(set@[k + 1] == c);
                }
            }
            if c == code {
                assert(set@[i as int] == c);
            }
        }
        assert(set@.to_set() =~= pre.to_set().insert(code));
    }
}

/// The text of operations whose selectors are written as `sels`: each
/// operation's selectors, its kind and its count.
pub open spec fn loose_ops_text(ops: Seq<Op>, sels: Seq<Seq<u32>>) -> Seq<u8>
    decreases ops.len(),
{
    if ops.len() == 0 || sels.len() != ops.len() {
        Seq::empty()
    } else {
        loose_ops_text(ops.drop_last(), sels.drop_last()) + codes_text(sels.last()) + seq![
            kind_byte(ops.last().kind),
        ] + dec(ops.last().count as nat)
    }
}

/// `t` spells the body `b`: its operations, each with its selectors written
/// in any order and possibly repeated, then `$` and the char bank.
pub open spec fn body_spells(t: Seq<u8>, b: Body) -> bool {
    exists|sels: Seq<Seq<u32>>|
        {
            &&& sels.len() == b.ops@.len()
            &&& forall|i: int| 0 <= i < sels.len() ==> (#[trigger] sels[i]).to_set() == b.ops@[i].attribs@.to_set()
            &&& t == loose_ops_text(b.ops@, sels) + seq![36u8] + b.char_bank@
        }
}

/// What a body needs to be read back from its text: well-formed operations
/// that read no more than `old_length`, and a char bank of the inserted length.
pub open spec fn body_canon(b: Body, pool: Map<u32, Seq<char>>, old_length: u32) -> bool {
    &&& ops_wf(b.ops@, pool)
    &&& consumed(b.ops@) <= old_length
    &&& sum_by(b.ops@, OpKind::Insert) == b.char_bank@.len()
}

/// `s` holds, from `pos` to its end, the canonical text of `b`.
pub open spec fn body_at(s: Seq<u8>, pos: int, b: Body) -> bool {
    &&& 0 <= pos <= s.len()
    &&& s.subrange(pos, s.len() as int) == body_text(b)
}

/// Reading `b`'s text has produced `ops` and the selectors `pending`, and
/// stands `off` bytes into it.
pub open spec fn parsed_so_far(b: Body, ops: Seq<Op>, pending: Seq<u32>, off: int) -> bool {
    let k = ops.len() as int;
    let j = pending.len() as int;
    &&& k <= b.ops@.len()
    &&& same_ops(ops, b.ops@.take(k))
    &&& (k < b.ops@.len() ==> j <= b.ops@[k].attribs@.len() && pending == b.ops@[k].attribs@.take(j))
    &&& (k == b.ops@.len() ==> j == 0)
    &&& off == ops_text(b.ops@.take(k)).len() + codes_text(pending).len()
}

/// What stands at the reading position of `b`'s text.
proof fn lemma_body_step(
    s: Seq<u8>,
    pos: int,
    b: Body,
    ops: Seq<Op>,
    pending: Seq<u32>,
    p: int,
    pool: Map<u32, Seq<char>>,
    old_length: u32,
)
    requires
        body_at(s, pos, b),
        parsed_so_far(b, ops, pending, p - pos),
    ensures
        p < s.len(),
        ops.len() == b.ops@.len() ==> s[p] == 36u8 && s.subrange(p + 1, s.len() as int) == b.char_bank@,
        ops.len() < b.ops@.len() && pending.len() < b.ops@[ops.len() as int].attribs@.len() ==> s[p] == 42u8
            && number_at(s, p + 1, b.ops@[ops.len() as int].attribs@[pending.len() as int] as nat),
        ops.len() < b.ops@.len() && pending.len() == b.ops@[ops.len() as int].attribs@.len() ==> s[p]
            == kind_byte(b.ops@[ops.len() as int].kind) && number_at(s, p + 1, b.ops@[ops.len() as int].count as nat),
{
    let k = ops.len() as int;
    let j = pending.len() as int;
    lemma_body_split(b, k, j);
    lemma_rest_first(b, k, j);
    let pre = ops_text(b.ops@.take(k)) + (if k < b.ops@.len() {
        codes_text(b.ops@[k].attribs@.take(j))
    } else {
        Seq::empty()
    });
    let rest = rest_text(b, k, j);
    if k == b.ops@.len() {
        assert(codes_text(pending) =~= Seq::<u8>::empty());
    }
    assert(pre.len() == p - pos);
    assert(pre.len() + rest.len() == s.len() - pos) by {
        assert(s.subrange(pos, s.len() as int).len() == s.len() - pos);
    }
    assert(s.subrange(p, s.len() as int) =~= rest) by {
        assert(s.subrange(pos, s.len() as int) == pre + rest);
        assert forall|i: int| 0 <= i < rest.len() implies #[trigger] s.subrange(p, s.len() as int)[i] == rest[i] by {
            assert(s.subrange(pos, s.len() as int)[pre.len() + i] == (pre + rest)[pre.len() + i]);
        }
    }
    assert(s[p] == rest[0]);
    if k < b.ops@.len() {
        let v: nat = if j < b.ops@[k].attribs@.len() {
            b.ops@[k].attribs@[j] as nat
        } else {
            b.ops@[k].count as nat
        };
        let l = dec(v).len() as int;
        assert(1 + l < rest.len());
        assert(s.subrange(p + 1, p + 1 + l) =~= rest.subrange(1, 1 + l));
        assert(s[p + 1 + l] == rest[1 + l]);
        assert(number_at(s, p + 1, v));
    } else {
        assert(s.subrange(p + 1, s.len() as int) =~= rest.skip(1));
    }
}

impl Body {
    /// Inserted minus deleted characters, over all operations.
    pub fn char_delta(&self) -> (r: i128)
        ensures
            r == op_delta(self.ops@),
    {
        let mut ins: u128 = 0;
        let mut del: u128 = 0;
        let mut i: usize = 0;
        while i < self.ops.len()
            invariant
                i <= self.ops@.len(),
                ins == sum_by(self.ops@.take(i as int), OpKind::Insert),
                del == sum_by(self.ops@.take(i as int), OpKind::Delete),
                ins <= i * (u32::MAX as int),
                del <= i * (u32::MAX as int),
            decreases self.ops@.len() - i,
        {
            proof {
                lemma_sum_step(self.ops@, i as int, OpKind::Insert);
                lemma_sum_step(self.ops@, i as int, OpKind::Delete);
            }
            match self.ops[i].kind {
                OpKind::Insert => ins = ins + self.ops[i].count as u128,
                OpKind::Delete => del = del + self.ops[i].count as u128,
                OpKind::Keep => {},
            }
            i = i + 1;
        }
        assert(self.ops@.take(i as int) =~= self.ops@);
        ins as i128 - del as i128
    }

    /// Appends the canonical text of the body to `out`.
    pub fn write_to(&self, out: &mut Vec<u8>)
        ensures
            final(out)@ == old(out)@ + body_text(*self),
    {
        let ghost start = out@;
        let mut i: usize = 0;
        while i < self.ops.len()
            invariant
                i <= self.ops@.len(),
                out@ == start + ops_text(self.ops@.take(i as int)),
            decreases self.ops@.len() - i,
        {
            let op = &self.ops[i];
            let ghost before = out@;
            let mut j: usize = 0;
            while j < op.attribs.len()
                invariant
                    j <= op.attribs@.len(),
                    out@ == before + codes_text(op.attribs@.take(j as int)),
                decreases op.attribs@.len() - j,
            {
                out.push(42u8);
                push_dec(out, op.attribs[j] as u64);
                proof {
                    assert(op.attribs@.take(j + 1).drop_last() =~= op.attribs@.take(j as int));
                }
                j = j + 1;
                assert(out@ =~= before + codes_text(op.attribs@.take(j as int)));
            }
            assert(op.attribs@.take(j as int) =~= op.attribs@);
            let kb: u8 = match op.kind {
                OpKind::Keep => 61u8,
                OpKind::Insert => 43u8,
                OpKind::Delete => 45u8,
            };
            out.push(kb);
            push_dec(out, op.count as u64);
            proof {
                assert(self.ops@.take(i + 1).drop_last() =~= self.ops@.take(i as int));
            }
            i = i + 1;
            assert(out@ =~= start + ops_text(self.ops@.take(i as int)));
        }
        assert(self.ops@.take(i as int) =~= self.ops@);
        out.push(36u8);
        let mut k: usize = 0;
        let ghost mid = out@;
        while k < self.char_bank.len()
            invariant
                k <= self.char_bank@.len(),
                out@ == mid + self.char_bank@.take(k as int),
            decreases self.char_bank@.len() - k,
        {
            out.push(self.char_bank[k]);
            k = k + 1;
            assert(out@ =~= mid + self.char_bank@.take(k as int));
        }
        assert(self.char_bank@.take(k as int) =~= self.char_bank@);
        assert(out@ =~= start + body_text(*self));
    }

    /// Reads the operations that start at `pos`, up to `$`, and takes the rest
    /// of the input as the char bank. Selectors `*<code>` gather into an ordered
    /// set that the next keep or insert carries.
    ///
    /// Errors: `PoolLookup` for a code that `pool` does not know; `Validation`
    /// when the operations read more than `old_length` characters; `Format` for
    /// any other departure from the format, and when the char bank's length is
    /// not the total of the insertions.
    #[verifier::rlimit(100)]
    pub fn from_iter(pool: &Mem, input: &[u8], pos: usize, old_length: u32) -> (r: Result<
        Body,
        ChangesetError,
    >)
        requires
            pool.wf(),
            pos <= input@.len(),
        ensures
            match r {
                Ok(b) => {
                    &&& ops_wf(b.ops@, pool.view())
                    &&& consumed(b.ops@) <= old_length
                    &&& sum_by(b.ops@, OpKind::Insert) == b.char_bank@.len()
                    &&& exists|d: int|
                        pos <= d < input@.len() && input@[d] == 36u8 && b.char_bank@ == input@.subrange(
                            d + 1,
                            input@.len() as int,
                        )
                },
                Err(_) => true,
            },
            r matches Ok(b) ==> body_spells(input@.subrange(pos as int, input@.len() as int), b),
            forall|b: Body|
                body_canon(b, pool.view(), old_length) && #[trigger] body_at(input@, pos as int, b)
                    ==> r is Ok && same_ops(r->Ok_0.ops@, b.ops@) && r->Ok_0.char_bank@ == b.char_bank@,
    {
        let mut ops: Vec<Op> = Vec::new();
        let mut pending: Vec<u32> = Vec::new();
        let mut p: usize = pos;
        let mut kept: u64 = 0;
        let mut deleted: u64 = 0;
        let mut inserted: u64 = 0;
        let ghost mut sels: Seq<Seq<u32>> = Seq::empty();
        let ghost mut raw: Seq<u32> = Seq::empty();
        assert(input@.subrange(pos as int, p as int) =~= loose_ops_text(ops@, sels) + codes_text(raw));
        assert(raw.to_set() =~= pending@.to_set());
        proof {
            assert forall|b: Body| body_canon(b, pool.view(), old_length) && #[trigger] body_at(input@, pos as int, b)
                implies parsed_so_far(b, ops@, pending@, p - pos) by {
                assert(b.ops@.take(0) =~= Seq::<Op>::empty());
                assert(pending@ =~= b.ops@[0].attribs@.take(0)) by {
                    if b.ops@.len() > 0 {
                        assert(b.ops@[0].attribs@.take(0) =~= Seq::<u32>::empty());
                    }
                }
            }
        }
        loop
            invariant
                pool.wf(),
                pos <= p <= input@.len(),
                ops_wf(ops@, pool.view()),
                sorted_codes(pending@),
                forall|k: int| 0 <= k < pending@.len() ==> pool.view().contains_key(#[trigger] pending@[k]),
                kept == sum_by(ops@, OpKind::Keep),
                deleted == sum_by(ops@, OpKind::Delete),
                inserted == sum_by(ops@, OpKind::Insert),
                kept + deleted <= old_length,
                inserted <= input@.len(),
                sels.len() == ops@.len(),
                forall|i: int| 0 <= i < sels.len() ==> (#[trigger] sels[i]).to_set() == ops@[i].attribs@.to_set(),
                raw.to_set() == pending@.to_set(),
                input@.subrange(pos as int, p as int) == loose_ops_text(ops@, sels) + codes_text(raw),
                forall|b: Body|
                    body_canon(b, pool.view(), old_length) && #[trigger] body_at(input@, pos as int, b)
                        ==> parsed_so_far(b, ops@, pending@, p - pos),
            ensures
                pos <= p < input@.len(),
                input@[p as int] == 36u8,
                ops_wf(ops@, pool.view()),
                kept == sum_by(ops@, OpKind::Keep),
                deleted == sum_by(ops@, OpKind::Delete),
                inserted == sum_by(ops@, OpKind::Insert),
                kept + deleted <= old_length,
                sels.len() == ops@.len(),
                forall|i: int| 0 <= i < sels.len() ==> (#[trigger] sels[i]).to_set() == ops@[i].attribs@.to_set(),
                raw.to_set() == pending@.to_set(),
                input@.subrange(pos as int, p as int) == loose_ops_text(ops@, sels) + codes_text(raw),
                forall|b: Body|
                    body_canon(b, pool.view(), old_length) && #[trigger] body_at(input@, pos as int, b)
                        ==> parsed_so_far(b, ops@, pending@, p - pos) && ops@.len() == b.ops@.len(),
            decreases input@.len() - p,
        {
            if p >= input.len() {
                proof {
                    assert forall|b: Body| body_canon(b, pool.view(), old_length) && #[trigger] body_at(input@, pos as int, b)
                        implies false by {
                        lemma_body_step(input@, pos as int, b, ops@, pending@, p as int, pool.view(), old_length);
                    }
                }
                return Err(ChangesetError::Format);
            }
            let c = input[p];
            if c == 36u8 {
                proof {
                    assert forall|b: Body| body_canon(b, pool.view(), old_length) && #[trigger] body_at(input@, pos as int, b)
                        implies ops@.len() == b.ops@.len() by {
                        lemma_body_step(input@, pos as int, b, ops@, pending@, p as int, pool.view(), old_length);
                    }
                }
                break;
            }
            if c == 42u8 {
                let rn = read_number(input, p + 1);
                if rn.is_none() {
                    proof {
                        assert forall|b: Body| body_canon(b, pool.view(), old_length) && #[trigger] body_at(input@, pos as int, b)
                            implies false by {
                            lemma_body_step(input@, pos as int, b, ops@, pending@, p as int, pool.view(), old_length);
                        }
                    }
                    return Err(ChangesetError::Format);
                }
                let (code, end) = rn.unwrap();
                if !pool.contains(code) {
                    proof {
                        assert forall|b: Body| body_canon(b, pool.view(), old_length) && #[trigger] body_at(input@, pos as int, b)
                            implies false by {
                            lemma_body_step(input@, pos as int, b, ops@, pending@, p as int, pool.view(), old_length);
                            let k = ops@.len() as int;
                            let j = pending@.len() as int;
                            assert(op_wf(b.ops@[k], pool.view()));
                        }
                    }
                    return Err(ChangesetError::PoolLookup);
                }
                let ghost before = pending@;
                insert_code(&mut pending, code);
                proof {
                    assert forall|k: int| 0 <= k < pending@.len() implies pool.view().contains_key(#[trigger] pending@[k]) by {
                        assert(pending@.to_set().contains(pending@[k]));
                        if pending@[k] != code {
                            assert(before.to_set().contains(pending@[k]));
                        }
                    }
                    assert forall|b: Body| body_canon(b, pool.view(), old_length) && #[trigger] body_at(input@, pos as int, b)
                        implies parsed_so_far(b, ops@, pending@, end - pos) by {
                        lemma_body_step(input@, pos as int, b, ops@, before, p as int, pool.view(), old_length);
                        let k = ops@.len() as int;
                        let j = before.len() as int;
                        let a = b.ops@[k].attribs@;
                        assert(op_wf(b.ops@[k], pool.view()));
                        assert forall|x: int| 0 <= x < before.len() implies #[trigger] before[x] < code by {
                            assert(before[x] == a[x]);
                        }
                        assert(pending@ == before.push(code));
                        assert(a.take(j + 1) =~= before.push(code));
                        assert(pending@.drop_last() =~= before);
                    }
                    let raw2 = raw.push(code);
                    assert(raw2.drop_last() =~= raw);
                    assert(raw2.to_set() =~= raw.to_set().insert(code)) by {
                        assert forall|x: u32| raw2.to_set().contains(x) <==> raw.to_set().insert(code).contains(x) by {
                            if raw2.contains(x) {
                                let q = choose|q: int| 0 <= q < raw2.len() && raw2[q] == x;
                                if q < raw.len() {
                                    assert(raw[q] == x);
                                }
                            }
                            if raw.contains(x) {
                                let q = choose|q: int| 0 <= q < raw.len() && raw[q] == x;
                                assert(raw2[q] == x);
                            }
                            if x == code {
                                assert(raw2[raw.len() as int] == x);
                            }
                        }
                    }
                    assert(input@.subrange(pos as int, end as int) =~= input@.subrange(pos as int, p as int)
                        + seq![42u8] + input@.subrange(p + 1, end as int));
                    raw = raw2;
                }
                p = end;
            } else {
                let kind = if c == 61u8 {
                    OpKind::Keep
                } else if c == 43u8 {
                    OpKind::Insert
                } else if c == 45u8 {
                    OpKind::Delete
                } else {
                    proof {
                        assert forall|b: Body| body_canon(b, pool.view(), old_length) && #[trigger] body_at(input@, pos as int, b)
                            implies false by {
                            lemma_body_step(input@, pos as int, b, ops@, pending@, p as int, pool.view(), old_length);
                        }
                    }
                    return Err(ChangesetError::Format);
                };
                let rn = read_number(input, p + 1);
                proof {
                    assert forall|b: Body| body_canon(b, pool.view(), old_length) && #[trigger] body_at(input@, pos as int, b)
                        implies {
                            let k = ops@.len() as int;
                            &&& k < b.ops@.len()
                            &&& pending@.len() == b.ops@[k].attribs@.len()
                            &&& b.ops@[k].kind == kind
                            &&& rn matches Some((m, e)) && m == b.ops@[k].count && e == p + 1 + dec(b.ops@[k].count as nat).len()
                            &&& (kind == OpKind::Delete ==> pending@.len() == 0)
                            &&& consumed(b.ops@.take(k + 1)) <= old_length
                            &&& sum_by(b.ops@.take(k + 1), OpKind::Insert) <= input@.len()
                        } by {
                        lemma_body_step(input@, pos as int, b, ops@, pending@, p as int, pool.view(), old_length);
                        let k = ops@.len() as int;
                        assert(op_wf(b.ops@[k], pool.view()));
                        crate::ops::lemma_consumed_prefix(b.ops@, k + 1);
                        lemma_sum_prefix(b.ops@, k + 1, OpKind::Insert);
                        assert(body_text(b).len() == input@.len() - pos);
                        assert(b.char_bank@.len() <= input@.len());
                    }
                }
                if rn.is_none() {
                    return Err(ChangesetError::Format);
                }
                let (count, end) = rn.unwrap();
                let ghost k = ops@.len() as int;
                proof {
                    assert forall|b: Body| body_canon(b, pool.view(), old_length) && #[trigger] body_at(input@, pos as int, b)
                        implies {
                            &&& sum_by(b.ops@.take(k + 1), OpKind::Keep) == kept + if kind == OpKind::Keep { count as int } else { 0 }
                            &&& sum_by(b.ops@.take(k + 1), OpKind::Delete) == deleted + if kind == OpKind::Delete { count as int } else { 0 }
                            &&& sum_by(b.ops@.take(k + 1), OpKind::Insert) == inserted + if kind == OpKind::Insert { count as int } else { 0 }
                        } by {
                        lemma_same_ops(ops@, b.ops@.take(k));
                        lemma_sum_step(b.ops@, k, OpKind::Keep);
                        lemma_sum_step(b.ops@, k, OpKind::Delete);
                        lemma_sum_step(b.ops@, k, OpKind::Insert);
                    }
                }
                match kind {
                    OpKind::Delete => {
                        if pending.len() > 0 {
                            return Err(ChangesetError::Format);
                        }
                        if kept + deleted + count as u64 > old_length as u64 {
                            return Err(ChangesetError::Validation);
                        }
                        deleted = deleted + count as u64;
                    },
                    OpKind::Keep => {
                        if kept + deleted + count as u64 > old_length as u64 {
                            return Err(ChangesetError::Validation);
                        }
                        kept = kept + count as u64;
                    },
                    OpKind::Insert => {
                        if count as u64 > input.len() as u64 - inserted {
                            return Err(ChangesetError::Format);
                        }
                        inserted = inserted + count as u64;
                    },
                }
                let ghost before = pending@;
                let op = Op { kind, count, attribs: pending };
                proof {
                    lemma_sum_push(ops@, op, OpKind::Keep);
                    lemma_sum_push(ops@, op, OpKind::Delete);
                    lemma_sum_push(ops@, op, OpKind::Insert);
                    assert(op_wf(op, pool.view()));
                    lemma_ops_wf_push(ops@, op, pool.view());
                    assert forall|b: Body| body_canon(b, pool.view(), old_length) && #[trigger] body_at(input@, pos as int, b)
                        implies parsed_so_far(b, ops@.push(op), Seq::<u32>::empty(), end - pos) by {
                        let a = b.ops@[k].attribs@;
                        assert(before =~= a);
                        assert(b.ops@.take(k + 1).drop_last() =~= b.ops@.take(k));
                        assert(b.ops@.take(k + 1).last() == b.ops@[k]);
                        assert(same_ops(ops@.push(op), b.ops@.take(k + 1))) by {
                            assert forall|i: int| 0 <= i < k + 1 implies #[trigger] ops@.push(op)[i].kind == b.ops@.take(k + 1)[i].kind
                                && ops@.push(op)[i].count == b.ops@.take(k + 1)[i].count
                                && ops@.push(op)[i].attribs@ == b.ops@.take(k + 1)[i].attribs@ by {
                                if i < k {
                                    assert(ops@[i].kind == b.ops@.take(k)[i].kind);
                                }
                            }
                        }
                        assert(codes_text(Seq::<u32>::empty()) =~= Seq::<u8>::empty());
                        assert(count == b.ops@[k].count);
                        assert(end == p + 1 + dec(b.ops@[k].count as nat).len());
                        assert(ops_text(b.ops@.take(k + 1)) == ops_text(b.ops@.take(k)) + op_text(b.ops@[k]));
                        assert(codes_text(before) == codes_text(a));
                        assert(p - pos == ops_text(b.ops@.take(k)).len() + codes_text(before).len());
                        assert(op_text(b.ops@[k]).len() == codes_text(a).len() + 1 + dec(b.ops@[k].count as nat).len());
                        if k + 1 < b.ops@.len() {
                            assert(Seq::<u32>::empty() =~= b.ops@[k + 1].attribs@.take(0));
                        }
                    }
                }
                proof {
                    let sels2 = sels.push(raw);
                    let ops2 = ops@.push(op);
                    assert(sels2.drop_last() =~= sels);
                    assert(ops2.drop_last() =~= ops@);
                    assert(input@.subrange(pos as int, end as int) =~= input@.subrange(pos as int, p as int)
                        + seq![kind_byte(kind)] + input@.subrange(p + 1, end as int));
                    assert(input@.subrange(pos as int, end as int) =~= loose_ops_text(ops2, sels2) + codes_text(Seq::<u32>::empty()));
                    assert forall|i: int| 0 <= i < sels2.len() implies (#[trigger] sels2[i]).to_set() == ops2[i].attribs@.to_set() by {
                        if i < sels.len() {
                            assert(sels2[i] == sels[i]);
                        }
                    }
                    sels = sels2;
                    raw = Seq::empty();
                }
                ops.push(op);
                pending = Vec::new();
                assert(raw.to_set() =~= pending@.to_set());
                p = end;
            }
        }
        let ghost d = p as int;
        let n: usize = input.len();
        let mut bank: Vec<u8> = Vec::new();
        let mut k: usize = p + 1;
        while k < input.len()
            invariant
                0 <= d,
                d + 1 <= k <= input@.len(),
                bank@ == input@.subrange(d + 1, k as int),
            decreases input@.len() - k,
        {
            bank.push(input[k]);
            k = k + 1;
            assert(bank@ =~= input@.subrange(d + 1, k as int));
        }
        proof {
            assert forall|b: Body| body_canon(b, pool.view(), old_length) && #[trigger] body_at(input@, pos as int, b)
                implies pending@.len() == 0 && bank@ == b.char_bank@ && same_ops(ops@, b.ops@) && inserted == b.char_bank@.len() by {
                lemma_body_step(input@, pos as int, b, ops@, pending@, p as int, pool.view(), old_length);
                assert(b.ops@.take(ops@.len() as int) =~= b.ops@);
                lemma_same_ops(ops@, b.ops@);
                assert(input@.subrange(p + 1, input@.len() as int) =~= bank@);
            }
        }
        if pending.len() > 0 {
            return Err(ChangesetError::Format);
        }
        if bank.len() as u64 != inserted {
            return Err(ChangesetError::Format);
        }
        proof {
            if raw.len() > 0 {
                assert(raw.to_set().contains(raw[0]));
            }
            assert(raw =~= Seq::<u32>::empty());
            assert(codes_text(raw) =~= Seq::<u8>::empty());
            assert(input@.subrange(pos as int, input@.len() as int) =~= input@.subrange(pos as int, p as int)
                + seq![36u8] + bank@);
        }
        let body = Body { ops, char_bank: bank };
        assert(body_spells(input@.subrange(pos as int, input@.len() as int), body)) by {
            assert(input@.subrange(pos as int, input@.len() as int) == loose_ops_text(body.ops@, sels) + seq![36u8] + body.char_bank@);
        }
        Ok(body)
    }
}

} // verus!
