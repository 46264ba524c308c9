use vstd::prelude::*;
use vstd::utf8::encode_utf8;

use crate::apool::Mem;
use crate::body::{insert_code, Body};
use crate::changeset::{cs_wf, Changeset};
use crate::error::ChangesetError;
use crate::head::{new_length, Head};
use crate::ops::{
    consumed, lemma_ops_wf_push, lemma_sum_step, op_wf, ops_wf, sorted_codes, sum_by, Op, OpKind,
};

verus! {

/// The attribute key of an attribute text: the bytes before the first `:`.
pub open spec fn key_of(s: Seq<u8>) -> Seq<u8>
    decreases s.len(),
{
    if s.len() == 0 || s[0] == 58u8 {
        Seq::empty()
    } else {
        seq![s[0]] + key_of(s.drop_first())
    }
}

/// Two codes of `pool` name the same attribute key.
pub open spec fn same_key(pool: Map<u32, Seq<char>>, x: u32, y: u32) -> bool {
    key_of(encode_utf8(pool[x])) == key_of(encode_utf8(pool[y]))
}

/// The codes that result when `over` is applied on top of `under`: those of
/// `over`, and those of `under` whose key `over` does not set.
pub open spec fn overridden(pool: Map<u32, Seq<char>>, under: Seq<u32>, over: Seq<u32>) -> Set<u32> {
    over.to_set().union(
        under.to_set().filter(|c: u32| forall|j: int| 0 <= j < over.len() ==> !same_key(pool, c, #[trigger] over[j])),
    )
}

/// Length of the key of `s`: the position of its first `:`, or its length.
fn key_len(s: &[u8]) -> (r: usize)
    ensures
        r <= s@.len(),
        key_of(s@) == s@.take(r as int),
{
    let mut i: usize = 0;
    assert(s@.skip(0) =~= s@);
    assert(s@.take(0) + key_of(s@) =~= key_of(s@));
    while i < s.len() && s[i] != 58u8
        invariant
            i <= s@.len(),
            key_of(s@) == s@.take(i as int) + key_of(s@.skip(i as int)),
        decreases s@.len() - i,
    {
        assert(s@.skip(i as int).drop_first() =~= s@.skip(i + 1));
        assert(s@.take(i + 1) =~= s@.take(i as int) + seq![s@[i as int]]);
        i = i + 1;
    }
    if i == s.len() {
        assert(s@.skip(i as int) =~= Seq::<u8>::empty());
    }
    assert(s@.take(i as int) + Seq::<u8>::empty() =~= s@.take(i as int));
    i
}

/// Whether the attribute texts `x` and `y` share their key.
fn keys_equal(x: &[u8], y: &[u8]) -> (r: bool)
    ensures
        r == (key_of(x@) == key_of(y@)),
{
    let kx = key_len(x);
    let ky = key_len(y);
    if kx != ky {
        assert(key_of(x@).len() != key_of(y@).len());
        return false;
    }
    let mut i: usize = 0;
    while i < kx
        invariant
            kx == ky,
            key_of(x@) == x@.take(kx as int),
            key_of(y@) == y@.take(ky as int),
            kx <= x@.len(),
            kx <= y@.len(),
            i <= kx,
            forall|k: int| 0 <= k < i ==> x@[k] == y@[k],
        decreases kx - i,
    {
        if x[i] != y[i] {
            assert(x@.take(kx as int)[i as int] != y@.take(ky as int)[i as int]);
            assert(key_of(x@)[i as int] != key_of(y@)[i as int]);
            return false;
        }
        i = i + 1;
    }
    assert(x@.take(kx as int) =~= y@.take(ky as int));
    true
}

/// Strictly increasing runs of codes with the same elements are equal.
pub proof fn lemma_sorted_unique(x: Seq<u32>, y: Seq<u32>)
    requires
        sorted_codes(x),
        sorted_codes(y),
        x.to_set() == y.to_set(),
    ensures
        x == y,
    decreases x.len(),
{
    if x.len() == 0 {
        if y.len() > 0 {
            assert(y.to_set().contains(y[0]));
        }
        assert(x =~= y);
    } else {
        assert(x.to_set().contains(x[0]));
        assert(y.to_set().contains(x[0]));
        let j = choose|j: int| 0 <= j < y.len() && y[j] == x[0];
        assert(x.to_set().contains(y[0]));
        let i = choose|i: int| 0 <= i < x.len() && x[i] == y[0];
        assert(x[0] <= y[0]) by {
            if j > 0 {
                assert(y[0] < y[j]);
            }
        }
        assert(y[0] <= x[0]) by {
            if i > 0 {
                assert(x[0] < x[i]);
            }
        }
        let xs = x.drop_first();
        let ys = y.drop_first();
        assert forall|e: u32| xs.to_set().contains(e) <==> ys.to_set().contains(e) by {
            if xs.to_set().contains(e) {
                let k = choose|k: int| 0 <= k < xs.len() && xs[k] == e;
                assert(x[k + 1] == e && x[0] < x[k + 1]);
                assert(y.to_set().contains(e));
                let l = choose|l: int| 0 <= l < y.len() && y[l] == e;
                assert(l != 0);
                assert(ys[l - 1] == e);
            }
            if ys.to_set().contains(e) {
                let k = choose|k: int| 0 <= k < ys.len() && ys[k] == e;
                assert(y[k + 1] == e && y[0] < y[k + 1]);
                assert(x.to_set().contains(e));
                let l = choose|l: int| 0 <= l < x.len() && x[l] == e;
                assert(l != 0);
                assert(xs[l - 1] == e);
            }
        }
        assert(xs.to_set() =~= ys.to_set());
        lemma_sorted_unique(xs, ys);
        assert(x =~= seq![x[0]] + xs);
        assert(y =~= seq![y[0]] + ys);
    }
}

/// The codes `over` applied on top of `under`, in increasing order.
pub open spec fn override_spec(pool: Map<u32, Seq<char>>, under: Seq<u32>, over: Seq<u32>) -> Seq<u32> {
    choose|r: Seq<u32>| sorted_codes(r) && r.to_set() == overridden(pool, under, over)
}

/// Applies the attribute codes `over` on top of `under`: a code of `over`
/// replaces those of `under` with the same key; other keys accumulate.
pub fn override_codes(pool: &Mem, under: &Vec<u32>, over: &Vec<u32>) -> (r: Vec<u32>)
    requires
        pool.wf(),
        sorted_codes(over@),
        forall|i: int| 0 <= i < under@.len() ==> pool.view().contains_key(#[trigger] under@[i]),
        forall|i: int| 0 <= i < over@.len() ==> pool.view().contains_key(#[trigger] over@[i]),
    ensures
        sorted_codes(r@),
        r@.to_set() == overridden(pool.view(), under@, over@),
        r@ == override_spec(pool.view(), under@, over@),
        forall|i: int| 0 <= i < r@.len() ==> pool.view().contains_key(#[trigger] r@[i]),
{
    let mut r = over.clone();
    let mut i: usize = 0;
    while i < under.len()
        invariant
            pool.wf(),
            i <= under@.len(),
            sorted_codes(r@),
            forall|k: int| 0 <= k < under@.len() ==> pool.view().contains_key(#[trigger] under@[k]),
            forall|k: int| 0 <= k < over@.len() ==> pool.view().contains_key(#[trigger] over@[k]),
            r@.to_set() == overridden(pool.view(), under@.take(i as int), over@),
        decreases under@.len() - i,
    {
        let c = under[i];
        let cs = match pool.lookup(c) {
            Some(s) => s.as_str().as_bytes(),
            None => {
                assert(false);
                return r;
            },
        };
        let mut j: usize = 0;
        let mut clash = false;
        while j < over.len()
            invariant
                pool.wf(),
                j <= over@.len(),
                pool.view().contains_key(c),
                cs@ == encode_utf8(pool.view()[c]),
                forall|k: int| 0 <= k < over@.len() ==> pool.view().contains_key(#[trigger] over@[k]),
                clash == exists|k: int| 0 <= k < j && same_key(pool.view(), c, #[trigger] over@[k]),
            decreases over@.len() - j,
        {
            let os = match pool.lookup(over[j]) {
                Some(s) => s.as_str().as_bytes(),
                None => {
                    assert(false);
                    return r;
                },
            };
            if keys_equal(cs, os) {
                clash = true;
            }
            j = j + 1;
        }
        let ghost before = r@;
        if !clash {
            insert_code(&mut r, c);
        }
        proof {
            let t = under@.take(i + 1);
            assert(t.to_set() =~= under@.take(i as int).to_set().insert(c)) by {
                assert forall|x: u32| t.to_set().contains(x) <==> under@.take(i as int).to_set().insert(c).contains(x) by {
                    if t.contains(x) {
                        let k = choose|k: int| 0 <= k < t.len() && t[k] == x;
                        if k < i {
                            assert(under@.take(i as int)[k] == x);
                        }
                    }
                    if under@.take(i as int).contains(x) {
                        let k = choose|k: int| 0 <= k < i && under@.take(i as int)[k] == x;
                        assert(t[k] == x);
                    }
                    if x == c {
                        assert(t[i as int] == x);
                    }
                }
            }
            assert(r@.to_set() =~= overridden(pool.view(), t, over@));
        }
        i = i + 1;
    }
    assert(under@.take(i as int) =~= under@);
    proof {
        let w = override_spec(pool.view(), under@, over@);
        assert(sorted_codes(w) && w.to_set() == overridden(pool.view(), under@, over@));
        lemma_sorted_unique(r@, w);
    }
    assert forall|k: int| 0 <= k < r@.len() implies pool.view().contains_key(#[trigger] r@[k]) by {
        assert(r@.to_set().contains(r@[k]));
        if over@.contains(r@[k]) {
            let j = choose|j: int| 0 <= j < over@.len() && over@[j] == r@[k];
        } else {
            assert(under@.to_set().contains(r@[k]));
            let j = choose|j: int| 0 <= j < under@.len() && under@[j] == r@[k];
        }
    }
    r
}

/// Total counts of keeps, inserts and deletes in `ops`.
pub fn totals(ops: &Vec<Op>) -> (r: (u128, u128, u128))
    ensures
        r.0 == sum_by(ops@, OpKind::Keep),
        r.1 == sum_by(ops@, OpKind::Insert),
        r.2 == sum_by(ops@, OpKind::Delete),
{
    let mut keep: u128 = 0;
    let mut ins: u128 = 0;
    let mut del: u128 = 0;
    let mut i: usize = 0;
    while i < ops.len()
        invariant
            i <= ops@.len(),
            keep == sum_by(ops@.take(i as int), OpKind::Keep),
            ins == sum_by(ops@.take(i as int), OpKind::Insert),
            del == sum_by(ops@.take(i as int), OpKind::Delete),
            keep + ins + del <= i * (u32::MAX as int),
        decreases ops@.len() - i,
    {
        proof {
            lemma_sum_step(ops@, i as int, OpKind::Keep);
            lemma_sum_step(ops@, i as int, OpKind::Insert);
            lemma_sum_step(ops@, i as int, OpKind::Delete);
        }
        match ops[i].kind {
            OpKind::Keep => keep = keep + ops[i].count as u128,
            OpKind::Insert => ins = ins + ops[i].count as u128,
            OpKind::Delete => del = del + ops[i].count as u128,
        }
        i = i + 1;
    }
    assert(ops@.take(i as int) =~= ops@);
    (keep, ins, del)
}

/// Assembles a changeset over a base of `old_length` from operations that read
/// all of it and the text that they insert; a final keep without codes is left
/// implicit. Fails with `Domain` when they do
/// not read exactly `old_length` characters, when the text does not match the
/// insertions, or when the new length does not fit a `u32`.
pub fn finish(pool: &Mem, old_length: u32, line_marker: u32, ops: Vec<Op>, bank: Vec<u8>) -> (r: Result<
    Changeset,
    ChangesetError,
>)
    requires
        ops_wf(ops@, pool.view()),
    ensures
        match r {
            Ok(c) => {
                &&& cs_wf(c, pool.view())
                &&& c.head.old_length == old_length
                &&& c.head.line_marker == line_marker
                &&& c.body.char_bank@ == bank@
            },
            Err(e) => e == ChangesetError::Domain,
        },
        r matches Ok(c) ==> c.head.char_delta == sum_by(ops@, OpKind::Insert) - sum_by(ops@, OpKind::Delete)
            && runs(c.body.ops@) == trim(runs(ops@)),
        consumed(ops@) == old_length && sum_by(ops@, OpKind::Insert) == bank@.len() && crate::ops::produced(ops@)
            <= u32::MAX ==> r is Ok,
{
    let (keep, ins, del) = totals(&ops);
    if keep > old_length as u128 || del > old_length as u128 || ins > u32::MAX as u128 {
        return Err(ChangesetError::Domain);
    }
    if keep + del != old_length as u128 || ins != bank.len() as u128 {
        return Err(ChangesetError::Domain);
    }
    if keep + ins > u32::MAX as u128 {
        return Err(ChangesetError::Domain);
    }
    let char_delta: i64 = ins as i64 - del as i64;
    let ghost given = ops@;
    let mut ops = ops;
    let n = ops.len();
    if n > 0 && ops[n - 1].kind == OpKind::Keep && ops[n - 1].attribs.len() == 0 {
        let ghost full = ops@;
        let last = ops.pop().unwrap();
        proof {
            assert(runs(full).last() == run_of(last));
            assert(runs(ops@) =~= trim(runs(full)));
            assert(full.drop_last() =~= ops@);
            assert forall|i: int| 0 <= i < ops@.len() implies op_wf(#[trigger] ops@[i], pool.view()) by {
                assert(ops@[i] == full[i]);
            }
        }
    } else {
        proof {
            if n > 0 {
                assert(runs(given).last() == run_of(given[n - 1]));
            }
            assert(runs(ops@) =~= trim(runs(given)));
        }
    }
    Ok(Changeset { head: Head { old_length, char_delta, line_marker }, body: Body { ops, char_bank: bank } })
}

/// An operation as plain values: kind, count and codes.
pub type Run = (OpKind, u32, Seq<u32>);

pub open spec fn run_of(o: Op) -> Run {
    (o.kind, o.count, o.attribs@)
}

/// Operations as plain values.
pub open spec fn runs(ops: Seq<Op>) -> Seq<Run> {
    ops.map_values(|o: Op| run_of(o))
}

/// `out` with `r` appended, folded into the last run when both have the same
/// kind and codes and the counts fit a `u32` together.
pub open spec fn emit_spec(out: Seq<Run>, r: Run) -> Seq<Run> {
    if out.len() > 0 && out.last().0 == r.0 && out.last().1 + r.1 <= u32::MAX && out.last().2 == r.2 {
        out.drop_last().push((r.0, (out.last().1 + r.1) as u32, r.2))
    } else {
        out.push(r)
    }
}

/// `out` without a final keep that carries no codes: such a keep is implicit.
pub open spec fn trim(out: Seq<Run>) -> Seq<Run> {
    if out.len() > 0 && out.last().0 == OpKind::Keep && out.last().2.len() == 0 {
        out.drop_last()
    } else {
        out
    }
}

/// The operations of `cs` with an explicit keep of the tail they leave.
pub open spec fn tail_runs(cs: Changeset) -> Seq<Run> {
    runs(cs.body.ops@) + if cs.head.old_length > consumed(cs.body.ops@) {
        seq![(OpKind::Keep, (cs.head.old_length - consumed(cs.body.ops@)) as u32, Seq::<u32>::empty())]
    } else {
        Seq::empty()
    }
}

/// Appends an operation, folding it into the last one when both have the same
/// kind and codes and the counts fit together.
pub fn emit(out: &mut Vec<Op>, op: Op, Ghost(pool): Ghost<Map<u32, Seq<char>>>)
    requires
        ops_wf(old(out)@, pool),
        op_wf(op, pool),
    ensures
        ops_wf(final(out)@, pool),
        runs(final(out)@) == emit_spec(runs(old(out)@), run_of(op)),
        forall|k: OpKind|
            sum_by(#[trigger] final(out)@, k) == sum_by(old(out)@, k) + if op.kind == k {
                op.count as nat
            } else {
                0
            },
{
    let n = out.len();
    if n > 0 && out[n - 1].kind == op.kind && out[n - 1].count as u64 + op.count as u64
        <= u32::MAX as u64 && same_codes(&out[n - 1].attribs, &op.attribs) {
        let last = out.pop().unwrap();
        let ghost rest = out@;
        proof {
            assert(old(out)@ =~= rest.push(last));
            assert forall|k: OpKind| sum_by(#[trigger] old(out)@, k) == sum_by(rest, k) + if last.kind == k { last.count as nat } else { 0 } by {
                crate::ops::lemma_sum_push(rest, last, k);
            }
            assert forall|i: int| 0 <= i < rest.len() implies op_wf(#[trigger] rest[i], pool) by {
                assert(rest[i] == old(out)@[i]);
            }
        }
        let merged = Op { kind: op.kind, count: last.count + op.count, attribs: op.attribs };
        proof {
            assert(runs(old(out)@).last() == run_of(last));
            assert(runs(old(out)@).drop_last() =~= runs(rest));
            assert(runs(rest.push(merged)) =~= emit_spec(runs(old(out)@), run_of(op)));
        }
        proof {
            assert forall|k: OpKind| sum_by(#[trigger] rest.push(merged), k) == sum_by(rest, k) + if merged.kind == k { merged.count as nat } else { 0 } by {
                crate::ops::lemma_sum_push(rest, merged, k);
            }
            lemma_ops_wf_push(rest, merged, pool);
        }
        out.push(merged);
    } else {
        proof {
            assert forall|k: OpKind| sum_by(#[trigger] old(out)@.push(op), k) == sum_by(old(out)@, k) + if op.kind == k { op.count as nat } else { 0 } by {
                crate::ops::lemma_sum_push(old(out)@, op, k);
            }
            lemma_ops_wf_push(old(out)@, op, pool);
            if n > 0 {
                assert(runs(old(out)@).last() == run_of(old(out)@[n - 1]));
            }
            assert(runs(old(out)@.push(op)) =~= emit_spec(runs(old(out)@), run_of(op)));
        }
        out.push(op);
    }
}

/// Whether two code lists are equal.
fn same_codes(x: &Vec<u32>, y: &Vec<u32>) -> (r: bool)
    ensures
        r == (x@ == y@),
{
    if x.len() != y.len() {
        return false;
    }
    let mut i: usize = 0;
    while i < x.len()
        invariant
            x@.len() == y@.len(),
            i <= x@.len(),
            forall|k: int| 0 <= k < i ==> x@[k] == y@[k],
        decreases x@.len() - i,
    {
        if x[i] != y[i] {
            return false;
        }
        i = i + 1;
    }
    assert(x@ =~= y@);
    true
}

/// Appends `src[from..from + n]` to `dst`.
pub fn copy_bytes(dst: &mut Vec<u8>, src: &Vec<u8>, from: usize, n: usize)
    requires
        from + n <= src@.len(),
    ensures
        final(dst)@ == old(dst)@ + src@.subrange(from as int, from + n),
{
    let ghost start = dst@;
    let len = src.len();
    let mut k: usize = 0;
    while k < n
        invariant
            len == src@.len(),
            from + n <= src@.len(),
            k <= n,
            dst@ == start + src@.subrange(from as int, from + k),
        decreases n - k,
    {
        dst.push(src[from + k]);
        k = k + 1;
        assert(dst@ =~= start + src@.subrange(from as int, from + k));
    }
}

/// The operations of `cs` followed by a keep of the base document's tail that
/// they leave untouched, so that they read the whole base document.
pub fn with_tail(cs: &Changeset) -> (r: Vec<Op>)
    requires
        consumed(cs.body.ops@) <= cs.head.old_length,
    ensures
        consumed(r@) == cs.head.old_length,
        sum_by(r@, OpKind::Insert) == sum_by(cs.body.ops@, OpKind::Insert),
        sum_by(r@, OpKind::Delete) == sum_by(cs.body.ops@, OpKind::Delete),
        r@.len() >= cs.body.ops@.len(),
        forall|i: int| 0 <= i < cs.body.ops@.len() ==> #[trigger] r@[i].kind == cs.body.ops@[i].kind
            && r@[i].count == cs.body.ops@[i].count && r@[i].attribs@ == cs.body.ops@[i].attribs@,
        forall|i: int| cs.body.ops@.len() <= i < r@.len() ==> #[trigger] r@[i].kind == OpKind::Keep
            && r@[i].attribs@.len() == 0,
        runs(r@) == tail_runs(*cs),
{
    let mut r: Vec<Op> = Vec::new();
    let mut i: usize = 0;
    let mut used: u64 = 0;
    while i < cs.body.ops.len()
        invariant
            consumed(cs.body.ops@) <= cs.head.old_length,
            i <= cs.body.ops@.len(),
            r@.len() == i,
            forall|k: int| 0 <= k < i ==> #[trigger] r@[k].kind == cs.body.ops@[k].kind
                && r@[k].count == cs.body.ops@[k].count && r@[k].attribs@ == cs.body.ops@[k].attribs@,
            forall|k: OpKind| sum_by(#[trigger] r@, k) == sum_by(cs.body.ops@.take(i as int), k),
            used == consumed(r@),
        decreases cs.body.ops@.len() - i,
    {
        let op = cs.body.ops[i].clone();
        proof {
            assert forall|k: OpKind| sum_by(#[trigger] r@.push(op), k) == sum_by(cs.body.ops@.take(i + 1), k) by {
                crate::ops::lemma_sum_push(r@, op, k);
                lemma_sum_step(cs.body.ops@, i as int, k);
            }
            crate::ops::lemma_consumed_prefix(cs.body.ops@, i + 1);
            assert(sum_by(r@.push(op), OpKind::Keep) == sum_by(cs.body.ops@.take(i + 1), OpKind::Keep));
            assert(sum_by(r@.push(op), OpKind::Delete) == sum_by(cs.body.ops@.take(i + 1), OpKind::Delete));
            assert(sum_by(r@.push(op), OpKind::Keep) == sum_by(r@, OpKind::Keep) + if op.kind == OpKind::Keep { op.count as nat } else { 0 }) by {
                crate::ops::lemma_sum_push(r@, op, OpKind::Keep);
            }
            assert(sum_by(r@.push(op), OpKind::Delete) == sum_by(r@, OpKind::Delete) + if op.kind == OpKind::Delete { op.count as nat } else { 0 }) by {
                crate::ops::lemma_sum_push(r@, op, OpKind::Delete);
            }
        }
        if op.kind != OpKind::Insert {
            used = used + op.count as u64;
        }
        r.push(op);
        i = i + 1;
    }
    assert(cs.body.ops@.take(i as int) =~= cs.body.ops@);
    assert(runs(r@) =~= runs(cs.body.ops@));
    let tail = cs.head.old_length as u64 - used;
    if tail > 0 {
        let op = Op { kind: OpKind::Keep, count: tail as u32, attribs: Vec::new() };
        proof {
            assert forall|k: OpKind| sum_by(#[trigger] r@.push(op), k) == sum_by(r@, k) + if op.kind == k { op.count as nat } else { 0 } by {
                crate::ops::lemma_sum_push(r@, op, k);
            }
        }
        r.push(op);
        assert(runs(r@) =~= tail_runs(*cs));
    } else {
        assert(runs(r@) =~= tail_runs(*cs));
    }
    r
}

/// How much of `kind` the operations before `i`, and `u` counts into
/// operation `i`, account for.
pub open spec fn at(ops: Seq<Op>, i: int, u: int, kind: OpKind) -> int {
    sum_by(ops.take(i), kind) + if 0 <= i < ops.len() && ops[i].kind == kind {
        u
    } else {
        0
    }
}

/// How `at` moves over one operation, and that it stays within the total.
pub proof fn lemma_at(ops: Seq<Op>, i: int, u: int, kind: OpKind)
    requires
        0 <= i < ops.len(),
        0 <= u <= ops[i].count,
    ensures
        at(ops, i, ops[i].count as int, kind) == at(ops, i + 1, 0, kind),
        at(ops, i, u, kind) + (if ops[i].kind == kind { ops[i].count - u } else { 0 }) == at(ops, i + 1, 0, kind),
        at(ops, i + 1, 0, kind) <= sum_by(ops, kind),
        at(ops, 0, 0, kind) == 0,
{
    lemma_sum_step(ops, i, kind);
    crate::ops::lemma_sum_prefix(ops, i + 1, kind);
    assert(ops.take(0) =~= Seq::<Op>::empty());
}

/// `at` for every kind of operation.
pub proof fn lemma_at_all(ops: Seq<Op>, i: int, u: int)
    requires
        0 <= i < ops.len(),
        0 <= u <= ops[i].count,
    ensures
        at(ops, i, ops[i].count as int, OpKind::Keep) == at(ops, i + 1, 0, OpKind::Keep),
        at(ops, i, ops[i].count as int, OpKind::Insert) == at(ops, i + 1, 0, OpKind::Insert),
        at(ops, i, ops[i].count as int, OpKind::Delete) == at(ops, i + 1, 0, OpKind::Delete),
        at(ops, i, u, OpKind::Keep) + (if ops[i].kind == OpKind::Keep { ops[i].count - u } else { 0 })
            == at(ops, i + 1, 0, OpKind::Keep),
        at(ops, i, u, OpKind::Insert) + (if ops[i].kind == OpKind::Insert { ops[i].count - u } else { 0 })
            == at(ops, i + 1, 0, OpKind::Insert),
        at(ops, i, u, OpKind::Delete) + (if ops[i].kind == OpKind::Delete { ops[i].count - u } else { 0 })
            == at(ops, i + 1, 0, OpKind::Delete),
        at(ops, i + 1, 0, OpKind::Keep) <= sum_by(ops, OpKind::Keep),
        at(ops, i + 1, 0, OpKind::Insert) <= sum_by(ops, OpKind::Insert),
        at(ops, i + 1, 0, OpKind::Delete) <= sum_by(ops, OpKind::Delete),
{
    lemma_at(ops, i, u, OpKind::Keep);
    lemma_at(ops, i, u, OpKind::Insert);
    lemma_at(ops, i, u, OpKind::Delete);
}

/// At the end of the operations, `at` is the total.
pub proof fn lemma_at_end(ops: Seq<Op>, kind: OpKind)
    ensures
        at(ops, ops.len() as int, 0, kind) == sum_by(ops, kind),
        at(ops, 0, 0, kind) == 0,
{
    assert(ops.take(ops.len() as int) =~= ops);
    assert(ops.take(0) =~= Seq::<Op>::empty());
}

} // verus!
