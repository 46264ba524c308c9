use vstd::prelude::*;

use crate::apool::Mem;
use crate::changeset::{cs_wf, Changeset};
use crate::error::ChangesetError;
use crate::head::new_length;
use crate::merge::{
    at, copy_bytes, emit, emit_spec, finish, lemma_at_all, lemma_at_end, override_codes, override_spec, runs,
    tail_runs, trim, with_tail, Run,
};
use crate::ops::{op_wf, ops_wf, sum_by, Op, OpKind};

verus! {

/// The operations of `cs`, with the tail keep, are well formed too.
pub proof fn lemma_tail_wf(cs: Changeset, ext: Seq<Op>, pool: Map<u32, Seq<char>>)
    requires
        ops_wf(cs.body.ops@, pool),
        ext.len() >= cs.body.ops@.len(),
        forall|i: int| 0 <= i < cs.body.ops@.len() ==> #[trigger] ext[i].kind == cs.body.ops@[i].kind
            && ext[i].count == cs.body.ops@[i].count && ext[i].attribs@ == cs.body.ops@[i].attribs@,
        forall|i: int| cs.body.ops@.len() <= i < ext.len() ==> #[trigger] ext[i].kind == OpKind::Keep
            && ext[i].attribs@.len() == 0,
    ensures
        ops_wf(ext, pool),
{
    assert forall|i: int| 0 <= i < ext.len() implies op_wf(#[trigger] ext[i], pool) by {
        if i < cs.body.ops@.len() {
            assert(op_wf(cs.body.ops@[i], pool));
        }
    }
}

/// The composing walk, from operation `ia` of `a` (of which `ua` counts are
/// done) and operation `ib` of `b` (`ub` done), with `apos` and `bpos` bytes
/// of their char banks used, having written `out` and `bank`. The walk runs
/// over `a`'s output, which is `b`'s input. A deletion of `a` passes through;
/// an insertion of `b` is taken with its text; a keep of `b` over a keep or an
/// insertion of `a` keeps that run with `b`'s codes applied over `a`'s; a
/// deletion of `b` deletes what `a` kept and cancels what `a` inserted.
pub open spec fn compose_steps(
    a: Seq<Run>,
    b: Seq<Run>,
    abank: Seq<u8>,
    bbank: Seq<u8>,
    pool: Map<u32, Seq<char>>,
    ia: int,
    ua: int,
    ib: int,
    ub: int,
    apos: int,
    bpos: int,
    out: Seq<Run>,
    bank: Seq<u8>,
) -> (Seq<Run>, Seq<u8>)
    decreases a.len() - ia + b.len() - ib,
{
    if ia < 0 || ib < 0 || ia > a.len() || ib > b.len() || !(ia < a.len() || ib < b.len()) {
        (out, bank)
    } else if ia < a.len() && (ua < 0 || ua > a[ia].1) || ib < b.len() && (ub < 0 || ub > b[ib].1) {
        (out, bank)
    } else if ia < a.len() && ua == a[ia].1 {
        compose_steps(a, b, abank, bbank, pool, ia + 1, 0, ib, ub, apos, bpos, out, bank)
    } else if ib < b.len() && ub == b[ib].1 {
        compose_steps(a, b, abank, bbank, pool, ia, ua, ib + 1, 0, apos, bpos, out, bank)
    } else if ia < a.len() && a[ia].0 == OpKind::Delete {
        compose_steps(a, b, abank, bbank, pool, ia + 1, 0, ib, ub, apos, bpos,
            emit_spec(out, (OpKind::Delete, (a[ia].1 - ua) as u32, Seq::empty())), bank)
    } else if ib < b.len() && b[ib].0 == OpKind::Insert {
        let n = b[ib].1 - ub;
        compose_steps(a, b, abank, bbank, pool, ia, ua, ib + 1, 0, apos, bpos + n,
            emit_spec(out, (OpKind::Insert, n as u32, b[ib].2)), bank + bbank.subrange(bpos, bpos + n))
    } else if ia >= a.len() || ib >= b.len() {
        (out, bank)
    } else {
        let m = if a[ia].1 - ua < b[ib].1 - ub { a[ia].1 - ua } else { b[ib].1 - ub };
        let codes = override_spec(pool, a[ia].2, b[ib].2);
        let (out2, bank2, apos2) = if b[ib].0 == OpKind::Keep {
            if a[ia].0 == OpKind::Insert {
                (emit_spec(out, (OpKind::Insert, m as u32, codes)), bank + abank.subrange(apos, apos + m), apos + m)
            } else {
                (emit_spec(out, (OpKind::Keep, m as u32, codes)), bank, apos)
            }
        } else {
            if a[ia].0 == OpKind::Insert {
                (out, bank, apos + m)
            } else {
                (emit_spec(out, (OpKind::Delete, m as u32, Seq::empty())), bank, apos)
            }
        };
        let (ia2, ua2) = if ua + m == a[ia].1 { (ia + 1, 0) } else { (ia, ua + m) };
        let (ib2, ub2) = if ub + m == b[ib].1 { (ib + 1, 0) } else { (ib, ub + m) };
        compose_steps(a, b, abank, bbank, pool, ia2, ua2, ib2, ub2, apos2, bpos, out2, bank2)
    }
}

/// The operations and char bank of `a` composed with `b`.
pub open spec fn compose_result(pool: Map<u32, Seq<char>>, a: Changeset, b: Changeset) -> (Seq<Run>, Seq<u8>) {
    let r = compose_steps(tail_runs(a), tail_runs(b), a.body.char_bank@, b.body.char_bank@, pool, 0, 0, 0, 0, 0, 0,
        Seq::empty(), Seq::empty());
    (trim(r.0), r.1)
}

/// Composes `a` with `b`, which applies to the document that `a` produces:
/// the result takes `a`'s base straight to `b`'s result.
///
/// Both streams are walked together over `a`'s output, which is `b`'s input.
/// A deletion of `a` passes through; an insertion of `b` is taken as is; a
/// keep of `b` over a keep or insertion of `a` keeps that run with `b`'s codes
/// applied over `a`'s; a deletion of `b` over a keep of `a` deletes, and over
/// an insertion of `a` cancels it.
///
/// The result carries `a`'s line marker. Fails with `Domain` when `a`'s new
/// length is not `b`'s base length.
#[verifier::rlimit(100)]
pub fn compose(pool: &Mem, a: &Changeset, b: &Changeset) -> (r: Result<Changeset, ChangesetError>)
    requires
        pool.wf(),
        cs_wf(*a, pool.view()),
        cs_wf(*b, pool.view()),
    ensures
        r is Ok <==> new_length(a.head) == b.head.old_length,
        match r {
            Ok(c) => {
                &&& cs_wf(c, pool.view())
                &&& c.head.old_length == a.head.old_length
                &&& c.head.line_marker == a.head.line_marker
                &&& new_length(c.head) == new_length(b.head)
                &&& runs(c.body.ops@) == compose_result(pool.view(), *a, *b).0
                &&& c.body.char_bank@ == compose_result(pool.view(), *a, *b).1
            },
            Err(e) => e == ChangesetError::Domain,
        },
{
    if a.head.old_length as i64 + a.head.char_delta != b.head.old_length as i64 {
        return Err(ChangesetError::Domain);
    }
    let ea = with_tail(a);
    let eb = with_tail(b);
    proof {
        lemma_tail_wf(*a, ea@, pool.view());
        lemma_tail_wf(*b, eb@, pool.view());
        lemma_at_end(ea@, OpKind::Keep);
        lemma_at_end(ea@, OpKind::Insert);
        lemma_at_end(ea@, OpKind::Delete);
        lemma_at_end(eb@, OpKind::Keep);
        lemma_at_end(eb@, OpKind::Insert);
        lemma_at_end(eb@, OpKind::Delete);
    }
    let abank = &a.body.char_bank;
    let bbank = &b.body.char_bank;
    let alen = abank.len();
    let blen = bbank.len();
    let mut out: Vec<Op> = Vec::new();
    let mut bank: Vec<u8> = Vec::new();
    let mut ia: usize = 0;
    let mut ua: u32 = 0;
    let mut ib: usize = 0;
    let mut ub: u32 = 0;
    let mut apos: usize = 0;
    let mut bpos: usize = 0;
    assert(runs(out@) =~= Seq::<Run>::empty());
    while ia < ea.len() || ib < eb.len()
        invariant
            pool.wf(),
            ops_wf(ea@, pool.view()),
            ops_wf(eb@, pool.view()),
            ops_wf(out@, pool.view()),
            ia <= ea@.len(),
            ib <= eb@.len(),
            ia < ea@.len() ==> ua <= ea@[ia as int].count,
            ib < eb@.len() ==> ub <= eb@[ib as int].count,
            alen == abank@.len(),
            blen == bbank@.len(),
            sum_by(ea@, OpKind::Insert) == abank@.len(),
            sum_by(eb@, OpKind::Insert) == bbank@.len(),
            sum_by(ea@, OpKind::Keep) + sum_by(ea@, OpKind::Insert) == sum_by(eb@, OpKind::Keep) + sum_by(
                eb@,
                OpKind::Delete,
            ),
            sum_by(ea@, OpKind::Keep) + sum_by(ea@, OpKind::Delete) == a.head.old_length,
            sum_by(eb@, OpKind::Keep) + sum_by(eb@, OpKind::Insert) == new_length(b.head),
            at(ea@, ia as int, ua as int, OpKind::Keep) + at(ea@, ia as int, ua as int, OpKind::Insert) == at(
                eb@,
                ib as int,
                ub as int,
                OpKind::Keep,
            ) + at(eb@, ib as int, ub as int, OpKind::Delete),
            apos == at(ea@, ia as int, ua as int, OpKind::Insert),
            bpos == at(eb@, ib as int, ub as int, OpKind::Insert),
            runs(ea@) == tail_runs(*a),
            runs(eb@) == tail_runs(*b),
            compose_steps(runs(ea@), runs(eb@), abank@, bbank@, pool.view(), ia as int, ua as int, ib as int,
                ub as int, apos as int, bpos as int, runs(out@), bank@) == compose_steps(runs(ea@), runs(eb@),
                abank@, bbank@, pool.view(), 0, 0, 0, 0, 0, 0, Seq::empty(), Seq::empty()),
            bank@.len() == sum_by(out@, OpKind::Insert),
            sum_by(out@, OpKind::Keep) + sum_by(out@, OpKind::Delete) == at(ea@, ia as int, ua as int, OpKind::Keep)
                + at(ea@, ia as int, ua as int, OpKind::Delete),
            sum_by(out@, OpKind::Keep) + sum_by(out@, OpKind::Insert) == at(eb@, ib as int, ub as int, OpKind::Keep)
                + at(eb@, ib as int, ub as int, OpKind::Insert),
        decreases ea@.len() - ia + eb@.len() - ib,
    {
        proof {
            if ia < ea.len() {
                lemma_at_all(ea@, ia as int, ua as int);
            }
            if ib < eb.len() {
                lemma_at_all(eb@, ib as int, ub as int);
            }
        }
        if ia < ea.len() && ua == ea[ia].count {
            ia = ia + 1;
            ua = 0;
            continue;
        }
        if ib < eb.len() && ub == eb[ib].count {
            ib = ib + 1;
            ub = 0;
            continue;
        }
        if ia < ea.len() && ea[ia].kind == OpKind::Delete {
            let n = ea[ia].count - ua;
            emit(&mut out, Op { kind: OpKind::Delete, count: n, attribs: Vec::new() }, Ghost(pool.view()));
            ia = ia + 1;
            ua = 0;
            continue;
        }
        if ib < eb.len() && eb[ib].kind == OpKind::Insert {
            let n = eb[ib].count - ub;
            copy_bytes(&mut bank, bbank, bpos, n as usize);
            bpos = bpos + n as usize;
            proof {
                assert(op_wf(eb@[ib as int], pool.view()));
            }
            emit(&mut out, Op { kind: OpKind::Insert, count: n, attribs: eb[ib].attribs.clone() }, Ghost(pool.view()));
            ib = ib + 1;
            ub = 0;
            continue;
        }
        if ia >= ea.len() || ib >= eb.len() {
            proof {
                lemma_at_end(ea@, OpKind::Keep);
                lemma_at_end(ea@, OpKind::Insert);
                lemma_at_end(ea@, OpKind::Delete);
                lemma_at_end(eb@, OpKind::Keep);
                lemma_at_end(eb@, OpKind::Insert);
                lemma_at_end(eb@, OpKind::Delete);
            }
            return Err(ChangesetError::Domain);
        }
        let ra = ea[ia].count - ua;
        let rb = eb[ib].count - ub;
        let m = if ra < rb { ra } else { rb };
        proof {
            assert(op_wf(ea@[ia as int], pool.view()));
            assert(op_wf(eb@[ib as int], pool.view()));
        }
        if eb[ib].kind == OpKind::Keep {
            let codes = override_codes(pool, &ea[ia].attribs, &eb[ib].attribs);
            if ea[ia].kind == OpKind::Insert {
                copy_bytes(&mut bank, abank, apos, m as usize);
                apos = apos + m as usize;
                emit(&mut out, Op { kind: OpKind::Insert, count: m, attribs: codes }, Ghost(pool.view()));
            } else {
                emit(&mut out, Op { kind: OpKind::Keep, count: m, attribs: codes }, Ghost(pool.view()));
            }
        } else {
            if ea[ia].kind == OpKind::Insert {
                apos = apos + m as usize;
            } else {
                emit(&mut out, Op { kind: OpKind::Delete, count: m, attribs: Vec::new() }, Ghost(pool.view()));
            }
        }
        ua = ua + m;
        ub = ub + m;
        if ua == ea[ia].count {
            proof {
                lemma_at_all(ea@, ia as int, ua as int);
            }
            ia = ia + 1;
            ua = 0;
        }
        if ub == eb[ib].count {
            proof {
                lemma_at_all(eb@, ib as int, ub as int);
            }
            ib = ib + 1;
            ub = 0;
        }
    }
    let c = match finish(pool, a.head.old_length, a.head.line_marker, out, bank) {
        Ok(c) => c,
        Err(e) => return Err(e),
    };
    if c.head.old_length as i64 + c.head.char_delta != b.head.old_length as i64 + b.head.char_delta {
        return Err(ChangesetError::Domain);
    }
    Ok(c)
}

} // verus!
