use vstd::prelude::*;

use crate::apool::Mem;
use crate::changeset::{cs_wf, Changeset};
use crate::compose::lemma_tail_wf;
use crate::error::ChangesetError;
use crate::head::new_length;
use crate::merge::{
    at, copy_bytes, emit, emit_spec, finish, lemma_at_all, lemma_at_end, runs, tail_runs, trim, with_tail, Run,
};
use crate::ops::{op_wf, ops_wf, sum_by, Op, OpKind};

verus! {

/// The rebasing walk, from operation `ia` of `a` (of which `ua` counts are
/// done) and operation `ib` of `b` (`ub` done), having written `out`. Both run
/// over the shared base. An insertion of `a` becomes a keep, and comes before
/// an insertion of `b` at the same place; an insertion of `b` is taken with its
/// codes; over a run that both read, `a`'s keep takes `b`'s keep (with `b`'s
/// codes) or `b`'s deletion, and `a`'s deletion drops whatever `b` does there.
pub open spec fn follow_steps(a: Seq<Run>, b: Seq<Run>, ia: int, ua: int, ib: int, ub: int, out: Seq<Run>) -> Seq<Run>
    decreases a.len() - ia + b.len() - ib,
{
    if ia < 0 || ib < 0 || ia > a.len() || ib > b.len() || !(ia < a.len() || ib < b.len()) {
        out
    } else if ia < a.len() && (ua < 0 || ua > a[ia].1) || ib < b.len() && (ub < 0 || ub > b[ib].1) {
        out
    } else if ia < a.len() && ua == a[ia].1 {
        follow_steps(a, b, ia + 1, 0, ib, ub, out)
    } else if ib < b.len() && ub == b[ib].1 {
        follow_steps(a, b, ia, ua, ib + 1, 0, out)
    } else if ia < a.len() && a[ia].0 == OpKind::Insert {
        follow_steps(a, b, ia + 1, 0, ib, ub, emit_spec(out, (OpKind::Keep, (a[ia].1 - ua) as u32, Seq::empty())))
    } else if ib < b.len() && b[ib].0 == OpKind::Insert {
        follow_steps(a, b, ia, ua, ib + 1, 0, emit_spec(out, (OpKind::Insert, (b[ib].1 - ub) as u32, b[ib].2)))
    } else if ia >= a.len() || ib >= b.len() {
        out
    } else {
        let m = if a[ia].1 - ua < b[ib].1 - ub { a[ia].1 - ua } else { b[ib].1 - ub };
        let out2 = if a[ia].0 == OpKind::Keep {
            if b[ib].0 == OpKind::Keep {
                emit_spec(out, (OpKind::Keep, m as u32, b[ib].2))
            } else {
                emit_spec(out, (OpKind::Delete, m as u32, Seq::empty()))
            }
        } else {
            out
        };
        let (ia2, ua2) = if ua + m == a[ia].1 { (ia + 1, 0) } else { (ia, ua + m) };
        let (ib2, ub2) = if ub + m == b[ib].1 { (ib + 1, 0) } else { (ib, ub + m) };
        follow_steps(a, b, ia2, ua2, ib2, ub2, out2)
    }
}

/// The operations of `b` rebased over `a`.
pub open spec fn follow_runs(a: Changeset, b: Changeset) -> Seq<Run> {
    trim(follow_steps(tail_runs(a), tail_runs(b), 0, 0, 0, 0, Seq::empty()))
}

/// Rebases `b` over `a`, where both apply to the same base: the result applies
/// to the document that `a` produces and carries `b`'s intent.
///
/// Both streams are walked together over the shared base. Text that `a`
/// inserts is kept; where both insert at one place, `a`'s text comes first. A
/// run that `a` keeps takes `b`'s keep (with its codes) or deletion; a run that
/// `a` deleted is gone, so whatever `b` does to it is dropped.
///
/// Fails with `Domain` when the two do not share their base length, or when
/// the rebased change would make a document longer than `u32::MAX`. The
/// result carries `b`'s line marker.
#[verifier::rlimit(100)]
pub fn follow(pool: &Mem, a: &Changeset, b: &Changeset) -> (r: Result<Changeset, ChangesetError>)
    requires
        pool.wf(),
        cs_wf(*a, pool.view()),
        cs_wf(*b, pool.view()),
    ensures
        a.head.old_length != b.head.old_length ==> r is Err,
        a.head.old_length == b.head.old_length && new_length(a.head) + sum_by(b.body.ops@, OpKind::Insert)
            <= u32::MAX ==> r is Ok,
        match r {
            Ok(c) => {
                &&& cs_wf(c, pool.view())
                &&& c.head.old_length == new_length(a.head)
                &&& c.head.line_marker == b.head.line_marker
                &&& runs(c.body.ops@) == follow_runs(*a, *b)
                &&& c.body.char_bank@ == b.body.char_bank@
            },
            Err(e) => e == ChangesetError::Domain,
        },
{
    if a.head.old_length != b.head.old_length {
        return Err(ChangesetError::Domain);
    }
    let ea = with_tail(a);
    let eb = with_tail(b);
    proof {
        lemma_tail_wf(*a, ea@, pool.view());
        lemma_tail_wf(*b, eb@, pool.view());
        lemma_at_end(ea@, OpKind::Keep);
        lemma_at_end(ea@, OpKind::Insert);
        lemma_at_end(ea@, OpKind::Delete);
        lemma_at_end(eb@, OpKind::Keep);
        lemma_at_end(eb@, OpKind::Insert);
        lemma_at_end(eb@, OpKind::Delete);
    }
    let bbank = &b.body.char_bank;
    let blen = bbank.len();
    let mut out: Vec<Op> = Vec::new();
    let mut bank: Vec<u8> = Vec::new();
    let mut ia: usize = 0;
    let mut ua: u32 = 0;
    let mut ib: usize = 0;
    let mut ub: u32 = 0;
    let mut bpos: usize = 0;
    assert(runs(out@) =~= Seq::<Run>::empty());
    assert(bank@ =~= bbank@.take(0));
    while ia < ea.len() || ib < eb.len()
        invariant
            pool.wf(),
            ops_wf(ea@, pool.view()),
            ops_wf(eb@, pool.view()),
            ops_wf(out@, pool.view()),
            ia <= ea@.len(),
            ib <= eb@.len(),
            ia < ea@.len() ==> ua <= ea@[ia as int].count,
            ib < eb@.len() ==> ub <= eb@[ib as int].count,
            blen == bbank@.len(),
            sum_by(eb@, OpKind::Insert) == bbank@.len(),
            sum_by(eb@, OpKind::Insert) == sum_by(b.body.ops@, OpKind::Insert),
            sum_by(ea@, OpKind::Keep) + sum_by(ea@, OpKind::Delete) == a.head.old_length,
            sum_by(eb@, OpKind::Keep) + sum_by(eb@, OpKind::Delete) == a.head.old_length,
            sum_by(ea@, OpKind::Keep) + sum_by(ea@, OpKind::Insert) == new_length(a.head),
            at(ea@, ia as int, ua as int, OpKind::Keep) + at(ea@, ia as int, ua as int, OpKind::Delete) == at(
                eb@,
                ib as int,
                ub as int,
                OpKind::Keep,
            ) + at(eb@, ib as int, ub as int, OpKind::Delete),
            bpos == at(eb@, ib as int, ub as int, OpKind::Insert),
            bank@ == bbank@.take(bpos as int),
            runs(ea@) == tail_runs(*a),
            runs(eb@) == tail_runs(*b),
            follow_steps(runs(ea@), runs(eb@), ia as int, ua as int, ib as int, ub as int, runs(out@))
                == follow_steps(runs(ea@), runs(eb@), 0, 0, 0, 0, Seq::empty()),
            bank@.len() == sum_by(out@, OpKind::Insert),
            sum_by(out@, OpKind::Keep) + sum_by(out@, OpKind::Delete) == at(ea@, ia as int, ua as int, OpKind::Keep)
                + at(ea@, ia as int, ua as int, OpKind::Insert),
            sum_by(out@, OpKind::Keep) + sum_by(out@, OpKind::Insert) <= at(ea@, ia as int, ua as int, OpKind::Keep)
                + at(ea@, ia as int, ua as int, OpKind::Insert) + at(eb@, ib as int, ub as int, OpKind::Insert),
        decreases ea@.len() - ia + eb@.len() - ib,
    {
        proof {
            if ia < ea.len() {
                lemma_at_all(ea@, ia as int, ua as int);
            }
            if ib < eb.len() {
                lemma_at_all(eb@, ib as int, ub as int);
            }
        }
        if ia < ea.len() && ua == ea[ia].count {
            ia = ia + 1;
            ua = 0;
            continue;
        }
        if ib < eb.len() && ub == eb[ib].count {
            ib = ib + 1;
            ub = 0;
            continue;
        }
        if ia < ea.len() && ea[ia].kind == OpKind::Insert {
            let n = ea[ia].count - ua;
            emit(&mut out, Op { kind: OpKind::Keep, count: n, attribs: Vec::new() }, Ghost(pool.view()));
            ia = ia + 1;
            ua = 0;
            continue;
        }
        if ib < eb.len() && eb[ib].kind == OpKind::Insert {
            let n = eb[ib].count - ub;
            copy_bytes(&mut bank, bbank, bpos, n as usize);
            assert(bank@ =~= bbank@.take(bpos + n));
            bpos = bpos + n as usize;
            proof {
                assert(op_wf(eb@[ib as int], pool.view()));
            }
            emit(&mut out, Op { kind: OpKind::Insert, count: n, attribs: eb[ib].attribs.clone() }, Ghost(pool.view()));
            ib = ib + 1;
            ub = 0;
            continue;
        }
        if ia >= ea.len() || ib >= eb.len() {
            proof {
                lemma_at_end(ea@, OpKind::Keep);
                lemma_at_end(ea@, OpKind::Insert);
                lemma_at_end(ea@, OpKind::Delete);
                lemma_at_end(eb@, OpKind::Keep);
                lemma_at_end(eb@, OpKind::Insert);
                lemma_at_end(eb@, OpKind::Delete);
            }
            return Err(ChangesetError::Domain);
        }
        let ra = ea[ia].count - ua;
        let rb = eb[ib].count - ub;
        let m = if ra < rb { ra } else { rb };
        proof {
            assert(op_wf(eb@[ib as int], pool.view()));
        }
        if ea[ia].kind == OpKind::Keep {
            if eb[ib].kind == OpKind::Keep {
                emit(&mut out, Op { kind: OpKind::Keep, count: m, attribs: eb[ib].attribs.clone() }, Ghost(pool.view()));
            } else {
                emit(&mut out, Op { kind: OpKind::Delete, count: m, attribs: Vec::new() }, Ghost(pool.view()));
            }
        }
        ua = ua + m;
        ub = ub + m;
        if ua == ea[ia].count {
            proof {
                lemma_at_all(ea@, ia as int, ua as int);
            }
            ia = ia + 1;
            ua = 0;
        }
        if ub == eb[ib].count {
            proof {
                lemma_at_all(eb@, ib as int, ub as int);
            }
            ib = ib + 1;
            ub = 0;
        }
    }
    proof {
        lemma_at_end(ea@, OpKind::Keep);
        lemma_at_end(ea@, OpKind::Insert);
        lemma_at_end(eb@, OpKind::Insert);
    }
    assert(bbank@.take(bpos as int) =~= bbank@);
    let base = (a.head.old_length as i64 + a.head.char_delta) as u32;
    finish(pool, base, b.head.line_marker, out, bank)
}

} // verus!
