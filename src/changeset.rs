use vstd::prelude::*;
use vstd::utf8::{decode_utf8, valid_utf8};

use crate::apool::Mem;
use crate::compose::{compose, compose_result};
use crate::follow::{follow, follow_runs};
use crate::merge::runs;
use crate::body::{body_at, body_canon, body_spells, body_text, lemma_same_ops, lemma_tail_first, same_ops, Body};
use crate::error::ChangesetError;
use crate::head::{head_at, head_spells, head_in_range, head_text, new_length, Head};
use crate::ops::{consumed, op_delta, ops_wf, produced, sum_by, Op, OpKind};

verus! {

/// A changeset: a header and the body that it describes.
#[derive(Debug)]
pub struct Changeset {
    pub head: Head,
    pub body: Body,
}

impl Clone for Changeset {
    fn clone(&self) -> (r: Changeset)
        ensures
            r.head == self.head,
            same_ops(r.body.ops@, self.body.ops@),
            r.body.char_bank@ == self.body.char_bank@,
    {
        Changeset { head: self.head, body: self.body.clone() }
    }
}

/// A changeset is valid against a pool: its operations are well formed, read
/// no more than the base document, its char bank holds exactly the inserted
/// text, the header's delta is the body's, and the new length fits a `u32`.
pub open spec fn cs_wf(cs: Changeset, pool: Map<u32, Seq<char>>) -> bool {
    &&& ops_wf(cs.body.ops@, pool)
    &&& consumed(cs.body.ops@) <= cs.head.old_length
    &&& sum_by(cs.body.ops@, OpKind::Insert) == cs.body.char_bank@.len()
    &&& cs.head.char_delta == op_delta(cs.body.ops@)
    &&& new_length(cs.head) <= u32::MAX
}

/// Canonical text of a changeset: its header followed by its body.
pub open spec fn cs_text(cs: Changeset) -> Seq<u8> {
    head_text(cs.head) + body_text(cs.body)
}

/// `t` spells the changeset `c`: a spelling of its header followed by one of
/// its body (shrink marked `<` or `-`, selectors in any order).
pub open spec fn cs_spells(t: Seq<u8>, c: Changeset) -> bool {
    exists|k: int| 0 <= k <= t.len() && head_spells(t.subrange(0, k), c.head) && body_spells(t.subrange(k, t.len() as int), c.body)
}

/// Length of the result of a changeset: what its operations write, plus the
/// untouched tail of the base document.
pub open spec fn output_length(cs: Changeset) -> int {
    produced(cs.body.ops@) + (cs.head.old_length - consumed(cs.body.ops@))
}

/// A valid changeset never asks for a negative length, and the length that its
/// header declares is what its kept and inserted runs, with the untouched tail,
/// write.
pub proof fn lemma_length_conservation(cs: Changeset, pool: Map<u32, Seq<char>>)
    requires
        cs_wf(cs, pool),
    ensures
        new_length(cs.head) >= 0,
        new_length(cs.head) == output_length(cs),
{
}

/// The text of a valid changeset splits into a header and a body that each
/// read back on their own.
proof fn lemma_text_parts(s: Seq<u8>, c: Changeset, pool: Map<u32, Seq<char>>)
    requires
        cs_wf(c, pool),
        cs_text(c) == s,
    ensures
        head_in_range(c.head),
        head_at(s, 0, c.head),
        body_at(s, head_text(c.head).len() as int, c.body),
        body_canon(c.body, pool, c.head.old_length),
{
    let h = head_text(c.head);
    lemma_tail_first(c.body.ops@, c.body.char_bank@);
    assert(s.subrange(0, h.len() as int) =~= h);
    assert(s.subrange(h.len() as int, s.len() as int) =~= body_text(c.body));
    assert(s[h.len() as int] == body_text(c.body)[0]);
}

/// The header of a valid changeset declares the change of length that its
/// body makes.
pub proof fn lemma_delta_consistency(cs: Changeset, pool: Map<u32, Seq<char>>)
    requires
        cs_wf(cs, pool),
    ensures
        cs.head.char_delta == sum_by(cs.body.ops@, OpKind::Insert) - sum_by(cs.body.ops@, OpKind::Delete),
{
}

/// Relies on `String::from_utf8_lossy`: valid UTF-8 comes back unchanged.
#[verifier::external_body]
fn utf8_to_string(bytes: &[u8]) -> (r: String)
    ensures
        valid_utf8(bytes@) ==> r@ == decode_utf8(bytes@),
{
    String::from_utf8_lossy(bytes).into_owned()
}

impl Changeset {
    /// Reads a changeset from its text: the header, then the body. Fails with
    /// `Validation` when the header's delta is not the body's, or when the
    /// new length would not fit a `u32`.
    ///
    /// The canonical text of every valid changeset reads back to a changeset
    /// with that same text.
    pub fn from_iter(pool: &Mem, input: &[u8]) -> (r: Result<Changeset, ChangesetError>)
        requires
            pool.wf(),
        ensures
            r is Ok ==> cs_wf(r->Ok_0, pool.view()),
            r matches Ok(d) ==> cs_spells(input@, d),
            r matches Ok(d) ==> exists|k: int|
                0 <= k < input@.len() && input@[k] == 36u8 && d.body.char_bank@ == input@.subrange(
                    k + 1,
                    input@.len() as int,
                ),
            forall|c: Changeset|
                cs_wf(c, pool.view()) && #[trigger] cs_text(c) == input@ ==> (r matches Ok(d) && cs_text(d)
                    == input@),
            forall|h: Head, b: Body|
                head_in_range(h) && #[trigger] head_at(input@, 0, h) && #[trigger] body_at(
                    input@,
                    head_text(h).len() as int,
                    b,
                ) && body_canon(b, pool.view(), h.old_length) && h.char_delta != op_delta(b.ops@) ==> r
                    == Err::<Changeset, ChangesetError>(ChangesetError::Validation),
    {
        proof {
            assert forall|c: Changeset| cs_wf(c, pool.view()) && #[trigger] cs_text(c) == input@ implies
                head_in_range(c.head) && head_at(input@, 0, c.head) && body_at(input@, head_text(c.head).len() as int, c.body)
                && body_canon(c.body, pool.view(), c.head.old_length) by {
                lemma_text_parts(input@, c, pool.view());
            }
        }
        let (head, p) = match Head::from_iter(input, 0) {
            Ok(x) => x,
            Err(e) => return Err(e),
        };
        let body = match Body::from_iter(pool, input, p, head.old_length) {
            Ok(b) => b,
            Err(e) => {
                proof {
                    assert forall|h: Head, b: Body|
                        head_in_range(h) && #[trigger] head_at(input@, 0, h) && #[trigger] body_at(input@, head_text(h).len() as int, b)
                            && body_canon(b, pool.view(), h.old_length) implies false by {
                        assert(head == h);
                        assert(body_at(input@, p as int, b));
                    }
                    assert forall|c: Changeset| cs_wf(c, pool.view()) && #[trigger] cs_text(c) == input@ implies false by {
                        assert(head == c.head);
                        assert(body_at(input@, p as int, c.body));
                    }
                }
                return Err(e);
            },
        };
        proof {
            assert forall|c: Changeset| cs_wf(c, pool.view()) && #[trigger] cs_text(c) == input@ implies
                head == c.head && body_text(body) == body_text(c.body) && op_delta(body.ops@) == op_delta(c.body.ops@) by {
                assert(head == c.head);
                assert(body_at(input@, p as int, c.body));
                lemma_same_ops(body.ops@, c.body.ops@);
                assert(sum_by(body.ops@, OpKind::Insert) == sum_by(c.body.ops@, OpKind::Insert));
                assert(sum_by(body.ops@, OpKind::Delete) == sum_by(c.body.ops@, OpKind::Delete));
            }
        }
        proof {
            assert forall|h: Head, b: Body|
                head_in_range(h) && #[trigger] head_at(input@, 0, h) && #[trigger] body_at(input@, head_text(h).len() as int, b)
                    && body_canon(b, pool.view(), h.old_length) implies head == h && op_delta(body.ops@) == op_delta(b.ops@) by {
                assert(head == h);
                assert(body_at(input@, p as int, b));
                lemma_same_ops(body.ops@, b.ops@);
                assert(sum_by(body.ops@, OpKind::Insert) == sum_by(b.ops@, OpKind::Insert));
                assert(sum_by(body.ops@, OpKind::Delete) == sum_by(b.ops@, OpKind::Delete));
            }
        }
        if head.char_delta() as i128 != body.char_delta() {
            return Err(ChangesetError::Validation);
        }
        if head.old_length as i64 + head.char_delta > u32::MAX as i64 {
            return Err(ChangesetError::Validation);
        }
        let d = Changeset { head, body };
        assert(cs_spells(input@, d)) by {
            assert(head_spells(input@.subrange(0, p as int), d.head));
            assert(body_spells(input@.subrange(p as int, input@.len() as int), d.body));
        }
        Ok(d)
    }

    /// Appends the canonical text of the changeset to `out`.
    pub fn write_to(&self, out: &mut Vec<u8>)
        ensures
            final(out)@ == old(out)@ + cs_text(*self),
    {
        self.head.write_to(out);
        self.body.write_to(out);
        proof {
            assert(final(out)@ =~= old(out)@ + cs_text(*self));
        }
    }

    /// The canonical text of the changeset, as bytes.
    pub fn to_bytes(&self) -> (r: Vec<u8>)
        ensures
            r@ == cs_text(*self),
    {
        let mut out: Vec<u8> = Vec::new();
        self.write_to(&mut out);
        assert(out@ =~= cs_text(*self));
        out
    }

    /// The canonical text of the changeset, as a string.
    pub fn to_string(&self) -> (r: String)
        ensures
            valid_utf8(cs_text(*self)) ==> r@ == decode_utf8(cs_text(*self)),
    {
        let bytes = self.to_bytes();
        utf8_to_string(bytes.as_slice())
    }

    /// The changeset that leaves a document of `length` characters as it is:
    /// one keep of the whole length.
    pub fn identity(length: u32) -> (r: Changeset)
        ensures
            r.head.old_length == length,
            r.head.char_delta == 0,
            r.head.line_marker == 0,
            length > 0 ==> r.body.ops@.len() == 1 && r.body.ops@[0].kind == OpKind::Keep
                && r.body.ops@[0].count == length && r.body.ops@[0].attribs@.len() == 0,
            length == 0 ==> r.body.ops@.len() == 0,
            r.body.char_bank@.len() == 0,
            forall|pool: Map<u32, Seq<char>>| cs_wf(r, pool),
    {
        let mut ops: Vec<Op> = Vec::new();
        if length > 0 {
            ops.push(Op { kind: OpKind::Keep, count: length, attribs: Vec::new() });
        }
        let r = Changeset {
            head: Head { old_length: length, char_delta: 0, line_marker: 0 },
            body: Body { ops, char_bank: Vec::new() },
        };
        proof {
            if length > 0 {
                assert(r.body.ops@.drop_last() =~= Seq::<Op>::empty());
                assert(r.body.ops@.last().kind == OpKind::Keep);
                assert(sum_by(Seq::<Op>::empty(), OpKind::Insert) == 0);
                assert(sum_by(Seq::<Op>::empty(), OpKind::Delete) == 0);
                assert(sum_by(Seq::<Op>::empty(), OpKind::Keep) == 0);
            }
            assert(sum_by(r.body.ops@, OpKind::Insert) == 0);
            assert(sum_by(r.body.ops@, OpKind::Delete) == 0);
            assert(sum_by(r.body.ops@, OpKind::Keep) == length);
            assert(r.body.char_bank@.len() == 0);
            assert forall|pool: Map<u32, Seq<char>>| cs_wf(r, pool) by {
                assert forall|i: int| 0 <= i < r.body.ops@.len() implies crate::ops::op_wf(#[trigger] r.body.ops@[i], pool) by {}
            }
        }
        r
    }

    /// Replaces this changeset by its composition with `next`, which applies to
    /// the document that this one produces. On failure it stays as it was.
    pub fn compose(&mut self, pool: &Mem, next: &Changeset) -> (r: Result<(), ChangesetError>)
        requires
            pool.wf(),
            cs_wf(*old(self), pool.view()),
            cs_wf(*next, pool.view()),
        ensures
            r is Ok <==> new_length(old(self).head) == next.head.old_length,
            r is Ok ==> {
                &&& cs_wf(*final(self), pool.view())
                &&& final(self).head.old_length == old(self).head.old_length
                &&& new_length(final(self).head) == new_length(next.head)
                &&& final(self).head.line_marker == old(self).head.line_marker
                &&& runs(final(self).body.ops@) == compose_result(pool.view(), *old(self), *next).0
                &&& final(self).body.char_bank@ == compose_result(pool.view(), *old(self), *next).1
            },
            r is Err ==> r->Err_0 == ChangesetError::Domain && *final(self) == *old(self),
    {
        match compose(pool, self, next) {
            Ok(c) => {
                *self = c;
                Ok(())
            },
            Err(e) => Err(e),
        }
    }

    /// Rebases `next`, made concurrently with this changeset on the same base,
    /// so that it applies after this one.
    pub fn follow(&self, pool: &Mem, next: &Changeset) -> (r: Result<Changeset, ChangesetError>)
        requires
            pool.wf(),
            cs_wf(*self, pool.view()),
            cs_wf(*next, pool.view()),
        ensures
            self.head.old_length != next.head.old_length ==> r is Err,
            self.head.old_length == next.head.old_length && new_length(self.head) + sum_by(
                next.body.ops@,
                OpKind::Insert,
            ) <= u32::MAX ==> r is Ok,
            match r {
                Ok(c) => {
                    &&& cs_wf(c, pool.view())
                    &&& c.head.old_length == new_length(self.head)
                    &&& c.head.line_marker == next.head.line_marker
                    &&& runs(c.body.ops@) == follow_runs(*self, *next)
                    &&& c.body.char_bank@ == next.body.char_bank@
                },
                Err(e) => e == ChangesetError::Domain,
            },
    {
        follow(pool, self, next)
    }
}

} // verus!
