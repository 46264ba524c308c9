use vstd::prelude::*;

use crate::decimal::{dec, is_digit, lemma_dec_digits, number_at, push_dec, read_number};
use crate::error::ChangesetError;

verus! {

/// The preamble of a changeset: base length, signed length change and the
/// line marker that is carried along.
#[derive(Clone, Copy, Debug, PartialEq, Eq, Structural)]
pub struct Head {
    pub old_length: u32,
    pub char_delta: i64,
    pub line_marker: u32,
}

/// Length of the document after the change.
pub open spec fn new_length(h: Head) -> int {
    h.old_length + h.char_delta
}

/// Canonical text of a header: `Z:<old>` then `>`/`<` and the magnitude,
/// then `|<marker>`.
pub open spec fn head_text(h: Head) -> Seq<u8> {
    seq![90u8, 58u8] + dec(h.old_length as nat) + (if h.char_delta >= 0 {
        seq![62u8] + dec(h.char_delta as nat)
    } else {
        seq![60u8] + dec((-h.char_delta) as nat)
    }) + seq![124u8] + dec(h.line_marker as nat)
}

/// The magnitude of the delta, as written after the sign.
pub open spec fn magnitude(h: Head) -> nat {
    if h.char_delta >= 0 {
        h.char_delta as nat
    } else {
        (-h.char_delta) as nat
    }
}

/// `t` spells the header `h`: as its canonical text, except that a shrink may
/// be marked `<` or `-`, and a zero change any of `>`, `<`, `-`.
pub open spec fn head_spells(t: Seq<u8>, h: Head) -> bool {
    exists|sg: u8|
        {
            &&& (if h.char_delta > 0 {
                sg == 62u8
            } else if h.char_delta < 0 {
                sg == 60u8 || sg == 45u8
            } else {
                sg == 62u8 || sg == 60u8 || sg == 45u8
            })
            &&& t == seq![90u8, 58u8] + dec(h.old_length as nat) + seq![sg] + dec(magnitude(h)) + seq![124u8] + dec(
                h.line_marker as nat,
            )
        }
}

/// A header whose delta a `u32` magnitude can spell.
pub open spec fn head_in_range(h: Head) -> bool {
    -(u32::MAX as int) <= h.char_delta <= u32::MAX
}

/// `s` holds the canonical text of `h` at `pos`, and no digit follows it.
pub open spec fn head_at(s: Seq<u8>, pos: int, h: Head) -> bool {
    &&& 0 <= pos
    &&& pos + head_text(h).len() <= s.len()
    &&& s.subrange(pos, pos + head_text(h).len()) == head_text(h)
    &&& (pos + head_text(h).len() == s.len() || !is_digit(s[pos + head_text(h).len()]))
}

/// Where `t` stands at `pos` in `s`, each part of `t` stands at its offset.
pub proof fn lemma_part(s: Seq<u8>, pos: int, t: Seq<u8>, off: int, len: int)
    requires
        0 <= pos,
        pos + t.len() <= s.len(),
        s.subrange(pos, pos + t.len()) == t,
        0 <= off <= off + len <= t.len(),
    ensures
        s.subrange(pos + off, pos + off + len) == t.subrange(off, off + len),
{
    assert(s.subrange(pos + off, pos + off + len) =~= t.subrange(off, off + len)) by {
        assert forall|i: int| 0 <= i < len implies #[trigger] s.subrange(pos + off, pos + off + len)[i] == t.subrange(off, off + len)[i] by {
            assert(s.subrange(pos, pos + t.len())[off + i] == t[off + i]);
        }
    }
}

/// The pieces of a header's text, each at its place.
proof fn lemma_head_parts(s: Seq<u8>, pos: int, h: Head)
    requires
        head_at(s, pos, h),
    ensures
        ({
            let sign_at = pos + 2 + dec(h.old_length as nat).len();
            let bar_at = sign_at + 1 + dec(magnitude(h)).len();
            &&& s[pos] == 90u8
            &&& s[pos + 1] == 58u8
            &&& number_at(s, pos + 2, h.old_length as nat)
            &&& s[sign_at] == if h.char_delta >= 0 { 62u8 } else { 60u8 }
            &&& number_at(s, sign_at + 1, magnitude(h))
            &&& s[bar_at] == 124u8
            &&& number_at(s, bar_at + 1, h.line_marker as nat)
            &&& bar_at + 1 + dec(h.line_marker as nat).len() == pos + head_text(h).len()
        }),
{
    let t = head_text(h);
    let d1 = dec(h.old_length as nat);
    let d2 = dec(magnitude(h));
    let d3 = dec(h.line_marker as nat);
    let sg: u8 = if h.char_delta >= 0 { 62u8 } else { 60u8 };
    assert(t =~= seq![90u8, 58u8] + d1 + seq![sg] + d2 + seq![124u8] + d3);
    lemma_dec_digits(h.old_length as nat);
    lemma_dec_digits(magnitude(h));
    lemma_dec_digits(h.line_marker as nat);
    let sign_at = pos + 2 + d1.len();
    let bar_at = sign_at + 1 + d2.len();
    assert(s.subrange(pos, pos + t.len())[0] == t[0]);
    assert(s.subrange(pos, pos + t.len())[1] == t[1]);
    assert(s.subrange(pos, pos + t.len())[sign_at - pos] == t[sign_at - pos]);
    assert(s.subrange(pos, pos + t.len())[bar_at - pos] == t[bar_at - pos]);
    lemma_part(s, pos, t, 2, d1.len() as int);
    assert(t.subrange(2, 2 + d1.len() as int) =~= d1);
    lemma_part(s, pos, t, sign_at + 1 - pos, d2.len() as int);
    assert(t.subrange(sign_at + 1 - pos, sign_at + 1 - pos + d2.len()) =~= d2);
    lemma_part(s, pos, t, bar_at + 1 - pos, d3.len() as int);
    assert(t.subrange(bar_at + 1 - pos, bar_at + 1 - pos + d3.len()) =~= d3);
}

impl Head {
    /// The signed change of length that the header declares.
    pub fn char_delta(&self) -> (r: i64)
        ensures
            r == self.char_delta,
    {
        self.char_delta
    }

    /// Appends the canonical text of the header to `out`.
    pub fn write_to(&self, out: &mut Vec<u8>)
        ensures
            final(out)@ == old(out)@ + head_text(*self),
    {
        out.push(90u8);
        out.push(58u8);
        push_dec(out, self.old_length as u64);
        if self.char_delta >= 0 {
            out.push(62u8);
            push_dec(out, self.char_delta as u64);
        } else {
            out.push(60u8);
            let mag: u64 = ((-(self.char_delta + 1)) as u64) + 1;
            push_dec(out, mag);
        }
        out.push(124u8);
        push_dec(out, self.line_marker as u64);
        proof {
            assert(final(out)@ =~= old(out)@ + head_text(*self));
        }
    }

    /// Reads a header that starts at `pos`; gives it with the position after it.
    /// A shrink may be written with `<` or `-`.
    pub fn from_iter(input: &[u8], pos: usize) -> (r: Result<(Head, usize), ChangesetError>)
        requires
            pos <= input@.len(),
        ensures
            match r {
                Ok((h, end)) => pos < end <= input@.len() && -(u32::MAX as int) <= h.char_delta
                    <= u32::MAX && head_spells(input@.subrange(pos as int, end as int), h),
                Err(e) => e == ChangesetError::Format,
            },
            forall|h: Head|
                head_in_range(h) && #[trigger] head_at(input@, pos as int, h) ==> (r matches Ok((g, e))
                    && g == h && e == pos + head_text(h).len()),
    {
        if input.len() - pos < 2 || input[pos] != 90u8 || input[pos + 1] != 58u8 {
            proof {
                assert forall|h: Head| head_in_range(h) && #[trigger] head_at(input@, pos as int, h) implies false by {
                    lemma_head_parts(input@, pos as int, h);
                }
            }
            return Err(ChangesetError::Format);
        }
        let r1 = read_number(input, pos + 2);
        if r1.is_none() {
            proof {
                assert forall|h: Head| head_in_range(h) && #[trigger] head_at(input@, pos as int, h) implies false by {
                    lemma_head_parts(input@, pos as int, h);
                }
            }
            return Err(ChangesetError::Format);
        }
        let (old_length, p) = r1.unwrap();
        if p >= input.len() || (input[p] != 62u8 && input[p] != 60u8 && input[p] != 45u8) {
            proof {
                assert forall|h: Head| head_in_range(h) && #[trigger] head_at(input@, pos as int, h) implies false by {
                    lemma_head_parts(input@, pos as int, h);
                }
            }
            return Err(ChangesetError::Format);
        }
        let sign = input[p];
        let r2 = read_number(input, p + 1);
        if r2.is_none() {
            proof {
                assert forall|h: Head| head_in_range(h) && #[trigger] head_at(input@, pos as int, h) implies false by {
                    lemma_head_parts(input@, pos as int, h);
                }
            }
            return Err(ChangesetError::Format);
        }
        let (mag, p) = r2.unwrap();
        if p >= input.len() || input[p] != 124u8 {
            proof {
                assert forall|h: Head| head_in_range(h) && #[trigger] head_at(input@, pos as int, h) implies false by {
                    lemma_head_parts(input@, pos as int, h);
                }
            }
            return Err(ChangesetError::Format);
        }
        let r3 = read_number(input, p + 1);
        if r3.is_none() {
            proof {
                assert forall|h: Head| head_in_range(h) && #[trigger] head_at(input@, pos as int, h) implies false by {
                    lemma_head_parts(input@, pos as int, h);
                }
            }
            return Err(ChangesetError::Format);
        }
        let (line_marker, p) = r3.unwrap();
        let char_delta: i64 = if sign == 62u8 {
            mag as i64
        } else {
            -(mag as i64)
        };
        let h = Head { old_length, char_delta, line_marker };
        proof {
            assert(magnitude(h) == mag);
            assert(input@.subrange(pos as int, p as int) =~= seq![90u8, 58u8] + dec(h.old_length as nat) + seq![sign]
                + dec(magnitude(h)) + seq![124u8] + dec(h.line_marker as nat));
            assert(head_spells(input@.subrange(pos as int, p as int), h));
            assert forall|g: Head| head_in_range(g) && #[trigger] head_at(input@, pos as int, g) implies g == h && p == pos + head_text(g).len() by {
                lemma_head_parts(input@, pos as int, g);
            }
        }
        Ok((h, p))
    }
}

} // verus!
