use vstd::prelude::*;

verus! {

/// Whether `b` is an ASCII decimal digit.
pub open spec fn is_digit(b: u8) -> bool {
    48 <= b <= 57
}

/// The shortest decimal spelling of `n`, in ASCII.
pub open spec fn dec(n: nat) -> Seq<u8>
    decreases n,
{
    if n < 10 {
        seq![(48 + n) as u8]
    } else {
        dec(n / 10).push((48 + n % 10) as u8)
    }
}

/// The number that a run of ASCII digits spells.
pub open spec fn digits_value(s: Seq<u8>) -> nat
    decreases s.len(),
{
    if s.len() == 0 {
        0
    } else {
        digits_value(s.drop_last()) * 10 + (s.last() - 48) as nat
    }
}

pub proof fn lemma_dec_digits(n: nat)
    ensures
        dec(n).len() >= 1,
        forall|i: int| 0 <= i < dec(n).len() ==> is_digit(#[trigger] dec(n)[i]),
        digits_value(dec(n)) == n,
    decreases n,
{
    if n < 10 {
        assert(dec(n).drop_last() =~= Seq::<u8>::empty());
        assert(digits_value(dec(n)) == digits_value(Seq::<u8>::empty()) * 10 + (dec(n).last() - 48) as nat);
    } else {
        lemma_dec_digits(n / 10);
        assert(dec(n).drop_last() =~= dec(n / 10));
        assert(dec(n).last() == (48 + n % 10) as u8);
        assert(n == (n / 10) * 10 + n % 10);
    }
}

/// `s` holds the decimal spelling of `n` at `pos`, and no digit follows it.
pub open spec fn number_at(s: Seq<u8>, pos: int, n: nat) -> bool {
    &&& 0 <= pos
    &&& pos + dec(n).len() <= s.len()
    &&& s.subrange(pos, pos + dec(n).len()) == dec(n)
    &&& (pos + dec(n).len() == s.len() || !is_digit(s[pos + dec(n).len()]))
}

/// A prefix of a run of digits spells no more than the whole run.
pub proof fn lemma_digits_prefix(d: Seq<u8>, k: int)
    requires
        0 <= k <= d.len(),
        forall|i: int| 0 <= i < d.len() ==> is_digit(#[trigger] d[i]),
    ensures
        digits_value(d.take(k)) <= digits_value(d),
    decreases d.len(),
{
    if k < d.len() {
        lemma_digits_prefix(d.drop_last(), k);
        assert(d.drop_last().take(k) =~= d.take(k));
    } else {
        assert(d.take(k) =~= d);
    }
}

/// The spelling of a number of two digits or more does not start with `0`;
/// the spelling of a number below ten is one digit.
pub proof fn lemma_dec_first(n: nat)
    ensures
        n >= 10 ==> dec(n).len() >= 2 && dec(n)[0] != 48u8,
        n < 10 ==> dec(n).len() == 1,
    decreases n,
{
    if n >= 10 {
        lemma_dec_first(n / 10);
        lemma_dec_digits(n / 10);
        if n / 10 < 10 {
            assert(dec(n / 10)[0] == (48 + n / 10) as u8);
        }
        assert(dec(n)[0] == dec(n / 10)[0]);
    }
}

/// A run of digits that starts with a nonzero digit spells at least one.
proof fn lemma_digits_positive(d: Seq<u8>)
    requires
        d.len() >= 1,
        d[0] != 48u8,
        forall|i: int| 0 <= i < d.len() ==> is_digit(#[trigger] d[i]),
    ensures
        digits_value(d) >= 1,
    decreases d.len(),
{
    if d.len() > 1 {
        lemma_digits_positive(d.drop_last());
    } else {
        assert(d.drop_last() =~= Seq::<u8>::empty());
    }
}

/// A run of digits without a leading zero is the spelling of its value.
pub proof fn lemma_canonical_digits(d: Seq<u8>)
    requires
        d.len() >= 1,
        d.len() >= 2 ==> d[0] != 48u8,
        forall|i: int| 0 <= i < d.len() ==> is_digit(#[trigger] d[i]),
    ensures
        dec(digits_value(d)) == d,
    decreases d.len(),
{
    let v = digits_value(d);
    if d.len() == 1 {
        assert(d.drop_last() =~= Seq::<u8>::empty());
        assert(is_digit(d[0]));
        assert(d.last() == d[0]);
        assert(digits_value(Seq::<u8>::empty()) == 0);
        assert(digits_value(d) == digits_value(d.drop_last()) * 10 + (d.last() - 48) as nat);
        assert(v == (d[0] - 48) as nat);
        assert(v < 10);
        assert(dec(v) =~= d);
    } else {
        let e = d.drop_last();
        lemma_canonical_digits(e);
        lemma_digits_positive(e);
        let w = digits_value(e);
        assert(v == w * 10 + (d.last() - 48));
        assert(v >= 10);
        assert(v / 10 == w);
        assert(v % 10 == d.last() - 48);
        assert(dec(v) =~= d);
    }
}

/// Appends the decimal spelling of `n` to `out`.
pub fn push_dec(out: &mut Vec<u8>, n: u64)
    ensures
        final(out)@ == old(out)@ + dec(n as nat),
    decreases n,
{
    if n >= 10 {
        push_dec(out, n / 10);
    }
    out.push(48u8 + (n % 10) as u8);
    proof {
        assert(final(out)@ =~= old(out)@ + dec(n as nat));
    }
}

/// Reads the run of digits that starts at `pos`. Gives its value and the
/// position after it, or `None` when there is no digit at `pos` or the value
/// exceeds `u32::MAX`.
pub fn read_number(input: &[u8], pos: usize) -> (r: Option<(u32, usize)>)
    requires
        pos <= input@.len(),
    ensures
        match r {
            Some((n, end)) => {
                &&& pos < end <= input@.len()
                &&& forall|i: int| pos <= i < end ==> is_digit(#[trigger] input@[i])
                &&& end == input@.len() || !is_digit(input@[end as int])
                &&& n as nat == digits_value(input@.subrange(pos as int, end as int))
                &&& input@.subrange(pos as int, end as int) == dec(n as nat)
            },
            None => pos == input@.len() || !is_digit(input@[pos as int]) || (input@[pos as int] == 48u8
                && pos + 1 < input@.len() && is_digit(input@[pos + 1])) || exists|end: int|
                pos < end <= input@.len() && (forall|i: int| pos <= i < end ==> is_digit(#[trigger] input@[i]))
                    && digits_value(input@.subrange(pos as int, end)) > u32::MAX,
        },
        forall|n: nat|
            n <= u32::MAX && #[trigger] number_at(input@, pos as int, n) ==> (r matches Some((m, e))
                && m == n && e == pos + dec(n).len()),
{
    let mut i: usize = pos;
    let mut v: u64 = 0;
    while i < input.len() && 48 <= input[i] && input[i] <= 57
        invariant
            pos <= i <= input@.len(),
            forall|k: int| pos <= k < i ==> is_digit(#[trigger] input@[k]),
            v as nat == digits_value(input@.subrange(pos as int, i as int)),
            v <= u32::MAX,
        decreases input@.len() - i,
    {
        assert(input@.subrange(pos as int, i + 1).drop_last() =~= input@.subrange(pos as int, i as int));
        let nv = v * 10 + (input[i] - 48) as u64;
        i = i + 1;
        if nv > u32::MAX as u64 {
            proof {
                assert forall|n: nat| n <= u32::MAX && #[trigger] number_at(input@, pos as int, n) implies false by {
                    lemma_dec_digits(n);
                    let l = dec(n).len() as int;
                    if i > pos + l {
                        assert(is_digit(input@[pos + l]));
                    } else {
                        lemma_digits_prefix(dec(n), i - pos);
                        assert(dec(n).take(i - pos) =~= input@.subrange(pos as int, i as int));
                    }
                }
            }
            return None;
        }
        v = nv;
    }
    proof {
        assert forall|n: nat| n <= u32::MAX && #[trigger] number_at(input@, pos as int, n) implies i == pos + dec(n).len() && v == n by {
            lemma_dec_digits(n);
            let l = dec(n).len() as int;
            if i > pos + l {
                assert(is_digit(input@[pos + l]));
            } else if i < pos + l {
                assert(input@[i as int] == dec(n)[i - pos]);
            }
        }
    }
    if i == pos {
        return None;
    }
    if i - pos >= 2 && input[pos] == 48u8 {
        proof {
            assert(is_digit(input@[pos + 1]));
            assert forall|n: nat| n <= u32::MAX && #[trigger] number_at(input@, pos as int, n) implies false by {
                lemma_dec_digits(n);
                lemma_dec_first(n);
                assert(input@[pos as int] == dec(n)[0]);
                if dec(n).len() == 1 {
                    assert(is_digit(input@[pos + 1]));
                } else {
                    assert(n >= 10);
                }
            }
        }
        return None;
    }
    proof {
        lemma_canonical_digits(input@.subrange(pos as int, i as int));
    }
    Some((v as u32, i))
}

} // verus!
