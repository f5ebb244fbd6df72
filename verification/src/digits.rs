//! Decimal digit strings: the spec-level representation of the lengths,
//! counts and integers that the wire format writes in base 10, with the
//! lemmas that make writing and reading them inverse to each other.

use vstd::prelude::*;
use crate::resp::is_digit;

verus! {

/// The decimal digit string of `n`, most significant digit first.
pub open spec fn dec_digits(n: nat) -> Seq<u8>
    decreases n,
{
    if n < 10 {
        seq![(48 + n) as u8]
    } else {
        dec_digits(n / 10).push((48 + n % 10) as u8)
    }
}

/// The value of a digit string, most significant digit first.
pub open spec fn digits_val(s: Seq<u8>) -> int
    decreases s.len(),
{
    if s.len() == 0 {
        0
    } else {
        digits_val(s.drop_last()) * 10 + (s.last() - 48)
    }
}

pub open spec fn all_digits(s: Seq<u8>) -> bool {
    forall|i: int| 0 <= i < s.len() ==> is_digit(#[trigger] s[i])
}

/// Non-empty, all digits, and no leading zero: the only digit string the
/// encoder emits and the decoder accepts for a given value.
pub open spec fn canonical_digits(s: Seq<u8>) -> bool {
    s.len() >= 1 && all_digits(s) && (s.len() == 1 || s[0] != 48)
}

/// `dec_digits` always yields a canonical digit string, whose first digit is
/// nonzero whenever `n` is.
pub proof fn lemma_dec_digits_form(n: nat)
    ensures
        dec_digits(n).len() >= 1,
        all_digits(dec_digits(n)),
        canonical_digits(dec_digits(n)),
        n >= 1 ==> dec_digits(n)[0] != 48,
        n < 10 ==> dec_digits(n) == seq![(48 + n) as u8],
    decreases n,
{
    if n >= 10 {
        lemma_dec_digits_form(n / 10);
        let p = dec_digits(n / 10);
        let d = dec_digits(n);
        assert(d == p.push((48 + n % 10) as u8));
        assert forall|i: int| 0 <= i < d.len() implies is_digit(d[i]) by {
            if i < p.len() {
                assert(d[i] == p[i]);
            }
        }
        assert(d[0] == p[0]);
    }
}

/// Reading back what `dec_digits` wrote gives the value written.
pub proof fn lemma_digits_val_of_dec(n: nat)
    ensures
        digits_val(dec_digits(n)) == n,
    decreases n,
{
    if n < 10 {
        let d = dec_digits(n);
        assert(d.drop_last() =~= Seq::<u8>::empty());
        assert(d.last() == (48 + n) as u8);
        assert(((48 + n) as u8) as int == 48 + n);
        assert(digits_val(d) == digits_val(Seq::<u8>::empty()) * 10 + (d.last() - 48));
    } else {
        lemma_digits_val_of_dec(n / 10);
        let p = dec_digits(n / 10);
        let d = dec_digits(n);
        assert(d == p.push((48 + n % 10) as u8));
        assert(d.drop_last() =~= p);
        assert(d.last() == (48 + n % 10) as u8);
        assert(((48 + n % 10) as u8) as int == 48 + n % 10);
        assert(digits_val(d) == digits_val(p) * 10 + (d.last() - 48));
        assert(digits_val(d) == (n / 10) * 10 + n % 10);
    }
}

/// A digit string's value is non-negative, and positive if it does not start
/// with a zero digit.
pub proof fn lemma_digits_val_bounds(s: Seq<u8>)
    requires
        all_digits(s),
    ensures
        digits_val(s) >= 0,
        s.len() >= 1 && s[0] != 48 ==> digits_val(s) >= 1,
    decreases s.len(),
{
    if s.len() >= 1 {
        let p = s.drop_last();
        assert(all_digits(p)) by {
            assert(forall|i: int| 0 <= i < p.len() ==> p[i] == s[i]);
        }
        lemma_digits_val_bounds(p);
        if s.len() >= 2 && s[0] != 48 {
            assert(p[0] == s[0]);
        }
    }
}

/// A canonical digit string is recovered from its own value: `dec_digits`
/// is a left inverse of `digits_val`.
pub proof fn lemma_dec_of_digits_val(s: Seq<u8>)
    requires
        canonical_digits(s),
    ensures
        digits_val(s) >= 0,
        dec_digits(digits_val(s) as nat) == s,
    decreases s.len(),
{
    lemma_digits_val_bounds(s);
    let v = digits_val(s);
    let d = (s.last() - 48) as int;
    if s.len() == 1 {
        assert(s.drop_last() =~= Seq::<u8>::empty());
        assert(digits_val(Seq::<u8>::empty()) == 0);
        assert(v == d);
        assert(dec_digits(v as nat) =~= s);
    } else {
        let p = s.drop_last();
        assert(all_digits(p)) by {
            assert(forall|i: int| 0 <= i < p.len() ==> p[i] == s[i]);
        }
        assert(p[0] == s[0]);
        assert(canonical_digits(p));
        lemma_dec_of_digits_val(p);
        lemma_digits_val_bounds(p);
        let vp = digits_val(p);
        assert(vp >= 1);
        assert(v == vp * 10 + d);
        assert(0 <= d < 10);
        assert(v >= 10);
        assert(v / 10 == vp && v % 10 == d) by (nonlinear_arith)
            requires
                v == vp * 10 + d,
                0 <= d < 10,
                vp >= 0,
        ;
        assert(dec_digits(v as nat) == dec_digits(vp as nat).push((48 + d) as u8));
        assert(dec_digits(v as nat) =~= s);
    }
}

/// Once a prefix's value is large, appending further bytes can only keep it
/// large, digits or not: each byte multiplies the value by ten and adds at
/// worst -48, so any threshold above that keeps the growth strict. Used to
/// justify reporting overflow without reading to the end of the run.
pub proof fn lemma_digits_val_prefix_grows(s: Seq<u8>, i: int)
    requires
        0 <= i <= s.len(),
        digits_val(s.subrange(0, i)) > 100,
    ensures
        digits_val(s) >= digits_val(s.subrange(0, i)),
        digits_val(s) > 100,
    decreases s.len() - i,
{
    if i == s.len() {
        assert(s.subrange(0, i) =~= s);
    } else {
        let p = s.subrange(0, i);
        let q = s.subrange(0, i + 1);
        assert(q.drop_last() =~= p);
        assert(digits_val(q) == digits_val(p) * 10 + (s[i] - 48));
        assert(digits_val(q) >= digits_val(p));
        lemma_digits_val_prefix_grows(s, i + 1);
    }
}

/// Parse the digit run `buf[from..to]` into a `u64`.
///
/// Returns `None` exactly when the range holds a non-digit byte or its value
/// does not fit in a `u64`.
pub fn parse_digits(buf: &Vec<u8>, from: usize, to: usize) -> (r: Option<u64>)
    requires
        from <= to <= buf.len(),
    ensures
        match r {
            Some(v) => all_digits(buf@.subrange(from as int, to as int)) && v as int == digits_val(
                buf@.subrange(from as int, to as int),
            ),
            None => !all_digits(buf@.subrange(from as int, to as int)) || digits_val(
                buf@.subrange(from as int, to as int),
            ) > u64::MAX,
        },
{
    let ghost whole = buf@.subrange(from as int, to as int);
    let mut acc: u64 = 0;
    let mut i: usize = from;
    while i < to
        invariant
            from <= i <= to <= buf.len(),
            whole == buf@.subrange(from as int, to as int),
            all_digits(buf@.subrange(from as int, i as int)),
            acc as int == digits_val(buf@.subrange(from as int, i as int)),
        decreases to - i,
    {
        let ghost pre = buf@.subrange(from as int, i as int);
        let b = buf[i];
        if b < 48 || b > 57 {
            proof {
                assert(whole[i - from] == b);
            }
            return None;
        }
        let d: u64 = (b - 48) as u64;
        let ghost post = buf@.subrange(from as int, i + 1 as int);
        proof {
            assert(post.drop_last() =~= pre);
            assert(post.last() == b);
            assert(digits_val(post) == acc * 10 + d);
            assert(all_digits(post)) by {
                assert(forall|j: int| 0 <= j < pre.len() ==> post[j] == pre[j]);
            }
        }
        if acc > (u64::MAX - d) / 10 {
            proof {
                assert(acc * 10 + d > u64::MAX) by (nonlinear_arith)
                    requires
                        acc > (u64::MAX - d) / 10,
                        0 <= d < 10,
                ;
                assert(post =~= whole.subrange(0, i + 1 - from));
                lemma_digits_val_prefix_grows(whole, i + 1 - from);
            }
            return None;
        }
        proof {
            assert(acc * 10 + d <= u64::MAX) by (nonlinear_arith)
                requires
                    acc <= (u64::MAX - d) / 10,
                    0 <= d < 10,
            ;
        }
        acc = acc * 10 + d;
        i = i + 1;
    }
    proof {
        assert(buf@.subrange(from as int, i as int) =~= whole);
    }
    Some(acc)
}

} // verus!
