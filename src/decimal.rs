//! ASCII decimal numbers, as they appear in length prefixes and stream ids.

use vstd::prelude::*;

verus! {

/// True when `c` is an ASCII digit.
pub open spec fn is_digit(c: u8) -> bool {
    48 <= c <= 57
}

/// True when every byte of `s` is an ASCII digit.
pub open spec fn all_digits(s: Seq<u8>) -> bool {
    forall|i: int| 0 <= i < s.len() ==> is_digit(#[trigger] s[i])
}

/// The shortest decimal spelling of `n`.
pub open spec fn digits_of(n: nat) -> Seq<u8>
    decreases n,
{
    if n < 10 {
        seq![(48 + n) as u8]
    } else {
        digits_of(n / 10).push((48 + n % 10) as u8)
    }
}

/// The number that a string of digits spells (leading zeros allowed).
pub open spec fn value_of(s: Seq<u8>) -> nat
    decreases s.len(),
{
    if s.len() == 0 {
        0
    } else {
        value_of(s.drop_last()) * 10 + (s.last() - 48) as nat
    }
}

/// What a decimal field holds: a number when it is a non-empty run of digits
/// whose value fits in 64 bits.
pub open spec fn decimal_field(s: Seq<u8>) -> Option<u64> {
    if s.len() > 0 && all_digits(s) && value_of(s) <= u64::MAX {
        Some(value_of(s) as u64)
    } else {
        None
    }
}

/// Spelling a number and reading it back gives the number again.
pub proof fn lemma_digits_value(n: nat)
    ensures
        digits_of(n).len() >= 1,
        all_digits(digits_of(n)),
        value_of(digits_of(n)) == n,
    decreases n,
{
    if n >= 10 {
        lemma_digits_value(n / 10);
        assert(digits_of(n).drop_last() =~= digits_of(n / 10));
        assert(n == (n / 10) * 10 + n % 10) by (nonlinear_arith);
        assert(digits_of(n).last() == (48 + n % 10) as u8);
        assert(((48 + n % 10) as u8) - 48 == n % 10);
        assert(value_of(digits_of(n)) == value_of(digits_of(n / 10)) * 10 + n % 10);
    } else {
        assert(digits_of(n).drop_last() =~= Seq::<u8>::empty());
        assert(value_of(digits_of(n).drop_last()) == 0);
    }
}

/// A decimal spelling of `n` read back as a field gives `n`.
pub proof fn lemma_decimal_field_of_digits(n: u64)
    ensures
        decimal_field(digits_of(n as nat)) == Some(n),
{
    lemma_digits_value(n as nat);
}

/// Appends the decimal spelling of `n` to `out`.
pub fn push_decimal(out: &mut Vec<u8>, n: u64)
    ensures
        final(out)@ == old(out)@ + digits_of(n as nat),
    decreases n,
{
    if n >= 10 {
        push_decimal(out, n / 10);
    }
    let d: u8 = (n % 10) as u8;
    out.push(48 + d);
    proof {
        if n >= 10 {
            assert(final(out)@ =~= old(out)@ + digits_of(n as nat));
        } else {
            assert(final(out)@ =~= old(out)@ + digits_of(n as nat));
        }
    }
}

/// Reads `b[start..end]` as an unsigned decimal number.
pub fn parse_decimal(b: &[u8], start: usize, end: usize) -> (r: Option<u64>)
    requires
        start <= end <= b@.len(),
    ensures
        r == decimal_field(b@.subrange(start as int, end as int)),
{
    if start == end {
        return None;
    }
    let mut acc: u64 = 0;
    let mut i: usize = start;
    while i < end
        invariant
            start <= i <= end <= b@.len(),
            all_digits(b@.subrange(start as int, i as int)),
            acc as nat == value_of(b@.subrange(start as int, i as int)),
        decreases end - i,
    {
        let c = b[i];
        proof {
            assert(b@.subrange(start as int, i + 1).drop_last() =~= b@.subrange(start as int, i as int));
        }
        if c < 48 || c > 57 {
            proof {
                let s = b@.subrange(start as int, end as int);
                assert(s[i - start] == c);
            }
            return None;
        }
        let d: u64 = (c - 48) as u64;
        if acc > (u64::MAX - d) / 10 {
            proof {
                let whole = b@.subrange(start as int, end as int);
                let pre = b@.subrange(start as int, i + 1);
                assert(pre.drop_last() =~= b@.subrange(start as int, i as int));
                assert(acc * 10 + d > u64::MAX) by (nonlinear_arith)
                    requires acc > (u64::MAX - d) / 10, d <= 9;
                if all_digits(whole) {
                    lemma_value_grows(whole, (i + 1 - start) as nat);
                    assert(whole.subrange(0, i + 1 - start) =~= pre);
                }
            }
            return None;
        }
        acc = acc * 10 + d;
        i = i + 1;
        proof {
            let s = b@.subrange(start as int, i as int);
            assert forall|j: int| 0 <= j < s.len() implies is_digit(#[trigger] s[j]) by {
                if j < s.len() - 1 {
                    assert(s[j] == b@.subrange(start as int, (i - 1) as int)[j]);
                }
            }
        }
    }
    proof {
        assert(b@.subrange(start as int, i as int) =~= b@.subrange(start as int, end as int));
    }
    Some(acc)
}

/// The value of a run of digits is at least the value of any prefix of it.
pub proof fn lemma_value_grows(s: Seq<u8>, k: nat)
    requires
        k <= s.len(),
        all_digits(s),
    ensures
        value_of(s.subrange(0, k as int)) <= value_of(s),
    decreases s.len(),
{
    if k < s.len() {
        let t = s.drop_last();
        assert(t.subrange(0, k as int) =~= s.subrange(0, k as int));
        assert forall|i: int| 0 <= i < t.len() implies is_digit(#[trigger] t[i]) by {
            assert(t[i] == s[i]);
        }
        lemma_value_grows(t, k);
        assert(value_of(t) * 10 >= value_of(t)) by (nonlinear_arith);
    } else {
        assert(s.subrange(0, k as int) =~= s);
    }
}

} // verus!
