//! Small operations on byte strings.

use vstd::prelude::*;

verus! {

/// Appends the bytes of `s` to `out`.
pub fn push_bytes(out: &mut Vec<u8>, s: &Vec<u8>)
    ensures
        final(out)@ == old(out)@ + s@,
{
    let mut i: usize = 0;
    while i < s.len()
        invariant
            i <= s@.len(),
            out@ == old(out)@ + s@.subrange(0, i as int),
        decreases s@.len() - i,
    {
        out.push(s[i]);
        i = i + 1;
        assert(out@ =~= old(out)@ + s@.subrange(0, i as int));
    }
    assert(s@.subrange(0, i as int) =~= s@);
}

/// A copy of `s`.
pub fn copy_bytes(s: &Vec<u8>) -> (r: Vec<u8>)
    ensures
        r@ == s@,
{
    let mut out: Vec<u8> = Vec::new();
    push_bytes(&mut out, s);
    assert(out@ =~= s@);
    out
}

/// A copy of `b[start..end]`.
pub fn slice_bytes(b: &[u8], start: usize, end: usize) -> (r: Vec<u8>)
    requires
        start <= end <= b@.len(),
    ensures
        r@ == b@.subrange(start as int, end as int),
{
    let mut out: Vec<u8> = Vec::new();
    let mut i: usize = start;
    while i < end
        invariant
            start <= i <= end <= b@.len(),
            out@ == b@.subrange(start as int, i as int),
        decreases end - i,
    {
        out.push(b[i]);
        i = i + 1;
        assert(out@ =~= b@.subrange(start as int, i as int));
    }
    out
}

/// Whether two byte strings are equal.
pub fn bytes_equal(a: &[u8], b: &[u8]) -> (r: bool)
    ensures
        r == (a@ == b@),
{
    if a.len() != b.len() {
        return false;
    }
    let mut i: usize = 0;
    while i < a.len()
        invariant
            i <= a@.len() == b@.len(),
            forall|j: int| 0 <= j < i ==> a@[j] == b@[j],
        decreases a@.len() - i,
    {
        if a[i] != b[i] {
            return false;
        }
        i = i + 1;
    }
    assert(a@ =~= b@);
    true
}

/// The bytes of a string.
pub fn str_bytes(s: &str) -> (r: Vec<u8>)
    requires
        s.is_ascii(),
    ensures
        r@ == s@.map_values(|c: char| c as u8),
{
    let r = s.as_bytes_vec();
    proof {
        vstd::string::is_ascii_spec_bytes(s);
        assert(r@ =~= s@.map_values(|c: char| c as u8));
    }
    r
}

/// The bytes of an ASCII text.
pub open spec fn ascii_bytes(s: Seq<char>) -> Seq<u8> {
    s.map_values(|c: char| c as u8)
}

/// The position of the first `c` in `s`, or -1.
pub open spec fn first_of(s: Seq<u8>, c: u8) -> int
    decreases s.len(),
{
    if s.len() == 0 {
        -1
    } else if s.last() == c && first_of(s.drop_last(), c) == -1 {
        s.len() - 1
    } else {
        first_of(s.drop_last(), c)
    }
}

/// The parts of `s` before and after its first `c`, or `None` without one.
pub open spec fn split_first(s: Seq<u8>, c: u8) -> Option<(Seq<u8>, Seq<u8>)> {
    let d = first_of(s, c);
    if d < 0 {
        None
    } else {
        Some((s.subrange(0, d), s.subrange(d + 1, s.len() as int)))
    }
}

proof fn lemma_first_of(s: Seq<u8>, c: u8, i: int)
    requires
        0 <= i <= s.len(),
        forall|j: int| 0 <= j < i ==> s[j] != c,
    ensures
        i < s.len() && s[i] == c ==> first_of(s, c) == i,
        i == s.len() ==> first_of(s, c) == -1,
    decreases s.len(),
{
    if s.len() > 0 {
        if i < s.len() {
            lemma_first_of(s.drop_last(), c, i);
            if i == s.len() - 1 {
                lemma_first_of(s.drop_last(), c, s.len() - 1);
            }
        } else {
            lemma_first_of(s.drop_last(), c, s.len() - 1);
        }
    }
}

/// Splits `b` at its first `c`.
pub fn split_at_first(b: &[u8], c: u8) -> (r: Option<(Vec<u8>, Vec<u8>)>)
    ensures
        match (r, split_first(b@, c)) {
            (Some((x, y)), Some((u, v))) => x@ == u && y@ == v,
            (None, None) => true,
            _ => false,
        },
{
    let mut i: usize = 0;
    while i < b.len()
        invariant
            i <= b@.len(),
            forall|j: int| 0 <= j < i ==> b@[j] != c,
        decreases b@.len() - i,
    {
        if b[i] == c {
            proof {
                lemma_first_of(b@, c, i as int);
            }
            let x = slice_bytes(b, 0, i);
            let y = slice_bytes(b, i + 1, b.len());
            return Some((x, y));
        }
        i = i + 1;
    }
    proof {
        lemma_first_of(b@, c, i as int);
    }
    None
}

} // verus!
