//! The snapshot file that seeds the store at start: a header, metadata and
//! database sections, then key/value records with optional expiry.

use crate::bytes::slice_bytes;
use crate::decimal::{all_digits, digits_of, is_digit, push_decimal};
use crate::store::{spec_put_scalar, Store, StoredView};
use vstd::prelude::*;

verus! {

/// The number that `s` spells in little-endian order.
pub open spec fn le_value(s: Seq<u8>) -> nat
    decreases s.len(),
{
    if s.len() == 0 {
        0
    } else {
        s[0] as nat + 256 * le_value(s.subrange(1, s.len() as int))
    }
}

/// The little-endian number of `n` bytes at `p`, and the position after it.
pub open spec fn le_at(b: Seq<u8>, p: int, n: int) -> Option<(nat, int)> {
    if 0 <= p && 0 <= n && p + n <= b.len() {
        Some((le_value(b.subrange(p, p + n)), p + n))
    } else {
        None
    }
}

/// An encoded length at `p`: six bits, fourteen bits, or four more bytes.
pub open spec fn length_at(b: Seq<u8>, p: int) -> Option<(nat, int)> {
    if p < 0 || p >= b.len() {
        None
    } else {
        let f = b[p];
        if f / 64 == 0 {
            Some(((f % 64) as nat, p + 1))
        } else if f / 64 == 1 {
            if p + 1 < b.len() {
                Some((((f % 64) * 256 + b[p + 1]) as nat, p + 2))
            } else {
                None
            }
        } else if f / 64 == 2 {
            le_at(b, p + 1, 4)
        } else {
            None
        }
    }
}

/// An encoded string at `p`: length-prefixed bytes, or an integer of one, two
/// or four bytes read as its decimal text.
pub open spec fn string_at(b: Seq<u8>, p: int) -> Option<(Seq<u8>, int)> {
    if p < 0 || p >= b.len() {
        None
    } else {
        let f = b[p];
        if f / 64 == 3 {
            let width: int = if f % 64 == 0 {
                1
            } else if f % 64 == 1 {
                2
            } else if f % 64 == 2 {
                4
            } else {
                0
            };
            if width == 0 {
                None
            } else {
                match le_at(b, p + 1, width) {
                    Some((v, q)) => Some((digits_of(v), q)),
                    None => None,
                }
            }
        } else {
            match length_at(b, p) {
                Some((n, q)) => if q + n <= b.len() {
                    Some((b.subrange(q, q + n), q + n))
                } else {
                    None
                },
                None => None,
            }
        }
    }
}

/// The header: `REDIS` and a four-digit version.
pub open spec fn header_ok(b: Seq<u8>) -> bool {
    &&& b.len() >= 9
    &&& b.subrange(0, 5) == seq![82u8, 69u8, 68u8, 73u8, 83u8]
    &&& all_digits(b.subrange(5, 9))
}

/// The end of one metadata section (`FA` name value) or database section
/// (`FE` number `FB` size size) at `p`.
pub open spec fn section_at(b: Seq<u8>, p: int) -> Option<int> {
    if p < 0 || p >= b.len() {
        None
    } else if b[p] == 0xFA {
        match string_at(b, p + 1) {
            Some((_, q)) => match string_at(b, q) {
                Some((_, r)) => Some(r),
                None => None,
            },
            None => None,
        }
    } else if b[p] == 0xFE {
        match length_at(b, p + 1) {
            Some((_, q)) => if q < b.len() && b[q] == 0xFB {
                match length_at(b, q + 1) {
                    Some((_, r)) => match length_at(b, r) {
                        Some((_, t)) => Some(t),
                        None => None,
                    },
                    None => None,
                }
            } else {
                None
            },
            None => None,
        }
    } else {
        None
    }
}

/// The position after the sections that follow `p`, as many as there are.
pub open spec fn sections_end(b: Seq<u8>, p: int) -> int
    decreases b.len() - p,
{
    match section_at(b, p) {
        Some(q) => if p < q <= b.len() {
            sections_end(b, q)
        } else {
            p
        },
        None => p,
    }
}

/// The expiry at `p`: `FC` and milliseconds, `FD` and seconds (each as eight
/// little-endian bytes), or none.
pub open spec fn expiry_at(b: Seq<u8>, p: int) -> Option<(Option<u64>, int)> {
    if 0 <= p < b.len() && b[p] == 0xFC {
        match le_at(b, p + 1, 8) {
            Some((v, q)) => Some((Some(v as u64), q)),
            None => None,
        }
    } else if 0 <= p < b.len() && b[p] == 0xFD {
        match le_at(b, p + 1, 8) {
            Some((v, q)) => Some((Some(if v * 1000 > u64::MAX { u64::MAX } else { (v * 1000) as u64 }), q)),
            None => None,
        }
    } else {
        Some((None, p))
    }
}

/// A key, its value and its expiry.
pub type Record = (Seq<u8>, Seq<u8>, Option<u64>);

/// The key/value record at `p`: an optional expiry, type `00`, key, value.
pub open spec fn record_at(b: Seq<u8>, p: int) -> Option<(Record, int)> {
    match expiry_at(b, p) {
        None => None,
        Some((exp, q)) => if 0 <= q < b.len() && b[q] == 0 {
            match string_at(b, q + 1) {
                Some((k, r)) => match string_at(b, r) {
                    Some((v, t)) => Some(((k, v, exp), t)),
                    None => None,
                },
                None => None,
            }
        } else {
            None
        },
    }
}

/// The records from `p` on, after those in `acc`, as far as they read.
pub open spec fn records_from(b: Seq<u8>, p: int, acc: Seq<Record>) -> Seq<Record>
    decreases b.len() - p,
{
    match record_at(b, p) {
        Some((rec, q)) => if p < q <= b.len() {
            records_from(b, q, acc.push(rec))
        } else {
            acc
        },
        None => acc,
    }
}

/// The records of a snapshot file, or `None` where its header is wrong.
pub open spec fn parse_rdb_spec(b: Seq<u8>) -> Option<Seq<Record>> {
    if !header_ok(b) {
        None
    } else {
        Some(records_from(b, sections_end(b, 9), Seq::empty()))
    }
}

proof fn lemma_le_bound(s: Seq<u8>)
    ensures
        le_value(s) < pow256(s.len()),
    decreases s.len(),
{
    if s.len() > 0 {
        lemma_le_bound(s.subrange(1, s.len() as int));
        let t = le_value(s.subrange(1, s.len() as int));
        let q = pow256((s.len() - 1) as nat);
        assert(s[0] as nat + 256 * t < 256 * q) by (nonlinear_arith)
            requires t < q, s[0] < 256;
    }
}

pub open spec fn pow256(n: nat) -> nat
    decreases n,
{
    if n == 0 {
        1
    } else {
        256 * pow256((n - 1) as nat)
    }
}

/// Reads `n` bytes at `p` as a little-endian number.
fn read_le(b: &[u8], p: usize, n: usize) -> (r: Option<(u64, usize)>)
    requires
        n <= 8,
    ensures
        match (r, le_at(b@, p as int, n as int)) {
            (Some((v, q)), Some((w, e))) => v as nat == w && q as int == e,
            (None, None) => true,
            _ => false,
        },
{
    if p > b.len() || b.len() - p < n {
        return None;
    }
    let ghost s = b@.subrange(p as int, p + n);
    let mut acc: u64 = 0;
    let mut i: usize = n;
    assert(s.subrange(n as int, n as int) =~= Seq::<u8>::empty());
    while i > 0
        invariant
            i <= n <= 8,
            p + n <= b@.len(),
            b@.len() == b.len(),
            s == b@.subrange(p as int, p + n),
            acc as nat == le_value(s.subrange(i as int, n as int)),
        decreases i,
    {
        let ghost t = s.subrange(i as int, n as int);
        proof {
            lemma_le_bound(t);
            lemma_pow256_le(t.len(), 7);
        }
        i = i - 1;
        let byte = b[p + i];
        proof {
            let u = s.subrange(i as int, n as int);
            assert(u.subrange(1, u.len() as int) =~= t);
            assert(u[0] == byte);
            assert(acc < pow256(7));
            assert(pow256(7) == 72057594037927936) by {
                reveal_with_fuel(pow256, 8);
            }
            assert(byte as nat + 256 * acc <= u64::MAX) by (nonlinear_arith)
                requires acc < 72057594037927936, byte < 256;
        }
        acc = (byte as u64) + 256 * acc;
    }
    assert(s.subrange(0, n as int) =~= s);
    Some((acc, p + n))
}

proof fn lemma_pow256_le(a: nat, b: nat)
    requires
        a <= b,
    ensures
        pow256(a) <= pow256(b),
    decreases b,
{
    if a < b {
        lemma_pow256_le(a, (b - 1) as nat);
    }
}

fn parse_length(b: &[u8], p: usize) -> (r: Option<(u64, usize)>)
    ensures
        match (r, length_at(b@, p as int)) {
            (Some((v, q)), Some((w, e))) => v as nat == w && q as int == e,
            (None, None) => true,
            _ => false,
        },
{
    if p >= b.len() {
        return None;
    }
    let f = b[p];
    if f / 64 == 0 {
        Some(((f % 64) as u64, p + 1))
    } else if f / 64 == 1 {
        if p + 1 < b.len() {
            let v: u64 = ((f % 64) as u64) * 256 + b[p + 1] as u64;
            Some((v, p + 2))
        } else {
            None
        }
    } else if f / 64 == 2 {
        read_le(b, p + 1, 4)
    } else {
        None
    }
}

fn parse_string(b: &[u8], p: usize) -> (r: Option<(Vec<u8>, usize)>)
    ensures
        match (r, string_at(b@, p as int)) {
            (Some((v, q)), Some((w, e))) => v@ == w && q as int == e,
            (None, None) => true,
            _ => false,
        },
{
    if p >= b.len() {
        return None;
    }
    let f = b[p];
    if f / 64 == 3 {
        let width: usize = if f % 64 == 0 {
            1
        } else if f % 64 == 1 {
            2
        } else if f % 64 == 2 {
            4
        } else {
            0
        };
        if width == 0 {
            return None;
        }
        match read_le(b, p + 1, width) {
            Some((v, q)) => {
                let mut text: Vec<u8> = Vec::new();
                push_decimal(&mut text, v);
                assert(text@ =~= digits_of(v as nat));
                Some((text, q))
            },
            None => None,
        }
    } else {
        match parse_length(b, p) {
            Some((n, q)) => {
                if n <= (b.len() - q) as u64 {
                    let e = q + n as usize;
                    Some((slice_bytes(b, q, e), e))
                } else {
                    None
                }
            },
            None => None,
        }
    }
}

fn header_is_valid(b: &[u8]) -> (r: bool)
    ensures
        r == header_ok(b@),
{
    if b.len() < 9 {
        return false;
    }
    let tag = b[0] == 82 && b[1] == 69 && b[2] == 68 && b[3] == 73 && b[4] == 83;
    proof {
        if b@.subrange(0, 5) == seq![82u8, 69u8, 68u8, 73u8, 83u8] {
            assert(b@.subrange(0, 5)[0] == b@[0]);
            assert(b@.subrange(0, 5)[1] == b@[1]);
            assert(b@.subrange(0, 5)[2] == b@[2]);
            assert(b@.subrange(0, 5)[3] == b@[3]);
            assert(b@.subrange(0, 5)[4] == b@[4]);
        }
        if tag {
            assert(b@.subrange(0, 5) =~= seq![82u8, 69u8, 68u8, 73u8, 83u8]);
        }
    }
    let mut digits = true;
    let mut i: usize = 5;
    while i < 9
        invariant
            5 <= i <= 9 <= b@.len(),
            digits == all_digits(b@.subrange(5, i as int)),
        decreases 9 - i,
    {
        let c = b[i];
        proof {
            let u = b@.subrange(5, i + 1);
            assert(u.drop_last() =~= b@.subrange(5, i as int));
            assert(u.last() == c);
            if all_digits(u) {
                assert forall|j: int| 0 <= j < u.len() - 1 implies is_digit(#[trigger] u.drop_last()[j]) by {
                    assert(u.drop_last()[j] == u[j]);
                }
            }
        }
        digits = digits && 48 <= c && c <= 57;
        i = i + 1;
    }
    tag && digits
}

fn parse_section(b: &[u8], p: usize) -> (r: Option<usize>)
    ensures
        match (r, section_at(b@, p as int)) {
            (Some(q), Some(e)) => q as int == e,
            (None, None) => true,
            _ => false,
        },
{
    if p >= b.len() {
        return None;
    }
    if b[p] == 0xFA {
        match parse_string(b, p + 1) {
            Some((_, q)) => match parse_string(b, q) {
                Some((_, r)) => Some(r),
                None => None,
            },
            None => None,
        }
    } else if b[p] == 0xFE {
        match parse_length(b, p + 1) {
            Some((_, q)) => {
                if q < b.len() && b[q] == 0xFB {
                    match parse_length(b, q + 1) {
                        Some((_, r)) => match parse_length(b, r) {
                            Some((_, t)) => Some(t),
                            None => None,
                        },
                        None => None,
                    }
                } else {
                    None
                }
            },
            None => None,
        }
    } else {
        None
    }
}

fn skip_sections(b: &[u8], p: usize) -> (r: usize)
    ensures
        r as int == sections_end(b@, p as int),
        p <= b@.len() ==> p <= r <= b@.len(),
    decreases b@.len() - p,
{
    match parse_section(b, p) {
        Some(q) => {
            if p < q && q <= b.len() {
                skip_sections(b, q)
            } else {
                p
            }
        },
        None => p,
    }
}

fn parse_expiry(b: &[u8], p: usize) -> (r: Option<(Option<u64>, usize)>)
    ensures
        match (r, expiry_at(b@, p as int)) {
            (Some((v, q)), Some((w, e))) => v == w && q as int == e,
            (None, None) => true,
            _ => false,
        },
{
    if p < b.len() && b[p] == 0xFC {
        match read_le(b, p + 1, 8) {
            Some((v, q)) => Some((Some(v), q)),
            None => None,
        }
    } else if p < b.len() && b[p] == 0xFD {
        match read_le(b, p + 1, 8) {
            Some((v, q)) => {
                let ms: u64 = if v > u64::MAX / 1000 {
                    u64::MAX
                } else {
                    v * 1000
                };
                Some((Some(ms), q))
            },
            None => None,
        }
    } else {
        Some((None, p))
    }
}

/// A value recorded in a snapshot, with its expiry in milliseconds since the
/// Unix epoch.
#[derive(Debug)]
pub struct Entry {
    pub value: Vec<u8>,
    pub expires_at: Option<u64>,
}

impl Entry {
    /// The value, where it has not expired at time `now` (milliseconds).
    pub fn get(&self, now: u64) -> (r: Option<&Vec<u8>>)
        ensures
            match self.expires_at {
                Some(t) if t < now => r is None,
                _ => r == Some(&self.value),
            },
    {
        match self.expires_at {
            Some(t) => {
                if t < now {
                    None
                } else {
                    Some(&self.value)
                }
            },
            None => Some(&self.value),
        }
    }
}

fn parse_key_value(b: &[u8], p: usize) -> (r: Option<((Vec<u8>, Entry), usize)>)
    ensures
        match (r, record_at(b@, p as int)) {
            (Some(((k, e), q)), Some((rec, t))) => (k@, e.value@, e.expires_at) == rec && q as int == t,
            (None, None) => true,
            _ => false,
        },
{
    let (exp, q) = match parse_expiry(b, p) {
        None => {
            return None;
        },
        Some(x) => x,
    };
    if q < b.len() && b[q] == 0 {
        match parse_string(b, q + 1) {
            Some((k, r)) => match parse_string(b, r) {
                Some((v, t)) => Some(((k, Entry { value: v, expires_at: exp }), t)),
                None => None,
            },
            None => None,
        }
    } else {
        None
    }
}

/// The records of a snapshot file, in file order.
pub struct RdbFile {
    pub map: Vec<(Vec<u8>, Entry)>,
}

/// The records that a list of parsed records holds.
pub open spec fn records_view(s: Seq<(Vec<u8>, Entry)>) -> Seq<Record> {
    Seq::new(s.len(), |i: int| (s[i].0@, s[i].1.value@, s[i].1.expires_at))
}

impl RdbFile {
    /// A snapshot with no record.
    pub fn new() -> (r: RdbFile)
        ensures
            records_view(r.map@) == Seq::<Record>::empty(),
    {
        let r = RdbFile { map: Vec::new() };
        assert(records_view(r.map@) =~= Seq::<Record>::empty());
        r
    }
}

/// Reads a snapshot file: `None` where the header is not `REDIS` and four
/// digits; otherwise the records that follow the sections, as far as they read.
pub fn parse_rdb_file(input: &[u8]) -> (r: Option<RdbFile>)
    ensures
        match (r, parse_rdb_spec(input@)) {
            (Some(f), Some(recs)) => records_view(f.map@) == recs,
            (None, None) => true,
            _ => false,
        },
{
    if !header_is_valid(input) {
        return None;
    }
    let start = skip_sections(input, 9);
    let mut map: Vec<(Vec<u8>, Entry)> = Vec::new();
    let mut p: usize = start;
    assert(records_view(map@) =~= Seq::<Record>::empty());
    loop
        invariant
            p <= input@.len(),
            records_from(input@, start as int, Seq::empty()) == records_from(input@, p as int, records_view(map@)),
        ensures
            records_from(input@, start as int, Seq::empty()) == records_view(map@),
        decreases input@.len() - p,
    {
        match parse_key_value(input, p) {
            Some((kv, q)) => {
                if p < q && q <= input.len() {
                    let ghost before = records_view(map@);
                    let ghost rec = (kv.0@, kv.1.value@, kv.1.expires_at);
                    map.push(kv);
                    assert(records_view(map@) =~= before.push(rec));
                    p = q;
                } else {
                    break;
                }
            },
            None => {
                break;
            },
        }
    }
    Some(RdbFile { map })
}

/// Seeds the store with the records of a snapshot, in order; a record whose
/// key holds a stream is skipped.
pub fn load_snapshot(store: &mut Store, file: &RdbFile)
    requires
        old(store).wf(),
    ensures
        final(store).wf(),
        final(store)@ == loaded(old(store)@, records_view(file.map@)),
{
    let ghost recs = records_view(file.map@);
    let mut i: usize = 0;
    assert(recs.subrange(0, 0) =~= Seq::<Record>::empty());
    while i < file.map.len()
        invariant
            i <= file.map@.len(),
            store.wf(),
            recs == records_view(file.map@),
            store@ == loaded(old(store)@, recs.subrange(0, i as int)),
        decreases file.map@.len() - i,
    {
        let rec = &file.map[i];
        let _ = store.put_scalar(rec.0.as_slice(), rec.1.value.as_slice(), rec.1.expires_at);
        proof {
            assert(recs.subrange(0, i + 1).drop_last() =~= recs.subrange(0, i as int));
        }
        i = i + 1;
    }
    assert(recs.subrange(0, i as int) =~= recs);
}

/// The key space after storing each record of `recs` in order.
pub open spec fn loaded(m: Map<Seq<u8>, StoredView>, recs: Seq<Record>) -> Map<Seq<u8>, StoredView>
    decreases recs.len(),
{
    if recs.len() == 0 {
        m
    } else {
        let prev = loaded(m, recs.drop_last());
        let (k, v, e) = recs.last();
        match spec_put_scalar(prev, k, v, e) {
            Some(m2) => m2,
            None => prev,
        }
    }
}

} // verus!
