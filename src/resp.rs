//! The wire codec: values of the RESP-style protocol, their encoding, and a
//! resumable decoder.

use crate::bytes::{copy_bytes, push_bytes};
use crate::decimal::{
    all_digits, decimal_field, digits_of, lemma_decimal_field_of_digits, parse_decimal, push_decimal,
};
use vstd::prelude::*;

verus! {

/// A value of the wire protocol.
#[derive(Debug, PartialEq, Eq)]
pub enum Value {
    SimpleString(Vec<u8>),
    SimpleError(Vec<u8>),
    BulkString(Vec<u8>),
    Array(Vec<Value>),
    NullBulkString,
}

/// The mathematical form of a `Value`.
pub enum ValueView {
    SimpleString(Seq<u8>),
    SimpleError(Seq<u8>),
    BulkString(Seq<u8>),
    Array(Seq<ValueView>),
    NullBulkString,
}

/// The mathematical form of a value.
pub open spec fn value_view(v: Value) -> ValueView
    decreases v,
{
    match v {
        Value::SimpleString(s) => ValueView::SimpleString(s@),
        Value::SimpleError(s) => ValueView::SimpleError(s@),
        Value::BulkString(s) => ValueView::BulkString(s@),
        Value::Array(a) => ValueView::Array(
            Seq::new(
                a@.len(),
                |i: int|
                    if 0 <= i < a@.len() {
                        value_view(a@[i])
                    } else {
                        ValueView::NullBulkString
                    },
            ),
        ),
        Value::NullBulkString => ValueView::NullBulkString,
    }
}

impl View for Value {
    type V = ValueView;

    open spec fn view(&self) -> ValueView {
        value_view(*self)
    }
}

pub open spec fn crlf() -> Seq<u8> {
    seq![13u8, 10u8]
}

/// The bytes that encode `v`.
pub open spec fn encode(v: ValueView) -> Seq<u8>
    decreases v, 1nat,
{
    match v {
        ValueView::SimpleString(s) => seq![43u8] + s + crlf(),
        ValueView::SimpleError(s) => seq![45u8] + s + crlf(),
        ValueView::BulkString(s) => seq![36u8] + digits_of(s.len()) + crlf() + s + crlf(),
        ValueView::Array(a) => seq![42u8] + digits_of(a.len()) + crlf() + encode_all(a),
        ValueView::NullBulkString => seq![36u8, 45u8, 49u8] + crlf(),
    }
}

/// The encodings of the values of `a`, one after another.
pub open spec fn encode_all(a: Seq<ValueView>) -> Seq<u8>
    decreases a, 0nat,
{
    if a.len() == 0 {
        Seq::empty()
    } else {
        encode(a[0]) + encode_all(a.subrange(1, a.len() as int))
    }
}

/// Encoding a list with one more value appends that value's encoding.
pub proof fn lemma_encode_all_push(a: Seq<ValueView>, x: ValueView)
    ensures
        encode_all(a.push(x)) == encode_all(a) + encode(x),
    decreases a.len(),
{
    if a.len() == 0 {
        assert(a.push(x).subrange(1, 1) =~= Seq::<ValueView>::empty());
        assert(encode_all(Seq::<ValueView>::empty()) == Seq::<u8>::empty());
        assert(encode_all(a.push(x)) =~= encode_all(a) + encode(x));
    } else {
        let t = a.subrange(1, a.len() as int);
        lemma_encode_all_push(t, x);
        assert(a.push(x).subrange(1, a.len() as int + 1) =~= t.push(x));
        assert(a.push(x)[0] == a[0]);
        assert(encode_all(a.push(x)) =~= encode_all(a) + encode(x));
    }
}

fn push_crlf(out: &mut Vec<u8>)
    ensures
        final(out)@ == old(out)@ + crlf(),
{
    out.push(13);
    out.push(10);
    assert(final(out)@ =~= old(out)@ + crlf());
}

impl Value {
    /// A deep copy of the value.
    pub fn copy(&self) -> (r: Value)
        ensures
            r@ == self@,
        decreases self,
    {
        match self {
            Value::SimpleString(s) => Value::SimpleString(copy_bytes(s)),
            Value::SimpleError(s) => Value::SimpleError(copy_bytes(s)),
            Value::BulkString(s) => Value::BulkString(copy_bytes(s)),
            Value::NullBulkString => Value::NullBulkString,
            Value::Array(a) => {
                let mut items: Vec<Value> = Vec::new();
                let mut i: usize = 0;
                while i < a.len()
                    invariant
                        i <= a@.len(),
                        *self == Value::Array(*a),
                        items@.len() == i,
                        forall|j: int| 0 <= j < i ==> (#[trigger] items@[j])@ == a@[j]@,
                    decreases a@.len() - i,
                {
                    proof {
                        assert(decreases_to!(*a => a[i as int]));
                        assert(decreases_to!(*self => (*self)->Array_0));
                        assert(decreases_to!(*self => a[i as int]));
                    }
                    let c = a[i].copy();
                    items.push(c);
                    i = i + 1;
                }
                let r = Value::Array(items);
                assert(value_view(r) == value_view(*self)) by {
                    if let ValueView::Array(x) = value_view(r) {
                        if let ValueView::Array(y) = value_view(*self) {
                            assert(x =~= y);
                        }
                    }
                }
                r
            },
        }
    }

    /// Appends the encoding of this value to `out`.
    pub fn serialize_into(&self, out: &mut Vec<u8>)
        ensures
            final(out)@ == old(out)@ + encode(self@),
        decreases self,
    {
        match self {
            Value::SimpleString(s) => {
                out.push(43);
                push_bytes(out, s);
                push_crlf(out);
                assert(final(out)@ =~= old(out)@ + encode(self@));
            },
            Value::SimpleError(s) => {
                out.push(45);
                push_bytes(out, s);
                push_crlf(out);
                assert(final(out)@ =~= old(out)@ + encode(self@));
            },
            Value::BulkString(s) => {
                out.push(36);
                push_decimal(out, s.len() as u64);
                push_crlf(out);
                push_bytes(out, s);
                push_crlf(out);
                assert(final(out)@ =~= old(out)@ + encode(self@));
            },
            Value::NullBulkString => {
                out.push(36);
                out.push(45);
                out.push(49);
                push_crlf(out);
                assert(final(out)@ =~= old(out)@ + encode(self@));
            },
            Value::Array(a) => {
                let ghost items = match self@ {
                    ValueView::Array(x) => x,
                    _ => Seq::empty(),
                };
                out.push(42);
                push_decimal(out, a.len() as u64);
                push_crlf(out);
                let ghost start = out@;
                let mut i: usize = 0;
                while i < a.len()
                    invariant
                        i <= a@.len(),
                        *self == Value::Array(*a),
                        items.len() == a@.len(),
                        forall|j: int| 0 <= j < a@.len() ==> #[trigger] items[j] == a@[j]@,
                        out@ == start + encode_all(items.subrange(0, i as int)),
                    decreases a@.len() - i,
                {
                    proof {
                        assert(decreases_to!(*a => a[i as int]));
                        assert(decreases_to!(*self => (*self)->Array_0));
                        assert(decreases_to!(*self => a[i as int]));
                    }
                    a[i].serialize_into(out);
                    proof {
                        lemma_encode_all_push(items.subrange(0, i as int), items[i as int]);
                        assert(items.subrange(0, i as int).push(items[i as int]) =~= items.subrange(0, i + 1));
                    }
                    i = i + 1;
                }
                assert(items.subrange(0, i as int) =~= items);
                assert(final(out)@ =~= old(out)@ + encode(self@));
            },
        }
    }

    /// The encoding of this value.
    pub fn serialize(&self) -> (r: Vec<u8>)
        ensures
            r@ == encode(self@),
    {
        let mut out: Vec<u8> = Vec::new();
        self.serialize_into(&mut out);
        assert(out@ =~= encode(self@));
        out
    }
}

/// What decoding found at a position of a buffer.
pub enum Parsed {
    /// A whole value, and the position just after it.
    Done(ValueView, int),
    /// The buffer ends before the value does.
    Incomplete,
    /// The bytes cannot start a value.
    Malformed,
}

/// Why a buffer could not be decoded.
#[derive(Debug, Clone, Copy, PartialEq, Eq)]
pub enum RespError {
    /// More bytes are needed: the frame is not complete yet.
    NeedMoreData,
    /// The frame is malformed.
    ProtocolError,
}

pub open spec fn crlf_at(b: Seq<u8>, i: int) -> bool {
    0 <= i && i + 1 < b.len() && b[i] == 13 && b[i + 1] == 10
}

/// The first position at or after `from` where a CRLF starts, or -1.
pub open spec fn find_crlf(b: Seq<u8>, from: int) -> int
    decreases b.len() - from,
{
    if from < 0 || from + 1 >= b.len() {
        -1
    } else if crlf_at(b, from) {
        from
    } else {
        find_crlf(b, from + 1)
    }
}

pub open spec fn is_type_byte(c: u8) -> bool {
    c == 43 || c == 45 || c == 36 || c == 42
}

/// Decoding of the value that starts at `pos` in `b`.
pub open spec fn parse_at(b: Seq<u8>, pos: int) -> Parsed
    decreases b.len() - pos, 1nat,
{
    if pos < 0 || pos >= b.len() {
        Parsed::Incomplete
    } else if !is_type_byte(b[pos]) {
        Parsed::Malformed
    } else {
        let e = find_crlf(b, pos + 1);
        if e < pos + 1 || e + 1 >= b.len() {
            Parsed::Incomplete
        } else {
            let head = b.subrange(pos + 1, e);
            if b[pos] == 43 {
                Parsed::Done(ValueView::SimpleString(head), e + 2)
            } else if b[pos] == 45 {
                Parsed::Done(ValueView::SimpleError(head), e + 2)
            } else if b[pos] == 36 {
                if head == seq![45u8, 49u8] {
                    Parsed::Done(ValueView::NullBulkString, e + 2)
                } else {
                    match decimal_field(head) {
                        None => Parsed::Malformed,
                        Some(n) => {
                            let body_end = e + 2 + n;
                            if body_end + 2 > b.len() {
                                Parsed::Incomplete
                            } else if crlf_at(b, body_end) {
                                Parsed::Done(
                                    ValueView::BulkString(b.subrange(e + 2, body_end)),
                                    body_end + 2,
                                )
                            } else {
                                Parsed::Malformed
                            }
                        },
                    }
                }
            } else {
                match decimal_field(head) {
                    None => Parsed::Malformed,
                    Some(n) => parse_items(b, e + 2, n as nat, Seq::empty()),
                }
            }
        }
    }
}

/// Decoding of `count` more array elements from `pos`, after those in `acc`.
pub open spec fn parse_items(b: Seq<u8>, pos: int, count: nat, acc: Seq<ValueView>) -> Parsed
    decreases b.len() - pos, 2nat, count,
{
    if pos > b.len() {
        Parsed::Malformed
    } else if count == 0 {
        Parsed::Done(ValueView::Array(acc), pos)
    } else {
        match parse_at(b, pos) {
            Parsed::Done(v, end) => {
                if end <= pos || end > b.len() {
                    Parsed::Malformed
                } else {
                    parse_items(b, end, (count - 1) as nat, acc.push(v))
                }
            },
            Parsed::Incomplete => Parsed::Incomplete,
            Parsed::Malformed => Parsed::Malformed,
        }
    }
}

/// The views of a sequence of values.
pub open spec fn views(s: Seq<Value>) -> Seq<ValueView> {
    Seq::new(s.len(), |i: int| s[i]@)
}

/// How an executable decoding result stands to the spec decoding.
pub open spec fn parse_result_matches(r: Result<(Value, usize), RespError>, p: Parsed) -> bool {
    match r {
        Ok((v, end)) => p == Parsed::Done(v@, end as int),
        Err(RespError::NeedMoreData) => p == Parsed::Incomplete,
        Err(RespError::ProtocolError) => p == Parsed::Malformed,
    }
}

/// The first position at or after `from` where a CRLF starts.
pub fn read_until_crlf(b: &[u8], from: usize) -> (r: Option<usize>)
    requires
        from <= b@.len(),
    ensures
        match r {
            Some(e) => from <= e && find_crlf(b@, from as int) == e as int && crlf_at(b@, e as int),
            None => find_crlf(b@, from as int) == -1,
        },
{
    let mut i: usize = from;
    while i < b.len() && b.len() - i >= 2
        invariant
            from <= i <= b@.len(),
            find_crlf(b@, from as int) == find_crlf(b@, i as int),
        decreases b@.len() - i,
    {
        if b[i] == 13 && b[i + 1] == 10 {
            return Some(i);
        }
        i = i + 1;
    }
    None
}

fn bytes_of(b: &[u8], start: usize, end: usize) -> (r: Vec<u8>)
    requires
        start <= end <= b@.len(),
    ensures
        r@ == b@.subrange(start as int, end as int),
{
    let mut out: Vec<u8> = Vec::new();
    let mut i: usize = start;
    while i < end
        invariant
            start <= i <= end <= b@.len(),
            out@ == b@.subrange(start as int, i as int),
        decreases end - i,
    {
        out.push(b[i]);
        i = i + 1;
        assert(out@ =~= b@.subrange(start as int, i as int));
    }
    out
}

/// Decodes the value that starts at `pos` of `b`.
pub fn parse_value_at(b: &[u8], pos: usize) -> (r: Result<(Value, usize), RespError>)
    requires
        pos <= b@.len(),
    ensures
        parse_result_matches(r, parse_at(b@, pos as int)),
    decreases b@.len() - pos,
{
    if pos >= b.len() {
        return Err(RespError::NeedMoreData);
    }
    let tag = b[pos];
    if !(tag == 43 || tag == 45 || tag == 36 || tag == 42) {
        return Err(RespError::ProtocolError);
    }
    let e = match read_until_crlf(b, pos + 1) {
        Some(e) => e,
        None => {
            return Err(RespError::NeedMoreData);
        },
    };
    let ghost head = b@.subrange(pos + 1, e as int);
    if tag == 43 {
        return Ok((Value::SimpleString(bytes_of(b, pos + 1, e)), e + 2));
    }
    if tag == 45 {
        return Ok((Value::SimpleError(bytes_of(b, pos + 1, e)), e + 2));
    }
    if tag == 36 {
        if e == pos + 3 && b[pos + 1] == 45 && b[pos + 2] == 49 {
            assert(head =~= seq![45u8, 49u8]);
            return Ok((Value::NullBulkString, e + 2));
        }
        proof {
            if head == seq![45u8, 49u8] {
                assert(head.len() == 2);
                assert(head[0] == b@[pos + 1]);
                assert(head[1] == b@[pos + 2]);
            }
        }
        let n = match parse_decimal(b, pos + 1, e) {
            Some(n) => n,
            None => {
                return Err(RespError::ProtocolError);
            },
        };
        let body_start = e + 2;
        if n > (b.len() - body_start) as u64 || (b.len() - body_start) as u64 - n < 2 {
            return Err(RespError::NeedMoreData);
        }
        let body_end = body_start + n as usize;
        if b[body_end] == 13 && b[body_end + 1] == 10 {
            return Ok((Value::BulkString(bytes_of(b, body_start, body_end)), body_end + 2));
        }
        return Err(RespError::ProtocolError);
    }
    let n = match parse_decimal(b, pos + 1, e) {
        Some(n) => n,
        None => {
            return Err(RespError::ProtocolError);
        },
    };
    let mut items: Vec<Value> = Vec::new();
    let mut p: usize = e + 2;
    let mut k: u64 = 0;
    assert(views(items@) =~= Seq::<ValueView>::empty());
    while k < n
        invariant
            pos < p <= b@.len(),
            k <= n,
            e + 2 <= p,
            e + 1 < b@.len(),
            parse_at(b@, pos as int) == parse_items(b@, p as int, (n - k) as nat, views(items@)),
        decreases n - k,
    {
        match parse_value_at(b, p) {
            Ok((v, end)) => {
                if end <= p || end > b.len() {
                    return Err(RespError::ProtocolError);
                }
                let ghost before = views(items@);
                items.push(v);
                proof {
                    assert(views(items@) =~= before.push(v@));
                }
                p = end;
                k = k + 1;
            },
            Err(err) => {
                return Err(err);
            },
        }
    }
    let r = Value::Array(items);
    proof {
        assert(value_view(r) == ValueView::Array(views(items@))) by {
            if let ValueView::Array(x) = value_view(r) {
                assert(x =~= views(items@));
            }
        }
    }
    Ok((r, p))
}

/// Decodes the value at the start of `payload`, with the number of bytes it took.
pub fn parse_payload(payload: &[u8]) -> (r: Result<(Value, usize), RespError>)
    ensures
        parse_result_matches(r, parse_at(payload@, 0)),
{
    parse_value_at(payload, 0)
}

/// True when `s` holds no carriage return and no line feed.
pub open spec fn no_line_break(s: Seq<u8>) -> bool {
    forall|i: int| 0 <= i < s.len() ==> #[trigger] s[i] != 13 && s[i] != 10
}

/// True when `v` can travel on the wire: its simple strings and errors hold no
/// line break, and every length fits in 64 bits.
pub open spec fn wire_safe(v: ValueView) -> bool
    decreases v,
{
    match v {
        ValueView::SimpleString(s) => no_line_break(s),
        ValueView::SimpleError(s) => no_line_break(s),
        ValueView::BulkString(s) => s.len() <= u64::MAX,
        ValueView::Array(a) => a.len() <= u64::MAX && forall|i: int|
            0 <= i < a.len() ==> wire_safe(#[trigger] a[i]),
        ValueView::NullBulkString => true,
    }
}

proof fn lemma_find_crlf(b: Seq<u8>, from: int, e: int)
    requires
        0 <= from <= e,
        crlf_at(b, e),
        forall|k: int| from <= k < e ==> b[k] != 13,
    ensures
        find_crlf(b, from) == e,
    decreases e - from,
{
    if from < e {
        lemma_find_crlf(b, from + 1, e);
    }
}

/// A decimal header followed by CRLF is found as one line.
pub proof fn lemma_header(b: Seq<u8>, p: int, n: u64)
    requires
        0 <= p,
        p + 1 + digits_of(n as nat).len() + 2 <= b.len(),
        b.subrange(p + 1, p + 1 + digits_of(n as nat).len()) == digits_of(n as nat),
        b[p + 1 + digits_of(n as nat).len()] == 13,
        b[p + 2 + digits_of(n as nat).len()] == 10,
    ensures
        find_crlf(b, p + 1) == p + 1 + digits_of(n as nat).len(),
        decimal_field(b.subrange(p + 1, p + 1 + digits_of(n as nat).len())) == Some(n),
        b.subrange(p + 1, p + 1 + digits_of(n as nat).len()) != seq![45u8, 49u8],
{
    let d = digits_of(n as nat);
    crate::decimal::lemma_digits_value(n as nat);
    lemma_decimal_field_of_digits(n);
    assert forall|k: int| p + 1 <= k < p + 1 + d.len() implies b[k] != 13 by {
        assert(b[k] == b.subrange(p + 1, p + 1 + d.len())[k - p - 1]);
        assert(all_digits(d));
        assert(crate::decimal::is_digit(d[k - p - 1]));
    }
    lemma_find_crlf(b, p + 1, p + 1 + d.len());
    assert(crate::decimal::is_digit(d[0]));
}

/// Decoding the bytes of an encoded value gives the value back, and takes
/// exactly its encoding.
pub proof fn lemma_parse_encoded(b: Seq<u8>, p: int, v: ValueView)
    requires
        wire_safe(v),
        0 <= p,
        p + encode(v).len() <= b.len(),
        b.subrange(p, p + encode(v).len()) == encode(v),
    ensures
        parse_at(b, p) == Parsed::Done(v, p + encode(v).len()),
    decreases v, 1nat,
{
    let enc = encode(v);
    let l = enc.len() as int;
    assert forall|k: int| 0 <= k < l implies b[p + k] == #[trigger] enc[k] by {
        assert(b.subrange(p, p + l)[k] == b[p + k]);
    }
    match v {
        ValueView::SimpleString(s) => {
            assert(b[p] == enc[0]);
            let e = p + 1 + s.len();
            assert(b[e] == enc[1 + s.len() as int]);
            assert(b[e + 1] == enc[2 + s.len() as int]);
            assert forall|k: int| p + 1 <= k < e implies b[k] != 13 by {
                assert(b[k] == enc[k - p]);
                assert(enc[k - p] == s[k - p - 1]);
            }
            lemma_find_crlf(b, p + 1, e);
            assert(b.subrange(p + 1, e) =~= s) by {
                assert forall|k: int| 0 <= k < s.len() implies b.subrange(p + 1, e)[k] == s[k] by {
                    assert(b[p + 1 + k] == enc[1 + k]);
                }
            }
        },
        ValueView::SimpleError(s) => {
            assert(b[p] == enc[0]);
            let e = p + 1 + s.len();
            assert(b[e] == enc[1 + s.len() as int]);
            assert(b[e + 1] == enc[2 + s.len() as int]);
            assert forall|k: int| p + 1 <= k < e implies b[k] != 13 by {
                assert(b[k] == enc[k - p]);
                assert(enc[k - p] == s[k - p - 1]);
            }
            lemma_find_crlf(b, p + 1, e);
            assert(b.subrange(p + 1, e) =~= s) by {
                assert forall|k: int| 0 <= k < s.len() implies b.subrange(p + 1, e)[k] == s[k] by {
                    assert(b[p + 1 + k] == enc[1 + k]);
                }
            }
        },
        ValueView::BulkString(s) => {
            let n = s.len() as u64;
            let d = digits_of(n as nat);
            let e = p + 1 + d.len();
            assert(b[p] == enc[0]);
            assert(b[e] == enc[1 + d.len() as int]);
            assert(b[e + 1] == enc[2 + d.len() as int]);
            assert(b.subrange(p + 1, e) =~= d) by {
                assert forall|k: int| 0 <= k < d.len() implies b.subrange(p + 1, e)[k] == d[k] by {
                    assert(b[p + 1 + k] == enc[1 + k]);
                }
            }
            lemma_header(b, p, n);
            let body_end = e + 2 + s.len();
            assert(b[body_end] == enc[3 + d.len() as int + s.len() as int]);
            assert(b[body_end + 1] == enc[4 + d.len() as int + s.len() as int]);
            assert(b.subrange(e + 2, body_end) =~= s) by {
                assert forall|k: int| 0 <= k < s.len() implies b.subrange(e + 2, body_end)[k] == s[k] by {
                    assert(b[e + 2 + k] == enc[3 + d.len() as int + k]);
                }
            }
        },
        ValueView::Array(a) => {
            let n = a.len() as u64;
            let d = digits_of(n as nat);
            let e = p + 1 + d.len();
            assert(b[p] == enc[0]);
            assert(b[e] == enc[1 + d.len() as int]);
            assert(b[e + 1] == enc[2 + d.len() as int]);
            assert(b.subrange(p + 1, e) =~= d) by {
                assert forall|k: int| 0 <= k < d.len() implies b.subrange(p + 1, e)[k] == d[k] by {
                    assert(b[p + 1 + k] == enc[1 + k]);
                }
            }
            lemma_header(b, p, n);
            let body = encode_all(a);
            assert(b.subrange(e + 2, e + 2 + body.len()) =~= body) by {
                assert forall|k: int| 0 <= k < body.len() implies b.subrange(e + 2, e + 2 + body.len())[k] == body[k] by {
                    assert(b[e + 2 + k] == enc[3 + d.len() as int + k]);
                }
            }
            lemma_parse_items_encoded(b, e + 2, a, Seq::empty());
            assert(Seq::<ValueView>::empty() + a =~= a);
        },
        ValueView::NullBulkString => {
            assert(b[p] == enc[0]);
            assert(b[p + 1] == enc[1]);
            assert(b[p + 2] == enc[2]);
            assert(b[p + 3] == enc[3]);
            assert(b[p + 4] == enc[4]);
            lemma_find_crlf(b, p + 1, p + 3);
            assert(b.subrange(p + 1, p + 3) =~= seq![45u8, 49u8]);
        },
    }
}

/// Decoding the encodings of a list of values, one after another, gives the list.
pub proof fn lemma_parse_items_encoded(b: Seq<u8>, p: int, a: Seq<ValueView>, acc: Seq<ValueView>)
    requires
        forall|i: int| 0 <= i < a.len() ==> wire_safe(#[trigger] a[i]),
        0 <= p,
        p + encode_all(a).len() <= b.len(),
        b.subrange(p, p + encode_all(a).len()) == encode_all(a),
    ensures
        parse_items(b, p, a.len(), acc) == Parsed::Done(
            ValueView::Array(acc + a),
            p + encode_all(a).len(),
        ),
    decreases a, 0nat,
{
    if a.len() == 0 {
        assert(acc + a =~= acc);
    } else {
        let first = encode(a[0]);
        let rest = a.subrange(1, a.len() as int);
        let all = encode_all(a);
        assert(all == first + encode_all(rest));
        assert(b.subrange(p, p + first.len()) =~= first) by {
            assert forall|k: int| 0 <= k < first.len() implies b.subrange(p, p + first.len())[k] == first[k] by {
                assert(b[p + k] == b.subrange(p, p + all.len())[k]);
                assert(all[k] == first[k]);
            }
        }
        lemma_parse_encoded(b, p, a[0]);
        let q = p + first.len();
        assert(b.subrange(q, q + encode_all(rest).len()) =~= encode_all(rest)) by {
            assert forall|k: int| 0 <= k < encode_all(rest).len() implies b.subrange(q, q + encode_all(rest).len())[k] == encode_all(rest)[k] by {
                assert(b[q + k] == b.subrange(p, p + all.len())[first.len() + k]);
                assert(all[first.len() + k] == encode_all(rest)[k]);
            }
        }
        assert forall|i: int| 0 <= i < rest.len() implies wire_safe(#[trigger] rest[i]) by {
            assert(rest[i] == a[i + 1]);
        }
        lemma_parse_items_encoded(b, q, rest, acc.push(a[0]));
        assert(acc.push(a[0]) + rest =~= acc + a);
        assert(first.len() > 0) by {
            reveal_with_fuel(encode, 1);
        }
    }
}

/// Round trip: decoding the encoding of a wire-safe value, whatever bytes
/// follow it, gives the value back and consumes exactly its encoding.
pub proof fn lemma_round_trip(v: ValueView, rest: Seq<u8>)
    requires
        wire_safe(v),
    ensures
        parse_at(encode(v) + rest, 0) == Parsed::Done(v, encode(v).len() as int),
{
    let b = encode(v) + rest;
    assert(b.subrange(0, encode(v).len() as int) =~= encode(v));
    lemma_parse_encoded(b, 0, v);
}

/// The text of a bulk or simple string.
pub fn unwrap_value_to_string(value: &Value) -> (r: Result<Vec<u8>, RespError>)
    ensures
        match value@ {
            ValueView::BulkString(s) => r is Ok && r->Ok_0@ == s,
            ValueView::SimpleString(s) => r is Ok && r->Ok_0@ == s,
            _ => r == Err::<Vec<u8>, RespError>(RespError::ProtocolError),
        },
{
    match value {
        Value::BulkString(s) => Ok(copy_bytes(s)),
        Value::SimpleString(s) => Ok(copy_bytes(s)),
        _ => Err(RespError::ProtocolError),
    }
}

/// Splits a request into its command name and its arguments: the request must
/// be an array whose first element is a string.
pub fn extract_command(value: Value) -> (r: Result<(Vec<u8>, Vec<Value>), RespError>)
    ensures
        match value@ {
            ValueView::Array(items) => if items.len() >= 1 && (items[0] is BulkString || items[0] is SimpleString) {
                r is Ok && (ValueView::BulkString(r->Ok_0.0@) == items[0] || ValueView::SimpleString(r->Ok_0.0@) == items[0])
                    && views(r->Ok_0.1@) == items.subrange(1, items.len() as int)
            } else {
                r == Err::<(Vec<u8>, Vec<Value>), RespError>(RespError::ProtocolError)
            },
            _ => r == Err::<(Vec<u8>, Vec<Value>), RespError>(RespError::ProtocolError),
        },
{
    let ghost vv = value@;
    match value {
        Value::Array(mut items) => {
            let ghost iv = views(items@);
            assert(vv == ValueView::Array(iv)) by {
                if let ValueView::Array(x) = vv {
                    assert(x =~= iv);
                }
            }
            if items.len() == 0 {
                return Err(RespError::ProtocolError);
            }
            let first = items.remove(0);
            assert(first@ == iv[0]);
            assert(views(items@) =~= iv.subrange(1, iv.len() as int));
            match first {
                Value::BulkString(s) => Ok((s, items)),
                Value::SimpleString(s) => Ok((s, items)),
                _ => Err(RespError::ProtocolError),
            }
        },
        _ => Err(RespError::ProtocolError),
    }
}

} // verus!
