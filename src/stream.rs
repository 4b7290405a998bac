//! Stream entries and their identifiers.

use crate::decimal::{decimal_field, digits_of, parse_decimal, push_decimal};
use crate::bytes::{
    ascii_bytes, bytes_equal, copy_bytes, slice_bytes, split_at_first, split_first, str_bytes,
};
use vstd::prelude::*;

verus! {

/// The identifier of a stream entry: milliseconds, then a sequence number.
#[derive(Debug, Clone, Copy, PartialEq, Eq, Structural)]
pub struct StreamEntryId {
    pub ms: u64,
    pub seq: u64,
}

/// `a` comes strictly before `b`: by milliseconds, then by sequence number.
pub open spec fn id_lt(a: StreamEntryId, b: StreamEntryId) -> bool {
    a.ms < b.ms || (a.ms == b.ms && a.seq < b.seq)
}

/// `a` comes before `b` or is `b`.
pub open spec fn id_le(a: StreamEntryId, b: StreamEntryId) -> bool {
    id_lt(a, b) || a == b
}

/// The textual form `ms-seq` of an identifier.
pub open spec fn id_text(id: StreamEntryId) -> Seq<u8> {
    digits_of(id.ms as nat) + seq![45u8] + digits_of(id.seq as nat)
}

impl StreamEntryId {
    /// Whether this identifier comes strictly before `other`.
    pub fn less_than(&self, other: &StreamEntryId) -> (r: bool)
        ensures
            r == id_lt(*self, *other),
    {
        self.ms < other.ms || (self.ms == other.ms && self.seq < other.seq)
    }

    /// The textual form `ms-seq`.
    pub fn to_text(&self) -> (r: Vec<u8>)
        ensures
            r@ == id_text(*self),
    {
        let mut out: Vec<u8> = Vec::new();
        push_decimal(&mut out, self.ms);
        out.push(45);
        push_decimal(&mut out, self.seq);
        assert(out@ =~= id_text(*self));
        out
    }
}

/// How the identifier of a new entry is given.
#[derive(Debug, Clone, Copy, PartialEq, Eq, Structural)]
pub enum IdSpec {
    /// `*`: milliseconds from the clock, sequence number assigned.
    Auto,
    /// `ms-*`: milliseconds given, sequence number assigned.
    AutoSeq(u64),
    /// `ms-seq`: fully given.
    Explicit(StreamEntryId),
}

/// The parts of an identifier text before and after its first `-`.
pub open spec fn split_spec(s: Seq<u8>) -> Option<(Seq<u8>, Seq<u8>)> {
    split_first(s, 45)
}

/// The identifier that the text `s` spells as `ms-seq`.
pub open spec fn explicit_id(s: Seq<u8>) -> Option<StreamEntryId> {
    match split_spec(s) {
        None => None,
        Some((a, b)) => match (decimal_field(a), decimal_field(b)) {
            (Some(ms), Some(seq)) => Some(StreamEntryId { ms, seq }),
            _ => None,
        },
    }
}

/// The id specification that the text `s` spells.
pub open spec fn id_spec_of(s: Seq<u8>) -> Option<IdSpec> {
    if s == seq![42u8] {
        Some(IdSpec::Auto)
    } else {
        match split_spec(s) {
            None => None,
            Some((a, b)) => if b == seq![42u8] {
                match decimal_field(a) {
                    Some(ms) => Some(IdSpec::AutoSeq(ms)),
                    None => None,
                }
            } else {
                match explicit_id(s) {
                    Some(id) => Some(IdSpec::Explicit(id)),
                    None => None,
                }
            },
        }
    }
}

/// Splits an identifier text at its first `-`.
pub fn split_stream_id(stream_id: &[u8]) -> (r: Option<(Vec<u8>, Vec<u8>)>)
    ensures
        match (r, split_spec(stream_id@)) {
            (Some((a, b)), Some((x, y))) => a@ == x && b@ == y,
            (None, None) => true,
            _ => false,
        },
{
    split_at_first(stream_id, 45)
}

/// Reads the id specification of an `XADD`: `*`, `ms-*` or `ms-seq`.
pub fn parse_id_spec(s: &[u8]) -> (r: Option<IdSpec>)
    ensures
        r == id_spec_of(s@),
{
    if s.len() == 1 && s[0] == 42 {
        assert(s@ =~= seq![42u8]);
        return Some(IdSpec::Auto);
    }
    proof {
        if s@ == seq![42u8] {
            assert(s@.len() == 1 && s@[0] == 42);
        }
    }
    match split_stream_id(s) {
        None => None,
        Some((a, b)) => {
            if b.len() == 1 && b[0] == 42 {
                assert(b@ =~= seq![42u8]);
                match parse_decimal(a.as_slice(), 0, a.len()) {
                    Some(ms) => {
                        assert(a@.subrange(0, a@.len() as int) =~= a@);
                        Some(IdSpec::AutoSeq(ms))
                    },
                    None => {
                        assert(a@.subrange(0, a@.len() as int) =~= a@);
                        None
                    },
                }
            } else {
                proof {
                    if b@ == seq![42u8] {
                        assert(b@.len() == 1 && b@[0] == 42);
                    }
                }
                let ms = parse_decimal(a.as_slice(), 0, a.len());
                let seq = parse_decimal(b.as_slice(), 0, b.len());
                assert(a@.subrange(0, a@.len() as int) =~= a@);
                assert(b@.subrange(0, b@.len() as int) =~= b@);
                match (ms, seq) {
                    (Some(ms), Some(seq)) => Some(IdSpec::Explicit(StreamEntryId { ms, seq })),
                    _ => None,
                }
            }
        },
    }
}

/// Reads a full identifier `ms-seq`.
pub fn parse_explicit_id(s: &[u8]) -> (r: Option<StreamEntryId>)
    ensures
        r == explicit_id(s@),
{
    match split_stream_id(s) {
        None => None,
        Some((a, b)) => {
            let ms = parse_decimal(a.as_slice(), 0, a.len());
            let seq = parse_decimal(b.as_slice(), 0, b.len());
            assert(a@.subrange(0, a@.len() as int) =~= a@);
            assert(b@.subrange(0, b@.len() as int) =~= b@);
            match (ms, seq) {
                (Some(ms), Some(seq)) => Some(StreamEntryId { ms, seq }),
                _ => None,
            }
        },
    }
}

/// The fields of an entry after `name` is set to `value`: an existing field
/// keeps its place and takes the new value, a new one goes last.
pub open spec fn put_field(f: Seq<(Seq<u8>, Seq<u8>)>, name: Seq<u8>, value: Seq<u8>) -> Seq<
    (Seq<u8>, Seq<u8>),
>
    decreases f.len(),
{
    if f.len() == 0 {
        seq![(name, value)]
    } else if f[0].0 == name {
        f.update(0, (name, value))
    } else {
        seq![f[0]] + put_field(f.subrange(1, f.len() as int), name, value)
    }
}

/// The fields that setting each pair of `pairs` in turn gives, from none.
pub open spec fn fields_of(pairs: Seq<(Seq<u8>, Seq<u8>)>) -> Seq<(Seq<u8>, Seq<u8>)>
    decreases pairs.len(),
{
    if pairs.len() == 0 {
        Seq::empty()
    } else {
        put_field(fields_of(pairs.drop_last()), pairs.last().0, pairs.last().1)
    }
}

proof fn lemma_put_field_at(f: Seq<(Seq<u8>, Seq<u8>)>, name: Seq<u8>, value: Seq<u8>, i: int)
    requires
        0 <= i <= f.len(),
        forall|j: int| 0 <= j < i ==> (#[trigger] f[j]).0 != name,
        i < f.len() ==> f[i].0 == name,
    ensures
        put_field(f, name, value) == if i < f.len() {
            f.update(i, (name, value))
        } else {
            f.push((name, value))
        },
    decreases f.len(),
{
    if f.len() == 0 {
        assert(seq![(name, value)] =~= f.push((name, value)));
    } else if i == 0 {
    } else {
        let t = f.subrange(1, f.len() as int);
        assert forall|j: int| 0 <= j < i - 1 implies (#[trigger] t[j]).0 != name by {
            assert(t[j] == f[j + 1]);
        }
        lemma_put_field_at(t, name, value, i - 1);
        if i < f.len() {
            assert(seq![f[0]] + t.update(i - 1, (name, value)) =~= f.update(i, (name, value)));
        } else {
            assert(seq![f[0]] + t.push((name, value)) =~= f.push((name, value)));
        }
    }
}

/// The mathematical form of a field list.
pub open spec fn fields_view(f: Seq<(Vec<u8>, Vec<u8>)>) -> Seq<(Seq<u8>, Seq<u8>)> {
    Seq::new(f.len(), |i: int| (f[i].0@, f[i].1@))
}

/// One entry of a stream: its identifier and its fields, in insertion order.
#[derive(Debug)]
pub struct StreamType {
    stream_id: StreamEntryId,
    collection: Vec<(Vec<u8>, Vec<u8>)>,
}

/// The mathematical form of a stream entry.
pub struct StreamEntryView {
    pub id: StreamEntryId,
    pub fields: Seq<(Seq<u8>, Seq<u8>)>,
}

impl View for StreamType {
    type V = StreamEntryView;

    closed spec fn view(&self) -> StreamEntryView {
        StreamEntryView { id: self.stream_id, fields: fields_view(self.collection@) }
    }
}

impl StreamType {
    /// A new entry with no fields, its identifier read from `stream_id` (`ms-seq`).
    pub fn new_with_stream_id(stream_id: &[u8]) -> (r: Option<StreamType>)
        ensures
            match explicit_id(stream_id@) {
                Some(id) => r is Some && r->0@ == StreamEntryView { id, fields: Seq::empty() },
                None => r is None,
            },
    {
        match parse_explicit_id(stream_id) {
            Some(id) => {
                let r = StreamType::with_id(id);
                Some(r)
            },
            None => None,
        }
    }

    /// A new entry with no fields.
    pub fn with_id(id: StreamEntryId) -> (r: StreamType)
        ensures
            r@ == (StreamEntryView { id, fields: Seq::empty() }),
    {
        let r = StreamType { stream_id: id, collection: Vec::new() };
        assert(fields_view(r.collection@) =~= Seq::<(Seq<u8>, Seq<u8>)>::empty());
        r
    }

    /// An entry with the given identifier and fields.
    pub fn with_fields(id: StreamEntryId, fields: Vec<(Vec<u8>, Vec<u8>)>) -> (r: StreamType)
        ensures
            r@ == (StreamEntryView { id, fields: fields_view(fields@) }),
    {
        StreamType { stream_id: id, collection: fields }
    }

    /// The identifier, as `ms-seq`.
    pub fn get_stream_id(&self) -> (r: Vec<u8>)
        ensures
            r@ == id_text(self@.id),
    {
        self.stream_id.to_text()
    }

    /// The identifier.
    pub fn id(&self) -> (r: StreamEntryId)
        ensures
            r == self@.id,
    {
        self.stream_id
    }

    /// Sets field `key` to `value`.
    pub fn add_to_collection(&mut self, key: &[u8], value: &[u8])
        ensures
            final(self)@ == (StreamEntryView {
                id: old(self)@.id,
                fields: put_field(old(self)@.fields, key@, value@),
            }),
    {
        let ghost f = old(self)@.fields;
        let mut i: usize = 0;
        while i < self.collection.len()
            invariant
                i <= self.collection@.len(),
                *self == *old(self),
                f == fields_view(self.collection@),
                forall|j: int| 0 <= j < i ==> (#[trigger] f[j]).0 != key@,
            decreases self.collection@.len() - i,
        {
            if bytes_equal(self.collection[i].0.as_slice(), key) {
                proof {
                    lemma_put_field_at(f, key@, value@, i as int);
                }
                let k = slice_bytes(key, 0, key.len());
                let v = slice_bytes(value, 0, value.len());
                assert(key@.subrange(0, key@.len() as int) =~= key@);
                assert(value@.subrange(0, value@.len() as int) =~= value@);
                self.collection.set(i, (k, v));
                assert(fields_view(self.collection@) =~= f.update(i as int, (key@, value@)));
                return;
            }
            i = i + 1;
        }
        proof {
            lemma_put_field_at(f, key@, value@, i as int);
        }
        let k = slice_bytes(key, 0, key.len());
        let v = slice_bytes(value, 0, value.len());
        assert(key@.subrange(0, key@.len() as int) =~= key@);
        assert(value@.subrange(0, value@.len() as int) =~= value@);
        self.collection.push((k, v));
        assert(fields_view(self.collection@) =~= f.push((key@, value@)));
    }

    /// The fields, in insertion order.
    pub fn get_collection(&self) -> (r: &Vec<(Vec<u8>, Vec<u8>)>)
        ensures
            fields_view(r@) == self@.fields,
    {
        &self.collection
    }

    /// The fields, taken out of the entry.
    pub fn into_fields(self) -> (r: Vec<(Vec<u8>, Vec<u8>)>)
        ensures
            fields_view(r@) == self@.fields,
    {
        self.collection
    }

    /// A copy of this entry.
    pub fn copy(&self) -> (r: StreamType)
        ensures
            r@ == self@,
    {
        let mut out: Vec<(Vec<u8>, Vec<u8>)> = Vec::new();
        let mut i: usize = 0;
        while i < self.collection.len()
            invariant
                i <= self.collection@.len(),
                out@.len() == i,
                fields_view(out@) == fields_view(self.collection@).subrange(0, i as int),
            decreases self.collection@.len() - i,
        {
            let pair = &self.collection[i];
            let k = copy_bytes(&pair.0);
            let v = copy_bytes(&pair.1);
            let ghost before = out@;
            out.push((k, v));
            proof {
                assert(out@ == before.push((k, v)));
                assert forall|j: int| 0 <= j <= i implies #[trigger] fields_view(out@)[j] == fields_view(self.collection@)[j] by {
                    if j < i {
                        assert(out@[j] == before[j]);
                        assert(fields_view(before)[j] == fields_view(out@)[j]);
                    }
                }
            }
            i = i + 1;
            assert(fields_view(out@) =~= fields_view(self.collection@).subrange(0, i as int));
        }
        assert(fields_view(out@) =~= fields_view(self.collection@));
        StreamType { stream_id: self.stream_id, collection: out }
    }
}

/// The outcome of validating and appending a stream entry.
#[derive(Debug, Clone, Copy, PartialEq, Eq, Structural)]
pub enum StreamEntryValidate {
    /// The entry was appended under this identifier.
    Successfull(StreamEntryId),
    /// The identifier was `0-0`.
    EGreaterThan0_0,
    /// The identifier was not above the stream's last one.
    EIsSmallerOrEqual,
    /// The key holds a value that is not a stream.
    EWrongType,
}

pub open spec fn text_greater_than_zero() -> Seq<char> {
    "ERR The ID specified in XADD must be greater than 0-0"@
}

pub open spec fn text_equal_or_smaller() -> Seq<char> {
    "ERR The ID specified in XADD is equal or smaller than the target stream top item"@
}

pub open spec fn text_wrong_type() -> Seq<char> {
    "WRONGTYPE Operation against a key holding the wrong kind of value"@
}

impl StreamEntryValidate {
    /// The error message of a failed validation, empty on success.
    pub fn as_msg(&self) -> (r: Vec<u8>)
        ensures
            r@ == match self {
                StreamEntryValidate::Successfull(_) => Seq::empty(),
                StreamEntryValidate::EGreaterThan0_0 => ascii_bytes(text_greater_than_zero()),
                StreamEntryValidate::EIsSmallerOrEqual => ascii_bytes(text_equal_or_smaller()),
                StreamEntryValidate::EWrongType => ascii_bytes(text_wrong_type()),
            },
    {
        match self {
            StreamEntryValidate::Successfull(_) => Vec::new(),
            StreamEntryValidate::EGreaterThan0_0 => {
                let s = "ERR The ID specified in XADD must be greater than 0-0";
                proof {
                    reveal_strlit("ERR The ID specified in XADD must be greater than 0-0");
                }
                str_bytes(s)
            },
            StreamEntryValidate::EIsSmallerOrEqual => {
                let s = "ERR The ID specified in XADD is equal or smaller than the target stream top item";
                proof {
                    reveal_strlit("ERR The ID specified in XADD is equal or smaller than the target stream top item");
                }
                str_bytes(s)
            },
            StreamEntryValidate::EWrongType => {
                let s = "WRONGTYPE Operation against a key holding the wrong kind of value";
                proof {
                    reveal_strlit("WRONGTYPE Operation against a key holding the wrong kind of value");
                }
                str_bytes(s)
            },
        }
    }
}

} // verus!
