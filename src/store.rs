//! The storage engine: one key space holding scalar values with optional
//! expiry, and streams of entries with increasing identifiers.

use crate::bytes::{bytes_equal, slice_bytes};
use crate::clock::current_millis;
use crate::stream::{
    fields_view, id_le, id_lt, IdSpec, StreamEntryId, StreamEntryValidate, StreamEntryView,
    StreamType,
};
use vstd::prelude::*;

verus! {

/// What a key holds.
#[derive(Debug)]
pub enum StoreValueType {
    String(Vec<u8>),
    Stream(Vec<StreamType>),
}

impl StoreValueType {
    /// The text of a scalar; empty for a stream.
    pub fn to_string(&self) -> (r: Vec<u8>)
        ensures
            match self {
                StoreValueType::String(v) => r@ == v@,
                StoreValueType::Stream(_) => r@.len() == 0,
            },
    {
        match self {
            StoreValueType::String(v) => slice_bytes(v.as_slice(), 0, v.len()),
            StoreValueType::Stream(_) => Vec::new(),
        }
    }
}

/// One key of the store and what it holds.
#[derive(Debug)]
pub struct KeyEntry {
    key: Vec<u8>,
    value: StoreValueType,
    expires_at: Option<u64>,
}

/// The mathematical form of what a key holds.
pub enum StoredView {
    Scalar { value: Seq<u8>, expires_at: Option<u64> },
    Stream(Seq<StreamEntryView>),
}

/// Why a store operation did not apply.
#[derive(Debug, Clone, Copy, PartialEq, Eq, Structural)]
pub enum StoreError {
    /// The key is absent, or its value has expired.
    NotFound,
    /// The key holds a value of another kind.
    TypeMismatch,
}

/// The kind of value that a key holds.
#[derive(Debug, Clone, Copy, PartialEq, Eq, Structural)]
pub enum KeyType {
    String,
    Stream,
    Absent,
}

pub open spec fn entry_views(es: Seq<StreamType>) -> Seq<StreamEntryView> {
    Seq::new(es.len(), |i: int| es[i]@)
}

spec fn stored_view(e: KeyEntry) -> StoredView {
    match e.value {
        StoreValueType::String(v) => StoredView::Scalar { value: v@, expires_at: e.expires_at },
        StoreValueType::Stream(es) => StoredView::Stream(entry_views(es@)),
    }
}

/// The key space that a list of records describes; a later record of a key
/// stands over an earlier one.
spec fn map_of(s: Seq<KeyEntry>) -> Map<Seq<u8>, StoredView>
    decreases s.len(),
{
    if s.len() == 0 {
        Map::empty()
    } else {
        map_of(s.drop_last()).insert(s.last().key@, stored_view(s.last()))
    }
}

spec fn keys_unique(s: Seq<KeyEntry>) -> bool {
    forall|i: int, j: int|
        0 <= i < s.len() && 0 <= j < s.len() && i != j ==> (#[trigger] s[i]).key@ != (#[trigger] s[j]).key@
}

/// The ids of `es` strictly increase, and each is above `0-0`.
pub open spec fn stream_ok(es: Seq<StreamEntryView>) -> bool {
    &&& forall|i: int, j: int| 0 <= i < j < es.len() ==> id_lt(#[trigger] es[i].id, #[trigger] es[j].id)
    &&& forall|i: int| 0 <= i < es.len() ==> id_lt(StreamEntryId { ms: 0, seq: 0 }, #[trigger] es[i].id)
}

/// Every stream of the key space is in order.
pub open spec fn view_ok(m: Map<Seq<u8>, StoredView>) -> bool {
    forall|k: Seq<u8>| #[trigger] m.contains_key(k) ==> match m[k] {
        StoredView::Stream(es) => stream_ok(es),
        _ => true,
    }
}

/// A value with this expiry is still there at time `now` (milliseconds).
pub open spec fn is_live(expires_at: Option<u64>, now: u64) -> bool {
    match expires_at {
        None => true,
        Some(t) => now <= t,
    }
}

/// The expiry of a value set at `now` with a time to live of `px` milliseconds.
pub open spec fn expiry(px: Option<u64>, now: u64) -> Option<u64> {
    match px {
        None => None,
        Some(ms) => Some(if now + ms > u64::MAX { u64::MAX } else { (now + ms) as u64 }),
    }
}

/// What `GET key` finds at time `now`.
pub open spec fn spec_get(m: Map<Seq<u8>, StoredView>, key: Seq<u8>, now: u64) -> Result<Seq<u8>, StoreError> {
    if !m.contains_key(key) {
        Err(StoreError::NotFound)
    } else {
        match m[key] {
            StoredView::Scalar { value, expires_at } => if is_live(expires_at, now) {
                Ok(value)
            } else {
                Err(StoreError::NotFound)
            },
            StoredView::Stream(_) => Err(StoreError::TypeMismatch),
        }
    }
}

/// The kind of what `key` holds at time `now`.
pub open spec fn spec_key_type(m: Map<Seq<u8>, StoredView>, key: Seq<u8>, now: u64) -> KeyType {
    if !m.contains_key(key) {
        KeyType::Absent
    } else {
        match m[key] {
            StoredView::Scalar { expires_at, .. } => if is_live(expires_at, now) {
                KeyType::String
            } else {
                KeyType::Absent
            },
            StoredView::Stream(_) => KeyType::Stream,
        }
    }
}

/// `key` is there at time `now`.
pub open spec fn is_live_key(m: Map<Seq<u8>, StoredView>, key: Seq<u8>, now: u64) -> bool {
    spec_key_type(m, key, now) != KeyType::Absent
}

/// The key space after storing the scalar `value` at `key` with expiry
/// `expires_at`, or `None` where the key holds a stream.
pub open spec fn spec_put_scalar(
    m: Map<Seq<u8>, StoredView>,
    key: Seq<u8>,
    value: Seq<u8>,
    expires_at: Option<u64>,
) -> Option<Map<Seq<u8>, StoredView>> {
    if m.contains_key(key) && m[key] is Stream {
        None
    } else {
        Some(m.insert(key, StoredView::Scalar { value, expires_at }))
    }
}

/// The key space after `SET key value` at time `now`, or `None` where the key
/// holds a stream.
pub open spec fn spec_set(
    m: Map<Seq<u8>, StoredView>,
    key: Seq<u8>,
    value: Seq<u8>,
    px: Option<u64>,
    now: u64,
) -> Option<Map<Seq<u8>, StoredView>> {
    if m.contains_key(key) && m[key] is Stream {
        None
    } else {
        Some(m.insert(key, StoredView::Scalar { value, expires_at: expiry(px, now) }))
    }
}

/// The entries of the stream at `key` at time `now`: none where the key is
/// absent or its scalar has expired; `None` where it holds a live scalar.
pub open spec fn stream_at(m: Map<Seq<u8>, StoredView>, key: Seq<u8>, now: u64) -> Option<Seq<StreamEntryView>> {
    if !m.contains_key(key) {
        Some(Seq::empty())
    } else {
        match m[key] {
            StoredView::Scalar { expires_at, .. } => if is_live(expires_at, now) {
                None
            } else {
                Some(Seq::empty())
            },
            StoredView::Stream(es) => Some(es),
        }
    }
}

/// The identifier that an id specification gives after `last`, at time `now`;
/// `None` where the sequence number would overflow.
pub open spec fn resolve_id(last: Option<StreamEntryId>, id: IdSpec, now: u64) -> Option<StreamEntryId> {
    let ms = match id {
        IdSpec::Auto => now,
        IdSpec::AutoSeq(ms) => ms,
        IdSpec::Explicit(e) => e.ms,
    };
    match id {
        IdSpec::Explicit(e) => Some(e),
        _ => match last {
            Some(l) => if l.ms == ms {
                if l.seq == u64::MAX {
                    None
                } else {
                    Some(StreamEntryId { ms, seq: (l.seq + 1) as u64 })
                }
            } else {
                Some(StreamEntryId { ms, seq: 0 })
            },
            None => Some(StreamEntryId { ms, seq: 0 }),
        },
    }
}

/// The last identifier of a stream, if it has entries.
pub open spec fn last_id(es: Seq<StreamEntryView>) -> Option<StreamEntryId> {
    if es.len() == 0 {
        None
    } else {
        Some(es.last().id)
    }
}

/// The outcome of appending an entry under `id` after an entry whose
/// identifier is `last` (`None`: the stream is empty).
pub open spec fn outcome_after(last: Option<StreamEntryId>, id: IdSpec, now: u64) -> StreamEntryValidate {
    match resolve_id(last, id, now) {
        None => StreamEntryValidate::EIsSmallerOrEqual,
        Some(new_id) => if new_id == (StreamEntryId { ms: 0, seq: 0 }) {
            StreamEntryValidate::EGreaterThan0_0
        } else if last is Some && !id_lt(last->0, new_id) {
            StreamEntryValidate::EIsSmallerOrEqual
        } else {
            StreamEntryValidate::Successfull(new_id)
        },
    }
}

/// The outcome of appending an entry under `id` to a stream holding `es`.
pub open spec fn append_outcome(es: Seq<StreamEntryView>, id: IdSpec, now: u64) -> StreamEntryValidate {
    outcome_after(last_id(es), id, now)
}

/// The stream at `key` after a successful append of `fields` under `new_id`.
pub open spec fn appended(
    es: Seq<StreamEntryView>,
    new_id: StreamEntryId,
    fields: Seq<(Seq<u8>, Seq<u8>)>,
) -> Seq<StreamEntryView> {
    es.push(StreamEntryView { id: new_id, fields })
}

/// Validates the identifier that `id` gives after `last`.
pub fn validate(last: Option<StreamEntryId>, id: IdSpec, now: u64) -> (r: StreamEntryValidate)
    ensures
        r == outcome_after(last, id, now),
{
    let resolved: Option<StreamEntryId> = match id {
        IdSpec::Explicit(e) => Some(e),
        IdSpec::Auto => gen_new_sequence_number(last, now),
        IdSpec::AutoSeq(ms) => gen_new_sequence_number(last, ms),
    };
    match resolved {
        None => StreamEntryValidate::EIsSmallerOrEqual,
        Some(new_id) => {
            if new_id.ms == 0 && new_id.seq == 0 {
                StreamEntryValidate::EGreaterThan0_0
            } else {
                match last {
                    Some(l) => {
                        if l.less_than(&new_id) {
                            StreamEntryValidate::Successfull(new_id)
                        } else {
                            StreamEntryValidate::EIsSmallerOrEqual
                        }
                    },
                    None => StreamEntryValidate::Successfull(new_id),
                }
            }
        },
    }
}

/// The identifier with milliseconds `ms` whose sequence number follows `last`.
pub fn gen_new_sequence_number(last: Option<StreamEntryId>, ms: u64) -> (r: Option<StreamEntryId>)
    ensures
        r == resolve_id(last, IdSpec::AutoSeq(ms), 0),
{
    match last {
        Some(l) => {
            if l.ms == ms {
                if l.seq == u64::MAX {
                    None
                } else {
                    Some(StreamEntryId { ms, seq: l.seq + 1 })
                }
            } else {
                Some(StreamEntryId { ms, seq: 0 })
            }
        },
        None => Some(StreamEntryId { ms, seq: 0 }),
    }
}

pub open spec fn range_pred(start: StreamEntryId, end: StreamEntryId) -> spec_fn(StreamEntryView) -> bool {
    |e: StreamEntryView| id_le(start, e.id) && id_le(e.id, end)
}

pub open spec fn after_pred(after: StreamEntryId) -> spec_fn(StreamEntryView) -> bool {
    |e: StreamEntryView| id_lt(after, e.id)
}

/// The entries of `es` with `start <= id <= end`.
pub open spec fn in_range(es: Seq<StreamEntryView>, start: StreamEntryId, end: StreamEntryId) -> Seq<StreamEntryView> {
    es.filter(range_pred(start, end))
}

/// The entries of `es` with an id above `after`.
pub open spec fn after_id(es: Seq<StreamEntryView>, after: StreamEntryId) -> Seq<StreamEntryView> {
    es.filter(after_pred(after))
}

proof fn lemma_map_push(s: Seq<KeyEntry>, e: KeyEntry)
    ensures
        map_of(s.push(e)) == map_of(s).insert(e.key@, stored_view(e)),
{
    assert(s.push(e).drop_last() =~= s);
}

proof fn lemma_map_absent(s: Seq<KeyEntry>, k: Seq<u8>)
    requires
        forall|j: int| 0 <= j < s.len() ==> (#[trigger] s[j]).key@ != k,
    ensures
        !map_of(s).contains_key(k),
    decreases s.len(),
{
    if s.len() > 0 {
        let t = s.drop_last();
        assert forall|j: int| 0 <= j < t.len() implies (#[trigger] t[j]).key@ != k by {
            assert(t[j] == s[j]);
        }
        lemma_map_absent(t, k);
        assert(s.last() == s[s.len() - 1]);
    }
}

proof fn lemma_map_at(s: Seq<KeyEntry>, r: int)
    requires
        keys_unique(s),
        0 <= r < s.len(),
    ensures
        map_of(s).contains_key(s[r].key@),
        map_of(s)[s[r].key@] == stored_view(s[r]),
    decreases s.len(),
{
    let t = s.drop_last();
    if r < s.len() - 1 {
        assert(keys_unique(t)) by {
            assert forall|i: int, j: int| 0 <= i < t.len() && 0 <= j < t.len() && i != j implies (#[trigger] t[i]).key@ != (#[trigger] t[j]).key@ by {
                assert(t[i] == s[i] && t[j] == s[j]);
            }
        }
        lemma_map_at(t, r);
        assert(t[r] == s[r]);
        assert(s[r].key@ != s[s.len() - 1].key@);
    }
}

proof fn lemma_map_update(s: Seq<KeyEntry>, r: int, e: KeyEntry)
    requires
        keys_unique(s),
        0 <= r < s.len(),
        e.key@ == s[r].key@,
    ensures
        map_of(s.update(r, e)) == map_of(s).insert(e.key@, stored_view(e)),
        keys_unique(s.update(r, e)),
    decreases s.len(),
{
    let u = s.update(r, e);
    let t = s.drop_last();
    assert(keys_unique(u)) by {
        assert forall|i: int, j: int| 0 <= i < u.len() && 0 <= j < u.len() && i != j implies (#[trigger] u[i]).key@ != (#[trigger] u[j]).key@ by {
            assert(s[i].key@ != s[j].key@);
        }
    }
    if r == s.len() - 1 {
        assert(u.drop_last() =~= t);
    } else {
        assert(keys_unique(t)) by {
            assert forall|i: int, j: int| 0 <= i < t.len() && 0 <= j < t.len() && i != j implies (#[trigger] t[i]).key@ != (#[trigger] t[j]).key@ by {
                assert(t[i] == s[i] && t[j] == s[j]);
            }
        }
        lemma_map_update(t, r, e);
        assert(u.drop_last() =~= t.update(r, e));
        assert(s.last().key@ != e.key@) by {
            assert(s[s.len() - 1].key@ != s[r].key@);
        }
        assert(map_of(u) =~= map_of(s).insert(e.key@, stored_view(e)));
    }
}

/// The key space: scalars and streams under one namespace.
pub struct Store {
    entries: Vec<KeyEntry>,
}

impl View for Store {
    type V = Map<Seq<u8>, StoredView>;

    closed spec fn view(&self) -> Map<Seq<u8>, StoredView> {
        map_of(self.entries@)
    }
}

impl Store {
    /// The invariant: one record per key, and every stream in order.
    pub closed spec fn wf(&self) -> bool {
        &&& keys_unique(self.entries@)
        &&& view_ok(self@)
    }

    /// The invariant says that every stream is in order.
    pub proof fn lemma_wf_view(&self)
        requires
            self.wf(),
        ensures
            view_ok(self@),
    {
    }

    /// An empty store.
    pub fn new() -> (r: Store)
        ensures
            r.wf(),
            r@ == Map::<Seq<u8>, StoredView>::empty(),
    {
        Store { entries: Vec::new() }
    }

    /// The position of the record of `key`.
    fn find(&self, key: &[u8]) -> (r: Option<usize>)
        requires
            self.wf(),
        ensures
            match r {
                Some(i) => i < self.entries@.len() && self.entries@[i as int].key@ == key@
                    && self@.contains_key(key@)
                    && self@[key@] == stored_view(self.entries@[i as int]),
                None => !self@.contains_key(key@),
            },
    {
        let mut i: usize = 0;
        while i < self.entries.len()
            invariant
                self.wf(),
                i <= self.entries@.len(),
                forall|j: int| 0 <= j < i ==> (#[trigger] self.entries@[j]).key@ != key@,
            decreases self.entries@.len() - i,
        {
            if bytes_equal(self.entries[i].key.as_slice(), key) {
                proof {
                    lemma_map_at(self.entries@, i as int);
                }
                return Some(i);
            }
            i = i + 1;
        }
        proof {
            lemma_map_absent(self.entries@, key@);
        }
        None
    }

    /// Puts `e` in place of the record of its key, or adds it where the key is new.
    fn put_entry(&mut self, e: KeyEntry, at: Option<usize>)
        requires
            keys_unique(old(self).entries@),
            match at {
                Some(i) => i < old(self).entries@.len() && old(self).entries@[i as int].key@ == e.key@,
                None => !old(self)@.contains_key(e.key@),
            },
        ensures
            keys_unique(final(self).entries@),
            final(self)@ == old(self)@.insert(e.key@, stored_view(e)),
    {
        let ghost k = e.key@;
        let ghost sv = stored_view(e);
        match at {
            Some(i) => {
                proof {
                    lemma_map_update(self.entries@, i as int, e);
                }
                self.entries.set(i, e);
            },
            None => {
                proof {
                    lemma_map_push(self.entries@, e);
                    assert forall|j: int| 0 <= j < self.entries@.len() implies (#[trigger] self.entries@[j]).key@ != k by {
                        if self.entries@[j].key@ == k {
                            lemma_map_at(self.entries@, j);
                        }
                    }
                }
                self.entries.push(e);
                proof {
                    let s = self.entries@;
                    assert forall|i: int, j: int| 0 <= i < s.len() && 0 <= j < s.len() && i != j implies (#[trigger] s[i]).key@ != (#[trigger] s[j]).key@ by {
                        if i < s.len() - 1 && j < s.len() - 1 {
                            assert(s[i] == old(self).entries@[i] && s[j] == old(self).entries@[j]);
                        } else if i < s.len() - 1 {
                            assert(s[i] == old(self).entries@[i]);
                        } else {
                            assert(s[j] == old(self).entries@[j]);
                        }
                    }
                }
            },
        }
    }

    /// Stores the scalar `value` at `key` with expiry `expires_at`; a key holding
    /// a stream is left alone.
    pub fn put_scalar(&mut self, key: &[u8], value: &[u8], expires_at: Option<u64>) -> (r: Result<(), StoreError>)
        requires
            old(self).wf(),
        ensures
            final(self).wf(),
            match spec_put_scalar(old(self)@, key@, value@, expires_at) {
                None => r == Err::<(), StoreError>(StoreError::TypeMismatch) && final(self)@ == old(self)@,
                Some(m) => r == Ok::<(), StoreError>(()) && final(self)@ == m,
            },
    {
        let at = self.find(key);
        if let Some(i) = at {
            if let StoreValueType::Stream(_) = &self.entries[i].value {
                return Err(StoreError::TypeMismatch);
            }
        }
        let k = slice_bytes(key, 0, key.len());
        let v = slice_bytes(value, 0, value.len());
        assert(key@.subrange(0, key@.len() as int) =~= key@);
        assert(value@.subrange(0, value@.len() as int) =~= value@);
        let e = KeyEntry { key: k, value: StoreValueType::String(v), expires_at };
        let ghost old_view = self@;
        self.put_entry(e, at);
        proof {
            let m = self@;
            assert forall|k2: Seq<u8>| #[trigger] m.contains_key(k2) implies match m[k2] {
                StoredView::Stream(es) => stream_ok(es),
                _ => true,
            } by {
                if k2 != key@ {
                    assert(old_view.contains_key(k2));
                }
            }
        }
        Ok(())
    }

    /// `SET key value [PX px]` at time `now` (milliseconds); a key holding a
    /// stream is left alone.
    pub fn set_value_at(&mut self, key: &[u8], value: &[u8], px: Option<u64>, now: u64) -> (r: Result<(), StoreError>)
        requires
            old(self).wf(),
        ensures
            final(self).wf(),
            match spec_set(old(self)@, key@, value@, px, now) {
                None => r == Err::<(), StoreError>(StoreError::TypeMismatch) && final(self)@ == old(self)@,
                Some(m) => r == Ok::<(), StoreError>(()) && final(self)@ == m,
            },
    {
        let exp: Option<u64> = match px {
            None => None,
            Some(ms) => Some(now.saturating_add(ms)),
        };
        self.put_scalar(key, value, exp)
    }

    /// `GET key` at time `now`.
    pub fn get_value_at(&self, key: &[u8], now: u64) -> (r: Result<Vec<u8>, StoreError>)
        requires
            self.wf(),
        ensures
            match (r, spec_get(self@, key@, now)) {
                (Ok(v), Ok(w)) => v@ == w,
                (Err(e), Err(f)) => e == f,
                _ => false,
            },
    {
        match self.find(key) {
            None => Err(StoreError::NotFound),
            Some(i) => {
                let e = &self.entries[i];
                match &e.value {
                    StoreValueType::String(v) => {
                        let live = match e.expires_at {
                            None => true,
                            Some(t) => now <= t,
                        };
                        if live {
                            Ok(slice_bytes(v.as_slice(), 0, v.len()))
                        } else {
                            Err(StoreError::NotFound)
                        }
                    },
                    StoreValueType::Stream(_) => Err(StoreError::TypeMismatch),
                }
            },
        }
    }

    /// `TYPE key` at time `now`.
    pub fn key_type_at(&self, key: &[u8], now: u64) -> (r: KeyType)
        requires
            self.wf(),
        ensures
            r == spec_key_type(self@, key@, now),
    {
        match self.find(key) {
            None => KeyType::Absent,
            Some(i) => {
                let e = &self.entries[i];
                match &e.value {
                    StoreValueType::String(_) => {
                        let live = match e.expires_at {
                            None => true,
                            Some(t) => now <= t,
                        };
                        if live {
                            KeyType::String
                        } else {
                            KeyType::Absent
                        }
                    },
                    StoreValueType::Stream(_) => KeyType::Stream,
                }
            },
        }
    }

    /// `KEYS *` at time `now`: every key that is there, once each.
    pub fn keys_at(&self, now: u64) -> (r: Vec<Vec<u8>>)
        requires
            self.wf(),
        ensures
            forall|k: Seq<u8>| is_live_key(self@, k, now) <==> exists|i: int| 0 <= i < r@.len() && (#[trigger] r@[i])@ == k,
            forall|i: int, j: int| 0 <= i < r@.len() && 0 <= j < r@.len() && i != j ==> (#[trigger] r@[i])@ != (#[trigger] r@[j])@,
    {
        let mut out: Vec<Vec<u8>> = Vec::new();
        let mut i: usize = 0;
        let ghost src: Seq<int> = Seq::empty();
        while i < self.entries.len()
            invariant
                self.wf(),
                i <= self.entries@.len(),
                src.len() == out@.len(),
                forall|j: int| 0 <= j < out@.len() ==> 0 <= #[trigger] src[j] < i && out@[j]@ == self.entries@[src[j]].key@,
                forall|a: int, b: int| 0 <= a < b < src.len() ==> #[trigger] src[a] < #[trigger] src[b],
                forall|j: int| 0 <= j < i ==> (is_live_key(self@, (#[trigger] self.entries@[j]).key@, now) <==> exists|t: int| 0 <= t < src.len() && src[t] == j),
            decreases self.entries@.len() - i,
        {
            let e = &self.entries[i];
            proof {
                lemma_map_at(self.entries@, i as int);
            }
            let live = match &e.value {
                StoreValueType::String(_) => match e.expires_at {
                    None => true,
                    Some(t) => now <= t,
                },
                StoreValueType::Stream(_) => true,
            };
            let ghost old_src = src;
            if live {
                out.push(slice_bytes(e.key.as_slice(), 0, e.key.len()));
                proof {
                    assert(e.key@.subrange(0, e.key@.len() as int) =~= e.key@);
                    src = src.push(i as int);
                }
            }
            proof {
                assert(live == is_live_key(self@, self.entries@[i as int].key@, now));
                assert forall|j: int| 0 <= j < i + 1 implies (is_live_key(self@, (#[trigger] self.entries@[j]).key@, now) <==> exists|t: int| 0 <= t < src.len() && src[t] == j) by {
                    if j < i {
                        if exists|t: int| 0 <= t < old_src.len() && old_src[t] == j {
                            let t = choose|t: int| 0 <= t < old_src.len() && old_src[t] == j;
                            assert(src[t] == j);
                        }
                        if exists|t: int| 0 <= t < src.len() && src[t] == j {
                            let t = choose|t: int| 0 <= t < src.len() && src[t] == j;
                            assert(t < old_src.len());
                            assert(old_src[t] == j);
                        }
                    } else {
                        if live {
                            assert(src[src.len() - 1] == j);
                        } else {
                            assert(src == old_src);
                        }
                    }
                }
            }
            i = i + 1;
        }
        proof {
            let s = self.entries@;
            assert forall|k: Seq<u8>| is_live_key(self@, k, now) implies exists|t: int| 0 <= t < out@.len() && (#[trigger] out@[t])@ == k by {
                if forall|j: int| 0 <= j < s.len() ==> (#[trigger] s[j]).key@ != k {
                    lemma_map_absent(s, k);
                }
                let j = choose|j: int| 0 <= j < s.len() && (#[trigger] s[j]).key@ == k;
                let t = choose|t: int| 0 <= t < src.len() && src[t] == j;
                assert(out@[t]@ == k);
            }
            assert forall|k: Seq<u8>| (exists|t: int| 0 <= t < out@.len() && (#[trigger] out@[t])@ == k) implies is_live_key(self@, k, now) by {
                let t = choose|t: int| 0 <= t < out@.len() && (#[trigger] out@[t])@ == k;
                let j = src[t];
                assert(exists|t2: int| 0 <= t2 < src.len() && src[t2] == j);
            }
            assert forall|a: int, b: int| 0 <= a < out@.len() && 0 <= b < out@.len() && a != b implies (#[trigger] out@[a])@ != (#[trigger] out@[b])@ by {
                if a < b {
                    assert(src[a] < src[b]);
                } else {
                    assert(src[b] < src[a]);
                }
                assert(s[src[a]].key@ != s[src[b]].key@);
            }
        }
        out
    }

    /// The stored entries of the stream at `key`, or `None` where the key is
    /// absent or holds a scalar.
    fn stream_entries(&self, key: &[u8]) -> (r: Option<&Vec<StreamType>>)
        requires
            self.wf(),
        ensures
            match r {
                Some(v) => self@.contains_key(key@) && self@[key@] == StoredView::Stream(entry_views(v@)),
                None => !self@.contains_key(key@) || self@[key@] is Scalar,
            },
    {
        match self.find(key) {
            None => None,
            Some(i) => {
                let e = &self.entries[i];
                match &e.value {
                    StoreValueType::String(_) => None,
                    StoreValueType::Stream(es) => Some(es),
                }
            },
        }
    }

    /// Whether `key` holds a live scalar at time `now`.
    fn holds_live_scalar(&self, key: &[u8], now: u64) -> (r: bool)
        requires
            self.wf(),
        ensures
            r == (stream_at(self@, key@, now) is None),
    {
        match self.key_type_at(key, now) {
            KeyType::String => true,
            _ => false,
        }
    }

    /// `XADD key id field value ...` at time `now` (milliseconds): appends an
    /// entry with `fields` where the identifier that `id` gives is above the
    /// stream's last one and above `0-0`.
    pub fn add_stream_at(
        &mut self,
        key: &[u8],
        id: IdSpec,
        fields: Vec<(Vec<u8>, Vec<u8>)>,
        now: u64,
    ) -> (r: StreamEntryValidate)
        requires
            old(self).wf(),
        ensures
            final(self).wf(),
            match stream_at(old(self)@, key@, now) {
                None => r == StreamEntryValidate::EWrongType && final(self)@ == old(self)@,
                Some(es) => r == append_outcome(es, id, now) && match r {
                    StreamEntryValidate::Successfull(new_id) => final(self)@ == old(self)@.insert(
                        key@,
                        StoredView::Stream(appended(es, new_id, fields_view(fields@))),
                    ),
                    _ => final(self)@ == old(self)@,
                },
            },
    {
        if self.holds_live_scalar(key, now) {
            return StreamEntryValidate::EWrongType;
        }
        let last: Option<StreamEntryId> = match self.stream_entries(key) {
            Some(v) => {
                if v.len() == 0 {
                    None
                } else {
                    Some(v[v.len() - 1].id())
                }
            },
            None => None,
        };
        let ghost es = stream_at(self@, key@, now)->0;
        proof {
            if es.len() > 0 {
                assert(es.last() == es[es.len() - 1]);
            }
        }
        let outcome = validate(last, id, now);
        let new_id = match outcome {
            StreamEntryValidate::Successfull(new_id) => new_id,
            _ => {
                return outcome;
            },
        };
        let ghost fv = fields_view(fields@);
        let entry = StreamType::with_fields(new_id, fields);
        let ghost new_es = appended(es, new_id, fv);
        let at = self.find(key);
        let mut list: Vec<StreamType> = Vec::new();
        match at {
            Some(i) => {
                let mut slot = KeyEntry {
                    key: slice_bytes(key, 0, key.len()),
                    value: StoreValueType::String(Vec::new()),
                    expires_at: None,
                };
                assert(key@.subrange(0, key@.len() as int) =~= key@);
                proof {
                    lemma_map_update(self.entries@, i as int, slot);
                }
                self.entries.set_and_swap(i, &mut slot);
                let KeyEntry { key: _, value, expires_at: _ } = slot;
                match value {
                    StoreValueType::Stream(v) => {
                        list = v;
                    },
                    StoreValueType::String(_) => {},
                }
                proof {
                    assert(entry_views(list@) == es);
                }
            },
            None => {
                assert(entry_views(list@) =~= es);
            },
        }
        let ghost before = list@;
        list.push(entry);
        assert(entry_views(list@) =~= new_es) by {
            assert(list@ == before.push(entry));
        }
        let k = slice_bytes(key, 0, key.len());
        assert(key@.subrange(0, key@.len() as int) =~= key@);
        let e = KeyEntry { key: k, value: StoreValueType::Stream(list), expires_at: None };
        let ghost old_view = old(self)@;
        self.put_entry(e, at);
        proof {
            let m = self@;
            assert(m =~= old_view.insert(key@, StoredView::Stream(new_es)));
            assert(stream_ok(new_es)) by {
                assert forall|a: int, b: int| 0 <= a < b < new_es.len() implies id_lt(#[trigger] new_es[a].id, #[trigger] new_es[b].id) by {
                    if b == new_es.len() - 1 && a < es.len() {
                        assert(es.last() == es[es.len() - 1]);
                        if a < es.len() - 1 {
                            assert(id_lt(es[a].id, es[es.len() - 1].id));
                        }
                    }
                }
            }
            assert forall|k2: Seq<u8>| #[trigger] m.contains_key(k2) implies match m[k2] {
                StoredView::Stream(s2) => stream_ok(s2),
                _ => true,
            } by {
                if k2 != key@ {
                    assert(old_view.contains_key(k2));
                }
            }
        }
        outcome
    }

    /// `XRANGE key start end` at time `now`: the entries with `start <= id <= end`,
    /// in order.
    pub fn get_streams_in_range(&self, key: &[u8], start: StreamEntryId, end: StreamEntryId, now: u64) -> (r: Result<Vec<StreamType>, StoreError>)
        requires
            self.wf(),
        ensures
            match (r, stream_at(self@, key@, now)) {
                (Ok(v), Some(es)) => entry_views(v@) == in_range(es, start, end),
                (Err(e), None) => e == StoreError::TypeMismatch,
                _ => false,
            },
    {
        let src = match self.stream_entries(key) {
            Some(v) => v,
            None => {
                if self.holds_live_scalar(key, now) {
                    return Err(StoreError::TypeMismatch);
                }
                assert(stream_at(self@, key@, now) == Some(Seq::<StreamEntryView>::empty()));
                let out: Vec<StreamType> = Vec::new();
                assert(entry_views(out@) =~= in_range(Seq::empty(), start, end)) by {
                    reveal(Seq::filter);
                }
                return Ok(out);
            },
        };
        let ghost es = entry_views(src@);
        let ghost pred = range_pred(start, end);
        let mut out: Vec<StreamType> = Vec::new();
        let mut i: usize = 0;
        assert(es.subrange(0, 0).filter(pred) =~= Seq::<StreamEntryView>::empty()) by {
            reveal(Seq::filter);
        }
        while i < src.len()
            invariant
                i <= src@.len(),
                es == entry_views(src@),
                pred == range_pred(start, end),
                entry_views(out@) == es.subrange(0, i as int).filter(pred),
            decreases src@.len() - i,
        {
            let e = &src[i];
            let eid = e.id();
            let keep = !eid.less_than(&start) && !end.less_than(&eid);
            proof {
                es.subrange(0, i as int).lemma_filter_push(es[i as int], pred);
                assert(es.subrange(0, i + 1) =~= es.subrange(0, i as int).push(es[i as int]));
                assert(keep == pred(es[i as int]));
            }
            if keep {
                let ghost before = out@;
                out.push(e.copy());
                assert(entry_views(out@) =~= entry_views(before).push(es[i as int]));
            }
            i = i + 1;
        }
        assert(es.subrange(0, i as int) =~= es);
        Ok(out)
    }

    /// `XREAD ... key after` at time `now`: the entries with an id above `after`,
    /// in order.
    pub fn get_streams_from_start(&self, key: &[u8], after: StreamEntryId, now: u64) -> (r: Result<Vec<StreamType>, StoreError>)
        requires
            self.wf(),
        ensures
            match (r, stream_at(self@, key@, now)) {
                (Ok(v), Some(es)) => entry_views(v@) == after_id(es, after),
                (Err(e), None) => e == StoreError::TypeMismatch,
                _ => false,
            },
    {
        let src = match self.stream_entries(key) {
            Some(v) => v,
            None => {
                if self.holds_live_scalar(key, now) {
                    return Err(StoreError::TypeMismatch);
                }
                let out: Vec<StreamType> = Vec::new();
                assert(entry_views(out@) =~= after_id(Seq::empty(), after)) by {
                    reveal(Seq::filter);
                }
                return Ok(out);
            },
        };
        let ghost es = entry_views(src@);
        let ghost pred = after_pred(after);
        let mut out: Vec<StreamType> = Vec::new();
        let mut i: usize = 0;
        assert(es.subrange(0, 0).filter(pred) =~= Seq::<StreamEntryView>::empty()) by {
            reveal(Seq::filter);
        }
        while i < src.len()
            invariant
                i <= src@.len(),
                es == entry_views(src@),
                pred == after_pred(after),
                entry_views(out@) == es.subrange(0, i as int).filter(pred),
            decreases src@.len() - i,
        {
            let e = &src[i];
            let eid = e.id();
            let keep = after.less_than(&eid);
            proof {
                es.subrange(0, i as int).lemma_filter_push(es[i as int], pred);
                assert(es.subrange(0, i + 1) =~= es.subrange(0, i as int).push(es[i as int]));
            }
            if keep {
                let ghost before = out@;
                out.push(e.copy());
                assert(entry_views(out@) =~= entry_views(before).push(es[i as int]));
            }
            i = i + 1;
        }
        assert(es.subrange(0, i as int) =~= es);
        Ok(out)
    }

    /// Whether `key` holds a stream.
    pub fn check_stream_key_exist(&self, key: &[u8]) -> (r: bool)
        requires
            self.wf(),
        ensures
            r == (self@.contains_key(key@) && self@[key@] is Stream),
    {
        match self.stream_entries(key) {
            Some(_) => true,
            None => false,
        }
    }

    /// `SET key value [PX px]` at the current time.
    pub fn set_value(&mut self, key: &[u8], value: &[u8], px: Option<u64>) -> (r: Result<(), StoreError>)
        requires
            old(self).wf(),
        ensures
            final(self).wf(),
            exists|now: u64| match #[trigger] spec_set(old(self)@, key@, value@, px, now) {
                None => r == Err::<(), StoreError>(StoreError::TypeMismatch) && final(self)@ == old(self)@,
                Some(m) => r == Ok::<(), StoreError>(()) && final(self)@ == m,
            },
    {
        let now = current_millis();
        self.set_value_at(key, value, px, now)
    }

    /// `GET key` at the current time.
    pub fn get_value(&self, key: &[u8]) -> (r: Result<Vec<u8>, StoreError>)
        requires
            self.wf(),
        ensures
            exists|now: u64| match (r, #[trigger] spec_get(self@, key@, now)) {
                (Ok(v), Ok(w)) => v@ == w,
                (Err(e), Err(f)) => e == f,
                _ => false,
            },
    {
        let now = current_millis();
        self.get_value_at(key, now)
    }

    /// `XADD` at the current time.
    pub fn add_stream(&mut self, key: &[u8], id: IdSpec, fields: Vec<(Vec<u8>, Vec<u8>)>) -> (r: StreamEntryValidate)
        requires
            old(self).wf(),
        ensures
            final(self).wf(),
            exists|now: u64| match #[trigger] stream_at(old(self)@, key@, now) {
                None => r == StreamEntryValidate::EWrongType && final(self)@ == old(self)@,
                Some(es) => r == append_outcome(es, id, now) && match r {
                    StreamEntryValidate::Successfull(new_id) => final(self)@ == old(self)@.insert(
                        key@,
                        StoredView::Stream(appended(es, new_id, fields_view(fields@))),
                    ),
                    _ => final(self)@ == old(self)@,
                },
            },
    {
        let now = current_millis();
        self.add_stream_at(key, id, fields, now)
    }
}

} // verus!
