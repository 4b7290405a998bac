//! Leader/follower replication: the node's role and replication state, the
//! follower's side of the handshake, and the framing of the snapshot.

use crate::bytes::{ascii_bytes, copy_bytes, push_bytes, str_bytes};
use crate::decimal::{digits_of, push_decimal};
use crate::decimal::{decimal_field, parse_decimal};
use crate::resp::{crlf, find_crlf, read_until_crlf, RespError, Value, ValueView};
use crate::bytes::slice_bytes;
use vstd::prelude::*;

verus! {

/// The role of this node, fixed at start.
#[derive(Debug, Clone, Copy, PartialEq, Eq, Structural)]
pub enum Role {
    Master,
    Slave,
}

impl Role {
    /// The role's name as `INFO` reports it.
    pub fn to_string(&self) -> (r: Vec<u8>)
        ensures
            r@ == role_name(*self),
    {
        match self {
            Role::Master => {
                proof {
                    reveal_strlit("master");
                }
                str_bytes("master")
            },
            Role::Slave => {
                proof {
                    reveal_strlit("slave");
                }
                str_bytes("slave")
            },
        }
    }
}

pub open spec fn role_name(r: Role) -> Seq<u8> {
    match r {
        Role::Master => ascii_bytes("master"@),
        Role::Slave => ascii_bytes("slave"@),
    }
}

/// The mathematical form of the replication state.
pub struct ReplicationView {
    pub role: Role,
    pub master_replid: Seq<u8>,
    pub master_repl_offset: u64,
    /// The connections registered as followers, in order of registration.
    pub followers: Seq<u64>,
}

/// The replication state of this node.
pub struct Replication {
    role: Role,
    master_replid: Vec<u8>,
    master_repl_offset: u64,
    replication_handlers: Vec<u64>,
}

impl View for Replication {
    type V = ReplicationView;

    closed spec fn view(&self) -> ReplicationView {
        ReplicationView {
            role: self.role,
            master_replid: self.master_replid@,
            master_repl_offset: self.master_repl_offset,
            followers: self.replication_handlers@,
        }
    }
}

/// The replication id of this node.
pub open spec fn default_replid() -> Seq<u8> {
    ascii_bytes("8371b4fb1155b71f4a04d3e1bc3e18c4a990aeeb"@)
}

/// What `INFO replication` reports.
pub open spec fn info_text(v: ReplicationView) -> Seq<u8> {
    ascii_bytes("role:"@) + role_name(v.role) + crlf() + ascii_bytes("master_replid:"@) + v.master_replid
        + crlf() + ascii_bytes("master_repl_offset:"@) + digits_of(v.master_repl_offset as nat)
}

/// The reply to `PSYNC`: `FULLRESYNC <replid> <offset>`.
pub open spec fn full_resync_text(v: ReplicationView) -> Seq<u8> {
    ascii_bytes("FULLRESYNC "@) + v.master_replid + seq![32u8] + digits_of(v.master_repl_offset as nat)
}

impl Replication {
    /// A leader with offset 0 and no follower.
    pub fn new() -> (r: Replication)
        ensures
            r@ == (ReplicationView {
                role: Role::Master,
                master_replid: default_replid(),
                master_repl_offset: 0,
                followers: Seq::empty(),
            }),
    {
        proof {
            reveal_strlit("8371b4fb1155b71f4a04d3e1bc3e18c4a990aeeb");
        }
        Replication {
            role: Role::Master,
            master_replid: str_bytes("8371b4fb1155b71f4a04d3e1bc3e18c4a990aeeb"),
            master_repl_offset: 0,
            replication_handlers: Vec::new(),
        }
    }

    /// Sets the role.
    pub fn set_role(&mut self, role: Role)
        ensures
            final(self)@ == (ReplicationView { role, ..old(self)@ }),
    {
        self.role = role;
    }

    /// The role.
    pub fn role(&self) -> (r: Role)
        ensures
            r == self@.role,
    {
        self.role
    }

    /// The replication offset.
    pub fn offset(&self) -> (r: u64)
        ensures
            r == self@.master_repl_offset,
    {
        self.master_repl_offset
    }

    /// Counts `n` more bytes of replicated commands; the offset never decreases.
    pub fn advance_offset(&mut self, n: u64)
        ensures
            final(self)@ == (ReplicationView {
                master_repl_offset: old(self)@.master_repl_offset.saturating_add(n),
                ..old(self)@
            }),
    {
        self.master_repl_offset = self.master_repl_offset.saturating_add(n);
    }

    /// What `INFO replication` replies.
    pub fn display_to_value(&self) -> (r: Value)
        ensures
            r@ == ValueView::BulkString(info_text(self@)),
    {
        let mut out: Vec<u8> = Vec::new();
        proof {
            reveal_strlit("role:");
            reveal_strlit("master_replid:");
            reveal_strlit("master_repl_offset:");
        }
        push_bytes(&mut out, &str_bytes("role:"));
        push_bytes(&mut out, &self.role.to_string());
        out.push(13);
        out.push(10);
        push_bytes(&mut out, &str_bytes("master_replid:"));
        push_bytes(&mut out, &self.master_replid);
        out.push(13);
        out.push(10);
        push_bytes(&mut out, &str_bytes("master_repl_offset:"));
        push_decimal(&mut out, self.master_repl_offset);
        assert(out@ =~= info_text(self@));
        Value::BulkString(out)
    }

    /// The replication id.
    pub fn get_master_replid(&self) -> (r: Vec<u8>)
        ensures
            r@ == self@.master_replid,
    {
        copy_bytes(&self.master_replid)
    }

    /// What `PSYNC` replies: `+FULLRESYNC <replid> <offset>`.
    pub fn full_resync(&self) -> (r: Value)
        ensures
            r@ == ValueView::SimpleString(full_resync_text(self@)),
    {
        let mut out: Vec<u8> = Vec::new();
        proof {
            reveal_strlit("FULLRESYNC ");
        }
        push_bytes(&mut out, &str_bytes("FULLRESYNC "));
        push_bytes(&mut out, &self.master_replid);
        out.push(32);
        push_decimal(&mut out, self.master_repl_offset);
        assert(out@ =~= full_resync_text(self@));
        Value::SimpleString(out)
    }

    /// Registers connection `id` as a follower, once: a connection already
    /// registered stays registered once. Returns whether it was new.
    pub fn add_repl_handler(&mut self, id: u64) -> (r: bool)
        ensures
            r == !old(self)@.followers.contains(id),
            final(self)@ == (ReplicationView {
                followers: if r { old(self)@.followers.push(id) } else { old(self)@.followers },
                ..old(self)@
            }),
    {
        let mut i: usize = 0;
        while i < self.replication_handlers.len()
            invariant
                i <= self.replication_handlers@.len(),
                *self == *old(self),
                forall|j: int| 0 <= j < i ==> self.replication_handlers@[j] != id,
            decreases self.replication_handlers@.len() - i,
        {
            if self.replication_handlers[i] == id {
                assert(self.replication_handlers@[i as int] == id);
                return false;
            }
            i = i + 1;
        }
        self.replication_handlers.push(id);
        true
    }

    /// Drops connection `id` from the followers, where writing to it failed.
    pub fn remove_repl_handler(&mut self, id: u64)
        ensures
            final(self)@ == (ReplicationView {
                followers: old(self)@.followers.filter(|f: u64| f != id),
                ..old(self)@
            }),
    {
        let ghost pred = |f: u64| f != id;
        let mut kept: Vec<u64> = Vec::new();
        let mut i: usize = 0;
        let ghost src = self.replication_handlers@;
        assert(src.subrange(0, 0).filter(pred) =~= Seq::<u64>::empty()) by {
            reveal(Seq::filter);
        }
        while i < self.replication_handlers.len()
            invariant
                i <= src.len(),
                src == self.replication_handlers@,
                pred == (|f: u64| f != id),
                kept@ == src.subrange(0, i as int).filter(pred),
            decreases src.len() - i,
        {
            let f = self.replication_handlers[i];
            proof {
                src.subrange(0, i as int).lemma_filter_push(f, pred);
                assert(src.subrange(0, i + 1) =~= src.subrange(0, i as int).push(f));
            }
            if f != id {
                kept.push(f);
            }
            i = i + 1;
        }
        assert(src.subrange(0, i as int) =~= src);
        self.replication_handlers = kept;
    }

    /// The registered followers, in order of registration.
    pub fn followers(&self) -> (r: Vec<u64>)
        ensures
            r@ == self@.followers,
    {
        let mut out: Vec<u64> = Vec::new();
        let mut i: usize = 0;
        while i < self.replication_handlers.len()
            invariant
                i <= self.replication_handlers@.len(),
                out@ == self.replication_handlers@.subrange(0, i as int),
            decreases self.replication_handlers@.len() - i,
        {
            out.push(self.replication_handlers[i]);
            i = i + 1;
            assert(out@ =~= self.replication_handlers@.subrange(0, i as int));
        }
        assert(out@ =~= self.replication_handlers@);
        out
    }
}

/// The frame that carries a snapshot to a follower: `$<len>\r\n<bytes>`, with no
/// trailing CRLF.
pub open spec fn snapshot_frame_bytes(blob: Seq<u8>) -> Seq<u8> {
    seq![36u8] + digits_of(blob.len()) + crlf() + blob
}

/// Frames a snapshot for a follower.
pub fn snapshot_frame(blob: &Vec<u8>) -> (r: Vec<u8>)
    ensures
        r@ == snapshot_frame_bytes(blob@),
{
    let mut out: Vec<u8> = Vec::new();
    out.push(36);
    push_decimal(&mut out, blob.len() as u64);
    out.push(13);
    out.push(10);
    push_bytes(&mut out, blob);
    assert(out@ =~= snapshot_frame_bytes(blob@));
    out
}

/// The steps of the follower's side of the handshake.
#[derive(Debug, Clone, Copy, PartialEq, Eq, Structural)]
pub enum HandshakeStep {
    Ping,
    ListeningPort,
    Capa,
    Psync,
    Done,
}

/// The step after `s`.
pub open spec fn next_step(s: HandshakeStep) -> HandshakeStep {
    match s {
        HandshakeStep::Ping => HandshakeStep::ListeningPort,
        HandshakeStep::ListeningPort => HandshakeStep::Capa,
        HandshakeStep::Capa => HandshakeStep::Psync,
        _ => HandshakeStep::Done,
    }
}

pub open spec fn bulk(s: Seq<char>) -> ValueView {
    ValueView::BulkString(ascii_bytes(s))
}

/// The request that the follower sends at step `s`, listening on `port`.
pub open spec fn handshake_request_spec(s: HandshakeStep, port: u64) -> Option<ValueView> {
    match s {
        HandshakeStep::Ping => Some(ValueView::Array(seq![bulk("PING"@)])),
        HandshakeStep::ListeningPort => Some(
            ValueView::Array(
                seq![bulk("REPLCONF"@), bulk("listening-port"@), ValueView::BulkString(digits_of(port as nat))],
            ),
        ),
        HandshakeStep::Capa => Some(ValueView::Array(seq![bulk("REPLCONF"@), bulk("capa"@), bulk("psync2"@)])),
        HandshakeStep::Psync => Some(ValueView::Array(seq![bulk("PSYNC"@), bulk("?"@), bulk("-1"@)])),
        HandshakeStep::Done => None,
    }
}

/// A bulk string of the ASCII text `s`.
pub fn bulk_of(s: &str) -> (r: Value)
    requires
        s.is_ascii(),
    ensures
        r@ == ValueView::BulkString(ascii_bytes(s@)),
{
    Value::BulkString(str_bytes(s))
}

/// An array value of the given items.
pub fn array_of(items: Vec<Value>) -> (r: Value)
    ensures
        r@ == ValueView::Array(Seq::new(items@.len(), |i: int| items@[i]@)),
{
    let r = Value::Array(items);
    assert(r@ == ValueView::Array(Seq::new(items@.len(), |i: int| items@[i]@))) by {
        if let ValueView::Array(x) = r@ {
            assert(x =~= Seq::new(items@.len(), |i: int| items@[i]@));
        }
    }
    r
}

impl HandshakeStep {
    /// The step after this one.
    pub fn next(&self) -> (r: HandshakeStep)
        ensures
            r == next_step(*self),
    {
        match self {
            HandshakeStep::Ping => HandshakeStep::ListeningPort,
            HandshakeStep::ListeningPort => HandshakeStep::Capa,
            HandshakeStep::Capa => HandshakeStep::Psync,
            _ => HandshakeStep::Done,
        }
    }

    /// The request to send at this step, for a follower listening on `port`;
    /// `None` once the handshake is done.
    pub fn request(&self, port: u64) -> (r: Option<Value>)
        ensures
            match (r, handshake_request_spec(*self, port)) {
                (Some(v), Some(w)) => v@ == w,
                (None, None) => true,
                _ => false,
            },
    {
        proof {
            reveal_strlit("PING");
            reveal_strlit("REPLCONF");
            reveal_strlit("listening-port");
            reveal_strlit("capa");
            reveal_strlit("psync2");
            reveal_strlit("PSYNC");
            reveal_strlit("?");
            reveal_strlit("-1");
        }
        match self {
            HandshakeStep::Ping => {
                let r = array_of(vec![bulk_of("PING")]);
                assert(r@ == handshake_request_spec(*self, port)->0) by {
                    if let ValueView::Array(x) = r@ {
                        assert(x =~= seq![bulk("PING"@)]);
                    }
                }
                Some(r)
            },
            HandshakeStep::ListeningPort => {
                let mut digits: Vec<u8> = Vec::new();
                push_decimal(&mut digits, port);
                assert(digits@ =~= digits_of(port as nat));
                let r = array_of(vec![bulk_of("REPLCONF"), bulk_of("listening-port"), Value::BulkString(digits)]);
                assert(r@ == handshake_request_spec(*self, port)->0) by {
                    if let ValueView::Array(x) = r@ {
                        assert(x =~= seq![bulk("REPLCONF"@), bulk("listening-port"@), ValueView::BulkString(digits_of(port as nat))]);
                    }
                }
                Some(r)
            },
            HandshakeStep::Capa => {
                let r = array_of(vec![bulk_of("REPLCONF"), bulk_of("capa"), bulk_of("psync2")]);
                assert(r@ == handshake_request_spec(*self, port)->0) by {
                    if let ValueView::Array(x) = r@ {
                        assert(x =~= seq![bulk("REPLCONF"@), bulk("capa"@), bulk("psync2"@)]);
                    }
                }
                Some(r)
            },
            HandshakeStep::Psync => {
                let r = array_of(vec![bulk_of("PSYNC"), bulk_of("?"), bulk_of("-1")]);
                assert(r@ == handshake_request_spec(*self, port)->0) by {
                    if let ValueView::Array(x) = r@ {
                        assert(x =~= seq![bulk("PSYNC"@), bulk("?"@), bulk("-1"@)]);
                    }
                }
                Some(r)
            },
            HandshakeStep::Done => None,
        }
    }
}

/// The value of a hexadecimal digit (either case).
pub open spec fn hex_val(c: u8) -> int {
    if 48 <= c <= 57 {
        c - 48
    } else if 97 <= c <= 102 {
        c - 87
    } else {
        c - 55
    }
}

pub open spec fn is_hex_digit(c: u8) -> bool {
    (48 <= c <= 57) || (97 <= c <= 102) || (65 <= c <= 70)
}

/// `s` is an even number of hexadecimal digits.
pub open spec fn hex_ok(s: Seq<u8>) -> bool {
    s.len() % 2 == 0 && forall|i: int| 0 <= i < s.len() ==> is_hex_digit(#[trigger] s[i])
}

/// The bytes that the hexadecimal text `s` spells, two digits each.
pub open spec fn hex_bytes(s: Seq<u8>) -> Seq<u8> {
    Seq::new(s.len() / 2, |i: int| (hex_val(s[2 * i]) * 16 + hex_val(s[2 * i + 1])) as u8)
}

/// Relies on `hex::decode`: an even number of hexadecimal digits of either
/// case decodes to one byte per pair, high digit first; anything else fails.
#[verifier::external_body]
fn decode_hex(s: &[u8]) -> (r: Option<Vec<u8>>)
    ensures
        hex_ok(s@) <==> r is Some,
        r is Some ==> r->0@ == hex_bytes(s@),
{
    hex::decode(s).ok()
}

/// The hexadecimal text of an empty snapshot.
pub open spec fn empty_snapshot_hex() -> Seq<u8> {
    ascii_bytes("524544495330303131fa0972656469732d76657205372e322e30fa0a72656469732d62697473c040fa056374696d65c26d08bc65fa08757365642d6d656dc2b0c41000fa08616f662d62617365c000fff06e3bfec0ff5aa2"@)
}

/// The snapshot of an empty key space, sent to a follower at full resync.
pub fn empty_snapshot() -> (r: Option<Vec<u8>>)
    ensures
        hex_ok(empty_snapshot_hex()) <==> r is Some,
        r is Some ==> r->0@ == hex_bytes(empty_snapshot_hex()),
{
    proof {
        reveal_strlit("524544495330303131fa0972656469732d76657205372e322e30fa0a72656469732d62697473c040fa056374696d65c26d08bc65fa08757365642d6d656dc2b0c41000fa08616f662d62617365c000fff06e3bfec0ff5aa2");
    }
    let text = str_bytes("524544495330303131fa0972656469732d76657205372e322e30fa0a72656469732d62697473c040fa056374696d65c26d08bc65fa08757365642d6d656dc2b0c41000fa08616f662d62617365c000fff06e3bfec0ff5aa2");
    decode_hex(text.as_slice())
}

/// What reading a snapshot frame at the start of `b` gives: the blob and the
/// bytes the frame took.
pub open spec fn snapshot_frame_at(b: Seq<u8>) -> Result<(Seq<u8>, int), RespError> {
    if b.len() == 0 {
        Err(RespError::NeedMoreData)
    } else if b[0] != 36 {
        Err(RespError::ProtocolError)
    } else {
        let e = find_crlf(b, 1);
        if e < 1 || e + 1 >= b.len() {
            Err(RespError::NeedMoreData)
        } else {
            match decimal_field(b.subrange(1, e)) {
                None => Err(RespError::ProtocolError),
                Some(n) => if e + 2 + n > b.len() {
                    Err(RespError::NeedMoreData)
                } else {
                    Ok((b.subrange(e + 2, e + 2 + n), e + 2 + n))
                },
            }
        }
    }
}

/// Reads the snapshot frame at the start of `b`, as a follower receives it.
pub fn read_snapshot_frame(b: &[u8]) -> (r: Result<(Vec<u8>, usize), RespError>)
    ensures
        match (r, snapshot_frame_at(b@)) {
            (Ok((blob, used)), Ok((s, n))) => blob@ == s && used as int == n,
            (Err(e), Err(f)) => e == f,
            _ => false,
        },
{
    if b.len() == 0 {
        return Err(RespError::NeedMoreData);
    }
    if b[0] != 36 {
        return Err(RespError::ProtocolError);
    }
    let e = match read_until_crlf(b, 1) {
        Some(e) => e,
        None => {
            return Err(RespError::NeedMoreData);
        },
    };
    let n = match parse_decimal(b, 1, e) {
        Some(n) => n,
        None => {
            return Err(RespError::ProtocolError);
        },
    };
    if n > (b.len() - (e + 2)) as u64 {
        return Err(RespError::NeedMoreData);
    }
    let end = e + 2 + n as usize;
    Ok((slice_bytes(b, e + 2, end), end))
}

/// Reading a framed snapshot, whatever bytes follow the frame, gives the
/// blob back and takes exactly the frame.
pub proof fn lemma_snapshot_frame_round_trip(blob: Seq<u8>, rest: Seq<u8>)
    requires
        blob.len() <= u64::MAX,
    ensures
        snapshot_frame_at(snapshot_frame_bytes(blob) + rest) == Ok::<(Seq<u8>, int), RespError>(
            (blob, snapshot_frame_bytes(blob).len() as int),
        ),
{
    let n = blob.len() as u64;
    let d = digits_of(n as nat);
    let f = snapshot_frame_bytes(blob);
    let b = f + rest;
    let e: int = 1 + d.len() as int;
    assert(b[0] == 36u8);
    assert(b.subrange(1, e) =~= d);
    assert(b[e] == 13u8 && b[e + 1] == 10u8);
    crate::resp::lemma_header(b, 0, n);
    assert(b.subrange(e + 2, e + 2 + blob.len() as int) =~= blob);
}

} // verus!
