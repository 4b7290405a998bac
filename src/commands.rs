//! Command dispatch: requests are arrays of words; each command is classified
//! once by name, then run against the store.

use crate::bytes::{ascii_bytes, bytes_equal, copy_bytes, str_bytes};
use crate::config::{Argument, ArgumentView};
use crate::decimal::{decimal_field, parse_decimal};
use crate::replication::{full_resync_text, info_text, Replication, ReplicationView};
use crate::resp::{Value, ValueView};
use crate::transaction::{queued_reply, Transaction, TransactionView, value_views};
use crate::clock::current_millis;
use crate::decimal::{digits_of, push_decimal};
use crate::store::{
    after_id, append_outcome, appended, entry_views, in_range, is_live_key, spec_get, spec_key_type,
    spec_set, stream_at, KeyType, Store, StoreError, StoredView,
};
use crate::stream::{
    explicit_id, fields_of, fields_view, id_spec_of, id_text, parse_explicit_id, parse_id_spec,
    text_equal_or_smaller, text_greater_than_zero, text_wrong_type, StreamEntryId,
    StreamEntryValidate, StreamEntryView, StreamType,
};
use vstd::prelude::*;

verus! {

/// The commands this server knows.
#[derive(Debug, Clone, Copy, PartialEq, Eq, Structural)]
pub enum CommandName {
    Ping,
    Echo,
    SetValue,
    Get,
    Config,
    Keys,
    Type,
    Info,
    Replconf,
    Psync,
    Xadd,
    Xrange,
    Xread,
    Multi,
    Exec,
    Unknown,
}

pub open spec fn w(s: Seq<char>) -> Seq<u8> {
    ascii_bytes(s)
}

/// The command that a name designates (names are matched case-sensitively).
pub open spec fn name_of(n: Seq<u8>) -> CommandName {
    if n == w("PING"@) {
        CommandName::Ping
    } else if n == w("ECHO"@) {
        CommandName::Echo
    } else if n == w("SET"@) {
        CommandName::SetValue
    } else if n == w("GET"@) {
        CommandName::Get
    } else if n == w("CONFIG"@) {
        CommandName::Config
    } else if n == w("KEYS"@) {
        CommandName::Keys
    } else if n == w("TYPE"@) {
        CommandName::Type
    } else if n == w("INFO"@) {
        CommandName::Info
    } else if n == w("REPLCONF"@) {
        CommandName::Replconf
    } else if n == w("PSYNC"@) {
        CommandName::Psync
    } else if n == w("XADD"@) {
        CommandName::Xadd
    } else if n == w("XRANGE"@) {
        CommandName::Xrange
    } else if n == w("XREAD"@) {
        CommandName::Xread
    } else if n == w("MULTI"@) {
        CommandName::Multi
    } else if n == w("EXEC"@) {
        CommandName::Exec
    } else {
        CommandName::Unknown
    }
}

/// The names of the commands that the laws speak of.
pub proof fn lemma_name_literals()
    ensures
        name_of(w("SET"@)) == CommandName::SetValue,
        name_of(w("MULTI"@)) == CommandName::Multi,
        name_of(w("EXEC"@)) == CommandName::Exec,
{
    reveal_strlit("PING");
    reveal_strlit("ECHO");
    reveal_strlit("SET");
    reveal_strlit("GET");
    reveal_strlit("CONFIG");
    reveal_strlit("KEYS");
    reveal_strlit("TYPE");
    reveal_strlit("INFO");
    reveal_strlit("REPLCONF");
    reveal_strlit("PSYNC");
    reveal_strlit("XADD");
    reveal_strlit("XRANGE");
    reveal_strlit("XREAD");
    reveal_strlit("MULTI");
    reveal_strlit("EXEC");
    assert(w("MULTI"@)[0] != w("PING"@)[0]);
    assert(w("MULTI"@)[0] != w("ECHO"@)[0]);
    assert(w("MULTI"@)[0] != w("SET"@)[0]);
    assert(w("MULTI"@)[0] != w("GET"@)[0]);
    assert(w("MULTI"@)[0] != w("CONFIG"@)[0]);
    assert(w("MULTI"@)[0] != w("KEYS"@)[0]);
    assert(w("MULTI"@)[0] != w("TYPE"@)[0]);
    assert(w("MULTI"@)[0] != w("INFO"@)[0]);
    assert(w("MULTI"@)[0] != w("REPLCONF"@)[0]);
    assert(w("MULTI"@)[0] != w("PSYNC"@)[0]);
    assert(w("MULTI"@)[0] != w("XADD"@)[0]);
    assert(w("MULTI"@)[0] != w("XRANGE"@)[0]);
    assert(w("MULTI"@)[0] != w("XREAD"@)[0]);
    assert(w("EXEC"@)[0] != w("PING"@)[0]);
    assert(w("EXEC"@)[1] != w("ECHO"@)[1]);
    assert(w("EXEC"@)[0] != w("SET"@)[0]);
    assert(w("EXEC"@)[0] != w("GET"@)[0]);
    assert(w("EXEC"@)[0] != w("CONFIG"@)[0]);
    assert(w("EXEC"@)[0] != w("KEYS"@)[0]);
    assert(w("EXEC"@)[0] != w("TYPE"@)[0]);
    assert(w("EXEC"@)[0] != w("INFO"@)[0]);
    assert(w("EXEC"@)[0] != w("REPLCONF"@)[0]);
    assert(w("EXEC"@)[0] != w("PSYNC"@)[0]);
    assert(w("EXEC"@)[0] != w("XADD"@)[0]);
    assert(w("EXEC"@)[0] != w("XRANGE"@)[0]);
    assert(w("EXEC"@)[0] != w("XREAD"@)[0]);
    assert(w("EXEC"@)[0] != w("MULTI"@)[0]);
    assert(w("SET"@)[0] != w("PING"@)[0]);
    assert(w("SET"@)[0] != w("ECHO"@)[0]);
}

/// Whether `b` is the ASCII text `s`.
pub fn word_is(b: &[u8], s: &str) -> (r: bool)
    requires
        s.is_ascii(),
    ensures
        r == (b@ == ascii_bytes(s@)),
{
    let t = str_bytes(s);
    bytes_equal(b, t.as_slice())
}

/// Classifies a command name.
pub fn command_name(n: &[u8]) -> (r: CommandName)
    ensures
        r == name_of(n@),
{
    proof {
        reveal_strlit("PING");
        reveal_strlit("ECHO");
        reveal_strlit("SET");
        reveal_strlit("GET");
        reveal_strlit("CONFIG");
        reveal_strlit("KEYS");
        reveal_strlit("TYPE");
        reveal_strlit("INFO");
        reveal_strlit("REPLCONF");
        reveal_strlit("PSYNC");
        reveal_strlit("XADD");
        reveal_strlit("XRANGE");
        reveal_strlit("XREAD");
        reveal_strlit("MULTI");
        reveal_strlit("EXEC");
    }
    if word_is(n, "PING") {
        CommandName::Ping
    } else if word_is(n, "ECHO") {
        CommandName::Echo
    } else if word_is(n, "SET") {
        CommandName::SetValue
    } else if word_is(n, "GET") {
        CommandName::Get
    } else if word_is(n, "CONFIG") {
        CommandName::Config
    } else if word_is(n, "KEYS") {
        CommandName::Keys
    } else if word_is(n, "TYPE") {
        CommandName::Type
    } else if word_is(n, "INFO") {
        CommandName::Info
    } else if word_is(n, "REPLCONF") {
        CommandName::Replconf
    } else if word_is(n, "PSYNC") {
        CommandName::Psync
    } else if word_is(n, "XADD") {
        CommandName::Xadd
    } else if word_is(n, "XRANGE") {
        CommandName::Xrange
    } else if word_is(n, "XREAD") {
        CommandName::Xread
    } else if word_is(n, "MULTI") {
        CommandName::Multi
    } else if word_is(n, "EXEC") {
        CommandName::Exec
    } else {
        CommandName::Unknown
    }
}

pub open spec fn simple(s: Seq<char>) -> ValueView {
    ValueView::SimpleString(ascii_bytes(s))
}

pub open spec fn error(s: Seq<char>) -> ValueView {
    ValueView::SimpleError(ascii_bytes(s))
}

pub open spec fn ok_reply() -> ValueView {
    simple("OK"@)
}

pub open spec fn wrong_args() -> ValueView {
    error("ERR wrong number of arguments"@)
}

pub open spec fn syntax_error() -> ValueView {
    error("ERR syntax error"@)
}

pub open spec fn wrong_type() -> ValueView {
    error(text_wrong_type())
}

/// A simple string of the ASCII text `s`.
pub fn simple_of(s: &str) -> (r: Value)
    requires
        s.is_ascii(),
    ensures
        r@ == ValueView::SimpleString(ascii_bytes(s@)),
{
    Value::SimpleString(str_bytes(s))
}

/// A simple error of the ASCII text `s`.
pub fn error_of(s: &str) -> (r: Value)
    requires
        s.is_ascii(),
    ensures
        r@ == ValueView::SimpleError(ascii_bytes(s@)),
{
    Value::SimpleError(str_bytes(s))
}

fn wrong_args_value() -> (r: Value)
    ensures
        r@ == wrong_args(),
{
    proof {
        reveal_strlit("ERR wrong number of arguments");
    }
    error_of("ERR wrong number of arguments")
}

fn syntax_error_value() -> (r: Value)
    ensures
        r@ == syntax_error(),
{
    proof {
        reveal_strlit("ERR syntax error");
    }
    error_of("ERR syntax error")
}

fn wrong_type_value() -> (r: Value)
    ensures
        r@ == wrong_type(),
{
    proof {
        reveal_strlit("WRONGTYPE Operation against a key holding the wrong kind of value");
    }
    error_of("WRONGTYPE Operation against a key holding the wrong kind of value")
}

fn ok_value() -> (r: Value)
    ensures
        r@ == ok_reply(),
{
    proof {
        reveal_strlit("OK");
    }
    simple_of("OK")
}

/// The words of a list of byte strings.
pub open spec fn word_views(a: Seq<Vec<u8>>) -> Seq<Seq<u8>> {
    Seq::new(a.len(), |i: int| a[i]@)
}

/// `PING`.
pub fn handle_ping() -> (r: Value)
    ensures
        r@ == simple("PONG"@),
{
    proof {
        reveal_strlit("PONG");
    }
    simple_of("PONG")
}

pub open spec fn echo_reply(a: Seq<Seq<u8>>) -> ValueView {
    if a.len() == 1 {
        ValueView::BulkString(a[0])
    } else {
        wrong_args()
    }
}

/// `ECHO message`.
pub fn handle_echo(args: &Vec<Vec<u8>>) -> (r: Value)
    ensures
        r@ == echo_reply(word_views(args@)),
{
    if args.len() == 1 {
        Value::BulkString(copy_bytes(&args[0]))
    } else {
        wrong_args_value()
    }
}

/// `REPLCONF ...` on a leader.
pub fn handle_replconf() -> (r: Value)
    ensures
        r@ == ok_reply(),
{
    ok_value()
}

/// A time-to-live keyword: `PX` in any case.
pub open spec fn is_px(t: Seq<u8>) -> bool {
    t == w("PX"@) || t == w("Px"@) || t == w("pX"@) || t == w("px"@)
}

/// The time to live that the arguments of `SET` give: `Some(None)` for none,
/// `None` where they are malformed.
pub open spec fn set_px(a: Seq<Seq<u8>>) -> Option<Option<u64>> {
    if a.len() == 2 {
        Some(None)
    } else if a.len() == 4 && is_px(a[2]) && decimal_field(a[3]) is Some {
        Some(Some(decimal_field(a[3])->0))
    } else {
        None
    }
}

/// The key space and the reply after `SET` with arguments `a` at time `now`.
pub open spec fn set_outcome(m: Map<Seq<u8>, StoredView>, a: Seq<Seq<u8>>, now: u64) -> (Map<Seq<u8>, StoredView>, ValueView) {
    match set_px(a) {
        None => (m, if a.len() == 2 || a.len() == 4 { syntax_error() } else { wrong_args() }),
        Some(px) => match spec_set(m, a[0], a[1], px, now) {
            None => (m, wrong_type()),
            Some(m2) => (m2, ok_reply()),
        },
    }
}

/// `SET key value [PX milliseconds]` at time `now`.
pub fn handle_set(store: &mut Store, args: &Vec<Vec<u8>>, now: u64) -> (r: Value)
    requires
        old(store).wf(),
    ensures
        final(store).wf(),
        (final(store)@, r@) == set_outcome(old(store)@, word_views(args@), now),
{
    let ghost a = word_views(args@);
    if args.len() != 2 && args.len() != 4 {
        return wrong_args_value();
    }
    let mut px: Option<u64> = None;
    if args.len() == 4 {
        proof {
            reveal_strlit("PX");
            reveal_strlit("Px");
            reveal_strlit("pX");
            reveal_strlit("px");
        }
        let t = args[2].as_slice();
        let is_px = word_is(t, "PX") || word_is(t, "Px") || word_is(t, "pX") || word_is(t, "px");
        assert(a[2] == args@[2]@);
        if !is_px {
            return syntax_error_value();
        }
        let n = parse_decimal(args[3].as_slice(), 0, args[3].len());
        assert(args@[3]@.subrange(0, args@[3]@.len() as int) =~= a[3]);
        match n {
            None => {
                return syntax_error_value();
            },
            Some(ms) => {
                px = Some(ms);
            },
        }
    }
    assert(set_px(a) == Some(px));
    match store.set_value_at(args[0].as_slice(), args[1].as_slice(), px, now) {
        Ok(()) => ok_value(),
        Err(_) => wrong_type_value(),
    }
}

pub open spec fn get_reply(m: Map<Seq<u8>, StoredView>, a: Seq<Seq<u8>>, now: u64) -> ValueView {
    if a.len() != 1 {
        wrong_args()
    } else {
        match spec_get(m, a[0], now) {
            Ok(v) => ValueView::BulkString(v),
            Err(StoreError::NotFound) => ValueView::NullBulkString,
            Err(StoreError::TypeMismatch) => wrong_type(),
        }
    }
}

/// `GET key` at time `now`.
pub fn handle_get(store: &Store, args: &Vec<Vec<u8>>, now: u64) -> (r: Value)
    requires
        store.wf(),
    ensures
        r@ == get_reply(store@, word_views(args@), now),
{
    if args.len() != 1 {
        return wrong_args_value();
    }
    match store.get_value_at(args[0].as_slice(), now) {
        Ok(v) => Value::BulkString(v),
        Err(StoreError::NotFound) => Value::NullBulkString,
        Err(StoreError::TypeMismatch) => wrong_type_value(),
    }
}

/// The name of a key's kind, as `TYPE` replies it.
pub open spec fn kind_name(t: KeyType) -> Seq<u8> {
    match t {
        KeyType::String => w("string"@),
        KeyType::Stream => w("stream"@),
        KeyType::Absent => w("none"@),
    }
}

impl KeyType {
    /// The name of the kind, as `TYPE` replies it.
    pub fn to_string(&self) -> (r: Vec<u8>)
        ensures
            r@ == kind_name(*self),
    {
        proof {
            reveal_strlit("string");
            reveal_strlit("stream");
            reveal_strlit("none");
        }
        match self {
            KeyType::String => str_bytes("string"),
            KeyType::Stream => str_bytes("stream"),
            KeyType::Absent => str_bytes("none"),
        }
    }
}

pub open spec fn type_reply(m: Map<Seq<u8>, StoredView>, a: Seq<Seq<u8>>, now: u64) -> ValueView {
    if a.len() != 1 {
        wrong_args()
    } else {
        ValueView::SimpleString(kind_name(spec_key_type(m, a[0], now)))
    }
}

/// `TYPE key` at time `now`.
pub fn handle_type(store: &Store, args: &Vec<Vec<u8>>, now: u64) -> (r: Value)
    requires
        store.wf(),
    ensures
        r@ == type_reply(store@, word_views(args@), now),
{
    if args.len() != 1 {
        return wrong_args_value();
    }
    let t = store.key_type_at(args[0].as_slice(), now);
    Value::SimpleString(t.to_string())
}

pub open spec fn config_reply(cfg: ArgumentView, a: Seq<Seq<u8>>) -> ValueView {
    if a.len() == 2 && a[0] == w("GET"@) {
        if a[1] == w("dir"@) {
            ValueView::Array(seq![ValueView::BulkString(w("dir"@)), ValueView::BulkString(cfg.dir)])
        } else if a[1] == w("dbfilename"@) {
            ValueView::Array(
                seq![ValueView::BulkString(w("dbfilename"@)), ValueView::BulkString(cfg.db_file_name)],
            )
        } else {
            ValueView::NullBulkString
        }
    } else {
        ValueView::NullBulkString
    }
}

/// `CONFIG GET dir|dbfilename`.
pub fn handle_config(args: &Vec<Vec<u8>>, rdb_argument: &Argument) -> (r: Value)
    ensures
        r@ == config_reply(rdb_argument@, word_views(args@)),
{
    proof {
        reveal_strlit("GET");
        reveal_strlit("dir");
        reveal_strlit("dbfilename");
    }
    if args.len() != 2 || !word_is(args[0].as_slice(), "GET") {
        return Value::NullBulkString;
    }
    if word_is(args[1].as_slice(), "dir") {
        let r = crate::replication::array_of(
            vec![Value::BulkString(str_bytes("dir")), Value::BulkString(rdb_argument.get_dir())],
        );
        assert(r@ == config_reply(rdb_argument@, word_views(args@))) by {
            if let ValueView::Array(x) = r@ {
                assert(x =~= seq![ValueView::BulkString(w("dir"@)), ValueView::BulkString(rdb_argument@.dir)]);
            }
        }
        r
    } else if word_is(args[1].as_slice(), "dbfilename") {
        let r = crate::replication::array_of(
            vec![
                Value::BulkString(str_bytes("dbfilename")),
                Value::BulkString(rdb_argument.get_dir_file_name()),
            ],
        );
        assert(r@ == config_reply(rdb_argument@, word_views(args@))) by {
            if let ValueView::Array(x) = r@ {
                assert(x =~= seq![ValueView::BulkString(w("dbfilename"@)), ValueView::BulkString(rdb_argument@.db_file_name)]);
            }
        }
        r
    } else {
        Value::NullBulkString
    }
}

/// `reply` answers `KEYS` with arguments `a` at time `now`: for the pattern `*`,
/// an array holding each live key once, as bulk strings.
pub open spec fn keys_reply_ok(m: Map<Seq<u8>, StoredView>, a: Seq<Seq<u8>>, now: u64, reply: ValueView) -> bool {
    if a.len() == 1 && a[0] == w("*"@) {
        match reply {
            ValueView::Array(items) => {
                &&& forall|i: int| 0 <= i < items.len() ==> (#[trigger] items[i]) is BulkString
                &&& forall|k: Seq<u8>| is_live_key(m, k, now) <==> exists|i: int|
                    0 <= i < items.len() && #[trigger] items[i] == ValueView::BulkString(k)
                &&& forall|i: int, j: int| 0 <= i < items.len() && 0 <= j < items.len() && i != j ==> #[trigger] items[i] != #[trigger] items[j]
            },
            _ => false,
        }
    } else {
        reply == error("ERR only the pattern * is supported"@)
    }
}

/// `KEYS *` at time `now`.
pub fn handle_key(store: &Store, args: &Vec<Vec<u8>>, now: u64) -> (r: Value)
    requires
        store.wf(),
    ensures
        keys_reply_ok(store@, word_views(args@), now, r@),
{
    proof {
        reveal_strlit("*");
        reveal_strlit("ERR only the pattern * is supported");
    }
    if args.len() != 1 || !word_is(args[0].as_slice(), "*") {
        return error_of("ERR only the pattern * is supported");
    }
    let keys = store.keys_at(now);
    let mut items: Vec<Value> = Vec::new();
    let mut i: usize = 0;
    while i < keys.len()
        invariant
            i <= keys@.len(),
            items@.len() == i,
            forall|j: int| 0 <= j < i ==> (#[trigger] items@[j])@ == ValueView::BulkString(keys@[j]@),
        decreases keys@.len() - i,
    {
        items.push(Value::BulkString(copy_bytes(&keys[i])));
        i = i + 1;
    }
    let r = crate::replication::array_of(items);
    proof {
        let xs = Seq::new(items@.len(), |i: int| items@[i]@);
        assert forall|k: Seq<u8>| is_live_key(store@, k, now) <==> exists|i: int|
            0 <= i < xs.len() && #[trigger] xs[i] == ValueView::BulkString(k) by {
            if is_live_key(store@, k, now) {
                let t = choose|t: int| 0 <= t < keys@.len() && (#[trigger] keys@[t])@ == k;
                assert(xs[t] == ValueView::BulkString(k));
            }
            if exists|i: int| 0 <= i < xs.len() && #[trigger] xs[i] == ValueView::BulkString(k) {
                let t = choose|i: int| 0 <= i < xs.len() && #[trigger] xs[i] == ValueView::BulkString(k);
                assert(keys@[t]@ == k);
            }
        }
        assert forall|a: int, b: int| 0 <= a < xs.len() && 0 <= b < xs.len() && a != b implies #[trigger] xs[a] != #[trigger] xs[b] by {
            assert(keys@[a]@ != keys@[b]@);
        }
    }
    r
}

/// `INFO [replication]`.
pub fn handle_info(replication: &Replication) -> (r: Value)
    ensures
        r@ == ValueView::BulkString(info_text(replication@)),
{
    replication.display_to_value()
}

/// `PSYNC ? -1` on a leader.
pub fn handle_psync(replication: &Replication) -> (r: Value)
    ensures
        r@ == ValueView::SimpleString(full_resync_text(replication@)),
{
    replication.full_resync()
}

pub open spec fn invalid_id() -> ValueView {
    error("ERR Invalid stream ID specified as stream command argument"@)
}

fn invalid_id_value() -> (r: Value)
    ensures
        r@ == invalid_id(),
{
    proof {
        reveal_strlit("ERR Invalid stream ID specified as stream command argument");
    }
    error_of("ERR Invalid stream ID specified as stream command argument")
}

/// The field names and values of an entry, alternating, as bulk strings.
pub open spec fn field_values(f: Seq<(Seq<u8>, Seq<u8>)>) -> Seq<ValueView> {
    Seq::new(
        2 * f.len(),
        |i: int|
            ValueView::BulkString(
                if i % 2 == 0 {
                    f[i / 2].0
                } else {
                    f[i / 2].1
                },
            ),
    )
}

/// How an entry is replied: its identifier, then its fields.
pub open spec fn entry_value(e: StreamEntryView) -> ValueView {
    ValueView::Array(seq![ValueView::BulkString(id_text(e.id)), ValueView::Array(field_values(e.fields))])
}

/// How a list of entries is replied.
pub open spec fn entries_value(es: Seq<StreamEntryView>) -> ValueView {
    ValueView::Array(Seq::new(es.len(), |i: int| entry_value(es[i])))
}

/// The reply form of one entry.
pub fn entry_to_value(e: &StreamType) -> (r: Value)
    ensures
        r@ == entry_value(e@),
{
    let f = e.get_collection();
    let ghost fv = e@.fields;
    let mut items: Vec<Value> = Vec::new();
    let mut i: usize = 0;
    while i < f.len()
        invariant
            i <= f@.len(),
            fields_view(f@) == fv,
            items@.len() == 2 * i,
            forall|j: int| 0 <= j < 2 * i ==> (#[trigger] items@[j])@ == field_values(fv)[j],
        decreases f@.len() - i,
    {
        let pair = &f[i];
        assert(fv[i as int] == (pair.0@, pair.1@));
        items.push(Value::BulkString(copy_bytes(&pair.0)));
        items.push(Value::BulkString(copy_bytes(&pair.1)));
        proof {
            assert((2 * i) % 2 == 0 && (2 * i) / 2 == i) by (nonlinear_arith);
            assert((2 * i + 1) % 2 == 1 && (2 * i + 1) / 2 == i) by (nonlinear_arith);
        }
        i = i + 1;
    }
    let fields = crate::replication::array_of(items);
    assert(fields@ == ValueView::Array(field_values(fv))) by {
        if let ValueView::Array(x) = fields@ {
            assert(x =~= field_values(fv));
        }
    }
    let r = crate::replication::array_of(vec![Value::BulkString(e.get_stream_id()), fields]);
    assert(r@ == entry_value(e@)) by {
        if let ValueView::Array(x) = r@ {
            assert(x =~= seq![ValueView::BulkString(id_text(e@.id)), ValueView::Array(field_values(fv))]);
        }
    }
    r
}

/// The reply form of a list of entries.
pub fn entries_to_value(es: &Vec<StreamType>) -> (r: Value)
    ensures
        r@ == entries_value(entry_views(es@)),
{
    let mut items: Vec<Value> = Vec::new();
    let mut i: usize = 0;
    while i < es.len()
        invariant
            i <= es@.len(),
            items@.len() == i,
            forall|j: int| 0 <= j < i ==> (#[trigger] items@[j])@ == entry_value(es@[j]@),
        decreases es@.len() - i,
    {
        items.push(entry_to_value(&es[i]));
        i = i + 1;
    }
    let r = crate::replication::array_of(items);
    assert(r@ == entries_value(entry_views(es@))) by {
        if let ValueView::Array(x) = r@ {
            assert(x =~= Seq::new(entry_views(es@).len(), |i: int| entry_value(entry_views(es@)[i])));
        }
    }
    r
}

/// The field/value pairs of the arguments of `XADD`.
pub open spec fn xadd_pairs(a: Seq<Seq<u8>>) -> Seq<(Seq<u8>, Seq<u8>)> {
    Seq::new(((a.len() - 2) / 2) as nat, |i: int| (a[2 + 2 * i], a[3 + 2 * i]))
}

/// The key space and the reply after `XADD` with arguments `a` at time `now`.
pub open spec fn xadd_outcome(m: Map<Seq<u8>, StoredView>, a: Seq<Seq<u8>>, now: u64) -> (Map<Seq<u8>, StoredView>, ValueView) {
    if a.len() < 4 || a.len() % 2 != 0 {
        (m, wrong_args())
    } else {
        match id_spec_of(a[1]) {
            None => (m, invalid_id()),
            Some(spec) => match stream_at(m, a[0], now) {
                None => (m, wrong_type()),
                Some(es) => match append_outcome(es, spec, now) {
                    StreamEntryValidate::Successfull(id) => (
                        m.insert(a[0], StoredView::Stream(appended(es, id, fields_of(xadd_pairs(a))))),
                        ValueView::BulkString(id_text(id)),
                    ),
                    StreamEntryValidate::EGreaterThan0_0 => (m, error(text_greater_than_zero())),
                    _ => (m, error(text_equal_or_smaller())),
                },
            },
        }
    }
}

/// `XADD key id field value [field value ...]` at time `now`.
pub fn handle_xadd(store: &mut Store, args: &Vec<Vec<u8>>, now: u64) -> (r: Value)
    requires
        old(store).wf(),
    ensures
        final(store).wf(),
        (final(store)@, r@) == xadd_outcome(old(store)@, word_views(args@), now),
{
    let ghost a = word_views(args@);
    if args.len() < 4 || args.len() % 2 != 0 {
        return wrong_args_value();
    }
    let spec = match parse_id_spec(args[1].as_slice()) {
        None => {
            return invalid_id_value();
        },
        Some(s) => s,
    };
    let ghost pairs = xadd_pairs(a);
    let mut entry = StreamType::with_id(StreamEntryId { ms: 0, seq: 0 });
    let mut i: usize = 2;
    assert(pairs.subrange(0, 0) =~= Seq::<(Seq<u8>, Seq<u8>)>::empty());
    while i + 1 < args.len()
        invariant
            2 <= i <= args@.len(),
            args@.len() % 2 == 0,
            i % 2 == 0,
            a == word_views(args@),
            pairs == xadd_pairs(a),
            entry@.fields == fields_of(pairs.subrange(0, (i - 2) / 2)),
        decreases args@.len() - i,
    {
        let ghost k = ((i - 2) / 2) as int;
        entry.add_to_collection(args[i].as_slice(), args[i + 1].as_slice());
        proof {
            assert(pairs[k] == (a[i as int], a[i + 1]));
            assert(pairs.subrange(0, k + 1).drop_last() =~= pairs.subrange(0, k));
        }
        i = i + 2;
        assert((i - 2) / 2 == k + 1);
    }
    assert(pairs.subrange(0, (i - 2) / 2) =~= pairs);
    let fields = entry.into_fields();
    let outcome = store.add_stream_at(args[0].as_slice(), spec, fields, now);
    match outcome {
        StreamEntryValidate::Successfull(id) => Value::BulkString(id.to_text()),
        _ => {
            let msg = outcome.as_msg();
            Value::SimpleError(msg)
        },
    }
}

/// The lower bound of `XRANGE`: `-`, `ms-seq`, or `ms` (sequence 0).
pub open spec fn range_start(t: Seq<u8>) -> Option<StreamEntryId> {
    if t == w("-"@) {
        Some(StreamEntryId { ms: 0, seq: 0 })
    } else {
        read_id(t)
    }
}

/// The upper bound of `XRANGE`: `+`, `ms-seq`, or `ms` (any sequence number).
pub open spec fn range_end(t: Seq<u8>) -> Option<StreamEntryId> {
    if t == w("+"@) {
        Some(StreamEntryId { ms: u64::MAX, seq: u64::MAX })
    } else {
        match explicit_id(t) {
            Some(id) => Some(id),
            None => match decimal_field(t) {
                Some(ms) => Some(StreamEntryId { ms, seq: u64::MAX }),
                None => None,
            },
        }
    }
}

/// An identifier given as `ms-seq`, or as `ms` (sequence 0).
pub open spec fn read_id(t: Seq<u8>) -> Option<StreamEntryId> {
    match explicit_id(t) {
        Some(id) => Some(id),
        None => match decimal_field(t) {
            Some(ms) => Some(StreamEntryId { ms, seq: 0 }),
            None => None,
        },
    }
}

/// Reads an identifier given as `ms-seq`, or as `ms` with sequence `default_seq`.
fn parse_bound(t: &[u8], default_seq: u64) -> (r: Option<StreamEntryId>)
    ensures
        r == match explicit_id(t@) {
            Some(id) => Some(id),
            None => match decimal_field(t@) {
                Some(ms) => Some(StreamEntryId { ms, seq: default_seq }),
                None => None,
            },
        },
{
    match parse_explicit_id(t) {
        Some(id) => Some(id),
        None => {
            let ms = parse_decimal(t, 0, t.len());
            assert(t@.subrange(0, t@.len() as int) =~= t@);
            match ms {
                Some(ms) => Some(StreamEntryId { ms, seq: default_seq }),
                None => None,
            }
        },
    }
}

pub open spec fn xrange_reply(m: Map<Seq<u8>, StoredView>, a: Seq<Seq<u8>>, now: u64) -> ValueView {
    if a.len() != 3 {
        wrong_args()
    } else {
        match (range_start(a[1]), range_end(a[2])) {
            (Some(s), Some(e)) => match stream_at(m, a[0], now) {
                None => wrong_type(),
                Some(es) => entries_value(in_range(es, s, e)),
            },
            _ => invalid_id(),
        }
    }
}

/// `XRANGE key start end` at time `now`.
pub fn handle_xrange(store: &Store, args: &Vec<Vec<u8>>, now: u64) -> (r: Value)
    requires
        store.wf(),
    ensures
        r@ == xrange_reply(store@, word_views(args@), now),
{
    if args.len() != 3 {
        return wrong_args_value();
    }
    proof {
        reveal_strlit("-");
        reveal_strlit("+");
    }
    let start = if word_is(args[1].as_slice(), "-") {
        Some(StreamEntryId { ms: 0, seq: 0 })
    } else {
        parse_bound(args[1].as_slice(), 0)
    };
    let end = if word_is(args[2].as_slice(), "+") {
        Some(StreamEntryId { ms: u64::MAX, seq: u64::MAX })
    } else {
        parse_bound(args[2].as_slice(), u64::MAX)
    };
    match (start, end) {
        (Some(s), Some(e)) => match store.get_streams_in_range(args[0].as_slice(), s, e, now) {
            Ok(v) => entries_to_value(&v),
            Err(_) => wrong_type_value(),
        },
        _ => invalid_id_value(),
    }
}

pub open spec fn is_streams(t: Seq<u8>) -> bool {
    t == w("streams"@) || t == w("STREAMS"@)
}

pub open spec fn is_block(t: Seq<u8>) -> bool {
    t == w("block"@) || t == w("BLOCK"@)
}

/// Where the keys of an `XREAD` start: after `STREAMS`, or after
/// `BLOCK ms STREAMS`; `None` where the arguments have neither form.
pub open spec fn xread_start(a: Seq<Seq<u8>>) -> Option<int> {
    if a.len() >= 1 && is_streams(a[0]) {
        Some(1)
    } else if a.len() >= 3 && is_block(a[0]) && decimal_field(a[1]) is Some && is_streams(a[2]) {
        Some(3)
    } else {
        None
    }
}

/// The wait of an `XREAD BLOCK ms`, where there is one.
pub open spec fn xread_block(a: Seq<Seq<u8>>) -> Option<u64> {
    if xread_start(a) == Some(3int) {
        decimal_field(a[1])
    } else {
        None
    }
}

/// The identifiers that the texts `t` give, where each is valid.
pub open spec fn parsed_ids(t: Seq<Seq<u8>>) -> Option<Seq<StreamEntryId>> {
    if forall|i: int| 0 <= i < t.len() ==> (#[trigger] read_id(t[i])) is Some {
        Some(Seq::new(t.len(), |i: int| read_id(t[i])->0))
    } else {
        None
    }
}

/// The reply items of `XREAD` for keys `ks` after ids `ids`: one per key with
/// new entries; `None` where a key holds a live scalar.
pub open spec fn xread_items(
    m: Map<Seq<u8>, StoredView>,
    ks: Seq<Seq<u8>>,
    ids: Seq<StreamEntryId>,
    now: u64,
) -> Option<Seq<ValueView>>
    decreases ks.len(),
{
    if ks.len() == 0 || ids.len() != ks.len() {
        Some(Seq::empty())
    } else {
        match xread_items(m, ks.drop_last(), ids.drop_last(), now) {
            None => None,
            Some(prev) => match stream_at(m, ks.last(), now) {
                None => None,
                Some(es) => {
                    let found = after_id(es, ids.last());
                    if found.len() == 0 {
                        Some(prev)
                    } else {
                        Some(prev.push(ValueView::Array(seq![ValueView::BulkString(ks.last()), entries_value(found)])))
                    }
                },
            },
        }
    }
}

pub open spec fn xread_reply(m: Map<Seq<u8>, StoredView>, a: Seq<Seq<u8>>, now: u64) -> ValueView {
    match xread_start(a) {
        None => syntax_error(),
        Some(s) => {
            let rest = a.subrange(s, a.len() as int);
            if rest.len() == 0 || rest.len() % 2 != 0 {
                wrong_args()
            } else {
                let n = rest.len() / 2;
                match parsed_ids(rest.subrange(n as int, rest.len() as int)) {
                    None => invalid_id(),
                    Some(ids) => match xread_items(m, rest.subrange(0, n as int), ids, now) {
                        None => wrong_type(),
                        Some(items) => if items.len() == 0 {
                            ValueView::NullBulkString
                        } else {
                            ValueView::Array(items)
                        },
                    },
                }
            }
        },
    }
}

/// Where the keys of an `XREAD` start.
fn xread_keys_start(args: &Vec<Vec<u8>>) -> (r: Option<usize>)
    ensures
        match (r, xread_start(word_views(args@))) {
            (Some(i), Some(j)) => i == j,
            (None, None) => true,
            _ => false,
        },
{
    proof {
        reveal_strlit("streams");
        reveal_strlit("STREAMS");
        reveal_strlit("block");
        reveal_strlit("BLOCK");
    }
    let ghost a = word_views(args@);
    if args.len() >= 1 && (word_is(args[0].as_slice(), "streams") || word_is(args[0].as_slice(), "STREAMS")) {
        return Some(1);
    }
    if args.len() >= 3 && (word_is(args[0].as_slice(), "block") || word_is(args[0].as_slice(), "BLOCK")) {
        let ms = parse_decimal(args[1].as_slice(), 0, args[1].len());
        assert(args@[1]@.subrange(0, args@[1]@.len() as int) =~= a[1]);
        if ms.is_some() && (word_is(args[2].as_slice(), "streams") || word_is(args[2].as_slice(), "STREAMS")) {
            return Some(3);
        }
    }
    None
}

/// The wait that an `XREAD` asks for with `BLOCK ms`: `Some(0)` waits for
/// ever, `None` does not wait.
pub fn xread_block_time(args: &Vec<Vec<u8>>) -> (r: Option<u64>)
    ensures
        r == xread_block(word_views(args@)),
{
    match xread_keys_start(args) {
        Some(3) => {
            let ms = parse_decimal(args[1].as_slice(), 0, args[1].len());
            assert(args@[1]@.subrange(0, args@[1]@.len() as int) =~= word_views(args@)[1]);
            ms
        },
        _ => None,
    }
}

/// `XREAD [BLOCK ms] STREAMS key ... id ...` at time `now`, without waiting:
/// null where no key has an entry above its id.
pub fn handle_xread(store: &Store, args: &Vec<Vec<u8>>, now: u64) -> (r: Value)
    requires
        store.wf(),
    ensures
        r@ == xread_reply(store@, word_views(args@), now),
{
    let ghost a = word_views(args@);
    let s = match xread_keys_start(args) {
        None => {
            return syntax_error_value();
        },
        Some(s) => s,
    };
    let ghost rest = a.subrange(s as int, a.len() as int);
    let count = args.len() - s;
    if count == 0 || count % 2 != 0 {
        return wrong_args_value();
    }
    let n = count / 2;
    let ghost ks = rest.subrange(0, n as int);
    let ghost idt = rest.subrange(n as int, rest.len() as int);
    let mut ids: Vec<StreamEntryId> = Vec::new();
    let mut i: usize = 0;
    assert(s + 2 * n == args@.len());
    while i < n
        invariant
            i <= n,
            s + 2 * n == args@.len(),
            args@.len() == args.len(),
            a == word_views(args@),
            rest == a.subrange(s as int, a.len() as int),
            idt == rest.subrange(n as int, rest.len() as int),
            xread_start(a) == Some(s as int),
            rest.len() == 2 * n,
            ids@.len() == i,
            forall|j: int| 0 <= j < i ==> (#[trigger] read_id(idt[j])) is Some && ids@[j] == read_id(idt[j])->0,
        decreases n - i,
    {
        assert(s + n + i < args@.len());
        let idx: usize = s + n + i;
        assert(idt[i as int] == args@[idx as int]@);
        let id = parse_bound(args[idx].as_slice(), 0);
        match id {
            None => {
                assert(!(read_id(idt[i as int]) is Some));
                assert(parsed_ids(idt) is None);
                return invalid_id_value();
            },
            Some(id) => {
                ids.push(id);
            },
        }
        i = i + 1;
    }
    assert(parsed_ids(idt) == Some(ids@)) by {
        assert(ids@ =~= Seq::new(idt.len(), |j: int| read_id(idt[j])->0));
    }
    let mut items: Vec<Value> = Vec::new();
    let mut k: usize = 0;
    assert(ks.subrange(0, 0) =~= Seq::<Seq<u8>>::empty());
    while k < n
        invariant
            k <= n,
            s + 2 * n == args@.len(),
            args@.len() == args.len(),
            store.wf(),
            a == word_views(args@),
            rest == a.subrange(s as int, a.len() as int),
            ks == rest.subrange(0, n as int),
            idt == rest.subrange(n as int, rest.len() as int),
            parsed_ids(idt) == Some(ids@),
            xread_start(a) == Some(s as int),
            ids@.len() == n,
            xread_items(store@, ks.subrange(0, k as int), ids@.subrange(0, k as int), now) == Some(
                Seq::new(items@.len(), |j: int| items@[j]@),
            ),
        decreases n - k,
    {
        assert(s + k < args@.len());
        let idx: usize = s + k;
        assert(ks[k as int] == args@[idx as int]@);
        let found = store.get_streams_from_start(args[idx].as_slice(), ids[k], now);
        let ghost pk = ks.subrange(0, k + 1);
        let ghost pi = ids@.subrange(0, k + 1);
        assert(pk.drop_last() =~= ks.subrange(0, k as int));
        assert(pi.drop_last() =~= ids@.subrange(0, k as int));
        match found {
            Err(_) => {
                proof {
                    lemma_xread_items_none(store@, ks, ids@, now, k as int);
                }
                return wrong_type_value();
            },
            Ok(v) => {
                if v.len() > 0 {
                    let ghost before = items@;
                    let key = Value::BulkString(copy_bytes(&args[idx]));
                    let ev = entries_to_value(&v);
                    let item = crate::replication::array_of(vec![key, ev]);
                    proof {
                        if let ValueView::Array(x) = item@ {
                            assert(x =~= seq![ValueView::BulkString(ks[k as int]), entries_value(entry_views(v@))]);
                        }
                    }
                    items.push(item);
                    assert(Seq::new(items@.len(), |j: int| items@[j]@) =~= Seq::new(before.len(), |j: int| before[j]@).push(item@));
                }
            },
        }
        k = k + 1;
    }
    assert(ks.subrange(0, n as int) =~= ks);
    assert(ids@.subrange(0, n as int) =~= ids@);
    if items.len() == 0 {
        Value::NullBulkString
    } else {
        crate::replication::array_of(items)
    }
}

/// Once a key of `ks` is found to hold a scalar, `XREAD` over all of them does too.
proof fn lemma_xread_items_none(
    m: Map<Seq<u8>, StoredView>,
    ks: Seq<Seq<u8>>,
    ids: Seq<StreamEntryId>,
    now: u64,
    k: int,
)
    requires
        0 <= k < ks.len(),
        ids.len() == ks.len(),
        xread_items(m, ks.subrange(0, k + 1), ids.subrange(0, k + 1), now) is None,
    ensures
        xread_items(m, ks, ids, now) is None,
    decreases ks.len() - k,
{
    if k + 1 < ks.len() {
        let pk = ks.subrange(0, k + 2);
        let pi = ids.subrange(0, k + 2);
        assert(pk.drop_last() =~= ks.subrange(0, k + 1));
        assert(pi.drop_last() =~= ids.subrange(0, k + 1));
        lemma_xread_items_none(m, ks, ids, now, k + 1);
    } else {
        assert(ks.subrange(0, k + 1) =~= ks);
        assert(ids.subrange(0, k + 1) =~= ids);
    }
}

/// The bytes of a string value.
pub open spec fn string_of(v: ValueView) -> Seq<u8> {
    match v {
        ValueView::BulkString(s) => s,
        ValueView::SimpleString(s) => s,
        _ => Seq::empty(),
    }
}

pub open spec fn is_string_value(v: ValueView) -> bool {
    v is BulkString || v is SimpleString
}

/// The words of a request: a non-empty array of strings.
pub open spec fn words_of(v: ValueView) -> Option<Seq<Seq<u8>>> {
    match v {
        ValueView::Array(items) => if items.len() >= 1 && forall|i: int|
            0 <= i < items.len() ==> is_string_value(#[trigger] items[i]) {
            Some(Seq::new(items.len(), |i: int| string_of(items[i])))
        } else {
            None
        },
        _ => None,
    }
}

/// The words of a request, where it is a non-empty array of strings.
pub fn request_words(request: &Value) -> (r: Option<Vec<Vec<u8>>>)
    ensures
        match (r, words_of(request@)) {
            (Some(ws), Some(vs)) => word_views(ws@) == vs,
            (None, None) => true,
            _ => false,
        },
{
    match request {
        Value::Array(items) => {
            if items.len() == 0 {
                return None;
            }
            let ghost iv = Seq::new(items@.len(), |i: int| items@[i]@);
            assert(request@ == ValueView::Array(iv)) by {
                if let ValueView::Array(x) = request@ {
                    assert(x =~= iv);
                }
            }
            let mut out: Vec<Vec<u8>> = Vec::new();
            let mut i: usize = 0;
            while i < items.len()
                invariant
                    i <= items@.len(),
                    iv == Seq::new(items@.len(), |i: int| items@[i]@),
                    request@ == ValueView::Array(iv),
                    out@.len() == i,
                    forall|j: int| 0 <= j < i ==> is_string_value(#[trigger] iv[j]) && out@[j]@ == string_of(iv[j]),
                decreases items@.len() - i,
            {
                match &items[i] {
                    Value::BulkString(s) => {
                        out.push(copy_bytes(s));
                    },
                    Value::SimpleString(s) => {
                        out.push(copy_bytes(s));
                    },
                    _ => {
                        assert(!is_string_value(iv[i as int]));
                        return None;
                    },
                }
                i = i + 1;
            }
            assert(word_views(out@) =~= Seq::new(iv.len(), |i: int| string_of(iv[i])));
            Some(out)
        },
        _ => None,
    }
}

/// Running the command `words` against key space `m` at time `now` leaves `m2`
/// and replies `reply`.
pub open spec fn executes(
    m: Map<Seq<u8>, StoredView>,
    cfg: ArgumentView,
    rep: ReplicationView,
    words: Seq<Seq<u8>>,
    now: u64,
    m2: Map<Seq<u8>, StoredView>,
    reply: ValueView,
) -> bool {
    let a = words.subrange(1, words.len() as int);
    &&& words.len() >= 1
    &&& match name_of(words[0]) {
        CommandName::Ping => m2 == m && reply == simple("PONG"@),
        CommandName::Echo => m2 == m && reply == echo_reply(a),
        CommandName::SetValue => (m2, reply) == set_outcome(m, a, now),
        CommandName::Get => m2 == m && reply == get_reply(m, a, now),
        CommandName::Config => m2 == m && reply == config_reply(cfg, a),
        CommandName::Keys => m2 == m && keys_reply_ok(m, a, now, reply),
        CommandName::Type => m2 == m && reply == type_reply(m, a, now),
        CommandName::Info => m2 == m && reply == ValueView::BulkString(info_text(rep)),
        CommandName::Replconf => m2 == m && reply == ok_reply(),
        CommandName::Psync => m2 == m && reply == ValueView::SimpleString(full_resync_text(rep)),
        CommandName::Xadd => (m2, reply) == xadd_outcome(m, a, now),
        CommandName::Xrange => m2 == m && reply == xrange_reply(m, a, now),
        CommandName::Xread => m2 == m && reply == xread_reply(m, a, now),
        CommandName::Multi => m2 == m && reply == error("ERR MULTI calls can not be nested"@),
        CommandName::Exec => m2 == m && reply == error("ERR EXEC without MULTI"@),
        CommandName::Unknown => m2 == m && reply == error("ERR unknown command"@),
    }
}

/// The arguments of a command: its words after the name.
fn command_args(words: &Vec<Vec<u8>>) -> (r: Vec<Vec<u8>>)
    requires
        words@.len() >= 1,
    ensures
        word_views(r@) == word_views(words@).subrange(1, words@.len() as int),
{
    let mut out: Vec<Vec<u8>> = Vec::new();
    let mut i: usize = 1;
    while i < words.len()
        invariant
            1 <= i <= words@.len(),
            word_views(out@) == word_views(words@).subrange(1, i as int),
        decreases words@.len() - i,
    {
        let ghost before = out@;
        out.push(copy_bytes(&words[i]));
        assert(word_views(out@) =~= word_views(words@).subrange(1, i + 1)) by {
            assert(word_views(out@) =~= word_views(before).push(words@[i as int]@));
        }
        i = i + 1;
    }
    out
}

/// Runs the command `words` at time `now` (milliseconds).
pub fn execute_at(
    store: &mut Store,
    rdb_argument: &Argument,
    replication: &Replication,
    words: &Vec<Vec<u8>>,
    now: u64,
) -> (r: Value)
    requires
        old(store).wf(),
        words@.len() >= 1,
    ensures
        final(store).wf(),
        executes(old(store)@, rdb_argument@, replication@, word_views(words@), now, final(store)@, r@),
{
    let args = command_args(words);
    proof {
        reveal_strlit("ERR MULTI calls can not be nested");
        reveal_strlit("ERR EXEC without MULTI");
        reveal_strlit("ERR unknown command");
    }
    match command_name(words[0].as_slice()) {
        CommandName::Ping => handle_ping(),
        CommandName::Echo => handle_echo(&args),
        CommandName::SetValue => handle_set(store, &args, now),
        CommandName::Get => handle_get(store, &args, now),
        CommandName::Config => handle_config(&args, rdb_argument),
        CommandName::Keys => handle_key(store, &args, now),
        CommandName::Type => handle_type(store, &args, now),
        CommandName::Info => handle_info(replication),
        CommandName::Replconf => handle_replconf(),
        CommandName::Psync => handle_psync(replication),
        CommandName::Xadd => handle_xadd(store, &args, now),
        CommandName::Xrange => handle_xrange(store, &args, now),
        CommandName::Xread => handle_xread(store, &args, now),
        CommandName::Multi => error_of("ERR MULTI calls can not be nested"),
        CommandName::Exec => error_of("ERR EXEC without MULTI"),
        CommandName::Unknown => error_of("ERR unknown command"),
    }
}

/// Runs the command `words` at the current time.
pub fn command_handler(
    store: &mut Store,
    rdb_argument: &Argument,
    replication: &Replication,
    words: &Vec<Vec<u8>>,
) -> (r: Value)
    requires
        old(store).wf(),
        words@.len() >= 1,
    ensures
        final(store).wf(),
        exists|now: u64| executes(old(store)@, rdb_argument@, replication@, word_views(words@), now, final(store)@, r@),
{
    let now = current_millis();
    execute_at(store, rdb_argument, replication, words, now)
}

pub open spec fn protocol_error() -> ValueView {
    error("ERR Protocol error: expected an array of bulk strings"@)
}

/// Running one request, as `EXEC` runs a queued one.
pub open spec fn run_one(
    m: Map<Seq<u8>, StoredView>,
    cfg: ArgumentView,
    rep: ReplicationView,
    req: ValueView,
    now: u64,
    m2: Map<Seq<u8>, StoredView>,
    reply: ValueView,
) -> bool {
    match words_of(req) {
        None => m2 == m && reply == protocol_error(),
        Some(ws) => executes(m, cfg, rep, ws, now, m2, reply),
    }
}

/// Running the requests `reqs` in order from `m` leaves `m2` and gives the
/// replies `rs`, one each.
pub open spec fn runs_all(
    m: Map<Seq<u8>, StoredView>,
    cfg: ArgumentView,
    rep: ReplicationView,
    reqs: Seq<ValueView>,
    now: u64,
    m2: Map<Seq<u8>, StoredView>,
    rs: Seq<ValueView>,
) -> bool
    decreases reqs.len(),
{
    &&& reqs.len() == rs.len()
    &&& if reqs.len() == 0 {
        m2 == m
    } else {
        exists|mid: Map<Seq<u8>, StoredView>|
            runs_all(m, cfg, rep, reqs.drop_last(), now, mid, rs.drop_last()) && run_one(
                mid,
                cfg,
                rep,
                reqs.last(),
                now,
                m2,
                rs.last(),
            )
    }
}

/// The command arrays to forward to followers after the command `words` replied
/// `reply`: the command itself where it was a `SET` that succeeded.
pub open spec fn propagation(words: Seq<Seq<u8>>, reply: ValueView) -> Seq<ValueView> {
    if words.len() >= 1 && name_of(words[0]) == CommandName::SetValue && reply == ok_reply() {
        seq![ValueView::Array(Seq::new(words.len(), |i: int| ValueView::BulkString(words[i])))]
    } else {
        Seq::empty()
    }
}

pub open spec fn props_of(req: ValueView, reply: ValueView) -> Seq<ValueView> {
    match words_of(req) {
        None => Seq::empty(),
        Some(ws) => propagation(ws, reply),
    }
}

/// The command arrays to forward after each of `reqs` replied the matching one of `rs`.
pub open spec fn props_all(reqs: Seq<ValueView>, rs: Seq<ValueView>) -> Seq<ValueView>
    decreases reqs.len(),
{
    if reqs.len() == 0 || rs.len() != reqs.len() {
        Seq::empty()
    } else {
        props_all(reqs.drop_last(), rs.drop_last()) + props_of(reqs.last(), rs.last())
    }
}

/// The payload to forward to followers after `words` replied `reply`.
pub fn propagation_payload(words: &Vec<Vec<u8>>, reply: &Value) -> (r: Vec<Value>)
    ensures
        value_views(r@) == propagation(word_views(words@), reply@),
{
    let ghost ws = word_views(words@);
    let mut out: Vec<Value> = Vec::new();
    proof {
        reveal_strlit("OK");
    }
    let is_ok = match reply {
        Value::SimpleString(s) => word_is(s.as_slice(), "OK"),
        _ => false,
    };
    if words.len() >= 1 && is_ok {
        if let CommandName::SetValue = command_name(words[0].as_slice()) {
            let mut items: Vec<Value> = Vec::new();
            let mut i: usize = 0;
            while i < words.len()
                invariant
                    i <= words@.len(),
                    items@.len() == i,
                    forall|j: int| 0 <= j < i ==> (#[trigger] items@[j])@ == ValueView::BulkString(words@[j]@),
                decreases words@.len() - i,
            {
                items.push(Value::BulkString(copy_bytes(&words[i])));
                i = i + 1;
            }
            let a = crate::replication::array_of(items);
            assert(a@ == ValueView::Array(Seq::new(ws.len(), |i: int| ValueView::BulkString(ws[i])))) by {
                if let ValueView::Array(x) = a@ {
                    assert(x =~= Seq::new(ws.len(), |i: int| ValueView::BulkString(ws[i])));
                }
            }
            out.push(a);
            assert(value_views(out@) =~= propagation(ws, reply@));
            return out;
        }
    }
    assert(value_views(out@) =~= propagation(ws, reply@));
    out
}

/// One request of a connection: `MULTI` starts queuing, commands are queued
/// while queuing, `EXEC` runs the queue in order; otherwise the command runs.
/// `props` is what to forward to followers.
pub open spec fn session_step(
    m: Map<Seq<u8>, StoredView>,
    t: TransactionView,
    cfg: ArgumentView,
    rep: ReplicationView,
    req: ValueView,
    now: u64,
    m2: Map<Seq<u8>, StoredView>,
    t2: TransactionView,
    reply: ValueView,
    props: Seq<ValueView>,
) -> bool {
    match words_of(req) {
        None => m2 == m && t2 == t && reply == protocol_error() && props.len() == 0,
        Some(ws) => match name_of(ws[0]) {
            CommandName::Exec => if !t.queuing {
                m2 == m && t2 == t && reply == error("ERR EXEC without MULTI"@) && props.len() == 0
            } else {
                &&& t2 == (TransactionView { queuing: false, pending: Seq::empty() })
                &&& reply is Array
                &&& runs_all(m, cfg, rep, t.pending, now, m2, reply->Array_0)
                &&& props == props_all(t.pending, reply->Array_0)
            },
            CommandName::Multi => if t.queuing {
                m2 == m && t2 == t && reply == error("ERR MULTI calls can not be nested"@) && props.len() == 0
            } else {
                m2 == m && t2 == (TransactionView { queuing: true, pending: t.pending }) && reply == ok_reply()
                    && props.len() == 0
            },
            _ => if t.queuing {
                m2 == m && t2 == (TransactionView { queuing: true, pending: t.pending.push(req) }) && reply
                    == queued_reply() && props.len() == 0
            } else {
                executes(m, cfg, rep, ws, now, m2, reply) && t2 == t && props == propagation(ws, reply)
            },
        },
    }
}

/// Runs one request at time `now`, appending to `propagate` what to forward to
/// followers.
pub fn handle_request(
    store: &mut Store,
    transaction: &mut Transaction,
    rdb_argument: &Argument,
    replication: &Replication,
    request: &Value,
    now: u64,
    propagate: &mut Vec<Value>,
) -> (r: Value)
    requires
        old(store).wf(),
    ensures
        final(store).wf(),
        value_views(final(propagate)@).subrange(0, old(propagate)@.len() as int) == value_views(old(propagate)@),
        session_step(
            old(store)@,
            old(transaction)@,
            rdb_argument@,
            replication@,
            request@,
            now,
            final(store)@,
            final(transaction)@,
            r@,
            value_views(final(propagate)@).subrange(old(propagate)@.len() as int, final(propagate)@.len() as int),
        ),
{
    let ghost props_before = value_views(propagate@);
    proof {
        reveal_strlit("ERR Protocol error: expected an array of bulk strings");
        reveal_strlit("ERR EXEC without MULTI");
        reveal_strlit("ERR MULTI calls can not be nested");
    }
    let words = match request_words(request) {
        None => {
            assert(value_views(propagate@).subrange(props_before.len() as int, props_before.len() as int) =~= Seq::<ValueView>::empty());
            assert(value_views(propagate@).subrange(0, props_before.len() as int) =~= props_before);
            return error_of("ERR Protocol error: expected an array of bulk strings");
        },
        Some(ws) => ws,
    };
    let ghost ws = word_views(words@);
    assert(ws.len() == words@.len());
    let name = command_name(words[0].as_slice());
    assert(ws[0] == words@[0]@);
    match name {
        CommandName::Exec => {
            let queued = match transaction.take_all() {
                None => {
                    assert(value_views(propagate@).subrange(props_before.len() as int, props_before.len() as int) =~= Seq::<ValueView>::empty());
                    assert(value_views(propagate@).subrange(0, props_before.len() as int) =~= props_before);
                    return error_of("ERR EXEC without MULTI");
                },
                Some(q) => q,
            };
            let ghost reqs = value_views(queued@);
            let ghost m0 = store@;
            let mut results: Vec<Value> = Vec::new();
            let mut i: usize = 0;
            assert(reqs.subrange(0, 0) =~= Seq::<ValueView>::empty());
            assert(value_views(results@) =~= Seq::<ValueView>::empty());
            assert(value_views(propagate@).subrange(props_before.len() as int, propagate@.len() as int) =~= Seq::<ValueView>::empty());
            while i < queued.len()
                invariant
                    i <= queued@.len(),
                    store.wf(),
                    reqs == value_views(queued@),
                    results@.len() == i,
                    props_before.len() <= propagate@.len(),
                    value_views(propagate@).subrange(0, props_before.len() as int) == props_before,
                    runs_all(m0, rdb_argument@, replication@, reqs.subrange(0, i as int), now, store@, value_views(results@)),
                    value_views(propagate@).subrange(props_before.len() as int, propagate@.len() as int) == props_all(reqs.subrange(0, i as int), value_views(results@)),
                decreases queued@.len() - i,
            {
                let ghost mid = store@;
                let ghost before_rs = value_views(results@);
                let ghost before_p = value_views(propagate@);
                let req = &queued[i];
                proof {
                    reveal_strlit("ERR Protocol error: expected an array of bulk strings");
                }
                let reply = match request_words(req) {
                    None => error_of("ERR Protocol error: expected an array of bulk strings"),
                    Some(ws2) => {
                        assert(word_views(ws2@).len() == ws2@.len());
                        let reply = execute_at(store, rdb_argument, replication, &ws2, now);
                        let extra = propagation_payload(&ws2, &reply);
                        let mut j: usize = 0;
                        let ghost base = value_views(propagate@);
                        while j < extra.len()
                            invariant
                                j <= extra@.len(),
                                value_views(propagate@) == base + value_views(extra@).subrange(0, j as int),
                            decreases extra@.len() - j,
                        {
                            let ghost b2 = value_views(propagate@);
                            propagate.push(extra[j].copy());
                            assert(value_views(propagate@) =~= b2.push(extra@[j as int]@));
                            assert(value_views(extra@).subrange(0, j + 1) =~= value_views(extra@).subrange(0, j as int).push(extra@[j as int]@));
                            j = j + 1;
                        }
                        assert(value_views(extra@).subrange(0, j as int) =~= value_views(extra@));
                        reply
                    },
                };
                let ghost rv = reply@;
                results.push(reply);
                proof {
                    let rs = value_views(results@);
                    assert(rs =~= before_rs.push(rv));
                    let pre = reqs.subrange(0, i + 1);
                    assert(pre.drop_last() =~= reqs.subrange(0, i as int));
                    assert(rs.drop_last() =~= before_rs);
                    assert(pre.last() == reqs[i as int]);
                    assert(run_one(mid, rdb_argument@, replication@, pre.last(), now, store@, rs.last()));
                    assert(runs_all(m0, rdb_argument@, replication@, pre, now, store@, rs));
                    let pv = value_views(propagate@);
                    assert(pv.subrange(0, props_before.len() as int) =~= before_p.subrange(0, props_before.len() as int));
                    assert(pv.subrange(props_before.len() as int, pv.len() as int) =~= before_p.subrange(props_before.len() as int, before_p.len() as int) + props_of(reqs[i as int], rv));
                }
                i = i + 1;
            }
            assert(reqs.subrange(0, i as int) =~= reqs);
            let r = crate::replication::array_of(results);
            assert(r@->Array_0 =~= value_views(results@));
            r
        },
        CommandName::Multi => {
            assert(value_views(propagate@).subrange(props_before.len() as int, props_before.len() as int) =~= Seq::<ValueView>::empty());
            assert(value_views(propagate@).subrange(0, props_before.len() as int) =~= props_before);
            if transaction.is_queuing() {
                error_of("ERR MULTI calls can not be nested")
            } else {
                transaction.begin();
                ok_value()
            }
        },
        _ => {
            if transaction.is_queuing() {
                assert(value_views(propagate@).subrange(props_before.len() as int, props_before.len() as int) =~= Seq::<ValueView>::empty());
                assert(value_views(propagate@).subrange(0, props_before.len() as int) =~= props_before);
                match transaction.enqueue_or_none(request) {
                    Some(ack) => ack,
                    None => ok_value(),
                }
            } else {
                let reply = execute_at(store, rdb_argument, replication, &words, now);
                let extra = propagation_payload(&words, &reply);
                let mut j: usize = 0;
                while j < extra.len()
                    invariant
                        j <= extra@.len(),
                        value_views(propagate@) == props_before + value_views(extra@).subrange(0, j as int),
                    decreases extra@.len() - j,
                {
                    let ghost b2 = value_views(propagate@);
                    propagate.push(extra[j].copy());
                    assert(value_views(propagate@) =~= b2.push(extra@[j as int]@));
                    assert(value_views(extra@).subrange(0, j + 1) =~= value_views(extra@).subrange(0, j as int).push(extra@[j as int]@));
                    j = j + 1;
                }
                assert(value_views(extra@).subrange(0, j as int) =~= value_views(extra@));
                assert(value_views(propagate@).subrange(0, props_before.len() as int) =~= props_before);
                assert(value_views(propagate@).subrange(props_before.len() as int, propagate@.len() as int) =~= value_views(extra@));
                reply
            }
        },
    }
}

/// The acknowledgement a follower sends for `REPLCONF GETACK *`.
pub open spec fn ack_reply(offset: u64) -> ValueView {
    ValueView::Array(
        seq![
            ValueView::BulkString(w("REPLCONF"@)),
            ValueView::BulkString(w("ACK"@)),
            ValueView::BulkString(digits_of(offset as nat)),
        ],
    )
}

pub open spec fn is_getack(ws: Seq<Seq<u8>>) -> bool {
    ws.len() == 3 && ws[0] == w("REPLCONF"@) && ws[1] == w("GETACK"@) && ws[2] == w("*"@)
}

/// A follower applies a request of `consumed` bytes from its leader: a `SET`
/// changes the key space and is not answered; `REPLCONF GETACK *` is answered
/// with the offset before it; anything else is ignored. The offset then counts
/// the request's bytes.
pub open spec fn follower_step(
    m: Map<Seq<u8>, StoredView>,
    rep: ReplicationView,
    req: ValueView,
    consumed: u64,
    now: u64,
    m2: Map<Seq<u8>, StoredView>,
    rep2: ReplicationView,
    reply: Option<ValueView>,
) -> bool {
    &&& rep2 == (ReplicationView {
        master_repl_offset: rep.master_repl_offset.saturating_add(consumed),
        ..rep
    })
    &&& match words_of(req) {
        Some(ws) => if name_of(ws[0]) == CommandName::SetValue {
            m2 == set_outcome(m, ws.subrange(1, ws.len() as int), now).0 && reply is None
        } else if is_getack(ws) {
            m2 == m && reply == Some(ack_reply(rep.master_repl_offset))
        } else {
            m2 == m && reply is None
        },
        None => m2 == m && reply is None,
    }
}

/// Applies a request of `consumed` bytes that the leader forwarded, at time `now`.
pub fn follower_apply(
    store: &mut Store,
    replication: &mut Replication,
    request: &Value,
    consumed: u64,
    now: u64,
) -> (r: Option<Value>)
    requires
        old(store).wf(),
    ensures
        final(store).wf(),
        follower_step(
            old(store)@,
            old(replication)@,
            request@,
            consumed,
            now,
            final(store)@,
            final(replication)@,
            match r {
                Some(v) => Some(v@),
                None => None,
            },
        ),
{
    let offset = replication.offset();
    replication.advance_offset(consumed);
    let words = match request_words(request) {
        None => {
            return None;
        },
        Some(ws) => ws,
    };
    let ghost ws = word_views(words@);
    assert(ws.len() == words@.len());
    assert(ws[0] == words@[0]@);
    match command_name(words[0].as_slice()) {
        CommandName::SetValue => {
            let args = command_args(&words);
            let _ = handle_set(store, &args, now);
            None
        },
        _ => {
            proof {
                reveal_strlit("REPLCONF");
                reveal_strlit("GETACK");
                reveal_strlit("*");
                reveal_strlit("ACK");
            }
            if words.len() == 3 && word_is(words[0].as_slice(), "REPLCONF") && word_is(
                words[1].as_slice(),
                "GETACK",
            ) && word_is(words[2].as_slice(), "*") {
                assert(ws[1] == words@[1]@ && ws[2] == words@[2]@);
                let mut digits: Vec<u8> = Vec::new();
                push_decimal(&mut digits, offset);
                assert(digits@ =~= digits_of(offset as nat));
                let r = crate::replication::array_of(
                    vec![
                        Value::BulkString(str_bytes("REPLCONF")),
                        Value::BulkString(str_bytes("ACK")),
                        Value::BulkString(digits),
                    ],
                );
                assert(r@ == ack_reply(offset)) by {
                    if let ValueView::Array(x) = r@ {
                        assert(x =~= seq![
                            ValueView::BulkString(w("REPLCONF"@)),
                            ValueView::BulkString(w("ACK"@)),
                            ValueView::BulkString(digits_of(offset as nat)),
                        ]);
                    }
                }
                Some(r)
            } else {
                proof {
                    if is_getack(ws) {
                        assert(ws[1] == words@[1]@ && ws[2] == words@[2]@);
                    }
                }
                None
            }
        },
    }
}

/// What a blocked `XREAD` does next.
#[derive(Debug, Clone, Copy, PartialEq, Eq, Structural)]
pub enum XreadStep {
    /// Send the reply as it stands.
    Reply,
    /// Wait for more entries, then read again.
    Wait,
}

/// The next step of an `XREAD` that asked to wait `block` milliseconds
/// (`Some(0)`: for ever), after `waited` milliseconds, whose last read found
/// entries or not.
pub open spec fn xread_next(block: Option<u64>, waited: u64, found: bool) -> XreadStep {
    if found {
        XreadStep::Reply
    } else {
        match block {
            None => XreadStep::Reply,
            Some(0) => XreadStep::Wait,
            Some(t) => if waited < t {
                XreadStep::Wait
            } else {
                XreadStep::Reply
            },
        }
    }
}

/// Decides whether a blocked `XREAD` waits further.
pub fn xread_step(block: Option<u64>, waited: u64, found: bool) -> (r: XreadStep)
    ensures
        r == xread_next(block, waited, found),
{
    if found {
        return XreadStep::Reply;
    }
    match block {
        None => XreadStep::Reply,
        Some(t) => {
            if t == 0 || waited < t {
                XreadStep::Wait
            } else {
                XreadStep::Reply
            }
        },
    }
}

} // verus!
