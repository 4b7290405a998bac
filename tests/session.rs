use redis_lite::commands::{
    command_name, execute_at, follower_apply, handle_echo, handle_ping, handle_request,
    request_words, xread_block_time, xread_step, CommandName, XreadStep,
};
use redis_lite::config::{flags_handler, Argument, RedisDatabase};
use redis_lite::replication::{
    empty_snapshot, read_snapshot_frame, snapshot_frame, HandshakeStep, Replication, Role,
};
use redis_lite::resp::RespError;
use redis_lite::resp::Value;
use redis_lite::store::Store;
use redis_lite::transaction::Transaction;

fn bulk(s: &str) -> Value {
    Value::BulkString(s.as_bytes().to_vec())
}

fn req(words: &[&str]) -> Value {
    Value::Array(words.iter().map(|w| bulk(w)).collect())
}

fn simple(s: &str) -> Value {
    Value::SimpleString(s.as_bytes().to_vec())
}

fn error(s: &str) -> Value {
    Value::SimpleError(s.as_bytes().to_vec())
}

struct Node {
    store: Store,
    tx: Transaction,
    arg: Argument,
    rep: Replication,
    sent: Vec<Value>,
}

impl Node {
    fn new() -> Node {
        Node {
            store: Store::new(),
            tx: Transaction::new(),
            arg: Argument::new(),
            rep: Replication::new(),
            sent: Vec::new(),
        }
    }

    fn run(&mut self, words: &[&str], now: u64) -> Value {
        handle_request(
            &mut self.store,
            &mut self.tx,
            &self.arg,
            &self.rep,
            &req(words),
            now,
            &mut self.sent,
        )
    }
}

#[test]
fn ping_and_echo() {
    let mut n = Node::new();
    assert_eq!(n.run(&["PING"], 0), simple("PONG"));
    assert_eq!(n.run(&["ECHO", "hey"], 0), bulk("hey"));
    assert_eq!(handle_ping(), simple("PONG"));
    assert_eq!(handle_echo(&vec![b"x".to_vec()]), bulk("x"));
    assert_eq!(n.run(&["ECHO"], 0), error("ERR wrong number of arguments"));
    assert_eq!(n.run(&["ping"], 0), error("ERR unknown command"));
}

#[test]
fn set_get_through_commands() {
    let mut n = Node::new();
    assert_eq!(n.run(&["SET", "k", "v"], 1000), simple("OK"));
    assert_eq!(n.run(&["GET", "k"], 1000), bulk("v"));
    assert_eq!(n.run(&["SET", "t", "v", "PX", "100"], 1000), simple("OK"));
    assert_eq!(n.run(&["GET", "t"], 1050), bulk("v"));
    assert_eq!(n.run(&["GET", "t"], 1150), Value::NullBulkString);
    assert_eq!(n.run(&["SET", "u", "v", "pX", "5"], 0), simple("OK"));
    assert_eq!(n.run(&["SET", "u", "v", "EX", "5"], 0), error("ERR syntax error"));
    assert_eq!(n.run(&["SET", "u", "v", "px", "x"], 0), error("ERR syntax error"));
    assert_eq!(n.run(&["GET", "missing"], 0), Value::NullBulkString);
}

#[test]
fn type_and_keys_commands() {
    let mut n = Node::new();
    n.run(&["SET", "a", "1"], 0);
    n.run(&["XADD", "s", "1-1", "f", "v"], 0);
    assert_eq!(n.run(&["TYPE", "a"], 0), simple("string"));
    assert_eq!(n.run(&["TYPE", "s"], 0), simple("stream"));
    assert_eq!(n.run(&["TYPE", "x"], 0), simple("none"));
    match n.run(&["KEYS", "*"], 0) {
        Value::Array(mut items) => {
            items.sort_by_key(|v| v.serialize());
            assert_eq!(items, vec![bulk("a"), bulk("s")]);
        }
        other => panic!("unexpected {:?}", other),
    }
    assert_eq!(n.run(&["KEYS", "a*"], 0), error("ERR only the pattern * is supported"));
    assert_eq!(
        n.run(&["GET", "s"], 0),
        error("WRONGTYPE Operation against a key holding the wrong kind of value")
    );
}

#[test]
fn xadd_replies() {
    let mut n = Node::new();
    assert_eq!(n.run(&["XADD", "s", "1-1", "a", "1"], 0), bulk("1-1"));
    assert_eq!(
        n.run(&["XADD", "s", "1-1", "b", "2"], 0),
        error("ERR The ID specified in XADD is equal or smaller than the target stream top item")
    );
    assert_eq!(
        n.run(&["XADD", "z", "0-0", "a", "1"], 0),
        error("ERR The ID specified in XADD must be greater than 0-0")
    );
    assert_eq!(n.run(&["XADD", "t", "*", "a", "1"], 77), bulk("77-0"));
    assert_eq!(n.run(&["XADD", "t", "*", "a", "1"], 77), bulk("77-1"));
    assert_eq!(
        n.run(&["XADD", "t", "bad", "a", "1"], 77),
        error("ERR Invalid stream ID specified as stream command argument")
    );
    assert_eq!(n.run(&["XADD", "t", "1-1", "a"], 0), error("ERR wrong number of arguments"));
}

fn entry(id: &str, fields: &[&str]) -> Value {
    Value::Array(vec![bulk(id), Value::Array(fields.iter().map(|f| bulk(f)).collect())])
}

#[test]
fn xrange_replies() {
    let mut n = Node::new();
    n.run(&["XADD", "s", "1-1", "a", "1"], 0);
    n.run(&["XADD", "s", "1-2", "b", "2", "c", "3"], 0);
    n.run(&["XADD", "s", "2-0", "d", "4"], 0);
    assert_eq!(
        n.run(&["XRANGE", "s", "-", "+"], 0),
        Value::Array(vec![
            entry("1-1", &["a", "1"]),
            entry("1-2", &["b", "2", "c", "3"]),
            entry("2-0", &["d", "4"]),
        ])
    );
    assert_eq!(
        n.run(&["XRANGE", "s", "1-2", "1"], 0),
        Value::Array(vec![entry("1-2", &["b", "2", "c", "3"])])
    );
    assert_eq!(n.run(&["XRANGE", "s", "3", "+"], 0), Value::Array(vec![]));
}

#[test]
fn xread_replies() {
    let mut n = Node::new();
    assert_eq!(n.run(&["XREAD", "STREAMS", "s", "0-0"], 0), Value::NullBulkString);
    n.run(&["XADD", "s", "1-1", "a", "1"], 0);
    assert_eq!(
        n.run(&["XREAD", "streams", "s", "0-0"], 0),
        Value::Array(vec![Value::Array(vec![
            bulk("s"),
            Value::Array(vec![entry("1-1", &["a", "1"])]),
        ])])
    );
    assert_eq!(n.run(&["XREAD", "STREAMS", "s", "1-1"], 0), Value::NullBulkString);
    assert_eq!(n.run(&["XREAD", "BLOCK", "0", "STREAMS", "s", "1-1"], 0), Value::NullBulkString);
    n.run(&["XADD", "s", "1-2", "b", "2"], 0);
    assert_eq!(
        n.run(&["XREAD", "BLOCK", "0", "STREAMS", "s", "1-1"], 0),
        Value::Array(vec![Value::Array(vec![
            bulk("s"),
            Value::Array(vec![entry("1-2", &["b", "2"])]),
        ])])
    );
    assert_eq!(n.run(&["XREAD", "s", "1-1"], 0), error("ERR syntax error"));
}

#[test]
fn xread_block_decisions() {
    let args: Vec<Vec<u8>> = vec![b"BLOCK".to_vec(), b"0".to_vec(), b"STREAMS".to_vec(), b"s".to_vec(), b"0".to_vec()];
    assert_eq!(xread_block_time(&args), Some(0));
    let plain: Vec<Vec<u8>> = vec![b"STREAMS".to_vec(), b"s".to_vec(), b"0".to_vec()];
    assert_eq!(xread_block_time(&plain), None);
    assert_eq!(xread_step(Some(0), 10_000, false), XreadStep::Wait);
    assert_eq!(xread_step(Some(0), 0, true), XreadStep::Reply);
    assert_eq!(xread_step(Some(100), 50, false), XreadStep::Wait);
    assert_eq!(xread_step(Some(100), 100, false), XreadStep::Reply);
    assert_eq!(xread_step(None, 0, false), XreadStep::Reply);
}

#[test]
fn multi_exec_runs_queue() {
    let mut n = Node::new();
    assert_eq!(n.run(&["MULTI"], 0), simple("OK"));
    assert_eq!(n.run(&["SET", "a", "1"], 0), simple("QUEUED"));
    let mut other = Transaction::new();
    let mut sent = Vec::new();
    assert_eq!(
        handle_request(&mut n.store, &mut other, &n.arg, &n.rep, &req(&["GET", "a"]), 0, &mut sent),
        Value::NullBulkString
    );
    assert_eq!(n.run(&["EXEC"], 0), Value::Array(vec![simple("OK")]));
    assert_eq!(n.run(&["GET", "a"], 0), bulk("1"));
}

#[test]
fn exec_without_multi() {
    let mut n = Node::new();
    assert_eq!(n.run(&["EXEC"], 0), error("ERR EXEC without MULTI"));
    n.run(&["MULTI"], 0);
    assert_eq!(n.run(&["MULTI"], 0), error("ERR MULTI calls can not be nested"));
    assert_eq!(n.run(&["EXEC"], 0), Value::Array(vec![]));
}

#[test]
fn protocol_error_for_non_array() {
    let mut n = Node::new();
    let mut sent = Vec::new();
    assert_eq!(
        handle_request(&mut n.store, &mut n.tx, &n.arg, &n.rep, &bulk("PING"), 0, &mut sent),
        error("ERR Protocol error: expected an array of bulk strings")
    );
}

#[test]
fn set_is_propagated_and_applied_by_follower() {
    let mut leader = Node::new();
    assert_eq!(leader.run(&["SET", "k", "v"], 0), simple("OK"));
    assert_eq!(leader.sent, vec![req(&["SET", "k", "v"])]);
    assert_eq!(leader.run(&["GET", "k"], 0), bulk("v"));
    assert_eq!(leader.sent.len(), 1);

    let mut fstore = Store::new();
    let mut frep = Replication::new();
    frep.set_role(Role::Slave);
    let payload = leader.sent[0].serialize();
    let reply = follower_apply(&mut fstore, &mut frep, &leader.sent[0], payload.len() as u64, 0);
    assert_eq!(reply, None);
    assert_eq!(fstore.get_value_at(b"k", 0), Ok(b"v".to_vec()));
    assert_eq!(frep.offset(), payload.len() as u64);
    let ack = follower_apply(&mut fstore, &mut frep, &req(&["REPLCONF", "GETACK", "*"]), 37, 0);
    assert_eq!(payload.len(), 27);
    assert_eq!(ack, Some(req(&["REPLCONF", "ACK", "27"])));
    assert_eq!(frep.offset(), 64);
}

#[test]
fn exec_propagates_queued_sets() {
    let mut n = Node::new();
    n.run(&["MULTI"], 0);
    n.run(&["SET", "a", "1"], 0);
    n.run(&["GET", "a"], 0);
    assert!(n.sent.is_empty());
    n.run(&["EXEC"], 0);
    assert_eq!(n.sent, vec![req(&["SET", "a", "1"])]);
}

#[test]
fn info_psync_replconf_config() {
    let mut n = Node::new();
    assert_eq!(
        n.run(&["INFO", "replication"], 0),
        bulk("role:master\r\nmaster_replid:8371b4fb1155b71f4a04d3e1bc3e18c4a990aeeb\r\nmaster_repl_offset:0")
    );
    assert_eq!(
        n.run(&["PSYNC", "?", "-1"], 0),
        simple("FULLRESYNC 8371b4fb1155b71f4a04d3e1bc3e18c4a990aeeb 0")
    );
    assert_eq!(n.run(&["REPLCONF", "listening-port", "6380"], 0), simple("OK"));
    n.arg.set_dir(b"/tmp/x".to_vec());
    assert_eq!(n.run(&["CONFIG", "GET", "dir"], 0), Value::Array(vec![bulk("dir"), bulk("/tmp/x")]));
    assert_eq!(
        n.run(&["CONFIG", "GET", "dbfilename"], 0),
        Value::Array(vec![bulk("dbfilename"), bulk("")])
    );
    assert_eq!(n.run(&["CONFIG", "GET", "port"], 0), Value::NullBulkString);
}

#[test]
fn follower_role_in_info() {
    let mut rep = Replication::new();
    rep.set_role(Role::Slave);
    assert_eq!(
        rep.display_to_value(),
        bulk("role:slave\r\nmaster_replid:8371b4fb1155b71f4a04d3e1bc3e18c4a990aeeb\r\nmaster_repl_offset:0")
    );
    assert_eq!(Role::Master.to_string(), b"master".to_vec());
}

#[test]
fn followers_register_once() {
    let mut rep = Replication::new();
    assert!(rep.add_repl_handler(3));
    assert!(rep.add_repl_handler(5));
    assert!(!rep.add_repl_handler(3));
    assert_eq!(rep.followers(), vec![3, 5]);
    rep.remove_repl_handler(3);
    assert_eq!(rep.followers(), vec![5]);
}

#[test]
fn handshake_requests() {
    let mut step = HandshakeStep::Ping;
    let mut sent = Vec::new();
    while let Some(r) = step.request(6380) {
        sent.push(r);
        step = step.next();
    }
    assert_eq!(
        sent,
        vec![
            req(&["PING"]),
            req(&["REPLCONF", "listening-port", "6380"]),
            req(&["REPLCONF", "capa", "psync2"]),
            req(&["PSYNC", "?", "-1"]),
        ]
    );
}

#[test]
fn snapshot_is_decoded_and_framed() {
    let blob = empty_snapshot().unwrap();
    assert_eq!(blob.len(), 88);
    assert!(blob.starts_with(b"REDIS0011"));
    assert_eq!(*blob.last().unwrap(), 0xa2);
    let frame = snapshot_frame(&blob);
    assert!(frame.starts_with(b"$88\r\nREDIS"));
    assert_eq!(frame.len(), 5 + 88);
    let mut more = frame.clone();
    more.extend_from_slice(b"*1\r\n");
    assert_eq!(read_snapshot_frame(&more), Ok((blob, 93)));
    assert_eq!(read_snapshot_frame(&frame[..50]), Err(RespError::NeedMoreData));
    assert_eq!(read_snapshot_frame(b"+OK\r\n"), Err(RespError::ProtocolError));
}

#[test]
fn command_names_are_case_sensitive() {
    assert_eq!(command_name(b"SET"), CommandName::SetValue);
    assert_eq!(command_name(b"set"), CommandName::Unknown);
    assert_eq!(command_name(b"XREAD"), CommandName::Xread);
}

#[test]
fn execute_single_command() {
    let mut store = Store::new();
    let arg = Argument::new();
    let rep = Replication::new();
    let words = request_words(&req(&["SET", "x", "y"])).unwrap();
    assert_eq!(execute_at(&mut store, &arg, &rep, &words, 0), simple("OK"));
    assert_eq!(request_words(&Value::Array(vec![Value::NullBulkString])), None);
}

#[test]
fn flags_are_read() {
    let flags: Vec<Vec<u8>> = ["--dir", "/data", "--dbfilename", "dump.rdb", "--port", "6380", "--replicaof", "localhost 6379"]
        .iter()
        .map(|s| s.as_bytes().to_vec())
        .collect();
    let (arg, rep) = flags_handler(&flags).unwrap();
    assert_eq!(arg.get_dir(), b"/data".to_vec());
    assert_eq!(arg.get_dir_file_name(), b"dump.rdb".to_vec());
    assert_eq!(arg.get_port(), 6380);
    assert_eq!(arg.get_master_endpoint(), Some((b"localhost".to_vec(), 6379)));
    assert_eq!(rep.role(), Role::Slave);
    let bad: Vec<Vec<u8>> = vec![b"--port".to_vec(), b"x".to_vec()];
    assert!(flags_handler(&bad).is_none());
    let odd: Vec<Vec<u8>> = vec![b"--dir".to_vec()];
    assert!(flags_handler(&odd).is_none());
    let unknown: Vec<Vec<u8>> = vec![b"--what".to_vec(), b"1".to_vec()];
    assert!(flags_handler(&unknown).is_none());
    let (def, rep) = flags_handler(&Vec::new()).unwrap();
    assert_eq!(def.get_port(), 6379);
    assert_eq!(def.get_master_endpoint(), Some((b"127.0.0.1".to_vec(), 0)));
    assert_eq!(rep.role(), Role::Master);
}

#[test]
fn database_holder() {
    let mut db = RedisDatabase::new();
    db.set_dir(b"d".to_vec());
    db.set_dir_file_name(b"f".to_vec());
    db.save_key_to_rdb(&b"k1".to_vec());
    db.save_key_to_rdb(&b"k2".to_vec());
    assert_eq!(db.get_dir(), b"d".to_vec());
    assert_eq!(db.get_dir_file_name(), b"f".to_vec());
    assert_eq!(db.get_all_key_from_rdb(), vec![b"k1".to_vec(), b"k2".to_vec()]);
}

#[test]
fn transaction_queue_operations() {
    let mut t = Transaction::new();
    assert_eq!(t.enqueue_or_none(&bulk("x")), None);
    assert!(t.begin());
    assert_eq!(t.enqueue_or_none(&req(&["SET", "a", "1"])), Some(simple("QUEUED")));
    t.push_back(&req(&["GET", "a"]));
    assert_eq!(t.len(), 2);
    assert_eq!(t.get_font(), Some(&req(&["SET", "a", "1"])));
    assert_eq!(t.get_font_value(), Some(req(&["SET", "a", "1"])));
    assert_eq!(t.len(), 1);
    assert_eq!(t.take_all(), Some(vec![req(&["GET", "a"])]));
    assert!(!t.is_queuing());
    assert_eq!(t.take_all(), None);
}
