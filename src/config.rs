//! Process configuration: the snapshot location, the port, and the leader to
//! follow.

use crate::bytes::{copy_bytes, split_at_first, split_first};
use crate::decimal::{decimal_field, digits_of, parse_decimal, push_decimal};
use crate::bytes::{ascii_bytes, push_bytes, str_bytes};
use crate::replication::{Replication, Role};
use vstd::prelude::*;

verus! {

/// The mathematical form of the configuration.
pub struct ArgumentView {
    pub dir: Seq<u8>,
    pub db_file_name: Seq<u8>,
    pub port: u64,
    pub master_endpoint: Seq<u8>,
}

/// The configuration that the command line gives.
pub struct Argument {
    dir: Vec<u8>,
    db_file_name: Vec<u8>,
    port: u64,
    master_endpoint: Vec<u8>,
}

/// The address `host:port` of a leader, as text.
pub open spec fn endpoint_text(address: Seq<u8>, port: u64) -> Seq<u8> {
    address + seq![58u8] + digits_of(port as nat)
}

/// The host and port that an endpoint text `host:port` names.
pub open spec fn endpoint_parts(s: Seq<u8>) -> Option<(Seq<u8>, u64)> {
    match split_first(s, 58) {
        None => None,
        Some((host, port)) => match decimal_field(port) {
            None => None,
            Some(p) => Some((host, p)),
        },
    }
}

impl View for Argument {
    type V = ArgumentView;

    closed spec fn view(&self) -> ArgumentView {
        ArgumentView {
            dir: self.dir@,
            db_file_name: self.db_file_name@,
            port: self.port,
            master_endpoint: self.master_endpoint@,
        }
    }
}

impl Argument {
    /// The defaults, as a value.
    pub open spec fn new_spec() -> ArgumentView {
        ArgumentView {
            dir: Seq::empty(),
            db_file_name: Seq::empty(),
            port: 6379,
            master_endpoint: endpoint_text(seq![49u8, 50u8, 55u8, 46u8, 48u8, 46u8, 48u8, 46u8, 49u8], 0),
        }
    }

    /// The defaults: no directory or file name, port 6379, and no leader
    /// (`127.0.0.1:0`).
    pub fn new() -> (r: Argument)
        ensures
            r@ == Argument::new_spec(),
    {
        let mut endpoint: Vec<u8> = vec![49u8, 50u8, 55u8, 46u8, 48u8, 46u8, 48u8, 46u8, 49u8, 58u8];
        let ghost host = endpoint@.subrange(0, 9);
        push_decimal(&mut endpoint, 0);
        assert(endpoint@ =~= endpoint_text(seq![49u8, 50u8, 55u8, 46u8, 48u8, 46u8, 48u8, 46u8, 49u8], 0));
        let r = Argument { dir: Vec::new(), db_file_name: Vec::new(), port: 6379, master_endpoint: endpoint };
        assert(r@.dir =~= Seq::<u8>::empty());
        assert(r@.db_file_name =~= Seq::<u8>::empty());
        r
    }

    /// Sets the snapshot directory.
    pub fn set_dir(&mut self, dir: Vec<u8>)
        ensures
            final(self)@ == (ArgumentView { dir: dir@, ..old(self)@ }),
    {
        self.dir = dir;
    }

    /// Sets the snapshot file name.
    pub fn set_dir_file_name(&mut self, db_file_name: Vec<u8>)
        ensures
            final(self)@ == (ArgumentView { db_file_name: db_file_name@, ..old(self)@ }),
    {
        self.db_file_name = db_file_name;
    }

    /// The snapshot directory.
    pub fn get_dir(&self) -> (r: Vec<u8>)
        ensures
            r@ == self@.dir,
    {
        copy_bytes(&self.dir)
    }

    /// The snapshot file name.
    pub fn get_dir_file_name(&self) -> (r: Vec<u8>)
        ensures
            r@ == self@.db_file_name,
    {
        copy_bytes(&self.db_file_name)
    }

    /// Sets the listening port.
    pub fn set_port(&mut self, port: u64)
        ensures
            final(self)@ == (ArgumentView { port, ..old(self)@ }),
    {
        self.port = port;
    }

    /// The listening port.
    pub fn get_port(&self) -> (r: u64)
        ensures
            r == self@.port,
    {
        self.port
    }

    /// The leader's host and port, where the endpoint text reads `host:port`.
    pub fn get_master_endpoint(&self) -> (r: Option<(Vec<u8>, u64)>)
        ensures
            match (r, endpoint_parts(self@.master_endpoint)) {
                (Some((h, p)), Some((host, port))) => h@ == host && p == port,
                (None, None) => true,
                _ => false,
            },
    {
        match split_at_first(self.master_endpoint.as_slice(), 58) {
            None => None,
            Some((host, port)) => {
                let p = parse_decimal(port.as_slice(), 0, port.len());
                assert(port@.subrange(0, port@.len() as int) =~= port@);
                match p {
                    None => None,
                    Some(p) => Some((host, p)),
                }
            },
        }
    }

    /// Sets the leader to follow, as `address:port`.
    pub fn set_master_endpoint(&mut self, address: &Vec<u8>, port: u64)
        ensures
            final(self)@ == (ArgumentView { master_endpoint: endpoint_text(address@, port), ..old(self)@ }),
    {
        let mut text: Vec<u8> = Vec::new();
        push_bytes(&mut text, address);
        text.push(58);
        push_decimal(&mut text, port);
        assert(text@ =~= endpoint_text(address@, port));
        self.master_endpoint = text;
    }
}

/// The mathematical form of a `RedisDatabase`.
pub struct RedisDatabaseView {
    pub dir: Seq<u8>,
    pub dir_file_name: Seq<u8>,
    pub keys: Seq<Seq<u8>>,
}

/// Where the snapshot lives, and the keys recorded from it.
pub struct RedisDatabase {
    dir: Vec<u8>,
    dir_file_name: Vec<u8>,
    keys: Vec<Vec<u8>>,
}

pub open spec fn byte_views(s: Seq<Vec<u8>>) -> Seq<Seq<u8>> {
    Seq::new(s.len(), |i: int| s[i]@)
}

impl View for RedisDatabase {
    type V = RedisDatabaseView;

    closed spec fn view(&self) -> RedisDatabaseView {
        RedisDatabaseView { dir: self.dir@, dir_file_name: self.dir_file_name@, keys: byte_views(self.keys@) }
    }
}

impl RedisDatabase {
    /// Nothing set, no key recorded.
    pub fn new() -> (r: RedisDatabase)
        ensures
            r@ == (RedisDatabaseView { dir: Seq::empty(), dir_file_name: Seq::empty(), keys: Seq::empty() }),
    {
        let r = RedisDatabase { dir: Vec::new(), dir_file_name: Vec::new(), keys: Vec::new() };
        assert(byte_views(r.keys@) =~= Seq::<Seq<u8>>::empty());
        assert(r.dir@ =~= Seq::<u8>::empty());
        r
    }

    /// Sets the directory.
    pub fn set_dir(&mut self, dir: Vec<u8>)
        ensures
            final(self)@ == (RedisDatabaseView { dir: dir@, ..old(self)@ }),
    {
        self.dir = dir;
    }

    /// Sets the file name.
    pub fn set_dir_file_name(&mut self, dir_file_name: Vec<u8>)
        ensures
            final(self)@ == (RedisDatabaseView { dir_file_name: dir_file_name@, ..old(self)@ }),
    {
        self.dir_file_name = dir_file_name;
    }

    /// The directory.
    pub fn get_dir(&self) -> (r: Vec<u8>)
        ensures
            r@ == self@.dir,
    {
        copy_bytes(&self.dir)
    }

    /// The file name.
    pub fn get_dir_file_name(&self) -> (r: Vec<u8>)
        ensures
            r@ == self@.dir_file_name,
    {
        copy_bytes(&self.dir_file_name)
    }

    /// Records a key.
    pub fn save_key_to_rdb(&mut self, key: &Vec<u8>)
        ensures
            final(self)@ == (RedisDatabaseView { keys: old(self)@.keys.push(key@), ..old(self)@ }),
    {
        let ghost before = self.keys@;
        self.keys.push(copy_bytes(key));
        assert(byte_views(self.keys@) =~= byte_views(before).push(key@));
    }

    /// The recorded keys, oldest first.
    pub fn get_all_key_from_rdb(&self) -> (r: Vec<Vec<u8>>)
        ensures
            byte_views(r@) == self@.keys,
    {
        let mut out: Vec<Vec<u8>> = Vec::new();
        let mut i: usize = 0;
        while i < self.keys.len()
            invariant
                i <= self.keys@.len(),
                byte_views(out@) == byte_views(self.keys@).subrange(0, i as int),
            decreases self.keys@.len() - i,
        {
            let ghost before = out@;
            out.push(copy_bytes(&self.keys[i]));
            assert(byte_views(out@) =~= byte_views(before).push(self.keys@[i as int]@));
            i = i + 1;
            assert(byte_views(out@) =~= byte_views(self.keys@).subrange(0, i as int));
        }
        assert(byte_views(self.keys@).subrange(0, i as int) =~= byte_views(self.keys@));
        out
    }
}

/// The configuration and role that the command-line flags `f` give, from `a`
/// and `role`: pairs of a flag and its value; `None` for an unknown flag, a
/// flag without a value, or a value that does not read.
pub open spec fn apply_flags(a: ArgumentView, role: Role, f: Seq<Seq<u8>>) -> Option<(ArgumentView, Role)>
    decreases f.len(),
{
    if f.len() == 0 {
        Some((a, role))
    } else if f.len() == 1 {
        None
    } else {
        let name = f[0];
        let v = f[1];
        let rest = f.subrange(2, f.len() as int);
        if name == ascii_bytes("--dir"@) {
            apply_flags(ArgumentView { dir: v, ..a }, role, rest)
        } else if name == ascii_bytes("--dbfilename"@) {
            apply_flags(ArgumentView { db_file_name: v, ..a }, role, rest)
        } else if name == ascii_bytes("--port"@) {
            match decimal_field(v) {
                Some(p) => apply_flags(ArgumentView { port: p, ..a }, role, rest),
                None => None,
            }
        } else if name == ascii_bytes("--replicaof"@) {
            match split_first(v, 32) {
                Some((host, port)) => match decimal_field(port) {
                    Some(p) => apply_flags(
                        ArgumentView { master_endpoint: endpoint_text(host, p), ..a },
                        Role::Slave,
                        rest,
                    ),
                    None => None,
                },
                None => None,
            }
        } else {
            None
        }
    }
}

pub open spec fn flag_views(f: Seq<Vec<u8>>) -> Seq<Seq<u8>> {
    Seq::new(f.len(), |i: int| f[i]@)
}

/// Reads the command-line flags `--dir`, `--dbfilename`, `--port` and
/// `--replicaof "host port"` over the defaults; a node with a leader to follow
/// is a follower.
pub fn flags_handler(flags: &Vec<Vec<u8>>) -> (r: Option<(Argument, Replication)>)
    ensures
        match (r, apply_flags(Argument::new_spec(), Role::Master, flag_views(flags@))) {
            (Some((a, rep)), Some((av, role))) => a@ == av && rep@.role == role
                && rep@.master_replid == crate::replication::default_replid()
                && rep@.master_repl_offset == 0 && rep@.followers.len() == 0,
            (None, None) => true,
            _ => false,
        },
{
    let mut arg = Argument::new();
    let mut role = Role::Master;
    let ghost f = flag_views(flags@);
    let mut i: usize = 0;
    proof {
        reveal_strlit("--dir");
        reveal_strlit("--dbfilename");
        reveal_strlit("--port");
        reveal_strlit("--replicaof");
        assert(f.subrange(0, f.len() as int) =~= f);
    }
    while i < flags.len()
        invariant
            i <= flags@.len(),
            f == flag_views(flags@),
            apply_flags(Argument::new_spec(), Role::Master, f) == apply_flags(arg@, role, f.subrange(i as int, f.len() as int)),
        decreases flags@.len() - i,
    {
        let ghost cur = f.subrange(i as int, f.len() as int);
        if i + 1 >= flags.len() {
            return None;
        }
        let name = flags[i].as_slice();
        let v = &flags[i + 1];
        proof {
            reveal_strlit("--dir");
            reveal_strlit("--dbfilename");
            reveal_strlit("--port");
            reveal_strlit("--replicaof");
            assert(cur[0] == flags@[i as int]@ && cur[1] == v@);
            assert(cur.subrange(2, cur.len() as int) =~= f.subrange(i + 2, f.len() as int));
        }
        if word_is_ascii(name, "--dir") {
            arg.set_dir(copy_bytes(v));
        } else if word_is_ascii(name, "--dbfilename") {
            arg.set_dir_file_name(copy_bytes(v));
        } else if word_is_ascii(name, "--port") {
            let p = parse_decimal(v.as_slice(), 0, v.len());
            assert(v@.subrange(0, v@.len() as int) =~= v@);
            match p {
                Some(p) => arg.set_port(p),
                None => {
                    return None;
                },
            }
        } else if word_is_ascii(name, "--replicaof") {
            match split_at_first(v.as_slice(), 32) {
                Some((host, port)) => {
                    let p = parse_decimal(port.as_slice(), 0, port.len());
                    assert(port@.subrange(0, port@.len() as int) =~= port@);
                    match p {
                        Some(p) => {
                            arg.set_master_endpoint(&host, p);
                            role = Role::Slave;
                        },
                        None => {
                            return None;
                        },
                    }
                },
                None => {
                    return None;
                },
            }
        } else {
            return None;
        }
        i = i + 2;
    }
    let mut rep = Replication::new();
    rep.set_role(role);
    Some((arg, rep))
}

/// Whether `b` is the ASCII text `s`.
fn word_is_ascii(b: &[u8], s: &str) -> (r: bool)
    requires
        s.is_ascii(),
    ensures
        r == (b@ == ascii_bytes(s@)),
{
    let t = str_bytes(s);
    crate::bytes::bytes_equal(b, t.as_slice())
}

} // verus!
