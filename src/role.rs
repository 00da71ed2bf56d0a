//! The role of the server: a master with a replication identity, or a
//! replica that registers with its upstream master.

use crate::cmd::text_of;
use crate::resp::value::{frames_of, lemma_frames_of_push, Frame, Value};
use crate::resp::RespError;
use crate::text::{decimal_string, decimal_text, eq_ignore_case, matches_keyword};
use vstd::prelude::*;

verus! {

/// The number of characters of a replication id.
pub const REPLICATION_ID_LEN: usize = 40;

pub open spec fn is_alphanumeric(c: char) -> bool {
    ||| 48 <= c as u32 <= 57
    ||| 65 <= c as u32 <= 90
    ||| 97 <= c as u32 <= 122
}

/// Forty ASCII letters and digits.
pub open spec fn is_replication_id(s: Seq<char>) -> bool {
    s.len() == REPLICATION_ID_LEN && forall|k: int| 0 <= k < s.len() ==> is_alphanumeric(#[trigger] s[k])
}

/// `n` characters drawn at random from `A-Z`, `a-z` and `0-9`.
///
/// Relies on rand's `thread_rng` sampled through `Alphanumeric`, which yields
/// one byte of `A-Za-z0-9` per sample, and on `take(n)` of that endless
/// iterator.
#[verifier::external_body]
fn random_alphanumeric(n: usize) -> (r: String)
    ensures
        r@.len() == n,
        forall|k: int| 0 <= k < n ==> is_alphanumeric(#[trigger] r@[k]),
{
    rand::Rng::sample_iter(rand::thread_rng(), &rand::distributions::Alphanumeric)
        .take(n)
        .map(char::from)
        .collect()
}

/// The replication id of a master, stable for the life of the process.
pub struct ReplicationId {
    text: String,
}

impl View for ReplicationId {
    type V = Seq<char>;

    closed spec fn view(&self) -> Seq<char> {
        self.text@
    }
}

impl ReplicationId {
    #[verifier::type_invariant]
    spec fn inv(&self) -> bool {
        is_replication_id(self.text@)
    }

    /// A fresh random id.
    pub fn random() -> (r: ReplicationId)
        ensures
            is_replication_id(r@),
    {
        ReplicationId { text: random_alphanumeric(REPLICATION_ID_LEN) }
    }

    pub fn as_str(&self) -> (r: &str)
        ensures
            r@ == self@,
            is_replication_id(self@),
    {
        proof {
            use_type_invariant(self);
        }
        self.text.as_str()
    }
}

/// A master: its replication id and replication offset.
pub struct Master {
    pub id: ReplicationId,
    pub offset: usize,
}

/// A replica of the master at `host:port`, itself listening on `master_port`.
pub struct Replica {
    pub master_port: u16,
    pub host: String,
    pub port: u16,
}

/// The role the server runs in.
pub enum Role {
    Master(Master),
    Replica(Replica),
}

/// The `INFO replication` lines of a master.
pub open spec fn master_lines(id: Seq<char>, offset: nat) -> Seq<Seq<char>> {
    seq!["role:master"@, "master_replid:"@ + id, "master_repl_offset:"@ + decimal_text(offset)]
}

/// The `INFO replication` lines of a replica.
pub open spec fn replica_lines() -> Seq<Seq<char>> {
    seq!["role:slave"@]
}

pub open spec fn texts(v: Seq<String>) -> Seq<Seq<char>> {
    v.map_values(|s: String| s@)
}

impl Master {
    /// A master with a fresh random replication id and offset zero.
    pub fn new() -> (r: Master)
        ensures
            is_replication_id(r.id@),
            r.offset == 0,
    {
        Master { id: ReplicationId::random(), offset: 0 }
    }

    /// The lines `role:master`, `master_replid:<id>` and
    /// `master_repl_offset:<offset>`.
    pub fn info(&self) -> (r: Vec<String>)
        ensures
            texts(r@) == master_lines(self.id@, self.offset as nat),
            is_replication_id(self.id@),
    {
        let mut id_line = "master_replid:".to_owned();
        id_line.append(self.id.as_str());
        let mut offset_line = "master_repl_offset:".to_owned();
        let digits = decimal_string(self.offset as u64);
        offset_line.append(digits.as_str());
        let mut r: Vec<String> = Vec::new();
        r.push("role:master".to_owned());
        r.push(id_line);
        r.push(offset_line);
        assert(texts(r@) =~= master_lines(self.id@, self.offset as nat));
        r
    }
}

impl Replica {
    /// A replica listening on `master_port` of the master at `host:port`.
    pub fn of(master_port: u16, host: String, port: u16) -> (r: Replica)
        ensures
            r.master_port == master_port,
            r.host@ == host@,
            r.port == port,
    {
        Replica { master_port, host, port }
    }

    /// The single line `role:slave`.
    pub fn info(&self) -> (r: Vec<String>)
        ensures
            texts(r@) == replica_lines(),
    {
        let mut r: Vec<String> = Vec::new();
        r.push("role:slave".to_owned());
        assert(texts(r@) =~= replica_lines());
        r
    }
}

impl Role {
    pub open spec fn lines(&self) -> Seq<Seq<char>> {
        match self {
            Role::Master(m) => master_lines(m.id@, m.offset as nat),
            Role::Replica(_) => replica_lines(),
        }
    }

    /// The `INFO replication` lines of this role.
    pub fn info(&self) -> (r: Vec<String>)
        ensures
            texts(r@) == self.lines(),
    {
        match self {
            Role::Master(m) => m.info(),
            Role::Replica(c) => c.info(),
        }
    }
}

/// Why the handshake with the upstream master failed.
#[derive(Debug)]
pub enum HandshakeError {
    Io(std::io::Error),
    Resp(RespError),
    /// The master closed the connection before the handshake ended.
    Closed,
    /// The master answered a `REPLCONF` with something other than `OK`.
    InvalidResponse(Value),
}

#[derive(Debug)]
pub enum ReplicaError {
    Handshake(HandshakeError),
}

/// Where a replica stands in its handshake with the master.
#[derive(Debug, Clone, Copy, PartialEq, Eq, Structural)]
pub enum HandshakeStep {
    /// `PING` was sent; any single value answers it.
    AwaitPong,
    /// `REPLCONF listening-port` was sent; `OK` must answer it.
    AwaitPortAck,
    /// `REPLCONF capa psync2` was sent; `OK` must answer it.
    AwaitCapaAck,
    /// The replica is registered.
    Done,
}

pub open spec fn bulk(t: Seq<char>) -> Frame {
    Frame::Bulk(Some(t))
}

pub open spec fn ping_frame() -> Frame {
    Frame::Array(seq![bulk("PING"@)])
}

pub open spec fn port_frame(port: u16) -> Frame {
    Frame::Array(seq![bulk("REPLCONF"@), bulk("listening-port"@), bulk(decimal_text(port as nat))])
}

pub open spec fn capa_frame() -> Frame {
    Frame::Array(seq![bulk("REPLCONF"@), bulk("capa"@), bulk("psync2"@)])
}

/// A string reply whose text is `OK` in any ASCII case.
pub open spec fn is_ok_reply(f: Frame) -> bool {
    text_of(f) matches Some(t) && eq_ignore_case(t, "ok"@)
}

/// What the replica does on `reply` at `step`: the next step and the message
/// to send, or the error that ends the handshake.
pub open spec fn handshake_move(port: u16, step: HandshakeStep, reply: Option<Frame>) -> Result<
    (HandshakeStep, Option<Frame>),
    Option<Frame>,
> {
    match (step, reply) {
        (HandshakeStep::Done, _) => Ok((HandshakeStep::Done, None)),
        (_, None) => Err(None),
        (HandshakeStep::AwaitPong, Some(_)) => Ok((HandshakeStep::AwaitPortAck, Some(port_frame(port)))),
        (HandshakeStep::AwaitPortAck, Some(f)) => if is_ok_reply(f) {
            Ok((HandshakeStep::AwaitCapaAck, Some(capa_frame())))
        } else {
            Err(Some(f))
        },
        (HandshakeStep::AwaitCapaAck, Some(f)) => if is_ok_reply(f) {
            Ok((HandshakeStep::Done, None))
        } else {
            Err(Some(f))
        },
    }
}

fn bulk_array(items: Vec<&str>) -> (r: Value)
    ensures
        r@ == Frame::Array(items@.map_values(|t: &str| bulk(t@))),
{
    let mut out: Vec<Value> = Vec::new();
    let mut k: usize = 0;
    assert(frames_of(out@) =~= Seq::<Frame>::empty());
    while k < items.len()
        invariant
            k <= items@.len(),
            frames_of(out@) =~= items@.subrange(0, k as int).map_values(|t: &str| bulk(t@)),
        decreases items@.len() - k,
    {
        let v = Value::bulk(items[k]);
        proof {
            lemma_frames_of_push(out@, v);
            assert(items@.subrange(0, k + 1 as int).map_values(|t: &str| bulk(t@))
                =~= items@.subrange(0, k as int).map_values(|t: &str| bulk(t@)).push(bulk(items@[k as int]@)));
        }
        out.push(v);
        k = k + 1;
    }
    assert(items@.subrange(0, k as int) =~= items@);
    Value::Array(out)
}

impl Replica {
    /// The first message of the handshake, `PING`, and the step it leads to.
    pub fn handshake_start(&self) -> (r: (HandshakeStep, Value))
        ensures
            r.0 == HandshakeStep::AwaitPong,
            r.1@ == ping_frame(),
    {
        let mut items: Vec<Value> = Vec::new();
        let ping = Value::bulk("PING");
        proof {
            lemma_frames_of_push(items@, ping);
            assert(items@.push(ping) == seq![ping]);
            assert(frames_of(Seq::<Value>::empty()) =~= Seq::<Frame>::empty());
            assert(Seq::<Frame>::empty().push(ping@) =~= seq![bulk("PING"@)]);
        }
        items.push(ping);
        (HandshakeStep::AwaitPong, Value::Array(items))
    }

    /// The next step of the handshake on the master's `reply` (`None` when
    /// the connection closed), with the message to send next, if any.
    pub fn handshake_next(&self, step: HandshakeStep, reply: Option<Value>) -> (r: Result<
        (HandshakeStep, Option<Value>),
        HandshakeError,
    >)
        ensures
            match handshake_move(
                self.master_port,
                step,
                match reply {
                    Some(v) => Some(v@),
                    None => None,
                },
            ) {
                Ok((next, msg)) => r matches Ok((s, m)) && s == next && match msg {
                    Some(f) => m matches Some(x) && x@ == f,
                    None => m is None,
                },
                Err(None) => r matches Err(HandshakeError::Closed),
                Err(Some(f)) => r matches Err(HandshakeError::InvalidResponse(x)) && x@ == f,
            },
    {
        proof {
            reveal_strlit("ok");
        }
        match step {
            HandshakeStep::Done => Ok((HandshakeStep::Done, None)),
            HandshakeStep::AwaitPong => match reply {
                None => Err(HandshakeError::Closed),
                Some(_) => {
                    let digits = decimal_string(self.master_port as u64);
                    let d = digits.as_str();
                    let v = bulk_array(vec!["REPLCONF", "listening-port", d]);
                    assert(v@ == port_frame(self.master_port)) by {
                        assert(seq!["REPLCONF", "listening-port", d].map_values(|t: &str| bulk(t@))
                            =~= seq![bulk("REPLCONF"@), bulk("listening-port"@), bulk(decimal_text(self.master_port as nat))]);
                    }
                    Ok((HandshakeStep::AwaitPortAck, Some(v)))
                },
            },
            HandshakeStep::AwaitPortAck | HandshakeStep::AwaitCapaAck => match reply {
                None => Err(HandshakeError::Closed),
                Some(v) => {
                    let ok = match v.as_str() {
                        Some(t) => matches_keyword(t, "ok"),
                        None => false,
                    };
                    if !ok {
                        Err(HandshakeError::InvalidResponse(v))
                    } else if step == HandshakeStep::AwaitPortAck {
                        let m = bulk_array(vec!["REPLCONF", "capa", "psync2"]);
                        assert(m@ == capa_frame()) by {
                            assert(seq!["REPLCONF", "capa", "psync2"].map_values(|t: &str| bulk(t@))
                                =~= seq![bulk("REPLCONF"@), bulk("capa"@), bulk("psync2"@)]);
                        }
                        Ok((HandshakeStep::AwaitCapaAck, Some(m)))
                    } else {
                        Ok((HandshakeStep::Done, None))
                    }
                },
            },
        }
    }
}

} // verus!
