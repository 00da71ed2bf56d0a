//! The server actor's state and the commands it executes.

use crate::clock::{expiry_instant, now_millis, resolvable};
use crate::cmd::{
    Command, CommandError, CommandErrorModel, CommandModel, Expiry, InfoError, SetError, Time,
};
use crate::error::MemoraError;
use crate::resp::value::{encoding, Frame, Value};
use crate::role::{master_lines, texts, Role};
use crate::session::{answer_locally, local_reply};
use crate::store::{visible, EntryModel, StringStore};
use crate::text::{decimal_text, eq_ignore_case, matches_keyword};
use vstd::prelude::*;

verus! {

/// The reply to one request.
pub struct Response(pub Value);

impl Response {
    /// The simple string `OK`.
    pub fn ok() -> (r: Response)
        ensures
            r.0@ == Frame::Simple("OK"@),
    {
        Response(Value::simple("OK"))
    }

    /// Wraps `value` as a response.
    pub fn from(value: Value) -> (r: Response)
        ensures
            r.0@ == value@,
    {
        Response(value)
    }

    /// Appends the wire encoding of the reply to `buf`.
    pub fn encode(&self, buf: &mut Vec<u8>)
        ensures
            final(buf)@ == old(buf)@ + encoding(self.0@),
    {
        self.0.encode(buf)
    }
}

/// The lines of an `INFO` section joined by `\r\n`.
pub open spec fn join_lines(lines: Seq<Seq<char>>) -> Seq<char>
    decreases lines.len(),
{
    if lines.len() == 0 {
        seq![]
    } else if lines.len() == 1 {
        lines[0]
    } else {
        join_lines(lines.drop_last()) + "\r\n"@ + lines.last()
    }
}

/// `INFO` with no section, `default` or `replication` reports replication.
pub open spec fn reports_replication(section: Option<Seq<char>>) -> bool {
    match section {
        None => true,
        Some(s) => eq_ignore_case(s, "default"@) || eq_ignore_case(s, "replication"@),
    }
}

/// The reply of `GET key` at `now`.
pub open spec fn get_reply(m: Map<Seq<char>, EntryModel>, key: Seq<char>, now: i64) -> Frame {
    Frame::Bulk(visible(m, key, now))
}

/// How a command executed by the actor at `now` changes the keyspace from
/// `before` to `after`, and what it answers: a reply, or a command error.
pub open spec fn command_outcome(
    before: Map<Seq<char>, EntryModel>,
    lines: Seq<Seq<char>>,
    cmd: CommandModel,
    now: i64,
    after: Map<Seq<char>, EntryModel>,
    r: Result<Frame, Option<CommandErrorModel>>,
) -> bool {
    match cmd {
        CommandModel::Get(k) => after == before && r == Ok::<Frame, Option<CommandErrorModel>>(get_reply(before, k, now)),
        CommandModel::SetKey(k, v, None) => {
            &&& after == before.insert(k, EntryModel { value: v, expiry: None })
            &&& r == Ok::<Frame, Option<CommandErrorModel>>(Frame::Simple("OK"@))
        },
        CommandModel::SetKey(k, v, Some(e)) => if resolvable(e, now as int) {
            &&& i64::MIN <= expiry_instant(e, now as int) <= i64::MAX
            &&& after == before.insert(k, EntryModel { value: v, expiry: Some(expiry_instant(e, now as int) as i64) })
            &&& r == Ok::<Frame, Option<CommandErrorModel>>(Frame::Simple("OK"@))
        } else {
            &&& after == before
            &&& r == Err::<Frame, Option<CommandErrorModel>>(Some(CommandErrorModel::SetCommand(SetError::InvalidExpiry)))
        },
        CommandModel::Info(section) => {
            &&& after == before
            &&& if reports_replication(section) {
                r == Ok::<Frame, Option<CommandErrorModel>>(Frame::Bulk(Some(join_lines(lines))))
            } else {
                r == Err::<Frame, Option<CommandErrorModel>>(Some(CommandErrorModel::UnknownSection(section->0)))
            }
        },
        _ => after == before && r == Ok::<Frame, Option<CommandErrorModel>>(local_reply(cmd)->0),
    }
}

pub open spec fn outcome_of(r: Result<Response, MemoraError>) -> Result<Frame, Option<CommandErrorModel>> {
    match r {
        Ok(resp) => Ok(resp.0@),
        Err(MemoraError::Command(e)) => Err(Some(e@)),
        Err(_) => Err(None),
    }
}

/// The state the server actor owns: its role and the keyspace. All
/// mutation of the keyspace goes through this one owner.
pub struct Memora {
    role: Role,
    string: StringStore,
}

impl Memora {
    pub closed spec fn wf(&self) -> bool {
        self.string.wf()
    }

    /// The keyspace.
    pub closed spec fn keyspace(&self) -> Map<Seq<char>, EntryModel> {
        self.string@
    }

    /// The `INFO replication` lines of the role.
    pub closed spec fn role_lines(&self) -> Seq<Seq<char>> {
        self.role.lines()
    }

    /// An actor in `role` with an empty keyspace.
    pub fn new(role: Role) -> (r: Memora)
        ensures
            r.wf(),
            r.keyspace() == Map::<Seq<char>, EntryModel>::empty(),
            r.role_lines() == role.lines(),
    {
        Memora { role, string: StringStore::new() }
    }

    /// The role the actor runs in.
    pub fn role(&self) -> (r: &Role)
        ensures
            r.lines() == self.role_lines(),
    {
        &self.role
    }

    fn info_text(&self) -> (r: String)
        ensures
            r@ == join_lines(self.role_lines()),
    {
        let lines = self.role.info();
        let mut out = String::new();
        let mut k: usize = 0;
        while k < lines.len()
            invariant
                k <= lines@.len(),
                texts(lines@) == self.role_lines(),
                out@ == join_lines(texts(lines@).subrange(0, k as int)),
            decreases lines@.len() - k,
        {
            proof {
                let t = texts(lines@);
                assert(t.subrange(0, k + 1 as int).drop_last() =~= t.subrange(0, k as int));
                if k == 0 {
                    assert(join_lines(t.subrange(0, 0)) =~= Seq::<char>::empty());
                    assert(t.subrange(0, 1)[0] == lines@[0]@);
                }
            }
            if k > 0 {
                out.append("\r\n");
            }
            out.append(lines[k].as_str());
            proof {
                let t = texts(lines@);
                if k == 0 {
                    assert(out@ =~= join_lines(t.subrange(0, 1)));
                }
            }
            k = k + 1;
        }
        assert(texts(lines@).subrange(0, k as int) =~= texts(lines@));
        out
    }

    /// Executes `cmd` at `now`, milliseconds since the unix epoch.
    pub fn handle_command(&mut self, cmd: Command, now: i64) -> (r: Result<Response, MemoraError>)
        requires
            old(self).wf(),
        ensures
            final(self).wf(),
            final(self).role_lines() == old(self).role_lines(),
            command_outcome(old(self).keyspace(), old(self).role_lines(), cmd@, now, final(self).keyspace(), outcome_of(r)),
    {
        proof {
            reveal_strlit("default");
            reveal_strlit("replication");
        }
        match cmd {
            Command::Get { key } => match self.string.try_get(key.as_str(), now) {
                Some(v) => Ok(Response(Value::bulk(v))),
                None => Ok(Response(Value::null_bulk())),
            },
            Command::SetKey { key, value, expiry } => {
                let at = match expiry {
                    None => None,
                    Some(e) => match e.into_utc(now) {
                        Some(t) => Some(t),
                        None => return Err(MemoraError::Command(CommandError::SetCommand(SetError::InvalidExpiry))),
                    },
                };
                self.string.store(key, value, at);
                Ok(Response::ok())
            },
            Command::Info { section: None } => {
                let text = self.info_text();
                Ok(Response(Value::bulk(text.as_str())))
            },
            Command::Info { section: Some(s) } => {
                if matches_keyword(s.as_str(), "default") || matches_keyword(s.as_str(), "replication") {
                    let text = self.info_text();
                    Ok(Response(Value::bulk(text.as_str())))
                } else {
                    Err(MemoraError::Command(CommandError::Info(InfoError::UnknownSection(s))))
                }
            },
            Command::Ping(_) | Command::Echo(_) => Ok(Response(answer_locally(&cmd))),
        }
    }

    /// Executes `cmd` against the wall clock.
    pub fn execute(&mut self, cmd: Command) -> (r: Result<Response, MemoraError>)
        requires
            old(self).wf(),
        ensures
            final(self).wf(),
            final(self).role_lines() == old(self).role_lines(),
            exists|now: i64|
                command_outcome(
                    old(self).keyspace(),
                    old(self).role_lines(),
                    cmd@,
                    now,
                    final(self).keyspace(),
                    outcome_of(r),
                ),
    {
        let now = now_millis();
        self.handle_command(cmd, now)
    }
}

/// After `SET k v` with no expiry, `GET k` answers `v` at any time.
pub proof fn lemma_set_then_get(
    before: Map<Seq<char>, EntryModel>,
    lines: Seq<Seq<char>>,
    k: Seq<char>,
    v: Seq<char>,
    now: i64,
    after: Map<Seq<char>, EntryModel>,
    r: Result<Frame, Option<CommandErrorModel>>,
    later: i64,
)
    requires
        command_outcome(before, lines, CommandModel::SetKey(k, v, None), now, after, r),
    ensures
        get_reply(after, k, later) == Frame::Bulk(Some(v)),
{
}

/// What `GET k` answers is changed by no command but a `SET` of `k` itself.
pub proof fn lemma_only_set_of_key_changes_get(
    before: Map<Seq<char>, EntryModel>,
    lines: Seq<Seq<char>>,
    cmd: CommandModel,
    now: i64,
    after: Map<Seq<char>, EntryModel>,
    r: Result<Frame, Option<CommandErrorModel>>,
    k: Seq<char>,
    later: i64,
)
    requires
        command_outcome(before, lines, cmd, now, after, r),
        !(cmd matches CommandModel::SetKey(key, _, _) && key == k),
    ensures
        get_reply(after, k, later) == get_reply(before, k, later),
{
}

/// A run of commands the actor executed one after another: `spaces[j]` is
/// the keyspace before `cmds[j]`, run at `times[j]` with reply `replies[j]`,
/// and `spaces[j + 1]` the keyspace after it.
pub open spec fn executed(
    spaces: Seq<Map<Seq<char>, EntryModel>>,
    lines: Seq<Seq<char>>,
    cmds: Seq<CommandModel>,
    times: Seq<i64>,
    replies: Seq<Result<Frame, Option<CommandErrorModel>>>,
) -> bool {
    &&& spaces.len() == cmds.len() + 1
    &&& times.len() == cmds.len()
    &&& replies.len() == cmds.len()
    &&& forall|j: int|
        0 <= j < cmds.len() ==> command_outcome(
            #[trigger] spaces[j],
            lines,
            cmds[j],
            times[j],
            spaces[j + 1],
            replies[j],
        )
}

/// No command of the run sets `k`.
pub open spec fn leaves_key(cmds: Seq<CommandModel>, k: Seq<char>) -> bool {
    forall|j: int| 0 <= j < cmds.len() ==> !(#[trigger] cmds[j] matches CommandModel::SetKey(key, _, _) && key == k)
}

/// A run of commands none of which sets `k` leaves what `GET k` answers as
/// it was before the run.
pub proof fn lemma_run_keeps_key(
    spaces: Seq<Map<Seq<char>, EntryModel>>,
    lines: Seq<Seq<char>>,
    cmds: Seq<CommandModel>,
    times: Seq<i64>,
    replies: Seq<Result<Frame, Option<CommandErrorModel>>>,
    k: Seq<char>,
    later: i64,
)
    requires
        executed(spaces, lines, cmds, times, replies),
        leaves_key(cmds, k),
    ensures
        get_reply(spaces.last(), k, later) == get_reply(spaces[0], k, later),
    decreases cmds.len(),
{
    if cmds.len() > 0 {
        let n = cmds.len() - 1;
        lemma_run_keeps_key(spaces.drop_last(), lines, cmds.drop_last(), times.drop_last(), replies.drop_last(), k, later);
        assert(command_outcome(spaces[n], lines, cmds[n], times[n], spaces[n + 1], replies[n]));
        assert(!(cmds[n] matches CommandModel::SetKey(key, _, _) && key == k));
        lemma_only_set_of_key_changes_get(spaces[n], lines, cmds[n], times[n], spaces[n + 1], replies[n], k, later);
    }
}

/// After `SET k v` with no expiry, `GET k` answers `v` at any time, until a
/// later `SET` of `k`: whatever other commands run in between.
pub proof fn lemma_set_get_consistent(
    spaces: Seq<Map<Seq<char>, EntryModel>>,
    lines: Seq<Seq<char>>,
    cmds: Seq<CommandModel>,
    times: Seq<i64>,
    replies: Seq<Result<Frame, Option<CommandErrorModel>>>,
    k: Seq<char>,
    v: Seq<char>,
    later: i64,
)
    requires
        executed(spaces, lines, cmds, times, replies),
        cmds.len() >= 1,
        cmds[0] == CommandModel::SetKey(k, v, None),
        leaves_key(cmds.drop_first(), k),
    ensures
        get_reply(spaces.last(), k, later) == Frame::Bulk(Some(v)),
{
    assert(command_outcome(spaces[0], lines, cmds[0], times[0], spaces[1], replies[0]));
    lemma_set_then_get(spaces[0], lines, k, v, times[0], spaces[1], replies[0], later);
    let rest = spaces.drop_first();
    assert forall|j: int| 0 <= j < cmds.drop_first().len() implies command_outcome(
        #[trigger] rest[j],
        lines,
        cmds.drop_first()[j],
        times.drop_first()[j],
        rest[j + 1],
        replies.drop_first()[j],
    ) by {
        assert(command_outcome(spaces[j + 1], lines, cmds[j + 1], times[j + 1], spaces[j + 2], replies[j + 1]));
    }
    lemma_run_keeps_key(rest, lines, cmds.drop_first(), times.drop_first(), replies.drop_first(), k, later);
}

/// After `SET k v EX n` at `t` (milliseconds), `GET k` answers `v` at any
/// instant before `t + 1000 n` and the null bulk string from that instant
/// on, when an expiry is due at or before the current instant.
pub proof fn lemma_ttl(
    before: Map<Seq<char>, EntryModel>,
    lines: Seq<Seq<char>>,
    k: Seq<char>,
    v: Seq<char>,
    n: u64,
    t: i64,
    after: Map<Seq<char>, EntryModel>,
    r: Result<Frame, Option<CommandErrorModel>>,
    later: i64,
)
    requires
        command_outcome(before, lines, CommandModel::SetKey(k, v, Some(Expiry::Time(Time::Seconds(n)))), t, after, r),
        r is Ok,
    ensures
        later < t + n * 1000 ==> get_reply(after, k, later) == Frame::Bulk(Some(v)),
        later >= t + n * 1000 ==> get_reply(after, k, later) == Frame::Bulk(None),
{
}

/// After `SET k v EX n` at `t`, and any commands that do not set `k`,
/// `GET k` answers `v` before `t + 1000 n` and the null bulk string from
/// then on.
pub proof fn lemma_ttl_run(
    spaces: Seq<Map<Seq<char>, EntryModel>>,
    lines: Seq<Seq<char>>,
    cmds: Seq<CommandModel>,
    times: Seq<i64>,
    replies: Seq<Result<Frame, Option<CommandErrorModel>>>,
    k: Seq<char>,
    v: Seq<char>,
    n: u64,
    later: i64,
)
    requires
        executed(spaces, lines, cmds, times, replies),
        cmds.len() >= 1,
        cmds[0] == CommandModel::SetKey(k, v, Some(Expiry::Time(Time::Seconds(n)))),
        replies[0] is Ok,
        leaves_key(cmds.drop_first(), k),
    ensures
        later < times[0] + n * 1000 ==> get_reply(spaces.last(), k, later) == Frame::Bulk(Some(v)),
        later >= times[0] + n * 1000 ==> get_reply(spaces.last(), k, later) == Frame::Bulk(None),
{
    assert(command_outcome(spaces[0], lines, cmds[0], times[0], spaces[1], replies[0]));
    lemma_ttl(spaces[0], lines, k, v, n, times[0], spaces[1], replies[0], later);
    let rest = spaces.drop_first();
    assert forall|j: int| 0 <= j < cmds.drop_first().len() implies command_outcome(
        #[trigger] rest[j],
        lines,
        cmds.drop_first()[j],
        times.drop_first()[j],
        rest[j + 1],
        replies.drop_first()[j],
    ) by {
        assert(command_outcome(spaces[j + 1], lines, cmds[j + 1], times[j + 1], spaces[j + 2], replies[j + 1]));
    }
    lemma_run_keeps_key(rest, lines, cmds.drop_first(), times.drop_first(), replies.drop_first(), k, later);
}

/// `INFO replication` on a master answers exactly the three lines
/// `role:master`, `master_replid:<id>` and `master_repl_offset:<offset>`,
/// separated by `\r\n`.
pub proof fn lemma_master_info_shape(id: Seq<char>, offset: nat)
    ensures
        join_lines(master_lines(id, offset)) == "role:master"@ + "\r\n"@ + ("master_replid:"@ + id) + "\r\n"@
            + ("master_repl_offset:"@ + decimal_text(offset)),
{
    let l = master_lines(id, offset);
    let l1 = seq!["role:master"@];
    let l2 = seq!["role:master"@, "master_replid:"@ + id];
    assert(l.drop_last() =~= l2);
    assert(l2.drop_last() =~= l1);
    assert(join_lines(l1) == "role:master"@);
    assert(join_lines(l2) == join_lines(l1) + "\r\n"@ + ("master_replid:"@ + id));
    assert(join_lines(l) == join_lines(l2) + "\r\n"@ + ("master_repl_offset:"@ + decimal_text(offset)));
}

} // verus!
