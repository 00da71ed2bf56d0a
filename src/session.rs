//! The decision a connection makes on each value it reads.

use crate::cmd::{command_of, error_message, Command, CommandModel};
use crate::resp::value::{frames_of, lemma_frames_of_push, Frame, Value};
use crate::server::Response;
use vstd::prelude::*;

verus! {

/// What a session does with a value it read.
pub enum Dispatch {
    /// Answer the client directly with this response.
    Reply(Response),
    /// Hand the command to the server actor and relay its response.
    Forward(Command),
}

/// The reply a session gives without the actor: `PING` and `ECHO`.
pub open spec fn local_reply(c: CommandModel) -> Option<Frame> {
    match c {
        CommandModel::Ping(None) => Some(Frame::Simple("PONG"@)),
        CommandModel::Ping(Some(m)) => Some(Frame::Array(seq![Frame::Bulk(Some("PONG"@)), Frame::Bulk(Some(m))])),
        CommandModel::Echo(m) => Some(Frame::Bulk(Some(m))),
        _ => None,
    }
}

/// The reply to `PING` or `ECHO`.
pub fn answer_locally(cmd: &Command) -> (r: Value)
    requires
        cmd is Ping || cmd is Echo,
    ensures
        local_reply(cmd@) == Some(r@),
{
    match cmd {
        Command::Ping(None) => Value::simple("PONG"),
        Command::Ping(Some(m)) => {
            let mut items: Vec<Value> = Vec::new();
            let pong = Value::bulk("PONG");
            let msg = Value::bulk(m.as_str());
            proof {
                lemma_frames_of_push(items@, pong);
                lemma_frames_of_push(items@.push(pong), msg);
                assert(frames_of(Seq::<Value>::empty()) =~= Seq::<Frame>::empty());
                assert(Seq::<Frame>::empty().push(pong@).push(msg@) =~= seq![pong@, msg@]);
            }
            items.push(pong);
            items.push(msg);
            Value::Array(items)
        },
        Command::Echo(m) => Value::bulk(m.as_str()),
        Command::Get { .. } | Command::SetKey { .. } | Command::Info { .. } => Value::null_bulk(),
    }
}

/// Decides what to do with a value read from a client: a command error is
/// answered with an error reply, `PING` and `ECHO` are answered directly,
/// and every other command goes to the actor.
pub fn dispatch(value: Value) -> (r: Dispatch)
    ensures
        match command_of(value@) {
            Err(e) => r matches Dispatch::Reply(resp) && resp.0@ == Frame::Error(error_message(e)),
            Ok(c) => match local_reply(c) {
                Some(f) => r matches Dispatch::Reply(resp) && resp.0@ == f,
                None => r matches Dispatch::Forward(cmd) && cmd@ == c,
            },
        },
{
    match Command::try_from(value) {
        Err(e) => {
            let m = e.message();
            Dispatch::Reply(Response(Value::error(m.as_str())))
        },
        Ok(cmd) => if matches!(cmd, Command::Ping(_) | Command::Echo(_)) {
            Dispatch::Reply(Response(answer_locally(&cmd)))
        } else {
            Dispatch::Forward(cmd)
        },
    }
}

/// Where a connection stands.
#[derive(Debug, Clone, Copy, PartialEq, Eq, Structural)]
pub enum SessionState {
    /// Waiting for the next value from the client.
    Reading,
    /// Waiting for the actor's response to a forwarded command.
    Awaiting,
    /// The connection is to be closed.
    Terminated,
}

/// What happened on a connection.
pub enum SessionEvent {
    /// A complete value was read from the client.
    Decoded(Value),
    /// The client's bytes cannot be decoded.
    DecodeFailed,
    /// The client closed the connection.
    PeerClosed,
    /// The actor answered the forwarded command.
    Answered(Response),
    /// The actor is gone.
    ActorGone,
}

/// What the connection does next.
pub enum SessionAction {
    /// Write this response to the client, then read on.
    Write(Response),
    /// Send this command to the actor and wait for its response.
    Forward(Command),
    /// Close the connection.
    Close,
}

impl SessionState {
    /// The next state and action of a connection on `event`. Decode errors,
    /// a closed peer and a vanished actor end the connection; command errors
    /// do not.
    pub fn step(self, event: SessionEvent) -> (r: (SessionState, SessionAction))
        ensures
            match (self, event) {
                (SessionState::Reading, SessionEvent::Decoded(v)) => match command_of(v@) {
                    Err(e) => r.0 == SessionState::Reading && (r.1 matches SessionAction::Write(resp)
                        && resp.0@ == Frame::Error(error_message(e))),
                    Ok(c) => match local_reply(c) {
                        Some(f) => r.0 == SessionState::Reading && (r.1 matches SessionAction::Write(resp)
                            && resp.0@ == f),
                        None => r.0 == SessionState::Awaiting && (r.1 matches SessionAction::Forward(cmd)
                            && cmd@ == c),
                    },
                },
                (SessionState::Awaiting, SessionEvent::Answered(resp)) => r.0 == SessionState::Reading
                    && (r.1 matches SessionAction::Write(x) && x.0@ == resp.0@),
                _ => r.0 == SessionState::Terminated && r.1 is Close,
            },
    {
        match (self, event) {
            (SessionState::Reading, SessionEvent::Decoded(v)) => match dispatch(v) {
                Dispatch::Reply(resp) => (SessionState::Reading, SessionAction::Write(resp)),
                Dispatch::Forward(cmd) => (SessionState::Awaiting, SessionAction::Forward(cmd)),
            },
            (SessionState::Awaiting, SessionEvent::Answered(resp)) => (SessionState::Reading, SessionAction::Write(resp)),
            _ => (SessionState::Terminated, SessionAction::Close),
        }
    }
}

} // verus!
