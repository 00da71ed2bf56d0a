use memora::clock::now_millis;
use memora::cmd::{Command, CommandError, Expiry, InfoError, SetError, Time};
use memora::error::MemoraError;
use memora::framer::RespFramer;
use memora::opts::{Opts, OptsError, DEFAULT_PORT};
use memora::resp::Value;
use memora::role::{HandshakeError, HandshakeStep, Master, Replica, Role};
use memora::server::{Memora, Response};
use memora::session::{dispatch, Dispatch, SessionAction, SessionEvent, SessionState};

const NOW: i64 = 1_700_000_000_000;

/// Runs the bytes a client sends through framing, dispatch and the actor,
/// and returns the bytes the server writes back.
fn exchange(server: &mut Memora, input: &[u8], now: i64) -> Vec<u8> {
    let mut framer = RespFramer;
    let mut buf = input.to_vec();
    let mut out = Vec::new();
    while let Some(value) = framer.decode(&mut buf).expect("decode") {
        let response = match dispatch(value) {
            Dispatch::Reply(r) => r,
            Dispatch::Forward(cmd) => server.handle_command(cmd, now).expect("command"),
        };
        response.encode(&mut out);
    }
    assert!(buf.is_empty());
    out
}

fn master_server() -> Memora {
    Memora::new(Role::Master(Master::new()))
}

#[test]
fn ping_scenario() {
    let mut server = master_server();
    assert_eq!(exchange(&mut server, b"*1\r\n$4\r\nPING\r\n", NOW), b"+PONG\r\n".to_vec());
}

#[test]
fn ping_with_message_scenario() {
    let mut server = master_server();
    assert_eq!(
        exchange(&mut server, b"*2\r\n$4\r\nPING\r\n$2\r\nhi\r\n", NOW),
        b"*2\r\n$4\r\nPONG\r\n$2\r\nhi\r\n".to_vec()
    );
}

#[test]
fn echo_scenario() {
    let mut server = master_server();
    assert_eq!(exchange(&mut server, b"*2\r\n$4\r\nECHO\r\n$3\r\nhey\r\n", NOW), b"$3\r\nhey\r\n".to_vec());
}

#[test]
fn set_then_get_scenario() {
    let mut server = master_server();
    assert_eq!(exchange(&mut server, b"*3\r\n$3\r\nSET\r\n$3\r\nkey\r\n$3\r\nval\r\n", NOW), b"+OK\r\n".to_vec());
    assert_eq!(exchange(&mut server, b"*2\r\n$3\r\nGET\r\n$3\r\nkey\r\n", NOW), b"$3\r\nval\r\n".to_vec());
}

#[test]
fn replies_come_in_request_order() {
    let mut server = master_server();
    let input = b"*3\r\n$3\r\nSET\r\n$1\r\na\r\n$1\r\n1\r\n*2\r\n$3\r\nGET\r\n$1\r\na\r\n*1\r\n$4\r\nPING\r\n*2\r\n$3\r\nGET\r\n$1\r\nb\r\n";
    assert_eq!(exchange(&mut server, input, NOW), b"+OK\r\n$1\r\n1\r\n+PONG\r\n$-1\r\n".to_vec());
}

#[test]
fn px_expiry_scenario() {
    let mut server = master_server();
    let set = b"*5\r\n$3\r\nSET\r\n$1\r\nk\r\n$1\r\nv\r\n$2\r\nPX\r\n$3\r\n100\r\n";
    assert_eq!(exchange(&mut server, set, NOW), b"+OK\r\n".to_vec());
    assert_eq!(exchange(&mut server, b"*2\r\n$3\r\nGET\r\n$1\r\nk\r\n", NOW + 50), b"$1\r\nv\r\n".to_vec());
    assert_eq!(exchange(&mut server, b"*2\r\n$3\r\nGET\r\n$1\r\nk\r\n", NOW + 200), b"$-1\r\n".to_vec());
}

#[test]
fn ex_expiry_boundaries() {
    let mut server = master_server();
    let cmd = Command::SetKey { key: "k".to_owned(), value: "v".to_owned(), expiry: Some(Expiry::Time(Time::Seconds(2))) };
    server.handle_command(cmd, NOW).expect("set");
    let get = |server: &mut Memora, at: i64| {
        server.handle_command(Command::Get { key: "k".to_owned() }, at).expect("get").0
    };
    assert_eq!(get(&mut server, NOW + 1999), Value::bulk("v"));
    assert_eq!(get(&mut server, NOW + 2000), Value::null_bulk());
    assert_eq!(get(&mut server, NOW + 2001), Value::null_bulk());
}

#[test]
fn absolute_expiry_and_overwrite() {
    let mut server = master_server();
    let at = Command::SetKey {
        key: "k".to_owned(),
        value: "old".to_owned(),
        expiry: Some(Expiry::Unix(Time::Millis((NOW + 10) as u64))),
    };
    server.handle_command(at, NOW).expect("set");
    let plain = Command::SetKey { key: "k".to_owned(), value: "new".to_owned(), expiry: None };
    server.handle_command(plain, NOW).expect("set");
    let got = server.handle_command(Command::Get { key: "k".to_owned() }, NOW + 1_000_000).expect("get");
    assert_eq!(got.0, Value::bulk("new"));
    let past = Command::SetKey { key: "p".to_owned(), value: "x".to_owned(), expiry: Some(Expiry::Unix(Time::Seconds(1))) };
    server.handle_command(past, NOW).expect("set");
    assert_eq!(server.handle_command(Command::Get { key: "p".to_owned() }, NOW).expect("get").0, Value::null_bulk());
}

#[test]
fn expiry_out_of_range_is_refused() {
    let mut server = master_server();
    let far = Command::SetKey { key: "k".to_owned(), value: "v".to_owned(), expiry: Some(Expiry::Time(Time::Seconds(u64::MAX))) };
    assert!(matches!(
        server.handle_command(far, NOW),
        Err(MemoraError::Command(CommandError::SetCommand(SetError::InvalidExpiry)))
    ));
    let year_300000 = Command::SetKey {
        key: "k".to_owned(),
        value: "v".to_owned(),
        expiry: Some(Expiry::Unix(Time::Seconds(9_000_000_000_000))),
    };
    assert!(server.handle_command(year_300000, NOW).is_err());
    assert_eq!(server.handle_command(Command::Get { key: "k".to_owned() }, NOW).expect("get").0, Value::null_bulk());
}

#[test]
fn expiry_resolves_against_now() {
    assert_eq!(Expiry::Time(Time::Millis(100)).into_utc(NOW), Some(NOW + 100));
    assert_eq!(Expiry::Time(Time::Seconds(3)).into_utc(NOW), Some(NOW + 3000));
    assert_eq!(Expiry::Unix(Time::Seconds(5)).into_utc(NOW), Some(5000));
    assert_eq!(Expiry::Unix(Time::Millis(u64::MAX)).into_utc(NOW), None);
    assert_eq!(Expiry::Unix(Time::Millis(8_210_266_876_799_999)).into_utc(NOW), Some(8_210_266_876_799_999));
    assert_eq!(Expiry::Unix(Time::Millis(8_210_266_876_800_000)).into_utc(NOW), None);
    assert_eq!(Expiry::Time(Time::Millis(1)).into_utc(-8_334_601_228_800_001), Some(-8_334_601_228_800_000));
    assert_eq!(Expiry::Time(Time::Millis(0)).into_utc(-8_334_601_228_800_001), None);
}

#[test]
fn wall_clock_set_and_get() {
    let mut server = master_server();
    let before = now_millis();
    assert!(before > 1_600_000_000_000);
    let cmd = Command::SetKey { key: "k".to_owned(), value: "v".to_owned(), expiry: Some(Expiry::Time(Time::Seconds(60))) };
    assert_eq!(server.execute(cmd).expect("set").0, Value::simple("OK"));
    assert_eq!(server.execute(Command::Get { key: "k".to_owned() }).expect("get").0, Value::bulk("v"));
}

#[test]
fn info_replication_on_master() {
    let master = Master::new();
    let id = master.id.as_str().to_owned();
    assert_eq!(id.len(), 40);
    assert!(id.chars().all(|c| c.is_ascii_alphanumeric()));
    let mut server = Memora::new(Role::Master(master));
    let expected = format!("role:master\r\nmaster_replid:{id}\r\nmaster_repl_offset:0");
    let input = b"*2\r\n$4\r\nINFO\r\n$11\r\nreplication\r\n";
    let reply = exchange(&mut server, input, NOW);
    assert_eq!(reply, format!("${}\r\n{}\r\n", expected.len(), expected).into_bytes());
    let plain = server.handle_command(Command::Info { section: None }, NOW).expect("info");
    assert_eq!(plain.0, Value::bulk(&expected));
}

#[test]
fn master_info_lines_and_offset() {
    let master = Master { id: Master::new().id, offset: 1234 };
    let lines = master.info();
    assert_eq!(lines.len(), 3);
    assert_eq!(lines[0], "role:master");
    assert!(lines[1].starts_with("master_replid:"));
    assert_eq!(lines[2], "master_repl_offset:1234");
    assert_ne!(Master::new().id.as_str(), Master::new().id.as_str());
}

#[test]
fn info_on_replica_and_unknown_section() {
    let mut server = Memora::new(Role::Replica(Replica::of(6380, "localhost".to_owned(), 6379)));
    let reply = server.handle_command(Command::Info { section: Some("Replication".to_owned()) }, NOW).expect("info");
    assert_eq!(reply.0, Value::bulk("role:slave"));
    let err = server.handle_command(Command::Info { section: Some("memory".to_owned()) }, NOW);
    assert!(matches!(
        err,
        Err(MemoraError::Command(CommandError::Info(InfoError::UnknownSection(s)))) if s == "memory"
    ));
}

#[test]
fn command_errors_become_error_replies() {
    let mut server = master_server();
    assert_eq!(exchange(&mut server, b"*1\r\n$3\r\nFOO\r\n", NOW), b"-unknown command FOO\r\n".to_vec());
    assert_eq!(exchange(&mut server, b"*1\r\n$3\r\nGET\r\n", NOW), b"-missing key for `GET` command\r\n".to_vec());
    assert_eq!(exchange(&mut server, b"+PING\r\n", NOW), b"-invalid command\r\n".to_vec());
}

#[test]
fn framer_keeps_partial_input() {
    let mut framer = RespFramer;
    let mut buf = b"*1\r\n$4\r\nPI".to_vec();
    assert_eq!(framer.decode(&mut buf).expect("decode"), None);
    assert_eq!(buf, b"*1\r\n$4\r\nPI".to_vec());
    buf.extend_from_slice(b"NG\r\n+x");
    assert_eq!(framer.decode(&mut buf).expect("decode"), Some(Value::from_iter(vec![Value::bulk("PING")])));
    assert_eq!(buf, b"+x".to_vec());
    let mut out = Vec::new();
    framer.encode(&Value::simple("OK"), &mut out);
    assert_eq!(out, b"+OK\r\n".to_vec());
    assert_eq!(Response::ok().0, Value::simple("OK"));
}

fn encoded(value: &Value) -> Vec<u8> {
    let mut buf = Vec::new();
    value.encode(&mut buf);
    buf
}

#[test]
fn replica_handshake_messages() {
    let replica = Replica::of(6380, "127.0.0.1".to_owned(), 6379);
    let (step, ping) = replica.handshake_start();
    assert_eq!(step, HandshakeStep::AwaitPong);
    assert_eq!(encoded(&ping), b"*1\r\n$4\r\nPING\r\n".to_vec());

    let (step, msg) = replica.handshake_next(step, Some(Value::simple("PONG"))).expect("pong");
    assert_eq!(step, HandshakeStep::AwaitPortAck);
    assert_eq!(
        encoded(&msg.expect("port message")),
        b"*3\r\n$8\r\nREPLCONF\r\n$14\r\nlistening-port\r\n$4\r\n6380\r\n".to_vec()
    );

    let (step, msg) = replica.handshake_next(step, Some(Value::simple("OK"))).expect("port ok");
    assert_eq!(step, HandshakeStep::AwaitCapaAck);
    assert_eq!(encoded(&msg.expect("capa message")), b"*3\r\n$8\r\nREPLCONF\r\n$4\r\ncapa\r\n$6\r\npsync2\r\n".to_vec());

    let (step, msg) = replica.handshake_next(step, Some(Value::bulk("ok"))).expect("capa ok");
    assert_eq!(step, HandshakeStep::Done);
    assert!(msg.is_none());
}

#[test]
fn replica_handshake_failures() {
    let replica = Replica::of(6380, "127.0.0.1".to_owned(), 6379);
    assert!(matches!(replica.handshake_next(HandshakeStep::AwaitPong, None), Err(HandshakeError::Closed)));
    assert!(matches!(
        replica.handshake_next(HandshakeStep::AwaitPortAck, Some(Value::error("ERR"))),
        Err(HandshakeError::InvalidResponse(v)) if v == Value::error("ERR")
    ));
    assert!(matches!(
        replica.handshake_next(HandshakeStep::AwaitCapaAck, Some(Value::simple("NOPE"))),
        Err(HandshakeError::InvalidResponse(_))
    ));
}

#[test]
fn replica_of_options() {
    let plain = Opts { port: DEFAULT_PORT, replicaof: None };
    assert_eq!(plain.replica_of(), Ok(None));
    let replica = Opts { port: 6380, replicaof: Some(vec!["localhost".to_owned(), "6379".to_owned()]) };
    assert_eq!(replica.replica_of(), Ok(Some(("localhost".to_owned(), 6379))));
    let short = Opts { port: 6380, replicaof: Some(vec!["localhost".to_owned()]) };
    assert_eq!(short.replica_of(), Err(OptsError::InvalidFormat));
    let big = Opts { port: 6380, replicaof: Some(vec!["h".to_owned(), "65536".to_owned()]) };
    assert_eq!(big.replica_of(), Err(OptsError::InvalidPort("65536".to_owned())));
    let word = Opts { port: 6380, replicaof: Some(vec!["h".to_owned(), "port".to_owned()]) };
    assert_eq!(word.replica_of(), Err(OptsError::InvalidPort("port".to_owned())));
}

#[test]
fn session_state_machine() {
    let ping = Value::from_iter(vec![Value::bulk("PING")]);
    let (state, action) = SessionState::Reading.step(SessionEvent::Decoded(ping));
    assert_eq!(state, SessionState::Reading);
    assert!(matches!(action, SessionAction::Write(r) if r.0 == Value::simple("PONG")));

    let get = Value::from_iter(vec![Value::bulk("GET"), Value::bulk("k")]);
    let (state, action) = SessionState::Reading.step(SessionEvent::Decoded(get));
    assert_eq!(state, SessionState::Awaiting);
    assert!(matches!(action, SessionAction::Forward(Command::Get { key }) if key == "k"));

    let (state, action) = state.step(SessionEvent::Answered(Response(Value::null_bulk())));
    assert_eq!(state, SessionState::Reading);
    assert!(matches!(action, SessionAction::Write(r) if r.0 == Value::null_bulk()));

    let bad = Value::from_iter(vec![Value::bulk("NOPE")]);
    let (state, action) = SessionState::Reading.step(SessionEvent::Decoded(bad));
    assert_eq!(state, SessionState::Reading);
    assert!(matches!(action, SessionAction::Write(r) if r.0 == Value::error("unknown command NOPE")));

    for event in [SessionEvent::DecodeFailed, SessionEvent::PeerClosed] {
        let (state, action) = SessionState::Reading.step(event);
        assert_eq!(state, SessionState::Terminated);
        assert!(matches!(action, SessionAction::Close));
    }
    let (state, action) = SessionState::Awaiting.step(SessionEvent::ActorGone);
    assert_eq!(state, SessionState::Terminated);
    assert!(matches!(action, SessionAction::Close));
}
