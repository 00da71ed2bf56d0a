use memora::cmd::{Command, CommandError, Expiry, GetError, SetError, Time};
use memora::error::MemoraError;
use memora::resp::{RespError, Value};

fn args(items: &[&str]) -> Value {
    Value::from_iter(items.iter().map(|s| Value::bulk(s)).collect())
}

#[test]
fn should_parse_echo() {
    let cmd = "*2\r\n$4\r\necho\r\n$3\r\nhey\r\n".parse::<Command>().expect("parse echo");

    assert_eq!(cmd, Command::Echo("hey".to_owned()));
}

#[test]
fn parse_text_reports_partial_and_bad_input() {
    assert!(matches!(
        Command::parse_text("*2\r\n$4\r\necho\r\n"),
        Err(MemoraError::Command(CommandError::InvalidCommand))
    ));
    assert!(matches!(Command::parse_text("?"), Err(MemoraError::Resp(RespError::InvalidToken))));
    assert!(matches!(
        Command::parse_text("*1\r\n$4\r\nnope\r\n"),
        Err(MemoraError::Command(CommandError::UnknownCommand(n))) if n == "nope"
    ));
}

#[test]
fn ping_with_and_without_message() {
    assert_eq!(Command::try_from(args(&["PING"])), Ok(Command::Ping(None)));
    assert_eq!(Command::try_from(args(&["ping", "hi"])), Ok(Command::Ping(Some("hi".to_owned()))));
    assert_eq!(
        Command::try_from(Value::from_iter(vec![Value::bulk("ping"), Value::null_bulk()])),
        Ok(Command::Ping(Some(String::new())))
    );
    assert_eq!(
        Command::try_from(Value::from_iter(vec![Value::bulk("ping"), Value::Int(3)])),
        Err(CommandError::InvalidArgument(Value::Int(3)))
    );
}

#[test]
fn echo_needs_a_message() {
    assert_eq!(Command::try_from(args(&["ECHO"])), Err(CommandError::InvalidCommand));
    assert_eq!(Command::try_from(args(&["echo", "x y"])), Ok(Command::Echo("x y".to_owned())));
}

#[test]
fn set_with_each_expiry_keyword() {
    let cases = [
        ("EX", Expiry::Time(Time::Seconds(10))),
        ("px", Expiry::Time(Time::Millis(10))),
        ("ExAt", Expiry::Unix(Time::Seconds(10))),
        ("pXaT", Expiry::Unix(Time::Millis(10))),
    ];
    for (kw, expiry) in cases {
        assert_eq!(
            Command::try_from(args(&["set", "k", "v", kw, "10"])),
            Ok(Command::SetKey { key: "k".to_owned(), value: "v".to_owned(), expiry: Some(expiry) })
        );
    }
    assert_eq!(
        Command::try_from(args(&["SET", "k", "v"])),
        Ok(Command::SetKey { key: "k".to_owned(), value: "v".to_owned(), expiry: None })
    );
}

#[test]
fn command_names_ignore_ascii_case() {
    let spellings = ["set", "SET", "Set", "sEt", "seT"];
    let keywords = ["px", "PX", "Px", "pX"];
    for name in spellings {
        for kw in keywords {
            assert_eq!(
                Command::try_from(args(&[name, "key", "val", kw, "100"])),
                Ok(Command::SetKey {
                    key: "key".to_owned(),
                    value: "val".to_owned(),
                    expiry: Some(Expiry::Time(Time::Millis(100))),
                })
            );
        }
    }
    for name in ["get", "GET", "gEt"] {
        assert_eq!(Command::try_from(args(&[name, "k"])), Ok(Command::Get { key: "k".to_owned() }));
    }
}

#[test]
fn set_errors() {
    assert_eq!(Command::try_from(args(&["SET"])), Err(CommandError::SetCommand(SetError::MissingKey)));
    assert_eq!(Command::try_from(args(&["SET", "k"])), Err(CommandError::SetCommand(SetError::MissingValue)));
    assert_eq!(
        Command::try_from(args(&["SET", "k", "v", "EX"])),
        Err(CommandError::SetCommand(SetError::MissingExpiry))
    );
    assert_eq!(
        Command::try_from(args(&["SET", "k", "v", "KEEPTTL", "1"])),
        Err(CommandError::InvalidArgument(Value::bulk("KEEPTTL")))
    );
    assert_eq!(
        Command::try_from(args(&["SET", "k", "v", "EX", "-1"])),
        Err(CommandError::InvalidArgument(Value::bulk("-1")))
    );
    assert_eq!(
        Command::try_from(args(&["SET", "k", "v", "EX", "18446744073709551616"])),
        Err(CommandError::InvalidArgument(Value::bulk("18446744073709551616")))
    );
    assert_eq!(
        Command::try_from(Value::from_iter(vec![Value::bulk("SET"), Value::Int(1), Value::bulk("v")])),
        Err(CommandError::InvalidArgument(Value::Int(1)))
    );
}

#[test]
fn expiry_amount_follows_integer_parsing() {
    assert_eq!(
        Command::try_from(args(&["SET", "k", "v", "EX", "+007"])),
        Ok(Command::SetKey { key: "k".to_owned(), value: "v".to_owned(), expiry: Some(Expiry::Time(Time::Seconds(7))) })
    );
    assert_eq!(
        Command::try_from(args(&["SET", "k", "v", "EX", "18446744073709551615"])),
        Ok(Command::SetKey {
            key: "k".to_owned(),
            value: "v".to_owned(),
            expiry: Some(Expiry::Time(Time::Seconds(u64::MAX))),
        })
    );
}

#[test]
fn get_and_info_arguments() {
    assert_eq!(Command::try_from(args(&["GET"])), Err(CommandError::Get(GetError::MissingKey)));
    assert_eq!(
        Command::try_from(Value::from_iter(vec![Value::bulk("GET"), Value::null_bulk()])),
        Err(CommandError::InvalidArgument(Value::null_bulk()))
    );
    assert_eq!(Command::try_from(args(&["INFO"])), Ok(Command::Info { section: None }));
    assert_eq!(
        Command::try_from(args(&["info", "replication"])),
        Ok(Command::Info { section: Some("replication".to_owned()) })
    );
}

#[test]
fn non_commands_are_invalid() {
    assert_eq!(Command::try_from(Value::bulk("PING")), Err(CommandError::InvalidCommand));
    assert_eq!(Command::try_from(Value::from_iter(vec![])), Err(CommandError::InvalidCommand));
    assert_eq!(Command::try_from(Value::from_iter(vec![Value::Int(1)])), Err(CommandError::InvalidCommand));
    assert_eq!(Command::try_from(args(&["FLUSHALL"])), Err(CommandError::UnknownCommand("FLUSHALL".to_owned())));
}

#[test]
fn error_messages() {
    assert_eq!(CommandError::UnknownCommand("foo".to_owned()).message(), "unknown command foo");
    assert_eq!(CommandError::SetCommand(SetError::MissingKey).message(), "missing key for `SET` command");
    assert_eq!(CommandError::Get(GetError::MissingKey).message(), "missing key for `GET` command");
    assert_eq!(CommandError::InvalidCommand.message(), "invalid command");
}
