use memora::resp::{RespError, StringValue, Token, Value};

fn encoded(value: &Value) -> Vec<u8> {
    let mut buf = Vec::new();
    value.encode(&mut buf);
    buf
}

#[test]
fn resp_should_lex() {
    let expected = [
        Token::Star,
        Token::Int(2),
        Token::Dollar,
        Token::Int(4),
        Token::Str("echo".to_string()),
        Token::Dollar,
        Token::Int(3),
        Token::Str("hey".to_string()),
    ];

    let lex = Token::lex(b"*2\r\n$4\r\necho\r\n$3\r\nhey\r\n").expect("lex");
    assert_eq!(lex.len(), expected.len());
    for (expected, tok) in expected.into_iter().zip(lex) {
        assert_eq!(tok, expected);
    }
}

#[test]
fn parser_should_lex() {
    let expected = [
        Token::Star,
        Token::Int(2),
        Token::Dollar,
        Token::Int(4),
        Token::Str("echo".to_string()),
        Token::Dollar,
        Token::Int(3),
        Token::Str("hey".to_string()),
    ];

    let lex = Token::lex("*2\r\n$4\r\necho\r\n$3\r\nhey\r\n".as_bytes()).expect("lex");
    for (expected, tok) in expected.into_iter().zip(lex) {
        assert_eq!(tok, expected);
    }
}

#[test]
fn resp_should_parse() {
    let (value, used) = Value::parse(b"*2\r\n$4\r\necho\r\n$3\r\nhey\r\n")
        .expect("parse value")
        .expect("parse value");
    assert_eq!(value, Value::from_iter(vec![Value::bulk("echo"), Value::bulk("hey")]));
    assert_eq!(used, 23);
}

#[test]
fn parser_should_parse() {
    let (value, _) = Value::parse("*2\r\n$4\r\necho\r\n$3\r\nhey\r\n".as_bytes())
        .expect("parse value")
        .expect("parse value");
    assert_eq!(value, Value::from_iter(vec![Value::bulk("echo"), Value::bulk("hey")]));
}

#[test]
fn parse_simple() {
    let (value, _) = Value::parse(b"+OK\r\n").expect("parse value").expect("parse value");
    assert_eq!(value, Value::simple("OK"))
}

#[test]
fn resp_should_encode_value() {
    let value = Value::from_iter(vec![Value::bulk("echo"), Value::bulk("hey")]);
    let str = String::from_utf8(encoded(&value)).expect("read encoded value");
    assert_eq!(str, "*2\r\n$4\r\necho\r\n$3\r\nhey\r\n");
}

#[test]
fn value_should_encode_value() {
    let value = Value::from_iter(vec![Value::bulk("echo"), Value::bulk("hey")]);
    let mut buf = Vec::new();
    value.encode(&mut buf);
    assert_eq!(buf, b"*2\r\n$4\r\necho\r\n$3\r\nhey\r\n".to_vec());
}

#[test]
fn encodes_each_kind() {
    assert_eq!(encoded(&Value::simple("PONG")), b"+PONG\r\n".to_vec());
    assert_eq!(encoded(&Value::error("bad thing")), b"-bad thing\r\n".to_vec());
    assert_eq!(encoded(&Value::null_bulk()), b"$-1\r\n".to_vec());
    assert_eq!(encoded(&Value::bulk("")), b"$0\r\n\r\n".to_vec());
    assert_eq!(encoded(&Value::Int(-42)), b":-42\r\n".to_vec());
    assert_eq!(encoded(&Value::Int(i64::MIN)), b":-9223372036854775808\r\n".to_vec());
    assert_eq!(encoded(&Value::from_iter(vec![])), b"*0\r\n".to_vec());
}

#[test]
fn bulk_length_counts_utf8_bytes() {
    assert_eq!(encoded(&Value::bulk("h\u{e9}")), "$3\r\nh\u{e9}\r\n".as_bytes().to_vec());
}

#[test]
fn round_trip_of_nested_values() {
    let values = vec![
        Value::from_iter(vec![
            Value::bulk("two words"),
            Value::Int(0),
            Value::Int(i64::MAX),
            Value::Int(i64::MIN),
            Value::from_iter(vec![Value::null_bulk(), Value::simple("OK"), Value::error("ERR no")]),
            Value::bulk("caf\u{e9} 123"),
            Value::bulk(""),
        ]),
        Value::Int(-7),
        Value::bulk("line\r\nbreak inside a bulk"),
    ];
    for value in values {
        let bytes = encoded(&value);
        let (back, used) = Value::parse(&bytes).expect("parse").expect("complete");
        assert_eq!(back, value);
        assert_eq!(used, bytes.len());
    }
}

#[test]
fn strict_prefixes_never_fail() {
    let value = Value::from_iter(vec![
        Value::bulk("SET"),
        Value::bulk("k"),
        Value::Int(-120),
        Value::simple("done"),
        Value::null_bulk(),
    ]);
    let bytes = encoded(&value);
    for k in 0..bytes.len() {
        match Value::parse(&bytes[..k]) {
            Ok(None) => {}
            Ok(Some((v, used))) => {
                assert_eq!(v, value, "prefix of {k} bytes");
                assert_eq!(used, k, "prefix of {k} bytes");
            }
            Err(e) => panic!("prefix of {k} bytes failed: {e:?}"),
        }
    }
    assert_eq!(Value::parse(&bytes[..bytes.len() - 2]), Ok(None));
    assert_eq!(Value::parse(&bytes).expect("parse").expect("complete").1, bytes.len());
}

#[test]
fn parse_leaves_following_bytes() {
    let (value, used) = Value::parse(b"+OK\r\n+NEXT\r\n").expect("parse").expect("complete");
    assert_eq!(value, Value::simple("OK"));
    assert_eq!(used, 5);
}

#[test]
fn parse_skips_leading_line_breaks() {
    let (value, used) = Value::parse(b"\r\n\r\n:5\r\n").expect("parse").expect("complete");
    assert_eq!(value, Value::Int(5));
    assert_eq!(used, 8);
}

#[test]
fn null_bulk_parses() {
    let (value, _) = Value::parse(b"$-1\r\n").expect("parse").expect("complete");
    assert_eq!(value, Value::Str(StringValue::Bulk(None)));
}

#[test]
fn negative_lengths_are_invalid() {
    assert_eq!(Value::parse(b"$-2\r\n"), Err(RespError::InvalidLength(-2)));
    assert_eq!(Value::parse(b"*-1\r\n"), Err(RespError::InvalidLength(-1)));
    assert_eq!(Value::parse(b"*-2"), Err(RespError::InvalidLength(-2)));
    assert_eq!(Value::parse(b"$-5"), Err(RespError::InvalidLength(-5)));
}

#[test]
fn lengths_wait_for_their_end() {
    assert_eq!(Value::parse(b"$-1"), Ok(None));
    assert_eq!(Value::parse(b"$-"), Ok(None));
    assert_eq!(Value::parse(b"*1"), Ok(None));
    assert_eq!(Value::parse(b":12"), Ok(None));
    assert_eq!(Value::parse(b":12\r").expect("parse").expect("complete"), (Value::Int(12), 4));
}

#[test]
fn longer_payload_is_incomplete() {
    assert_eq!(Value::parse(b"$3\r\nabcd\r\n"), Ok(None));
    assert_eq!(Value::parse(b"$3\r\nabc"), Ok(None));
}

#[test]
fn line_feeds_alone_frame_values() {
    let bytes = b"*1\n$4\nPING\n";
    let (value, used) = Value::parse(bytes).expect("parse").expect("complete");
    assert_eq!(value, Value::from_iter(vec![Value::bulk("PING")]));
    assert_eq!(used, bytes.len());
    let (value, used) = Value::parse(b"*2$4\nPING\n$2hi\r\n").expect("parse").expect("complete");
    assert_eq!(value, Value::from_iter(vec![Value::bulk("PING"), Value::bulk("hi")]));
    assert_eq!(used, 16);
    assert_eq!(Value::parse(b"*1$4PING$"), Ok(None));
}

#[test]
fn unknown_bytes_are_invalid_tokens() {
    assert_eq!(Value::parse(b"?x\r\n"), Err(RespError::InvalidToken));
    assert_eq!(Value::parse(b"*x\r\n"), Err(RespError::InvalidToken));
    assert_eq!(Value::parse(b":99999999999999999999\r\n"), Err(RespError::InvalidToken));
    assert_eq!(Value::parse(b"*01\r\n").expect("parse").expect("complete"), (Value::from_iter(vec![]), 2));
}

#[test]
fn bad_utf8_payload_is_rejected() {
    assert_eq!(Value::parse(b"$2\r\n\xff\xfe\r\n"), Err(RespError::Utf8Error));
    assert_eq!(Value::parse(b"+\xff\r\n"), Err(RespError::Utf8Error));
}

#[test]
fn lexer_rejects_stray_bytes() {
    assert_eq!(Token::lex(b"*2\r\n?"), Err(RespError::InvalidToken));
    assert_eq!(Token::lex(b"-x"), Err(RespError::InvalidToken));
    assert_eq!(Token::lex(b"007"), Ok(vec![Token::Int(0), Token::Int(0), Token::Int(7)]));
    assert_eq!(Token::lex(b"\r\n-15abc+"), Ok(vec![Token::Int(-15), Token::Str("abc".to_string()), Token::Plus]));
    assert_eq!(Token::Int(3).as_int(), Some(3));
    assert_eq!(Token::Plus.as_int(), None);
}

#[test]
fn as_str_of_values() {
    assert_eq!(Value::bulk("a").as_str(), Some("a"));
    assert_eq!(Value::simple("b").as_str(), Some("b"));
    assert_eq!(Value::null_bulk().as_str(), None);
    assert_eq!(Value::Int(1).as_str(), None);
    assert_eq!(Value::error("e").as_str(), None);
}

#[test]
fn token_text() {
    assert_eq!(Token::Int(-12).into_text(), Ok("-12".to_string()));
    assert_eq!(Token::Int(i64::MIN).into_text(), Ok("-9223372036854775808".to_string()));
    assert_eq!(Token::Int(0).into_text(), Ok("0".to_string()));
    assert_eq!(Token::Str("abc".to_string()).into_text(), Ok("abc".to_string()));
    assert_eq!(Token::Dollar.into_text(), Err(RespError::InvalidToken));
}
