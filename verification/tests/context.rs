use hiredis::{Context, ErrorKind, Reply, State};

#[test]
fn set_then_get_strings() {
    let mut context = Context::new("127.0.0.1", 6379);
    assert_eq!(context.state(), State::Unconnected);
    context.connected();
    assert_eq!(context.state(), State::Connected);

    let frame = context
        .begin_command(&["SET", "hiredis-foo", "Hi, there!"])
        .unwrap();
    assert_eq!(
        frame,
        b"*3\r\n$3\r\nSET\r\n$11\r\nhiredis-foo\r\n$10\r\nHi, there!\r\n".to_vec()
    );
    match context.finish_command(b"+OK\r\n").unwrap() {
        Some((Reply::Status(text), 5)) => assert_eq!(text, "OK"),
        other => panic!("expected a status reply, got {:?}", other),
    }

    let frame = context.begin_command(&["GET", "hiredis-foo"]).unwrap();
    assert_eq!(frame, b"*2\r\n$3\r\nGET\r\n$11\r\nhiredis-foo\r\n".to_vec());
    match context.finish_command(b"$10\r\nHi, there!\r\n").unwrap() {
        Some((Reply::Bulk(data), _)) => assert_eq!(data, b"Hi, there!".to_vec()),
        other => panic!("expected a bulk reply, got {:?}", other),
    }
}

#[test]
fn set_then_get_bytes() {
    let mut context = Context::new("127.0.0.1", 6379);
    context.connected();

    let frame = context
        .begin_command(&[&b"SET"[..], &b"hiredis-bar"[..], &[42u8][..]])
        .unwrap();
    assert_eq!(frame, b"*3\r\n$3\r\nSET\r\n$11\r\nhiredis-bar\r\n$1\r\n\x2a\r\n".to_vec());
    assert!(matches!(
        context.finish_command(b"+OK\r\n").unwrap(),
        Some((Reply::Status(_), _))
    ));

    context.begin_command(&[&b"GET"[..], &b"hiredis-bar"[..]]).unwrap();
    match context.finish_command(b"$1\r\n\x2a\r\n").unwrap() {
        Some((Reply::Bulk(data), _)) => assert_eq!(data, vec![42u8]),
        other => panic!("expected a bulk reply, got {:?}", other),
    }
}

#[test]
fn push_then_pop_returns_key_and_value_in_order() {
    let mut context = Context::new("127.0.0.1", 6379);
    context.connected();

    context
        .begin_command(&["RPUSH", "hiredis-baz", "Good news, everyone!"])
        .unwrap();
    assert!(matches!(
        context.finish_command(b":1\r\n").unwrap(),
        Some((Reply::Integer(1), 4))
    ));

    context.begin_command(&["BLPOP", "hiredis-baz", "0"]).unwrap();
    let popped = context
        .finish_command(b"*2\r\n$11\r\nhiredis-baz\r\n$20\r\nGood news, everyone!\r\n")
        .unwrap();
    match popped {
        Some((Reply::Array(items), _)) => {
            assert_eq!(items.len(), 2);
            assert!(matches!(&items[0], Reply::Bulk(d) if d == b"hiredis-baz"));
            assert!(matches!(&items[1], Reply::Bulk(d) if d == b"Good news, everyone!"));
        }
        other => panic!("expected an array of two elements, got {:?}", other),
    }
}

#[test]
fn transport_failure_faults_until_reconnect() {
    let mut context = Context::new("127.0.0.1", 6379);
    context.connected();

    let e = context.transport_failed(1, String::from("connection refused"));
    assert_eq!(e.kind, ErrorKind::InputOutput);
    assert_eq!(e.message, "connection refused");
    assert_eq!(context.state(), State::Faulted);

    // While faulted, commands fail immediately with the pending error.
    let failure = context.begin_command(&["GET", "k"]).unwrap_err();
    assert_eq!(failure.kind, ErrorKind::InputOutput);
    assert_eq!(failure.message, "connection refused");

    // A failed reconnect keeps the connection faulted.
    let e = context.reconnect_failed();
    assert_eq!(e.kind, ErrorKind::Other);
    assert_eq!(e.text(), "failed to reconnect");
    assert_eq!(context.state(), State::Faulted);

    // A successful reconnect restores a usable connection.
    context.connected();
    assert_eq!(context.state(), State::Connected);
    assert!(context.begin_command(&["GET", "k"]).is_ok());
}

#[test]
fn server_errors_leave_connection_usable() {
    let mut context = Context::new("127.0.0.1", 6379);
    context.connected();
    for _ in 0..3 {
        context.begin_command(&["SET", "k"]).unwrap();
        let e = context
            .finish_command(b"-ERR wrong number of arguments for 'set' command\r\n")
            .unwrap_err();
        assert_eq!(e.kind, ErrorKind::Other);
        assert_eq!(e.message, "ERR wrong number of arguments for 'set' command");
        assert_eq!(context.state(), State::Connected);
    }
}

#[test]
fn corrupt_reply_faults_connection() {
    let mut context = Context::new("127.0.0.1", 6379);
    context.connected();
    context.begin_command(&["GET", "k"]).unwrap();
    let e = context.finish_command(b"?garbage\r\n").unwrap_err();
    assert_eq!(e.kind, ErrorKind::Other);
    assert_eq!(e.message, "failed to identify a reply");
    assert_eq!(context.state(), State::Faulted);
    let failure = context.begin_command(&["GET", "k"]).unwrap_err();
    assert_eq!(failure.message, "failed to identify a reply");
}

#[test]
fn partial_reply_asks_for_more_bytes() {
    let mut context = Context::new("127.0.0.1", 6379);
    context.connected();
    context.begin_command(&["GET", "k"]).unwrap();
    assert!(context.finish_command(b"$10\r\nHi, th").unwrap().is_none());
    assert_eq!(context.state(), State::Connected);
    match context.finish_command(b"$10\r\nHi, there!\r\n").unwrap() {
        Some((Reply::Bulk(data), 17)) => assert_eq!(data, b"Hi, there!".to_vec()),
        other => panic!("expected a bulk reply, got {:?}", other),
    }
}

#[test]
fn unconnected_and_closed_contexts_refuse_commands() {
    let mut context = Context::new("example.test", 6380);
    assert_eq!(context.host(), "example.test");
    assert_eq!(context.port(), 6380);
    let e = context.begin_command(&["PING"]).unwrap_err();
    assert_eq!(e.kind, ErrorKind::Other);
    assert_eq!(e.message, "connection is not established");
    context.connected();
    context.close();
    assert_eq!(context.state(), State::Closed);
    assert!(context.begin_command(&["PING"]).is_err());
}

#[test]
fn error_kinds_classify_codes() {
    assert_eq!(ErrorKind::from(1), ErrorKind::InputOutput);
    assert_eq!(ErrorKind::from(3), ErrorKind::EndOfFile);
    assert_eq!(ErrorKind::from(4), ErrorKind::Protocol);
    assert_eq!(ErrorKind::from(5), ErrorKind::OutOfMemory);
    assert_eq!(ErrorKind::from(0), ErrorKind::Other);
    assert_eq!(ErrorKind::from(2), ErrorKind::Other);
    assert_eq!(ErrorKind::from(-1), ErrorKind::Other);
    assert_eq!(ErrorKind::from(99), ErrorKind::Other);
}

#[test]
fn error_kind_codes_classify_back() {
    let kinds = [
        ErrorKind::InputOutput,
        ErrorKind::EndOfFile,
        ErrorKind::Protocol,
        ErrorKind::OutOfMemory,
        ErrorKind::Other,
    ];
    for kind in kinds {
        assert_eq!(ErrorKind::from(kind.code()), kind);
    }
    assert_eq!(ErrorKind::InputOutput.code(), 1);
    assert_eq!(ErrorKind::EndOfFile.code(), 3);
    assert_eq!(ErrorKind::Protocol.code(), 4);
    assert_eq!(ErrorKind::OutOfMemory.code(), 5);
    assert_eq!(ErrorKind::Other.code(), 2);
}
