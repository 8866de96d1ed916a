use hiredis::{decode_reply, encode_command, Decoded, ErrorKind, Reply};

#[test]
fn encode_simple_command() {
    let frame = encode_command(&["SET", "greeting", "Hi, there!"]);
    assert_eq!(
        frame,
        b"*3\r\n$3\r\nSET\r\n$8\r\ngreeting\r\n$10\r\nHi, there!\r\n".to_vec()
    );
}

#[test]
fn encode_no_arguments() {
    let arguments: &[&str] = &[];
    let frame = encode_command(arguments);
    assert_eq!(frame, b"*0\r\n".to_vec());
}

#[test]
fn encode_binary_argument_with_zero_byte() {
    let frame = encode_command(&[&b"SET"[..], &b"k"[..], &b"a\x00b"[..]]);
    assert_eq!(frame, b"*3\r\n$3\r\nSET\r\n$1\r\nk\r\n$3\r\na\x00b\r\n".to_vec());
}

#[test]
fn decode_status() {
    match decode_reply(b"+OK\r\n") {
        Decoded::Complete(Reply::Status(text), used) => {
            assert_eq!(text, "OK");
            assert_eq!(used, 5);
        }
        other => panic!("expected a status reply, got {:?}", other),
    }
}

#[test]
fn decode_status_lossy_text() {
    match decode_reply(b"+caf\xc3\xa9\r\n") {
        Decoded::Complete(Reply::Status(text), _) => assert_eq!(text, "caf\u{e9}"),
        other => panic!("expected a status reply, got {:?}", other),
    }
    match decode_reply(b"+caf\xe9\r\n") {
        Decoded::Complete(Reply::Status(text), _) => assert_eq!(text, "caf\u{fffd}"),
        other => panic!("expected a status reply, got {:?}", other),
    }
}

#[test]
fn decode_integers() {
    match decode_reply(b":1234\r\n") {
        Decoded::Complete(Reply::Integer(v), used) => {
            assert_eq!(v, 1234);
            assert_eq!(used, 7);
        }
        other => panic!("expected an integer reply, got {:?}", other),
    }
    match decode_reply(b":-42\r\n") {
        Decoded::Complete(Reply::Integer(v), _) => assert_eq!(v, -42),
        other => panic!("expected an integer reply, got {:?}", other),
    }
    match decode_reply(b":0\r\n") {
        Decoded::Complete(Reply::Integer(v), _) => assert_eq!(v, 0),
        other => panic!("expected an integer reply, got {:?}", other),
    }
    match decode_reply(b":9223372036854775807\r\n") {
        Decoded::Complete(Reply::Integer(v), _) => assert_eq!(v, i64::MAX),
        other => panic!("expected an integer reply, got {:?}", other),
    }
    match decode_reply(b":-9223372036854775808\r\n") {
        Decoded::Complete(Reply::Integer(v), _) => assert_eq!(v, i64::MIN),
        other => panic!("expected an integer reply, got {:?}", other),
    }
}

#[test]
fn decode_bulk_round_trips_zero_bytes() {
    match decode_reply(b"$5\r\nab\x00cd\r\n") {
        Decoded::Complete(Reply::Bulk(data), used) => {
            assert_eq!(data, b"ab\x00cd".to_vec());
            assert_eq!(used, 11);
        }
        other => panic!("expected a bulk reply, got {:?}", other),
    }
}

#[test]
fn decode_empty_bulk() {
    match decode_reply(b"$0\r\n\r\n") {
        Decoded::Complete(Reply::Bulk(data), used) => {
            assert_eq!(data, Vec::<u8>::new());
            assert_eq!(used, 6);
        }
        other => panic!("expected a bulk reply, got {:?}", other),
    }
}

#[test]
fn decode_nil() {
    assert!(matches!(
        decode_reply(b"$-1\r\n"),
        Decoded::Complete(Reply::Nil, 5)
    ));
    assert!(matches!(
        decode_reply(b"*-1\r\n"),
        Decoded::Complete(Reply::Nil, 5)
    ));
}

#[test]
fn decode_nested_array_keeps_structure_and_order() {
    let bytes = b"*3\r\n*2\r\n+one\r\n:1\r\n$2\r\nxy\r\n*0\r\n";
    match decode_reply(bytes) {
        Decoded::Complete(Reply::Array(outer), used) => {
            assert_eq!(used, bytes.len());
            assert_eq!(outer.len(), 3);
            match &outer[0] {
                Reply::Array(inner) => {
                    assert_eq!(inner.len(), 2);
                    assert!(matches!(&inner[0], Reply::Status(s) if s == "one"));
                    assert!(matches!(&inner[1], Reply::Integer(1)));
                }
                other => panic!("expected an inner array, got {:?}", other),
            }
            assert!(matches!(&outer[1], Reply::Bulk(d) if d == b"xy"));
            assert!(matches!(&outer[2], Reply::Array(empty) if empty.is_empty()));
        }
        other => panic!("expected an array reply, got {:?}", other),
    }
}

#[test]
fn decode_error_reply() {
    let bytes = b"-ERR wrong number of arguments\r\n";
    match decode_reply(bytes) {
        Decoded::Failed(e, used) => {
            assert_eq!(e.kind, ErrorKind::Other);
            assert_eq!(e.message, "ERR wrong number of arguments");
            assert_eq!(used, bytes.len());
        }
        other => panic!("expected a server error, got {:?}", other),
    }
}

#[test]
fn decode_error_inside_array() {
    let bytes = b"*2\r\n-oops\r\n+OK\r\n";
    match decode_reply(bytes) {
        Decoded::Failed(e, used) => {
            assert_eq!(e.message, "oops");
            assert_eq!(used, bytes.len());
        }
        other => panic!("expected a server error, got {:?}", other),
    }
}

#[test]
fn decode_partial_buffers() {
    assert!(matches!(decode_reply(b""), Decoded::Partial));
    assert!(matches!(decode_reply(b"+OK"), Decoded::Partial));
    assert!(matches!(decode_reply(b"$10\r\nabc"), Decoded::Partial));
    assert!(matches!(decode_reply(b"*2\r\n+OK\r\n"), Decoded::Partial));
    assert!(matches!(decode_reply(b":12"), Decoded::Partial));
    assert!(matches!(
        decode_reply(b"$99999999999999999999\r\n"),
        Decoded::Partial
    ));
}

#[test]
fn decode_corrupt_buffers() {
    match decode_reply(b"?x\r\n") {
        Decoded::Corrupt(e) => {
            assert_eq!(e.kind, ErrorKind::Other);
            assert_eq!(e.message, "failed to identify a reply");
        }
        other => panic!("expected a corrupt outcome, got {:?}", other),
    }
    assert!(matches!(decode_reply(b":01\r\n"), Decoded::Corrupt(_)));
    assert!(matches!(decode_reply(b":-0\r\n"), Decoded::Corrupt(_)));
    assert!(matches!(decode_reply(b":+1\r\n"), Decoded::Corrupt(_)));
    assert!(matches!(decode_reply(b"+ok\rX\r\n"), Decoded::Corrupt(_)));
    assert!(matches!(decode_reply(b"$2\r\nabc\r\n"), Decoded::Corrupt(_)));
}

#[test]
fn encoded_command_decodes_back() {
    // A command frame is itself a RESP array of bulk strings: feeding it to
    // the decoder returns every argument's bytes unchanged, in order.
    let frame = encode_command(&[&b"ECHO"[..], &b"a\x00b"[..]]);
    match decode_reply(&frame) {
        Decoded::Complete(Reply::Array(items), used) => {
            assert_eq!(used, frame.len());
            assert_eq!(items.len(), 2);
            assert!(matches!(&items[0], Reply::Bulk(d) if d == b"ECHO"));
            assert!(matches!(&items[1], Reply::Bulk(d) if d == b"a\x00b"));
        }
        other => panic!("expected an array reply, got {:?}", other),
    }
}
