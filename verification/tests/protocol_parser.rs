use protohacker_in_rust::error::Error;
use protohacker_in_rust::lrcp::protocol::{
    encode_ack, encode_close, encode_connect, encode_data, encode_packet, escape_data,
    parse_int, parse_packet, tokenize, unescape_data, LrcpMessage,
};

#[test]
fn test_parse_connect_valid() {
    let input = b"/connect/12345/";
    let packet = parse_packet(input).unwrap();
    assert_eq!(packet, LrcpMessage::Connect { session_id: 12345 });
}

#[test]
fn test_parse_connect_invalid_too_many_fields() {
    let input = b"/connect/12345/extra/";
    assert!(parse_packet(input).is_err());
}

#[test]
fn test_parse_connect_invalid_missing_slash() {
    let input = b"connect/12345/";
    assert!(parse_packet(input).is_err());

    let input = b"/connect/12345";
    assert!(parse_packet(input).is_err());
}

#[test]
fn test_parse_close_valid() {
    let input = b"/close/999/";
    let packet = parse_packet(input).unwrap();
    assert_eq!(packet, LrcpMessage::ClientClose { session_id: 999 });
}

#[test]
fn test_parse_ack_valid() {
    let input = b"/ack/42/100/";
    let packet = parse_packet(input).unwrap();
    assert_eq!(
        packet,
        LrcpMessage::Ack {
            session_id: 42,
            length: 100
        }
    );
}

#[test]
fn test_parse_ack_invalid_field_count() {
    let input = b"/ack/42/";
    assert!(parse_packet(input).is_err());

    let input = b"/ack/42/100/extra/";
    assert!(parse_packet(input).is_err());
}

#[test]
fn test_parse_data_valid_a() {
    let input = b"/data/1/0/hello/";
    let packet = parse_packet(input).unwrap();
    assert_eq!(
        packet,
        LrcpMessage::Data {
            session_id: 1,
            pos: 0,
            escaped_data: "hello".to_string()
        }
    );
}

#[test]
fn test_parse_data_valid_b() {
    let input = "/data/123/456/hello\\/world\\\\!\n/";
    let packet = parse_packet(input.as_bytes()).unwrap();
    assert_eq!(
        packet,
        LrcpMessage::Data {
            session_id: 123,
            pos: 456,
            escaped_data: "hello\\/world\\\\!\n".to_string()
        }
    );
}

#[test]
fn test_parse_data_with_escaped_slash() {
    let input = b"/data/1/0/\\/"; // represents a single "\"
    let packet = parse_packet(input).unwrap();
    assert_eq!(
        packet,
        LrcpMessage::Data {
            session_id: 1,
            pos: 0,
            escaped_data: r#"\"#.to_string() // raw backslash + forward slash
        }
    );
}

#[test]
fn test_parse_data_invalid_field_count() {
    let input = b"/data/1/0/";
    assert!(parse_packet(input).is_err());

    let input = b"/data/1/0/hello/extra/";
    assert!(parse_packet(input).is_err());
}

#[test]
fn test_parse_invalid_session_id_too_large() {
    let input = b"/connect/2147483648/"; // 2^31, which is not allowed
    assert!(parse_packet(input).is_err());
}

#[test]
fn test_parse_invalid_session_id_negative() {
    // Negative numbers aren't representable in u64 via parse, but malformed string
    let input = b"/connect/-123/";
    assert!(parse_packet(input).is_err());
}

#[test]
fn test_parse_invalid_message_type() {
    let input = b"/unknown/123/";
    assert!(parse_packet(input).is_err());
}

#[test]
fn test_parse_empty_packet() {
    let input = b"//";
    assert!(parse_packet(input).is_err());
}

#[test]
fn test_escape_data() {
    assert_eq!(escape_data("hello"), "hello");
    assert_eq!(escape_data("a/b"), r"a\/b");
    assert_eq!(escape_data(r"a\b"), r"a\\b");
    assert_eq!(escape_data("/\\"), r"\/\\");
}

#[test]
fn test_unescape_data() {
    assert_eq!(unescape_data("hello"), "hello");
    assert_eq!(unescape_data(r"a\/b"), "a/b");
    assert_eq!(unescape_data(r"a\\b"), r"a\b");
    assert_eq!(unescape_data(r"a\\/b\\\\"), r"a\/b\\");
    assert_eq!(unescape_data(r"\/\\"), "/\\");
}

#[test]
fn test_escape_unescape_roundtrip() {
    let plain = "This has / and \\ and even \\/ and \\\\";
    let escaped = escape_data(plain);
    let unescaped = unescape_data(&escaped);
    assert_eq!(plain, unescaped);
}

#[test]
fn parse_errors_name_the_fault() {
    assert_eq!(parse_packet(b"/connect/12\xff/"), Err(Error::NotAscii));
    assert_eq!(parse_packet(&[0xff, 0xfe]), Err(Error::NotAscii));
    assert_eq!(parse_packet(b""), Err(Error::MissingSlash));
    assert_eq!(parse_packet(b"/"), Err(Error::MissingSlash));
    assert_eq!(parse_packet(b"connect/1/"), Err(Error::MissingSlash));
    assert_eq!(parse_packet(b"/connect/1"), Err(Error::MissingSlash));
    assert_eq!(parse_packet(b"//"), Err(Error::InvalidFormat));
    assert_eq!(parse_packet(b"/unknown/123/"), Err(Error::InvalidFormat));
    assert_eq!(parse_packet(b"/ack/1/"), Err(Error::InvalidFormat));
    assert_eq!(parse_packet(b"/Connect/1/"), Err(Error::InvalidFormat));
    assert_eq!(parse_packet(b"/connect/-123/"), Err(Error::InvalidInteger));
    assert_eq!(parse_packet(b"/connect/+123/"), Err(Error::InvalidInteger));
    assert_eq!(parse_packet(b"/connect//"), Err(Error::InvalidInteger));
    assert_eq!(parse_packet(b"/ack/1/1x/"), Err(Error::InvalidInteger));
    assert_eq!(
        parse_packet(b"/connect/2147483648/"),
        Err(Error::IntegerTooLarge)
    );
    assert_eq!(
        parse_packet(b"/data/1/99999999999999999999999999/x/"),
        Err(Error::IntegerTooLarge)
    );
    // the session id is read before the position
    assert_eq!(
        parse_packet(b"/ack/x/2147483648/"),
        Err(Error::InvalidInteger)
    );
}

#[test]
fn parse_accepts_the_largest_number_and_leading_zeros() {
    assert_eq!(
        parse_packet(b"/connect/2147483647/"),
        Ok(LrcpMessage::Connect {
            session_id: 2147483647
        })
    );
    assert_eq!(
        parse_packet(b"/ack/007/0000000000000000000000012/"),
        Ok(LrcpMessage::Ack {
            session_id: 7,
            length: 12
        })
    );
}

#[test]
fn parse_accepts_an_empty_payload() {
    assert_eq!(
        parse_packet(b"/data/1/0//"),
        Ok(LrcpMessage::Data {
            session_id: 1,
            pos: 0,
            escaped_data: String::new()
        })
    );
}

#[test]
fn parse_keeps_a_lone_backslash() {
    assert_eq!(
        parse_packet(b"/data/1/0/a\\xb/"),
        Ok(LrcpMessage::Data {
            session_id: 1,
            pos: 0,
            escaped_data: "a\\xb".to_string()
        })
    );
    assert_eq!(unescape_data("a\\xb"), "a\\xb");
    assert_eq!(unescape_data("tail\\"), "tail\\");
}

#[test]
fn parse_int_reads_digits_only() {
    assert_eq!(parse_int("0"), Ok(0));
    assert_eq!(parse_int("12345"), Ok(12345));
    assert_eq!(parse_int("2147483647"), Ok(2147483647));
    assert_eq!(parse_int("2147483648"), Err(Error::IntegerTooLarge));
    assert_eq!(parse_int(""), Err(Error::InvalidInteger));
    assert_eq!(parse_int("12a"), Err(Error::InvalidInteger));
    assert_eq!(parse_int("99999999999999999999x"), Err(Error::InvalidInteger));
    assert_eq!(parse_int(" 1"), Err(Error::InvalidInteger));
}

#[test]
fn tokenize_splits_at_unprotected_slashes() {
    assert_eq!(tokenize("connect/12345"), vec!["connect", "12345"]);
    assert_eq!(tokenize(""), vec![""]);
    assert_eq!(tokenize("a//b/"), vec!["a", "", "b", ""]);
    assert_eq!(tokenize("data/1/0/x\\/y\\\\"), vec!["data", "1", "0", "x\\/y\\\\"]);
    assert_eq!(tokenize("a\\\\/b"), vec!["a\\\\", "b"]);
    assert_eq!(tokenize("a\\"), vec!["a\\"]);
}

#[test]
fn encode_writes_the_wire_text() {
    assert_eq!(encode_connect(12345), "/connect/12345/");
    assert_eq!(encode_close(999), "/close/999/");
    assert_eq!(encode_ack(42, 100), "/ack/42/100/");
    assert_eq!(encode_ack(0, 0), "/ack/0/0/");
    assert_eq!(encode_ack(2147483647, 10), "/ack/2147483647/10/");
    assert_eq!(encode_data(1, 0, "hello"), "/data/1/0/hello/");
    assert_eq!(
        encode_data(12345, 0, &escape_data("either/or\n")),
        "/data/12345/0/either\\/or\n/"
    );
    assert_eq!(
        encode_packet(&LrcpMessage::SessionTerminate { session_id: 1 }),
        None
    );
}

#[test]
fn encode_then_parse_gives_the_message_back() {
    let messages = vec![
        LrcpMessage::Connect { session_id: 0 },
        LrcpMessage::ClientClose {
            session_id: 2147483647,
        },
        LrcpMessage::Ack {
            session_id: 12345,
            length: 1000,
        },
        LrcpMessage::Data {
            session_id: 7,
            pos: 99,
            escaped_data: escape_data("a/b\\c\n/"),
        },
        LrcpMessage::Data {
            session_id: 7,
            pos: 0,
            escaped_data: String::new(),
        },
    ];
    for message in messages {
        let text = encode_packet(&message).unwrap();
        assert_eq!(parse_packet(text.as_bytes()), Ok(message));
    }
}

#[test]
fn escape_and_unescape_undo_each_other() {
    for plain in ["", "/", "\\", "\\/", "//\\\\", "a\\b/c", "plain text\n"] {
        let escaped = escape_data(plain);
        assert_eq!(unescape_data(&escaped), plain);
        assert_eq!(escape_data(&unescape_data(&escaped)), escaped);
    }
    assert_eq!(escape_data("\\/"), "\\\\\\/");
}
