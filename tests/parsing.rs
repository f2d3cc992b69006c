use lsp_client::parsing::{
    decode_body, next_header, parse_header, read_message, ByteReader, HeaderProgress, LspHeader,
    ParseError,
};
use serde_json::Value;

fn name_value() -> Value {
    let mut m = serde_json::Map::new();
    m.insert("name".to_string(), Value::from("value"));
    Value::Object(m)
}

fn reader_of(s: &str) -> ByteReader {
    ByteReader::new(s.as_bytes().to_vec())
}

#[test]
fn test_parse_header_content_length() {
    let header = "Content-Length: 132";
    assert_eq!(
        parse_header(header).ok(),
        Some(LspHeader::ContentLength(132))
    );
}

#[test]
fn test_parse_header_content_type() {
    let header = "Content-Type: utf-8";
    let parsed = parse_header(header);
    assert_eq!(parsed.ok(), Some(LspHeader::ContentType));

    let header = "Content-Type: utf8";
    let parsed = parse_header(header);
    assert_eq!(parsed.ok(), Some(LspHeader::ContentType));
}

#[test]
fn test_parse_header_invalid_content_type() {
    let header = "Content-Type: ascii";
    let parsed = parse_header(header);
    assert!(parsed.is_err());
}

#[test]
fn test_parse_header_malformed() {
    let test_cases = [
        ("", "malformed header: "),
        ("Content-Length:132", "malformed header: Content-Length:132"),
    ];
    for (header, err_msg) in test_cases {
        let parsed_header = parse_header(header);
        assert_eq!(parsed_header.as_ref().ok(), None);
        match parsed_header.as_ref().err().unwrap() {
            ParseError::Unknown(s) => {
                assert_eq!(*s, err_msg.to_string())
            }
            default => panic!("incorrect ParseError variant: {:#?}", default),
        }
    }
}

#[test]
fn test_parse_header_unknown() {
    let header = "Hello: world";
    let parsed_header = parse_header(header);
    assert_eq!(parsed_header.as_ref().ok(), None);
    match parsed_header.as_ref().err().unwrap() {
        ParseError::Unknown(s) => assert_eq!(*s, "Unknown header: Hello: world".to_string()),
        default => panic!("incorrect ParseError variant: {:#?}", default),
    }
}

#[test]
fn test_parse_error() {
    let header = "Content-Length: 132 hi";
    let parsed_header = parse_header(header);
    assert_eq!(parsed_header.as_ref().ok(), None);
    match parsed_header.as_ref().err().unwrap() {
        ParseError::ParseInt(s) => println!("{:#?}", s),
        default => panic!("incorrect ParseError variant: {:#?}", default),
    }
}

#[test]
fn test_read_message() {
    let inps = vec![
        "Content-Length: 18\n\r\n\r{\"name\": \"value\"}",
        "Content-length: 18\n\r\n\r{\"name\": \"value\"}",
        "Content-Length: 18\n\rContent-Type: utf-8\n\r\n\r{\"name\": \"value\"}",
        "Content-Length: 18\n\rContent-Type: utf-8\n\r\n\r{\"name\": \"value\"}\n",
    ];
    for inp in inps {
        let mut reader = reader_of(inp);
        let result = match read_message(&mut reader) {
            Ok(r) => r,
            Err(e) => panic!("unexpected error: {:#?}", e),
        };
        let exp = name_value();
        assert_eq!(result, exp);
    }
}

#[test]
fn test_read_message_invalid_content_type() {
    let test_cases = [
        (
            "Content-Length: 18\n\rContent-Type: ascii\n\r\n\r{\"name\": \"value\"}",
            "Invalid encoding: ascii",
        ),
        (
            "Content-Length: 18\n\rContent-Type: utf-9\n\r\n\r{\"name\": \"hello\"}",
            "Invalid encoding: utf-9",
        ),
    ];
    for (inp, err_msg) in test_cases {
        let mut reader = reader_of(inp);
        let result = match read_message(&mut reader) {
            Ok(r) => panic!("unexpected success: {:#?}", r),
            Err(e) => match e {
                ParseError::Encoding(s) => {
                    assert_eq!(s, err_msg.to_string())
                }
                default => panic!("incorrect ParseError variant: {:#?}", default),
            },
        };
        assert_eq!(result, ());
    }
}

#[test]
fn test_read_message_missing_content_length() {
    let test_cases = [
        (
            "\n\r\n\r{\"name\": \"value\"}",
            "missing content-length header: \n",
        ),
        (
            "Content-Type: utf-8\n\r\n\r{\"name\": \"value\"}",
            "missing content-length header: \r\n",
        ),
    ];
    for (inp, err_msg) in test_cases {
        let mut reader = reader_of(inp);
        let result = match read_message(&mut reader) {
            Ok(r) => panic!("unexpected success: {:#?}", r),
            Err(e) => match e {
                ParseError::Unknown(s) => {
                    assert_eq!(s, err_msg.to_string())
                }
                default => panic!("incorrect ParseError variant: {:#?}", default),
            },
        };
        assert_eq!(result, ());
    }
}

#[test]
fn header_names_ignore_case() {
    for h in ["Content-length: 7", "CONTENT-LENGTH: 7", "content-length: 7"] {
        assert_eq!(parse_header(h).ok(), Some(LspHeader::ContentLength(7)));
    }
    assert_eq!(parse_header("CONTENT-TYPE: UTF-8").ok(), Some(LspHeader::ContentType));
}

#[test]
fn header_value_with_plus_sign_and_spaces() {
    assert_eq!(parse_header("Content-Length: +12").ok(), Some(LspHeader::ContentLength(12)));
    assert_eq!(parse_header("Content-Length:  12 \r\n").ok(), Some(LspHeader::ContentLength(12)));
    assert!(matches!(parse_header("Content-Length: -1"), Err(ParseError::ParseInt(_))));
    assert!(matches!(
        parse_header("Content-Length: 99999999999999999999999"),
        Err(ParseError::ParseInt(_))
    ));
}

#[test]
fn header_with_two_separators_is_malformed() {
    match parse_header("Content-Length: 1: 2") {
        Err(ParseError::Unknown(s)) => assert_eq!(s, "malformed header: Content-Length: 1: 2"),
        other => panic!("unexpected: {:?}", other),
    }
}

#[test]
fn ascii_content_type_is_an_encoding_error() {
    match parse_header("Content-Type: ascii") {
        Err(ParseError::Encoding(s)) => assert_eq!(s, "Invalid encoding: ascii"),
        other => panic!("unexpected: {:?}", other),
    }
}

#[test]
fn end_of_stream_is_empty() {
    let mut reader = reader_of("");
    assert!(matches!(read_message(&mut reader), Err(ParseError::Empty)));
    let mut reader = reader_of("Content-Length: 2\r\n");
    assert!(matches!(read_message(&mut reader), Err(ParseError::Empty)));
}

#[test]
fn messages_are_read_one_after_another() {
    let mut reader = reader_of("Content-Length: 4\r\n\r\ntrueContent-Length: 2\r\n\r\n17");
    assert_eq!(read_message(&mut reader).unwrap(), Value::Bool(true));
    assert_eq!(read_message(&mut reader).unwrap(), Value::from(17));
    assert!(matches!(read_message(&mut reader), Err(ParseError::Empty)));
}

#[test]
fn short_body_is_an_io_error() {
    let mut reader = reader_of("Content-Length: 10\r\n\r\n{}");
    match read_message(&mut reader) {
        Err(ParseError::Io(s)) => assert_eq!(s, "failed to fill whole buffer"),
        other => panic!("unexpected: {:?}", other),
    }
}

#[test]
fn zero_length_body_is_a_json_error() {
    let mut reader = reader_of("Content-Length: 0\r\n\r\n");
    assert!(matches!(read_message(&mut reader), Err(ParseError::Json(_))));
}

#[test]
fn body_that_is_not_utf8_is_a_utf8_error() {
    let mut bytes = b"Content-Length: 2\r\n\r\n".to_vec();
    bytes.push(0xff);
    bytes.push(0xfe);
    let mut reader = ByteReader::new(bytes);
    assert!(matches!(read_message(&mut reader), Err(ParseError::Utf8(_))));
    assert!(matches!(decode_body(vec![0xc3]), Err(ParseError::Utf8(_))));
}

#[test]
fn header_line_that_is_not_utf8_is_an_io_error() {
    let mut bytes = b"Content-Length: 2".to_vec();
    bytes.push(0xff);
    bytes.push(b'\n');
    let mut reader = ByteReader::new(bytes);
    match read_message(&mut reader) {
        Err(ParseError::Io(s)) => assert_eq!(s, "stream did not contain valid UTF-8"),
        other => panic!("unexpected: {:?}", other),
    }
}

#[test]
fn unknown_header_in_a_frame() {
    let mut reader = reader_of("Content-Length: 2\r\nX-Thing: 1\r\n\r\n{}");
    match read_message(&mut reader) {
        Err(ParseError::Unknown(s)) => assert_eq!(s, "Unknown header: X-Thing: 1\r\n"),
        other => panic!("unexpected: {:?}", other),
    }
}

#[test]
fn header_steps() {
    assert_eq!(
        next_header(None, "Content-Length: 5\r\n").ok(),
        Some(HeaderProgress::Continue(Some(5)))
    );
    assert_eq!(
        next_header(Some(5), "Content-Type: utf8\r\n").ok(),
        Some(HeaderProgress::Continue(Some(5)))
    );
    assert_eq!(next_header(Some(5), "\r\n").ok(), Some(HeaderProgress::Body(5)));
    match next_header(None, "\r\n") {
        Err(ParseError::Unknown(s)) => assert_eq!(s, "missing content-length header: \r\n"),
        other => panic!("unexpected: {:?}", other),
    }
}

#[test]
fn body_decodes_to_json() {
    assert_eq!(decode_body(b"{\"name\":\"value\"}".to_vec()).unwrap(), name_value());
    assert!(matches!(decode_body(b"{".to_vec()), Err(ParseError::Json(_))));
}
