//! Tests of the frame reader: line and byte reads, and whole frames.

use mini_redis::parse::{
    get_bytes, get_line, parse_array, parse_bulk_string, parse_error, parse_integer,
    parse_string, Parse, ParseError,
};
use mini_redis::resp::Type;

#[test]
fn get_line_works() {
    let mut pos: usize = 0;
    let actual = get_line(&b"hellow\n"[..], &mut pos).unwrap_err();
    assert_eq!(actual, ParseError::Incomplete);
    let mut pos: usize = 0;
    let actual = get_line(&b"hellow\r"[..], &mut pos).unwrap_err();
    assert_eq!(actual, ParseError::Incomplete);
    let mut pos: usize = 0;
    let actual = get_line(&b"hellow\rs"[..], &mut pos).unwrap_err();
    assert_eq!(actual, ParseError::Incomplete);
    let mut pos: usize = 0;
    let actual = get_line(&b"hellow\ns"[..], &mut pos).unwrap_err();
    assert_eq!(actual, ParseError::Incomplete);
    let mut pos: usize = 0;
    let actual = get_line(&b"hellow\r\n"[..], &mut pos);
    assert_eq!(actual, Ok(b"hellow".to_vec()));
    let mut pos: usize = 0;
    let actual = get_line(&b"\r\n"[..], &mut pos);
    assert_eq!(actual, Ok(b"".to_vec()));
}

#[test]
fn get_bytes_works() {
    let mut pos: usize = 0;
    let actual = get_bytes(&b"hellow\r\n"[..], &mut pos, 4);
    assert_eq!(actual, Ok(b"hell".to_vec()));
    let actual = get_bytes(&b"hellow\r\n"[..], &mut pos, 4);
    assert_eq!(actual, Err(ParseError::Incomplete));
}

#[test]
fn parse_string_works() {
    // success
    let t = parse_string(b"OK"[..].to_vec());
    assert_eq!(t, Ok(Type::SimpleString("OK".into())));
}

#[test]
fn parse_error_works() {
    // success
    let t = parse_error(b"Error"[..].to_vec());
    assert_eq!(t, Ok(Type::Error("Error".into())));
}

#[test]
fn parse_integer_works() {
    // success
    let t = parse_integer(b"100"[..].to_vec());
    assert_eq!(t, Ok(Type::Integer(100i64)));
}

#[test]
fn parse_bulk_string_works() {
    // success
    let t = parse_bulk_string(b"bulk string"[..].to_vec());
    assert_eq!(t, Ok(Type::BulkString(b"bulk string"[..].to_vec())));
}

#[test]
fn parse_array_works() {
    let a = vec![Type::SimpleString("a".into()), Type::Integer(3)];
    let b = vec![Type::SimpleString("a".into()), Type::Integer(3)];
    // success
    let t = parse_array(a);
    assert_eq!(t, Ok(Type::Array(b)));
}

#[test]
fn parse_next_string_works() {
    // Success
    let mut pos: usize = 0;
    let parse = Parse::new();
    let t = parse.parse_next(&b"+OK\r\n"[..], &mut pos);
    assert_eq!(t, Ok(Type::SimpleString("OK".into())));
    // Error
    let mut pos: usize = 0;
    let parse = Parse::new();
    let t = parse.parse_next(&b"+OK"[..], &mut pos);
    assert_eq!(t, Err(ParseError::Incomplete));
}

#[test]
fn parse_next_error_works() {
    // Success
    let mut pos: usize = 0;
    let parse = Parse::new();
    let t = parse.parse_next(&b"-Error\r\n"[..], &mut pos);
    assert_eq!(t, Ok(Type::Error("Error".into())));
    // Error
    let mut pos: usize = 0;
    let parse = Parse::new();
    let t = parse.parse_next(&b"-Error"[..], &mut pos);
    assert_eq!(t, Err(ParseError::Incomplete));
}

#[test]
fn parse_next_integer_works() {
    // Success
    let mut pos: usize = 0;
    let parse = Parse::new();
    let t = parse.parse_next(&b":12345\r\n"[..], &mut pos);
    assert_eq!(t, Ok(Type::Integer(12345i64)));
    // Success (partial integer)
    let mut pos: usize = 0;
    let parse = Parse::new();
    let t = parse.parse_next(&b":123s45\r\n"[..], &mut pos);
    assert_eq!(t, Ok(Type::Integer(123i64)));
    // Error (incomplete)
    let mut pos: usize = 0;
    let parse = Parse::new();
    let t = parse.parse_next(&b":12345"[..], &mut pos);
    assert_eq!(t, Err(ParseError::Incomplete));
    // Error (not integer)
    let mut pos: usize = 0;
    let parse = Parse::new();
    let t = parse.parse_next(&b":asda\r\n"[..], &mut pos);
    assert_eq!(t, Err(ParseError::InvalidEncoding("".into())));
}

#[test]
fn parse_next_null_works() {
    // Success
    let mut pos: usize = 0;
    let parse = Parse::new();
    let t = parse.parse_next(&b"$-1\r\n"[..], &mut pos);
    assert_eq!(t, Ok(Type::Null));
}

#[test]
fn parse_next_bulk_works() {
    // Success
    let mut pos: usize = 0;
    let parse = Parse::new();
    let t = parse.parse_next(&b"$10\r\n1234567890\r\n"[..], &mut pos);
    assert_eq!(t, Ok(Type::BulkString(b"1234567890"[..].to_vec())));
    // Error
    let mut pos: usize = 0;
    let parse = Parse::new();
    let t = parse.parse_next(&b"$10\r\n12345"[..], &mut pos);
    assert_eq!(t, Err(ParseError::Incomplete));
    // Error
    let mut pos: usize = 0;
    let parse = Parse::new();
    let t = parse.parse_next(&b"$-10\r\n1234567890\r\n"[..], &mut pos);
    assert_eq!(t, Err(ParseError::InvalidByteLength(-10)));
}

#[test]
fn parse_next_array_works() {
    // success
    let mut pos: usize = 0;
    let parse = Parse::new();
    let t = parse.parse_next(&b"*2\r\n$4\r\nLLEN\r\n$6\r\nmylist\r\n"[..], &mut pos);
    let types = vec![
        Type::BulkString(b"LLEN"[..].into()),
        Type::BulkString(b"mylist"[..].into()),
    ];
    assert_eq!(t, Ok(Type::Array(types)));
    // error
    let mut pos: usize = 0;
    let parse = Parse::new();
    let t = parse.parse_next(&b"*4\r\n$4\r\nLLEN\r\n$6\r\nmylist\r\n"[..], &mut pos);
    assert_eq!(t, Err(ParseError::Incomplete));
}

#[test]
fn parse_invalid_encoding() {
    // Success
    let mut pos: usize = 0;
    let parse = Parse::new();
    let t = parse.parse_next(&b"#-1\r\n"[..], &mut pos);
    assert_eq!(t, Err(ParseError::InvalidMarker(b'#')));
}

#[test]
fn parse_rejects_invalid_utf8_text() {
    let mut pos: usize = 0;
    let parse = Parse::new();
    let t = parse.parse_next(&b"+\xff\xfe\r\n"[..], &mut pos);
    assert_eq!(t, Err(ParseError::InvalidEncoding("".into())));
}

#[test]
fn parse_rejects_integer_overflow() {
    let mut pos: usize = 0;
    let parse = Parse::new();
    let t = parse.parse_next(&b":99999999999999999999\r\n"[..], &mut pos);
    assert_eq!(t, Err(ParseError::InvalidEncoding("".into())));
}

#[test]
fn parse_bulk_tolerates_missing_trailing_crlf() {
    // A bulk payload that ends the buffer is accepted; the missing trailing
    // CRLF is tolerated at the buffer's edge.
    let mut pos: usize = 0;
    let parse = Parse::new();
    let t = parse.parse_next(&b"$2\r\nok"[..], &mut pos);
    assert_eq!(t, Ok(Type::BulkString(b"ok".to_vec())));
}

#[test]
fn parse_round_trip_works() {
    // Serializing a frame and reading it back yields the frame.
    let t = Type::Array(vec![
        Type::SimpleString("hi".into()),
        Type::Integer(-7),
        Type::Null,
        Type::BulkString(b"\r\n binary \x00".to_vec()),
        Type::Array(vec![Type::Integer(1), Type::Integer(2)]),
    ]);
    let expected = Type::Array(vec![
        Type::SimpleString("hi".into()),
        Type::Integer(-7),
        Type::Null,
        Type::BulkString(b"\r\n binary \x00".to_vec()),
        Type::Array(vec![Type::Integer(1), Type::Integer(2)]),
    ]);
    let bytes = t.into_bytes();
    let mut pos: usize = 0;
    let parse = Parse::new();
    let back = parse.parse_next(&bytes[..], &mut pos);
    assert_eq!(back, Ok(expected));
    assert_eq!(pos, bytes.len());
}

#[test]
fn parse_resumes_after_more_bytes() {
    // An incomplete read leaves the caller free to retry with more bytes.
    let parse = Parse::new();
    let mut pos: usize = 0;
    assert_eq!(
        parse.parse_next(&b"*1\r\n$2\r\n"[..], &mut pos),
        Err(ParseError::Incomplete)
    );
    let mut pos: usize = 0;
    assert_eq!(
        parse.parse_next(&b"*1\r\n$2\r\nok\r\n"[..], &mut pos),
        Ok(Type::Array(vec![Type::BulkString(b"ok".to_vec())]))
    );
}
