use resp::parser::Parser;
use resp::text::parse_decimal;
use resp::value::{Error, RESPType};

fn do_parse(expr: &str) -> Result<RESPType, Error> {
    let mut parser = Parser::new(expr.as_bytes().to_vec());
    parser.parse_next()
}

fn parse_bytes(input: &[u8]) -> Result<RESPType, Error> {
    let mut parser = Parser::new(input.to_vec());
    parser.parse_next()
}

#[test]
fn valid_integer() {
    assert_eq!(do_parse(":32\r\n"), Ok(RESPType::Integer(32)));
}

#[test]
fn valid_simple_string() {
    assert_eq!(do_parse("+TEST\r\n"), Ok(RESPType::SimpleString("TEST".to_string())));
}

#[test]
fn valid_error() {
    assert_eq!(do_parse("-ERROR\r\n"), Ok(RESPType::Error("ERROR".to_string())));
}

#[test]
fn valid_bulk_string() {
    assert_eq!(
        do_parse("$5\r\nHE\rHE\r\n"),
        Ok(RESPType::BulkString(vec![b'H', b'E', b'\r', b'H', b'E']))
    );
}

#[test]
fn valid_null_bulk_string() {
    assert_eq!(do_parse("$-1\r\n"), Ok(RESPType::Null));
}

#[test]
fn valid_empty_bulk_string() {
    assert_eq!(do_parse("$0\r\n\r\n"), Ok(RESPType::BulkString(Vec::new())));
}

#[test]
fn valid_array() {
    assert_eq!(
        do_parse("*3\r\n:42\r\n+TEST\r\n$3\r\nXYZ\r\n\r\n"),
        Ok(RESPType::Array(vec![
            RESPType::Integer(42),
            RESPType::SimpleString("TEST".to_string()),
            RESPType::BulkString(vec![b'X', b'Y', b'Z']),
        ]))
    );
}

#[test]
fn array_literal_without_trailing_line() {
    assert_eq!(
        do_parse("*3\r\n:42\r\n+TEST\r\n$3\r\nXYZ\r\n"),
        Ok(RESPType::Array(vec![
            RESPType::Integer(42),
            RESPType::SimpleString("TEST".to_string()),
            RESPType::BulkString(vec![b'X', b'Y', b'Z']),
        ]))
    );
}

#[test]
fn valid_nested_array() {
    assert_eq!(
        do_parse("*1\r\n*3\r\n:42\r\n+TEST\r\n$3\r\nXYZ\r\n\r\n\r\n"),
        Ok(RESPType::Array(vec![RESPType::Array(vec![
            RESPType::Integer(42),
            RESPType::SimpleString("TEST".to_string()),
            RESPType::BulkString(vec![b'X', b'Y', b'Z']),
        ])]))
    );
}

#[test]
fn valid_null_array() {
    assert_eq!(do_parse("*-1\r\n"), Ok(RESPType::Null));
}

#[test]
fn valid_empty_array() {
    assert_eq!(do_parse("*0\r\n"), Ok(RESPType::Array(Vec::new())));
}

#[test]
fn parses_only_one_item() {
    assert_eq!(do_parse(":32\r\n:42\r\n"), Ok(RESPType::Integer(32)));
}

#[test]
fn empty_input() {
    assert_eq!(do_parse(""), Err(Error::EndOfStream));
}

#[test]
fn invalid_integer() {
    assert_eq!(do_parse(":ten\r\n"), Err(Error::BadInteger));
}

#[test]
fn no_delimiter() {
    assert_eq!(do_parse(":10"), Err(Error::EndOfStream));
}

#[test]
fn bad_array() {
    assert_eq!(do_parse("*2\r\n+x\r\n\r\n"), Err(Error::UnexpectedToken('\r')));
}

#[test]
fn unexpected_tag() {
    assert_eq!(do_parse("?x\r\n"), Err(Error::UnexpectedToken('?')));
    assert_eq!(do_parse("hello"), Err(Error::UnexpectedToken('h')));
}

#[test]
fn two_values_in_turn() {
    let mut parser = Parser::new(b":32\r\n+OK\r\n".to_vec());
    assert_eq!(parser.parse_next(), Ok(RESPType::Integer(32)));
    assert_eq!(parser.position(), 5);
    assert_eq!(parser.parse_next(), Ok(RESPType::SimpleString("OK".to_string())));
    assert_eq!(parser.position(), 10);
    assert_eq!(parser.parse_next(), Err(Error::EndOfStream));
}

#[test]
fn bulk_then_array_in_turn() {
    let mut parser = Parser::new(b"$2\r\nab\r\n*1\r\n:7\r\n".to_vec());
    assert_eq!(parser.parse_next(), Ok(RESPType::BulkString(b"ab".to_vec())));
    assert_eq!(parser.parse_next(), Ok(RESPType::Array(vec![RESPType::Integer(7)])));
}

#[test]
fn integer_extremes() {
    assert_eq!(do_parse(":9223372036854775807\r\n"), Ok(RESPType::Integer(i64::MAX)));
    assert_eq!(do_parse(":-9223372036854775808\r\n"), Ok(RESPType::Integer(i64::MIN)));
    assert_eq!(do_parse(":9223372036854775808\r\n"), Err(Error::BadInteger));
    assert_eq!(do_parse(":-9223372036854775809\r\n"), Err(Error::BadInteger));
    assert_eq!(do_parse(":99999999999999999999999\r\n"), Err(Error::BadInteger));
}

#[test]
fn integer_forms() {
    assert_eq!(do_parse(":0\r\n"), Ok(RESPType::Integer(0)));
    assert_eq!(do_parse(":-0\r\n"), Ok(RESPType::Integer(0)));
    assert_eq!(do_parse(":007\r\n"), Ok(RESPType::Integer(7)));
    assert_eq!(do_parse(":-42\r\n"), Ok(RESPType::Integer(-42)));
    assert_eq!(do_parse(":+5\r\n"), Err(Error::BadInteger));
    assert_eq!(do_parse(":-\r\n"), Err(Error::BadInteger));
    assert_eq!(do_parse(":\r\n"), Err(Error::BadInteger));
    assert_eq!(do_parse(": 5\r\n"), Err(Error::BadInteger));
    assert_eq!(do_parse(":5 \r\n"), Err(Error::BadInteger));
}

#[test]
fn decimal_reader() {
    assert_eq!(parse_decimal(b"12345"), Some(12345));
    assert_eq!(parse_decimal(b"-12345"), Some(-12345));
    assert_eq!(parse_decimal(b"1a"), None);
    assert_eq!(parse_decimal(b""), None);
}

#[test]
fn bare_line_feed_ends_a_line() {
    assert_eq!(do_parse(":5\n"), Ok(RESPType::Integer(5)));
}

#[test]
fn carriage_returns_dropped_from_lines() {
    assert_eq!(do_parse("+TE\rST\r\n"), Ok(RESPType::SimpleString("TEST".to_string())));
}

#[test]
fn utf8_text_decoded() {
    assert_eq!(
        do_parse("+h\u{e9}llo\r\n"),
        Ok(RESPType::SimpleString("h\u{e9}llo".to_string()))
    );
    assert_eq!(do_parse("-\u{263a}\r\n"), Ok(RESPType::Error("\u{263a}".to_string())));
}

#[test]
fn invalid_utf8_text() {
    assert_eq!(parse_bytes(b"+\xff\r\n"), Err(Error::BadString));
    assert_eq!(parse_bytes(b"-\xc3\r\n"), Err(Error::BadString));
    assert_eq!(parse_bytes(b":\xff\r\n"), Err(Error::BadString));
}

#[test]
fn malformed_lengths() {
    assert_eq!(do_parse("$-2\r\n"), Err(Error::UnknownError));
    assert_eq!(do_parse("*-5\r\n"), Err(Error::UnknownError));
    assert_eq!(do_parse("$x\r\n"), Err(Error::BadInteger));
    assert_eq!(do_parse("*\r\n"), Err(Error::BadInteger));
}

#[test]
fn truncated_inputs() {
    assert_eq!(do_parse("$5\r\nab"), Err(Error::EndOfStream));
    assert_eq!(do_parse("$2\r\nab"), Err(Error::EndOfStream));
    assert_eq!(do_parse("*2\r\n:1\r\n"), Err(Error::EndOfStream));
    assert_eq!(do_parse("+OK"), Err(Error::EndOfStream));
    assert_eq!(do_parse("$9223372036854775807\r\nab\r\n"), Err(Error::EndOfStream));
}

#[test]
fn bulk_trailing_line_discarded() {
    let mut parser = Parser::new(b"$2\r\nabxyz\r\n:1\r\n".to_vec());
    assert_eq!(parser.parse_next(), Ok(RESPType::BulkString(b"ab".to_vec())));
    assert_eq!(parser.parse_next(), Ok(RESPType::Integer(1)));
}

#[test]
fn bulk_binary_payload() {
    assert_eq!(
        parse_bytes(b"$4\r\n\x00\n\xff\r\r\n"),
        Ok(RESPType::BulkString(vec![0, 10, 255, 13]))
    );
}

#[test]
fn array_child_error_aborts() {
    assert_eq!(do_parse("*2\r\n:1\r\n:x\r\n"), Err(Error::BadInteger));
}

#[test]
fn array_of_nulls_and_nested_empties() {
    assert_eq!(
        do_parse("*3\r\n$-1\r\n*-1\r\n*0\r\n"),
        Ok(RESPType::Array(vec![RESPType::Null, RESPType::Null, RESPType::Array(Vec::new())]))
    );
}
