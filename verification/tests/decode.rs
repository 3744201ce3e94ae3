use bytes::BytesMut;
use resp::decode::{
    decode_array, decode_bulk_string, decode_simple_string, get_line, parse_message, parse_string,
};
use resp::error::RespError;
use resp::value::Value;

#[test]
fn parse_ping_message() {
    let result = parse_message(&BytesMut::from("+PING\r\n")).unwrap().map(|out| out.0).unwrap();

    assert_eq!(Value::String("PING".to_string()), result);
}

#[test]
fn parse_array_of_ping_message() {
    let result = parse_message(&BytesMut::from("*1\r\n$4\r\nping\r\n")).unwrap().map(|out| out.0).unwrap();

    let command = Value::Bulk("ping".to_string());
    assert_eq!(Value::Array(vec![command]), result);
}

#[test]
fn parse_echo_message() {
    let result = parse_message(&BytesMut::from("*2\r\n$4\r\nECHO\r\n$3\r\nhey\r\n")).unwrap().map(|out| out.0).unwrap();

    let command = Value::Bulk("ECHO".to_string());
    let arg = Value::Bulk("hey".to_string());
    assert_eq!(Value::Array(vec![command, arg]), result);
}

#[test]
fn parse_ping_consumes_all_seven_bytes() {
    let result = parse_message(b"+PING\r\n").unwrap();

    assert_eq!(Some((Value::String("PING".to_string()), 7)), result);
}

#[test]
fn parse_simple_string_leaves_what_follows() {
    let result = parse_message(b"+OK\r\n+NEXT\r\n").unwrap();

    assert_eq!(Some((Value::String("OK".to_string()), 5)), result);
}

#[test]
fn parse_empty_simple_string() {
    assert_eq!(Ok(Some((Value::String(String::new()), 3))), parse_message(b"+\r\n"));
}

#[test]
fn parse_simple_string_keeps_lone_carriage_return() {
    let result = parse_message(b"+a\rb\r\n").unwrap();

    assert_eq!(Some((Value::String("a\rb".to_string()), 6)), result);
}

#[test]
fn parse_simple_string_of_several_bytes_a_character() {
    let result = parse_message("+h\u{e9}llo \u{1f600}\r\n".as_bytes()).unwrap();

    assert_eq!(Some((Value::String("h\u{e9}llo \u{1f600}".to_string()), 14)), result);
}

#[test]
fn parse_empty_buffer_is_incomplete() {
    assert_eq!(Ok(None), parse_message(b""));
}

#[test]
fn parse_simple_string_without_terminator_is_incomplete() {
    assert_eq!(Ok(None), parse_message(b"+PING"));
    assert_eq!(Ok(None), parse_message(b"+PING\r"));
    assert_eq!(Ok(None), parse_message(b"+PING\n"));
    assert_eq!(Ok(None), parse_message(b"+"));
}

#[test]
fn parse_simple_string_rejects_malformed_utf8() {
    assert_eq!(Err(RespError::MalformedUtf8), parse_message(b"+\xff\xfe\r\n"));
    assert_eq!(Err(RespError::MalformedUtf8), parse_message(b"+\xc3\r\n"));
}

#[test]
fn parse_unrecognized_marker() {
    assert_eq!(Err(RespError::UnrecognizedMessageType), parse_message(b"%x\r\n"));
}

#[test]
fn parse_error_marker_is_not_decoded() {
    assert_eq!(Err(RespError::UnrecognizedMessageType), parse_message(b"-ERR\r\n"));
}

#[test]
fn parse_integer_marker_is_not_decoded() {
    assert_eq!(Err(RespError::UnrecognizedMessageType), parse_message(b":1\r\n"));
}

#[test]
fn parse_bulk_string_takes_header_length_and_two() {
    let result = parse_message(b"$4\r\nping\r\nEXTRA").unwrap();

    assert_eq!(Some((Value::Bulk("ping".to_string()), 4 + 4 + 2)), result);
}

#[test]
fn parse_bulk_string_with_long_header() {
    let result = parse_message(b"$0012\r\nhello world!\r\n").unwrap();

    assert_eq!(Some((Value::Bulk("hello world!".to_string()), 7 + 12 + 2)), result);
}

#[test]
fn parse_bulk_string_with_plus_sign() {
    assert_eq!(Ok(Some((Value::Bulk("hey".to_string()), 10))), parse_message(b"$+3\r\nhey\r\n"));
}

#[test]
fn parse_empty_bulk_string() {
    assert_eq!(Ok(Some((Value::Bulk(String::new()), 6))), parse_message(b"$0\r\n\r\n"));
}

#[test]
fn parse_bulk_string_may_hold_a_terminator() {
    let result = parse_message(b"$4\r\na\r\nb\r\n").unwrap();

    assert_eq!(Some((Value::Bulk("a\r\nb".to_string()), 10)), result);
}

#[test]
fn parse_bulk_string_does_not_look_at_the_two_bytes_behind() {
    assert_eq!(Ok(Some((Value::Bulk("hey".to_string()), 9))), parse_message(b"$3\r\nheyXY"));
}

#[test]
fn parse_bulk_string_counts_bytes() {
    let result = parse_message("$2\r\n\u{e9}\r\n".as_bytes()).unwrap();

    assert_eq!(Some((Value::Bulk("\u{e9}".to_string()), 8)), result);
}

#[test]
fn parse_bulk_string_is_incomplete_until_the_last_byte() {
    assert_eq!(Ok(None), parse_message(b"$"));
    assert_eq!(Ok(None), parse_message(b"$4"));
    assert_eq!(Ok(None), parse_message(b"$4\r"));
    assert_eq!(Ok(None), parse_message(b"$4\r\n"));
    assert_eq!(Ok(None), parse_message(b"$4\r\nping"));
    assert_eq!(Ok(None), parse_message(b"$4\r\nping\r"));
    assert_eq!(Ok(None), parse_message(b"$9223372036854775807\r\nping\r\n"));
}

#[test]
fn parse_bulk_string_rejects_bad_length() {
    assert_eq!(Err(RespError::InvalidInteger), parse_message(b"$x\r\nping\r\n"));
    assert_eq!(Err(RespError::InvalidInteger), parse_message(b"$\r\nping\r\n"));
    assert_eq!(Err(RespError::InvalidInteger), parse_message(b"$4 \r\nping\r\n"));
    assert_eq!(Err(RespError::InvalidInteger), parse_message(b"$\xff\r\nping\r\n"));
    assert_eq!(Err(RespError::InvalidInteger), parse_message(b"$9223372036854775808\r\n"));
}

#[test]
fn parse_bulk_string_rejects_negative_length() {
    assert_eq!(Err(RespError::InvalidInteger), parse_message(b"$-1\r\n"));
    assert_eq!(Err(RespError::InvalidInteger), parse_message(b"$-5\r\nhello\r\n"));
}

#[test]
fn parse_bulk_string_rejects_malformed_utf8() {
    assert_eq!(Err(RespError::MalformedUtf8), parse_message(b"$2\r\n\xff\xfe\r\n"));
    assert_eq!(Err(RespError::MalformedUtf8), parse_message("$1\r\n\u{e9}\r\n".as_bytes()));
}

#[test]
fn parse_empty_array() {
    assert_eq!(Ok(Some((Value::Array(vec![]), 4))), parse_message(b"*0\r\n"));
}

#[test]
fn parse_array_with_negative_count_is_empty() {
    assert_eq!(Ok(Some((Value::Array(vec![]), 5))), parse_message(b"*-1\r\n+x\r\n"));
}

#[test]
fn parse_array_adds_up_the_bytes_of_its_items() {
    let result = parse_message(b"*2\r\n$4\r\nECHO\r\n$3\r\nhey\r\n+rest\r\n").unwrap();

    let items = vec![Value::Bulk("ECHO".to_string()), Value::Bulk("hey".to_string())];
    assert_eq!(Some((Value::Array(items), 4 + 10 + 9)), result);
}

#[test]
fn parse_nested_arrays() {
    let result = parse_message(b"*2\r\n*2\r\n+a\r\n$1\r\nb\r\n*0\r\n").unwrap();

    let inner = Value::Array(vec![Value::String("a".to_string()), Value::Bulk("b".to_string())]);
    assert_eq!(Some((Value::Array(vec![inner, Value::Array(vec![])]), 23)), result);
}

#[test]
fn parse_array_is_incomplete_while_an_item_is() {
    assert_eq!(Ok(None), parse_message(b"*"));
    assert_eq!(Ok(None), parse_message(b"*1\r"));
    assert_eq!(Ok(None), parse_message(b"*1\r\n"));
    assert_eq!(Ok(None), parse_message(b"*1\r\n$4\r\n"));
    assert_eq!(Ok(None), parse_message(b"*2\r\n$4\r\nECHO\r\n"));
    assert_eq!(Ok(None), parse_message(b"*2\r\n$4\r\nECHO\r\n$3\r\nhe"));
    assert_eq!(Ok(None), parse_message(b"*2\r\n*1\r\n+a\r\n"));
    assert_eq!(Ok(None), parse_message(b"*9223372036854775807\r\n+a\r\n"));
}

#[test]
fn parse_array_rejects_bad_count() {
    assert_eq!(Err(RespError::InvalidInteger), parse_message(b"*x\r\n"));
    assert_eq!(Err(RespError::InvalidInteger), parse_message(b"*\r\n"));
    assert_eq!(Err(RespError::InvalidInteger), parse_message(b"*1.5\r\n+a\r\n"));
}

#[test]
fn parse_array_fails_with_its_first_bad_item() {
    assert_eq!(Err(RespError::UnrecognizedMessageType), parse_message(b"*2\r\n+a\r\n%b\r\n"));
    assert_eq!(Err(RespError::InvalidInteger), parse_message(b"*2\r\n$x\r\n%b\r\n"));
    assert_eq!(Err(RespError::MalformedUtf8), parse_message(b"*2\r\n+\xff\r\n+b"));
    assert_eq!(Err(RespError::UnrecognizedMessageType), parse_message(b"*3\r\n+a\r\n-b\r\n"));
}

#[test]
fn parse_array_incomplete_item_comes_before_later_bad_item() {
    assert_eq!(Ok(None), parse_message(b"*2\r\n$9\r\n%b\r\n"));
}

#[test]
fn every_shorter_start_of_a_message_is_incomplete() {
    let message = b"*3\r\n$4\r\nECHO\r\n+h\xc3\xa9\r\n*1\r\n$0\r\n\r\n";
    assert_eq!(message.len(), parse_message(message).unwrap().unwrap().1);
    for k in 0..message.len() {
        assert_eq!(Ok(None), parse_message(&message[..k]));
    }
}

#[test]
fn bytes_behind_a_message_change_nothing() {
    let message = b"*2\r\n$4\r\nECHO\r\n$3\r\nhey\r\n";
    let alone = parse_message(message).unwrap();
    let mut longer = message.to_vec();
    longer.extend_from_slice(b"%garbage");

    assert_eq!(alone, parse_message(&longer).unwrap());
    assert_eq!(23, alone.unwrap().1);
}

#[test]
fn get_line_gives_the_line_and_its_span() {
    assert_eq!(Some((&b"PING"[..], 6)), get_line(b"PING\r\nrest\r\n"));
    assert_eq!(Some((&b""[..], 2)), get_line(b"\r\n"));
    assert_eq!(Some((&b"a\rb\n"[..], 6)), get_line(b"a\rb\n\r\n"));
    assert_eq!(Some((&b"\r"[..], 3)), get_line(b"\r\r\n"));
}

#[test]
fn get_line_without_terminator() {
    assert_eq!(None, get_line(b""));
    assert_eq!(None, get_line(b"\r"));
    assert_eq!(None, get_line(b"\n"));
    assert_eq!(None, get_line(b"\n\r"));
    assert_eq!(None, get_line(b"PING\r"));
}

#[test]
fn parse_string_reads_utf8() {
    assert_eq!(Ok("h\u{e9}llo".to_string()), parse_string("h\u{e9}llo".as_bytes()));
    assert_eq!(Ok(String::new()), parse_string(b""));
}

#[test]
fn parse_string_rejects_other_bytes() {
    assert_eq!(Err(RespError::MalformedUtf8), parse_string(b"\xff"));
    assert_eq!(Err(RespError::MalformedUtf8), parse_string(b"\xed\xa0\x80"));
    assert_eq!(Err(RespError::MalformedUtf8), parse_string(b"\xc0\x80"));
    assert_eq!(Err(RespError::MalformedUtf8), parse_string(b"ab\xe2\x82"));
}

#[test]
fn decoders_do_not_look_at_the_marker() {
    assert_eq!(Ok(Some((Value::String("a".to_string()), 4))), decode_simple_string(b"?a\r\n"));
    assert_eq!(Ok(Some((Value::Bulk("a".to_string()), 7))), decode_bulk_string(b"?1\r\na\r\n"));
    assert_eq!(
        Ok(Some((Value::Array(vec![Value::String("a".to_string())]), 8))),
        decode_array(b"?1\r\n+a\r\n")
    );
}

#[test]
fn decoders_on_an_empty_buffer_are_incomplete() {
    assert_eq!(Ok(None), decode_simple_string(b""));
    assert_eq!(Ok(None), decode_bulk_string(b""));
    assert_eq!(Ok(None), decode_array(b""));
}
