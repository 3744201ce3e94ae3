use resp::decode::parse_message;
use resp::error::RespError;
use resp::value::Value;

#[test]
fn encode_simple_string() {
    assert_eq!(Ok("+PONG\r\n".to_string()), Value::String("PONG".to_string()).encode());
    assert_eq!(Ok("+\r\n".to_string()), Value::String(String::new()).encode());
}

#[test]
fn encode_error() {
    let value = Value::Error("ERR unknown command".to_string());

    assert_eq!(Ok("-ERR unknown command\r\n".to_string()), value.encode());
}

#[test]
fn encode_bulk_string() {
    assert_eq!(Ok("$3\r\nhey\r\n".to_string()), Value::Bulk("hey".to_string()).encode());
    assert_eq!(Ok("$0\r\n\r\n".to_string()), Value::Bulk(String::new()).encode());
    assert_eq!(
        Ok("$12\r\nhello world!\r\n".to_string()),
        Value::Bulk("hello world!".to_string()).encode()
    );
}

#[test]
fn encode_bulk_string_counts_characters() {
    assert_eq!(Ok("$5\r\nh\u{e9}llo\r\n".to_string()), Value::Bulk("h\u{e9}llo".to_string()).encode());
}

#[test]
fn encode_array_is_unsupported() {
    assert_eq!(Err(RespError::UnsupportedEncoding), Value::Array(vec![]).encode());
    assert_eq!(
        Err(RespError::UnsupportedEncoding),
        Value::Array(vec![Value::Bulk("ping".to_string())]).encode()
    );
}

#[test]
fn simple_string_round_trip() {
    let texts: [&str; 5] = ["", "PING", "hello world", "tab\tand\rreturn\nfeed", "h\u{e9}llo \u{1f600}"];
    for text in texts {
        let value = Value::String(text.to_string());
        let encoded = value.clone().encode().unwrap();

        assert_eq!(Ok(Some((value, encoded.len()))), parse_message(encoded.as_bytes()));
    }
}

#[test]
fn bulk_string_round_trip() {
    let texts: [&str; 5] = ["", "ping", "hello world!", "with\r\nterminator", "0123456789 ~!@#"];
    for text in texts {
        let value = Value::Bulk(text.to_string());
        let encoded = value.clone().encode().unwrap();

        assert_eq!(Ok(Some((value, encoded.len()))), parse_message(encoded.as_bytes()));
    }
}

#[test]
fn bulk_string_of_a_hundred_characters_round_trip() {
    let value = Value::Bulk("x".repeat(100));
    let encoded = value.clone().encode().unwrap();

    assert_eq!(100 + 8, encoded.len());
    assert_eq!(Ok(Some((value, 108))), parse_message(encoded.as_bytes()));
}

#[test]
fn encoded_error_is_not_decoded() {
    let encoded = Value::Error("x".to_string()).encode().unwrap();

    assert_eq!(Err(RespError::UnrecognizedMessageType), parse_message(encoded.as_bytes()));
}

#[test]
fn bulk_string_with_wide_characters_does_not_round_trip() {
    let encoded = Value::Bulk("\u{e9}".to_string()).encode().unwrap();

    assert_eq!(Err(RespError::MalformedUtf8), parse_message(encoded.as_bytes()));
}

#[test]
fn simple_string_with_terminator_does_not_round_trip() {
    let encoded = Value::String("a\r\nb".to_string()).encode().unwrap();

    assert_eq!(Ok(Some((Value::String("a".to_string()), 4))), parse_message(encoded.as_bytes()));
}

#[test]
fn to_command_of_echo() {
    let parsed = parse_message(b"*2\r\n$4\r\nECHO\r\n$3\r\nhey\r\n").unwrap().unwrap().0;

    assert_eq!(
        Ok(("ECHO".to_string(), vec![Value::Bulk("hey".to_string())])),
        parsed.to_command()
    );
}

#[test]
fn to_command_without_arguments() {
    let value = Value::Array(vec![Value::Bulk("ping".to_string())]);

    assert_eq!(Ok(("ping".to_string(), vec![])), value.to_command());
}

#[test]
fn to_command_keeps_arguments_of_any_kind() {
    let arguments = vec![
        Value::String("a".to_string()),
        Value::Array(vec![Value::Bulk("b".to_string()), Value::Error("c".to_string())]),
        Value::Bulk("d".to_string()),
    ];
    let mut items = vec![Value::Bulk("SET".to_string())];
    items.extend(arguments.clone());

    assert_eq!(Ok(("SET".to_string(), arguments)), Value::Array(items).to_command());
}

#[test]
fn to_command_of_empty_array_is_invalid() {
    assert_eq!(Err(RespError::InvalidCommand), Value::Array(vec![]).to_command());
}

#[test]
fn to_command_of_simple_string_is_invalid() {
    assert_eq!(Err(RespError::InvalidCommand), Value::String("x".to_string()).to_command());
}

#[test]
fn to_command_of_other_shapes_is_invalid() {
    assert_eq!(Err(RespError::InvalidCommand), Value::Bulk("x".to_string()).to_command());
    assert_eq!(Err(RespError::InvalidCommand), Value::Error("x".to_string()).to_command());
    assert_eq!(
        Err(RespError::InvalidCommand),
        Value::Array(vec![Value::String("ECHO".to_string())]).to_command()
    );
    assert_eq!(
        Err(RespError::InvalidCommand),
        Value::Array(vec![Value::Array(vec![]), Value::Bulk("x".to_string())]).to_command()
    );
}

#[test]
fn unwrap_bulk_gives_the_text() {
    assert_eq!(Ok("hey".to_string()), Value::Bulk("hey".to_string()).unwrap_bulk());
}

#[test]
fn unwrap_bulk_of_other_values_is_invalid() {
    assert_eq!(Err(RespError::InvalidCommand), Value::String("hey".to_string()).unwrap_bulk());
    assert_eq!(Err(RespError::InvalidCommand), Value::Error("hey".to_string()).unwrap_bulk());
    assert_eq!(Err(RespError::InvalidCommand), Value::Array(vec![]).unwrap_bulk());
}

#[test]
fn clone_is_equal() {
    let value = Value::Array(vec![
        Value::String("a".to_string()),
        Value::Error("b".to_string()),
        Value::Array(vec![Value::Bulk("c".to_string())]),
    ]);

    assert_eq!(value, value.clone());
}

#[test]
fn only_shape_errors_are_recoverable() {
    assert!(RespError::InvalidCommand.is_recoverable());
    assert!(RespError::UnsupportedEncoding.is_recoverable());
    assert!(!RespError::UnrecognizedMessageType.is_recoverable());
    assert!(!RespError::MalformedUtf8.is_recoverable());
    assert!(!RespError::InvalidInteger.is_recoverable());
    assert!(!RespError::ConnectionClosedUnexpectedly.is_recoverable());
    assert!(!RespError::IoError.is_recoverable());
}
