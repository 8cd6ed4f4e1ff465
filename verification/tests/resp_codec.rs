use redis_clone::decode::{DecodeOutcome, MalformedKind};
use redis_clone::resp::{EncodeError, RESPValues};

#[test]
fn parse_simple_string_correctly() {
    let value = "+PING\r\n";
    let result = RESPValues::try_from(value);

    assert!(result.is_ok_and(|r| r == RESPValues::SimpleString("PING".to_string())))
}

#[test]
fn parse_simple_error_correctly() {
    let value = "-TEST ERROR\r\n";
    let result = RESPValues::try_from(value);

    assert!(result.is_ok_and(|r| r == RESPValues::SimpleError("TEST ERROR".to_string())));
}

#[test]
fn parse_integer_correctly() {
    let value = ":2\r\n";
    let result = RESPValues::try_from(value);

    assert!(result.is_ok_and(|r| r == RESPValues::Integer(2)));
}

#[test]
fn parse_negative_integer_correctly() {
    let value = ":-2\r\n";
    let result = RESPValues::try_from(value);

    assert!(result.is_ok_and(|r| r == RESPValues::Integer(-2)));
}

#[test]
fn parse_bulk_string_correctly() {
    let value = "$4\r\nBulk\r\n";
    let result = RESPValues::try_from(value);

    assert!(result.is_ok_and(|r| r == RESPValues::BulkString("Bulk".to_string())));
}

#[test]
fn parse_empty_bulk_string_correctly() {
    let value = "$0\r\n\r\n";
    let result = RESPValues::try_from(value);

    assert!(result.is_ok_and(|r| r == RESPValues::BulkString(String::new())));
}

#[test]
fn parse_array_with_zero_items_correctly() {
    let value = "*0\r\n";
    let result = RESPValues::try_from(value);

    assert!(result.is_ok_and(|r| r == RESPValues::Array(vec![])));
}

#[test]
fn parse_array_with_one_item_correctly() {
    let value = "*1\r\n:1\r\n";
    let result = RESPValues::try_from(value);

    assert!(result.is_ok_and(|r| r == RESPValues::Array(vec![RESPValues::Integer(1)])));
}

#[test]
fn parse_nested_array_correctly() {
    let value = "*2\r\n*1\r\n+PING\r\n$4\r\nPONG\r\n";
    let result = RESPValues::try_from(value);

    assert!(result.is_ok_and(|r| r
        == RESPValues::Array(vec![
            RESPValues::Array(vec![RESPValues::SimpleString("PING".to_string())]),
            RESPValues::BulkString("PONG".to_string())
        ])));
}

#[test]
fn simple_string_to_string() {
    let value = RESPValues::SimpleString(String::from("PING"));
    let result = value.to_string();
    assert_eq!(&result, "+PING\r\n");
}

#[test]
fn simple_error_to_string() {
    let value = RESPValues::SimpleError(String::from("TEST ERROR"));
    let result = value.to_string();
    assert_eq!(&result, "-TEST ERROR\r\n");
}

#[test]
fn integer_to_string() {
    let value = RESPValues::Integer(10);
    let result = value.to_string();
    assert_eq!(&result, ":10\r\n");
}

#[test]
fn negative_integer_to_string() {
    let value = RESPValues::Integer(-10);
    let result = value.to_string();
    assert_eq!(&result, ":-10\r\n");
}

#[test]
fn bulk_string_to_string() {
    let value = RESPValues::BulkString(String::from("testing"));
    let result = value.to_string();
    assert_eq!(&result, "$7\r\ntesting\r\n");
}

#[test]
fn empty_array_to_string() {
    let value = RESPValues::Array(vec![]);
    let result = value.to_string();
    assert_eq!(&result, "*0\r\n");
}

#[test]
fn one_item_array_to_string() {
    let value = RESPValues::Array(vec![RESPValues::Integer(2)]);
    let result = value.to_string();
    assert_eq!(&result, "*1\r\n:2\r\n");
}

#[test]
fn nested_items_array_to_string() {
    let value = RESPValues::Array(vec![
        RESPValues::Integer(2),
        RESPValues::Array(vec![RESPValues::BulkString(String::from("PONG"))]),
    ]);
    let result = value.to_string();
    assert_eq!(&result, "*2\r\n:2\r\n*1\r\n$4\r\nPONG\r\n");
}

#[test]
fn negative_integer_round_trips() {
    let decoded = RESPValues::try_from(":-2\r\n");
    assert!(decoded.is_ok_and(|r| r == RESPValues::Integer(-2)));
    assert_eq!(&RESPValues::Integer(-2).to_string(), ":-2\r\n");
}

#[test]
fn extreme_integers_round_trip() {
    let encoded = RESPValues::Integer(i64::MIN).to_string();
    assert_eq!(&encoded, ":-9223372036854775808\r\n");
    let decoded = RESPValues::try_from(encoded.as_str());
    assert!(decoded.is_ok_and(|r| r == RESPValues::Integer(i64::MIN)));

    let encoded = RESPValues::Integer(i64::MAX).to_string();
    assert_eq!(&encoded, ":9223372036854775807\r\n");
    let decoded = RESPValues::try_from(encoded.as_str());
    assert!(decoded.is_ok_and(|r| r == RESPValues::Integer(i64::MAX)));
}

#[test]
fn null_bulk_string_decodes_to_null() {
    let result = RESPValues::try_from("$-1\r\n");
    assert!(result.is_ok_and(|r| r == RESPValues::Null));
}

#[test]
fn null_to_string() {
    assert_eq!(&RESPValues::Null.to_string(), "$-1\r\n");
}

#[test]
fn empty_bulk_string_is_distinct_from_null() {
    let empty = RESPValues::try_from("$0\r\n\r\n").unwrap();
    let null = RESPValues::try_from("$-1\r\n").unwrap();
    assert_eq!(empty, RESPValues::BulkString(String::new()));
    assert_eq!(null, RESPValues::Null);
    assert_ne!(empty, null);
    assert_eq!(&empty.to_string(), "$0\r\n\r\n");
    assert_eq!(&null.to_string(), "$-1\r\n");
}

#[test]
fn null_array_decodes_distinctly() {
    let result = RESPValues::try_from("*-1\r\n");
    assert!(result.is_ok_and(|r| r == RESPValues::NullArray));
    assert_eq!(&RESPValues::NullArray.to_string(), "*-1\r\n");
    assert_ne!(RESPValues::NullArray, RESPValues::Null);
}

#[test]
fn bulk_string_with_embedded_crlf_round_trips() {
    let value = RESPValues::BulkString(String::from("a\r\nb"));
    let encoded = value.to_string();
    assert_eq!(&encoded, "$4\r\na\r\nb\r\n");
    let decoded = RESPValues::decode(encoded.as_bytes()).unwrap();
    assert_eq!(decoded.0, RESPValues::BulkString(String::from("a\r\nb")));
    assert_eq!(decoded.1, encoded.len());
}

#[test]
fn decode_reports_consumed_length() {
    let (value, consumed) = RESPValues::decode(b"+OK\r\n:1\r\n").unwrap();
    assert_eq!(value, RESPValues::SimpleString("OK".to_string()));
    assert_eq!(consumed, 5);
}

#[test]
fn incomplete_simple_string_waits() {
    let result = RESPValues::decode(b"+PO");
    assert_eq!(result, Err(DecodeOutcome::Incomplete));
}

#[test]
fn incomplete_bulk_string_waits() {
    let result = RESPValues::decode(b"$10\r\nabc");
    assert_eq!(result, Err(DecodeOutcome::Incomplete));
}

#[test]
fn unknown_tag_is_malformed() {
    let result = RESPValues::decode(b"?hello\r\n");
    assert_eq!(
        result,
        Err(DecodeOutcome::Malformed(MalformedKind::UnknownTag))
    );
}

#[test]
fn non_numeric_integer_is_malformed() {
    let result = RESPValues::decode(b":12a\r\n");
    assert_eq!(
        result,
        Err(DecodeOutcome::Malformed(MalformedKind::BadInteger))
    );
}

#[test]
fn integer_overflow_is_malformed() {
    let result = RESPValues::decode(b":99999999999999999999\r\n");
    assert_eq!(
        result,
        Err(DecodeOutcome::Malformed(MalformedKind::BadInteger))
    );
}

#[test]
fn empty_integer_is_malformed() {
    let result = RESPValues::decode(b":\r\n");
    assert_eq!(
        result,
        Err(DecodeOutcome::Malformed(MalformedKind::BadInteger))
    );
}

#[test]
fn negative_bulk_length_is_malformed() {
    let result = RESPValues::decode(b"$-2\r\n");
    assert_eq!(
        result,
        Err(DecodeOutcome::Malformed(MalformedKind::BadLength))
    );
}

#[test]
fn bad_bulk_terminator_is_malformed() {
    let result = RESPValues::decode(b"$3\r\nabcXY");
    assert_eq!(
        result,
        Err(DecodeOutcome::Malformed(MalformedKind::BadTerminator))
    );
}

#[test]
fn leading_zeros_are_accepted_in_integers() {
    let result = RESPValues::try_from(":007\r\n");
    assert!(result.is_ok_and(|r| r == RESPValues::Integer(7)));
}

#[test]
fn stub_variants_do_not_encode() {
    assert_eq!(RESPValues::Boolean.encode(), Err(EncodeError::Unsupported));
    let nested = RESPValues::Array(vec![RESPValues::Double]);
    assert_eq!(nested.encode(), Err(EncodeError::Unsupported));
    let fine = RESPValues::Array(vec![RESPValues::Integer(1)]);
    assert_eq!(fine.encode(), Ok("*1\r\n:1\r\n".to_string()));
}

#[test]
fn bulk_string_length_counts_bytes_not_characters() {
    // one two-byte character: the declared length is 2
    let value = RESPValues::BulkString("\u{e9}".to_string());
    let encoded = value.to_string();
    assert_eq!(encoded.as_bytes(), "$2\r\n\u{e9}\r\n".as_bytes());
    let decoded = RESPValues::try_from(encoded.as_str());
    assert!(decoded.is_ok_and(|r| r == RESPValues::BulkString("\u{e9}".to_string())));
}

#[test]
fn multibyte_frame_from_a_conforming_peer_decodes() {
    let (value, consumed) = RESPValues::decode(b"$2\r\n\xc3\xa9\r\n").unwrap();
    assert_eq!(value, RESPValues::BulkString("\u{e9}".to_string()));
    assert_eq!(consumed, 8);
}

#[test]
fn length_cutting_a_character_is_malformed() {
    // a declared length of 1 ends inside the two-byte character, so the
    // terminator check fails on its continuation byte
    let result = RESPValues::decode(b"$1\r\n\xc3\xa9\r\n");
    assert_eq!(
        result,
        Err(DecodeOutcome::Malformed(MalformedKind::BadTerminator))
    );
}

#[test]
fn non_text_payload_is_refused() {
    let result = RESPValues::decode(b"$2\r\n\xff\xfe\r\n");
    assert_eq!(result, Err(DecodeOutcome::Malformed(MalformedKind::BadText)));
}
