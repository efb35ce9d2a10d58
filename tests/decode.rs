use bytes::{BufMut, BytesMut};
use resp_codec::decode::{decode_frame, is_double_syntax, parse_signed, RespDecode};
use resp_codec::frame::{Array, BulkString, DoubleText, RespFrame, SimpleError, SimpleString};
use resp_codec::utils::{extract_fixed_data, extract_simple_frame_data, find_crlf};
use resp_codec::{Kind, RespError};

#[test]
fn test_simple_string_decode() -> anyhow::Result<()> {
    let mut buf = BytesMut::from("+OK\r\n");
    let simple_string = SimpleString::decode(&mut buf).unwrap();
    assert_eq!(simple_string, SimpleString::new("OK".to_string()));

    buf.extend_from_slice(b"+hello\r");
    let simple_string = SimpleString::decode(&mut buf);
    assert_eq!(simple_string.unwrap_err(), RespError::NotComplete);

    buf.put_u8(b'\n');
    let simple_string = SimpleString::decode(&mut buf).unwrap();
    assert_eq!(simple_string, SimpleString::new("hello".to_string()));

    Ok(())
}

#[test]
fn test_simple_error_decode() -> anyhow::Result<()> {
    let mut buf = BytesMut::from("-Error message\r\n");
    let simple_error = SimpleError::decode(&mut buf).unwrap();
    assert_eq!(simple_error, SimpleError::new("Error message".to_string()));

    buf.extend_from_slice(b"-hello\r");
    let simple_error = SimpleError::decode(&mut buf);
    assert_eq!(simple_error.unwrap_err(), RespError::NotComplete);

    buf.put_u8(b'\n');
    let simple_error = SimpleError::decode(&mut buf).unwrap();
    assert_eq!(simple_error, SimpleError::new("hello".to_string()));

    Ok(())
}

#[test]
fn test_boolean_decode() -> anyhow::Result<()> {
    let mut buf = BytesMut::from("#t\r\n");
    let boolean = bool::decode(&mut buf).unwrap();
    assert!(boolean);

    buf.extend_from_slice(b"#f\r\n");
    let boolean = bool::decode(&mut buf).unwrap();
    assert!(!boolean);

    buf.extend_from_slice(b"#f\r");
    let boolean = bool::decode(&mut buf);
    assert_eq!(boolean.unwrap_err(), RespError::NotComplete);

    buf.put_u8(b'\n');
    let bool = bool::decode(&mut buf).unwrap();
    assert!(!bool);

    Ok(())
}

#[test]
fn decode_ok_consumes_five_bytes() {
    let mut buf = BytesMut::from("+OK\r\n");
    let frame = RespFrame::decode(&mut buf).unwrap();
    assert_eq!(frame, RespFrame::SimpleString(SimpleString::new("OK".to_string())));
    assert_eq!(buf.len(), 0);
}

#[test]
fn decode_leaves_following_bytes() {
    let mut buf = BytesMut::from("+OK\r\n:1\r\n");
    let frame = RespFrame::decode(&mut buf).unwrap();
    assert_eq!(frame, RespFrame::SimpleString(SimpleString::new("OK".to_string())));
    assert_eq!(&buf[..], b":1\r\n");
}

#[test]
fn decode_incomplete_then_complete() {
    let mut buf = BytesMut::from("+hello\r");
    assert_eq!(RespFrame::decode(&mut buf).unwrap_err(), RespError::NotComplete);
    assert_eq!(&buf[..], b"+hello\r");
    buf.extend_from_slice(b"\n");
    let frame = RespFrame::decode(&mut buf).unwrap();
    assert_eq!(frame, RespFrame::SimpleString(SimpleString::new("hello".to_string())));
}

#[test]
fn decode_booleans_through_dispatcher() {
    let mut buf = BytesMut::from("#t\r\n");
    assert_eq!(RespFrame::decode(&mut buf).unwrap(), RespFrame::Boolean(true));
    let mut buf = BytesMut::from("#f\r\n");
    assert_eq!(RespFrame::decode(&mut buf).unwrap(), RespFrame::Boolean(false));
    let mut buf = BytesMut::from("#f\r");
    assert_eq!(RespFrame::decode(&mut buf).unwrap_err(), RespError::NotComplete);
    assert_eq!(buf.len(), 3);
}

#[test]
fn decode_integers() {
    let mut buf = BytesMut::from(":123\r\n");
    assert_eq!(i64::decode(&mut buf).unwrap(), 123);
    let mut buf = BytesMut::from(":-5\r\n");
    assert_eq!(i64::decode(&mut buf).unwrap(), -5);
    let mut buf = BytesMut::from(":+7\r\n");
    assert_eq!(RespFrame::decode(&mut buf).unwrap(), RespFrame::Integer(7));
    let mut buf = BytesMut::from(":-9223372036854775808\r\n");
    assert_eq!(i64::decode(&mut buf).unwrap(), i64::MIN);
}

#[test]
fn decode_integer_errors() {
    let mut buf = BytesMut::from(":12a\r\n");
    assert_eq!(i64::decode(&mut buf).unwrap_err().kind(), Kind::InvalidFrame);
    assert_eq!(buf.len(), 6);
    let mut buf = BytesMut::from(":9223372036854775808\r\n");
    assert_eq!(i64::decode(&mut buf).unwrap_err().kind(), Kind::InvalidFrame);
    let mut buf = BytesMut::from("+12\r\n");
    assert_eq!(i64::decode(&mut buf).unwrap_err().kind(), Kind::InvalidFrameType);
}

#[test]
fn decode_null_bulk_string() {
    let mut buf = BytesMut::from("$-1\r\n");
    let frame = RespFrame::decode(&mut buf).unwrap();
    assert!(matches!(frame, RespFrame::NullBulkString(_)));
    assert_eq!(buf.len(), 0);
}

#[test]
fn decode_bulk_string() {
    let mut buf = BytesMut::from("$3\r\nfoo\r\n");
    assert_eq!(RespFrame::expect_length(&buf[..]).unwrap(), 9);
    let frame = RespFrame::decode(&mut buf).unwrap();
    assert_eq!(frame, RespFrame::BulkString(BulkString(b"foo".to_vec())));
    assert_eq!(buf.len(), 0);
}

#[test]
fn decode_bulk_string_errors() {
    let mut buf = BytesMut::from("$3\r\nfo");
    assert_eq!(RespFrame::decode(&mut buf).unwrap_err(), RespError::NotComplete);
    let mut buf = BytesMut::from("$3\r\nfooXY");
    assert_eq!(RespFrame::decode(&mut buf).unwrap_err().kind(), Kind::InvalidFrame);
    let mut buf = BytesMut::from("$-2\r\n");
    assert_eq!(RespFrame::decode(&mut buf).unwrap_err().kind(), Kind::InvalidFrameLength);
    let mut buf = BytesMut::from("$x\r\n");
    assert_eq!(RespFrame::decode(&mut buf).unwrap_err().kind(), Kind::InvalidFrameLength);
}

#[test]
fn decode_nested_array() {
    let mut buf = BytesMut::from("*2\r\n+a\r\n*1\r\n:1\r\n");
    let frame = RespFrame::decode(&mut buf).unwrap();
    let expected = RespFrame::Array(Array(vec![
        RespFrame::SimpleString(SimpleString::new("a".to_string())),
        RespFrame::Array(Array(vec![RespFrame::Integer(1)])),
    ]));
    assert_eq!(frame, expected);
    assert_eq!(buf.len(), 0);
}

#[test]
fn decode_array_waits_for_last_element() {
    let mut buf = BytesMut::from("*2\r\n+a\r\n:1\r");
    assert_eq!(RespFrame::decode(&mut buf).unwrap_err(), RespError::NotComplete);
    assert_eq!(buf.len(), 11);
    let mut buf = BytesMut::from("*-1\r\n");
    assert!(matches!(RespFrame::decode(&mut buf).unwrap(), RespFrame::NullArray(_)));
}

#[test]
fn decode_map_and_set() {
    let mut buf = BytesMut::from("%1\r\n+k\r\n:2\r\n~2\r\n#t\r\n_\r\n");
    match RespFrame::decode(&mut buf).unwrap() {
        RespFrame::RespMap(m) => {
            assert_eq!(m.0.len(), 1);
            assert_eq!(m.0[0].0, "k");
            assert_eq!(m.0[0].1, RespFrame::Integer(2));
        }
        other => panic!("unexpected {:?}", other),
    }
    match RespFrame::decode(&mut buf).unwrap() {
        RespFrame::RespSet(s) => {
            assert_eq!(s.0.len(), 2);
            assert_eq!(s.0[0], RespFrame::Boolean(true));
            assert!(matches!(s.0[1], RespFrame::Null(_)));
        }
        other => panic!("unexpected {:?}", other),
    }
    assert_eq!(buf.len(), 0);
}

#[test]
fn decode_map_key_must_be_simple_string() {
    let mut buf = BytesMut::from("%1\r\n:1\r\n:2\r\n");
    assert_eq!(RespFrame::decode(&mut buf).unwrap_err().kind(), Kind::InvalidFrameType);
}

#[test]
fn decode_unknown_prefix_and_empty() {
    let mut buf = BytesMut::from("?x\r\n");
    assert_eq!(RespFrame::decode(&mut buf).unwrap_err().kind(), Kind::InvalidFrameType);
    let mut buf = BytesMut::new();
    assert_eq!(RespFrame::decode(&mut buf).unwrap_err(), RespError::NotComplete);
    let mut buf = BytesMut::from("_x\r\n");
    assert_eq!(RespFrame::decode(&mut buf).unwrap_err().kind(), Kind::InvalidFrame);
}

#[test]
fn decode_lossy_text() {
    let mut buf = BytesMut::from(&b"+a\xffb\r\n"[..]);
    let s = SimpleString::decode(&mut buf).unwrap();
    assert_eq!(s.0, "a\u{fffd}b");
}

#[test]
fn scanning_primitives() {
    assert_eq!(find_crlf(b"a\r\nb\r\n", 1), Some(1));
    assert_eq!(find_crlf(b"a\r\nb\r\n", 2), Some(4));
    assert_eq!(find_crlf(b"a\r\nb\r\n", 3), None);
    assert_eq!(find_crlf(b"a\r\n", 0), None);
    assert_eq!(extract_simple_frame_data(b"+OK\r\n", "+"), Ok(3));
    assert_eq!(extract_simple_frame_data(b"+O", "+"), Err(RespError::NotComplete));
    assert_eq!(extract_simple_frame_data(b"-OK\r\n", "+").unwrap_err().kind(), Kind::InvalidFrameType);
    let mut buf = BytesMut::from("#t\r\nrest");
    assert_eq!(extract_fixed_data(&mut buf, "#t\r\n", "Bool"), Ok(()));
    assert_eq!(&buf[..], b"rest");
    assert_eq!(extract_fixed_data(&mut buf, "rest!", "Tok"), Err(RespError::NotComplete));
    assert_eq!(extract_fixed_data(&mut buf, "nope", "Tok").unwrap_err().kind(), Kind::InvalidFrameType);
    assert_eq!(&buf[..], b"rest");
}

#[test]
fn signed_numbers() {
    assert_eq!(parse_signed(b"42"), Some(42));
    assert_eq!(parse_signed(b"+42"), Some(42));
    assert_eq!(parse_signed(b"-42"), Some(-42));
    assert_eq!(parse_signed(b"-"), None);
    assert_eq!(parse_signed(b""), None);
    assert_eq!(parse_signed(b"9223372036854775807"), Some(i64::MAX));
    assert_eq!(parse_signed(b"99999999999999999999999"), None);
}

#[test]
fn expect_length_matches_consumed() {
    let data: &[u8] = b"*2\r\n$3\r\nfoo\r\n%0\r\nextra";
    let n = RespFrame::expect_length(data).unwrap();
    let mut buf = BytesMut::from(data);
    let before = buf.len();
    RespFrame::decode(&mut buf).unwrap();
    assert_eq!(before - buf.len(), n);
    assert_eq!(decode_frame(data).unwrap().1, n);
    assert_eq!(SimpleString::expect_length(b"+hi\r\n"), Ok(5));
    assert_eq!(bool::expect_length(b"#t\r\n"), Ok(4));
}

#[test]
fn error_retry_signal() {
    assert!(RespError::NotComplete.is_retryable());
    assert!(!RespError::InvalidFrameLength(-2).is_retryable());
}

#[test]
fn decode_rejects_duplicate_keys_and_members() {
    let mut buf = BytesMut::from("%2\r\n+k\r\n:1\r\n+k\r\n:2\r\n");
    assert_eq!(RespFrame::decode(&mut buf).unwrap_err().kind(), Kind::InvalidFrame);
    assert_eq!(buf.len(), 20);
    let mut buf = BytesMut::from("~2\r\n*1\r\n:1\r\n*1\r\n:+1\r\n");
    assert_eq!(RespFrame::decode(&mut buf).unwrap_err().kind(), Kind::InvalidFrame);
    let mut buf = BytesMut::from("~2\r\n:1\r\n:2\r\n");
    assert!(matches!(RespFrame::decode(&mut buf).unwrap(), RespFrame::RespSet(_)));
}

#[test]
fn decode_doubles() {
    let mut buf = BytesMut::from(",+1.5e+3\r\n");
    assert_eq!(RespFrame::decode(&mut buf).unwrap(), RespFrame::Double(DoubleText("+1.5e+3".to_string())));
    let mut buf = BytesMut::from(",-inf\r\n");
    assert_eq!(RespFrame::decode(&mut buf).unwrap(), RespFrame::Double(DoubleText("-inf".to_string())));
    let mut buf = BytesMut::from(",1.\r\n");
    assert_eq!(RespFrame::decode(&mut buf).unwrap_err().kind(), Kind::InvalidFrame);
    let mut buf = BytesMut::from(",1.5");
    assert_eq!(RespFrame::decode(&mut buf).unwrap_err(), RespError::NotComplete);
}

#[test]
fn double_syntax() {
    assert!(is_double_syntax(b"10"));
    assert!(is_double_syntax(b"-3.14"));
    assert!(is_double_syntax(b"+1e-7"));
    assert!(is_double_syntax(b"2.5E10"));
    assert!(is_double_syntax(b"nan"));
    assert!(is_double_syntax(b"NaN"));
    assert!(is_double_syntax(b"inf"));
    assert!(!is_double_syntax(b""));
    assert!(!is_double_syntax(b"+"));
    assert!(!is_double_syntax(b".5"));
    assert!(!is_double_syntax(b"1e"));
    assert!(!is_double_syntax(b"1.5x"));
    assert!(!is_double_syntax(b"infinity"));
}
