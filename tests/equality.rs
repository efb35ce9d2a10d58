use resp_codec::equality::{bytes_eq, frame_eq, keys_unique, members_distinct, text_eq};
use resp_codec::frame::{Array, BulkString, RespFrame, SimpleString};

#[test]
fn frames_compare_by_value() {
    let a = RespFrame::Array(Array(vec![RespFrame::Integer(1), RespFrame::Boolean(true)]));
    let b = RespFrame::Array(Array(vec![RespFrame::Integer(1), RespFrame::Boolean(true)]));
    let c = RespFrame::Array(Array(vec![RespFrame::Integer(1), RespFrame::Boolean(false)]));
    assert!(frame_eq(&a, &b));
    assert!(!frame_eq(&a, &c));
    assert!(!frame_eq(
        &RespFrame::SimpleString(SimpleString::new("x".to_string())),
        &RespFrame::BulkString(BulkString(b"x".to_vec()))
    ));
    assert!(text_eq(&"héllo".to_string(), &"héllo".to_string()));
    assert!(!text_eq(&"a".to_string(), &"b".to_string()));
    assert!(bytes_eq(b"ab", b"ab"));
    assert!(!bytes_eq(b"ab", b"abc"));
}

#[test]
fn uniqueness_checks() {
    assert!(members_distinct(&vec![RespFrame::Integer(1), RespFrame::Integer(2)]));
    assert!(!members_distinct(&vec![RespFrame::Integer(2), RespFrame::Integer(2)]));
    assert!(keys_unique(&vec![("a".to_string(), RespFrame::Integer(1)), ("b".to_string(), RespFrame::Integer(1))]));
    assert!(!keys_unique(&vec![("a".to_string(), RespFrame::Integer(1)), ("a".to_string(), RespFrame::Integer(2))]));
}
