use bytes::BytesMut;
use resp_codec::decode::RespDecode;
use resp_codec::encode::RespEncode;
use resp_codec::frame::{
    Array, BulkString, DoubleText, Null, NullArray, NullBulkString, RespFrame, RespMap, RespSet, SimpleError,
    SimpleString,
};

#[test]
fn encode_simple_string() {
    assert_eq!(SimpleString::new("OK".to_string()).encode(), b"+OK\r\n");
}

#[test]
fn encode_bulk_string() {
    assert_eq!(BulkString(b"foo".to_vec()).encode(), b"$3\r\nfoo\r\n");
    assert_eq!(BulkString(Vec::new()).encode(), b"$0\r\n\r\n");
}

#[test]
fn encode_scalars() {
    assert_eq!(SimpleError::new("Error message".to_string()).encode(), b"-Error message\r\n");
    assert_eq!(123i64.encode(), b":+123\r\n");
    assert_eq!((-5i64).encode(), b":-5\r\n");
    assert_eq!(0i64.encode(), b":+0\r\n");
    assert_eq!(i64::MIN.encode(), b":-9223372036854775808\r\n");
    assert_eq!(true.encode(), b"#t\r\n");
    assert_eq!(false.encode(), b"#f\r\n");
    assert_eq!(Null.encode(), b"_\r\n");
    assert_eq!(NullArray.encode(), b"*-1\r\n");
    assert_eq!(NullBulkString.encode(), b"$-1\r\n");
}

#[test]
fn encode_containers() {
    let a = Array(vec![
        RespFrame::SimpleString(SimpleString::new("a".to_string())),
        RespFrame::Integer(1),
    ]);
    assert_eq!(a.encode(), b"*2\r\n+a\r\n:+1\r\n");
    let m = RespMap(vec![("k".to_string(), RespFrame::Boolean(true))]);
    assert_eq!(m.encode(), b"%1\r\n+k\r\n#t\r\n");
    let s = RespSet(vec![RespFrame::Null(Null)]);
    assert_eq!(s.encode(), b"~1\r\n_\r\n");
    assert_eq!(Array(Vec::new()).encode(), b"*0\r\n");
}

fn sample() -> RespFrame {
    RespFrame::Array(Array(vec![
        RespFrame::SimpleString(SimpleString::new("hello".to_string())),
        RespFrame::Error(SimpleError::new("ERR bad".to_string())),
        RespFrame::Integer(-42),
        RespFrame::BulkString(BulkString(b"a\r\nb".to_vec())),
        RespFrame::NullBulkString(NullBulkString),
        RespFrame::Null(Null),
        RespFrame::NullArray(NullArray),
        RespFrame::Boolean(false),
        RespFrame::Double(DoubleText("-1.25e-3".to_string())),
        RespFrame::RespMap(RespMap(vec![(
            "key".to_string(),
            RespFrame::RespSet(RespSet(vec![RespFrame::Integer(3)])),
        )])),
    ]))
}

#[test]
fn round_trip_nested_frame() {
    let bytes = sample().encode();
    let mut buf = BytesMut::from(&bytes[..]);
    let back = RespFrame::decode(&mut buf).unwrap();
    assert_eq!(back, sample());
    assert_eq!(buf.len(), 0);
}

#[test]
fn every_strict_prefix_is_incomplete() {
    let bytes = sample().encode();
    for m in 1..bytes.len() {
        let mut buf = BytesMut::from(&bytes[..m]);
        let r = RespFrame::decode(&mut buf);
        assert_eq!(r.unwrap_err(), resp_codec::RespError::NotComplete);
        assert_eq!(&buf[..], &bytes[..m]);
    }
}

#[test]
fn encode_double_text() {
    assert_eq!(DoubleText("+1.5e+3".to_string()).encode(), b",+1.5e+3\r\n");
}
