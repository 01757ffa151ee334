use bytes::BytesMut;
use kvwire::frame::{Error, Frame};

fn round_trip(f: Frame) {
    let bytes = f.encode();
    let mut buf = BytesMut::from(&bytes[..]);
    let back = Frame::parse(&mut buf).unwrap().unwrap();
    assert_eq!(back, f);
    assert!(buf.is_empty());
    assert_eq!(back.encode(), bytes);
}

#[test]
fn test_parse_simple_string() {
    let mut bytes = BytesMut::from("+OK\r\n");
    let frame = Frame::parse(&mut bytes).unwrap().unwrap();
    assert_eq!(frame, Frame::Simple("OK".to_string()));
}

#[test]
fn test_parse_error() {
    let mut bytes = BytesMut::from("-Error message\r\n");
    let frame = Frame::parse(&mut bytes).unwrap().unwrap();
    assert_eq!(frame, Frame::Error("Error message".to_string()));
}

#[test]
fn test_parse_integer() {
    let mut bytes = BytesMut::from(":1234\r\n");
    let frame = Frame::parse(&mut bytes).unwrap().unwrap();
    assert_eq!(frame, Frame::Integer(1234));
}

#[test]
fn test_parse_bulk() {
    let mut bytes = BytesMut::from("$5\r\nhello\r\n");
    let frame = Frame::parse(&mut bytes).unwrap().unwrap();
    assert_eq!(frame, Frame::Bulk(Some(b"hello".to_vec())));
}

#[test]
fn test_parse_null_bulk() {
    let mut bytes = BytesMut::from("$-1\r\n");
    let frame = Frame::parse(&mut bytes).unwrap().unwrap();
    assert_eq!(frame, Frame::Bulk(None));
}

#[test]
fn encode_exact_bytes() {
    assert_eq!(Frame::Simple("OK".to_string()).encode(), b"+OK\r\n".to_vec());
    assert_eq!(Frame::Error("bad".to_string()).encode(), b"-bad\r\n".to_vec());
    assert_eq!(Frame::Integer(-42).encode(), b":-42\r\n".to_vec());
    assert_eq!(Frame::Integer(0).encode(), b":0\r\n".to_vec());
    assert_eq!(Frame::Bulk(None).encode(), b"$-1\r\n".to_vec());
    assert_eq!(Frame::Bulk(Some(b"a\r\nb".to_vec())).encode(), b"$4\r\na\r\nb\r\n".to_vec());
    assert_eq!(Frame::Array(None).encode(), b"*-1\r\n".to_vec());
    let arr = Frame::Array(Some(vec![Frame::Integer(1), Frame::Bulk(Some(b"x".to_vec()))]));
    assert_eq!(arr.encode(), b"*2\r\n:1\r\n$1\r\nx\r\n".to_vec());
}

#[test]
fn round_trip_every_shape() {
    round_trip(Frame::Simple("OK".to_string()));
    round_trip(Frame::Simple("h\u{e9}llo".to_string()));
    round_trip(Frame::Error("ERR wrong".to_string()));
    round_trip(Frame::Integer(i64::MIN));
    round_trip(Frame::Integer(i64::MAX));
    round_trip(Frame::Bulk(None));
    round_trip(Frame::Bulk(Some(Vec::new())));
    round_trip(Frame::Bulk(Some(vec![0, 13, 10, 255])));
    round_trip(Frame::Array(None));
    round_trip(Frame::Array(Some(Vec::new())));
    round_trip(Frame::Array(Some(vec![
        Frame::Array(Some(vec![Frame::Integer(7), Frame::Array(None)])),
        Frame::Simple("s".to_string()),
        Frame::Bulk(None),
    ])));
}

#[test]
fn split_frame_needs_more_then_decodes() {
    let f = Frame::Array(Some(vec![
        Frame::Bulk(Some(b"SET".to_vec())),
        Frame::Integer(-5),
        Frame::Array(Some(vec![Frame::Simple("x".to_string())])),
    ]));
    let bytes = f.encode();
    for k in 0..bytes.len() {
        let mut part = BytesMut::from(&bytes[..k]);
        assert_eq!(Frame::parse(&mut part).unwrap(), None);
        assert_eq!(&part[..], &bytes[..k]);
    }
    let mut whole = BytesMut::from(&bytes[..]);
    assert_eq!(Frame::parse(&mut whole).unwrap(), Some(f));
    assert!(whole.is_empty());
}

#[test]
fn null_headers_consume_only_their_line() {
    let mut b = BytesMut::from("$-1\r\n:5\r\n");
    assert_eq!(Frame::parse(&mut b).unwrap(), Some(Frame::Bulk(None)));
    assert_eq!(&b[..], b":5\r\n");
    let mut a = BytesMut::from("*-1\r\n+x\r\n");
    assert_eq!(Frame::parse(&mut a).unwrap(), Some(Frame::Array(None)));
    assert_eq!(&a[..], b"+x\r\n");
    let mut other = BytesMut::from("$-7\r\n");
    assert_eq!(Frame::parse(&mut other).unwrap(), Some(Frame::Bulk(None)));
}

#[test]
fn two_frames_decode_in_order() {
    let mut b = BytesMut::from("+a\r\n:2\r\n");
    assert_eq!(Frame::parse(&mut b).unwrap(), Some(Frame::Simple("a".to_string())));
    assert_eq!(Frame::parse(&mut b).unwrap(), Some(Frame::Integer(2)));
    assert_eq!(Frame::parse(&mut b).unwrap(), None);
}

#[test]
fn empty_buffer_needs_more() {
    let mut b = BytesMut::new();
    assert_eq!(Frame::parse(&mut b).unwrap(), None);
}

#[test]
fn invalid_inputs() {
    let mut b = BytesMut::from("?x\r\n");
    assert!(matches!(Frame::parse(&mut b), Err(Error::Invalid)));
    assert_eq!(&b[..], b"?x\r\n");
    let mut n = BytesMut::from(":abc\r\n");
    assert!(matches!(Frame::parse(&mut n), Err(Error::Invalid)));
    let mut l = BytesMut::from("$x\r\n");
    assert!(matches!(Frame::parse(&mut l), Err(Error::Invalid)));
    let mut c = BytesMut::from("*\r\n");
    assert!(matches!(Frame::parse(&mut c), Err(Error::Invalid)));
    assert_eq!(Error::Invalid.message(), "invalid frame format");
    assert_eq!(Error::Incomplete.message(), "incomplete frame");
}

#[test]
fn number_lines_must_be_whole_numbers() {
    let mut b = BytesMut::from(":+17\r\n");
    assert_eq!(Frame::parse(&mut b).unwrap(), Some(Frame::Integer(17)));
    let mut m = BytesMut::from(":-9223372036854775808\r\n");
    assert_eq!(Frame::parse(&mut m).unwrap(), Some(Frame::Integer(i64::MIN)));
    for bad in [":12ab\r\n", ":\r\n", ":-\r\n", ":+\r\n", ":9223372036854775808\r\n", ": 1\r\n"] {
        let mut t = BytesMut::from(bad);
        assert!(matches!(Frame::parse(&mut t), Err(Error::Invalid)), "{}", bad);
        assert_eq!(&t[..], bad.as_bytes());
    }
    let mut l = BytesMut::from("$1x\r\na\r\n");
    assert!(matches!(Frame::parse(&mut l), Err(Error::Invalid)));
    let mut c = BytesMut::from("*1x\r\n:1\r\n");
    assert!(matches!(Frame::parse(&mut c), Err(Error::Invalid)));
}

#[test]
fn partial_array_consumes_nothing() {
    let mut b = BytesMut::from("*2\r\n:1\r\n");
    assert_eq!(Frame::parse(&mut b).unwrap(), None);
    assert_eq!(&b[..], b"*2\r\n:1\r\n");
}

#[test]
fn nesting_limit() {
    let mut deep = Frame::Array(Some(Vec::new()));
    for _ in 0..kvwire::frame::MAX_DEPTH {
        deep = Frame::Array(Some(vec![deep]));
    }
    let mut b = BytesMut::from(&deep.encode()[..]);
    assert!(matches!(Frame::parse(&mut b), Err(Error::Invalid)));
    let mut ok = Frame::Array(Some(Vec::new()));
    for _ in 0..kvwire::frame::MAX_DEPTH - 1 {
        ok = Frame::Array(Some(vec![ok]));
    }
    round_trip(ok);
}

#[test]
fn lossy_text_in_simple() {
    let mut b = BytesMut::from(&b"+a\xffb\r\n"[..]);
    assert_eq!(Frame::parse(&mut b).unwrap(), Some(Frame::Simple("a\u{fffd}b".to_string())));
}

#[test]
fn peek_reports_length() {
    let (f, n) = Frame::peek(b"$2\r\nhi\r\nrest").unwrap().unwrap();
    assert_eq!(f, Frame::Bulk(Some(b"hi".to_vec())));
    assert_eq!(n, 8);
}

#[test]
fn clone_is_deep_and_equal() {
    let f = Frame::Array(Some(vec![
        Frame::Simple("a".to_string()),
        Frame::Bulk(Some(vec![1, 2])),
        Frame::Array(Some(vec![Frame::Integer(3)])),
    ]));
    let g = f.clone();
    assert_eq!(g, f);
    assert_eq!(g.encode(), f.encode());
}
