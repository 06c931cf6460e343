//! The second decode strategy: the length-first probe and its decoder.
use bytes::BytesMut;
use simple_redis::respv2;
use simple_redis::{BulkString, RespError, RespFrame, RespNullArray, SimpleError, SimpleString};

#[test]
fn respv2_simple_string_length_should_work() {
    let buf = b"+OK\r\n";
    let len = respv2::parse_frame_length(buf).unwrap();
    assert_eq!(len, 5);
}

#[test]
fn respv2_simple_string_bad_length_should_fail() {
    let buf = b"+OK\r";
    let ret = respv2::parse_frame_length(buf).unwrap_err();
    assert_eq!(ret, RespError::NotComplete);
}

#[test]
fn respv2_simple_string_should_work() {
    let mut buf = BytesMut::from("+OK\r\n");
    let frame = respv2::decode(&mut buf).unwrap();
    assert_eq!(frame, RespFrame::SimpleString(SimpleString::new("OK".to_string())));
}

#[test]
fn respv2_simple_err_length_should_work() {
    let buf = b"-ERR\r\n";
    let len = respv2::parse_frame_length(buf).unwrap();
    assert_eq!(len, 6);
}

#[test]
fn respv2_simple_err_should_work() {
    let mut buf = BytesMut::from("-ERR\r\n");
    let frame = respv2::decode(&mut buf).unwrap();
    assert_eq!(frame, RespFrame::Error(SimpleError::new("ERR".to_string())));
}

#[test]
fn respv2_integer_length_should_work() {
    let buf = b":1000\r\n";
    let len = respv2::parse_frame_length(buf).unwrap();
    assert_eq!(len, 7);
}

#[test]
fn respv2_integer_should_work() {
    let mut buf = BytesMut::from(":1000\r\n");
    let frame = respv2::decode(&mut buf).unwrap();
    assert_eq!(frame, RespFrame::Integer(1000));
}

#[test]
fn respv2_bulk_string_length_should_work() {
    let buf = b"$6\r\nfoobar\r\n";
    let len = respv2::parse_frame_length(buf).unwrap();
    assert_eq!(len, 12);
}

#[test]
fn respv2_bulk_string_should_work() {
    let mut buf = BytesMut::from("$6\r\nfoobar\r\n");
    let frame = respv2::decode(&mut buf).unwrap();
    assert_eq!(frame, RespFrame::BulkString(BulkString::new(b"foobar".to_vec())));
}

#[test]
fn respv2_null_bulk_string_length_should_work() {
    let buf = b"$-1\r\n";
    let len = respv2::parse_frame_length(buf).unwrap();
    assert_eq!(len, 5);
}

#[test]
fn respv2_null_bulk_string_should_work() {
    let mut buf = BytesMut::from("$-1\r\n");
    let frame = respv2::decode(&mut buf).unwrap();
    assert_eq!(frame, RespFrame::BulkString(BulkString::new_null()));
}

#[test]
fn respv2_array_length_should_work() {
    let buf = b"*2\r\n+OK\r\n-ERR\r\n";
    let len = respv2::parse_frame_length(buf).unwrap();
    assert_eq!(len, buf.len());
}

#[test]
fn respv2_array_should_work() {
    let mut buf = BytesMut::from("*2\r\n+OK\r\n-ERR\r\n");
    let frame = respv2::decode(&mut buf).unwrap();
    assert_eq!(
        frame,
        RespFrame::Array(
            vec![
                RespFrame::SimpleString(SimpleString::new("OK".to_string())),
                RespFrame::Error(SimpleError::new("ERR".to_string())),
            ]
            .into()
        )
    );
}

#[test]
fn respv2_null_array_length_should_work() {
    let buf = b"*-1\r\n";
    let len = respv2::parse_frame_length(buf).unwrap();
    assert_eq!(len, 5);
}

#[test]
fn respv2_null_array_should_work() {
    let mut buf = BytesMut::from("*-1\r\n");
    let frame = respv2::decode(&mut buf).unwrap();
    assert_eq!(frame, RespFrame::NullArray(RespNullArray));
}

#[test]
fn respv2_boolean_length_should_work() {
    let buf = b"#t\r\n";
    let len = respv2::parse_frame_length(buf).unwrap();
    assert_eq!(len, 4);
}

#[test]
fn respv2_boolean_should_work() {
    let mut buf = BytesMut::from("#t\r\n");
    let frame = respv2::decode(&mut buf).unwrap();
    assert_eq!(frame, RespFrame::Boolean(true));
}

#[test]
fn respv2_double_length_should_work() {
    let buf = b",3.14\r\n";
    let len = respv2::parse_frame_length(buf).unwrap();
    assert_eq!(len, 7);
}

#[test]
fn respv2_double_should_work() {
    let mut buf = BytesMut::from(",3.12\r\n");
    let frame = respv2::decode(&mut buf).unwrap();
    match frame {
        RespFrame::Double(d) => assert_eq!(d.as_str().parse::<f64>().unwrap(), 3.12),
        other => panic!("expected a double frame, got {:?}", other),
    }
}

#[test]
fn respv2_map_length_should_work() {
    let buf = b"%2\r\n+OK\r\n-ERR\r\n";
    let len = respv2::parse_frame_length(buf).unwrap();
    assert_eq!(len, buf.len());
}

#[test]
fn respv2_parse_frame_reads_one_frame() {
    let (frame, used) = respv2::parse_frame(b"+OK\r\n-ERR\r\n").unwrap();
    assert_eq!(frame, RespFrame::SimpleString(SimpleString::new("OK".to_string())));
    assert_eq!(used, 5);
}

#[test]
fn respv2_empty_map_should_work() {
    let mut buf = BytesMut::from("%0\r\n");
    let frame = respv2::decode(&mut buf).unwrap();
    assert_eq!(frame, RespFrame::Mapping(simple_redis::RespMap::new()));
}

#[test]
fn respv2_map_should_work() {
    let mut buf = BytesMut::from("%2\r\n+OK\r\n-ERR\r\n");
    let frame = respv2::decode(&mut buf).unwrap();
    let mut map = simple_redis::RespMap::new();
    map.insert("OK".to_string(), RespFrame::Error(SimpleError::new("ERR".to_string())));
    assert_eq!(frame, RespFrame::Mapping(map));
}

#[test]
fn respv2_map_count_is_a_frame_count() {
    // This strategy reads a map's declared count as a count of frames,
    // two per entry, in the probe and the parse alike; the recursive-
    // descent strategy reads the same count as a count of entries and
    // keeps waiting for the two extra frames.
    let buf = b"%2\r\n+OK\r\n-ERR\r\n";
    assert_eq!(respv2::parse_frame_length(buf).unwrap(), buf.len());
    let mut v1 = BytesMut::from(&buf[..]);
    assert_eq!(RespFrame::decode(&mut v1).unwrap_err(), RespError::NotComplete);
}

#[test]
fn respv2_odd_map_count_is_malformed() {
    let mut buf = BytesMut::from("%3\r\n+OK\r\n-ERR\r\n+X\r\n");
    let ret = respv2::decode(&mut buf);
    assert!(matches!(ret.unwrap_err(), RespError::InvalidFrame(_)));
}

#[test]
fn respv2_incremental_feed_reports_incomplete() {
    let wire = b"*2\r\n$5\r\nhello\r\n:+42\r\n";
    let mut buf = BytesMut::new();
    for i in 0..wire.len() - 1 {
        buf.extend_from_slice(&wire[i..i + 1]);
        assert_eq!(respv2::decode(&mut buf).unwrap_err(), RespError::NotComplete);
    }
    buf.extend_from_slice(&wire[wire.len() - 1..]);
    let frame = respv2::decode(&mut buf).unwrap();
    assert_eq!(
        frame,
        RespFrame::Array(
            vec![
                RespFrame::BulkString(BulkString::new(b"hello".to_vec())),
                RespFrame::Integer(42),
            ]
            .into()
        )
    );
}
