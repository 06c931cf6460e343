//! The first decode strategy and the encoders, frame type by frame type.
use bytes::BytesMut;
use simple_redis::{
    BulkString, RespArray, RespDouble, RespEncode, RespError, RespFrame, RespMap, RespNull,
    RespNullArray, RespSet, SimpleError, SimpleString,
};

#[test]
fn test_simple_string_decode() {
    let mut buf = BytesMut::new();
    buf.extend_from_slice(b"+OK\r\n");
    let frame = SimpleString::decode(&mut buf).unwrap();
    assert_eq!(frame, SimpleString::new("OK".to_string()));

    buf.extend_from_slice(b"+hello\r");
    let ret = SimpleString::decode(&mut buf);
    assert_eq!(ret.unwrap_err(), RespError::NotComplete);

    buf.extend_from_slice(b"\n");
    let frame = SimpleString::decode(&mut buf).unwrap();
    assert_eq!(frame, SimpleString::new("hello".to_string()));
}

#[test]
fn test_simple_string() {
    let frame: RespFrame = SimpleString::new("OK".to_string()).into();
    assert_eq!(frame.encode(), b"+OK\r\n");
}

#[test]
fn test_simple_error_decode() {
    let mut buf = BytesMut::new();
    buf.extend_from_slice(b"-Error message\r\n");
    let frame = SimpleError::decode(&mut buf).unwrap();
    assert_eq!(frame, SimpleError::new("Error message".to_string()));
}

#[test]
fn test_error() {
    let frame: RespFrame = SimpleError::new("Error message".to_string()).into();
    assert_eq!(frame.encode(), b"-Error message\r\n");
}

#[test]
fn test_integer_codec() {
    let frame: RespFrame = 1234i64.into();
    assert_eq!(frame.encode(), b":+1234\r\n");
    let frame: RespFrame = (-42i64).into();
    assert_eq!(frame.encode(), b":-42\r\n");

    let mut buf = BytesMut::new();
    buf.extend_from_slice(b":+1234\r\n:-42\r\n:7\r\n");
    assert_eq!(RespFrame::decode(&mut buf).unwrap(), RespFrame::Integer(1234));
    assert_eq!(RespFrame::decode(&mut buf).unwrap(), RespFrame::Integer(-42));
    assert_eq!(RespFrame::decode(&mut buf).unwrap(), RespFrame::Integer(7));
}

#[test]
fn test_bulk_string_decode() {
    let mut buf = BytesMut::new();
    buf.extend_from_slice(b"$5\r\nhello\r\n");
    let frame = BulkString::decode(&mut buf).unwrap();
    assert_eq!(frame, BulkString::new(b"hello".to_vec()));

    buf.extend_from_slice(b"$5\r\nhello");
    let ret = BulkString::decode(&mut buf);
    assert_eq!(ret.unwrap_err(), RespError::NotComplete);

    buf.extend_from_slice(b"\r\n");
    let frame = BulkString::decode(&mut buf).unwrap();
    assert_eq!(frame, BulkString::new(b"hello".to_vec()));
}

#[test]
fn test_bulk_string() {
    let frame: RespFrame = BulkString::new("hello".as_bytes().to_vec()).into();
    assert_eq!(frame.encode(), b"$5\r\nhello\r\n");

    let frame: RespFrame = BulkString::new_null().into();
    assert_eq!(frame.encode(), b"$-1\r\n");
}

#[test]
fn test_null_decode() {
    let mut buf = BytesMut::new();
    buf.extend_from_slice(b"_\r\n");
    let frame = RespNull::decode(&mut buf).unwrap();
    assert_eq!(frame, RespNull);
}

#[test]
fn test_null() {
    let frame: RespFrame = RespNull.into();
    assert_eq!(frame.encode(), b"_\r\n");
}

#[test]
fn test_boolean_decode() {
    let mut buf = BytesMut::new();
    buf.extend_from_slice(b"#t\r\n");
    let frame = simple_redis::decode_bool(&mut buf).unwrap();
    assert!(frame);

    buf.extend_from_slice(b"#f\r\n");
    let frame = simple_redis::decode_bool(&mut buf).unwrap();
    assert!(!frame);
}

#[test]
fn test_boolean() {
    let frame: RespFrame = true.into();
    assert_eq!(frame.encode(), b"#t\r\n");

    let frame: RespFrame = false.into();
    assert_eq!(frame.encode(), b"#f\r\n");
}

/// Render a float as the double frame's wire text: exponential form for
/// very large or very small magnitudes, an explicit sign otherwise.
fn double_frame(v: f64) -> RespFrame {
    let text = if v.abs() > 1e+8 || v.abs() < 1e-8 {
        format!("{:+e}", v)
    } else if v < 0.0 {
        format!("{}", v)
    } else {
        format!("+{}", v)
    };
    RespDouble::from_text(text).unwrap().into()
}

#[test]
fn test_double() {
    let frame: RespFrame = double_frame(123.456);
    assert_eq!(frame.encode(), b",+123.456\r\n");

    let frame: RespFrame = double_frame(-123.456);
    assert_eq!(frame.encode(), b",-123.456\r\n");

    let frame: RespFrame = double_frame(1.23456e+8);
    assert_eq!(frame.encode(), b",+1.23456e8\r\n");

    let frame: RespFrame = double_frame(-1.23456e-9);
    assert_eq!(frame.encode(), b",-1.23456e-9\r\n");
}

#[test]
fn test_double_decode() {
    let mut buf = BytesMut::new();
    buf.extend_from_slice(b",123.45\r\n");
    let frame = RespDouble::decode(&mut buf).unwrap();
    assert_eq!(frame.as_str().parse::<f64>().unwrap(), 123.45);

    buf.extend_from_slice(b",123.45");
    let ret = RespDouble::decode(&mut buf);
    assert_eq!(ret.unwrap_err(), RespError::NotComplete);

    buf.extend_from_slice(b"\r\n");
    let frame = RespDouble::decode(&mut buf).unwrap();
    assert_eq!(frame.as_str().parse::<f64>().unwrap(), 123.45);
}

#[test]
fn test_double_rejects_non_float_text() {
    let mut buf = BytesMut::new();
    buf.extend_from_slice(b",not-a-number\r\n");
    let ret = RespDouble::decode(&mut buf);
    assert_eq!(ret.unwrap_err(), RespError::ParseFloatError);
}

#[test]
fn test_array_decode() {
    let mut buf = BytesMut::new();
    buf.extend_from_slice(b"*3\r\n$3\r\nset\r\n$5\r\nhello\r\n$5\r\nworld\r\n");
    let frame = RespArray::decode(&mut buf).unwrap();
    assert_eq!(
        frame,
        RespArray::new(vec![
            BulkString::new(b"set".to_vec()).into(),
            BulkString::new(b"hello".to_vec()).into(),
            BulkString::new(b"world".to_vec()).into(),
        ])
    );
}

#[test]
fn test_null_array_decode() {
    let mut buf = BytesMut::new();
    buf.extend_from_slice(b"*-1\r\n");
    let frame = RespNullArray::decode(&mut buf).unwrap();
    assert_eq!(frame, RespNullArray);
}

#[test]
fn test_array() {
    let frame: RespFrame = RespArray::new(vec![
        BulkString::new("set".as_bytes().to_vec()).into(),
        BulkString::new("hello".as_bytes().to_vec()).into(),
        BulkString::new("world".as_bytes().to_vec()).into(),
    ])
    .into();
    assert_eq!(
        frame.encode(),
        b"*3\r\n$3\r\nset\r\n$5\r\nhello\r\n$5\r\nworld\r\n"
    );
}

#[test]
fn test_null_array() {
    let frame: RespFrame = RespNullArray.into();
    assert_eq!(frame.encode(), b"*-1\r\n");
}

#[test]
fn test_map_decode() {
    let mut buf = BytesMut::new();
    buf.extend_from_slice(b"%2\r\n+key1\r\n$6\r\nvalue1\r\n+key2\r\n$6\r\nvalue2\r\n");
    let frame = RespMap::decode(&mut buf).unwrap();
    let mut map = RespMap::new();
    map.insert("key1".to_string(), BulkString::new(b"value1".to_vec()).into());
    map.insert("key2".to_string(), BulkString::new(b"value2".to_vec()).into());
    assert_eq!(frame, map);
}

#[test]
fn test_map() {
    let mut map = RespMap::new();
    map.insert(
        "name".to_string(),
        BulkString::new("Alice".as_bytes().to_vec()).into(),
    );
    map.insert("age".to_string(), double_frame(-18.21));

    let frame: RespFrame = map.into();
    let frame_binding = frame.encode();
    let frame_res = String::from_utf8_lossy(&frame_binding);
    assert!(frame_res.contains("%2\r\n"));
    assert!(frame_res.contains("+name\r\n$5\r\nAlice\r\n"));
    assert!(frame_res.contains("+age\r\n,-18.21\r\n"));
}

#[test]
fn test_set_decode() {
    let mut buf = BytesMut::new();
    buf.extend_from_slice(b"~3\r\n+key1\r\n$6\r\nvalue1\r\n+key2\r\n");
    let frame = RespSet::decode(&mut buf).unwrap();
    assert_eq!(
        frame,
        RespSet::new(vec![
            SimpleString::new("key1".to_string()).into(),
            BulkString::new(b"value1".to_vec()).into(),
            SimpleString::new("key2".to_string()).into(),
        ])
    );
}

#[test]
fn test_set() {
    let frame: RespFrame = RespSet::new(vec![
        RespArray::new(vec![1234i64.into(), true.into()]).into(),
        BulkString::new("world".as_bytes().to_vec()).into(),
    ])
    .into();
    assert_eq!(
        frame.encode(),
        b"~2\r\n*2\r\n:+1234\r\n#t\r\n$5\r\nworld\r\n"
    );
}

#[test]
fn test_unicode_text_round_trips() {
    let mut buf = BytesMut::new();
    buf.extend_from_slice("+héllo wörld\r\n".as_bytes());
    let frame = SimpleString::decode(&mut buf).unwrap();
    assert_eq!(frame, SimpleString::new("héllo wörld".to_string()));
    let encoded: RespFrame = frame.into();
    assert_eq!(encoded.encode(), "+héllo wörld\r\n".as_bytes());
}

#[test]
fn test_invalid_utf8_text_is_rejected() {
    let mut buf = BytesMut::new();
    buf.extend_from_slice(b"+\xff\xfe\r\n");
    let ret = SimpleString::decode(&mut buf);
    assert_eq!(ret.unwrap_err(), RespError::Utf8Error);
}

#[test]
fn test_bad_integer_payload() {
    let mut buf = BytesMut::new();
    buf.extend_from_slice(b":12x4\r\n");
    let ret = RespFrame::decode(&mut buf);
    assert_eq!(ret.unwrap_err(), RespError::ParseIntError);
}

#[test]
fn test_wrong_prefix_is_a_type_error() {
    let mut buf = BytesMut::new();
    buf.extend_from_slice(b"-oops\r\n");
    let ret = SimpleString::decode(&mut buf);
    assert!(matches!(ret.unwrap_err(), RespError::InvalidFrameType(_)));
}

#[test]
fn test_decode_consumes_exactly_one_frame() {
    let mut buf = BytesMut::new();
    buf.extend_from_slice(b"+one\r\n:+2\r\n$3\r\nthr\r\n");
    assert_eq!(
        RespFrame::decode(&mut buf).unwrap(),
        RespFrame::from(SimpleString::new("one".to_string()))
    );
    assert_eq!(RespFrame::decode(&mut buf).unwrap(), RespFrame::Integer(2));
    assert_eq!(
        RespFrame::decode(&mut buf).unwrap(),
        RespFrame::from(BulkString::new(b"thr".to_vec()))
    );
    assert_eq!(RespFrame::decode(&mut buf).unwrap_err(), RespError::NotComplete);
}

#[test]
fn test_fragmented_feed_reports_incomplete_until_whole() {
    let wire = b"*2\r\n$5\r\nhello\r\n%1\r\n+k\r\n:+7\r\n";
    let mut buf = BytesMut::new();
    for i in 0..wire.len() - 1 {
        buf.extend_from_slice(&wire[i..i + 1]);
        assert_eq!(RespFrame::decode(&mut buf).unwrap_err(), RespError::NotComplete);
        assert_eq!(buf.len(), i + 1);
    }
    buf.extend_from_slice(&wire[wire.len() - 1..]);
    let frame = RespFrame::decode(&mut buf).unwrap();
    let mut inner_map = RespMap::new();
    inner_map.insert("k".to_string(), RespFrame::Integer(7));
    assert_eq!(
        frame,
        RespArray::new(vec![
            BulkString::new(b"hello".to_vec()).into(),
            inner_map.into(),
        ])
        .into()
    );
    assert_eq!(buf.len(), 0);
}

#[test]
fn test_expect_length_probes_nested_frames() {
    let buf = b"*2\r\n$3\r\nset\r\n:+1\r\n";
    assert_eq!(RespFrame::expect_length(buf).unwrap(), buf.len());
    assert_eq!(
        RespFrame::expect_length(b"*2\r\n$3\r\nset\r\n").unwrap_err(),
        RespError::NotComplete
    );
}

#[test]
fn test_decoded_double_reencodes_with_explicit_sign() {
    let mut buf = BytesMut::new();
    buf.extend_from_slice(b",123.45\r\n");
    let frame = RespDouble::decode(&mut buf).unwrap();
    assert_eq!(frame.as_str(), "+123.45");
    let reencoded: RespFrame = frame.into();
    assert_eq!(reencoded.encode(), b",+123.45\r\n");
}

#[test]
fn test_double_keyword_forms() {
    let mut buf = BytesMut::new();
    buf.extend_from_slice(b",inf\r\n,-Inf\r\n,nan\r\n");
    assert_eq!(RespDouble::decode(&mut buf).unwrap().as_str(), "+inf");
    let frame = RespDouble::decode(&mut buf).unwrap();
    assert_eq!(frame.as_str(), "-Inf");
    assert!(frame.as_str().parse::<f64>().unwrap().is_infinite());
    assert!(RespDouble::decode(&mut buf)
        .unwrap()
        .as_str()
        .parse::<f64>()
        .unwrap()
        .is_nan());
}

#[test]
fn test_extract_fixed_data_consumes_the_form() {
    let mut buf = BytesMut::new();
    buf.extend_from_slice(b"_\r\n+next\r\n");
    simple_redis::extract_fixed_data(&mut buf, "_\r\n", "Null").unwrap();
    assert_eq!(buf.len(), 7);
    let mut buf = BytesMut::new();
    buf.extend_from_slice(b"_\r");
    assert_eq!(
        simple_redis::extract_fixed_data(&mut buf, "_\r\n", "Null").unwrap_err(),
        RespError::NotComplete
    );
    let mut buf = BytesMut::new();
    buf.extend_from_slice(b"#t\r\n");
    assert!(matches!(
        simple_redis::extract_fixed_data(&mut buf, "_\r\n", "Null").unwrap_err(),
        RespError::InvalidFrameType(_)
    ));
    assert_eq!(buf.len(), 4);
}
