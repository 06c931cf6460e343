//! The shared line and length helpers of the codec.
use simple_redis::{
    calc_total_length, extract_simaple_frame_data, find_ctrl, parse_length, BulkString, RespError,
    RespFrame, RespNullArray, SimpleString,
};

#[test]
fn test_extract_simaple_frame_data_finds_the_line() {
    assert_eq!(extract_simaple_frame_data(b"+OK\r\nrest", "+").unwrap(), 3);
    assert_eq!(
        extract_simaple_frame_data(b"+OK", "+").unwrap_err(),
        RespError::NotComplete
    );
    assert!(matches!(
        extract_simaple_frame_data(b"-err\r\n", "+").unwrap_err(),
        RespError::InvalidFrameType(_)
    ));
}

#[test]
fn test_find_ctrl_counts_pairs() {
    assert_eq!(find_ctrl(b"ab\r\ncd\r\nef", 1), Some(2));
    assert_eq!(find_ctrl(b"ab\r\ncd\r\nef", 2), Some(6));
    assert_eq!(find_ctrl(b"ab\r\ncd\r\nef", 3), None);
    assert_eq!(find_ctrl(b"", 1), None);
}

#[test]
fn test_parse_length_reads_the_count() {
    assert_eq!(parse_length(b"$12\r\nrest", "$").unwrap(), (3, 12));
    assert_eq!(parse_length(b"*3\r\n", "*").unwrap(), (2, 3));
    assert_eq!(
        parse_length(b"$-1\r\n", "$").unwrap_err(),
        RespError::ParseIntError
    );
    assert_eq!(parse_length(b"$12", "$").unwrap_err(), RespError::NotComplete);
}

#[test]
fn test_calc_total_length_walks_nested_frames() {
    let buf = b"*2\r\n+OK\r\n:+1\r\n";
    let (end, len) = parse_length(buf, "*").unwrap();
    assert_eq!(calc_total_length(buf, end, len, "*").unwrap(), buf.len());

    let buf = b"%1\r\n+k\r\n:+1\r\n";
    let (end, len) = parse_length(buf, "%").unwrap();
    assert_eq!(calc_total_length(buf, end, len, "%").unwrap(), buf.len());

    let buf = b"+hello\r\n";
    assert_eq!(calc_total_length(buf, 6, 6, "+").unwrap(), 8);
}

#[test]
fn test_per_type_expect_length() {
    assert_eq!(SimpleString::expect_length(b"+OK\r\n...").unwrap(), 5);
    assert_eq!(BulkString::expect_length(b"$5\r\nhe").unwrap(), 11);
    assert_eq!(BulkString::expect_length(b"$-1\r\n").unwrap(), 5);
    assert_eq!(RespNullArray::expect_length(b"*-1\r\n").unwrap(), 5);
    assert_eq!(
        RespFrame::expect_length(b"~2\r\n+a\r\n+b\r\n").unwrap(),
        12
    );
}
