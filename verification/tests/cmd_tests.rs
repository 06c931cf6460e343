//! The command layer and the store.
use bytes::BytesMut;
use simple_redis::{
    Backend, BulkString, Command, CommandError, Echo, Get, HGet, HGetAll, HMGet, HSet, RespArray,
    RespFrame, RespNull, SetCmd, SimpleString,
};

#[test]
fn text_command() {
    let mut buf = BytesMut::new();
    buf.extend_from_slice(b"*2\r\n$3\r\nget\r\n$3\r\nkey\r\n");

    let frame = RespArray::decode(&mut buf).unwrap();
    let cmd = Command::try_from_array(frame).unwrap();
    let mut backend = Backend::new();
    let ret = cmd.execute(&mut backend);

    assert_eq!(ret, RespFrame::Null(RespNull));
}

#[test]
fn test_get_try_from_resp_array() {
    let mut buf = BytesMut::from("*2\r\n$3\r\nget\r\n$3\r\nkey\r\n");

    let frame = RespArray::decode(&mut buf).unwrap();
    let get = Get::try_from(frame).unwrap();
    assert_eq!(get.key, "key");
}

#[test]
fn test_set_try_from_resp_array() {
    let mut buf = BytesMut::from("*3\r\n$3\r\nset\r\n$3\r\nkey\r\n$5\r\nvalue\r\n");

    let frame = RespArray::decode(&mut buf).unwrap();
    let set = SetCmd::try_from(frame).unwrap();
    assert_eq!(set.key, "key");
    assert_eq!(set.value, RespFrame::BulkString(BulkString::new(b"value".to_vec())));
}

#[test]
fn test_set_get_command() {
    let mut backend = Backend::new();
    let cmd = SetCmd {
        key: "key".to_string(),
        value: RespFrame::BulkString(BulkString::new(b"value".to_vec())),
    };
    let result = cmd.execute(&mut backend);
    assert_eq!(result, RespFrame::SimpleString(SimpleString::new("OK".to_string())));

    let cmd = Get {
        key: "key".to_string(),
    };
    let value = cmd.execute(&mut backend);
    assert_eq!(value, RespFrame::BulkString(BulkString::new(b"value".to_vec())));
}

#[test]
fn test_hget() {
    let mut buf = BytesMut::from("*3\r\n$4\r\nhget\r\n$3\r\nkey\r\n$5\r\nfield\r\n");
    let frame = RespArray::decode(&mut buf).unwrap();

    let hget = HGet::try_from(frame).unwrap();
    assert_eq!(hget.key, "key");
    assert_eq!(hget.field, "field");
}

#[test]
fn test_hgetall() {
    let mut buf = BytesMut::from("*2\r\n$7\r\nhgetall\r\n$3\r\nkey\r\n");
    let frame = RespArray::decode(&mut buf).unwrap();

    let hgetall = HGetAll::try_from(frame).unwrap();
    assert_eq!(hgetall.key, "key");
}

#[test]
fn test_hset() {
    let mut buf = BytesMut::from("*4\r\n$4\r\nhset\r\n$3\r\nkey\r\n$5\r\nfield\r\n$5\r\nvalue\r\n");
    let frame = RespArray::decode(&mut buf).unwrap();

    let hset = HSet::try_from(frame).unwrap();
    assert_eq!(hset.key, "key");
    assert_eq!(hset.field, "field");
    assert_eq!(hset.value, RespFrame::BulkString(BulkString::new(b"value".to_vec())));
}

#[test]
fn test_hset_hgetall_roundtrip() {
    let mut backend = Backend::new();
    let cmd = HSet {
        key: "k".to_string(),
        field: "f".to_string(),
        value: RespFrame::Integer(1),
    };
    assert_eq!(
        cmd.execute(&mut backend),
        RespFrame::SimpleString(SimpleString::new("OK".to_string()))
    );
    let cmd = HGetAll {
        key: "k".to_string(),
    };
    assert_eq!(
        cmd.execute(&mut backend),
        RespFrame::Array(RespArray::new(vec![
            BulkString::new(b"f".to_vec()).into(),
            RespFrame::Integer(1),
        ]))
    );
}

#[test]
fn test_hgetall_missing_key_is_empty_array() {
    let mut backend = Backend::new();
    let cmd = HGetAll {
        key: "missing".to_string(),
    };
    assert_eq!(cmd.execute(&mut backend), RespFrame::Array(RespArray::new(vec![])));
}

#[test]
fn test_hmget_mixes_values_and_placeholders() {
    let mut backend = Backend::new();
    HSet {
        key: "k".to_string(),
        field: "f".to_string(),
        value: RespFrame::Integer(1),
    }
    .execute(&mut backend);
    let cmd = HMGet {
        key: "k".to_string(),
        fields: vec!["f".to_string(), "missing".to_string()],
    };
    assert_eq!(
        cmd.execute(&mut backend),
        RespFrame::Array(RespArray::new(vec![
            RespFrame::Integer(1),
            SimpleString::new("(nil)".to_string()).into(),
        ]))
    );
}

#[test]
fn test_hget_missing_field_is_null() {
    let mut backend = Backend::new();
    HSet {
        key: "k".to_string(),
        field: "f".to_string(),
        value: RespFrame::Integer(1),
    }
    .execute(&mut backend);
    let cmd = HGet {
        key: "k".to_string(),
        field: "other".to_string(),
    };
    assert_eq!(cmd.execute(&mut backend), RespFrame::Null(RespNull));
}

#[test]
fn test_get_with_two_arguments_is_invalid() {
    let mut buf = BytesMut::from("*3\r\n$3\r\nget\r\n$3\r\nkey\r\n$5\r\nextra\r\n");
    let frame = RespArray::decode(&mut buf).unwrap();
    let ret = Get::try_from(frame);
    assert!(matches!(ret.unwrap_err(), CommandError::InvalidArgument(_)));

    let mut buf = BytesMut::from("*3\r\n$3\r\nget\r\n$3\r\nkey\r\n$5\r\nextra\r\n");
    let frame = RespArray::decode(&mut buf).unwrap();
    let ret = Command::try_from_array(frame);
    assert!(matches!(ret.unwrap_err(), CommandError::InvalidArgument(_)));
}

#[test]
fn test_unknown_command_replies_ok() {
    let mut buf = BytesMut::from("*1\r\n$4\r\nping\r\n");
    let frame = RespArray::decode(&mut buf).unwrap();
    let cmd = Command::try_from_array(frame).unwrap();
    let mut backend = Backend::new();
    assert_eq!(
        cmd.execute(&mut backend),
        RespFrame::SimpleString(SimpleString::new("OK".to_string()))
    );
}

#[test]
fn test_echo_command() {
    let mut buf = BytesMut::from("*2\r\n$4\r\necho\r\n$5\r\nhello\r\n");
    let frame = RespArray::decode(&mut buf).unwrap();
    let cmd = Echo::try_from(frame).unwrap();
    let mut backend = Backend::new();
    assert_eq!(
        cmd.execute(&mut backend),
        RespFrame::SimpleString(SimpleString::new("hello".to_string()))
    );
}

#[test]
fn test_non_array_frame_is_invalid_command() {
    let ret = Command::try_from(RespFrame::SimpleString(SimpleString::new("get".to_string())));
    assert!(matches!(ret.unwrap_err(), CommandError::InvalidCommand(_)));
}

#[test]
fn test_set_overwrites_and_distinct_keys_coexist() {
    let mut backend = Backend::new();
    SetCmd {
        key: "a".to_string(),
        value: RespFrame::Integer(1),
    }
    .execute(&mut backend);
    SetCmd {
        key: "b".to_string(),
        value: RespFrame::Integer(2),
    }
    .execute(&mut backend);
    SetCmd {
        key: "a".to_string(),
        value: RespFrame::Integer(3),
    }
    .execute(&mut backend);

    let a = Get {
        key: "a".to_string(),
    }
    .execute(&mut backend);
    let b = Get {
        key: "b".to_string(),
    }
    .execute(&mut backend);
    assert_eq!(a, RespFrame::Integer(3));
    assert_eq!(b, RespFrame::Integer(2));
}

#[test]
fn test_set_command_stores_any_frame_type() {
    let mut backend = Backend::new();
    let nested: RespFrame = RespArray::new(vec![RespFrame::Integer(1), true.into()]).into();
    SetCmd {
        key: "n".to_string(),
        value: nested.deep_clone(),
    }
    .execute(&mut backend);
    let got = Get {
        key: "n".to_string(),
    }
    .execute(&mut backend);
    assert_eq!(got, nested);
}

#[test]
fn test_backend_direct_operations() {
    let mut backend = Backend::new();
    assert_eq!(backend.get("k"), None);
    backend.set("k".to_string(), RespFrame::Integer(5));
    assert_eq!(backend.get("k"), Some(RespFrame::Integer(5)));
    backend.set("k".to_string(), RespFrame::Integer(6));
    assert_eq!(backend.get("k"), Some(RespFrame::Integer(6)));

    assert_eq!(backend.hget("h", "f"), None);
    backend.hset("h".to_string(), "f".to_string(), RespFrame::Integer(1));
    backend.hset("h".to_string(), "g".to_string(), RespFrame::Integer(2));
    backend.hset("h".to_string(), "f".to_string(), RespFrame::Integer(3));
    assert_eq!(backend.hget("h", "f"), Some(RespFrame::Integer(3)));
    assert_eq!(backend.hget("h", "g"), Some(RespFrame::Integer(2)));
    let all = backend.hgetall("h").unwrap();
    assert_eq!(all.entries().len(), 2);
    assert_eq!(all.entries()[0].0, "f");
    assert_eq!(all.entries()[1].0, "g");
    assert_eq!(backend.hgetall("missing"), None);
}

#[test]
fn test_hmget_greedy_fields_ignore_trailing_non_bulk() {
    let mut buf = BytesMut::from("*5\r\n$5\r\nhmget\r\n$1\r\nk\r\n$1\r\nf\r\n:+1\r\n$1\r\ng\r\n");
    let frame = RespArray::decode(&mut buf).unwrap();
    let cmd = HMGet::try_from(frame).unwrap();
    assert_eq!(cmd.key, "k");
    assert_eq!(cmd.fields, vec!["f".to_string()]);
}

#[test]
fn test_uppercase_name_dispatches_to_the_command() {
    let mut buf = BytesMut::from("*2\r\n$3\r\nGET\r\n$3\r\nkey\r\n");
    let frame = RespArray::decode(&mut buf).unwrap();
    let cmd = Command::try_from_array(frame).unwrap();
    let mut backend = Backend::new();
    assert_eq!(cmd.execute(&mut backend), RespFrame::Null(RespNull));
}
