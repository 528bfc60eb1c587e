use redis_lite::deserializer::{deserialize, deserialize_helper};
use redis_lite::serializer::{encode_into, serialize};
use redis_lite::value::DataType;
use std::iter::zip;

#[test]
fn serializer_simple_string_happy() {
    let tests = [DataType::SimpleString(String::new()), DataType::SimpleString("test".to_string())];
    let expected = ["+\r\n", "+test\r\n"];

    for (test, expect) in zip(tests, expected) {
        let result = serialize(&test).unwrap();
        assert_eq!(&result, expect);
    }
}

#[test]
fn serializer_errors_happy() {
    let tests = [DataType::Error(String::new()), DataType::Error("ERROR error".to_string())];
    let expected = ["-\r\n", "-ERROR error\r\n"];

    for (test, expect) in zip(tests, expected) {
        let result = serialize(&test).unwrap();
        assert_eq!(&result, expect);
    }
}

#[test]
fn serializer_integers_happy() {
    let tests = [DataType::Integer(1), DataType::Integer(0), DataType::Integer(-20)];
    let expected = [":1\r\n", ":0\r\n", ":-20\r\n"];

    for (test, expect) in zip(tests, expected) {
        let result = serialize(&test).unwrap();
        assert_eq!(&result, expect);
    }
}

#[test]
fn serializer_bulk_string_happy() {
    let tests = [
        DataType::BulkString(Some(String::new())),
        DataType::BulkString(Some("test".to_string())),
        DataType::BulkString(None),
    ];
    let expected = ["$0\r\n\r\n", "$4\r\ntest\r\n", "$-1\r\n"];

    for (test, expect) in zip(tests, expected) {
        let result = serialize(&test).unwrap();
        assert_eq!(&result, expect);
    }
}

#[test]
fn serializer_arrays_happy() {
    let tests = [
        DataType::Array(Some(vec![
            DataType::BulkString(Some("hello".to_owned())),
            DataType::BulkString(Some("world".to_owned())),
        ])),
        DataType::Array(Some(vec![
            DataType::Integer(1),
            DataType::Integer(2),
            DataType::Integer(3),
            DataType::BulkString(Some("hello".to_owned())),
        ])),
        DataType::Array(Some(vec![DataType::BulkString(Some("ping".to_owned()))])),
        DataType::Array(Some(vec![
            DataType::BulkString(Some("echo".to_owned())),
            DataType::BulkString(Some("hello world".to_owned())),
        ])),
        DataType::Array(Some(vec![
            DataType::BulkString(Some("get".to_owned())),
            DataType::BulkString(Some("key".to_owned())),
        ])),
        DataType::Array(None),
        DataType::Array(Some(vec![])),
    ];
    let expected = [
        "*2\r\n$5\r\nhello\r\n$5\r\nworld\r\n",
        "*4\r\n:1\r\n:2\r\n:3\r\n$5\r\nhello\r\n",
        "*1\r\n$4\r\nping\r\n",
        "*2\r\n$4\r\necho\r\n$11\r\nhello world\r\n",
        "*2\r\n$3\r\nget\r\n$3\r\nkey\r\n",
        "*-1\r\n",
        "*0\r\n",
    ];

    for (test, expect) in zip(tests, expected) {
        let result = serialize(&test).unwrap();
        assert_eq!(&result, expect);
    }
}

#[test]
fn extreme_integers_are_written_in_full() {
    assert_eq!(serialize(&DataType::Integer(i64::MAX)).unwrap(), ":9223372036854775807\r\n");
    assert_eq!(serialize(&DataType::Integer(i64::MIN)).unwrap(), ":-9223372036854775808\r\n");
    assert_eq!(serialize(&DataType::Integer(10)).unwrap(), ":10\r\n");
    assert_eq!(serialize(&DataType::Integer(-1)).unwrap(), ":-1\r\n");
}

#[test]
fn bulk_string_length_counts_bytes() {
    let value = DataType::BulkString(Some("\u{20ac}5".to_string()));
    assert_eq!(serialize(&value).unwrap(), "$4\r\n\u{20ac}5\r\n");
}

#[test]
fn encode_into_appends() {
    let mut out: Vec<u8> = b"abc".to_vec();
    encode_into(&DataType::Integer(42), &mut out);
    assert_eq!(out, b"abc:42\r\n".to_vec());
}

fn sample() -> DataType {
    DataType::Array(Some(vec![
        DataType::SimpleString("OK".to_string()),
        DataType::Error("ERR no".to_string()),
        DataType::Integer(-12345),
        DataType::BulkString(Some("two\r\nlines \u{e9}".to_string())),
        DataType::BulkString(None),
        DataType::Array(Some(vec![DataType::Array(None), DataType::Array(Some(vec![]))])),
    ]))
}

#[test]
fn what_is_written_is_read_back() {
    let value = sample();
    let text = serialize(&value).unwrap();
    assert_eq!(deserialize_helper(text.as_bytes()), Ok((sample(), text.len())));
    assert_eq!(deserialize(&text), Ok(value));
}

#[test]
fn what_is_written_is_read_back_before_other_bytes() {
    let mut text = serialize(&sample()).unwrap();
    let used = text.len();
    text.push_str("+more\r\n");
    assert_eq!(deserialize_helper(text.as_bytes()), Ok((sample(), used)));
}

#[test]
fn status_with_a_bare_carriage_return_is_not_read_back() {
    let text = serialize(&DataType::SimpleString("a\rb".to_string())).unwrap();
    assert_eq!(text, "+a\rb\r\n");
    assert!(deserialize(&text).is_err());
}

#[test]
fn eq_str_compares_text() {
    assert!(DataType::SimpleString("incr".to_string()).eq_str("incr"));
    assert!(DataType::Error("incr".to_string()).eq_str("incr"));
    assert!(DataType::BulkString(Some("incr".to_string())).eq_str("incr"));
    assert!(!DataType::BulkString(Some("incr".to_string())).eq_str("decr"));
    assert!(DataType::BulkString(None).eq_str(""));
    assert!(!DataType::BulkString(None).eq_str("x"));
    assert!(!DataType::Integer(1).eq_str("1"));
    assert!(!DataType::Array(None).eq_str(""));
}
