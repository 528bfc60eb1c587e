use redis_lite::decimal::{append_digits, append_i64, append_usize, number_text, parse_i64, parse_u128};
use redis_lite::text::text_eq;
use redis_lite::value::DataType;

#[test]
fn display_of_each_kind() {
    assert_eq!(DataType::SimpleString("OK".to_string()).display_string(), "\"OK\"");
    assert_eq!(DataType::Error("ERR bad".to_string()).display_string(), "ERR bad");
    assert_eq!(DataType::Integer(-20).display_string(), "(integer) -20");
    assert_eq!(DataType::BulkString(Some("hi".to_string())).display_string(), "\"hi\"");
    assert_eq!(DataType::BulkString(None).display_string(), "(nil)");
    assert_eq!(DataType::Array(None).display_string(), "Array: (nil)");
    assert_eq!(DataType::Array(Some(vec![])).display_string(), "Array: []");
    assert_eq!(
        DataType::Array(Some(vec![DataType::Integer(1)])).display_string(),
        "Array: [(integer) 1]"
    );
    assert_eq!(
        DataType::Array(Some(vec![
            DataType::Integer(1),
            DataType::BulkString(None),
            DataType::Array(Some(vec![
                DataType::SimpleString("a".to_string()),
                DataType::Error("b".to_string()),
            ])),
        ]))
        .display_string(),
        "Array: [(integer) 1, (nil), Array: [\"a\", b]]"
    );
}

#[test]
fn signed_fields() {
    assert_eq!(parse_i64(b"0"), Some(0));
    assert_eq!(parse_i64(b"-0"), Some(0));
    assert_eq!(parse_i64(b"+69"), Some(69));
    assert_eq!(parse_i64(b"000000000000000000000000000000000000012"), Some(12));
    assert_eq!(parse_i64(b"9223372036854775807"), Some(i64::MAX));
    assert_eq!(parse_i64(b"9223372036854775808"), None);
    assert_eq!(parse_i64(b"-9223372036854775808"), Some(i64::MIN));
    assert_eq!(parse_i64(b"-9223372036854775809"), None);
    assert_eq!(parse_i64(b"99999999999999999999999999999999999999999999"), None);
    assert_eq!(parse_i64(b""), None);
    assert_eq!(parse_i64(b"+"), None);
    assert_eq!(parse_i64(b"-"), None);
    assert_eq!(parse_i64(b"+-1"), None);
    assert_eq!(parse_i64(b"1a"), None);
    assert_eq!(parse_i64(b" 1"), None);
}

#[test]
fn unsigned_fields() {
    assert_eq!(parse_u128(b"0"), Some(0));
    assert_eq!(parse_u128(b"+10"), Some(10));
    assert_eq!(parse_u128(b"-0"), None);
    assert_eq!(parse_u128(b"-1"), None);
    assert_eq!(parse_u128(b"340282366920938463463374607431768211455"), Some(u128::MAX));
    assert_eq!(parse_u128(b"340282366920938463463374607431768211456"), None);
    assert_eq!(parse_u128(b"0340282366920938463463374607431768211455"), Some(u128::MAX));
    assert_eq!(parse_u128(b""), None);
    assert_eq!(parse_u128(b"+"), None);
    assert_eq!(parse_u128(b"12x"), None);
}

#[test]
fn decimal_text_of_numbers() {
    let mut out: Vec<u8> = Vec::new();
    append_i64(&mut out, -120);
    append_usize(&mut out, 0);
    append_usize(&mut out, 4096);
    append_digits(&mut out, u128::MAX);
    assert_eq!(out, b"-12004096340282366920938463463374607431768211455".to_vec());
    assert_eq!(number_text(i64::MIN), "-9223372036854775808");
    assert_eq!(number_text(7), "7");
}

#[test]
fn text_equality() {
    assert!(text_eq("set", "set"));
    assert!(!text_eq("set", "get"));
    assert!(!text_eq("set", "sets"));
    assert!(text_eq("", ""));
}
