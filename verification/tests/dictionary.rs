use redis_lite::dictionary::Dictionary;
use redis_lite::store::ExpireValue;
use redis_lite::value::DataType;
use std::time::{Duration, Instant};

const UNRECOGNIZED: &str = "-ERR command not recognized\r\n";
const NOT_A_NUMBER: &str = "-ERR value is not an integer or out of range\r\n";

fn bulk(text: &str) -> DataType {
    DataType::BulkString(Some(text.to_string()))
}

fn command(words: &[&str]) -> DataType {
    DataType::Array(Some(words.iter().map(|w| bulk(w)).collect()))
}

fn run(dict: &mut Dictionary, now: u128, words: &[&str]) -> String {
    dict.handle_command_at(command(words), now)
}

#[test]
fn set_then_get() {
    let mut dict = Dictionary::new();
    assert_eq!(run(&mut dict, 0, &["get", "k"]), "$-1\r\n");
    assert_eq!(run(&mut dict, 0, &["set", "k", "v"]), "+OK\r\n");
    assert_eq!(run(&mut dict, 0, &["get", "k"]), "$1\r\nv\r\n");
    assert_eq!(run(&mut dict, u128::MAX, &["get", "k"]), "$1\r\nv\r\n");
}

#[test]
fn set_overwrites_value_and_expiry() {
    let mut dict = Dictionary::new();
    assert_eq!(run(&mut dict, 0, &["set", "k", "old", "PX", "10"]), "+OK\r\n");
    assert_eq!(run(&mut dict, 0, &["set", "k", "new"]), "+OK\r\n");
    assert_eq!(run(&mut dict, 1_000_000, &["get", "k"]), "$3\r\nnew\r\n");
    assert_eq!(run(&mut dict, 0, &["exists", "k"]), ":1\r\n");
}

#[test]
fn expiry_after_millis() {
    let mut dict = Dictionary::new();
    assert_eq!(run(&mut dict, 1000, &["set", "k", "v", "PX", "10"]), "+OK\r\n");
    assert_eq!(run(&mut dict, 1000, &["get", "k"]), "$1\r\nv\r\n");
    assert_eq!(run(&mut dict, 1010, &["get", "k"]), "$1\r\nv\r\n");
    assert_eq!(run(&mut dict, 1011, &["get", "k"]), "$-1\r\n");
    assert_eq!(run(&mut dict, 1011, &["exists", "k"]), ":0\r\n");
    // The read removed the entry: it is not there at an earlier time either.
    assert_eq!(run(&mut dict, 1000, &["get", "k"]), "$-1\r\n");
}

#[test]
fn expiry_after_seconds() {
    let mut dict = Dictionary::new();
    assert_eq!(run(&mut dict, 500, &["set", "k", "v", "EX", "2"]), "+OK\r\n");
    assert_eq!(run(&mut dict, 2500, &["exists", "k"]), ":1\r\n");
    assert_eq!(run(&mut dict, 2501, &["exists", "k"]), ":0\r\n");
}

#[test]
fn expiry_at_seconds_and_at_millis() {
    let mut dict = Dictionary::new();
    assert_eq!(run(&mut dict, 0, &["set", "a", "1", "EXAT", "3"]), "+OK\r\n");
    assert_eq!(run(&mut dict, 0, &["set", "b", "2", "PXAT", "3"]), "+OK\r\n");
    assert_eq!(run(&mut dict, 3, &["get", "b"]), "$1\r\n2\r\n");
    assert_eq!(run(&mut dict, 4, &["get", "b"]), "$-1\r\n");
    assert_eq!(run(&mut dict, 3000, &["get", "a"]), "$1\r\n1\r\n");
    assert_eq!(run(&mut dict, 3001, &["get", "a"]), "$-1\r\n");
}

#[test]
fn expiry_by_the_clock() {
    let mut dict = Dictionary::new();
    assert_eq!(dict.handle_command(command(&["set", "long", "v", "PX", "600000"])), "+OK\r\n");
    assert_eq!(dict.handle_command(command(&["get", "long"])), "$1\r\nv\r\n");
    assert_eq!(dict.handle_command(command(&["set", "past", "v", "PXAT", "1"])), "+OK\r\n");
    assert_eq!(dict.handle_command(command(&["get", "past"])), "$-1\r\n");
    assert_eq!(dict.handle_command(command(&["set", "k", "v", "PX", "10"])), "+OK\r\n");
    let start = Instant::now();
    while start.elapsed() < Duration::from_millis(30) {}
    assert_eq!(dict.handle_command(command(&["get", "k"])), "$-1\r\n");
    assert_eq!(dict.handle_command(command(&["exists", "k"])), ":0\r\n");
}

#[test]
fn malformed_expiry_is_not_a_command() {
    let mut dict = Dictionary::new();
    assert_eq!(run(&mut dict, 0, &["set", "k", "v", "px", "10"]), UNRECOGNIZED);
    assert_eq!(run(&mut dict, 0, &["set", "k", "v", "XX", "10"]), UNRECOGNIZED);
    assert_eq!(run(&mut dict, 0, &["set", "k", "v", "PX", "ten"]), UNRECOGNIZED);
    assert_eq!(run(&mut dict, 0, &["set", "k", "v", "PX", "-1"]), UNRECOGNIZED);
    assert_eq!(run(&mut dict, 0, &["set", "k", "v", "PX", ""]), UNRECOGNIZED);
    assert_eq!(run(&mut dict, 0, &["set", "k", "v", "PX"]), UNRECOGNIZED);
    assert_eq!(run(&mut dict, 0, &["set", "k"]), UNRECOGNIZED);
    assert_eq!(run(&mut dict, 0, &["get", "k"]), "$-1\r\n");
}

#[test]
fn expiry_that_does_not_fit_is_not_a_command() {
    let mut dict = Dictionary::new();
    let most = u128::MAX.to_string();
    assert_eq!(run(&mut dict, 0, &["set", "k", "v", "EX", &most]), UNRECOGNIZED);
    assert_eq!(run(&mut dict, 1, &["set", "k", "v", "PX", &most]), UNRECOGNIZED);
    assert_eq!(run(&mut dict, 0, &["set", "k", "v", "PX", "340282366920938463463374607431768211456"]), UNRECOGNIZED);
    assert_eq!(run(&mut dict, 0, &["exists", "k"]), ":0\r\n");
    assert_eq!(run(&mut dict, 0, &["set", "k", "v", "PX", &most]), "+OK\r\n");
    assert_eq!(run(&mut dict, u128::MAX, &["get", "k"]), "$1\r\nv\r\n");
    assert_eq!(run(&mut dict, 0, &["set", "j", "v", "PX", "+5"]), "+OK\r\n");
    assert_eq!(run(&mut dict, 6, &["get", "j"]), "$-1\r\n");
}

#[test]
fn delete_counts_what_was_there() {
    let mut dict = Dictionary::new();
    assert_eq!(run(&mut dict, 0, &["del", "k"]), ":0\r\n");
    assert_eq!(run(&mut dict, 0, &["set", "a", "1"]), "+OK\r\n");
    assert_eq!(run(&mut dict, 0, &["del", "a", "b"]), ":1\r\n");
    assert_eq!(run(&mut dict, 0, &["del", "a"]), ":0\r\n");
    assert_eq!(run(&mut dict, 0, &["get", "a"]), "$-1\r\n");
}

#[test]
fn delete_of_a_key_whose_lapse_was_seen_counts_nothing() {
    let mut dict = Dictionary::new();
    assert_eq!(run(&mut dict, 0, &["set", "k", "v", "PX", "10"]), "+OK\r\n");
    assert_eq!(run(&mut dict, 11, &["get", "k"]), "$-1\r\n");
    assert_eq!(run(&mut dict, 11, &["del", "k"]), ":0\r\n");
}

#[test]
fn delete_of_a_lapsed_key_that_nobody_read_counts_one() {
    let mut dict = Dictionary::new();
    assert_eq!(run(&mut dict, 0, &["set", "k", "v", "PX", "10"]), "+OK\r\n");
    assert_eq!(run(&mut dict, 11, &["del", "k"]), ":1\r\n");
    assert_eq!(run(&mut dict, 11, &["del", "k"]), ":0\r\n");
}

#[test]
fn delete_counts_a_key_named_twice_once() {
    let mut dict = Dictionary::new();
    assert_eq!(run(&mut dict, 0, &["set", "a", "1"]), "+OK\r\n");
    assert_eq!(run(&mut dict, 0, &["del", "a", "a"]), ":1\r\n");
}

#[test]
fn exists_counts_each_mention() {
    let mut dict = Dictionary::new();
    assert_eq!(run(&mut dict, 0, &["set", "a", "1"]), "+OK\r\n");
    assert_eq!(run(&mut dict, 0, &["set", "b", "2", "PX", "5"]), "+OK\r\n");
    assert_eq!(run(&mut dict, 0, &["exists", "a", "b", "c", "a"]), ":3\r\n");
    assert_eq!(run(&mut dict, 6, &["exists", "a", "b", "c", "a"]), ":2\r\n");
    assert_eq!(run(&mut dict, 0, &["exists", "b"]), ":0\r\n");
    assert_eq!(run(&mut dict, 0, &["exists"]), UNRECOGNIZED);
    assert_eq!(run(&mut dict, 0, &["del"]), UNRECOGNIZED);
}

#[test]
fn exists_and_del_pass_over_what_is_no_key() {
    let mut dict = Dictionary::new();
    assert_eq!(run(&mut dict, 0, &["set", "a", "1"]), "+OK\r\n");
    let odd = DataType::Array(Some(vec![
        bulk("exists"),
        DataType::Integer(1),
        bulk("a"),
        DataType::BulkString(None),
        DataType::SimpleString("a".to_string()),
    ]));
    assert_eq!(dict.handle_command_at(odd, 0), ":1\r\n");
    let odd = DataType::Array(Some(vec![bulk("del"), DataType::Array(None), bulk("a")]));
    assert_eq!(dict.handle_command_at(odd, 0), ":1\r\n");
    let none = DataType::Array(Some(vec![bulk("del"), DataType::Integer(7)]));
    assert_eq!(dict.handle_command_at(none, 0), ":0\r\n");
}

#[test]
fn incr_and_decr_on_a_fresh_key() {
    let mut dict = Dictionary::new();
    assert_eq!(run(&mut dict, 0, &["incr", "counter"]), ":1\r\n");
    assert_eq!(run(&mut dict, 0, &["decr", "counter2"]), ":-1\r\n");
    assert_eq!(run(&mut dict, 0, &["get", "counter"]), "$1\r\n1\r\n");
    assert_eq!(run(&mut dict, u128::MAX, &["get", "counter2"]), "$2\r\n-1\r\n");
}

#[test]
fn incr_on_text_is_refused_and_changes_nothing() {
    let mut dict = Dictionary::new();
    assert_eq!(run(&mut dict, 0, &["set", "s", "abc"]), "+OK\r\n");
    assert_eq!(run(&mut dict, 0, &["incr", "s"]), NOT_A_NUMBER);
    assert_eq!(run(&mut dict, 0, &["decr", "s"]), NOT_A_NUMBER);
    assert_eq!(run(&mut dict, 0, &["get", "s"]), "$3\r\nabc\r\n");
}

#[test]
fn incr_steps_by_one() {
    let mut dict = Dictionary::new();
    assert_eq!(run(&mut dict, 0, &["set", "x", "41"]), "+OK\r\n");
    assert_eq!(run(&mut dict, 0, &["incr", "x"]), ":42\r\n");
    assert_eq!(run(&mut dict, 0, &["incr", "x"]), ":43\r\n");
    assert_eq!(run(&mut dict, 0, &["decr", "x"]), ":42\r\n");
    assert_eq!(run(&mut dict, 0, &["get", "x"]), "$2\r\n42\r\n");
    assert_eq!(run(&mut dict, 0, &["set", "y", "+007"]), "+OK\r\n");
    assert_eq!(run(&mut dict, 0, &["incr", "y"]), ":8\r\n");
    assert_eq!(run(&mut dict, 0, &["get", "y"]), "$1\r\n8\r\n");
    assert_eq!(run(&mut dict, 0, &["set", "z", "0"]), "+OK\r\n");
    assert_eq!(run(&mut dict, 0, &["decr", "z"]), ":-1\r\n");
    assert_eq!(run(&mut dict, 0, &["incr", "z"]), ":0\r\n");
}

#[test]
fn incr_past_the_end_is_refused_and_changes_nothing() {
    let mut dict = Dictionary::new();
    assert_eq!(run(&mut dict, 0, &["set", "top", "9223372036854775807"]), "+OK\r\n");
    assert_eq!(run(&mut dict, 0, &["incr", "top"]), NOT_A_NUMBER);
    assert_eq!(run(&mut dict, 0, &["get", "top"]), "$19\r\n9223372036854775807\r\n");
    assert_eq!(run(&mut dict, 0, &["decr", "top"]), ":9223372036854775806\r\n");
    assert_eq!(run(&mut dict, 0, &["set", "low", "-9223372036854775808"]), "+OK\r\n");
    assert_eq!(run(&mut dict, 0, &["decr", "low"]), NOT_A_NUMBER);
    assert_eq!(run(&mut dict, 0, &["incr", "low"]), ":-9223372036854775807\r\n");
    assert_eq!(run(&mut dict, 0, &["set", "big", "9223372036854775808"]), "+OK\r\n");
    assert_eq!(run(&mut dict, 0, &["incr", "big"]), NOT_A_NUMBER);
}

#[test]
fn incr_keeps_the_expiry() {
    let mut dict = Dictionary::new();
    assert_eq!(run(&mut dict, 0, &["set", "n", "5", "PX", "10"]), "+OK\r\n");
    assert_eq!(run(&mut dict, 5, &["incr", "n"]), ":6\r\n");
    assert_eq!(run(&mut dict, 10, &["get", "n"]), "$1\r\n6\r\n");
    assert_eq!(run(&mut dict, 11, &["get", "n"]), "$-1\r\n");
}

#[test]
fn incr_does_not_look_at_the_expiry() {
    let mut dict = Dictionary::new();
    assert_eq!(run(&mut dict, 0, &["set", "n", "5", "PX", "10"]), "+OK\r\n");
    assert_eq!(run(&mut dict, 20, &["incr", "n"]), ":6\r\n");
    assert_eq!(run(&mut dict, 20, &["get", "n"]), "$-1\r\n");
}

#[test]
fn what_is_no_command_is_answered_with_one_error() {
    let mut dict = Dictionary::new();
    assert_eq!(run(&mut dict, 0, &["ping"]), UNRECOGNIZED);
    assert_eq!(run(&mut dict, 0, &["SET", "k", "v"]), UNRECOGNIZED);
    assert_eq!(run(&mut dict, 0, &["get"]), UNRECOGNIZED);
    assert_eq!(run(&mut dict, 0, &["get", "a", "b"]), UNRECOGNIZED);
    assert_eq!(run(&mut dict, 0, &["incr"]), UNRECOGNIZED);
    assert_eq!(run(&mut dict, 0, &["decr", "a", "b"]), UNRECOGNIZED);
    assert_eq!(run(&mut dict, 0, &["set", "a", "b", "c"]), UNRECOGNIZED);
    assert_eq!(run(&mut dict, 0, &[]), UNRECOGNIZED);
    assert_eq!(dict.handle_command_at(DataType::Array(None), 0), UNRECOGNIZED);
    assert_eq!(dict.handle_command_at(bulk("get"), 0), UNRECOGNIZED);
    assert_eq!(dict.handle_command_at(DataType::Integer(3), 0), UNRECOGNIZED);
    let status_name =
        DataType::Array(Some(vec![DataType::SimpleString("get".to_string()), bulk("k")]));
    assert_eq!(dict.handle_command_at(status_name, 0), UNRECOGNIZED);
    let number_key = DataType::Array(Some(vec![bulk("get"), DataType::Integer(1)]));
    assert_eq!(dict.handle_command_at(number_key, 0), UNRECOGNIZED);
    let null_key = DataType::Array(Some(vec![bulk("incr"), DataType::BulkString(None)]));
    assert_eq!(dict.handle_command_at(null_key, 0), UNRECOGNIZED);
    let null_value =
        DataType::Array(Some(vec![bulk("set"), bulk("k"), DataType::BulkString(None)]));
    assert_eq!(dict.handle_command_at(null_value, 0), UNRECOGNIZED);
    assert_eq!(run(&mut dict, 0, &["exists", "k", "a"]), ":0\r\n");
}

#[test]
fn respond_reads_and_answers() {
    let mut dict = Dictionary::new();
    assert_eq!(dict.respond_at(b"*3\r\n$3\r\nset\r\n$1\r\nk\r\n$2\r\nhi\r\n", 7), "+OK\r\n");
    assert_eq!(dict.respond_at(b"*2\r\n$3\r\nget\r\n$1\r\nk\r\n\0\0\0", 7), "$2\r\nhi\r\n");
    assert_eq!(dict.respond_at(b"*2\r\n$3\r\nget\r\n", 7), "-ERR error parsing data\r\n");
    assert_eq!(dict.respond_at(b"", 7), "-ERR error parsing data\r\n");
    assert_eq!(dict.respond_at(&[0u8; 16], 7), "-ERR error parsing data\r\n");
    assert_eq!(dict.respond_at(b"$1\r\n\xff\r\n", 7), "-ERR error parsing data\r\n");
    assert_eq!(dict.respond_at(b"+OK\r\n", 7), UNRECOGNIZED);
    assert_eq!(dict.respond(b"*2\r\n$4\r\nincr\r\n$1\r\nn\r\n"), ":1\r\n");
    assert_eq!(dict.respond(b"*2\r\n$4\r\nincr\r\n$1\r\nn\r\n"), ":2\r\n");
    assert_eq!(dict.respond(b"what"), "-ERR error parsing data\r\n");
}

#[test]
fn run_command_returns_the_answer_as_a_value() {
    let mut dict = Dictionary::new();
    assert_eq!(
        dict.run_command(&command(&["set", "k", "v"]), 0),
        DataType::SimpleString("OK".to_string())
    );
    assert_eq!(dict.run_command(&command(&["get", "k"]), 0), bulk("v"));
    assert_eq!(dict.run_command(&command(&["get", "j"]), 0), DataType::BulkString(None));
    assert_eq!(dict.run_command(&command(&["exists", "k", "j"]), 0), DataType::Integer(1));
    assert_eq!(
        dict.run_command(&command(&["nope"]), 0),
        DataType::Error("ERR command not recognized".to_string())
    );
}

#[test]
fn store_operations() {
    let mut dict = Dictionary::new();
    let k = "k".to_string();
    assert_eq!(dict.get_value(&k, 0), None);
    assert!(dict.delete_value(&k).is_none());
    dict.set_value(k.clone(), ExpireValue::expire_millis("v".to_string(), 10, 100));
    assert!(dict.exists_value(&k, 110));
    assert_eq!(dict.get_value(&k, 110), Some("v".to_string()));
    dict.set_value("gone".to_string(), ExpireValue::specific_expire_millis("x".to_string(), 5));
    assert!(!dict.exists_value(&"gone".to_string(), 6));
    assert!(!dict.exists_value(&"gone".to_string(), 0));
    assert!(!dict.exists_value(&"never".to_string(), 0));
    let removed = dict.delete_value(&k).unwrap();
    assert_eq!(removed.value, "v");
    assert_eq!(removed.exp, Some(110));
    assert_eq!(dict.get_value(&k, 0), None);
    assert_eq!(dict.incr_decr_value(&k, &bulk("incr")), Some(1));
    assert_eq!(dict.incr_decr_value(&k, &bulk("incr")), Some(2));
    assert_eq!(dict.incr_decr_value(&k, &bulk("decr")), Some(1));
    assert_eq!(dict.incr_decr_value(&k, &bulk("anything")), Some(0));
    assert_eq!(dict.decr_value(&k), Some(-1));
    assert_eq!(dict.get_value(&k, u128::MAX), Some("-1".to_string()));
    dict.set_value(k.clone(), ExpireValue::no_expire("abc".to_string()));
    assert_eq!(dict.decr_value(&k), None);
    assert_eq!(dict.incr_decr_value(&k, &bulk("incr")), None);
    assert_eq!(dict.get_value(&k, 0), Some("abc".to_string()));
}

#[test]
fn expire_value_constructors() {
    let never = ExpireValue::no_expire("v".to_string());
    assert_eq!(never.exp, None);
    assert!(!never.is_expire(u128::MAX));
    let secs = ExpireValue::expire_seconds("v".to_string(), 2, 500);
    assert_eq!(secs.exp, Some(2500));
    assert!(!secs.is_expire(2500));
    assert!(secs.is_expire(2501));
    let millis = ExpireValue::expire_millis("v".to_string(), 2, 500);
    assert_eq!(millis.exp, Some(502));
    let at_secs = ExpireValue::specific_expire_seconds("v".to_string(), 7);
    assert_eq!(at_secs.exp, Some(7000));
    let at_millis = ExpireValue::specific_expire_millis("v".to_string(), 7);
    assert_eq!(at_millis.exp, Some(7));
    assert_eq!(at_millis.value, "v");
    assert!(at_millis.is_expire(8));
    assert!(!at_millis.is_expire(7));
}

#[test]
fn many_keys() {
    let mut dict = Dictionary::new();
    for i in 0..200 {
        let key = format!("key{}", i);
        let value = format!("value{}", i);
        assert_eq!(run(&mut dict, 0, &["set", &key, &value]), "+OK\r\n");
    }
    for i in (0..200).step_by(2) {
        let key = format!("key{}", i);
        assert_eq!(run(&mut dict, 0, &["del", &key]), ":1\r\n");
    }
    for i in 0..200 {
        let key = format!("key{}", i);
        let value = format!("value{}", i);
        let expected = if i % 2 == 0 {
            "$-1\r\n".to_string()
        } else {
            format!("${}\r\n{}\r\n", value.len(), value)
        };
        assert_eq!(run(&mut dict, 0, &["get", &key]), expected);
    }
}
