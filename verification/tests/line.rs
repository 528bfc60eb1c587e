use redis_lite::line::request_items;
use redis_lite::value::DataType;

fn bulks(words: &[&str]) -> Vec<DataType> {
    words.iter().map(|w| DataType::BulkString(Some(w.to_string()))).collect()
}

#[test]
fn words_are_split_at_spaces() {
    assert_eq!(request_items("set k v\n"), bulks(&["set", "k", "v"]));
    assert_eq!(request_items("  get   key  "), bulks(&["get", "key"]));
    assert_eq!(request_items(""), bulks(&[]));
    assert_eq!(request_items("   \n"), bulks(&[]));
}

#[test]
fn a_quotation_keeps_its_spaces() {
    assert_eq!(request_items("set k \"hello world\"\n"), bulks(&["set", "k", "hello world"]));
    assert_eq!(request_items("set k \"\""), bulks(&["set", "k", ""]));
    assert_eq!(request_items("a\"b c\"d"), bulks(&["ab c", "d"]));
}

#[test]
fn an_open_quotation_is_dropped() {
    assert_eq!(request_items("set k \"hello"), bulks(&["set", "k"]));
}

#[test]
fn what_is_no_letter_or_number_is_dropped() {
    assert_eq!(request_items("se-t k_1 v!"), bulks(&["set", "k1", "v"]));
    assert_eq!(request_items("get \u{e9}t\u{e9}\u{663}"), bulks(&["get", "\u{e9}t\u{e9}\u{663}"]));
    assert_eq!(request_items("a\tb"), bulks(&["ab"]));
}
