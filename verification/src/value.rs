//! The five kinds of value that travel over the wire.

use vstd::prelude::*;
use vstd::string::StringExecFns;
use crate::decimal::{decimal_text, number_text};
use crate::text::text_eq;

verus! {

/// A value of the protocol, as the program holds it.
#[derive(Debug, PartialEq, Eq)]
pub enum DataType {
    SimpleString(String),
    Error(String),
    Integer(i64),
    BulkString(Option<String>),
    Array(Option<Vec<DataType>>),
}

/// A value of the protocol, as the contracts speak of it: text is a sequence
/// of characters, a number is an integer, an array is a sequence of values.
pub enum Value {
    SimpleString(Seq<char>),
    Error(Seq<char>),
    Integer(int),
    BulkString(Option<Seq<char>>),
    Array(Option<Seq<Value>>),
}

impl View for DataType {
    type V = Value;

    open spec fn view(&self) -> Value
        decreases self,
    {
        match self {
            DataType::SimpleString(s) => Value::SimpleString(s@),
            DataType::Error(s) => Value::Error(s@),
            DataType::Integer(n) => Value::Integer(*n as int),
            DataType::BulkString(Some(s)) => Value::BulkString(Some(s@)),
            DataType::BulkString(None) => Value::BulkString(None),
            DataType::Array(Some(items)) => Value::Array(Some(view_all(items@))),
            DataType::Array(None) => Value::Array(None),
        }
    }
}

/// The views of a sequence of values, in the same order.
pub open spec fn view_all(items: Seq<DataType>) -> Seq<Value>
    decreases items,
{
    Seq::new(items.len(), |i: int| if 0 <= i < items.len() { items[i].view() } else { Value::Array(None) })
}

/// Whether a value is the text `other`: a status, an error or a bulk string
/// of those characters. A null bulk string is the empty text; a number or an
/// array is no text.
pub open spec fn is_text(v: Value, other: Seq<char>) -> bool {
    match v {
        Value::SimpleString(s) => s == other,
        Value::Error(s) => s == other,
        Value::BulkString(Some(s)) => s == other,
        Value::BulkString(None) => other.len() == 0,
        _ => false,
    }
}

impl DataType {
    /// Tells whether the value is the text `other`.
    pub fn eq_str(&self, other: &str) -> (same: bool)
        ensures
            same == is_text(self@, other@),
    {
        match self {
            DataType::SimpleString(s) => text_eq(s.as_str(), other),
            DataType::Error(s) => text_eq(s.as_str(), other),
            DataType::BulkString(Some(s)) => text_eq(s.as_str(), other),
            DataType::BulkString(None) => other.is_empty(),
            _ => false,
        }
    }
}

/// How a value is shown to a reader: text between quotes, an error as it
/// is, a number after the word `(integer)`, the items of an array between
/// brackets with a comma and a space between them, and `(nil)` for what is
/// null.
pub open spec fn shown(v: Value) -> Seq<char>
    decreases v,
{
    match v {
        Value::SimpleString(s) => "\""@ + s + "\""@,
        Value::Error(s) => s,
        Value::Integer(n) => "(integer) "@ + decimal_text(n),
        Value::BulkString(Some(s)) => "\""@ + s + "\""@,
        Value::BulkString(None) => "(nil)"@,
        Value::Array(Some(items)) => "Array: ["@ + shown_all(items) + "]"@,
        Value::Array(None) => "Array: (nil)"@,
    }
}

/// The values of a sequence as they are shown, with a comma and a space
/// between one and the next.
pub open spec fn shown_all(items: Seq<Value>) -> Seq<char>
    decreases items,
{
    if items.len() == 0 {
        Seq::empty()
    } else if items.len() == 1 {
        shown(items[0])
    } else {
        shown_all(items.drop_last()) + ", "@ + shown(items.last())
    }
}

impl DataType {
    /// Shows the value to a reader.
    pub fn display_string(&self) -> (text: String)
        ensures
            text@ == shown(self@),
        decreases self,
    {
        match self {
            DataType::SimpleString(val) => String::from_str("\"").concat(val.as_str()).concat(
                "\"",
            ),
            DataType::Error(err) => err.clone(),
            DataType::Integer(num) => String::from_str("(integer) ").concat(
                number_text(*num).as_str(),
            ),
            DataType::BulkString(Some(val)) => String::from_str("\"").concat(val.as_str()).concat(
                "\"",
            ),
            DataType::BulkString(None) => String::from_str("(nil)"),
            DataType::Array(Some(arr)) => {
                let ghost all = view_all(arr@);
                let mut out = String::from_str("Array: [");
                let mut i: usize = 0;
                proof {
                    assert(all.take(0) =~= Seq::<Value>::empty());
                    assert(out@ =~= "Array: ["@ + shown_all(all.take(0)));
                }
                while i < arr.len()
                    invariant
                        i <= arr@.len(),
                        all == view_all(arr@),
                        decreases_to!(*self => *arr),
                        out@ == "Array: ["@ + shown_all(all.take(i as int)),
                    decreases arr@.len() - i,
                {
                    let ghost before = out@;
                    if i > 0 {
                        out.append(", ");
                    }
                    let item = arr[i].display_string();
                    out.append(item.as_str());
                    proof {
                        let now = all.take(i + 1);
                        assert(now.drop_last() =~= all.take(i as int));
                        assert(now.last() == arr@[i as int]@);
                        if i == 0 {
                            assert(now[0] == arr@[0]@);
                            assert(shown_all(all.take(0)) =~= Seq::<char>::empty());
                            assert(out@ =~= "Array: ["@ + shown_all(now));
                        } else {
                            assert(out@ =~= "Array: ["@ + shown_all(now));
                        }
                    }
                    i = i + 1;
                }
                proof {
                    assert(all.take(i as int) =~= all);
                }
                out.append("]");
                out
            },
            DataType::Array(None) => String::from_str("Array: (nil)"),
        }
    }
}

} // verus!
