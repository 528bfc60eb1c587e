//! The wire format: how a value is laid out in bytes, and what a buffer of
//! bytes is read as.

use vstd::prelude::*;
use vstd::utf8::{decode_utf8, encode_utf8, valid_utf8, valid_utf8_concat};
use crate::decimal::{decimal, i64_value, lemma_decimal_is_ascii};
use crate::error::ErrorView;
use crate::text::lemma_ascii_is_utf8;
use crate::value::Value;

verus! {

/// The two bytes that end a line: carriage return, line feed.
pub open spec fn crlf() -> Seq<u8> {
    seq![13u8, 10u8]
}

/// Whether the two bytes of `s` at `i` are a carriage return and a line feed.
pub open spec fn crlf_at(s: Seq<u8>, i: int) -> bool {
    0 <= i && i + 1 < s.len() && s[i] == 13 && s[i + 1] == 10
}

/// Where the first line end at or after `from` begins, if there is one.
pub open spec fn find_crlf(s: Seq<u8>, from: int) -> Option<int>
    decreases s.len() - from,
{
    if from < 0 || from + 1 >= s.len() {
        None
    } else if s[from] == 13 && s[from + 1] == 10 {
        Some(from)
    } else {
        find_crlf(s, from + 1)
    }
}

/// Whether `s` holds a carriage return or a line feed anywhere.
pub open spec fn has_line_break(s: Seq<u8>) -> bool {
    exists|i: int| 0 <= i < s.len() && (#[trigger] s[i] == 13 || s[i] == 10)
}

/// What is left of `s` once its first `n` bytes are taken.
pub open spec fn after(s: Seq<u8>, n: int) -> Seq<u8> {
    if 0 <= n <= s.len() {
        s.subrange(n, s.len() as int)
    } else {
        Seq::empty()
    }
}

/// The input holds no byte at all.
pub open spec fn empty_input() -> ErrorView {
    ErrorView::EmptyInput
}

/// The first byte is none of `+`, `-`, `:`, `$`, `*`.
pub open spec fn unknown_identifier() -> ErrorView {
    ErrorView::IdentifierInvalid
}

/// A line, or the text of a bulk string, is not closed by a line end.
pub open spec fn missing_terminator() -> ErrorView {
    ErrorView::ParseError("missing terminator"@)
}

/// A status line holds a carriage return or a line feed before its end.
pub open spec fn bare_line_break() -> ErrorView {
    ErrorView::ParseError("bare line break"@)
}

/// The field of an integer, a length or a count is no 64-bit decimal number.
pub open spec fn not_a_number() -> ErrorView {
    ErrorView::ParseError("non-numeric field"@)
}

/// A length or a count is negative and not -1.
pub open spec fn negative_length() -> ErrorView {
    ErrorView::ParseError("negative length"@)
}

/// The buffer ends before the bytes that a length announced.
pub open spec fn truncated() -> ErrorView {
    ErrorView::ParseError("truncated buffer"@)
}

/// The bytes of a text are not UTF-8.
pub open spec fn invalid_text() -> ErrorView {
    ErrorView::ParseError("invalid text"@)
}

/// The bytes that a value is written as.
pub open spec fn encode(v: Value) -> Seq<u8>
    decreases v,
{
    match v {
        Value::SimpleString(s) => seq![43u8] + encode_utf8(s) + crlf(),
        Value::Error(s) => seq![45u8] + encode_utf8(s) + crlf(),
        Value::Integer(n) => seq![58u8] + decimal(n) + crlf(),
        Value::BulkString(Some(s)) => seq![36u8] + decimal(encode_utf8(s).len() as int) + crlf()
            + encode_utf8(s) + crlf(),
        Value::BulkString(None) => seq![36u8] + decimal(-1) + crlf(),
        Value::Array(Some(items)) => seq![42u8] + decimal(items.len() as int) + crlf()
            + encode_all(items),
        Value::Array(None) => seq![42u8] + decimal(-1) + crlf(),
    }
}

/// The encodings of the values of a sequence, one after the other.
pub open spec fn encode_all(items: Seq<Value>) -> Seq<u8>
    decreases items,
{
    if items.len() == 0 {
        Seq::empty()
    } else {
        encode(items[0]) + encode_all(items.drop_first())
    }
}

/// The text of a status line (`+` or `-`): the bytes between the tag and the
/// first line end, which hold no line break of their own and are UTF-8.
pub open spec fn parse_status(s: Seq<u8>) -> Result<(Seq<char>, int), ErrorView> {
    match find_crlf(s, 1) {
        None => Err(missing_terminator()),
        Some(end) => {
            let text = s.subrange(1, end);
            if has_line_break(text) {
                Err(bare_line_break())
            } else if !valid_utf8(text) {
                Err(invalid_text())
            } else {
                Ok((decode_utf8(text), end + 2))
            }
        },
    }
}

/// The number in the header line of an integer, a bulk string or an array:
/// the decimal field between the tag and the first line end, and where the
/// line ends.
pub open spec fn parse_header(s: Seq<u8>) -> Result<(i64, int), ErrorView> {
    match find_crlf(s, 1) {
        None => Err(missing_terminator()),
        Some(end) => match i64_value(s.subrange(1, end)) {
            None => Err(not_a_number()),
            Some(n) => Ok((n, end + 2)),
        },
    }
}

/// The text of a bulk string whose header announced `len` bytes and ended at
/// `start`: exactly `len` bytes, then a line end.
pub open spec fn parse_bulk(s: Seq<u8>, start: int, len: int) -> Result<(Seq<char>, int), ErrorView> {
    let text = s.subrange(start, start + len);
    if start + len + 2 > s.len() {
        Err(truncated())
    } else if !crlf_at(s, start + len) {
        Err(missing_terminator())
    } else if !valid_utf8(text) {
        Err(invalid_text())
    } else {
        Ok((decode_utf8(text), start + len + 2))
    }
}

/// What the start of a buffer is read as: the value, and how many bytes it
/// takes up; or the reason why it is no value.
pub open spec fn parse(s: Seq<u8>) -> Result<(Value, int), ErrorView>
    decreases s.len(), 0nat,
    via parse_decreases
{
    if s.len() == 0 {
        Err(empty_input())
    } else if s[0] == 43 {
        match parse_status(s) {
            Ok((text, used)) => Ok((Value::SimpleString(text), used)),
            Err(e) => Err(e),
        }
    } else if s[0] == 45 {
        match parse_status(s) {
            Ok((text, used)) => Ok((Value::Error(text), used)),
            Err(e) => Err(e),
        }
    } else if s[0] == 58 {
        match parse_header(s) {
            Ok((n, used)) => Ok((Value::Integer(n as int), used)),
            Err(e) => Err(e),
        }
    } else if s[0] == 36 {
        match parse_header(s) {
            Ok((n, start)) => if n == -1 {
                Ok((Value::BulkString(None), start))
            } else if n < 0 {
                Err(negative_length())
            } else {
                match parse_bulk(s, start, n as int) {
                    Ok((text, used)) => Ok((Value::BulkString(Some(text)), used)),
                    Err(e) => Err(e),
                }
            },
            Err(e) => Err(e),
        }
    } else if s[0] == 42 {
        match parse_header(s) {
            Ok((n, start)) => if n == -1 {
                Ok((Value::Array(None), start))
            } else if n < 0 {
                Err(negative_length())
            } else {
                match parse_items(after(s, start), n as nat) {
                    Ok((items, used)) => Ok((Value::Array(Some(items)), start + used)),
                    Err(e) => Err(e),
                }
            },
            Err(e) => Err(e),
        }
    } else {
        Err(unknown_identifier())
    }
}

/// What the start of a buffer is read as when `count` values are expected one
/// after the other: the values, and how many bytes they take up together. The
/// first value that cannot be read makes the whole fail.
pub open spec fn parse_items(s: Seq<u8>, count: nat) -> Result<(Seq<Value>, int), ErrorView>
    decreases s.len(), count + 1,
{
    if count == 0 {
        Ok((Seq::empty(), 0))
    } else {
        match parse(s) {
            Err(e) => Err(e),
            Ok((first, used)) => match parse_items(after(s, used), (count - 1) as nat) {
                Err(e) => Err(e),
                Ok((rest, more)) => Ok((seq![first] + rest, used + more)),
            },
        }
    }
}

#[via_fn]
proof fn parse_decreases(s: Seq<u8>) {
    lemma_find_crlf(s, 1);
}

/// What `find_crlf` finds is the first line end at or after `from`; where it
/// finds nothing there is none.
pub proof fn lemma_find_crlf(s: Seq<u8>, from: int)
    requires
        0 <= from,
    ensures
        match find_crlf(s, from) {
            Some(end) => from <= end && crlf_at(s, end) && forall|j: int|
                from <= j < end ==> !crlf_at(s, j),
            None => forall|j: int| from <= j ==> !crlf_at(s, j),
        },
    decreases s.len() - from,
{
    if from + 1 >= s.len() {
    } else if s[from] == 13 && s[from + 1] == 10 {
    } else {
        lemma_find_crlf(s, from + 1);
    }
}

/// Taking bytes off the front twice is taking their sum off once.
pub proof fn lemma_after_after(s: Seq<u8>, a: int, b: int)
    requires
        0 <= a <= s.len(),
        0 <= b <= s.len() - a,
    ensures
        after(after(s, a), b) == after(s, a + b),
{
    assert(after(after(s, a), b) =~= after(s, a + b));
}

/// A value that is read takes up at least one byte and no more than the
/// buffer holds.
pub proof fn lemma_parse_within(s: Seq<u8>)
    ensures
        parse(s) matches Ok((_, used)) ==> 0 < used <= s.len(),
    decreases s.len(), 0nat,
{
    if s.len() > 0 {
        lemma_find_crlf(s, 1);
        if s[0] == 42 {
            if let Ok((n, start)) = parse_header(s) {
                if n >= 0 {
                    lemma_parse_items_within(after(s, start), n as nat);
                }
            }
        }
    }
}

/// The values that are read one after the other take up no more than the
/// buffer holds, and there are as many as were expected.
pub proof fn lemma_parse_items_within(s: Seq<u8>, count: nat)
    ensures
        parse_items(s, count) matches Ok((items, used)) ==> 0 <= used <= s.len() && items.len()
            == count,
    decreases s.len(), count + 1,
{
    if count > 0 {
        lemma_parse_within(s);
        if let Ok((_, used)) = parse(s) {
            lemma_parse_items_within(after(s, used), (count - 1) as nat);
        }
    }
}

/// The encoding of a run of values with one more at its end is the encoding
/// of the run, then that of the last.
pub proof fn lemma_encode_all_push(items: Seq<Value>, last: Value)
    ensures
        encode_all(items.push(last)) == encode_all(items) + encode(last),
    decreases items.len(),
{
    let all = items.push(last);
    if items.len() == 0 {
        assert(all.drop_first() =~= Seq::<Value>::empty());
        assert(encode_all(Seq::<Value>::empty()) =~= Seq::<u8>::empty());
        assert(encode_all(all) =~= encode(last) + Seq::<u8>::empty());
        assert(encode_all(all) =~= encode_all(items) + encode(last));
    } else {
        assert(all.drop_first() =~= items.drop_first().push(last));
        lemma_encode_all_push(items.drop_first(), last);
        assert(encode_all(all) =~= encode_all(items) + encode(last));
    }
}

/// The encoding of a value is UTF-8.
pub proof fn lemma_encode_is_utf8(v: Value)
    ensures
        valid_utf8(encode(v)),
    decreases v,
{
    broadcast use vstd::utf8::encode_utf8_valid_utf8;

    lemma_ascii_is_utf8(crlf());
    match v {
        Value::SimpleString(s) => {
            lemma_ascii_is_utf8(seq![43u8]);
            valid_utf8_concat(seq![43u8], encode_utf8(s));
            valid_utf8_concat(seq![43u8] + encode_utf8(s), crlf());
        },
        Value::Error(s) => {
            lemma_ascii_is_utf8(seq![45u8]);
            valid_utf8_concat(seq![45u8], encode_utf8(s));
            valid_utf8_concat(seq![45u8] + encode_utf8(s), crlf());
        },
        Value::Integer(n) => {
            lemma_ascii_is_utf8(seq![58u8]);
            lemma_decimal_is_ascii(n);
            lemma_ascii_is_utf8(decimal(n));
            valid_utf8_concat(seq![58u8], decimal(n));
            valid_utf8_concat(seq![58u8] + decimal(n), crlf());
        },
        Value::BulkString(Some(s)) => {
            let len = encode_utf8(s).len() as int;
            lemma_ascii_is_utf8(seq![36u8]);
            lemma_decimal_is_ascii(len);
            lemma_ascii_is_utf8(decimal(len));
            valid_utf8_concat(seq![36u8], decimal(len));
            valid_utf8_concat(seq![36u8] + decimal(len), crlf());
            valid_utf8_concat(seq![36u8] + decimal(len) + crlf(), encode_utf8(s));
            valid_utf8_concat(seq![36u8] + decimal(len) + crlf() + encode_utf8(s), crlf());
        },
        Value::BulkString(None) => {
            lemma_ascii_is_utf8(seq![36u8]);
            lemma_decimal_is_ascii(-1);
            lemma_ascii_is_utf8(decimal(-1));
            valid_utf8_concat(seq![36u8], decimal(-1));
            valid_utf8_concat(seq![36u8] + decimal(-1), crlf());
        },
        Value::Array(Some(items)) => {
            let len = items.len() as int;
            lemma_ascii_is_utf8(seq![42u8]);
            lemma_decimal_is_ascii(len);
            lemma_ascii_is_utf8(decimal(len));
            valid_utf8_concat(seq![42u8], decimal(len));
            valid_utf8_concat(seq![42u8] + decimal(len), crlf());
            lemma_encode_all_is_utf8(items);
            valid_utf8_concat(seq![42u8] + decimal(len) + crlf(), encode_all(items));
        },
        Value::Array(None) => {
            lemma_ascii_is_utf8(seq![42u8]);
            lemma_decimal_is_ascii(-1);
            lemma_ascii_is_utf8(decimal(-1));
            valid_utf8_concat(seq![42u8], decimal(-1));
            valid_utf8_concat(seq![42u8] + decimal(-1), crlf());
        },
    }
}

/// The encoding of a run of values is UTF-8.
pub proof fn lemma_encode_all_is_utf8(items: Seq<Value>)
    ensures
        valid_utf8(encode_all(items)),
    decreases items,
{
    if items.len() > 0 {
        lemma_encode_is_utf8(items[0]);
        lemma_encode_all_is_utf8(items.drop_first());
        valid_utf8_concat(encode(items[0]), encode_all(items.drop_first()));
    }
}

} // verus!
