//! Reading what was written gives back what was written.

use vstd::prelude::*;
use vstd::utf8::{encode_scalar, encode_utf8, has_width_1_encoding};
use crate::decimal::{decimal, lemma_decimal_has_no_line_break, lemma_signed_value_of_decimal};
use crate::error::ErrorView;
use crate::value::Value;
use crate::wire::{
    after, crlf, crlf_at, encode, encode_all, find_crlf, has_line_break, parse, parse_bulk,
    parse_header, parse_items, parse_status,
};

verus! {

/// Whether a text holds neither a carriage return nor a line feed.
pub open spec fn single_line(text: Seq<char>) -> bool {
    forall|i: int| 0 <= i < text.len() ==> #[trigger] text[i] != '\r' && text[i] != '\n'
}

/// The values that the wire format can carry: the text of a status line is a
/// single line, a number fits 64 bits, and so does every length and count.
pub open spec fn representable(v: Value) -> bool
    decreases v,
{
    match v {
        Value::SimpleString(s) => single_line(s),
        Value::Error(s) => single_line(s),
        Value::Integer(n) => i64::MIN <= n <= i64::MAX,
        Value::BulkString(Some(s)) => encode_utf8(s).len() <= i64::MAX,
        Value::BulkString(None) => true,
        Value::Array(Some(items)) => items.len() <= i64::MAX && forall|i: int|
            0 <= i < items.len() ==> representable(#[trigger] items[i]),
        Value::Array(None) => true,
    }
}

proof fn lemma_high_bytes(y: u8)
    by (bit_vector)
    ensures
        0x80u8 | y >= 0x80,
        0xC0u8 | y >= 0x80,
        0xE0u8 | y >= 0x80,
        0xF0u8 | y >= 0x80,
{
}

proof fn lemma_low_byte(c: u32)
    by (bit_vector)
    requires
        c <= 0x7f,
    ensures
        (c & 0x7f) as u8 == c,
{
}

/// Every byte of the encoding of a character other than a line break is
/// other than a line break.
proof fn lemma_scalar_has_no_line_break(c: char)
    requires
        c != '\r',
        c != '\n',
    ensures
        forall|i: int|
            0 <= i < encode_scalar(c as u32).len() ==> #[trigger] encode_scalar(c as u32)[i] != 13
                && encode_scalar(c as u32)[i] != 10,
{
    let u = c as u32;
    let bytes = encode_scalar(u);
    if has_width_1_encoding(u) {
        lemma_low_byte(u);
    } else {
        lemma_high_bytes(((u >> 6) & 0x1F) as u8);
        lemma_high_bytes(((u >> 12) & 0x0F) as u8);
        lemma_high_bytes(((u >> 18) & 0x7) as u8);
        lemma_high_bytes((u & 0x3F) as u8);
        lemma_high_bytes(((u >> 6) & 0x3F) as u8);
        lemma_high_bytes(((u >> 12) & 0x3F) as u8);
    }
}

/// The bytes of a single line of text hold no line break.
pub proof fn lemma_single_line_bytes(text: Seq<char>)
    requires
        single_line(text),
    ensures
        !has_line_break(encode_utf8(text)),
    decreases text.len(),
{
    if text.len() > 0 {
        let head = encode_scalar(text[0] as u32);
        let rest = encode_utf8(text.drop_first());
        lemma_scalar_has_no_line_break(text[0]);
        assert(single_line(text.drop_first())) by {
            assert forall|i: int| 0 <= i < text.drop_first().len() implies #[trigger] text.drop_first()[i]
                != '\r' && text.drop_first()[i] != '\n' by {
                assert(text.drop_first()[i] == text[i + 1]);
            }
        }
        lemma_single_line_bytes(text.drop_first());
        let all = encode_utf8(text);
        assert(all == head + rest);
        assert forall|i: int| 0 <= i < all.len() implies !(#[trigger] all[i] == 13 || all[i] == 10) by {
            if i < head.len() {
                assert(all[i] == head[i]);
            } else {
                assert(all[i] == rest[i - head.len()]);
            }
        }
    }
}

/// A line end that no carriage return comes before is the first one.
pub proof fn lemma_first_line_end(s: Seq<u8>, from: int, end: int)
    requires
        0 <= from <= end,
        crlf_at(s, end),
        forall|j: int| from <= j < end ==> #[trigger] s[j] != 13,
    ensures
        find_crlf(s, from) == Some(end),
    decreases end - from,
{
    if from < end {
        lemma_first_line_end(s, from + 1, end);
    }
}

/// A header line that holds the decimal text of a number is read as that
/// number, and what follows the line is left.
proof fn lemma_header(tag: u8, n: int, rest: Seq<u8>)
    requires
        i64::MIN <= n <= i64::MAX,
    ensures
        parse_header(seq![tag] + decimal(n) + crlf() + rest) == Ok::<(i64, int), ErrorView>(
            (n as i64, (decimal(n).len() + 3) as int),
        ),
        after(seq![tag] + decimal(n) + crlf() + rest, (decimal(n).len() + 3) as int) == rest,
{
    let field = decimal(n);
    let s = seq![tag] + field + crlf() + rest;
    let end = 1 + field.len() as int;
    lemma_decimal_has_no_line_break(n);
    lemma_signed_value_of_decimal(n);
    assert(crlf_at(s, end));
    assert forall|j: int| 1 <= j < end implies #[trigger] s[j] != 13 by {
        assert(s[j] == field[j - 1]);
    }
    lemma_first_line_end(s, 1, end);
    assert(s.subrange(1, end) =~= field);
    assert(after(s, end + 2) =~= rest);
}

/// A status line that holds a single line of text is read as that text.
proof fn lemma_status(tag: u8, text: Seq<char>, rest: Seq<u8>)
    requires
        single_line(text),
    ensures
        parse_status(seq![tag] + encode_utf8(text) + crlf() + rest) == Ok::<(Seq<char>, int), ErrorView>(
            (text, (encode_utf8(text).len() + 3) as int),
        ),
{
    broadcast use vstd::utf8::encode_utf8_valid_utf8, vstd::utf8::encode_utf8_decode_utf8;

    let bytes = encode_utf8(text);
    let s = seq![tag] + bytes + crlf() + rest;
    let end = 1 + bytes.len() as int;
    lemma_single_line_bytes(text);
    assert(crlf_at(s, end));
    assert forall|j: int| 1 <= j < end implies #[trigger] s[j] != 13 by {
        assert(s[j] == bytes[j - 1]);
    }
    lemma_first_line_end(s, 1, end);
    assert(s.subrange(1, end) =~= bytes);
}

/// The text of a bulk string that stands in full in the buffer, closed by a
/// line end, is read as it was written.
proof fn lemma_bulk(head: Seq<u8>, text: Seq<char>, rest: Seq<u8>)
    ensures
        parse_bulk(
            head + encode_utf8(text) + crlf() + rest,
            head.len() as int,
            encode_utf8(text).len() as int,
        ) == Ok::<(Seq<char>, int), ErrorView>(
            (text, (head.len() + encode_utf8(text).len() + 2) as int),
        ),
{
    broadcast use vstd::utf8::encode_utf8_valid_utf8, vstd::utf8::encode_utf8_decode_utf8;

    let bytes = encode_utf8(text);
    let s = head + bytes + crlf() + rest;
    let start = head.len() as int;
    let len = bytes.len() as int;
    assert(crlf_at(s, start + len));
    assert(s.subrange(start, start + len) =~= bytes);
}

/// A representable value that is written and read again is the value that
/// was written, and reading takes up exactly the bytes that writing made,
/// whatever follows them in the buffer.
pub proof fn lemma_round_trip(v: Value, rest: Seq<u8>)
    requires
        representable(v),
    ensures
        parse(encode(v) + rest) == Ok::<(Value, int), ErrorView>(
            (v, encode(v).len() as int),
        ),
    decreases v,
{
    let s = encode(v) + rest;
    match v {
        Value::SimpleString(text) => {
            lemma_status(43, text, rest);
        },
        Value::Error(text) => {
            lemma_status(45, text, rest);
        },
        Value::Integer(n) => {
            lemma_header(58, n, rest);
        },
        Value::BulkString(Some(text)) => {
            let bytes = encode_utf8(text);
            let len = bytes.len() as int;
            let head = seq![36u8] + decimal(len) + crlf();
            lemma_header(36, len, bytes + crlf() + rest);
            assert(s =~= seq![36u8] + decimal(len) + crlf() + (bytes + crlf() + rest));
            lemma_bulk(head, text, rest);
            assert(s =~= head + bytes + crlf() + rest);
        },
        Value::BulkString(None) => {
            lemma_header(36, -1, rest);
        },
        Value::Array(Some(items)) => {
            let len = items.len() as int;
            lemma_header(42, len, encode_all(items) + rest);
            assert(s =~= seq![42u8] + decimal(len) + crlf() + (encode_all(items) + rest));
            lemma_round_trip_all(items, rest);
        },
        Value::Array(None) => {
            lemma_header(42, -1, rest);
        },
    }
}

/// Representable values that are written one after the other are read back
/// one after the other.
pub proof fn lemma_round_trip_all(items: Seq<Value>, rest: Seq<u8>)
    requires
        forall|i: int| 0 <= i < items.len() ==> representable(#[trigger] items[i]),
    ensures
        parse_items(encode_all(items) + rest, items.len()) == Ok::<(Seq<Value>, int), ErrorView>(
            (items, encode_all(items).len() as int),
        ),
    decreases items,
{
    if items.len() > 0 {
        let first = items[0];
        let others = items.drop_first();
        let s = encode_all(items) + rest;
        assert(s =~= encode(first) + (encode_all(others) + rest));
        lemma_round_trip(first, encode_all(others) + rest);
        assert(after(s, encode(first).len() as int) =~= encode_all(others) + rest);
        assert forall|i: int| 0 <= i < others.len() implies representable(#[trigger] others[i]) by {
            assert(others[i] == items[i + 1]);
        }
        lemma_round_trip_all(others, rest);
        assert(seq![first] + others =~= items);
        assert(parse(s) == Ok::<(Value, int), ErrorView>(
            (first, encode(first).len() as int),
        ));
        assert(parse_items(after(s, encode(first).len() as int), (items.len() - 1) as nat)
            == Ok::<(Seq<Value>, int), ErrorView>(
            (others, encode_all(others).len() as int),
        ));
    } else {
        assert(items =~= Seq::<Value>::empty());
    }
}

/// No encoding of a representable value is the start of another's: where one
/// is, the two values are the same and nothing follows.
pub proof fn lemma_encode_prefix_free(a: Value, b: Value, rest: Seq<u8>)
    requires
        representable(a),
        representable(b),
        encode(a) + rest == encode(b),
    ensures
        a == b,
        rest.len() == 0,
{
    lemma_round_trip(a, rest);
    lemma_round_trip(b, Seq::empty());
    assert(encode(b) + Seq::<u8>::empty() =~= encode(b));
}

} // verus!
