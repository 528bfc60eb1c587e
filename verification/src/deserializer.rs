//! Reading values from bytes.

use vstd::prelude::*;
use vstd::slice::slice_subrange;
use vstd::string::StringExecFns;
use vstd::utf8::encode_utf8;
use crate::decimal::parse_i64;
use crate::error::{Error, ErrorView};
use crate::text::text_of;
use crate::value::{view_all, DataType, Value};
use crate::wire::{
    after, crlf_at, find_crlf, has_line_break, lemma_after_after, lemma_find_crlf,
    lemma_parse_within, parse, parse_bulk, parse_header, parse_items, parse_status,
};

verus! {

/// A parse error with the given text.
fn parse_error(text: &str) -> (e: Error)
    ensures
        e@ == ErrorView::ParseError(text@),
{
    Error::ParseError(String::from_str(text))
}

/// Finds where the first line end at or after `from` begins.
pub fn parse_crlf(input: &[u8], from: usize) -> (res: Option<usize>)
    ensures
        match res {
            Some(end) => find_crlf(input@, from as int) == Some(end as int),
            None => find_crlf(input@, from as int) is None,
        },
{
    let n: usize = input.len();
    if from >= n {
        return None;
    }
    let mut i: usize = from;
    while i + 1 < n
        invariant
            from <= i < n,
            n == input@.len(),
            find_crlf(input@, from as int) == find_crlf(input@, i as int),
        decreases n - i,
    {
        if input[i] == 13 && input[i + 1] == 10 {
            return Some(i);
        }
        i = i + 1;
    }
    None
}

/// Tells whether a carriage return or a line feed stands in `input` from
/// `from` up to `to`.
fn holds_line_break(input: &[u8], from: usize, to: usize) -> (found: bool)
    requires
        from <= to <= input@.len(),
    ensures
        found == has_line_break(input@.subrange(from as int, to as int)),
{
    let ghost field = input@.subrange(from as int, to as int);
    let mut i: usize = from;
    while i < to
        invariant
            from <= i <= to <= input@.len(),
            field == input@.subrange(from as int, to as int),
            forall|j: int| 0 <= j < i - from ==> #[trigger] field[j] != 13 && field[j] != 10,
        decreases to - i,
    {
        if input[i] == 13 || input[i] == 10 {
            proof {
                assert(field[i - from] == input@[i as int]);
            }
            return true;
        }
        i = i + 1;
    }
    false
}

/// Reads a status line: the text between the tag and the first line end.
pub fn parse_simple_string(input: &[u8]) -> (res: Result<(String, usize), Error>)
    ensures
        match parse_status(input@) {
            Ok((text, used)) => res matches Ok((s, n)) && s@ == text && n == used,
            Err(e) => res matches Err(err) && err@ == e,
        },
{
    proof {
        lemma_find_crlf(input@, 1);
    }
    match parse_crlf(input, 1) {
        None => Err(parse_error("missing terminator")),
        Some(end) => {
            assert(crlf_at(input@, end as int));
            assert(end + 2 <= input.len());
            if holds_line_break(input, 1, end) {
                Err(parse_error("bare line break"))
            } else {
                match text_of(input, 1, end) {
                    None => Err(parse_error("invalid text")),
                    Some(s) => Ok((s, end + 2)),
                }
            }
        },
    }
}

/// Reads the number of a header line: the decimal field between the tag and
/// the first line end.
pub fn parse_length(input: &[u8]) -> (res: Result<(i64, usize), Error>)
    ensures
        match parse_header(input@) {
            Ok((value, used)) => res matches Ok((v, n)) && v == value && n == used,
            Err(e) => res matches Err(err) && err@ == e,
        },
{
    proof {
        lemma_find_crlf(input@, 1);
    }
    match parse_crlf(input, 1) {
        None => Err(parse_error("missing terminator")),
        Some(end) => {
            assert(crlf_at(input@, end as int));
            assert(end + 2 <= input.len());
            match parse_i64(slice_subrange(input, 1, end)) {
                None => Err(parse_error("non-numeric field")),
                Some(n) => Ok((n, end + 2)),
            }
        },
    }
}

/// Reads the text of a bulk string of `len` bytes that begins at `start`.
fn parse_bulk_string(input: &[u8], start: usize, len: i64) -> (res: Result<
    (String, usize),
    Error,
>)
    requires
        start <= input@.len(),
        len >= 0,
    ensures
        match parse_bulk(input@, start as int, len as int) {
            Ok((text, used)) => res matches Ok((s, n)) && s@ == text && n == used,
            Err(e) => res matches Err(err) && err@ == e,
        },
{
    let room: usize = input.len() - start;
    if room < 2 || len as u64 > (room - 2) as u64 {
        return Err(parse_error("truncated buffer"));
    }
    let stop: usize = start + len as usize;
    if input[stop] != 13 || input[stop + 1] != 10 {
        return Err(parse_error("missing terminator"));
    }
    match text_of(input, start, stop) {
        None => Err(parse_error("invalid text")),
        Some(s) => Ok((s, stop + 2)),
    }
}

/// What has been read of a run of values, joined to what the rest is read as.
spec fn joined(done: Seq<Value>, used: int, rest: Result<(Seq<Value>, int), ErrorView>)
    -> Result<(Seq<Value>, int), ErrorView> {
    match rest {
        Ok((items, more)) => Ok((done + items, used + more)),
        Err(e) => Err(e),
    }
}

/// Reads `count` values one after the other, from `start` on.
fn parse_array_items(input: &[u8], start: usize, count: u64) -> (res: Result<
    (Vec<DataType>, usize),
    Error,
>)
    requires
        0 < start <= input@.len(),
    ensures
        match parse_items(after(input@, start as int), count as nat) {
            Ok((items, used)) => res matches Ok((v, n)) && view_all(v@) == items && n == start
                + used,
            Err(e) => res matches Err(err) && err@ == e,
        },
    decreases input@.len(), 0nat,
{
    let ghost whole = parse_items(after(input@, start as int), count as nat);
    let mut items: Vec<DataType> = Vec::new();
    let mut pos: usize = start;
    let mut k: u64 = 0;
    proof {
        if let Ok((all, _)) = whole {
            assert(view_all(items@) + all =~= all);
        }
    }
    while k < count
        invariant
            0 < start <= pos <= input@.len(),
            k <= count,
            whole == parse_items(after(input@, start as int), count as nat),
            whole == joined(
                view_all(items@),
                pos - start,
                parse_items(after(input@, pos as int), (count - k) as nat),
            ),
        decreases count - k,
    {
        let rest = slice_subrange(input, pos, input.len());
        let ghost here = after(input@, pos as int);
        proof {
            assert(rest@ == here);
            lemma_parse_within(here);
        }
        match deserialize_helper(rest) {
            Err(e) => {
                return Err(e);
            },
            Ok((item, used)) => {
                proof {
                    let before = view_all(items@);
                    let tail = parse_items(after(here, used as int), (count - k - 1) as nat);
                    lemma_after_after(input@, pos as int, used as int);
                    assert(view_all(items@.push(item)) =~= before.push(item@));
                    if let Ok((more_items, more)) = tail {
                        assert(before + (seq![item@] + more_items) =~= before.push(item@)
                            + more_items);
                    }
                }
                items.push(item);
                pos = pos + used;
            },
        }
        k = k + 1;
    }
    proof {
        assert(view_all(items@) + Seq::<Value>::empty() =~= view_all(items@));
    }
    Ok((items, pos))
}

/// Reads the value at the start of `input` and tells how many bytes it takes
/// up. Bytes that follow the value are not looked at. An array may hold
/// arrays to any depth that the length of the input allows.
pub fn deserialize_helper(input: &[u8]) -> (res: Result<(DataType, usize), Error>)
    ensures
        match parse(input@) {
            Ok((value, used)) => res matches Ok((d, n)) && d@ == value && n == used,
            Err(e) => res matches Err(err) && err@ == e,
        },
    decreases input@.len(), 1nat,
{
    if input.len() == 0 {
        return Err(Error::EmptyInput);
    }
    let tag: u8 = input[0];
    if tag == 43 {
        match parse_simple_string(input) {
            Ok((text, used)) => Ok((DataType::SimpleString(text), used)),
            Err(e) => Err(e),
        }
    } else if tag == 45 {
        match parse_simple_string(input) {
            Ok((text, used)) => Ok((DataType::Error(text), used)),
            Err(e) => Err(e),
        }
    } else if tag == 58 {
        match parse_length(input) {
            Ok((n, used)) => Ok((DataType::Integer(n), used)),
            Err(e) => Err(e),
        }
    } else if tag == 36 {
        proof {
            lemma_find_crlf(input@, 1);
        }
        match parse_length(input) {
            Ok((n, start)) => {
                if n == -1 {
                    Ok((DataType::BulkString(None), start))
                } else if n < 0 {
                    Err(parse_error("negative length"))
                } else {
                    match parse_bulk_string(input, start, n) {
                        Ok((text, used)) => Ok((DataType::BulkString(Some(text)), used)),
                        Err(e) => Err(e),
                    }
                }
            },
            Err(e) => Err(e),
        }
    } else if tag == 42 {
        proof {
            lemma_find_crlf(input@, 1);
        }
        match parse_length(input) {
            Ok((n, start)) => {
                if n == -1 {
                    Ok((DataType::Array(None), start))
                } else if n < 0 {
                    Err(parse_error("negative length"))
                } else {
                    match parse_array_items(input, start, n as u64) {
                        Ok((items, used)) => Ok((DataType::Array(Some(items)), used)),
                        Err(e) => Err(e),
                    }
                }
            },
            Err(e) => Err(e),
        }
    } else {
        Err(Error::IdentifierInvalid)
    }
}

/// Reads the one value that `input` holds. Bytes that follow the value are
/// not looked at.
pub fn deserialize(input: &str) -> (res: Result<DataType, Error>)
    ensures
        match parse(encode_utf8(input@)) {
            Ok((value, _)) => res matches Ok(d) && d@ == value,
            Err(e) => res matches Err(err) && err@ == e,
        },
{
    match deserialize_helper(input.as_bytes()) {
        Ok((value, _)) => Ok(value),
        Err(e) => Err(e),
    }
}

} // verus!
