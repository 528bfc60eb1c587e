//! Writing values as bytes.

use vstd::prelude::*;
use vstd::utf8::encode_utf8;
use crate::decimal::{append_i64, append_usize};
use crate::error::Error;
use crate::text::string_from_utf8;
use crate::value::{view_all, DataType, Value};
use crate::wire::{crlf, encode, encode_all, lemma_encode_all_push, lemma_encode_is_utf8};

verus! {

/// Appends a line end to `out`.
fn append_crlf(out: &mut Vec<u8>)
    ensures
        final(out)@ == old(out)@ + crlf(),
{
    out.push(13);
    out.push(10);
    proof {
        assert(final(out)@ =~= old(out)@ + crlf());
    }
}

/// Appends the bytes of `text` to `out`.
fn append_text(out: &mut Vec<u8>, text: &String)
    ensures
        final(out)@ == old(out)@ + encode_utf8(text@),
{
    out.extend_from_slice(text.as_str().as_bytes());
}

/// Appends the encoding of `input` to `out`.
pub fn encode_into(input: &DataType, out: &mut Vec<u8>)
    ensures
        final(out)@ == old(out)@ + encode(input@),
    decreases input,
{
    match input {
        DataType::SimpleString(s) => {
            out.push(43);
            append_text(out, s);
            append_crlf(out);
            proof {
                assert(final(out)@ =~= old(out)@ + encode(input@));
            }
        },
        DataType::Error(s) => {
            out.push(45);
            append_text(out, s);
            append_crlf(out);
            proof {
                assert(final(out)@ =~= old(out)@ + encode(input@));
            }
        },
        DataType::Integer(n) => {
            out.push(58);
            append_i64(out, *n);
            append_crlf(out);
            proof {
                assert(final(out)@ =~= old(out)@ + encode(input@));
            }
        },
        DataType::BulkString(Some(s)) => {
            out.push(36);
            append_usize(out, s.as_str().as_bytes().len());
            append_crlf(out);
            append_text(out, s);
            append_crlf(out);
            proof {
                assert(final(out)@ =~= old(out)@ + encode(input@));
            }
        },
        DataType::BulkString(None) => {
            out.push(36);
            append_i64(out, -1);
            append_crlf(out);
            proof {
                assert(final(out)@ =~= old(out)@ + encode(input@));
            }
        },
        DataType::Array(Some(items)) => {
            out.push(42);
            append_usize(out, items.len());
            append_crlf(out);
            let ghost head = out@;
            let ghost all = view_all(items@);
            proof {
                assert(all.take(0) =~= Seq::<Value>::empty());
                assert(head =~= head + encode_all(all.take(0)));
            }
            let mut i: usize = 0;
            while i < items.len()
                invariant
                    i <= items.len(),
                    all == view_all(items@),
                    decreases_to!(*input => *items),
                    out@ == head + encode_all(all.take(i as int)),
                decreases items.len() - i,
            {

                encode_into(&items[i], out);
                proof {
                    lemma_encode_all_push(all.take(i as int), items[i as int]@);
                    assert(all.take(i + 1) =~= all.take(i as int).push(items[i as int]@));
                    assert(out@ =~= head + encode_all(all.take(i + 1)));
                }
                i = i + 1;
            }
            proof {
                assert(all.take(i as int) =~= all);
                assert(final(out)@ =~= old(out)@ + encode(input@));
            }
        },
        DataType::Array(None) => {
            out.push(42);
            append_i64(out, -1);
            append_crlf(out);
            proof {
                assert(final(out)@ =~= old(out)@ + encode(input@));
            }
        },
    }
}

/// Writes a value as text, ready to be sent. It never fails.
pub fn serialize(input: &DataType) -> (res: Result<String, Error>)
    ensures
        res matches Ok(s) && encode_utf8(s@) == encode(input@),
{
    let mut out: Vec<u8> = Vec::new();
    encode_into(input, &mut out);
    proof {
        lemma_encode_is_utf8(input@);
        assert(out@ =~= encode(input@));
    }
    Ok(string_from_utf8(out).unwrap())
}

} // verus!
