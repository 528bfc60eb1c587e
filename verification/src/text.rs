//! Text and the bytes that hold it.

use vstd::prelude::*;
use vstd::slice::{slice_subrange, slice_to_vec};
use vstd::utf8::{
    decode_utf8, encode_utf8, partial_valid_utf8, partial_valid_utf8_extend_ascii_block, valid_utf8,
};

verus! {

/// `String::from_utf8` of the standard library: it succeeds on the byte
/// sequences that are UTF-8 and on no others, and the string that it returns
/// is made of the bytes it was given. What counts as UTF-8 is taken to be
/// what `valid_utf8` of vstd says, and the bytes of a string to be the
/// `encode_utf8` of its characters, as vstd takes them to be for `str`.
#[verifier::external_body]
pub(crate) fn string_from_utf8(bytes: Vec<u8>) -> (res: Option<String>)
    ensures
        res is Some <==> valid_utf8(bytes@),
        res matches Some(s) ==> encode_utf8(s@) == bytes@,
{
    match String::from_utf8(bytes) {
        Ok(s) => Some(s),
        Err(_) => None,
    }
}

/// The text that the bytes of `input` from `from` up to `to` hold, if they are
/// UTF-8.
pub(crate) fn text_of(input: &[u8], from: usize, to: usize) -> (res: Option<String>)
    requires
        from <= to <= input@.len(),
    ensures
        match res {
            Some(s) => valid_utf8(input@.subrange(from as int, to as int)) && s@ == decode_utf8(
                input@.subrange(from as int, to as int),
            ),
            None => !valid_utf8(input@.subrange(from as int, to as int)),
        },
{
    broadcast use vstd::utf8::encode_utf8_decode_utf8;

    let bytes: Vec<u8> = slice_to_vec(slice_subrange(input, from, to));
    string_from_utf8(bytes)
}

/// Whether every byte of `s` is an ASCII character.
pub open spec fn is_ascii_bytes(s: Seq<u8>) -> bool {
    forall|i: int| 0 <= i < s.len() ==> #[trigger] s[i] <= 0x7f
}

/// Bytes that are all ASCII are UTF-8.
pub proof fn lemma_ascii_is_utf8(s: Seq<u8>)
    requires
        is_ascii_bytes(s),
    ensures
        valid_utf8(s),
{
    assert(s.subrange(0, 0) =~= Seq::<u8>::empty());
    assert(partial_valid_utf8(s, 0));
    partial_valid_utf8_extend_ascii_block(s, 0, s.len() as int);
    assert(s.subrange(0, s.len() as int) =~= s);
}

/// Tells whether two runs of bytes are the same.
fn bytes_eq(a: &[u8], b: &[u8]) -> (same: bool)
    ensures
        same == (a@ == b@),
{
    if a.len() != b.len() {
        return false;
    }
    let mut i: usize = 0;
    while i < a.len()
        invariant
            i <= a@.len(),
            a@.len() == b@.len(),
            forall|j: int| 0 <= j < i ==> a@[j] == b@[j],
        decreases a@.len() - i,
    {
        if a[i] != b[i] {
            return false;
        }
        i = i + 1;
    }
    proof {
        assert(a@ =~= b@);
    }
    true
}

/// Tells whether two texts are made of the same characters.
pub fn text_eq(a: &str, b: &str) -> (same: bool)
    ensures
        same == (a@ == b@),
{
    broadcast use vstd::utf8::encode_utf8_decode_utf8;

    let same = bytes_eq(a.as_bytes(), b.as_bytes());
    proof {
        if same {
            assert(decode_utf8(encode_utf8(a@)) == decode_utf8(encode_utf8(b@)));
        }
    }
    same
}

} // verus!
