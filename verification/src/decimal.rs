//! Decimal numbers as they appear on the wire: ASCII digits, most significant
//! first, with an optional sign in front.

use vstd::prelude::*;
use vstd::utf8::decode_utf8;
use crate::text::{is_ascii_bytes, lemma_ascii_is_utf8, string_from_utf8};

verus! {

/// Whether `b` is one of the ASCII digits `0` to `9`.
pub open spec fn is_digit(b: u8) -> bool {
    48 <= b <= 57
}

/// Whether every byte of `s` is an ASCII digit.
pub open spec fn all_digits(s: Seq<u8>) -> bool {
    forall|i: int| 0 <= i < s.len() ==> is_digit(#[trigger] s[i])
}

/// The number that a string of digits denotes in base ten (0 for the empty string).
pub open spec fn digits_value(s: Seq<u8>) -> nat
    decreases s.len(),
{
    if s.len() == 0 {
        0
    } else {
        digits_value(s.drop_last()) * 10 + (s.last() - 48) as nat
    }
}

/// The digits of `n` in base ten, without leading zeros (`0` itself is one digit).
pub open spec fn digits_of(n: nat) -> Seq<u8>
    decreases n,
{
    if n < 10 {
        seq![(48 + n) as u8]
    } else {
        digits_of(n / 10).push((48 + n % 10) as u8)
    }
}

/// The decimal text of an integer: a minus sign for a negative number, then its digits.
pub open spec fn decimal(n: int) -> Seq<u8> {
    if n < 0 {
        seq![45u8] + digits_of((-n) as nat)
    } else {
        digits_of(n as nat)
    }
}

/// The integer that a signed decimal field denotes: an optional `+` or `-`,
/// then one digit or more. Anything else denotes nothing.
pub open spec fn signed_value(s: Seq<u8>) -> Option<int> {
    if s.len() > 0 && s[0] == 45 {
        let d = s.subrange(1, s.len() as int);
        if d.len() > 0 && all_digits(d) {
            Some(-(digits_value(d) as int))
        } else {
            None
        }
    } else {
        match unsigned_value(s) {
            Some(n) => Some(n as int),
            None => None,
        }
    }
}

/// The number that an unsigned decimal field denotes: an optional `+`, then
/// one digit or more. A minus sign is not accepted, not even before zero.
pub open spec fn unsigned_value(s: Seq<u8>) -> Option<nat> {
    if s.len() > 0 && s[0] == 43 {
        let d = s.subrange(1, s.len() as int);
        if d.len() > 0 && all_digits(d) {
            Some(digits_value(d))
        } else {
            None
        }
    } else if s.len() > 0 && all_digits(s) {
        Some(digits_value(s))
    } else {
        None
    }
}

/// What a decimal field holds when read as a signed 64-bit integer: its
/// value, if it denotes one and that fits.
pub open spec fn i64_value(s: Seq<u8>) -> Option<i64> {
    match signed_value(s) {
        Some(n) => if i64::MIN <= n <= i64::MAX {
            Some(n as i64)
        } else {
            None
        },
        None => None,
    }
}

/// What a decimal field holds when read as an unsigned 128-bit integer.
pub open spec fn u128_value(s: Seq<u8>) -> Option<u128> {
    match unsigned_value(s) {
        Some(n) => if n <= u128::MAX {
            Some(n as u128)
        } else {
            None
        },
        None => None,
    }
}

/// The digits of a number are digits, there is at least one, and they denote
/// the number.
pub proof fn lemma_digits_of(n: nat)
    ensures
        digits_of(n).len() >= 1,
        all_digits(digits_of(n)),
        digits_value(digits_of(n)) == n,
    decreases n,
{
    if n < 10 {
        let s = digits_of(n);
        assert(s.drop_last() =~= Seq::<u8>::empty());
        assert(digits_value(s.drop_last()) == 0);
    } else {
        lemma_digits_of(n / 10);
        let s = digits_of(n);
        let head = digits_of(n / 10);
        assert(s.drop_last() =~= head);
        assert(s.last() == (48 + n % 10) as u8);
        assert forall|i: int| 0 <= i < s.len() implies is_digit(#[trigger] s[i]) by {
            if i < head.len() {
                assert(s[i] == head[i]);
            }
        }
    }
}

/// Reading the decimal text of an integer gives the integer back.
pub proof fn lemma_signed_value_of_decimal(n: int)
    ensures
        signed_value(decimal(n)) == Some(n),
{
    if n < 0 {
        let m = (-n) as nat;
        lemma_digits_of(m);
        let s = decimal(n);
        assert(s.subrange(1, s.len() as int) =~= digits_of(m));
    } else {
        lemma_digits_of(n as nat);
        let s = decimal(n);
        assert(is_digit(s[0]));
    }
}

/// The decimal text of an integer holds neither a carriage return nor a line feed.
pub proof fn lemma_decimal_has_no_line_break(n: int)
    ensures
        forall|i: int| 0 <= i < decimal(n).len() ==> #[trigger] decimal(n)[i] != 13 && decimal(n)[i] != 10,
{
    let m = if n < 0 { (-n) as nat } else { n as nat };
    lemma_digits_of(m);
    let s = decimal(n);
    assert forall|i: int| 0 <= i < s.len() implies #[trigger] s[i] != 13 && s[i] != 10 by {
        if n < 0 {
            if i > 0 {
                assert(s[i] == digits_of(m)[i - 1]);
                assert(is_digit(digits_of(m)[i - 1]));
            }
        } else {
            assert(is_digit(digits_of(m)[i]));
        }
    }
}

/// A string of digits denotes no less than any of its prefixes does.
pub proof fn lemma_digits_value_grows(s: Seq<u8>, k: int)
    requires
        all_digits(s),
        0 <= k <= s.len(),
    ensures
        digits_value(s.take(k)) <= digits_value(s),
    decreases s.len() - k,
{
    if k == s.len() {
        assert(s.take(k) =~= s);
    } else {
        lemma_digits_value_grows(s, k + 1);
        let t = s.take(k + 1);
        assert(t.drop_last() =~= s.take(k));
        assert(is_digit(s[k]));
        assert(t.last() == s[k]);
    }
}

/// Reads the digits of `s` from `from` up to `to` as a number no greater than `limit`.
fn read_digits(s: &[u8], from: usize, to: usize, limit: u128) -> (r: Option<u128>)
    requires
        from <= to <= s@.len(),
    ensures
        r == if from < to && all_digits(s@.subrange(from as int, to as int)) && digits_value(
            s@.subrange(from as int, to as int),
        ) <= limit {
            Some(digits_value(s@.subrange(from as int, to as int)) as u128)
        } else {
            None::<u128>
        },
{
    if from >= to {
        return None;
    }
    let ghost field = s@.subrange(from as int, to as int);
    let mut acc: u128 = 0;
    let mut i: usize = from;
    while i < to
        invariant
            from <= i <= to <= s@.len(),
            field == s@.subrange(from as int, to as int),
            all_digits(field.take(i - from)),
            acc == digits_value(field.take(i - from)),
            acc <= limit,
        decreases to - i,
    {
        let b: u8 = s[i];
        let ghost seen = field.take(i - from);
        let ghost next = field.take(i - from + 1);
        proof {
            assert(next.drop_last() =~= seen);
            assert(next.last() == b);
        }
        if b < 48 || b > 57 {
            proof {
                assert(field[i - from] == b);
            }
            return None;
        }
        let d: u128 = (b - 48) as u128;
        proof {
            assert forall|j: int| 0 <= j < next.len() implies is_digit(#[trigger] next[j]) by {
                if j < seen.len() {
                    assert(next[j] == seen[j]);
                }
            }
        }
        if d > limit || acc > (limit - d) / 10 {
            proof {
                assert(acc * 10 + d > limit) by (nonlinear_arith)
                    requires
                        d > limit || (d <= limit && acc > (limit - d) / 10),
                        0 <= d,
                        0 <= acc,
                ;
                if all_digits(field) {
                    lemma_digits_value_grows(field, i - from + 1);
                }
            }
            return None;
        }
        proof {
            assert(acc * 10 + d <= limit) by (nonlinear_arith)
                requires
                    acc <= (limit - d) / 10,
                    0 <= d <= limit,
            ;
        }
        acc = acc * 10 + d;
        i = i + 1;
    }
    proof {
        assert(field.take(i - from) =~= field);
    }
    Some(acc)
}

/// Reads a whole field as a signed 64-bit integer.
pub fn parse_i64(s: &[u8]) -> (r: Option<i64>)
    ensures
        r == i64_value(s@),
{
    let n: usize = s.len();
    if n == 0 {
        return None;
    }
    let first: u8 = s[0];
    if first == 45 {
        proof {
            assert(s@.subrange(1, n as int).len() == n - 1);
        }
        match read_digits(s, 1, n, 0x8000_0000_0000_0000u128) {
            Some(m) => {
                if m == 0x8000_0000_0000_0000u128 {
                    Some(i64::MIN)
                } else {
                    Some(-(m as i64))
                }
            },
            None => None,
        }
    } else {
        let from: usize = if first == 43 {
            1
        } else {
            0
        };
        proof {
            assert(s@.subrange(0, n as int) =~= s@);
            assert(s@.subrange(1, n as int).len() == n - 1);
        }
        match read_digits(s, from, n, 0x7fff_ffff_ffff_ffffu128) {
            Some(m) => Some(m as i64),
            None => None,
        }
    }
}

/// Reads a whole field as an unsigned 128-bit integer.
pub fn parse_u128(s: &[u8]) -> (r: Option<u128>)
    ensures
        r == u128_value(s@),
{
    let n: usize = s.len();
    if n == 0 {
        return None;
    }
    let from: usize = if s[0] == 43 {
        1
    } else {
        0
    };
    proof {
        assert(s@.subrange(0, n as int) =~= s@);
        assert(s@.subrange(1, n as int).len() == n - 1);
    }
    read_digits(s, from, n, u128::MAX)
}

/// Appends the digits of `n` to `out`.
pub fn append_digits(out: &mut Vec<u8>, n: u128)
    ensures
        final(out)@ == old(out)@ + digits_of(n as nat),
    decreases n,
{
    if n >= 10 {
        append_digits(out, n / 10);
    }
    let d: u8 = (n % 10) as u8;
    out.push(48 + d);
    proof {
        if n < 10 {
            assert(final(out)@ =~= old(out)@ + digits_of(n as nat));
        } else {
            assert(final(out)@ =~= old(out)@ + digits_of(n as nat));
        }
    }
}

/// Appends the decimal text of `n` to `out`.
pub fn append_i64(out: &mut Vec<u8>, n: i64)
    ensures
        final(out)@ == old(out)@ + decimal(n as int),
{
    if n < 0 {
        out.push(45);
        let m: u128 = (-(n as i128)) as u128;
        append_digits(out, m);
        proof {
            assert(final(out)@ =~= old(out)@ + decimal(n as int));
        }
    } else {
        append_digits(out, n as u128);
    }
}

/// Appends the decimal text of a length to `out`.
pub fn append_usize(out: &mut Vec<u8>, n: usize)
    ensures
        final(out)@ == old(out)@ + decimal(n as int),
{
    append_digits(out, n as u128);
}

/// The decimal text of an integer, as characters.
pub open spec fn decimal_text(n: int) -> Seq<char> {
    decode_utf8(decimal(n))
}

/// The decimal text of an integer is ASCII.
pub proof fn lemma_decimal_is_ascii(n: int)
    ensures
        is_ascii_bytes(decimal(n)),
{
    let m = if n < 0 { (-n) as nat } else { n as nat };
    lemma_digits_of(m);
    let s = decimal(n);
    assert forall|i: int| 0 <= i < s.len() implies #[trigger] s[i] <= 0x7f by {
        if n < 0 {
            if i > 0 {
                assert(s[i] == digits_of(m)[i - 1]);
                assert(is_digit(digits_of(m)[i - 1]));
            }
        } else {
            assert(is_digit(digits_of(m)[i]));
        }
    }
}

/// The decimal text of `n`.
pub fn number_text(n: i64) -> (text: String)
    ensures
        text@ == decimal_text(n as int),
{
    broadcast use vstd::utf8::encode_utf8_decode_utf8;

    let mut out: Vec<u8> = Vec::new();
    append_i64(&mut out, n);
    proof {
        assert(out@ =~= decimal(n as int));
        lemma_decimal_is_ascii(n as int);
        lemma_ascii_is_utf8(decimal(n as int));
    }
    string_from_utf8(out).unwrap()
}


} // verus!
