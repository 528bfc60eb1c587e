//! A line typed by a user, split into the words of a request.

use vstd::prelude::*;
use crate::value::{view_all, DataType, Value};

verus! {

/// What `char::is_alphanumeric` of the standard library answers for a
/// character: whether Unicode counts it as a letter or a number.
pub uninterp spec fn alphanumeric(c: char) -> bool;

/// `char::is_alphanumeric` of the standard library. Its answer depends on the
/// character alone.
#[verifier::external_body]
fn is_alphanumeric(c: char) -> (answer: bool)
    ensures
        answer == alphanumeric(c),
{
    c.is_alphanumeric()
}

/// `String::push` of the standard library: the character is added at the end.
#[verifier::external_body]
fn push_char(text: &mut String, c: char)
    ensures
        final(text)@ == old(text)@.push(c),
{
    text.push(c)
}

/// Where a reader of a line stands: the words that are complete, the word
/// that is being read, and whether a quotation is open.
pub struct Scan {
    pub done: Seq<Seq<char>>,
    pub word: Seq<char>,
    pub quoted: bool,
}

/// What one more character does. A space outside a quotation ends the word
/// that is being read, if there is one. A quotation mark opens a quotation,
/// or closes it and ends the word, be it empty. A letter or a number, and a
/// space inside a quotation, join the word. Anything else is dropped.
pub open spec fn scan_step(st: Scan, c: char) -> Scan {
    if c == ' ' && st.word.len() > 0 && !st.quoted {
        Scan { done: st.done.push(st.word), word: Seq::empty(), quoted: false }
    } else if c == '"' {
        if st.quoted {
            Scan { done: st.done.push(st.word), word: Seq::empty(), quoted: false }
        } else {
            Scan { done: st.done, word: st.word, quoted: true }
        }
    } else if alphanumeric(c) || (c == ' ' && st.quoted) {
        Scan { done: st.done, word: st.word.push(c), quoted: st.quoted }
    } else {
        st
    }
}

/// Where the reader stands after the characters of `line`.
pub open spec fn scan(line: Seq<char>) -> Scan
    decreases line.len(),
{
    if line.len() == 0 {
        Scan { done: Seq::empty(), word: Seq::empty(), quoted: false }
    } else {
        scan_step(scan(line.drop_last()), line.last())
    }
}

/// The words of a line. A word that the end of the line cuts off counts,
/// unless it stands in a quotation that was never closed.
pub open spec fn words(line: Seq<char>) -> Seq<Seq<char>> {
    let st = scan(line);
    if st.word.len() > 0 && !st.quoted {
        st.done.push(st.word)
    } else {
        st.done
    }
}

/// Each word as a bulk string.
pub open spec fn bulk_strings(texts: Seq<Seq<char>>) -> Seq<Value> {
    Seq::new(texts.len(), |i: int| Value::BulkString(Some(texts[i])))
}

/// Moves the word that is being read to the end of `items`.
fn end_word(items: &mut Vec<DataType>, word: &mut String)
    ensures
        final(items)@.len() == old(items)@.len() + 1,
        view_all(final(items)@) == view_all(old(items)@).push(
            Value::BulkString(Some(old(word)@)),
        ),
        final(word)@ == Seq::<char>::empty(),
{
    let mut text = String::new();
    std::mem::swap(&mut text, word);
    items.push(DataType::BulkString(Some(text)));
    proof {
        assert(view_all(final(items)@) =~= view_all(old(items)@).push(
            Value::BulkString(Some(old(word)@)),
        ));
    }
}

/// Splits a line into words and makes each a bulk string: the items of the
/// request that the line asks for.
pub fn request_items(line: &str) -> (items: Vec<DataType>)
    ensures
        view_all(items@) == bulk_strings(words(line@)),
{
    let mut items: Vec<DataType> = Vec::new();
    let mut word = String::new();
    let mut quoted = false;
    proof {
        assert(line@.take(0) =~= Seq::<char>::empty());
        assert(view_all(items@) =~= bulk_strings(scan(line@.take(0)).done));
    }
    for c in iter: line.chars()
        invariant
            iter.seq() == line@,
            view_all(items@) == bulk_strings(scan(line@.take(iter.index() as int)).done),
            word@ == scan(line@.take(iter.index() as int)).word,
            quoted == scan(line@.take(iter.index() as int)).quoted,
    {
        let ghost before = scan(line@.take(iter.index() as int));
        let ghost after = scan(line@.take(iter.index() + 1));
        proof {
            let now = line@.take(iter.index() + 1);
            assert(now.drop_last() =~= line@.take(iter.index() as int));
            assert(now.last() == c);
            assert(after == scan_step(before, c));
        }
        if c == ' ' && !word.as_str().is_empty() && !quoted {
            end_word(&mut items, &mut word);
        } else if c == '"' {
            if quoted {
                end_word(&mut items, &mut word);
            }
            quoted = !quoted;
        } else if is_alphanumeric(c) || (c == ' ' && quoted) {
            push_char(&mut word, c);
        }
        proof {
            assert(view_all(items@) =~= bulk_strings(after.done));
        }
    }
    proof {
        assert(line@.take(line@.len() as int) =~= line@);
    }
    if !word.as_str().is_empty() && !quoted {
        end_word(&mut items, &mut word);
    }
    proof {
        assert(view_all(items@) =~= bulk_strings(words(line@)));
    }
    items
}

} // verus!
