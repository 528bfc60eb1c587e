//! What the store holds: a value with the time at which it lapses, and the
//! rules of reading, replacing and counting over a map of such entries.

use vstd::prelude::*;
use vstd::utf8::encode_utf8;
use crate::decimal::{
    decimal, decimal_text, i64_value, lemma_decimal_is_ascii, lemma_signed_value_of_decimal,
};
use crate::text::lemma_ascii_is_utf8;

verus! {

/// An entry of the store, as the contracts speak of it.
pub struct Entry {
    /// The characters of the value.
    pub value: Seq<char>,
    /// The time, in milliseconds since the epoch, after which the entry counts
    /// as gone; `None` for an entry that never lapses.
    pub expires_at: Option<u128>,
}

/// The store, as the contracts speak of it: a map from the characters of a key
/// to its entry.
pub type Store = Map<Seq<char>, Entry>;

/// An entry of the store, as the program holds it.
#[derive(Debug)]
pub struct ExpireValue {
    pub value: String,
    pub exp: Option<u128>,
}

impl View for ExpireValue {
    type V = Entry;

    open spec fn view(&self) -> Entry {
        Entry { value: self.value@, expires_at: self.exp }
    }
}

/// Whether an entry has lapsed at the time `now`: it has once the time is past
/// its expiry, and never if it has none.
pub open spec fn expired(entry: Entry, now: u128) -> bool {
    match entry.expires_at {
        Some(at) => now > at,
        None => false,
    }
}

/// What a reader finds under `key` at the time `now`: the value of an entry
/// that is there and has not lapsed.
pub open spec fn found(store: Store, key: Seq<char>, now: u128) -> Option<Seq<char>> {
    if store.contains_key(key) && !expired(store[key], now) {
        Some(store[key].value)
    } else {
        None
    }
}

/// The store after a reader looked under `key` at the time `now`: an entry that
/// had lapsed is gone, and nothing else has changed.
pub open spec fn observed(store: Store, key: Seq<char>, now: u128) -> Store {
    if store.contains_key(key) && expired(store[key], now) {
        store.remove(key)
    } else {
        store
    }
}

/// The number that an entry holds, if its value is the decimal text of a
/// signed 64-bit integer.
pub open spec fn stored_number(entry: Entry) -> Option<i64> {
    i64_value(encode_utf8(entry.value))
}

/// The number that `key` holds once `delta` is added to it: `delta` itself for
/// a key that is not there; nothing where the value is no number or the sum
/// does not fit 64 bits.
pub open spec fn bumped(store: Store, key: Seq<char>, delta: int) -> Option<i64> {
    if !store.contains_key(key) {
        if i64::MIN <= delta <= i64::MAX {
            Some(delta as i64)
        } else {
            None
        }
    } else {
        match stored_number(store[key]) {
            Some(n) => if i64::MIN <= n + delta <= i64::MAX {
                Some((n + delta) as i64)
            } else {
                None
            },
            None => None,
        }
    }
}

/// The store after `delta` was added to the number under `key`: the key holds
/// the decimal text of the sum and keeps its expiry (a new key has none).
/// Where there is no sum the store is unchanged.
pub open spec fn bumped_store(store: Store, key: Seq<char>, delta: int) -> Store {
    match bumped(store, key, delta) {
        Some(n) => store.insert(
            key,
            Entry {
                value: decimal_text(n as int),
                expires_at: if store.contains_key(key) {
                    store[key].expires_at
                } else {
                    None
                },
            },
        ),
        None => store,
    }
}

impl ExpireValue {
    /// An entry that never lapses.
    pub fn no_expire(value: String) -> (e: Self)
        ensures
            e@ == (Entry { value: value@, expires_at: None }),
    {
        ExpireValue { value, exp: None }
    }

    /// An entry that lapses `exp` seconds after `now`.
    pub fn expire_seconds(value: String, exp: u128, now: u128) -> (e: Self)
        requires
            now + exp * 1000 <= u128::MAX,
        ensures
            e@ == (Entry { value: value@, expires_at: Some((now + exp * 1000) as u128) }),
    {
        ExpireValue { value, exp: Some(now + exp * 1000) }
    }

    /// An entry that lapses `exp` milliseconds after `now`.
    pub fn expire_millis(value: String, exp: u128, now: u128) -> (e: Self)
        requires
            now + exp <= u128::MAX,
        ensures
            e@ == (Entry { value: value@, expires_at: Some((now + exp) as u128) }),
    {
        ExpireValue { value, exp: Some(now + exp) }
    }

    /// An entry that lapses at the second `exp` since the epoch.
    pub fn specific_expire_seconds(value: String, exp: u128) -> (e: Self)
        requires
            exp * 1000 <= u128::MAX,
        ensures
            e@ == (Entry { value: value@, expires_at: Some((exp * 1000) as u128) }),
    {
        ExpireValue { value, exp: Some(exp * 1000) }
    }

    /// An entry that lapses at the millisecond `exp` since the epoch.
    pub fn specific_expire_millis(value: String, exp: u128) -> (e: Self)
        ensures
            e@ == (Entry { value: value@, expires_at: Some(exp) }),
    {
        ExpireValue { value, exp: Some(exp) }
    }

    /// Tells whether the entry has lapsed at the time `now`.
    pub fn is_expire(&self, now: u128) -> (gone: bool)
        ensures
            gone == expired(self@, now),
    {
        match self.exp {
            Some(at) => now > at,
            None => false,
        }
    }
}

/// The decimal text of a 64-bit number is read back as that number.
pub proof fn lemma_stored_number(n: i64, expires_at: Option<u128>)
    ensures
        stored_number(Entry { value: decimal_text(n as int), expires_at }) == Some(n),
{
    broadcast use vstd::utf8::decode_utf8_encode_utf8;

    lemma_decimal_is_ascii(n as int);
    lemma_ascii_is_utf8(decimal(n as int));
    lemma_signed_value_of_decimal(n as int);
}

/// A counter that is not there starts from zero: adding one gives 1, taking
/// one off gives -1, and the key then holds that number and never lapses.
pub proof fn lemma_counter_starts(store: Store, key: Seq<char>)
    requires
        !store.contains_key(key),
    ensures
        bumped(store, key, 1) == Some(1i64),
        bumped(store, key, -1) == Some(-1i64),
        bumped_store(store, key, 1) == store.insert(
            key,
            Entry { value: decimal_text(1), expires_at: None },
        ),
        bumped_store(store, key, -1) == store.insert(
            key,
            Entry { value: decimal_text(-1), expires_at: None },
        ),
{
}

/// Adding to a value that is no number gives nothing and leaves the store as
/// it was.
pub proof fn lemma_counter_refuses(store: Store, key: Seq<char>, delta: int)
    requires
        store.contains_key(key),
        stored_number(store[key]) is None,
    ensures
        bumped(store, key, delta) is None,
        bumped_store(store, key, delta) == store,
{
}

/// Two additions to one key, one after the other, never give the same
/// number: the second sees what the first stored.
pub proof fn lemma_counter_steps(store: Store, key: Seq<char>, delta: int)
    requires
        delta == 1 || delta == -1,
    ensures
        ({
            let first = bumped(store, key, delta);
            let second = bumped(bumped_store(store, key, delta), key, delta);
            first is Some && second is Some ==> second.unwrap() == first.unwrap() + delta
        }),
{
    if let Some(n) = bumped(store, key, delta) {
        let next = bumped_store(store, key, delta);
        lemma_stored_number(n, next[key].expires_at);
    }
}

} // verus!
