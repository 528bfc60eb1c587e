//! The command grammar: what each command does to the store and what it
//! answers.

use vstd::prelude::*;
use vstd::utf8::encode_utf8;
use crate::decimal::u128_value;
use crate::store::{bumped, bumped_store, expired, found, observed, Entry, Store};
use crate::value::Value;
use crate::wire::parse;

verus! {

/// The answer to a `set` that was carried out.
pub open spec fn ok_reply() -> Value {
    Value::SimpleString("OK"@)
}

/// The one answer to everything that is no command: an unknown name, a wrong
/// number of arguments, an argument of the wrong kind, a bad expiry.
pub open spec fn unrecognized() -> Value {
    Value::Error("ERR command not recognized"@)
}

/// The answer to `incr` or `decr` on a value that is no number, or whose sum
/// does not fit 64 bits.
pub open spec fn not_an_integer() -> Value {
    Value::Error("ERR value is not an integer or out of range"@)
}

/// The answer to a request that could not be read.
pub open spec fn unreadable() -> Value {
    Value::Error("ERR error parsing data"@)
}

/// The text of an argument: that of a bulk string that is not null.
pub open spec fn bulk_text(v: Value) -> Option<Seq<char>> {
    match v {
        Value::BulkString(Some(text)) => Some(text),
        _ => None,
    }
}

/// The time at which an entry lapses that is set at `now` with the flag
/// `flag` and the number `ttl`: `EX` and `PX` count seconds and milliseconds
/// from `now`, `EXAT` and `PXAT` give the second and the millisecond itself.
/// Nothing for another flag, nor for a time that does not fit 128 bits.
pub open spec fn expiry_time(flag: Seq<char>, ttl: u128, now: u128) -> Option<u128> {
    let at: Option<int> = if flag == "EX"@ {
        Some(now + ttl * 1000)
    } else if flag == "PX"@ {
        Some(now + ttl)
    } else if flag == "EXAT"@ {
        Some(ttl * 1000)
    } else if flag == "PXAT"@ {
        Some(ttl as int)
    } else {
        None
    };
    match at {
        Some(t) => if t <= u128::MAX {
            Some(t as u128)
        } else {
            None
        },
        None => None,
    }
}

/// The entry that `set` stores: the value, and the expiry that the flag and
/// the number after it ask for, if they are there. Nothing where they are
/// malformed.
pub open spec fn set_entry(items: Seq<Value>, now: u128) -> Option<Entry> {
    if items.len() == 3 {
        match bulk_text(items[2]) {
            Some(value) => Some(Entry { value, expires_at: None }),
            None => None,
        }
    } else if items.len() == 5 {
        match (bulk_text(items[2]), bulk_text(items[3]), bulk_text(items[4])) {
            (Some(value), Some(flag), Some(number)) => match u128_value(encode_utf8(number)) {
                Some(ttl) => match expiry_time(flag, ttl, now) {
                    Some(at) => Some(Entry { value, expires_at: Some(at) }),
                    None => None,
                },
                None => None,
            },
            _ => None,
        }
    } else {
        None
    }
}

/// `set key value [flag number]`.
pub open spec fn set_outcome(store: Store, items: Seq<Value>, now: u128) -> (Store, Value) {
    if items.len() == 3 || items.len() == 5 {
        match (bulk_text(items[1]), set_entry(items, now)) {
            (Some(key), Some(entry)) => (store.insert(key, entry), ok_reply()),
            _ => (store, unrecognized()),
        }
    } else {
        (store, unrecognized())
    }
}

/// `get key`.
pub open spec fn get_outcome(store: Store, items: Seq<Value>, now: u128) -> (Store, Value) {
    if items.len() == 2 {
        match bulk_text(items[1]) {
            Some(key) => (observed(store, key, now), Value::BulkString(found(store, key, now))),
            None => (store, unrecognized()),
        }
    } else {
        (store, unrecognized())
    }
}

/// The store after each key of `keys` was looked under in turn at the time
/// `now`, and how many of the looks found a value. An item that is no bulk
/// string with a text is passed over.
pub open spec fn count_found(store: Store, keys: Seq<Value>, now: u128) -> (Store, int)
    decreases keys.len(),
{
    if keys.len() == 0 {
        (store, 0)
    } else {
        let (before, n) = count_found(store, keys.drop_last(), now);
        match bulk_text(keys.last()) {
            Some(key) => (
                observed(before, key, now),
                if found(before, key, now) is Some {
                    n + 1
                } else {
                    n
                },
            ),
            None => (before, n),
        }
    }
}

/// The store after each key of `keys` was removed in turn, and how many of
/// them held an entry, lapsed or not, when their turn came.
pub open spec fn count_removed(store: Store, keys: Seq<Value>) -> (Store, int)
    decreases keys.len(),
{
    if keys.len() == 0 {
        (store, 0)
    } else {
        let (before, n) = count_removed(store, keys.drop_last());
        match bulk_text(keys.last()) {
            Some(key) => (
                before.remove(key),
                if before.contains_key(key) {
                    n + 1
                } else {
                    n
                },
            ),
            None => (before, n),
        }
    }
}

/// A count as the number of a reply, which holds 64 bits.
pub open spec fn count_reply(n: int) -> Value {
    Value::Integer(
        if n <= i64::MAX {
            n
        } else {
            i64::MAX as int
        },
    )
}

/// `exists key...`.
pub open spec fn exists_outcome(store: Store, items: Seq<Value>, now: u128) -> (Store, Value) {
    if items.len() >= 2 {
        let (after, n) = count_found(store, items.subrange(1, items.len() as int), now);
        (after, count_reply(n))
    } else {
        (store, unrecognized())
    }
}

/// `del key...`.
pub open spec fn del_outcome(store: Store, items: Seq<Value>) -> (Store, Value) {
    if items.len() >= 2 {
        let (after, n) = count_removed(store, items.subrange(1, items.len() as int));
        (after, count_reply(n))
    } else {
        (store, unrecognized())
    }
}

/// `incr key` and `decr key`, which add `delta`.
pub open spec fn add_outcome(store: Store, items: Seq<Value>, delta: int) -> (Store, Value) {
    if items.len() == 2 {
        match bulk_text(items[1]) {
            Some(key) => match bumped(store, key, delta) {
                Some(n) => (bumped_store(store, key, delta), Value::Integer(n as int)),
                None => (store, not_an_integer()),
            },
            None => (store, unrecognized()),
        }
    } else {
        (store, unrecognized())
    }
}

/// What the command `items` does at the time `now`: the store after it, and
/// the answer. The first item names the command, in lower case.
pub open spec fn dispatch(store: Store, items: Seq<Value>, now: u128) -> (Store, Value) {
    if items.len() == 0 {
        (store, unrecognized())
    } else {
        match bulk_text(items[0]) {
            Some(name) => if name == "set"@ {
                set_outcome(store, items, now)
            } else if name == "get"@ {
                get_outcome(store, items, now)
            } else if name == "exists"@ {
                exists_outcome(store, items, now)
            } else if name == "del"@ {
                del_outcome(store, items)
            } else if name == "incr"@ {
                add_outcome(store, items, 1)
            } else if name == "decr"@ {
                add_outcome(store, items, -1)
            } else {
                (store, unrecognized())
            },
            None => (store, unrecognized()),
        }
    }
}

/// What a request does at the time `now`. Only an array that is not null is
/// a command.
pub open spec fn outcome(store: Store, request: Value, now: u128) -> (Store, Value) {
    match request {
        Value::Array(Some(items)) => dispatch(store, items, now),
        _ => (store, unrecognized()),
    }
}

/// What the bytes of a request do at the time `now`: what the value does
/// that they are read as; bytes that cannot be read change nothing and are
/// answered with an error.
pub open spec fn request_outcome(store: Store, input: Seq<u8>, now: u128) -> (Store, Value) {
    match parse(input) {
        Ok((request, _)) => outcome(store, request, now),
        Err(_) => (store, unreadable()),
    }
}

/// An entry that was set with an expiry reads as its value up to and at that
/// time. Past it the entry reads as absent, the read removes it, and it
/// stays absent for every reader after that.
pub proof fn lemma_expiry(store: Store, key: Seq<char>, value: Seq<char>, at: u128, now: u128, later: u128)
    ensures
        ({
            let set = store.insert(key, Entry { value, expires_at: Some(at) });
            &&& now <= at ==> found(set, key, now) == Some(value) && observed(set, key, now) == set
            &&& now > at ==> found(set, key, now) is None && !observed(set, key, now).contains_key(
                key,
            ) && found(observed(set, key, now), key, later) is None
        }),
{
}

/// Removing a key that holds no entry counts nothing and changes nothing; so
/// does removing a key a second time, and removing one whose lapse a reader
/// has seen.
pub proof fn lemma_delete_absent(store: Store, key: Seq<char>, now: u128)
    ensures
        !store.contains_key(key) ==> count_removed(store, seq![Value::BulkString(Some(key))]) == (
            store,
            0int,
        ),
        count_removed(store.remove(key), seq![Value::BulkString(Some(key))]) == (
            store.remove(key),
            0int,
        ),
        store.contains_key(key) && expired(store[key], now) ==> count_removed(
            observed(store, key, now),
            seq![Value::BulkString(Some(key))],
        ) == (observed(store, key, now), 0int),
{
    let keys = seq![Value::BulkString(Some(key))];
    assert(keys.drop_last() =~= Seq::<Value>::empty());
    assert(keys.last() == Value::BulkString(Some(key)));
    assert forall|s: Store| !s.contains_key(key) implies #[trigger] count_removed(s, keys) == (
        s,
        0int,
    ) by {
        assert(count_removed(s, keys.drop_last()) == (s, 0int));
        assert(s.remove(key) =~= s);
    }
}

/// Removing a key that holds an entry, lapsed or not, counts one and leaves
/// the store without it.
pub proof fn lemma_delete_present(store: Store, key: Seq<char>)
    requires
        store.contains_key(key),
    ensures
        count_removed(store, seq![Value::BulkString(Some(key))]) == (store.remove(key), 1int),
{
    let keys = seq![Value::BulkString(Some(key))];
    assert(keys.drop_last() =~= Seq::<Value>::empty());
    assert(keys.last() == Value::BulkString(Some(key)));
    assert(count_removed(store, keys.drop_last()) == (store, 0int));
}

} // verus!
