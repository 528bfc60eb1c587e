//! The store of keys and values, and the commands that act on it.

use vstd::prelude::*;
use vstd::pervasive::VecAdditionalExecFns;
use vstd::string::StringExecFns;
use vstd::utf8::encode_utf8;
use crate::clock::unix_millis;
use crate::command::{
    add_outcome, bulk_text, count_found, count_removed, count_reply, del_outcome, exists_outcome,
    expiry_time, get_outcome, outcome, request_outcome, set_entry, set_outcome, unrecognized,
};
use crate::decimal::{number_text, parse_i64, parse_u128};
use crate::deserializer::deserialize_helper;
use crate::serializer::serialize;
use crate::store::{
    bumped, bumped_store, found, observed, Entry, ExpireValue, Store,
};
use crate::text::text_eq;
use crate::value::{is_text, view_all, DataType, Value};
use crate::wire::encode;

verus! {

/// A key with its entry.
struct Slot {
    key: String,
    item: ExpireValue,
}

/// Whether no two slots have the same key.
spec fn distinct_keys(slots: Seq<Slot>) -> bool {
    forall|i: int, j: int| 0 <= i < j < slots.len() ==> slots[i].key@ != slots[j].key@
}

/// Whether a slot has the key `key`.
spec fn holds(slots: Seq<Slot>, key: Seq<char>) -> bool {
    exists|i: int| 0 <= i < slots.len() && #[trigger] slots[i].key@ == key
}

/// The place of the slot that has the key `key`.
spec fn place(slots: Seq<Slot>, key: Seq<char>) -> int {
    choose|i: int| 0 <= i < slots.len() && #[trigger] slots[i].key@ == key
}

/// The map that a list of slots stands for.
spec fn contents(slots: Seq<Slot>) -> Store {
    Map::new(|key: Seq<char>| holds(slots, key), |key: Seq<char>| slots[place(slots, key)].item@)
}

proof fn lemma_contents_at(slots: Seq<Slot>, i: int)
    requires
        distinct_keys(slots),
        0 <= i < slots.len(),
    ensures
        contents(slots).contains_key(slots[i].key@),
        contents(slots)[slots[i].key@] == slots[i].item@,
{
    let key = slots[i].key@;
    assert(holds(slots, key));
    let j = place(slots, key);
    assert(0 <= j < slots.len() && slots[j].key@ == key);
    if j != i {
        if j < i {
            assert(slots[j].key@ != slots[i].key@);
        } else {
            assert(slots[i].key@ != slots[j].key@);
        }
    }
}

proof fn lemma_contents_absent(slots: Seq<Slot>, key: Seq<char>)
    requires
        forall|i: int| 0 <= i < slots.len() ==> #[trigger] slots[i].key@ != key,
    ensures
        !contents(slots).contains_key(key),
{
}

proof fn lemma_contents_push(slots: Seq<Slot>, slot: Slot)
    requires
        distinct_keys(slots),
        !contents(slots).contains_key(slot.key@),
    ensures
        distinct_keys(slots.push(slot)),
        contents(slots.push(slot)) == contents(slots).insert(slot.key@, slot.item@),
{
    let more = slots.push(slot);
    assert forall|i: int, j: int| 0 <= i < j < more.len() implies more[i].key@ != more[j].key@ by {
        if j == slots.len() {
            assert(more[i] == slots[i]);
            if slots[i].key@ == slot.key@ {
                assert(holds(slots, slot.key@));
            }
        } else {
            assert(more[i] == slots[i] && more[j] == slots[j]);
        }
    }
    let want = contents(slots).insert(slot.key@, slot.item@);
    assert forall|key: Seq<char>| contents(more).contains_key(key) <==> want.contains_key(
        key,
    ) by {
        if holds(slots, key) {
            let i = place(slots, key);
            assert(more[i].key@ == key);
        }
        if key == slot.key@ {
            assert(more[slots.len() as int].key@ == key);
        }
        if holds(more, key) {
            let i = place(more, key);
            if i < slots.len() {
                assert(slots[i].key@ == key);
            }
        }
    }
    assert forall|key: Seq<char>| contents(more).contains_key(key) implies contents(more)[key]
        == want[key] by {
        let i = place(more, key);
        lemma_contents_at(more, i);
        if i < slots.len() {
            assert(more[i] == slots[i]);
            lemma_contents_at(slots, i);
        }
    }
    assert(contents(more) =~= want);
}

proof fn lemma_contents_update(slots: Seq<Slot>, i: int, slot: Slot)
    requires
        distinct_keys(slots),
        0 <= i < slots.len(),
        slot.key@ == slots[i].key@,
    ensures
        distinct_keys(slots.update(i, slot)),
        contents(slots.update(i, slot)) == contents(slots).insert(slot.key@, slot.item@),
{
    let next = slots.update(i, slot);
    assert forall|a: int, b: int| 0 <= a < b < next.len() implies next[a].key@ != next[b].key@ by {
        assert(next[a].key@ == slots[a].key@);
        assert(next[b].key@ == slots[b].key@);
    }
    let want = contents(slots).insert(slot.key@, slot.item@);
    lemma_contents_at(slots, i);
    assert forall|key: Seq<char>| contents(next).contains_key(key) <==> want.contains_key(
        key,
    ) by {
        if holds(slots, key) {
            let j = place(slots, key);
            assert(next[j].key@ == key);
        }
        if holds(next, key) {
            let j = place(next, key);
            assert(slots[j].key@ == key);
        }
    }
    assert forall|key: Seq<char>| contents(next).contains_key(key) implies contents(next)[key]
        == want[key] by {
        let j = place(next, key);
        lemma_contents_at(next, j);
        if j != i {
            assert(next[j] == slots[j]);
            lemma_contents_at(slots, j);
            if slots[j].key@ == slots[i].key@ {
                if j < i {
                    assert(slots[j].key@ != slots[i].key@);
                } else {
                    assert(slots[i].key@ != slots[j].key@);
                }
            }
        }
    }
    assert(contents(next) =~= want);
}

proof fn lemma_contents_remove(slots: Seq<Slot>, i: int)
    requires
        distinct_keys(slots),
        0 <= i < slots.len(),
    ensures
        distinct_keys(slots.remove(i)),
        contents(slots.remove(i)) == contents(slots).remove(slots[i].key@),
{
    let less = slots.remove(i);
    let gone = slots[i].key@;
    assert forall|a: int| 0 <= a < less.len() implies #[trigger] less[a] == slots[if a < i {
        a
    } else {
        a + 1
    }] by {}
    assert forall|a: int, b: int| 0 <= a < b < less.len() implies less[a].key@ != less[b].key@ by {
        let a0 = if a < i { a } else { a + 1 };
        let b0 = if b < i { b } else { b + 1 };
        assert(less[a] == slots[a0] && less[b] == slots[b0]);
        assert(slots[a0].key@ != slots[b0].key@);
    }
    let want = contents(slots).remove(gone);
    assert forall|key: Seq<char>| contents(less).contains_key(key) <==> want.contains_key(
        key,
    ) by {
        if holds(slots, key) && key != gone {
            let j = place(slots, key);
            let j1 = if j < i { j } else { j - 1 };
            assert(less[j1] == slots[j]);
            assert(less[j1].key@ == key);
        }
        if holds(less, key) {
            let j = place(less, key);
            let j0 = if j < i { j } else { j + 1 };
            assert(less[j] == slots[j0]);
            assert(slots[j0].key@ == key);
            if key == gone {
                if j0 < i {
                    assert(slots[j0].key@ != slots[i].key@);
                } else {
                    assert(slots[i].key@ != slots[j0].key@);
                }
            }
        }
    }
    assert forall|key: Seq<char>| contents(less).contains_key(key) implies contents(less)[key]
        == want[key] by {
        let j = place(less, key);
        let j0 = if j < i { j } else { j + 1 };
        assert(less[j] == slots[j0]);
        lemma_contents_at(less, j);
        lemma_contents_at(slots, j0);
    }
    assert(contents(less) =~= want);
}

/// The store: a list of slots, no two of them with the same key. A key is
/// found by comparing it with one slot after the other.
pub struct Dictionary {
    slots: Vec<Slot>,
}

impl View for Dictionary {
    type V = Store;

    closed spec fn view(&self) -> Store {
        contents(self.slots@)
    }
}

impl Dictionary {
    #[verifier::type_invariant]
    spec fn well_formed(self) -> bool {
        distinct_keys(self.slots@)
    }

    /// An empty store.
    pub fn new() -> (dict: Self)
        ensures
            dict@ == Store::empty(),
    {
        let dict = Dictionary { slots: Vec::new() };
        proof {
            assert(dict@ =~= Store::empty());
        }
        dict
    }

    /// Finds the slot that has the key `key`.
    fn find(&self, key: &String) -> (at: Option<usize>)
        ensures
            match at {
                Some(i) => i < self.slots@.len() && self.slots@[i as int].key@ == key@
                    && self@.contains_key(key@) && self@[key@] == self.slots@[i as int].item@,
                None => !self@.contains_key(key@),
            },
    {
        proof {
            use_type_invariant(self);
        }
        let mut i: usize = 0;
        while i < self.slots.len()
            invariant
                i <= self.slots@.len(),
                distinct_keys(self.slots@),
                forall|j: int| 0 <= j < i ==> #[trigger] self.slots@[j].key@ != key@,
            decreases self.slots@.len() - i,
        {
            if self.slots[i].key == *key {
                proof {
                    lemma_contents_at(self.slots@, i as int);
                }
                return Some(i);
            }
            i = i + 1;
        }
        proof {
            lemma_contents_absent(self.slots@, key@);
        }
        None
    }

    /// Takes the slot at `i` out of the store.
    fn take_at(&mut self, i: usize) -> (slot: Slot)
        requires
            i < old(self).slots@.len(),
        ensures
            slot == old(self).slots@[i as int],
            final(self)@ == old(self)@.remove(slot.key@),
    {
        proof {
            use_type_invariant(&*self);
            lemma_contents_remove(self.slots@, i as int);
        }
        let mut slots: Vec<Slot> = Vec::new();
        proof {
            assert(distinct_keys(slots@));
        }
        std::mem::swap(&mut slots, &mut self.slots);
        let slot = slots.remove(i);
        self.slots = slots;
        slot
    }

    /// Puts `item` under `key`, in place of what the key held.
    pub fn set_value(&mut self, key: String, item: ExpireValue)
        ensures
            final(self)@ == old(self)@.insert(key@, item@),
    {
        proof {
            use_type_invariant(&*self);
        }
        let at = self.find(&key);
        let slot = Slot { key, item };
        let mut slots: Vec<Slot> = Vec::new();
        proof {
            assert(distinct_keys(slots@));
        }
        std::mem::swap(&mut slots, &mut self.slots);
        match at {
            Some(i) => {
                proof {
                    lemma_contents_update(slots@, i as int, slot);
                }
                slots.set(i, slot);
            },
            None => {
                proof {
                    lemma_contents_push(slots@, slot);
                }
                slots.push(slot);
            },
        }
        self.slots = slots;
    }

    /// Reads the value under `key` at the time `now`. An entry that has lapsed
    /// is removed and reads as absent.
    pub fn get_value(&mut self, key: &String, now: u128) -> (value: Option<String>)
        ensures
            final(self)@ == observed(old(self)@, key@, now),
            match value {
                Some(s) => found(old(self)@, key@, now) == Some(s@),
                None => found(old(self)@, key@, now) is None,
            },
    {
        match self.find(key) {
            Some(i) => {
                if self.slots[i].item.is_expire(now) {
                    let _ = self.take_at(i);
                    None
                } else {
                    Some(self.slots[i].item.value.clone())
                }
            },
            None => None,
        }
    }

    /// Tells whether `key` holds a value at the time `now`. An entry that has
    /// lapsed is removed and counts as absent.
    pub fn exists_value(&mut self, key: &String, now: u128) -> (there: bool)
        ensures
            final(self)@ == observed(old(self)@, key@, now),
            there == (found(old(self)@, key@, now) is Some),
    {
        self.get_value(key, now).is_some()
    }

    /// Removes the entry under `key`, lapsed or not, and hands it out.
    pub fn delete_value(&mut self, key: &String) -> (removed: Option<ExpireValue>)
        ensures
            final(self)@ == old(self)@.remove(key@),
            match removed {
                Some(item) => old(self)@.contains_key(key@) && item@ == old(self)@[key@],
                None => !old(self)@.contains_key(key@),
            },
    {
        match self.find(key) {
            Some(i) => {
                let slot = self.take_at(i);
                Some(slot.item)
            },
            None => {
                proof {
                    assert(self@.remove(key@) =~= self@);
                }
                None
            },
        }
    }

    /// Adds `delta` to the number under `key` and returns the sum. A key that
    /// is not there starts from zero. Where the value is no number, or the
    /// sum does not fit 64 bits, nothing changes and nothing is returned.
    fn add_to_value(&mut self, key: &String, delta: i64) -> (sum: Option<i64>)
        ensures
            sum == bumped(old(self)@, key@, delta as int),
            final(self)@ == bumped_store(old(self)@, key@, delta as int),
    {
        match self.find(key) {
            Some(i) => {
                let parsed = parse_i64(self.slots[i].item.value.as_str().as_bytes());
                let exp = self.slots[i].item.exp;
                match parsed {
                    Some(n) => match n.checked_add(delta) {
                        Some(total) => {
                            self.set_value(
                                key.clone(),
                                ExpireValue { value: number_text(total), exp },
                            );
                            Some(total)
                        },
                        None => None,
                    },
                    None => None,
                }
            },
            None => {
                self.set_value(key.clone(), ExpireValue::no_expire(number_text(delta)));
                Some(delta)
            },
        }
    }

    /// Adds one to the number under `key` where `change_type` is the text
    /// `incr`, and takes one off otherwise.
    pub fn incr_decr_value(&mut self, key: &String, change_type: &DataType) -> (sum: Option<i64>)
        ensures
            sum == bumped(old(self)@, key@, change_of(change_type@)),
            final(self)@ == bumped_store(old(self)@, key@, change_of(change_type@)),
    {
        let delta: i64 = if change_type.eq_str("incr") {
            1
        } else {
            -1
        };
        self.add_to_value(key, delta)
    }

    /// Takes one off the number under `key`.
    pub fn decr_value(&mut self, key: &String) -> (sum: Option<i64>)
        ensures
            sum == bumped(old(self)@, key@, -1),
            final(self)@ == bumped_store(old(self)@, key@, -1),
    {
        self.add_to_value(key, -1)
    }
}

/// What a counter command adds: one for `incr`, minus one for anything else.
pub open spec fn change_of(change_type: Value) -> int {
    if is_text(change_type, "incr"@) {
        1
    } else {
        -1
    }
}

/// The text of an argument, if it is a bulk string that is not null.
fn bulk_key(item: &DataType) -> (text: Option<&String>)
    ensures
        match text {
            Some(s) => bulk_text(item@) == Some(s@),
            None => bulk_text(item@) is None,
        },
{
    match item {
        DataType::BulkString(Some(s)) => Some(s),
        _ => None,
    }
}

/// A count as the number of a reply.
fn count_answer(n: u64) -> (answer: DataType)
    ensures
        answer@ == count_reply(n as int),
{
    if n > 0x7fff_ffff_ffff_ffff {
        DataType::Integer(i64::MAX)
    } else {
        DataType::Integer(n as i64)
    }
}

/// The answer to everything that is no command.
fn unrecognized_answer() -> (answer: DataType)
    ensures
        answer@ == unrecognized(),
{
    DataType::Error(String::from_str("ERR command not recognized"))
}

/// The entry that holds `value` and lapses when `flag` and `ttl` say, for a
/// `set` at the time `now`.
fn entry_with_expiry(value: String, flag: &str, ttl: u128, now: u128) -> (entry: Option<
    ExpireValue,
>)
    ensures
        match entry {
            Some(e) => expiry_time(flag@, ttl, now) is Some && e@ == (Entry {
                value: value@,
                expires_at: expiry_time(flag@, ttl, now),
            }),
            None => expiry_time(flag@, ttl, now) is None,
        },
{
    if text_eq(flag, "EX") {
        match ttl.checked_mul(1000) {
            Some(span) => match now.checked_add(span) {
                Some(_) => Some(ExpireValue::expire_seconds(value, ttl, now)),
                None => None,
            },
            None => None,
        }
    } else if text_eq(flag, "PX") {
        match now.checked_add(ttl) {
            Some(_) => Some(ExpireValue::expire_millis(value, ttl, now)),
            None => None,
        }
    } else if text_eq(flag, "EXAT") {
        match ttl.checked_mul(1000) {
            Some(_) => Some(ExpireValue::specific_expire_seconds(value, ttl)),
            None => None,
        }
    } else if text_eq(flag, "PXAT") {
        Some(ExpireValue::specific_expire_millis(value, ttl))
    } else {
        None
    }
}

/// The entry that a `set` of these items stores.
fn entry_to_set(items: &Vec<DataType>, now: u128) -> (entry: Option<ExpireValue>)
    ensures
        match entry {
            Some(e) => set_entry(view_all(items@), now) == Some(e@),
            None => set_entry(view_all(items@), now) is None,
        },
{
    if items.len() == 3 {
        match bulk_key(&items[2]) {
            Some(value) => Some(ExpireValue::no_expire(value.clone())),
            None => None,
        }
    } else if items.len() == 5 {
        match (bulk_key(&items[2]), bulk_key(&items[3]), bulk_key(&items[4])) {
            (Some(value), Some(flag), Some(number)) => {
                match parse_u128(number.as_str().as_bytes()) {
                    Some(ttl) => entry_with_expiry(value.clone(), flag.as_str(), ttl, now),
                    None => None,
                }
            },
            _ => None,
        }
    } else {
        None
    }
}

impl Dictionary {
    /// Carries out `set key value [flag number]`.
    fn run_set(&mut self, items: &Vec<DataType>, now: u128) -> (answer: DataType)
        ensures
            final(self)@ == set_outcome(old(self)@, view_all(items@), now).0,
            answer@ == set_outcome(old(self)@, view_all(items@), now).1,
    {
        if items.len() == 3 || items.len() == 5 {
            match (bulk_key(&items[1]), entry_to_set(items, now)) {
                (Some(key), Some(entry)) => {
                    self.set_value(key.clone(), entry);
                    DataType::SimpleString(String::from_str("OK"))
                },
                _ => unrecognized_answer(),
            }
        } else {
            unrecognized_answer()
        }
    }

    /// Carries out `get key`.
    fn run_get(&mut self, items: &Vec<DataType>, now: u128) -> (answer: DataType)
        ensures
            final(self)@ == get_outcome(old(self)@, view_all(items@), now).0,
            answer@ == get_outcome(old(self)@, view_all(items@), now).1,
    {
        if items.len() == 2 {
            match bulk_key(&items[1]) {
                Some(key) => DataType::BulkString(self.get_value(key, now)),
                None => unrecognized_answer(),
            }
        } else {
            unrecognized_answer()
        }
    }

    /// Carries out `exists key...`.
    fn run_exists(&mut self, items: &Vec<DataType>, now: u128) -> (answer: DataType)
        ensures
            final(self)@ == exists_outcome(old(self)@, view_all(items@), now).0,
            answer@ == exists_outcome(old(self)@, view_all(items@), now).1,
    {
        if items.len() < 2 {
            return unrecognized_answer();
        }
        let ghost all = view_all(items@);
        let ghost start = self@;
        let mut count: u64 = 0;
        let mut i: usize = 1;
        proof {
            assert(all.subrange(1, 1) =~= Seq::<Value>::empty());
        }
        while i < items.len()
            invariant
                1 <= i <= items@.len(),
                all == view_all(items@),
                count <= i - 1,
                (self@, count as int) == count_found(start, all.subrange(1, i as int), now),
            decreases items@.len() - i,
        {
            let ghost keys = all.subrange(1, i + 1);
            proof {
                assert(keys.drop_last() =~= all.subrange(1, i as int));
                assert(keys.last() == items@[i as int]@);
            }
            match bulk_key(&items[i]) {
                Some(key) => {
                    if self.exists_value(key, now) {
                        count = count + 1;
                    }
                },
                None => {},
            }
            i = i + 1;
        }
        count_answer(count)
    }

    /// Carries out `del key...`.
    fn run_del(&mut self, items: &Vec<DataType>) -> (answer: DataType)
        ensures
            final(self)@ == del_outcome(old(self)@, view_all(items@)).0,
            answer@ == del_outcome(old(self)@, view_all(items@)).1,
    {
        if items.len() < 2 {
            return unrecognized_answer();
        }
        let ghost all = view_all(items@);
        let ghost start = self@;
        let mut count: u64 = 0;
        let mut i: usize = 1;
        proof {
            assert(all.subrange(1, 1) =~= Seq::<Value>::empty());
        }
        while i < items.len()
            invariant
                1 <= i <= items@.len(),
                all == view_all(items@),
                count <= i - 1,
                (self@, count as int) == count_removed(start, all.subrange(1, i as int)),
            decreases items@.len() - i,
        {
            let ghost keys = all.subrange(1, i + 1);
            proof {
                assert(keys.drop_last() =~= all.subrange(1, i as int));
                assert(keys.last() == items@[i as int]@);
            }
            match bulk_key(&items[i]) {
                Some(key) => {
                    if self.delete_value(key).is_some() {
                        count = count + 1;
                    }
                },
                None => {},
            }
            i = i + 1;
        }
        count_answer(count)
    }

    /// Carries out `incr key` or `decr key`, whichever the first item names.
    fn run_add(&mut self, items: &Vec<DataType>) -> (answer: DataType)
        requires
            items@.len() >= 1,
        ensures
            final(self)@ == add_outcome(old(self)@, view_all(items@), change_of(items@[0]@)).0,
            answer@ == add_outcome(old(self)@, view_all(items@), change_of(items@[0]@)).1,
    {
        if items.len() == 2 {
            match bulk_key(&items[1]) {
                Some(key) => match self.incr_decr_value(key, &items[0]) {
                    Some(n) => DataType::Integer(n),
                    None => DataType::Error(
                        String::from_str("ERR value is not an integer or out of range"),
                    ),
                },
                None => unrecognized_answer(),
            }
        } else {
            unrecognized_answer()
        }
    }

    /// Carries out a request at the time `now` and returns the answer.
    pub fn run_command(&mut self, request: &DataType, now: u128) -> (answer: DataType)
        ensures
            final(self)@ == outcome(old(self)@, request@, now).0,
            answer@ == outcome(old(self)@, request@, now).1,
    {
        match request {
            DataType::Array(Some(items)) => {
                if items.len() == 0 {
                    return unrecognized_answer();
                }
                match bulk_key(&items[0]) {
                    Some(name) => {
                        let name: &str = name.as_str();
                        if text_eq(name, "set") {
                            self.run_set(items, now)
                        } else if text_eq(name, "get") {
                            self.run_get(items, now)
                        } else if text_eq(name, "exists") {
                            self.run_exists(items, now)
                        } else if text_eq(name, "del") {
                            self.run_del(items)
                        } else if text_eq(name, "incr") {
                            self.run_add(items)
                        } else if text_eq(name, "decr") {
                            self.run_add(items)
                        } else {
                            unrecognized_answer()
                        }
                    },
                    None => unrecognized_answer(),
                }
            },
            _ => unrecognized_answer(),
        }
    }

    /// Carries out a request at the time `now` and returns the bytes of the
    /// answer, ready to be sent.
    pub fn handle_command_at(&mut self, d_command: DataType, now: u128) -> (response: String)
        ensures
            final(self)@ == outcome(old(self)@, d_command@, now).0,
            encode_utf8(response@) == encode(outcome(old(self)@, d_command@, now).1),
    {
        let answer = self.run_command(&d_command, now);
        serialize(&answer).unwrap()
    }

    /// Answers the bytes of a request at the time `now`: a request that can
    /// be read is carried out; one that cannot is answered with an error and
    /// changes nothing.
    pub fn respond_at(&mut self, input: &[u8], now: u128) -> (response: String)
        ensures
            final(self)@ == request_outcome(old(self)@, input@, now).0,
            encode_utf8(response@) == encode(request_outcome(old(self)@, input@, now).1),
    {
        match deserialize_helper(input) {
            Ok((request, _)) => self.handle_command_at(request, now),
            Err(_) => {
                let answer = DataType::Error(String::from_str("ERR error parsing data"));
                serialize(&answer).unwrap()
            },
        }
    }

    /// Answers the bytes of a request at the time that the clock of the
    /// machine shows.
    pub fn respond(&mut self, input: &[u8]) -> (response: String)
        ensures
            exists|now: u128|
                {
                    &&& final(self)@ == (#[trigger] request_outcome(old(self)@, input@, now)).0
                    &&& encode_utf8(response@) == encode(
                        request_outcome(old(self)@, input@, now).1,
                    )
                },
    {
        let now = unix_millis();
        self.respond_at(input, now)
    }

    /// Carries out a request at the time that the clock of the machine shows.
    pub fn handle_command(&mut self, d_command: DataType) -> (response: String)
        ensures
            exists|now: u128|
                {
                    &&& final(self)@ == (#[trigger] outcome(old(self)@, d_command@, now)).0
                    &&& encode_utf8(response@) == encode(outcome(old(self)@, d_command@, now).1)
                },
    {
        let now = unix_millis();
        self.handle_command_at(d_command, now)
    }
}

} // verus!
