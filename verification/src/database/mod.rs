//! The in-memory keyspace and what is stored in it.
//!
//! [`db`] holds the full store with every data type. The [`Database`] here is a
//! plain store of strings, with deadlines kept apart from the values.
use vstd::prelude::*;

use crate::database::keyspace::deadline_from;
use crate::keyed_map::KeyedMap;

pub mod aof;
pub mod data_structure;
pub mod db;
pub mod glob;
pub mod keyspace;
pub mod laws;
pub mod model;
pub mod pubsub;
pub mod snapshot;

verus! {

/// A store of strings, some of which have a deadline.
pub struct Database {
    db: KeyedMap<String>,
    expiry: KeyedMap<u128>,
}

/// What the store holds.
pub struct StringsView {
    pub db: Map<Seq<char>, Seq<char>>,
    pub expiry: Map<Seq<char>, int>,
}

impl StringsView {
    /// Whether the deadline of `key` has passed.
    pub open spec fn expired(self, key: Seq<char>, now: u64) -> bool {
        self.expiry.contains_key(key) && now > self.expiry[key]
    }

    /// The store without `key`.
    pub open spec fn without(self, key: Seq<char>) -> StringsView {
        StringsView { db: self.db.remove(key), expiry: self.expiry.remove(key) }
    }
}

/// A deadline has passed when the time is later than it, and a key without a deadline
/// never expires.
pub proof fn lemma_string_store_expiry(store: StringsView, key: Seq<char>, now: u64)
    ensures
        !store.expiry.contains_key(key) ==> !store.expired(key, now),
        store.expiry.contains_key(key) && store.expiry[key] < now ==> store.expired(key, now),
        store.expiry.contains_key(key) && store.expiry[key] >= now ==> !store.expired(key, now),
{
}

/// A key that is removed takes its deadline with it, and leaves every other key as it is.
pub proof fn lemma_string_store_removal(store: StringsView, key: Seq<char>, other: Seq<char>)
    ensures
        ({
            let left = store.without(key);
            &&& !left.db.contains_key(key) && !left.expiry.contains_key(key)
            &&& other != key ==> {
                &&& left.db.contains_key(other) == store.db.contains_key(other)
                &&& store.db.contains_key(other) ==> left.db[other] == store.db[other]
                &&& left.expiry.contains_key(other) == store.expiry.contains_key(other)
                &&& store.expiry.contains_key(other) ==> left.expiry[other] == store.expiry[other]
            }
        }),
{
}

/// A deadline is as many seconds away as the TTL says.
pub proof fn lemma_deadline_is_seconds_away(now: u64, seconds: int)
    ensures
        keyspace::deadline_after(now, seconds) == now + seconds * 1_000_000_000,
{
}

impl View for Database {
    type V = StringsView;

    closed spec fn view(&self) -> StringsView {
        StringsView {
            db: self.db@.map_values(|value: String| value@),
            expiry: self.expiry@.map_values(|deadline: u128| deadline as int),
        }
    }
}

impl Database {
    pub fn new() -> (r: Self)
        ensures
            r@ == (StringsView { db: Map::empty(), expiry: Map::empty() }),
    {
        let r = Database { db: KeyedMap::new(), expiry: KeyedMap::new() };
        assert(r@.db =~= Map::<Seq<char>, Seq<char>>::empty());
        assert(r@.expiry =~= Map::<Seq<char>, int>::empty());
        r
    }

    /// Stores `value` at `key`, with a new deadline if there is a TTL. Without
    /// one, a deadline that the key already has stays.
    pub fn set(&mut self, key: String, value: String, ttl: Option<u64>, now: u64)
        ensures
            final(self)@ == (StringsView {
                db: old(self)@.db.insert(key@, value@),
                expiry: match ttl {
                    Some(seconds) => old(self)@.expiry.insert(
                        key@,
                        keyspace::deadline_after(now, seconds as int),
                    ),
                    None => old(self)@.expiry,
                },
            }),
    {
        let _ = self.db.insert(key.clone(), value);
        assert(self@.db =~= old(self)@.db.insert(key@, value@));
        if let Some(seconds) = ttl {
            let deadline: u128 = deadline_from(now, seconds);
            let _ = self.expiry.insert(key, deadline);
            assert(self@.expiry =~= old(self)@.expiry.insert(key@, deadline as int));
        }
    }

    pub fn get(&mut self, key: &str, now: u64) -> (r: Option<String>)
        ensures
            final(self)@ == if old(self)@.expired(key@, now) {
                old(self)@.without(key@)
            } else {
                old(self)@
            },
            match r {
                Some(value) => {
                    &&& !old(self)@.expired(key@, now)
                    &&& old(self)@.db.contains_key(key@)
                    &&& value@ == old(self)@.db[key@]
                },
                None => old(self)@.expired(key@, now) || !old(self)@.db.contains_key(key@),
            },
    {
        if self.is_expired(key, now) {
            self.delete(key);
            return None;
        }
        match self.db.get(key) {
            Some(value) => Some(value.clone()),
            None => None,
        }
    }

    pub fn is_expired(&self, key: &str, now: u64) -> (r: bool)
        ensures
            r == self@.expired(key@, now),
    {
        match self.expiry.get(key) {
            Some(deadline) => now as u128 > *deadline,
            None => false,
        }
    }

    /// Removes `key`. Returns whether it had a deadline.
    pub fn delete(&mut self, key: &str) -> (r: bool)
        ensures
            final(self)@ == old(self)@.without(key@),
            r == old(self)@.expiry.contains_key(key@),
    {
        let _ = self.db.remove(key);
        let had_deadline = self.expiry.remove(key).is_some();
        assert(self@.db =~= old(self)@.db.remove(key@));
        assert(self@.expiry =~= old(self)@.expiry.remove(key@));
        had_deadline
    }
}

} // verus!
