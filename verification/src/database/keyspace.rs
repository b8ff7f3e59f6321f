//! The map from key names to entries, and how entries expire.
//!
//! Storing one [`Value`] per key (instead of a separate map per type) means a
//! key holds exactly one type at a time, expiry applies uniformly to every type,
//! and a key can be deleted regardless of what it contains.
//!
//! Instants are nanoseconds on a clock that starts with the database.
use vstd::prelude::*;

use crate::database::data_structure::{RHash, RList, RSet, RSortedSet};
use crate::keyed_map;
use crate::keyed_map::KeyedMap;
use crate::score;
use crate::score::ScoreView;

verus! {

pub const NANOS_PER_SECOND: u64 = 1_000_000_000;

/// The value stored at a key. A key holds exactly one of these at a time.
pub enum Value {
    Str(String),
    List(RList),
    StrSet(RSet),
    SortedSet(RSortedSet),
    Hash(RHash),
}

/// What a value holds.
pub enum ValueView {
    Str(Seq<char>),
    List(Seq<Seq<char>>),
    StrSet(Set<Seq<char>>),
    SortedSet(Map<Seq<char>, ScoreView>),
    Hash(Map<Seq<char>, Seq<char>>),
}

impl ValueView {
    /// Whether the value is a collection without elements.
    pub open spec fn is_hollow(self) -> bool {
        match self {
            ValueView::Str(_) => false,
            ValueView::List(items) => items.len() == 0,
            ValueView::StrSet(members) => members == Set::<Seq<char>>::empty(),
            ValueView::SortedSet(members) => members == Map::<Seq<char>, ScoreView>::empty(),
            ValueView::Hash(fields) => fields == Map::<Seq<char>, Seq<char>>::empty(),
        }
    }

    /// Whether the value is one that memory can hold: a collection is finite, and
    /// the members of a sorted set have a ranking.
    pub open spec fn is_well_formed(self) -> bool {
        match self {
            ValueView::Str(_) => true,
            ValueView::List(_) => true,
            ValueView::StrSet(members) => members.finite(),
            ValueView::SortedSet(members) => {
                &&& members.dom().finite()
                &&& score::is_ranking(score::ranking(members), members)
            },
            ValueView::Hash(fields) => fields.dom().finite(),
        }
    }
}

impl View for Value {
    type V = ValueView;

    open spec fn view(&self) -> ValueView {
        match self {
            Value::Str(value) => ValueView::Str(value@),
            Value::List(list) => ValueView::List(list@),
            Value::StrSet(set) => ValueView::StrSet(set@),
            Value::SortedSet(zset) => ValueView::SortedSet(zset@),
            Value::Hash(hash) => ValueView::Hash(hash@),
        }
    }
}

impl Value {
    /// Whether the value is a collection without elements.
    pub fn is_hollow(&self) -> (r: bool)
        ensures
            r == self@.is_hollow(),
            self@.is_well_formed(),
    {
        match self {
            Value::Str(_) => false,
            Value::List(list) => list.is_empty(),
            Value::StrSet(set) => set.is_empty(),
            Value::SortedSet(zset) => zset.is_empty(),
            Value::Hash(hash) => hash.is_empty(),
        }
    }
}

/// A stored value together with its optional expiry deadline.
pub struct Entry {
    pub value: Value,
    pub expires_at: Option<u128>,
}

/// What an entry holds.
pub struct EntryView {
    pub value: ValueView,
    pub expires_at: Option<int>,
}

impl View for Entry {
    type V = EntryView;

    open spec fn view(&self) -> EntryView {
        EntryView {
            value: self.value@,
            expires_at: match self.expires_at {
                Some(deadline) => Some(deadline as int),
                None => None,
            },
        }
    }
}

/// The entries of a keyspace by key.
pub type StoreView = Map<Seq<char>, EntryView>;

/// The instant `seconds` after `now`.
pub open spec fn deadline_after(now: u64, seconds: int) -> int {
    now + seconds * NANOS_PER_SECOND
}

/// An entry has expired once its deadline has come.
pub open spec fn has_expired(entry: EntryView, now: u64) -> bool {
    match entry.expires_at {
        Some(deadline) => now >= deadline,
        None => false,
    }
}

/// The whole seconds left until a deadline.
pub open spec fn seconds_left(deadline: int, now: u64) -> int {
    if deadline <= now {
        0
    } else {
        (deadline - now) / (NANOS_PER_SECOND as int)
    }
}

/// Whether `key` names an entry that has not expired.
pub open spec fn is_live(store: StoreView, key: Seq<char>, now: u64) -> bool {
    store.contains_key(key) && !has_expired(store[key], now)
}

/// The value of a live key.
pub open spec fn live_value(store: StoreView, key: Seq<char>, now: u64) -> Option<ValueView> {
    if is_live(store, key, now) {
        Some(store[key].value)
    } else {
        None
    }
}

/// The deadline of a live key.
pub open spec fn live_deadline(store: StoreView, key: Seq<char>, now: u64) -> Option<int> {
    if is_live(store, key, now) {
        store[key].expires_at
    } else {
        None
    }
}

/// The keys that have not expired.
pub open spec fn live_keys(store: StoreView, now: u64) -> Set<Seq<char>> {
    store.dom().filter(|key: Seq<char>| is_live(store, key, now))
}

/// The entries that have not expired.
pub open spec fn live_part(store: StoreView, now: u64) -> StoreView {
    store.restrict(live_keys(store, now))
}

/// No key holds a collection without elements.
pub open spec fn nothing_hollow(store: StoreView) -> bool {
    forall|key: Seq<char>| #[trigger]
        store.contains_key(key) ==> !store[key].value.is_hollow()
}

/// A keyspace that memory can hold: it is finite, and so is every collection in
/// it; the members of every sorted set have a ranking.
pub open spec fn well_formed(store: StoreView) -> bool {
    &&& store.dom().finite()
    &&& forall|key: Seq<char>| #[trigger]
        store.contains_key(key) ==> store[key].value.is_well_formed()
}

/// The keyspace without `key` if it has expired.
pub open spec fn evicted(store: StoreView, key: Seq<char>, now: u64) -> StoreView {
    if store.contains_key(key) && has_expired(store[key], now) {
        store.remove(key)
    } else {
        store
    }
}

impl Entry {
    pub fn is_expired(&self, now: u64) -> (r: bool)
        ensures
            r == has_expired(self@, now),
    {
        match self.expires_at {
            Some(deadline) => now as u128 >= deadline,
            None => false,
        }
    }
}

/// The instant `seconds` after `now`.
pub fn deadline_from(now: u64, seconds: u64) -> (r: u128)
    ensures
        r == deadline_after(now, seconds as int),
{
    assert(seconds * NANOS_PER_SECOND <= u64::MAX * NANOS_PER_SECOND) by (nonlinear_arith)
        requires
            seconds <= u64::MAX,
    ;
    now as u128 + seconds as u128 * NANOS_PER_SECOND as u128
}

/// The whole seconds left until a deadline, as far as they fit.
pub fn seconds_until(deadline: u128, now: u64) -> (r: u64)
    ensures
        r == if seconds_left(deadline as int, now) > u64::MAX {
            u64::MAX as int
        } else {
            seconds_left(deadline as int, now)
        },
{
    if deadline <= now as u128 {
        return 0;
    }
    let left: u128 = (deadline - now as u128) / (NANOS_PER_SECOND as u128);
    if left > u64::MAX as u128 {
        u64::MAX
    } else {
        left as u64
    }
}

/// The key store itself.
pub struct Keyspace {
    entries: KeyedMap<Entry>,
}

impl View for Keyspace {
    type V = StoreView;

    closed spec fn view(&self) -> StoreView {
        self.entries@.map_values(|entry: Entry| entry@)
    }
}

impl Keyspace {
    #[verifier::type_invariant]
    spec fn holds_well_formed_values(self) -> bool {
        well_formed(self@)
    }

    pub fn new() -> (r: Self)
        ensures
            r@ == StoreView::empty(),
    {
        let entries = KeyedMap::<Entry>::new();
        assert(entries@.map_values(|entry: Entry| entry@) =~= StoreView::empty());
        Keyspace { entries }
    }

    /// Every keyspace is well-formed.
    pub(crate) fn note_well_formed(&self)
        ensures
            well_formed(self@),
    {
        proof {
            use_type_invariant(self);
        }
    }

    /// Takes the entries out, to be put back changed.
    fn take_entries(&mut self) -> (r: KeyedMap<Entry>)
        ensures
            r@.map_values(|entry: Entry| entry@) == old(self)@,
            well_formed(old(self)@),
            final(self)@ == StoreView::empty(),
    {
        let mut taken = Keyspace::new();
        std::mem::swap(self, &mut taken);
        proof {
            use_type_invariant(&taken);
        }
        taken.entries
    }

    /// The live entry at `key`.
    pub fn live<'a>(&'a self, key: &str, now: u64) -> (r: Option<&'a Entry>)
        ensures
            match r {
                Some(entry) => is_live(self@, key@, now) && entry@ == self@[key@],
                None => !is_live(self@, key@, now),
            },
    {
        match self.entries.get(key) {
            Some(entry) => {
                if entry.is_expired(now) {
                    None
                } else {
                    Some(entry)
                }
            },
            None => None,
        }
    }

    /// Drops `key` if it has expired.
    pub fn evict(&mut self, key: &str, now: u64)
        ensures
            final(self)@ == evicted(old(self)@, key@, now),
    {
        let stale = match self.entries.get(key) {
            Some(entry) => entry.is_expired(now),
            None => false,
        };
        if stale {
            self.drop_key(key);
        }
    }

    /// Drops `key`, expired or not.
    pub fn drop_key(&mut self, key: &str)
        ensures
            final(self)@ == old(self)@.remove(key@),
    {
        let mut entries = self.take_entries();
        let _ = entries.remove(key);
        assert(entries@.map_values(|entry: Entry| entry@) =~= old(self)@.remove(key@));
        *self = Keyspace { entries };
    }

    /// Takes the live entry at `key` out. An expired entry is dropped.
    pub fn take(&mut self, key: &str, now: u64) -> (r: Option<Entry>)
        ensures
            final(self)@ == old(self)@.remove(key@),
            match r {
                Some(entry) => is_live(old(self)@, key@, now) && entry@ == old(self)@[key@],
                None => !is_live(old(self)@, key@, now),
            },
    {
        let mut entries = self.take_entries();
        let taken = entries.remove(key);
        assert(entries@.map_values(|entry: Entry| entry@) =~= old(self)@.remove(key@));
        *self = Keyspace { entries };
        match taken {
            Some(entry) => {
                if entry.is_expired(now) {
                    None
                } else {
                    Some(entry)
                }
            },
            None => None,
        }
    }

    /// Stores `entry` at `key`.
    pub fn put(&mut self, key: String, entry: Entry)
        ensures
            final(self)@ == old(self)@.insert(key@, entry@),
    {
        let _ = entry.value.is_hollow();
        let mut entries = self.take_entries();
        let _ = entries.insert(key, entry);
        assert(entries@.map_values(|entry: Entry| entry@) =~= old(self)@.insert(key@, entry@));
        *self = Keyspace { entries };
    }

    pub fn clear(&mut self)
        ensures
            final(self)@ == StoreView::empty(),
    {
        *self = Keyspace::new();
    }

    /// The keys in the order in which the entries are walked.
    pub closed spec fn order(&self) -> Seq<Seq<char>> {
        self.entries.order()
    }

    /// The number of entries, expired ones included.
    pub fn len(&self) -> (r: usize)
        ensures
            self@.dom().finite(),
            r == self@.dom().len(),
            r == self.order().len(),
            keyed_map::enumerates(self.order(), self@.dom()),
    {
        assert(self@.dom() =~= self.entries@.dom());
        self.entries.len()
    }

    /// The entry at position `i` of the walking order.
    pub fn entry<'a>(&'a self, i: usize) -> (r: (&'a String, &'a Entry))
        requires
            i < self.order().len(),
        ensures
            r.0@ == self.order()[i as int],
            self@.contains_key(self.order()[i as int]),
            r.1@ == self@[self.order()[i as int]],
    {
        self.entries.entry(i)
    }
}

} // verus!
