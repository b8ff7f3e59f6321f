//! The in-memory key/value store shared by every client connection.
//!
//! All keys live in a single map from name to entry. Type mismatches are
//! reported with a typed [`StoreError`].
use vstd::prelude::*;
use vstd::utf8::*;

use crate::database::aof::{Aof, FsyncPolicy, LogRecord};
use crate::database::data_structure;
use crate::database::data_structure::{RHash, RList, RSet, RSortedSet};
use crate::database::glob::glob_match;
use crate::database::keyspace;
use crate::database::keyspace::{
    deadline_from, seconds_until, Entry, EntryView, Keyspace, StoreView, Value, ValueView,
    NANOS_PER_SECOND,
};
use crate::database::model;
use crate::database::pubsub;
use crate::database::pubsub::{Channels, Delivery, PubSub};
use crate::database::snapshot;
use crate::database::snapshot::{SerValue, Snapshot, SnapshotEntry};
use crate::keyed_map;
use crate::resp;
use crate::score;
use crate::score::{FloatReadings, Score, ScoreView};
use crate::text;

verus! {

broadcast use text::lemma_texts_push;

/// Errors the store can return to a caller.
#[derive(Debug, Clone, Copy, PartialEq, Eq, Structural)]
pub enum StoreError {
    /// A command was applied to a key holding a different type.
    WrongType,
    /// A numeric command (`INCR`/`INCRBY`/`DECR`) was applied to a string that
    /// does not parse as an integer.
    NotAnInteger,
    /// `HINCRBY` was applied to a hash field that does not parse as an integer.
    NotAHashInteger,
    /// An increment/decrement would overflow `i64`.
    Overflow,
    /// A command (e.g. `LSET`) required a key that does not exist.
    NoSuchKey,
    /// A list index was out of range (`LSET`).
    IndexOutOfRange,
}

/// The text of a store error, with its error code.
pub open spec fn store_error_text(error: StoreError) -> Seq<char> {
    match error {
        StoreError::WrongType =>
            "WRONGTYPE Operation against a key holding the wrong kind of value"@,
        StoreError::NotAnInteger => "ERR value is not an integer or out of range"@,
        StoreError::NotAHashInteger => "ERR hash value is not an integer"@,
        StoreError::Overflow => "ERR increment or decrement would overflow"@,
        StoreError::NoSuchKey => "ERR no such key"@,
        StoreError::IndexOutOfRange => "ERR index out of range"@,
    }
}

impl StoreError {
    /// The text of the error, with its error code.
    pub fn message(&self) -> (r: String)
        ensures
            r@ == store_error_text(*self),
    {
        match self {
            StoreError::WrongType =>
                "WRONGTYPE Operation against a key holding the wrong kind of value",
            StoreError::NotAnInteger => "ERR value is not an integer or out of range",
            StoreError::NotAHashInteger => "ERR hash value is not an integer",
            StoreError::Overflow => "ERR increment or decrement would overflow",
            StoreError::NoSuchKey => "ERR no such key",
            StoreError::IndexOutOfRange => "ERR index out of range",
        }.to_owned()
    }
}

/// What a database holds.
pub struct DatabaseView {
    /// The keyspace, expired entries included.
    pub store: StoreView,
    /// The number of connected clients.
    pub clients: usize,
    pub snapshot_path: Option<Seq<char>>,
    /// The fsync policy of the append-only log, if there is one.
    pub aof: Option<FsyncPolicy>,
    /// Whether commands are being replayed from the append-only log.
    pub replaying: bool,
    pub channels: Channels,
    pub next_subscriber_id: u64,
}

impl DatabaseView {
    /// The same database with another keyspace.
    pub open spec fn with_store(self, store: StoreView) -> DatabaseView {
        DatabaseView { store, ..self }
    }
}

/// An in-memory store, with its server-wide counters, persistence settings and
/// pub/sub registry. Time is passed in: `now` counts nanoseconds since the
/// database was created.
pub struct Database {
    store: Keyspace,
    clients: usize,
    snapshot_path: Option<String>,
    aof: Option<Aof>,
    replaying: bool,
    pubsub: PubSub,
}

impl View for Database {
    type V = DatabaseView;

    closed spec fn view(&self) -> DatabaseView {
        DatabaseView {
            store: self.store@,
            clients: self.clients,
            snapshot_path: resp::optional_text(self.snapshot_path),
            aof: policy_of(self.aof),
            replaying: self.replaying,
            channels: self.pubsub@,
            next_subscriber_id: self.pubsub.upcoming_id(),
        }
    }
}

/// The policy of an optional append-only log.
pub open spec fn policy_of(aof: Option<Aof>) -> Option<FsyncPolicy> {
    match aof {
        Some(log) => Some(log.policy),
        None => None,
    }
}

/// A database without keys, clients, subscribers or persistence.
pub open spec fn fresh_database() -> DatabaseView {
    DatabaseView {
        store: Map::empty(),
        clients: 0,
        snapshot_path: None,
        aof: None,
        replaying: false,
        channels: Map::empty(),
        next_subscriber_id: 0,
    }
}

/// The text of the `INFO` reply.
pub open spec fn info_text(uptime: int, clients: int, keys: int) -> Seq<char> {
    "# Server\r\nserver_name:redis_clone\r\nuptime_in_seconds:"@ + text::decimal(uptime)
        + "\r\n\r\n# Clients\r\nconnected_clients:"@ + text::decimal(clients)
        + "\r\n\r\n# Keyspace\r\nkeys:"@ + text::decimal(keys) + "\r\n"@
}

/// The number of clients when one more has connected. The counter wraps around.
pub open spec fn one_more(clients: usize) -> usize {
    if clients == usize::MAX {
        0
    } else {
        (clients + 1) as usize
    }
}

/// The number of clients when one has left.
pub open spec fn one_less(clients: usize) -> usize {
    if clients == 0 {
        usize::MAX
    } else {
        (clients - 1) as usize
    }
}

/// Each client that connects counts one, until it leaves.
pub proof fn lemma_clients_are_counted(clients: usize)
    ensures
        clients < usize::MAX ==> one_more(clients) == clients + 1,
        clients > 0 ==> one_less(clients) == clients - 1,
        one_less(one_more(clients)) == clients,
{
}

/// A deadline as a plain number.
pub open spec fn deadline_view(expires_at: Option<u128>) -> Option<int> {
    match expires_at {
        Some(deadline) => Some(deadline as int),
        None => None,
    }
}

/// Takes the list at `key` out of the store, with its deadline: an empty one
/// when the key is absent (or expired), and [`StoreError::WrongType`] when the
/// key holds another type.
fn list_or_create(store: &mut Keyspace, key: &str, now: u64) -> (r: Result<
    (RList, Option<u128>),
    StoreError,
>)
    ensures
        match r {
            Ok((taken, expires_at)) => {
                &&& model::list_at(old(store)@, key@, now) == Ok::<Seq<Seq<char>>, StoreError>(
                    taken@,
                )
                &&& deadline_view(expires_at) == keyspace::live_deadline(old(store)@, key@, now)
                &&& final(store)@ == old(store)@.remove(key@)
            },
            Err(error) => {
                &&& model::list_at(old(store)@, key@, now) == Err::<Seq<Seq<char>>, StoreError>(
                    error,
                )
                &&& final(store)@ == old(store)@
            },
        },
{
    match store.take(key, now) {
        None => Ok((RList::new(), None)),
        Some(entry) => match entry {
            Entry { value: Value::List(taken), expires_at } => Ok((taken, expires_at)),
            other => {
                store.put(key.to_owned(), other);
                assert(store@ =~= old(store)@);
                Err(StoreError::WrongType)
            },
        },
    }
}

/// Takes the set at `key` out of the store, with its deadline: an empty one
/// when the key is absent (or expired), and [`StoreError::WrongType`] when the
/// key holds another type.
fn set_or_create(store: &mut Keyspace, key: &str, now: u64) -> (r: Result<
    (RSet, Option<u128>),
    StoreError,
>)
    ensures
        match r {
            Ok((taken, expires_at)) => {
                &&& model::set_at(old(store)@, key@, now) == Ok::<Set<Seq<char>>, StoreError>(
                    taken@,
                )
                &&& deadline_view(expires_at) == keyspace::live_deadline(old(store)@, key@, now)
                &&& final(store)@ == old(store)@.remove(key@)
            },
            Err(error) => {
                &&& model::set_at(old(store)@, key@, now) == Err::<Set<Seq<char>>, StoreError>(
                    error,
                )
                &&& final(store)@ == old(store)@
            },
        },
{
    match store.take(key, now) {
        None => Ok((RSet::new(), None)),
        Some(entry) => match entry {
            Entry { value: Value::StrSet(taken), expires_at } => Ok((taken, expires_at)),
            other => {
                store.put(key.to_owned(), other);
                assert(store@ =~= old(store)@);
                Err(StoreError::WrongType)
            },
        },
    }
}

/// Takes the sorted set at `key` out of the store, with its deadline: an empty one
/// when the key is absent (or expired), and [`StoreError::WrongType`] when the
/// key holds another type.
fn sorted_set_or_create(store: &mut Keyspace, key: &str, now: u64) -> (r: Result<
    (RSortedSet, Option<u128>),
    StoreError,
>)
    ensures
        match r {
            Ok((taken, expires_at)) => {
                &&& model::zset_at(old(store)@, key@, now) == Ok::<
                    Map<Seq<char>, ScoreView>,
                    StoreError,
                >(taken@)
                &&& deadline_view(expires_at) == keyspace::live_deadline(old(store)@, key@, now)
                &&& final(store)@ == old(store)@.remove(key@)
            },
            Err(error) => {
                &&& model::zset_at(old(store)@, key@, now) == Err::<
                    Map<Seq<char>, ScoreView>,
                    StoreError,
                >(error)
                &&& final(store)@ == old(store)@
            },
        },
{
    match store.take(key, now) {
        None => Ok((RSortedSet::new(), None)),
        Some(entry) => match entry {
            Entry { value: Value::SortedSet(taken), expires_at } => Ok((taken, expires_at)),
            other => {
                store.put(key.to_owned(), other);
                assert(store@ =~= old(store)@);
                Err(StoreError::WrongType)
            },
        },
    }
}

/// Takes the hash at `key` out of the store, with its deadline: an empty one
/// when the key is absent (or expired), and [`StoreError::WrongType`] when the
/// key holds another type.
fn hash_or_create(store: &mut Keyspace, key: &str, now: u64) -> (r: Result<
    (RHash, Option<u128>),
    StoreError,
>)
    ensures
        match r {
            Ok((taken, expires_at)) => {
                &&& model::hash_at(old(store)@, key@, now) == Ok::<
                    Map<Seq<char>, Seq<char>>,
                    StoreError,
                >(taken@)
                &&& deadline_view(expires_at) == keyspace::live_deadline(old(store)@, key@, now)
                &&& final(store)@ == old(store)@.remove(key@)
            },
            Err(error) => {
                &&& model::hash_at(old(store)@, key@, now) == Err::<
                    Map<Seq<char>, Seq<char>>,
                    StoreError,
                >(error)
                &&& final(store)@ == old(store)@
            },
        },
{
    match store.take(key, now) {
        None => Ok((RHash::new(), None)),
        Some(entry) => match entry {
            Entry { value: Value::Hash(taken), expires_at } => Ok((taken, expires_at)),
            other => {
                store.put(key.to_owned(), other);
                assert(store@ =~= old(store)@);
                Err(StoreError::WrongType)
            },
        },
    }
}

/// Puts a value back under its deadline, or drops the key where the value is a
/// collection that has become empty.
fn settle(store: &mut Keyspace, key: &str, value: Value, expires_at: Option<u128>)
    ensures
        final(store)@ == if value@.is_hollow() {
            old(store)@.remove(key@)
        } else {
            old(store)@.insert(
                key@,
                EntryView { value: value@, expires_at: deadline_view(expires_at) },
            )
        },
{
    if value.is_hollow() {
        store.drop_key(key);
    } else {
        store.put(key.to_owned(), Entry { value, expires_at });
    }
}

/// The members of the set at `key`, for the multi-key set operations
/// (`SINTER`/`SUNION`/`SDIFF`). A missing or expired key is an empty set; a key
/// of another type is a [`StoreError::WrongType`].
fn set_members_of(store: &Keyspace, key: &str, now: u64) -> (r: Result<Vec<String>, StoreError>)
    ensures
        model::lists_members(model::texts_result(r), model::set_at(store@, key@, now)),
{
    match store.live(key, now) {
        None => {
            let none: Vec<String> = Vec::new();
            assert(text::texts(none@).to_set() =~= Set::<Seq<char>>::empty());
            Ok(none)
        },
        Some(entry) => match &entry.value {
            Value::StrSet(set) => Ok(set.smembers()),
            _ => Err(StoreError::WrongType),
        },
    }
}

/// The result without elements.
fn no_texts() -> (r: Result<Vec<String>, StoreError>)
    ensures
        model::texts_result(r) == Ok::<Seq<Seq<char>>, StoreError>(Seq::empty()),
{
    let none: Vec<String> = Vec::new();
    assert(text::texts(none@) =~= Seq::<Seq<char>>::empty());
    Ok(none)
}

/// The integer that `current` spells (or 0) plus `delta`.
fn add_to_text(current: &Option<String>, delta: i64, unreadable: StoreError) -> (r: Result<
    i64,
    StoreError,
>)
    ensures
        model::number_result(r) == model::incremented(
            resp::optional_text(*current),
            delta as int,
            unreadable,
        ),
{
    let value: i64 = match current {
        Some(digits) => match text::text_to_i64(digits.as_str()) {
            Some(value) => value,
            None => {
                return Err(unreadable);
            },
        },
        None => 0,
    };
    match value.checked_add(delta) {
        Some(next) => Ok(next),
        None => Err(StoreError::Overflow),
    }
}

/// The result without members.
fn no_members() -> (r: Result<Vec<String>, StoreError>)
    ensures
        model::lists_members(
            model::texts_result(r),
            Ok::<Set<Seq<char>>, StoreError>(Set::empty()),
        ),
{
    let none: Vec<String> = Vec::new();
    assert(text::texts(none@).to_set() =~= Set::<Seq<char>>::empty());
    Ok(none)
}

/// The members that are in the set at every one of `keys`.
spec fn in_every(store: StoreView, keys: Seq<Seq<char>>, now: u64) -> Set<Seq<char>> {
    Set::new(
        |member: Seq<char>|
            forall|i: int|
                0 <= i < keys.len() ==> model::members_at(
                    store,
                    #[trigger] keys[i],
                    now,
                ).contains(member),
    )
}

proof fn lemma_in_every_step(
    store: StoreView,
    keys: Seq<Seq<char>>,
    i: int,
    now: u64,
    x: Seq<char>,
)
    requires
        0 <= i < keys.len(),
    ensures
        in_every(store, keys.take(i + 1), now).contains(x) == (in_every(
            store,
            keys.take(i),
            now,
        ).contains(x) && model::members_at(store, keys[i], now).contains(x)),
{
    let more = keys.take(i + 1);
    let fewer = keys.take(i);
    if in_every(store, more, now).contains(x) {
        assert forall|j: int| 0 <= j < fewer.len() implies model::members_at(
            store,
            #[trigger] fewer[j],
            now,
        ).contains(x) by {
            assert(fewer[j] == more[j]);
        }
        assert(more[i] == keys[i]);
    }
    if in_every(store, fewer, now).contains(x) && model::members_at(
        store,
        keys[i],
        now,
    ).contains(x) {
        assert forall|j: int| 0 <= j < more.len() implies model::members_at(
            store,
            #[trigger] more[j],
            now,
        ).contains(x) by {
            if j < i {
                assert(fewer[j] == more[j]);
            }
        }
    }
}

/// `found` lists, once each, the keys of `walked` that are in `wanted`.
spec fn lists_chosen(
    found: Seq<Seq<char>>,
    walked: Seq<Seq<char>>,
    wanted: Set<Seq<char>>,
) -> bool {
    &&& found.no_duplicates()
    &&& forall|k: Seq<char>| #[trigger]
        found.contains(k) == (walked.contains(k) && wanted.contains(k))
}

proof fn lemma_chosen_step(
    found: Seq<Seq<char>>,
    order: Seq<Seq<char>>,
    i: int,
    wanted: Set<Seq<char>>,
)
    requires
        0 <= i < order.len(),
        order.no_duplicates(),
        lists_chosen(found, order.take(i), wanted),
    ensures
        wanted.contains(order[i]) ==> lists_chosen(
            found.push(order[i]),
            order.take(i).push(order[i]),
            wanted,
        ),
        !wanted.contains(order[i]) ==> lists_chosen(found, order.take(i).push(order[i]), wanted),
{
    let key = order[i];
    assert(!order.take(i).contains(key));
    assert(!found.contains(key));
    assert forall|k: Seq<char>| #[trigger]
        found.push(key).contains(k) == (found.contains(k) || k == key) by {
        text::lemma_push_contains(found, key, k);
    }
    assert forall|k: Seq<char>| #[trigger]
        order.take(i).push(key).contains(k) == (order.take(i).contains(k) || k == key) by {
        text::lemma_push_contains(order.take(i), key, k);
    }
}

/// The fields and values of a hash in one list, each field before its value.
fn flatten(hash: &RHash) -> (r: Vec<String>)
    ensures
        model::lists_hash(text::texts(r@), hash@),
{
    let pairs = hash.hgetall();
    let ghost all = data_structure::pair_texts(pairs@);
    let mut flat: Vec<String> = Vec::new();
    assert(text::texts(flat@) =~= model::flattened(all.take(0)));
    for pair in it: pairs
        invariant
            all == data_structure::pair_texts(it.seq()),
            text::texts(flat@) == model::flattened(all.take(it.index())),
    {
        let (field, value) = pair;
        flat.push(field);
        flat.push(value);
        proof {
            let done = all.take(it.index());
            let more = all.take(it.index() + 1);
            assert(more =~= done.push((field@, value@)));
            assert(text::texts(flat@) =~= model::flattened(more));
        }
    }
    assert(all.take(all.len() as int) =~= all);
    flat
}

/// The values of a hash.
fn values_of(hash: &RHash) -> (r: Vec<String>)
    ensures
        model::lists_values(text::texts(r@), hash@),
{
    let r = hash.hvals();
    proof {
        let order = hash.order();
        assert(text::texts(r@) =~= order.map_values(|field: Seq<char>| hash@[field]));
        assert(keyed_map::enumerates(order, hash@.dom()));
    }
    r
}

impl Default for Database {
    fn default() -> (r: Self)
        ensures
            r@ == fresh_database(),
    {
        Database::new()
    }
}

impl Database {
    pub fn new() -> (r: Self)
        ensures
            r@ == fresh_database(),
    {
        Database::with_persistence(None, None)
    }

    /// Constructs a database with the given persistence backends: an optional
    /// snapshot path and an optional append-only log.
    pub fn with_persistence(snapshot_path: Option<String>, aof: Option<Aof>) -> (r: Self)
        ensures
            r@ == (DatabaseView {
                snapshot_path: resp::optional_text(snapshot_path),
                aof: policy_of(aof),
                ..fresh_database()
            }),
    {
        Database {
            store: Keyspace::new(),
            clients: 0,
            snapshot_path,
            aof,
            replaying: false,
            pubsub: PubSub::new(),
        }
    }

    /// The keyspace of every database is well-formed.
    pub(crate) fn note_well_formed(&self)
        ensures
            keyspace::well_formed(self@.store),
    {
        self.store.note_well_formed();
    }

    // --- Strings --------------------------------------------------------

    /// Stores a string at `key`, whatever was there before.
    pub fn set(&mut self, key: String, value: String, ttl: Option<u64>, now: u64)
        ensures
            final(self)@ == old(self)@.with_store(
                model::after_set(old(self)@.store, key@, value@, ttl, now),
            ),
    {
        let expires_at: Option<u128> = match ttl {
            Some(seconds) => Some(deadline_from(now, seconds)),
            None => None,
        };
        self.store.put(key, Entry { value: Value::Str(value), expires_at });
    }

    pub fn get(&mut self, key: &str, now: u64) -> (r: Result<Option<String>, StoreError>)
        ensures
            final(self)@ == old(self)@.with_store(keyspace::evicted(old(self)@.store, key@, now)),
            model::text_result(r) == model::string_at(old(self)@.store, key@, now),
    {
        self.store.evict(key, now);
        match self.store.live(key, now) {
            None => Ok(None),
            Some(entry) => match &entry.value {
                Value::Str(value) => Ok(Some(value.clone())),
                _ => Err(StoreError::WrongType),
            },
        }
    }

    /// Deletes `key` regardless of the type it holds. Returns `true` if a live
    /// key was removed.
    pub fn delete(&mut self, key: &str, now: u64) -> (r: bool)
        ensures
            final(self)@ == old(self)@.with_store(old(self)@.store.remove(key@)),
            r == keyspace::is_live(old(self)@.store, key@, now),
    {
        self.store.take(key, now).is_some()
    }

    /// Deletes each of `keys`, returning how many live keys were removed. Backs
    /// the variadic `DEL key [key ...]`.
    pub fn del(&mut self, keys: &[String], now: u64) -> (r: usize)
        ensures
            final(self)@ == old(self)@.with_store(
                old(self)@.store.remove_keys(text::texts(keys@).to_set()),
            ),
            r == model::deleted_count(old(self)@.store, text::texts(keys@), now),
    {
        let ghost before = self@.store;
        let ghost all = text::texts(keys@);
        let ghost gone = |key: Seq<char>| keyspace::is_live(before, key, now);
        let mut removed: usize = 0;
        let mut i: usize = 0;
        proof {
            assert(all.take(0).to_set() =~= Set::<Seq<char>>::empty());
            assert(all.take(0).to_set().filter(gone) =~= Set::<Seq<char>>::empty());
            assert(before.remove_keys(all.take(0).to_set()) =~= before);
        }
        while i < keys.len()
            invariant
                i <= keys@.len(),
                removed <= i,
                all == text::texts(keys@),
                before == old(self)@.store,
                gone == (|key: Seq<char>| keyspace::is_live(before, key, now)),
                self@ == old(self)@.with_store(before.remove_keys(all.take(i as int).to_set())),
                all.take(i as int).to_set().filter(gone).finite(),
                removed == all.take(i as int).to_set().filter(gone).len(),
            decreases keys@.len() - i,
        {
            let ghost done = all.take(i as int).to_set();
            let ghost key = all[i as int];
            proof {
                assert(all.take(i + 1) =~= all.take(i as int).push(key));
                text::lemma_push_to_set(all.take(i as int), key);
                assert(before.remove_keys(done).remove(key) =~= before.remove_keys(
                    done.insert(key),
                ));
                if keyspace::is_live(before.remove_keys(done), key, now) {
                    assert(!done.contains(key));
                    assert(done.insert(key).filter(gone) =~= done.filter(gone).insert(key));
                } else {
                    assert(done.insert(key).filter(gone) =~= done.filter(gone));
                }
            }
            if self.delete(keys[i].as_str(), now) {
                removed = removed + 1;
            }
            i = i + 1;
        }
        assert(all.take(i as int) =~= all);
        removed
    }

    /// Adds `delta` to the integer value at `key`, creating it (starting from 0)
    /// if absent and preserving any existing TTL. Backs `INCR`/`DECR`/`INCRBY`/
    /// `DECRBY`. Returns the new value.
    pub fn incr_by(&mut self, key: String, delta: i64, now: u64) -> (r: Result<i64, StoreError>)
        ensures
            final(self)@ == old(self)@.with_store(
                model::after_incr(old(self)@.store, key@, delta as int, now),
            ),
            model::number_result(r) == model::incr_result(
                old(self)@.store,
                key@,
                delta as int,
                now,
            ),
    {
        let (current, expires_at) = match self.store.live(key.as_str(), now) {
            None => (None, None),
            Some(entry) => match &entry.value {
                Value::Str(value) => (Some(value.clone()), entry.expires_at),
                _ => {
                    return Err(StoreError::WrongType);
                },
            },
        };
        let next: i64 = match add_to_text(&current, delta, StoreError::NotAnInteger) {
            Ok(next) => next,
            Err(error) => {
                return Err(error);
            },
        };
        self.store.put(key, Entry { value: Value::Str(text::i64_to_text(next)), expires_at });
        Ok(next)
    }

    /// Appends `suffix` to the string at `key`, creating it if absent. Returns
    /// the new length.
    pub fn append(&mut self, key: String, suffix: &str, now: u64) -> (r: Result<usize, StoreError>)
        ensures
            final(self)@ == old(self)@.with_store(
                model::after_append(old(self)@.store, key@, suffix@, now),
            ),
            model::count_result(r) == model::append_result(
                old(self)@.store,
                key@,
                suffix@,
                now,
            ),
    {
        let (mut value, expires_at) = match self.store.live(key.as_str(), now) {
            None => (String::new(), None),
            Some(entry) => match &entry.value {
                Value::Str(value) => (value.clone(), entry.expires_at),
                _ => {
                    return Err(StoreError::WrongType);
                },
            },
        };
        value.append(suffix);
        let length: usize = value.as_str().as_bytes().len();
        proof {
            let current = model::string_at(self@.store, key@, now)->Ok_0;
            assert(value@ =~= model::extended(current, suffix@));
        }
        self.store.put(key, Entry { value: Value::Str(value), expires_at });
        Ok(length)
    }

    pub fn strlen(&mut self, key: &str, now: u64) -> (r: Result<usize, StoreError>)
        ensures
            final(self)@ == old(self)@.with_store(keyspace::evicted(old(self)@.store, key@, now)),
            model::count_result(r) == model::strlen_result(old(self)@.store, key@, now),
    {
        self.store.evict(key, now);
        match self.store.live(key, now) {
            None => Ok(0),
            Some(entry) => match &entry.value {
                Value::Str(value) => Ok(value.as_str().as_bytes().len()),
                _ => Err(StoreError::WrongType),
            },
        }
    }

    /// Returns the string value of each key, with `None` for keys that are
    /// missing, expired, or hold a non-string type (as Redis' `MGET` does).
    pub fn mget(&self, keys: &[String], now: u64) -> (r: Vec<Option<String>>)
        ensures
            resp::optional_texts(r@) == model::mget_result(self@.store, text::texts(keys@), now),
    {
        let ghost wanted = model::mget_result(self@.store, text::texts(keys@), now);
        let mut r: Vec<Option<String>> = Vec::new();
        let mut i: usize = 0;
        while i < keys.len()
            invariant
                i <= keys@.len(),
                wanted == model::mget_result(self@.store, text::texts(keys@), now),
                r@.len() == i,
                forall|j: int| 0 <= j < i ==> resp::optional_text(#[trigger] r@[j]) == wanted[j],
            decreases keys@.len() - i,
        {
            let value: Option<String> = match self.store.live(keys[i].as_str(), now) {
                None => None,
                Some(entry) => match &entry.value {
                    Value::Str(value) => Some(value.clone()),
                    _ => None,
                },
            };
            r.push(value);
            i = i + 1;
        }
        assert(resp::optional_texts(r@) =~= wanted);
        r
    }

    /// Sets every (key, value) pair, overwriting any existing values.
    pub fn mset(&mut self, pairs: Vec<(String, String)>)
        ensures
            final(self)@ == old(self)@.with_store(
                model::after_mset(old(self)@.store, data_structure::pair_texts(pairs@)),
            ),
    {
        let ghost all = data_structure::pair_texts(pairs@);
        for pair in it: pairs
            invariant
                all == data_structure::pair_texts(it.seq()),
                self@ == old(self)@.with_store(
                    model::after_mset(old(self)@.store, all.take(it.index())),
                ),
        {
            let (key, value) = pair;
            proof {
                let next = all.take(it.index() + 1);
                assert(next.drop_last() =~= all.take(it.index()));
                assert(next.last() == (key@, value@));
            }
            self.store.put(key, Entry { value: Value::Str(value), expires_at: None });
        }
        assert(all.take(all.len() as int) =~= all);
    }

    /// Sets `key` only if it does not already exist. Returns `true` if it was
    /// set.
    pub fn setnx(&mut self, key: String, value: String, now: u64) -> (r: bool)
        ensures
            final(self)@ == old(self)@.with_store(
                model::after_setnx(old(self)@.store, key@, value@, now),
            ),
            r == !keyspace::is_live(old(self)@.store, key@, now),
    {
        if self.store.live(key.as_str(), now).is_some() {
            return false;
        }
        self.store.put(key, Entry { value: Value::Str(value), expires_at: None });
        true
    }

    /// Sets `key` to `value` and returns the previous string value (or `None`).
    /// Clears any existing TTL, as Redis' `GETSET` does.
    pub fn getset(&mut self, key: String, value: String, now: u64) -> (r: Result<
        Option<String>,
        StoreError,
    >)
        ensures
            final(self)@ == old(self)@.with_store(
                model::after_getset(old(self)@.store, key@, value@, now),
            ),
            model::text_result(r) == model::string_at(old(self)@.store, key@, now),
    {
        let previous: Option<String> = match self.store.live(key.as_str(), now) {
            None => None,
            Some(entry) => match &entry.value {
                Value::Str(current) => Some(current.clone()),
                _ => {
                    return Err(StoreError::WrongType);
                },
            },
        };
        self.store.put(key, Entry { value: Value::Str(value), expires_at: None });
        Ok(previous)
    }

    // --- Lists ----------------------------------------------------------

    pub fn lpush(&mut self, key: String, values: Vec<String>, now: u64) -> (r: Result<
        usize,
        StoreError,
    >)
        ensures
            final(self)@ == old(self)@.with_store(
                model::after_lpush(old(self)@.store, key@, text::texts(values@), now),
            ),
            model::count_result(r) == model::push_result(
                old(self)@.store,
                key@,
                text::texts(values@),
                now,
            ),
    {
        let ghost all = text::texts(values@);
        let (taken, expires_at) = match list_or_create(&mut self.store, key.as_str(), now) {
            Ok(taken) => taken,
            Err(error) => {
                return Err(error);
            },
        };
        let mut list: RList = taken;
        let ghost start = list@;
        assert(list@ =~= model::pushed_front(start, all.take(0)));
        for value in it: values
            invariant
                all == text::texts(it.seq()),
                list@ == model::pushed_front(start, all.take(it.index())),
        {
            assert(all.take(it.index() + 1) =~= all.take(it.index()).push(value@));
            list.lpush(value);
            assert(list@ =~= model::pushed_front(start, all.take(it.index() + 1)));
        }
        assert(all.take(all.len() as int) =~= all);
        let length: usize = list.len();
        self.store.put(key, Entry { value: Value::List(list), expires_at });
        assert(self.store@ =~= model::after_lpush(old(self)@.store, key@, all, now));
        Ok(length)
    }

    pub fn rpush(&mut self, key: String, values: Vec<String>, now: u64) -> (r: Result<
        usize,
        StoreError,
    >)
        ensures
            final(self)@ == old(self)@.with_store(
                model::after_rpush(old(self)@.store, key@, text::texts(values@), now),
            ),
            model::count_result(r) == model::push_result(
                old(self)@.store,
                key@,
                text::texts(values@),
                now,
            ),
    {
        let ghost all = text::texts(values@);
        let (taken, expires_at) = match list_or_create(&mut self.store, key.as_str(), now) {
            Ok(taken) => taken,
            Err(error) => {
                return Err(error);
            },
        };
        let mut list: RList = taken;
        let ghost start = list@;
        assert(list@ =~= start + all.take(0));
        for value in it: values
            invariant
                all == text::texts(it.seq()),
                list@ == start + all.take(it.index()),
        {
            assert(all.take(it.index() + 1) =~= all.take(it.index()).push(value@));
            list.rpush(value);
            assert(list@ =~= start + all.take(it.index() + 1));
        }
        assert(all.take(all.len() as int) =~= all);
        let length: usize = list.len();
        self.store.put(key, Entry { value: Value::List(list), expires_at });
        assert(self.store@ =~= model::after_rpush(old(self)@.store, key@, all, now));
        Ok(length)
    }

    pub fn lpop(&mut self, key: &str, now: u64) -> (r: Result<Option<String>, StoreError>)
        ensures
            final(self)@ == old(self)@.with_store(model::after_lpop(old(self)@.store, key@, now)),
            model::text_result(r) == model::lpop_result(old(self)@.store, key@, now),
    {
        let (taken, expires_at) = match list_or_create(&mut self.store, key, now) {
            Ok(taken) => taken,
            Err(error) => {
                return Err(error);
            },
        };
        let mut list: RList = taken;
        let popped = list.lpop();
        settle(&mut self.store, key, Value::List(list), expires_at);
        assert(self.store@ =~= model::after_lpop(old(self)@.store, key@, now));
        Ok(popped)
    }

    pub fn rpop(&mut self, key: &str, now: u64) -> (r: Result<Option<String>, StoreError>)
        ensures
            final(self)@ == old(self)@.with_store(model::after_rpop(old(self)@.store, key@, now)),
            model::text_result(r) == model::rpop_result(old(self)@.store, key@, now),
    {
        let (taken, expires_at) = match list_or_create(&mut self.store, key, now) {
            Ok(taken) => taken,
            Err(error) => {
                return Err(error);
            },
        };
        let mut list: RList = taken;
        let popped = list.rpop();
        settle(&mut self.store, key, Value::List(list), expires_at);
        assert(self.store@ =~= model::after_rpop(old(self)@.store, key@, now));
        Ok(popped)
    }

    pub fn lrange(&mut self, key: &str, start: i64, stop: i64, now: u64) -> (r: Result<
        Vec<String>,
        StoreError,
    >)
        ensures
            final(self)@ == old(self)@.with_store(keyspace::evicted(old(self)@.store, key@, now)),
            model::texts_result(r) == model::lrange_result(
                old(self)@.store,
                key@,
                start as int,
                stop as int,
                now,
            ),
    {
        self.store.evict(key, now);
        match self.store.live(key, now) {
            None => no_texts(),
            Some(entry) => match &entry.value {
                Value::List(list) => Ok(list.lrange(start, stop)),
                _ => Err(StoreError::WrongType),
            },
        }
    }

    pub fn llen(&mut self, key: &str, now: u64) -> (r: Result<usize, StoreError>)
        ensures
            final(self)@ == old(self)@.with_store(keyspace::evicted(old(self)@.store, key@, now)),
            model::count_result(r) == model::llen_result(old(self)@.store, key@, now),
    {
        self.store.evict(key, now);
        match self.store.live(key, now) {
            None => Ok(0),
            Some(entry) => match &entry.value {
                Value::List(list) => Ok(list.len()),
                _ => Err(StoreError::WrongType),
            },
        }
    }

    pub fn lindex(&mut self, key: &str, index: i64, now: u64) -> (r: Result<
        Option<String>,
        StoreError,
    >)
        ensures
            final(self)@ == old(self)@.with_store(keyspace::evicted(old(self)@.store, key@, now)),
            model::text_result(r) == model::lindex_result(
                old(self)@.store,
                key@,
                index as int,
                now,
            ),
    {
        self.store.evict(key, now);
        match self.store.live(key, now) {
            None => Ok(None),
            Some(entry) => match &entry.value {
                Value::List(list) => Ok(list.lindex(index)),
                _ => Err(StoreError::WrongType),
            },
        }
    }

    /// Overwrites the element at `index`. Errors with [`StoreError::NoSuchKey`]
    /// if the key is missing and [`StoreError::IndexOutOfRange`] if the index is
    /// out of bounds.
    pub fn lset(&mut self, key: &str, index: i64, value: String, now: u64) -> (r: Result<
        (),
        StoreError,
    >)
        ensures
            final(self)@ == old(self)@.with_store(
                model::after_lset(old(self)@.store, key@, index as int, value@, now),
            ),
            r == model::lset_result(old(self)@.store, key@, index as int, now),
    {
        match self.store.take(key, now) {
            None => {
                assert(self.store@ =~= keyspace::evicted(old(self)@.store, key@, now));
                Err(StoreError::NoSuchKey)
            },
            Some(entry) => match entry {
                Entry { value: Value::List(mut list), expires_at } => {
                    let stored = list.lset(index, value);
                    self.store.put(key.to_owned(), Entry { value: Value::List(list), expires_at });
                    assert(self.store@ =~= model::after_lset(
                        old(self)@.store,
                        key@,
                        index as int,
                        value@,
                        now,
                    ));
                    if stored {
                        Ok(())
                    } else {
                        Err(StoreError::IndexOutOfRange)
                    }
                },
                other => {
                    self.store.put(key.to_owned(), other);
                    assert(self.store@ =~= old(self)@.store);
                    Err(StoreError::WrongType)
                },
            },
        }
    }

    // --- Sets -----------------------------------------------------------

    pub fn sadd(&mut self, key: String, values: Vec<String>, now: u64) -> (r: Result<
        usize,
        StoreError,
    >)
        ensures
            final(self)@ == old(self)@.with_store(
                model::after_sadd(old(self)@.store, key@, text::texts(values@), now),
            ),
            model::count_result(r) == model::sadd_result(
                old(self)@.store,
                key@,
                text::texts(values@),
                now,
            ),
            model::set_at(old(self)@.store, key@, now) matches Ok(members) ==> members.finite(),
    {
        self.note_well_formed();
        proof {
            model::lemma_found_is_well_formed(self@.store, key@, now);
        }
        let ghost all = text::texts(values@);
        let (taken, expires_at) = match set_or_create(&mut self.store, key.as_str(), now) {
            Ok(taken) => taken,
            Err(error) => {
                return Err(error);
            },
        };
        let mut set: RSet = taken;
        let ghost start = set@;
        let before: usize = set.scard();
        assert(set@ =~= start.union(all.take(0).to_set()));
        for value in it: values
            invariant
                all == text::texts(it.seq()),
                set@ == start.union(all.take(it.index()).to_set()),
        {
            proof {
                assert(all.take(it.index() + 1) =~= all.take(it.index()).push(value@));
                text::lemma_push_to_set(all.take(it.index()), value@);
            }
            set.sadd(value);
            assert(set@ =~= start.union(all.take(it.index() + 1).to_set()));
        }
        assert(all.take(all.len() as int) =~= all);
        let after: usize = set.scard();
        proof {
            vstd::set_lib::lemma_len_subset(start, set@);
        }
        self.store.put(key, Entry { value: Value::StrSet(set), expires_at });
        assert(self.store@ =~= model::after_sadd(old(self)@.store, key@, all, now));
        Ok(after - before)
    }

    pub fn srem(&mut self, key: &str, values: &[String], now: u64) -> (r: Result<usize, StoreError>)
        ensures
            final(self)@ == old(self)@.with_store(
                model::after_srem(old(self)@.store, key@, text::texts(values@), now),
            ),
            model::count_result(r) == model::srem_result(
                old(self)@.store,
                key@,
                text::texts(values@),
                now,
            ),
            model::set_at(old(self)@.store, key@, now) matches Ok(members) ==> members.finite(),
    {
        self.note_well_formed();
        proof {
            model::lemma_found_is_well_formed(self@.store, key@, now);
        }
        let ghost all = text::texts(values@);
        let (taken, expires_at) = match set_or_create(&mut self.store, key, now) {
            Ok(taken) => taken,
            Err(error) => {
                return Err(error);
            },
        };
        let mut set: RSet = taken;
        let ghost start = set@;
        let before: usize = set.scard();
        let mut i: usize = 0;
        assert(set@ =~= start.difference(all.take(0).to_set()));
        while i < values.len()
            invariant
                i <= values@.len(),
                all == text::texts(values@),
                set@ == start.difference(all.take(i as int).to_set()),
            decreases values@.len() - i,
        {
            proof {
                assert(all.take(i + 1) =~= all.take(i as int).push(all[i as int]));
                text::lemma_push_to_set(all.take(i as int), all[i as int]);
            }
            set.srem(values[i].as_str());
            assert(set@ =~= start.difference(all.take(i + 1).to_set()));
            i = i + 1;
        }
        assert(all.take(i as int) =~= all);
        let after: usize = set.scard();
        proof {
            vstd::set_lib::lemma_len_subset(set@, start);
        }
        settle(&mut self.store, key, Value::StrSet(set), expires_at);
        assert(self.store@ =~= model::after_srem(old(self)@.store, key@, all, now));
        Ok(before - after)
    }

    /// The members of the set at `key`, in no particular order.
    pub fn smembers(&mut self, key: &str, now: u64) -> (r: Result<Vec<String>, StoreError>)
        ensures
            final(self)@ == old(self)@.with_store(keyspace::evicted(old(self)@.store, key@, now)),
            model::lists_members(
                model::texts_result(r),
                model::set_at(old(self)@.store, key@, now),
            ),
    {
        self.store.evict(key, now);
        match self.store.live(key, now) {
            None => no_members(),
            Some(entry) => match &entry.value {
                Value::StrSet(set) => Ok(set.smembers()),
                _ => Err(StoreError::WrongType),
            },
        }
    }

    pub fn sismember(&mut self, key: &str, value: &str, now: u64) -> (r: Result<bool, StoreError>)
        ensures
            final(self)@ == old(self)@.with_store(keyspace::evicted(old(self)@.store, key@, now)),
            r == model::sismember_result(old(self)@.store, key@, value@, now),
    {
        self.store.evict(key, now);
        match self.store.live(key, now) {
            None => Ok(false),
            Some(entry) => match &entry.value {
                Value::StrSet(set) => Ok(set.sismember(value)),
                _ => Err(StoreError::WrongType),
            },
        }
    }

    pub fn scard(&mut self, key: &str, now: u64) -> (r: Result<usize, StoreError>)
        ensures
            final(self)@ == old(self)@.with_store(keyspace::evicted(old(self)@.store, key@, now)),
            model::count_result(r) == model::scard_result(old(self)@.store, key@, now),
            model::set_at(old(self)@.store, key@, now) matches Ok(members) ==> members.finite(),
    {
        self.note_well_formed();
        proof {
            model::lemma_found_is_well_formed(self@.store, key@, now);
        }
        self.store.evict(key, now);
        match self.store.live(key, now) {
            None => Ok(0),
            Some(entry) => match &entry.value {
                Value::StrSet(set) => Ok(set.scard()),
                _ => Err(StoreError::WrongType),
            },
        }
    }

    /// Removes and returns an arbitrary member, dropping the key if the set
    /// becomes empty.
    pub fn spop(&mut self, key: &str, now: u64) -> (r: Result<Option<String>, StoreError>)
        ensures
            final(self)@ == old(self)@.with_store(final(self)@.store),
            model::pops_member(
                old(self)@.store,
                key@,
                now,
                model::text_result(r),
                final(self)@.store,
            ),
    {
        let (taken, expires_at) = match set_or_create(&mut self.store, key, now) {
            Ok(taken) => taken,
            Err(error) => {
                return Err(error);
            },
        };
        let mut set: RSet = taken;
        let ghost start = set@;
        let popped = set.spop();
        settle(&mut self.store, key, Value::StrSet(set), expires_at);
        proof {
            let before = old(self)@.store;
            if popped is Some {
                assert(self.store@ =~= model::settled(
                    before,
                    key@,
                    ValueView::StrSet(start.remove(popped->Some_0@)),
                    now,
                ));
            } else {
                assert(self.store@ =~= before.remove(key@));
            }
        }
        Ok(popped)
    }

    /// Returns the intersection of the given sets. Missing keys are empty sets.
    pub fn sinter(&self, keys: &[String], now: u64) -> (r: Result<Vec<String>, StoreError>)
        ensures
            model::lists_members(
                model::texts_result(r),
                model::sinter_result(self@.store, text::texts(keys@), now),
            ),
    {
        let ghost all = text::texts(keys@);
        let ghost store = self@.store;
        let mut common = RSet::new();
        let mut i: usize = 0;
        while i < keys.len()
            invariant
                i <= keys@.len(),
                all == text::texts(keys@),
                store == self@.store,
                forall|j: int| 0 <= j < i ==> model::set_at(store, #[trigger] all[j], now) is Ok,
                i == 0 ==> common@ == Set::<Seq<char>>::empty(),
                i > 0 ==> common@ == in_every(store, all.take(i as int), now),
            decreases keys@.len() - i,
        {
            let members = match set_members_of(&self.store, keys[i].as_str(), now) {
                Ok(members) => members,
                Err(error) => {
                    assert(model::set_at(store, all[i as int], now) is Err);
                    return Err(error);
                },
            };
            let ghost listed = text::texts(members@);
            let mut both = RSet::new();
            let mut j: usize = 0;
            while j < members.len()
                invariant
                    j <= members@.len(),
                    listed == text::texts(members@),
                    forall|x: Seq<char>| #[trigger]
                        both@.contains(x) == (listed.take(j as int).contains(x) && (i == 0
                            || common@.contains(x))),
                decreases members@.len() - j,
            {
                let ghost earlier = both@;
                let member = members[j].clone();
                proof {
                    assert(listed.take(j + 1) =~= listed.take(j as int).push(member@));
                }
                if i == 0 || common.sismember(member.as_str()) {
                    both.sadd(member);
                }
                proof {
                    assert forall|x: Seq<char>| #[trigger]
                        both@.contains(x) == (listed.take(j + 1).contains(x) && (i == 0
                            || common@.contains(x))) by {
                        text::lemma_push_contains(listed.take(j as int), member@, x);
                        assert(earlier.contains(x) == (listed.take(j as int).contains(x) && (i
                            == 0 || common@.contains(x))));
                    }
                }
                j = j + 1;
            }
            proof {
                let next = all.take(i + 1);
                assert(listed.take(j as int) =~= listed);
                assert(both@ =~= in_every(store, next, now)) by {
                    assert forall|x: Seq<char>| #[trigger]
                        both@.contains(x) == in_every(store, next, now).contains(x) by {
                        assert(listed.contains(x) == listed.to_set().contains(x));
                        lemma_in_every_step(store, all, i as int, now, x);
                    }
                }
            }
            common = both;
            i = i + 1;
        }
        assert(all.take(i as int) =~= all);
        proof {
            assert(!model::some_not_set(store, all, now));
            let wanted = model::sinter_result(store, all, now)->Ok_0;
            assert(common@ =~= wanted);
        }
        Ok(common.smembers())
    }

    /// Returns the union of the given sets.
    pub fn sunion(&self, keys: &[String], now: u64) -> (r: Result<Vec<String>, StoreError>)
        ensures
            model::lists_members(
                model::texts_result(r),
                model::sunion_result(self@.store, text::texts(keys@), now),
            ),
    {
        let ghost all = text::texts(keys@);
        let ghost store = self@.store;
        let mut union = RSet::new();
        let mut i: usize = 0;
        while i < keys.len()
            invariant
                i <= keys@.len(),
                all == text::texts(keys@),
                store == self@.store,
                forall|j: int| 0 <= j < i ==> model::set_at(store, #[trigger] all[j], now) is Ok,
                forall|x: Seq<char>| #[trigger]
                    union@.contains(x) == (exists|j: int|
                        0 <= j < i && model::members_at(store, #[trigger] all[j], now).contains(x)),
            decreases keys@.len() - i,
        {
            let members = match set_members_of(&self.store, keys[i].as_str(), now) {
                Ok(members) => members,
                Err(error) => {
                    assert(model::set_at(store, all[i as int], now) is Err);
                    return Err(error);
                },
            };
            let ghost listed = text::texts(members@);
            let ghost start = union@;
            let mut j: usize = 0;
            while j < members.len()
                invariant
                    j <= members@.len(),
                    listed == text::texts(members@),
                    forall|x: Seq<char>| #[trigger]
                        union@.contains(x) == (start.contains(x) || listed.take(
                            j as int,
                        ).contains(x)),
                decreases members@.len() - j,
            {
                let ghost earlier = union@;
                let member = members[j].clone();
                assert(listed.take(j + 1) =~= listed.take(j as int).push(member@));
                union.sadd(member);
                proof {
                    assert forall|x: Seq<char>| #[trigger]
                        union@.contains(x) == (start.contains(x) || listed.take(j + 1).contains(
                            x,
                        )) by {
                        text::lemma_push_contains(listed.take(j as int), member@, x);
                        assert(earlier.contains(x) == (start.contains(x) || listed.take(
                            j as int,
                        ).contains(x)));
                    }
                }
                j = j + 1;
            }
            proof {
                assert(listed.take(j as int) =~= listed);
                assert forall|x: Seq<char>| #[trigger]
                    union@.contains(x) == (exists|k: int|
                        0 <= k < i + 1 && model::members_at(
                            store,
                            #[trigger] all[k],
                            now,
                        ).contains(x)) by {
                    assert(listed.contains(x) == listed.to_set().contains(x));
                    assert(listed.to_set() == model::members_at(store, all[i as int], now));
                    assert(start.contains(x) == (exists|k: int|
                        0 <= k < i && model::members_at(
                            store,
                            #[trigger] all[k],
                            now,
                        ).contains(x)));
                    if union@.contains(x) {
                        if start.contains(x) {
                            let k = choose|k: int|
                                0 <= k < i && model::members_at(
                                    store,
                                    #[trigger] all[k],
                                    now,
                                ).contains(x);
                            assert(model::members_at(store, all[k], now).contains(x));
                        } else {
                            assert(model::members_at(store, all[i as int], now).contains(x));
                        }
                    }
                }
            }
            i = i + 1;
        }
        proof {
            assert(!model::some_not_set(store, all, now));
            let wanted = model::sunion_result(store, all, now)->Ok_0;
            assert(union@ =~= wanted);
        }
        Ok(union.smembers())
    }

    /// Returns the members of the first set that are not in any of the rest.
    pub fn sdiff(&self, keys: &[String], now: u64) -> (r: Result<Vec<String>, StoreError>)
        ensures
            model::lists_members(
                model::texts_result(r),
                model::sdiff_result(self@.store, text::texts(keys@), now),
            ),
    {
        let ghost all = text::texts(keys@);
        let ghost store = self@.store;
        let mut left = RSet::new();
        let mut i: usize = 0;
        while i < keys.len()
            invariant
                i <= keys@.len(),
                all == text::texts(keys@),
                store == self@.store,
                forall|j: int| 0 <= j < i ==> model::set_at(store, #[trigger] all[j], now) is Ok,
                forall|x: Seq<char>| #[trigger]
                    left@.contains(x) == (i > 0 && model::members_at(store, all[0], now).contains(
                        x,
                    ) && forall|j: int|
                        1 <= j < i ==> !model::members_at(
                            store,
                            #[trigger] all[j],
                            now,
                        ).contains(x)),
            decreases keys@.len() - i,
        {
            let members = match set_members_of(&self.store, keys[i].as_str(), now) {
                Ok(members) => members,
                Err(error) => {
                    assert(model::set_at(store, all[i as int], now) is Err);
                    return Err(error);
                },
            };
            let ghost listed = text::texts(members@);
            let ghost start = left@;
            let mut j: usize = 0;
            while j < members.len()
                invariant
                    j <= members@.len(),
                    listed == text::texts(members@),
                    forall|x: Seq<char>| #[trigger]
                        left@.contains(x) == if i == 0 {
                            start.contains(x) || listed.take(j as int).contains(x)
                        } else {
                            start.contains(x) && !listed.take(j as int).contains(x)
                        },
                decreases members@.len() - j,
            {
                let ghost earlier = left@;
                let member = members[j].clone();
                assert(listed.take(j + 1) =~= listed.take(j as int).push(member@));
                if i == 0 {
                    left.sadd(member);
                } else {
                    left.srem(member.as_str());
                }
                proof {
                    assert forall|x: Seq<char>| #[trigger]
                        left@.contains(x) == if i == 0 {
                            start.contains(x) || listed.take(j + 1).contains(x)
                        } else {
                            start.contains(x) && !listed.take(j + 1).contains(x)
                        } by {
                        text::lemma_push_contains(listed.take(j as int), member@, x);
                        assert(earlier.contains(x) == if i == 0 {
                            start.contains(x) || listed.take(j as int).contains(x)
                        } else {
                            start.contains(x) && !listed.take(j as int).contains(x)
                        });
                    }
                }
                j = j + 1;
            }
            proof {
                assert(listed.take(j as int) =~= listed);
                assert forall|x: Seq<char>| #[trigger]
                    left@.contains(x) == (model::members_at(store, all[0], now).contains(x)
                        && forall|k: int|
                        1 <= k < i + 1 ==> !model::members_at(
                            store,
                            #[trigger] all[k],
                            now,
                        ).contains(x)) by {
                    assert(listed.contains(x) == listed.to_set().contains(x));
                    assert(listed.to_set() == model::members_at(store, all[i as int], now));
                    assert(start.contains(x) == (i > 0 && model::members_at(
                        store,
                        all[0],
                        now,
                    ).contains(x) && forall|k: int|
                        1 <= k < i ==> !model::members_at(
                            store,
                            #[trigger] all[k],
                            now,
                        ).contains(x)));
                }
            }
            i = i + 1;
        }
        proof {
            assert(!model::some_not_set(store, all, now));
            let wanted = model::sdiff_result(store, all, now)->Ok_0;
            assert(left@ =~= wanted);
        }
        Ok(left.smembers())
    }

    // --- Sorted sets ----------------------------------------------------

    /// Adds members to the sorted set at `key`. Returns how many are new.
    pub fn zadd(&mut self, key: String, members: Vec<(Score, String)>, now: u64) -> (r: Result<
        usize,
        StoreError,
    >)
        ensures
            final(self)@ == old(self)@.with_store(
                model::after_zadd(old(self)@.store, key@, model::added_texts(members@), now),
            ),
            model::count_result(r) == model::zadd_result(
                old(self)@.store,
                key@,
                model::added_texts(members@),
                now,
            ),
            model::zset_at(old(self)@.store, key@, now) matches Ok(
                members,
            ) ==> members.dom().finite(),
    {
        self.note_well_formed();
        proof {
            model::lemma_found_is_well_formed(self@.store, key@, now);
        }
        let ghost all = model::added_texts(members@);
        let (taken, expires_at) = match sorted_set_or_create(&mut self.store, key.as_str(), now) {
            Ok(taken) => taken,
            Err(error) => {
                return Err(error);
            },
        };
        let mut zset: RSortedSet = taken;
        let ghost start = zset@;
        let before: usize = zset.zcard();
        for item in it: members
            invariant
                all == model::added_texts(it.seq()),
                zset@ == model::zset_add_all(start, all.take(it.index())),
                start.dom().subset_of(zset@.dom()),
        {
            let (score, member) = item;
            proof {
                let next = all.take(it.index() + 1);
                assert(next.drop_last() =~= all.take(it.index()));
                assert(next.last() == (score@, member@));
            }
            zset.zadd(score, member);
        }
        assert(all.take(all.len() as int) =~= all);
        let after: usize = zset.zcard();
        proof {
            vstd::set_lib::lemma_len_subset(start.dom(), zset@.dom());
        }
        self.store.put(key, Entry { value: Value::SortedSet(zset), expires_at });
        assert(self.store@ =~= model::after_zadd(old(self)@.store, key@, all, now));
        Ok(after - before)
    }

    pub fn zrem(&mut self, key: &str, member: &str, now: u64) -> (r: Result<bool, StoreError>)
        ensures
            final(self)@ == old(self)@.with_store(
                model::after_zrem(old(self)@.store, key@, member@, now),
            ),
            r == model::zrem_result(old(self)@.store, key@, member@, now),
    {
        let (taken, expires_at) = match sorted_set_or_create(&mut self.store, key, now) {
            Ok(taken) => taken,
            Err(error) => {
                return Err(error);
            },
        };
        let mut zset: RSortedSet = taken;
        let removed = zset.zrem(member);
        settle(&mut self.store, key, Value::SortedSet(zset), expires_at);
        assert(self.store@ =~= model::after_zrem(old(self)@.store, key@, member@, now));
        Ok(removed)
    }

    /// Returns members in the inclusive `[start, stop]` rank range.
    pub fn zrange(&mut self, key: &str, start: i64, stop: i64, now: u64) -> (r: Result<
        Vec<String>,
        StoreError,
    >)
        ensures
            final(self)@ == old(self)@.with_store(keyspace::evicted(old(self)@.store, key@, now)),
            model::texts_result(r) == model::zrange_result(
                old(self)@.store,
                key@,
                start as int,
                stop as int,
                now,
            ),
            model::zset_at(old(self)@.store, key@, now) matches Ok(members) ==> score::is_ranking(
                score::ranking(members),
                members,
            ),
    {
        self.note_well_formed();
        proof {
            model::lemma_found_is_well_formed(self@.store, key@, now);
        }
        self.store.evict(key, now);
        match self.store.live(key, now) {
            None => Ok(RSortedSet::new().zrange(start, stop)),
            Some(entry) => match &entry.value {
                Value::SortedSet(zset) => Ok(zset.zrange(start, stop)),
                _ => Err(StoreError::WrongType),
            },
        }
    }

    pub fn zscore(&mut self, key: &str, member: &str, now: u64) -> (r: Result<
        Option<Score>,
        StoreError,
    >)
        ensures
            final(self)@ == old(self)@.with_store(keyspace::evicted(old(self)@.store, key@, now)),
            model::score_result(r) == model::zscore_result(old(self)@.store, key@, member@, now),
    {
        self.store.evict(key, now);
        match self.store.live(key, now) {
            None => Ok(None),
            Some(entry) => match &entry.value {
                Value::SortedSet(zset) => Ok(zset.zscore(member)),
                _ => Err(StoreError::WrongType),
            },
        }
    }

    pub fn zcard(&mut self, key: &str, now: u64) -> (r: Result<usize, StoreError>)
        ensures
            final(self)@ == old(self)@.with_store(keyspace::evicted(old(self)@.store, key@, now)),
            model::count_result(r) == model::zcard_result(old(self)@.store, key@, now),
            model::zset_at(old(self)@.store, key@, now) matches Ok(
                members,
            ) ==> members.dom().finite(),
    {
        self.note_well_formed();
        proof {
            model::lemma_found_is_well_formed(self@.store, key@, now);
        }
        self.store.evict(key, now);
        match self.store.live(key, now) {
            None => Ok(0),
            Some(entry) => match &entry.value {
                Value::SortedSet(zset) => Ok(zset.zcard()),
                _ => Err(StoreError::WrongType),
            },
        }
    }

    /// Returns the 0-based rank of `member`.
    pub fn zrank(&mut self, key: &str, member: &str, now: u64) -> (r: Result<
        Option<usize>,
        StoreError,
    >)
        ensures
            final(self)@ == old(self)@.with_store(keyspace::evicted(old(self)@.store, key@, now)),
            model::rank_result(r) == model::zrank_result(old(self)@.store, key@, member@, now),
            model::zset_at(old(self)@.store, key@, now) matches Ok(members) ==> score::is_ranking(
                score::ranking(members),
                members,
            ),
    {
        self.note_well_formed();
        proof {
            model::lemma_found_is_well_formed(self@.store, key@, now);
        }
        self.store.evict(key, now);
        match self.store.live(key, now) {
            None => Ok(None),
            Some(entry) => match &entry.value {
                Value::SortedSet(zset) => Ok(zset.zrank(member)),
                _ => Err(StoreError::WrongType),
            },
        }
    }

    /// Gives `member` the score `sum`, creating the sorted set (and the member)
    /// if absent: the second half of `ZINCRBY`, whose first half is to read the
    /// member's score with [`zscore`](Self::zscore) and add the increment to it
    /// (or to 0). Returns the new score.
    pub fn zincrby(&mut self, key: String, sum: Score, member: String, now: u64) -> (r: Result<
        Score,
        StoreError,
    >)
        ensures
            final(self)@ == old(self)@.with_store(
                model::after_zincrby(old(self)@.store, key@, sum@, member@, now),
            ),
            match r {
                Ok(score) => model::zset_at(old(self)@.store, key@, now) is Ok && score@ == sum@,
                Err(error) => model::zset_at(old(self)@.store, key@, now) == Err::<
                    Map<Seq<char>, ScoreView>,
                    StoreError,
                >(error),
            },
    {
        let (taken, expires_at) = match sorted_set_or_create(&mut self.store, key.as_str(), now) {
            Ok(taken) => taken,
            Err(error) => {
                return Err(error);
            },
        };
        let mut zset: RSortedSet = taken;
        let result = sum.duplicate();
        zset.zadd(sum, member);
        self.store.put(key, Entry { value: Value::SortedSet(zset), expires_at });
        assert(self.store@ =~= model::after_zincrby(
            old(self)@.store,
            key@,
            sum@,
            member@,
            now,
        ));
        Ok(result)
    }

    /// Like [`zrange`](Self::zrange), with each member's score.
    pub fn zrange_with_scores(&mut self, key: &str, start: i64, stop: i64, now: u64) -> (r: Result<
        Vec<(String, Score)>,
        StoreError,
    >)
        ensures
            final(self)@ == old(self)@.with_store(keyspace::evicted(old(self)@.store, key@, now)),
            model::scored_result(r) == model::zrange_scored_result(
                old(self)@.store,
                key@,
                start as int,
                stop as int,
                now,
            ),
            model::zset_at(old(self)@.store, key@, now) matches Ok(members) ==> score::is_ranking(
                score::ranking(members),
                members,
            ),
    {
        self.note_well_formed();
        proof {
            model::lemma_found_is_well_formed(self@.store, key@, now);
        }
        self.store.evict(key, now);
        match self.store.live(key, now) {
            None => Ok(RSortedSet::new().zrange_with_scores(start, stop)),
            Some(entry) => match &entry.value {
                Value::SortedSet(zset) => Ok(zset.zrange_with_scores(start, stop)),
                _ => Err(StoreError::WrongType),
            },
        }
    }

    /// Returns members whose score falls within the given bounds.
    pub fn zrange_by_score(
        &mut self,
        key: &str,
        min: &Score,
        min_inclusive: bool,
        max: &Score,
        max_inclusive: bool,
        now: u64,
    ) -> (r: Result<Vec<String>, StoreError>)
        ensures
            final(self)@ == old(self)@.with_store(keyspace::evicted(old(self)@.store, key@, now)),
            model::texts_result(r) == model::zrange_by_score_result(
                old(self)@.store,
                key@,
                min.bits,
                min_inclusive,
                max.bits,
                max_inclusive,
                now,
            ),
            model::zset_at(old(self)@.store, key@, now) matches Ok(members) ==> score::is_ranking(
                score::ranking(members),
                members,
            ),
    {
        self.note_well_formed();
        proof {
            model::lemma_found_is_well_formed(self@.store, key@, now);
        }
        self.store.evict(key, now);
        match self.store.live(key, now) {
            None => Ok(RSortedSet::new().zrange_by_score(min, min_inclusive, max, max_inclusive)),
            Some(entry) => match &entry.value {
                Value::SortedSet(zset) => Ok(
                    zset.zrange_by_score(min, min_inclusive, max, max_inclusive),
                ),
                _ => Err(StoreError::WrongType),
            },
        }
    }

    // --- Hashes ---------------------------------------------------------

    /// Sets a field of the hash at `key`. Returns `true` if the field is new.
    pub fn hset(&mut self, key: String, field: String, value: String, now: u64) -> (r: Result<
        bool,
        StoreError,
    >)
        ensures
            final(self)@ == old(self)@.with_store(
                model::after_hset(old(self)@.store, key@, field@, value@, now),
            ),
            r == model::hset_result(old(self)@.store, key@, field@, now),
    {
        let (taken, expires_at) = match hash_or_create(&mut self.store, key.as_str(), now) {
            Ok(taken) => taken,
            Err(error) => {
                return Err(error);
            },
        };
        let mut hash: RHash = taken;
        let added = hash.hset(field, value);
        self.store.put(key, Entry { value: Value::Hash(hash), expires_at });
        assert(self.store@ =~= model::after_hset(old(self)@.store, key@, field@, value@, now));
        Ok(added)
    }

    pub fn hget(&mut self, key: &str, field: &str, now: u64) -> (r: Result<
        Option<String>,
        StoreError,
    >)
        ensures
            final(self)@ == old(self)@.with_store(keyspace::evicted(old(self)@.store, key@, now)),
            model::text_result(r) == model::hget_result(old(self)@.store, key@, field@, now),
    {
        self.store.evict(key, now);
        match self.store.live(key, now) {
            None => Ok(None),
            Some(entry) => match &entry.value {
                Value::Hash(hash) => match hash.hget(field) {
                    Some(value) => Ok(Some(value.clone())),
                    None => Ok(None),
                },
                _ => Err(StoreError::WrongType),
            },
        }
    }

    pub fn hdel(&mut self, key: &str, field: &str, now: u64) -> (r: Result<bool, StoreError>)
        ensures
            final(self)@ == old(self)@.with_store(
                model::after_hdel(old(self)@.store, key@, field@, now),
            ),
            r == model::hexists_result(old(self)@.store, key@, field@, now),
    {
        let (taken, expires_at) = match hash_or_create(&mut self.store, key, now) {
            Ok(taken) => taken,
            Err(error) => {
                return Err(error);
            },
        };
        let mut hash: RHash = taken;
        let removed = hash.hdel(field);
        settle(&mut self.store, key, Value::Hash(hash), expires_at);
        assert(self.store@ =~= model::after_hdel(old(self)@.store, key@, field@, now));
        Ok(removed)
    }

    /// Returns the hash as a flat `[field, value, field, value, ...]` vector,
    /// the order `HGETALL` replies in.
    pub fn hgetall(&mut self, key: &str, now: u64) -> (r: Result<Vec<String>, StoreError>)
        ensures
            final(self)@ == old(self)@.with_store(keyspace::evicted(old(self)@.store, key@, now)),
            model::is_hgetall(old(self)@.store, key@, now, model::texts_result(r)),
    {
        self.store.evict(key, now);
        match self.store.live(key, now) {
            None => {
                let hash = RHash::new();
                Ok(flatten(&hash))
            },
            Some(entry) => match &entry.value {
                Value::Hash(hash) => Ok(flatten(hash)),
                _ => Err(StoreError::WrongType),
            },
        }
    }

    pub fn hkeys(&mut self, key: &str, now: u64) -> (r: Result<Vec<String>, StoreError>)
        ensures
            final(self)@ == old(self)@.with_store(keyspace::evicted(old(self)@.store, key@, now)),
            model::lists_members(
                model::texts_result(r),
                model::hkeys_result(old(self)@.store, key@, now),
            ),
    {
        self.store.evict(key, now);
        match self.store.live(key, now) {
            None => Ok(RHash::new().hkeys()),
            Some(entry) => match &entry.value {
                Value::Hash(hash) => Ok(hash.hkeys()),
                _ => Err(StoreError::WrongType),
            },
        }
    }

    pub fn hvals(&mut self, key: &str, now: u64) -> (r: Result<Vec<String>, StoreError>)
        ensures
            final(self)@ == old(self)@.with_store(keyspace::evicted(old(self)@.store, key@, now)),
            model::is_hvals(old(self)@.store, key@, now, model::texts_result(r)),
    {
        self.store.evict(key, now);
        match self.store.live(key, now) {
            None => {
                let hash = RHash::new();
                Ok(values_of(&hash))
            },
            Some(entry) => match &entry.value {
                Value::Hash(hash) => Ok(values_of(hash)),
                _ => Err(StoreError::WrongType),
            },
        }
    }

    pub fn hlen(&mut self, key: &str, now: u64) -> (r: Result<usize, StoreError>)
        ensures
            final(self)@ == old(self)@.with_store(keyspace::evicted(old(self)@.store, key@, now)),
            model::count_result(r) == model::hlen_result(old(self)@.store, key@, now),
            model::hash_at(old(self)@.store, key@, now) matches Ok(
                fields,
            ) ==> fields.dom().finite(),
    {
        self.note_well_formed();
        proof {
            model::lemma_found_is_well_formed(self@.store, key@, now);
        }
        self.store.evict(key, now);
        match self.store.live(key, now) {
            None => Ok(0),
            Some(entry) => match &entry.value {
                Value::Hash(hash) => Ok(hash.hlen()),
                _ => Err(StoreError::WrongType),
            },
        }
    }

    pub fn hexists(&mut self, key: &str, field: &str, now: u64) -> (r: Result<bool, StoreError>)
        ensures
            final(self)@ == old(self)@.with_store(keyspace::evicted(old(self)@.store, key@, now)),
            r == model::hexists_result(old(self)@.store, key@, field@, now),
    {
        self.store.evict(key, now);
        match self.store.live(key, now) {
            None => Ok(false),
            Some(entry) => match &entry.value {
                Value::Hash(hash) => Ok(hash.hexists(field)),
                _ => Err(StoreError::WrongType),
            },
        }
    }

    /// Increments the integer value of `field` by `delta`, creating the hash
    /// (and the field, starting from 0) if absent. Returns the new value.
    pub fn hincrby(&mut self, key: String, field: String, delta: i64, now: u64) -> (r: Result<
        i64,
        StoreError,
    >)
        ensures
            final(self)@ == old(self)@.with_store(
                model::after_hincrby(old(self)@.store, key@, field@, delta as int, now),
            ),
            model::number_result(r) == model::hincrby_result(
                old(self)@.store,
                key@,
                field@,
                delta as int,
                now,
            ),
    {
        let current: Option<String> = match self.store.live(key.as_str(), now) {
            None => None,
            Some(entry) => match &entry.value {
                Value::Hash(hash) => match hash.hget(field.as_str()) {
                    Some(value) => Some(value.clone()),
                    None => None,
                },
                _ => {
                    return Err(StoreError::WrongType);
                },
            },
        };
        let next: i64 = match add_to_text(&current, delta, StoreError::NotAHashInteger) {
            Ok(next) => next,
            Err(error) => {
                return Err(error);
            },
        };
        let _ = self.hset(key, field, text::i64_to_text(next), now);
        Ok(next)
    }

    // --- Generic key operations -----------------------------------------

    /// Counts how many of `keys` name a live key. Duplicates are counted each
    /// time, matching Redis' `EXISTS`.
    pub fn exists_count(&self, keys: &[String], now: u64) -> (r: usize)
        ensures
            r == model::exists_count(self@.store, text::texts(keys@), now),
    {
        let ghost all = text::texts(keys@);
        let ghost there = |key: Seq<char>| keyspace::is_live(self@.store, key, now);
        let mut count: usize = 0;
        let mut i: usize = 0;
        proof {
            reveal(Seq::filter);
            assert(all.take(0).filter(there).len() == 0);
        }
        while i < keys.len()
            invariant
                i <= keys@.len(),
                count <= i,
                all == text::texts(keys@),
                there == (|key: Seq<char>| keyspace::is_live(self@.store, key, now)),
                count == all.take(i as int).filter(there).len(),
            decreases keys@.len() - i,
        {
            proof {
                reveal(Seq::filter);
                assert(all.take(i + 1).drop_last() =~= all.take(i as int));
                assert(all.take(i + 1).last() == keys@[i as int]@);
            }
            if self.store.live(keys[i].as_str(), now).is_some() {
                count = count + 1;
            }
            i = i + 1;
        }
        assert(all.take(i as int) =~= all);
        count
    }

    /// Returns the Redis type name of `key` (`string`/`list`/`set`/`zset`/
    /// `hash`), or `none` if it is missing or expired.
    pub fn type_of(&mut self, key: &str, now: u64) -> (r: &'static str)
        ensures
            final(self)@ == old(self)@.with_store(keyspace::evicted(old(self)@.store, key@, now)),
            r@ == model::kind_name(keyspace::live_value(old(self)@.store, key@, now)),
    {
        self.store.evict(key, now);
        match self.store.live(key, now) {
            None => "none",
            Some(entry) => match &entry.value {
                Value::Str(_) => "string",
                Value::List(_) => "list",
                Value::StrSet(_) => "set",
                Value::SortedSet(_) => "zset",
                Value::Hash(_) => "hash",
            },
        }
    }

    /// Returns every live key whose name matches the glob `pattern`.
    pub fn keys(&self, pattern: &str, now: u64) -> (r: Vec<String>)
        ensures
            keyed_map::enumerates(
                text::texts(r@),
                model::matching_keys(self@.store, pattern@, now),
            ),
    {
        let n: usize = self.store.len();
        let ghost order = self.store.order();
        let ghost wanted = model::matching_keys(self@.store, pattern@, now);
        let mut r: Vec<String> = Vec::new();
        let mut i: usize = 0;
        while i < n
            invariant
                i <= n == order.len(),
                order == self.store.order(),
                keyed_map::enumerates(order, self@.store.dom()),
                wanted == model::matching_keys(self@.store, pattern@, now),
                lists_chosen(text::texts(r@), order.take(i as int), wanted),
            decreases n - i,
        {
            let (key, entry) = self.store.entry(i);
            let ghost found = text::texts(r@);
            assert(order.take(i + 1) =~= order.take(i as int).push(key@));
            if !entry.is_expired(now) && glob_match(pattern, key.as_str()) {
                r.push(key.clone());
                proof {
                    lemma_chosen_step(found, order, i as int, wanted);
                    assert(wanted.contains(key@));
                }
            } else {
                proof {
                    lemma_chosen_step(found, order, i as int, wanted);
                    assert(!wanted.contains(key@));
                }
            }
            i = i + 1;
        }
        proof {
            assert(order.take(i as int) =~= order);
            assert(text::texts(r@).to_set() =~= wanted) by {
                assert forall|k: Seq<char>| text::texts(r@).to_set().contains(k)
                    == wanted.contains(k) by {
                    assert(order.contains(k) == order.to_set().contains(k));
                    assert(text::texts(r@).contains(k) == (order.contains(k)
                        && wanted.contains(k)));
                }
            }
        }
        r
    }

    /// Sets a TTL of `seconds` on `key`. A non-positive TTL deletes the key
    /// immediately (as Redis does). Returns `true` if the key existed.
    pub fn expire(&mut self, key: &str, seconds: i64, now: u64) -> (r: bool)
        ensures
            final(self)@ == old(self)@.with_store(
                model::after_expire(old(self)@.store, key@, seconds as int, now),
            ),
            r == keyspace::is_live(old(self)@.store, key@, now),
    {
        match self.store.take(key, now) {
            None => false,
            Some(entry) => {
                if seconds > 0 {
                    let expires_at: Option<u128> = Some(deadline_from(now, seconds as u64));
                    self.store.put(key.to_owned(), Entry { value: entry.value, expires_at });
                    assert(self.store@ =~= model::after_expire(
                        old(self)@.store,
                        key@,
                        seconds as int,
                        now,
                    ));
                }
                true
            },
        }
    }

    /// Returns the remaining TTL in seconds: `-2` if the key does not exist,
    /// `-1` if it exists but has no expiry, otherwise the seconds remaining.
    pub fn ttl(&mut self, key: &str, now: u64) -> (r: i64)
        ensures
            final(self)@ == old(self)@.with_store(keyspace::evicted(old(self)@.store, key@, now)),
            r == model::ttl_result(old(self)@.store, key@, now),
    {
        self.store.evict(key, now);
        match self.store.live(key, now) {
            None => -2,
            Some(entry) => match entry.expires_at {
                None => -1,
                Some(deadline) => {
                    let left: u64 = seconds_until(deadline, now);
                    if left > i64::MAX as u64 {
                        i64::MAX
                    } else {
                        left as i64
                    }
                },
            },
        }
    }

    /// Removes any TTL from `key`. Returns `true` only if a TTL was actually
    /// removed.
    pub fn persist(&mut self, key: &str, now: u64) -> (r: bool)
        ensures
            final(self)@ == old(self)@.with_store(
                model::after_persist(old(self)@.store, key@, now),
            ),
            r == keyspace::live_deadline(old(self)@.store, key@, now).is_some(),
    {
        match self.store.take(key, now) {
            None => false,
            Some(entry) => {
                let had_deadline = entry.expires_at.is_some();
                self.store.put(key.to_owned(), Entry { value: entry.value, expires_at: None });
                assert(self.store@ =~= model::after_persist(old(self)@.store, key@, now));
                had_deadline
            },
        }
    }

    /// Renames `key` to `new_key`, moving its value and TTL. Returns `false` if
    /// `key` does not exist (the caller turns this into `ERR no such key`).
    pub fn rename(&mut self, key: &str, new_key: String, now: u64) -> (r: bool)
        ensures
            final(self)@ == old(self)@.with_store(
                model::after_rename(old(self)@.store, key@, new_key@, now),
            ),
            r == keyspace::is_live(old(self)@.store, key@, now),
    {
        match self.store.take(key, now) {
            None => false,
            Some(entry) => {
                self.store.put(new_key, entry);
                true
            },
        }
    }

    /// Returns the number of live keys in the store.
    pub fn dbsize(&self, now: u64) -> (r: usize)
        ensures
            keyspace::live_keys(self@.store, now).finite(),
            r == model::live_count(self@.store, now),
    {
        let n: usize = self.store.len();
        let ghost order = self.store.order();
        let ghost live = keyspace::live_keys(self@.store, now);
        let mut count: usize = 0;
        let mut i: usize = 0;
        proof {
            assert(order.take(0).to_set().intersect(live) =~= Set::<Seq<char>>::empty());
        }
        while i < n
            invariant
                i <= n == order.len(),
                count <= i,
                order == self.store.order(),
                keyed_map::enumerates(order, self@.store.dom()),
                live == keyspace::live_keys(self@.store, now),
                order.take(i as int).to_set().intersect(live).finite(),
                count == order.take(i as int).to_set().intersect(live).len(),
            decreases n - i,
        {
            let (key, entry) = self.store.entry(i);
            let ghost done = order.take(i as int).to_set();
            proof {
                assert(order.take(i + 1) =~= order.take(i as int).push(key@));
                text::lemma_push_to_set(order.take(i as int), key@);
                assert(!order.take(i as int).contains(key@));
                if live.contains(key@) {
                    assert(done.insert(key@).intersect(live) =~= done.intersect(live).insert(key@));
                } else {
                    assert(done.insert(key@).intersect(live) =~= done.intersect(live));
                }
            }
            if !entry.is_expired(now) {
                count = count + 1;
            }
            i = i + 1;
        }
        proof {
            assert(order.take(i as int) =~= order);
            assert(order.to_set().intersect(live) =~= live);
        }
        count
    }

    /// Removes every key.
    pub fn flushall(&mut self)
        ensures
            final(self)@ == old(self)@.with_store(Map::empty()),
    {
        self.store.clear();
    }

    // --- Server / maintenance -------------------------------------------

    /// Evicts every expired key, returning how many were removed. Backs the
    /// background sweeper; lazy eviction still happens on access, so this is an
    /// optimisation, not a correctness requirement.
    pub fn sweep_expired(&mut self, now: u64) -> (r: usize)
        ensures
            final(self)@ == old(self)@.with_store(keyspace::live_part(old(self)@.store, now)),
            r == old(self)@.store.dom().len() - model::live_count(old(self)@.store, now),
    {
        let before: usize = self.store.len();
        let ghost start = self@.store;
        let mut stale: Vec<String> = Vec::new();
        let mut i: usize = 0;
        let ghost order = self.store.order();
        let ghost wanted = start.dom().difference(keyspace::live_keys(start, now));
        while i < before
            invariant
                i <= before == order.len(),
                order == self.store.order(),
                start == self@.store,
                self@ == old(self)@,
                keyed_map::enumerates(order, start.dom()),
                wanted == start.dom().difference(keyspace::live_keys(start, now)),
                lists_chosen(text::texts(stale@), order.take(i as int), wanted),
            decreases before - i,
        {
            let (key, entry) = self.store.entry(i);
            let ghost found = text::texts(stale@);
            assert(order.take(i + 1) =~= order.take(i as int).push(key@));
            if entry.is_expired(now) {
                stale.push(key.clone());
            }
            proof {
                lemma_chosen_step(found, order, i as int, wanted);
                assert(wanted.contains(key@) == keyspace::has_expired(entry@, now));
            }
            i = i + 1;
        }
        proof {
            assert(order.take(i as int) =~= order);
        }
        let ghost all = text::texts(stale@);
        let mut j: usize = 0;
        assert(start.remove_keys(all.take(0).to_set()) =~= start);
        while j < stale.len()
            invariant
                j <= stale@.len(),
                all == text::texts(stale@),
                self@ == old(self)@.with_store(start.remove_keys(all.take(j as int).to_set())),
            decreases stale@.len() - j,
        {
            let ghost done = all.take(j as int).to_set();
            proof {
                assert(all.take(j + 1) =~= all.take(j as int).push(all[j as int]));
                text::lemma_push_to_set(all.take(j as int), all[j as int]);
                assert(start.remove_keys(done).remove(all[j as int]) =~= start.remove_keys(
                    done.insert(all[j as int]),
                ));
            }
            self.store.drop_key(stale[j].as_str());
            j = j + 1;
        }
        proof {
            assert(all.take(j as int) =~= all);
            assert forall|k: Seq<char>| all.to_set().contains(k) == wanted.contains(k) by {
                assert(order.contains(k) == order.to_set().contains(k));
                assert(all.contains(k) == (order.contains(k) && wanted.contains(k)));
            }
            assert(self@.store =~= keyspace::live_part(start, now));
            assert(self@.store.dom() =~= keyspace::live_keys(start, now));
            vstd::set_lib::lemma_len_subset(self@.store.dom(), start.dom());
        }
        let after: usize = self.store.len();
        before - after
    }

    /// Records a newly connected client, returning the new client count.
    pub fn client_connected(&mut self) -> (r: usize)
        ensures
            final(self)@ == (DatabaseView { clients: r, ..old(self)@ }),
            r == one_more(old(self)@.clients),
    {
        self.clients = self.clients.wrapping_add(1);
        self.clients
    }

    /// Records a client disconnecting.
    pub fn client_disconnected(&mut self)
        ensures
            final(self)@ == (DatabaseView { clients: final(self)@.clients, ..old(self)@ }),
            final(self)@.clients == one_less(old(self)@.clients),
    {
        self.clients = self.clients.wrapping_sub(1);
    }

    /// Renders the `INFO` reply: a human-readable, Redis-style block of
    /// `field:value` lines grouped into sections.
    pub fn info(&self, now: u64) -> (r: String)
        ensures
            r@ == info_text(
                now as int / NANOS_PER_SECOND as int,
                self@.clients as int,
                model::live_count(self@.store, now),
            ),
    {
        let keys: usize = self.dbsize(now);
        let mut r = "# Server\r\nserver_name:redis_clone\r\nuptime_in_seconds:".to_owned();
        r.append(text::u64_to_text(now / NANOS_PER_SECOND).as_str());
        r.append("\r\n\r\n# Clients\r\nconnected_clients:");
        r.append(text::u64_to_text(self.clients as u64).as_str());
        r.append("\r\n\r\n# Keyspace\r\nkeys:");
        r.append(text::u64_to_text(keys as u64).as_str());
        r.append("\r\n");
        r
    }

    // --- Pub/Sub --------------------------------------------------------

    /// Hands out an id for a subscribing connection.
    pub fn next_subscriber_id(&mut self) -> (r: u64)
        ensures
            r == old(self)@.next_subscriber_id,
            final(self)@ == (DatabaseView {
                next_subscriber_id: if r == u64::MAX {
                    0
                } else {
                    (r + 1) as u64
                },
                ..old(self)@
            }),
    {
        self.pubsub.next_id()
    }

    /// Registers a connection as a subscriber on `channel`.
    pub fn subscribe(&mut self, channel: String, id: u64)
        ensures
            final(self)@ == (DatabaseView {
                channels: pubsub::after_subscribe(old(self)@.channels, channel@, id),
                ..old(self)@
            }),
    {
        self.pubsub.subscribe(channel, id);
    }

    /// Removes a connection's subscription to `channel`.
    pub fn unsubscribe(&mut self, channel: &str, id: u64)
        ensures
            final(self)@ == (DatabaseView {
                channels: pubsub::after_unsubscribe(old(self)@.channels, channel@, id),
                ..old(self)@
            }),
    {
        self.pubsub.unsubscribe(channel, id);
    }

    /// Addresses `payload` to the subscribers of `channel`.
    pub fn publish(&self, channel: &str, payload: &str) -> (r: Delivery)
        ensures
            r.message@ == pubsub::message_frame(channel@, payload@),
            keyed_map::enumerates(
                r.recipients@,
                pubsub::subscribers_of(self@.channels, channel@),
            ),
    {
        self.pubsub.publish(channel, payload)
    }

    // --- Persistence ----------------------------------------------------

    /// Builds a serializable snapshot of every live key, recording each TTL as
    /// the number of seconds remaining.
    pub fn snapshot(&self, now: u64) -> (r: Snapshot)
        ensures
            snapshot::is_snapshot(r@, self@.store, now),
    {
        let n: usize = self.store.len();
        let ghost order = self.store.order();
        let ghost store = self@.store;
        let ghost live = keyspace::live_keys(store, now);
        let mut entries: Vec<SnapshotEntry> = Vec::new();
        let mut i: usize = 0;
        assert(snapshot::entry_keys(snapshot::entry_views(entries@)) =~= Seq::<Seq<char>>::empty());
        while i < n
            invariant
                i <= n == order.len(),
                order == self.store.order(),
                store == self@.store,
                live == keyspace::live_keys(store, now),
                keyed_map::enumerates(order, store.dom()),
                lists_chosen(
                    snapshot::entry_keys(snapshot::entry_views(entries@)),
                    order.take(i as int),
                    live,
                ),
                forall|j: int|
                    0 <= j < entries@.len() ==> {
                        let made = (#[trigger] entries@[j])@;
                        &&& snapshot::records(made.value, store[made.key].value)
                        &&& made.ttl_secs == snapshot::recorded_ttl(
                            store[made.key].expires_at,
                            now,
                        )
                    },
            decreases n - i,
        {
            let (key, entry) = self.store.entry(i);
            let ghost found = snapshot::entry_keys(snapshot::entry_views(entries@));
            assert(order.take(i + 1) =~= order.take(i as int).push(key@));
            if !entry.is_expired(now) {
                let ttl_secs: Option<u64> = match entry.expires_at {
                    Some(deadline) => Some(seconds_until(deadline, now)),
                    None => None,
                };
                let value = SerValue::record(&entry.value);
                entries.push(SnapshotEntry { key: key.clone(), ttl_secs, value });
                assert(snapshot::entry_keys(snapshot::entry_views(entries@)) =~= found.push(key@));
            }
            proof {
                lemma_chosen_step(found, order, i as int, live);
                assert(live.contains(key@) == !keyspace::has_expired(entry@, now));
            }
            i = i + 1;
        }
        let r = Snapshot { entries };
        proof {
            assert(order.take(i as int) =~= order);
            let names = snapshot::entry_keys(r@);
            assert(names.to_set() =~= live) by {
                assert forall|k: Seq<char>| names.to_set().contains(k) == live.contains(k) by {
                    assert(order.contains(k) == order.to_set().contains(k));
                    assert(names.contains(k) == (order.contains(k) && live.contains(k)));
                }
            }
            assert forall|j: int| 0 <= j < r@.len() implies {
                let entry = #[trigger] r@[j];
                &&& snapshot::records(entry.value, store[entry.key].value)
                &&& entry.ttl_secs == snapshot::recorded_ttl(store[entry.key].expires_at, now)
            } by {
                assert(r@[j] == r.entries@[j]@);
            }
        }
        r
    }

    /// Replaces the entire keyspace with the contents of `snapshot`, turning
    /// each stored remaining-seconds TTL back into a deadline. `readings` gives
    /// the scores that the snapshot's score texts stand for.
    pub fn load_snapshot(&mut self, snapshot: Snapshot, readings: &FloatReadings, now: u64)
        ensures
            final(self)@ == old(self)@.with_store(snapshot::after_load(snapshot@, readings@, now)),
    {
        self.store.clear();
        let ghost all = snapshot@;
        for entry in it: snapshot.entries
            invariant
                all == snapshot::entry_views(it.seq()),
                self@ == old(self)@.with_store(
                    snapshot::after_load(all.take(it.index()), readings@, now),
                ),
        {
            proof {
                let next = all.take(it.index() + 1);
                assert(next.drop_last() =~= all.take(it.index()));
                assert(next.last() == entry@);
            }
            let SnapshotEntry { key, ttl_secs, value } = entry;
            let expires_at: Option<u128> = match ttl_secs {
                Some(seconds) => Some(deadline_from(now, seconds)),
                None => None,
            };
            self.store.put(key, Entry { value: value.restore(readings), expires_at });
        }
        assert(all.take(all.len() as int) =~= all);
    }

    /// The configured snapshot path, if persistence is enabled.
    pub fn snapshot_path(&self) -> (r: Option<String>)
        ensures
            resp::optional_text(r) == self@.snapshot_path,
    {
        match &self.snapshot_path {
            Some(path) => Some(path.clone()),
            None => None,
        }
    }

    /// What a successfully executed write command adds to the AOF, if one is
    /// configured. Nothing while replaying, so replayed commands are not logged
    /// back to the file they came from.
    pub fn log_write(&self, tokens: &[String]) -> (r: Option<LogRecord>)
        ensures
            r.is_some() == (!self@.replaying && self@.aof.is_some()),
            match r {
                Some(record) => {
                    &&& record.payload@ == resp::array_frame(text::texts(tokens@))
                    &&& record.sync == (self@.aof == Some(FsyncPolicy::Always))
                },
                None => true,
            },
    {
        if self.replaying {
            return None;
        }
        match &self.aof {
            Some(aof) => Some(aof.append(tokens)),
            None => None,
        }
    }

    /// Marks the start of AOF replay, suppressing re-logging until
    /// [`end_replay`](Self::end_replay).
    pub fn begin_replay(&mut self)
        ensures
            final(self)@ == (DatabaseView { replaying: true, ..old(self)@ }),
    {
        self.replaying = true;
    }

    /// Marks the end of AOF replay.
    pub fn end_replay(&mut self)
        ensures
            final(self)@ == (DatabaseView { replaying: false, ..old(self)@ }),
    {
        self.replaying = false;
    }
}

} // verus!
