//! What each operation answers, and what it leaves in the keyspace.
//!
//! Every operation sees live keys only: a key past its deadline is as good as
//! missing, whether or not it has been evicted yet.
use vstd::prelude::*;
use vstd::utf8::*;

use crate::database::data_structure;
use crate::database::db::StoreError;
use crate::database::glob;
use crate::database::keyspace;
use crate::database::keyspace::{EntryView, StoreView, ValueView};
use crate::keyed_map;
use crate::score;
use crate::score::{Score, ScoreView};
use crate::text;

verus! {

// --- Results by their views ---------------------------------------------

pub open spec fn text_result(r: Result<Option<String>, StoreError>) -> Result<
    Option<Seq<char>>,
    StoreError,
> {
    match r {
        Ok(Some(value)) => Ok(Some(value@)),
        Ok(None) => Ok(None),
        Err(error) => Err(error),
    }
}

pub open spec fn texts_result(r: Result<Vec<String>, StoreError>) -> Result<
    Seq<Seq<char>>,
    StoreError,
> {
    match r {
        Ok(values) => Ok(text::texts(values@)),
        Err(error) => Err(error),
    }
}

pub open spec fn count_result(r: Result<usize, StoreError>) -> Result<int, StoreError> {
    match r {
        Ok(count) => Ok(count as int),
        Err(error) => Err(error),
    }
}

pub open spec fn number_result(r: Result<i64, StoreError>) -> Result<int, StoreError> {
    match r {
        Ok(number) => Ok(number as int),
        Err(error) => Err(error),
    }
}

pub open spec fn score_result(r: Result<Option<Score>, StoreError>) -> Result<
    Option<ScoreView>,
    StoreError,
> {
    match r {
        Ok(Some(score)) => Ok(Some(score@)),
        Ok(None) => Ok(None),
        Err(error) => Err(error),
    }
}

pub open spec fn scored_result(r: Result<Vec<(String, Score)>, StoreError>) -> Result<
    Seq<(Seq<char>, ScoreView)>,
    StoreError,
> {
    match r {
        Ok(pairs) => Ok(data_structure::scored_texts(pairs@)),
        Err(error) => Err(error),
    }
}

pub open spec fn rank_result(r: Result<Option<usize>, StoreError>) -> Result<
    Option<int>,
    StoreError,
> {
    match r {
        Ok(Some(rank)) => Ok(Some(rank as int)),
        Ok(None) => Ok(None),
        Err(error) => Err(error),
    }
}

/// The members and scores of a sequence of members to add.
pub open spec fn added_texts(v: Seq<(Score, String)>) -> Seq<(ScoreView, Seq<char>)> {
    Seq::new(v.len(), |i: int| (v[i].0@, v[i].1@))
}

/// `r` lists what `expected` holds, in any order.
pub open spec fn lists_members(
    r: Result<Seq<Seq<char>>, StoreError>,
    expected: Result<Set<Seq<char>>, StoreError>,
) -> bool {
    match expected {
        Ok(members) => r matches Ok(items) && keyed_map::enumerates(items, members),
        Err(error) => r == Err::<Seq<Seq<char>>, StoreError>(error),
    }
}

// --- Looking a key up ---------------------------------------------------

/// The string at `key`, if there is one.
pub open spec fn string_at(store: StoreView, key: Seq<char>, now: u64) -> Result<
    Option<Seq<char>>,
    StoreError,
> {
    match keyspace::live_value(store, key, now) {
        None => Ok(None),
        Some(ValueView::Str(value)) => Ok(Some(value)),
        Some(_) => Err(StoreError::WrongType),
    }
}

/// The list at `key`; a missing key is an empty list.
pub open spec fn list_at(store: StoreView, key: Seq<char>, now: u64) -> Result<
    Seq<Seq<char>>,
    StoreError,
> {
    match keyspace::live_value(store, key, now) {
        None => Ok(Seq::empty()),
        Some(ValueView::List(items)) => Ok(items),
        Some(_) => Err(StoreError::WrongType),
    }
}

/// The set at `key`; a missing key is an empty set.
pub open spec fn set_at(store: StoreView, key: Seq<char>, now: u64) -> Result<
    Set<Seq<char>>,
    StoreError,
> {
    match keyspace::live_value(store, key, now) {
        None => Ok(Set::empty()),
        Some(ValueView::StrSet(members)) => Ok(members),
        Some(_) => Err(StoreError::WrongType),
    }
}

/// The sorted set at `key`; a missing key is an empty sorted set.
pub open spec fn zset_at(store: StoreView, key: Seq<char>, now: u64) -> Result<
    Map<Seq<char>, ScoreView>,
    StoreError,
> {
    match keyspace::live_value(store, key, now) {
        None => Ok(Map::empty()),
        Some(ValueView::SortedSet(members)) => Ok(members),
        Some(_) => Err(StoreError::WrongType),
    }
}

/// The hash at `key`; a missing key is an empty hash.
pub open spec fn hash_at(store: StoreView, key: Seq<char>, now: u64) -> Result<
    Map<Seq<char>, Seq<char>>,
    StoreError,
> {
    match keyspace::live_value(store, key, now) {
        None => Ok(Map::empty()),
        Some(ValueView::Hash(fields)) => Ok(fields),
        Some(_) => Err(StoreError::WrongType),
    }
}

/// In a well-formed keyspace, what is found at a key is finite, and the members
/// of a sorted set have a ranking.
pub proof fn lemma_found_is_well_formed(store: StoreView, key: Seq<char>, now: u64)
    requires
        keyspace::well_formed(store),
    ensures
        set_at(store, key, now) matches Ok(members) ==> members.finite(),
        zset_at(store, key, now) matches Ok(members) ==> members.dom().finite()
            && score::is_ranking(score::ranking(members), members),
        hash_at(store, key, now) matches Ok(fields) ==> fields.dom().finite(),
{
    if !keyspace::is_live(store, key, now) {
        score::lemma_is_the_ranking(Seq::empty(), Map::<Seq<char>, ScoreView>::empty());
    }
}

// --- Storing at a key ---------------------------------------------------

/// The keyspace with a string at `key`, whatever was there before.
pub open spec fn with_string(
    store: StoreView,
    key: Seq<char>,
    value: Seq<char>,
    expires_at: Option<int>,
) -> StoreView {
    store.insert(key, EntryView { value: ValueView::Str(value), expires_at })
}

/// The keyspace with a new value at `key`, under the deadline that the key has.
pub open spec fn with_value(
    store: StoreView,
    key: Seq<char>,
    value: ValueView,
    now: u64,
) -> StoreView {
    store.insert(
        key,
        EntryView { value, expires_at: keyspace::live_deadline(store, key, now) },
    )
}

/// Like [`with_value`], but a collection that has become empty is dropped
/// together with its key.
pub open spec fn settled(
    store: StoreView,
    key: Seq<char>,
    value: ValueView,
    now: u64,
) -> StoreView {
    if value.is_hollow() {
        store.remove(key)
    } else {
        with_value(store, key, value, now)
    }
}

// --- Strings ------------------------------------------------------------

pub open spec fn after_set(
    store: StoreView,
    key: Seq<char>,
    value: Seq<char>,
    ttl: Option<u64>,
    now: u64,
) -> StoreView {
    with_string(
        store,
        key,
        value,
        match ttl {
            Some(seconds) => Some(keyspace::deadline_after(now, seconds as int)),
            None => None,
        },
    )
}

/// The live keys among `keys`, each counted once.
pub open spec fn deleted_count(store: StoreView, keys: Seq<Seq<char>>, now: u64) -> int {
    keys.to_set().filter(|key: Seq<char>| keyspace::is_live(store, key, now)).len() as int
}

/// `current` as an integer plus `delta`, where both it and the sum fit.
pub open spec fn incremented(
    current: Option<Seq<char>>,
    delta: int,
    unreadable: StoreError,
) -> Result<int, StoreError> {
    let value = match current {
        Some(digits) => text::parse_signed(digits),
        None => Some(0int),
    };
    match value {
        None => Err(unreadable),
        Some(number) => if i64::MIN <= number + delta <= i64::MAX {
            Ok(number + delta)
        } else {
            Err(StoreError::Overflow)
        },
    }
}

pub open spec fn incr_result(store: StoreView, key: Seq<char>, delta: int, now: u64) -> Result<
    int,
    StoreError,
> {
    match string_at(store, key, now) {
        Ok(current) => incremented(current, delta, StoreError::NotAnInteger),
        Err(error) => Err(error),
    }
}

pub open spec fn after_incr(
    store: StoreView,
    key: Seq<char>,
    delta: int,
    now: u64,
) -> StoreView {
    match incr_result(store, key, delta, now) {
        Ok(number) => with_value(store, key, ValueView::Str(text::decimal(number)), now),
        Err(_) => store,
    }
}

/// A string and what is appended to it.
pub open spec fn extended(current: Option<Seq<char>>, suffix: Seq<char>) -> Seq<char> {
    match current {
        Some(value) => value + suffix,
        None => suffix,
    }
}

pub open spec fn append_result(
    store: StoreView,
    key: Seq<char>,
    suffix: Seq<char>,
    now: u64,
) -> Result<int, StoreError> {
    match string_at(store, key, now) {
        Ok(current) => Ok(encode_utf8(extended(current, suffix)).len() as int),
        Err(error) => Err(error),
    }
}

pub open spec fn after_append(
    store: StoreView,
    key: Seq<char>,
    suffix: Seq<char>,
    now: u64,
) -> StoreView {
    match string_at(store, key, now) {
        Ok(current) => with_value(store, key, ValueView::Str(extended(current, suffix)), now),
        Err(_) => store,
    }
}

pub open spec fn strlen_result(store: StoreView, key: Seq<char>, now: u64) -> Result<
    int,
    StoreError,
> {
    match string_at(store, key, now) {
        Ok(Some(value)) => Ok(encode_utf8(value).len() as int),
        Ok(None) => Ok(0),
        Err(error) => Err(error),
    }
}

/// The string of each key; nothing for a key that holds no string.
pub open spec fn mget_result(store: StoreView, keys: Seq<Seq<char>>, now: u64) -> Seq<
    Option<Seq<char>>,
> {
    keys.map_values(
        |key: Seq<char>|
            match string_at(store, key, now) {
                Ok(value) => value,
                Err(_) => None,
            },
    )
}

/// The keyspace after each pair has been stored in turn.
pub open spec fn after_mset(store: StoreView, pairs: Seq<(Seq<char>, Seq<char>)>) -> StoreView
    decreases pairs.len(),
{
    if pairs.len() == 0 {
        store
    } else {
        with_string(
            after_mset(store, pairs.drop_last()),
            pairs.last().0,
            pairs.last().1,
            None,
        )
    }
}

pub open spec fn after_setnx(
    store: StoreView,
    key: Seq<char>,
    value: Seq<char>,
    now: u64,
) -> StoreView {
    if keyspace::is_live(store, key, now) {
        store
    } else {
        with_string(store, key, value, None)
    }
}

pub open spec fn after_getset(
    store: StoreView,
    key: Seq<char>,
    value: Seq<char>,
    now: u64,
) -> StoreView {
    match string_at(store, key, now) {
        Ok(_) => with_string(store, key, value, None),
        Err(_) => store,
    }
}

// --- Lists --------------------------------------------------------------

/// A list after `values` have been pushed to its front one by one.
pub open spec fn pushed_front(list: Seq<Seq<char>>, values: Seq<Seq<char>>) -> Seq<Seq<char>> {
    values.reverse() + list
}

pub open spec fn push_result(
    store: StoreView,
    key: Seq<char>,
    values: Seq<Seq<char>>,
    now: u64,
) -> Result<int, StoreError> {
    match list_at(store, key, now) {
        Ok(list) => Ok((list.len() + values.len()) as int),
        Err(error) => Err(error),
    }
}

pub open spec fn after_lpush(
    store: StoreView,
    key: Seq<char>,
    values: Seq<Seq<char>>,
    now: u64,
) -> StoreView {
    match list_at(store, key, now) {
        Ok(list) => with_value(store, key, ValueView::List(pushed_front(list, values)), now),
        Err(_) => store,
    }
}

pub open spec fn after_rpush(
    store: StoreView,
    key: Seq<char>,
    values: Seq<Seq<char>>,
    now: u64,
) -> StoreView {
    match list_at(store, key, now) {
        Ok(list) => with_value(store, key, ValueView::List(list + values), now),
        Err(_) => store,
    }
}

pub open spec fn lpop_result(store: StoreView, key: Seq<char>, now: u64) -> Result<
    Option<Seq<char>>,
    StoreError,
> {
    match list_at(store, key, now) {
        Ok(list) => if list.len() > 0 {
            Ok(Some(list.first()))
        } else {
            Ok(None)
        },
        Err(error) => Err(error),
    }
}

pub open spec fn rpop_result(store: StoreView, key: Seq<char>, now: u64) -> Result<
    Option<Seq<char>>,
    StoreError,
> {
    match list_at(store, key, now) {
        Ok(list) => if list.len() > 0 {
            Ok(Some(list.last()))
        } else {
            Ok(None)
        },
        Err(error) => Err(error),
    }
}

pub open spec fn after_lpop(store: StoreView, key: Seq<char>, now: u64) -> StoreView {
    match list_at(store, key, now) {
        Ok(list) => if list.len() > 0 {
            settled(store, key, ValueView::List(list.drop_first()), now)
        } else {
            store.remove(key)
        },
        Err(_) => store,
    }
}

pub open spec fn after_rpop(store: StoreView, key: Seq<char>, now: u64) -> StoreView {
    match list_at(store, key, now) {
        Ok(list) => if list.len() > 0 {
            settled(store, key, ValueView::List(list.drop_last()), now)
        } else {
            store.remove(key)
        },
        Err(_) => store,
    }
}

pub open spec fn lrange_result(
    store: StoreView,
    key: Seq<char>,
    start: int,
    stop: int,
    now: u64,
) -> Result<Seq<Seq<char>>, StoreError> {
    match list_at(store, key, now) {
        Ok(list) => Ok(data_structure::selected(list, start, stop)),
        Err(error) => Err(error),
    }
}

pub open spec fn llen_result(store: StoreView, key: Seq<char>, now: u64) -> Result<
    int,
    StoreError,
> {
    match list_at(store, key, now) {
        Ok(list) => Ok(list.len() as int),
        Err(error) => Err(error),
    }
}

pub open spec fn lindex_result(store: StoreView, key: Seq<char>, index: int, now: u64) -> Result<
    Option<Seq<char>>,
    StoreError,
> {
    match list_at(store, key, now) {
        Ok(list) => Ok(data_structure::element_at(list, index)),
        Err(error) => Err(error),
    }
}

pub open spec fn lset_result(store: StoreView, key: Seq<char>, index: int, now: u64) -> Result<
    (),
    StoreError,
> {
    if !keyspace::is_live(store, key, now) {
        Err(StoreError::NoSuchKey)
    } else {
        match list_at(store, key, now) {
            Ok(list) => if data_structure::element_at(list, index) is Some {
                Ok(())
            } else {
                Err(StoreError::IndexOutOfRange)
            },
            Err(error) => Err(error),
        }
    }
}

pub open spec fn after_lset(
    store: StoreView,
    key: Seq<char>,
    index: int,
    value: Seq<char>,
    now: u64,
) -> StoreView {
    match (lset_result(store, key, index, now), list_at(store, key, now)) {
        (Ok(_), Ok(list)) => with_value(
            store,
            key,
            ValueView::List(list.update(data_structure::resolved(index, list.len()), value)),
            now,
        ),
        _ => keyspace::evicted(store, key, now),
    }
}

// --- Sets ---------------------------------------------------------------

/// How many of `values` are new to the set, each counted once.
pub open spec fn sadd_result(
    store: StoreView,
    key: Seq<char>,
    values: Seq<Seq<char>>,
    now: u64,
) -> Result<int, StoreError> {
    match set_at(store, key, now) {
        Ok(members) => Ok(members.union(values.to_set()).len() - members.len()),
        Err(error) => Err(error),
    }
}

pub open spec fn after_sadd(
    store: StoreView,
    key: Seq<char>,
    values: Seq<Seq<char>>,
    now: u64,
) -> StoreView {
    match set_at(store, key, now) {
        Ok(members) => with_value(
            store,
            key,
            ValueView::StrSet(members.union(values.to_set())),
            now,
        ),
        Err(_) => store,
    }
}

/// How many of `values` are members of the set, each counted once.
pub open spec fn srem_result(
    store: StoreView,
    key: Seq<char>,
    values: Seq<Seq<char>>,
    now: u64,
) -> Result<int, StoreError> {
    match set_at(store, key, now) {
        Ok(members) => Ok(members.len() - members.difference(values.to_set()).len()),
        Err(error) => Err(error),
    }
}

pub open spec fn after_srem(
    store: StoreView,
    key: Seq<char>,
    values: Seq<Seq<char>>,
    now: u64,
) -> StoreView {
    match set_at(store, key, now) {
        Ok(members) => settled(
            store,
            key,
            ValueView::StrSet(members.difference(values.to_set())),
            now,
        ),
        Err(_) => store,
    }
}

pub open spec fn sismember_result(
    store: StoreView,
    key: Seq<char>,
    value: Seq<char>,
    now: u64,
) -> Result<bool, StoreError> {
    match set_at(store, key, now) {
        Ok(members) => Ok(members.contains(value)),
        Err(error) => Err(error),
    }
}

pub open spec fn scard_result(store: StoreView, key: Seq<char>, now: u64) -> Result<
    int,
    StoreError,
> {
    match set_at(store, key, now) {
        Ok(members) => Ok(members.len() as int),
        Err(error) => Err(error),
    }
}

/// What `SPOP` may answer, and the keyspace it then leaves: any member of the
/// set, which is then gone from it.
pub open spec fn pops_member(
    store: StoreView,
    key: Seq<char>,
    now: u64,
    result: Result<Option<Seq<char>>, StoreError>,
    after: StoreView,
) -> bool {
    match set_at(store, key, now) {
        Ok(members) => match result {
            Ok(Some(member)) => {
                &&& members.contains(member)
                &&& after == settled(
                    store,
                    key,
                    ValueView::StrSet(members.remove(member)),
                    now,
                )
            },
            Ok(None) => members == Set::<Seq<char>>::empty() && after == store.remove(key),
            Err(_) => false,
        },
        Err(error) => result == Err::<Option<Seq<char>>, StoreError>(error) && after == store,
    }
}

/// The members of the set at `key`, where there is one.
pub open spec fn members_at(store: StoreView, key: Seq<char>, now: u64) -> Set<Seq<char>> {
    match set_at(store, key, now) {
        Ok(members) => members,
        Err(_) => Set::empty(),
    }
}

/// Whether one of the keys holds something other than a set.
pub open spec fn some_not_set(store: StoreView, keys: Seq<Seq<char>>, now: u64) -> bool {
    exists|i: int| 0 <= i < keys.len() && set_at(store, #[trigger] keys[i], now) is Err
}

/// The members that the sets at all of `keys` have in common.
pub open spec fn sinter_result(store: StoreView, keys: Seq<Seq<char>>, now: u64) -> Result<
    Set<Seq<char>>,
    StoreError,
> {
    if some_not_set(store, keys, now) {
        Err(StoreError::WrongType)
    } else {
        Ok(
            Set::new(
                |member: Seq<char>|
                    keys.len() > 0 && forall|i: int|
                        0 <= i < keys.len() ==> members_at(
                            store,
                            #[trigger] keys[i],
                            now,
                        ).contains(member),
            ),
        )
    }
}

/// The members of any of the sets at `keys`.
pub open spec fn sunion_result(store: StoreView, keys: Seq<Seq<char>>, now: u64) -> Result<
    Set<Seq<char>>,
    StoreError,
> {
    if some_not_set(store, keys, now) {
        Err(StoreError::WrongType)
    } else {
        Ok(
            Set::new(
                |member: Seq<char>|
                    exists|i: int|
                        0 <= i < keys.len() && members_at(
                            store,
                            #[trigger] keys[i],
                            now,
                        ).contains(member),
            ),
        )
    }
}

/// The members of the set at the first key that are in none of the others.
pub open spec fn sdiff_result(store: StoreView, keys: Seq<Seq<char>>, now: u64) -> Result<
    Set<Seq<char>>,
    StoreError,
> {
    if some_not_set(store, keys, now) {
        Err(StoreError::WrongType)
    } else {
        Ok(
            Set::new(
                |member: Seq<char>|
                    keys.len() > 0 && members_at(store, keys[0], now).contains(member)
                        && forall|i: int|
                        1 <= i < keys.len() ==> !members_at(
                            store,
                            #[trigger] keys[i],
                            now,
                        ).contains(member),
            ),
        )
    }
}

// --- Sorted sets --------------------------------------------------------

/// A sorted set after each of `added` has been added in turn.
pub open spec fn zset_add_all(
    members: Map<Seq<char>, ScoreView>,
    added: Seq<(ScoreView, Seq<char>)>,
) -> Map<Seq<char>, ScoreView>
    decreases added.len(),
{
    if added.len() == 0 {
        members
    } else {
        data_structure::zset_add(
            zset_add_all(members, added.drop_last()),
            added.last().0,
            added.last().1,
        )
    }
}

/// How many members are new to the sorted set, each counted once.
pub open spec fn zadd_result(
    store: StoreView,
    key: Seq<char>,
    added: Seq<(ScoreView, Seq<char>)>,
    now: u64,
) -> Result<int, StoreError> {
    match zset_at(store, key, now) {
        Ok(members) => Ok(zset_add_all(members, added).dom().len() - members.dom().len()),
        Err(error) => Err(error),
    }
}

pub open spec fn after_zadd(
    store: StoreView,
    key: Seq<char>,
    added: Seq<(ScoreView, Seq<char>)>,
    now: u64,
) -> StoreView {
    match zset_at(store, key, now) {
        Ok(members) => with_value(
            store,
            key,
            ValueView::SortedSet(zset_add_all(members, added)),
            now,
        ),
        Err(_) => store,
    }
}

pub open spec fn zrem_result(
    store: StoreView,
    key: Seq<char>,
    member: Seq<char>,
    now: u64,
) -> Result<bool, StoreError> {
    match zset_at(store, key, now) {
        Ok(members) => Ok(members.contains_key(member)),
        Err(error) => Err(error),
    }
}

pub open spec fn after_zrem(
    store: StoreView,
    key: Seq<char>,
    member: Seq<char>,
    now: u64,
) -> StoreView {
    match zset_at(store, key, now) {
        Ok(members) => settled(store, key, ValueView::SortedSet(members.remove(member)), now),
        Err(_) => store,
    }
}

pub open spec fn zrange_result(
    store: StoreView,
    key: Seq<char>,
    start: int,
    stop: int,
    now: u64,
) -> Result<Seq<Seq<char>>, StoreError> {
    match zset_at(store, key, now) {
        Ok(members) => Ok(data_structure::selected(score::ranking(members), start, stop)),
        Err(error) => Err(error),
    }
}

pub open spec fn zrange_scored_result(
    store: StoreView,
    key: Seq<char>,
    start: int,
    stop: int,
    now: u64,
) -> Result<Seq<(Seq<char>, ScoreView)>, StoreError> {
    match zset_at(store, key, now) {
        Ok(members) => Ok(
            data_structure::with_scores(
                data_structure::selected(score::ranking(members), start, stop),
                members,
            ),
        ),
        Err(error) => Err(error),
    }
}

pub open spec fn zscore_result(
    store: StoreView,
    key: Seq<char>,
    member: Seq<char>,
    now: u64,
) -> Result<Option<ScoreView>, StoreError> {
    match zset_at(store, key, now) {
        Ok(members) => if members.contains_key(member) {
            Ok(Some(members[member]))
        } else {
            Ok(None)
        },
        Err(error) => Err(error),
    }
}

pub open spec fn zcard_result(store: StoreView, key: Seq<char>, now: u64) -> Result<
    int,
    StoreError,
> {
    match zset_at(store, key, now) {
        Ok(members) => Ok(members.dom().len() as int),
        Err(error) => Err(error),
    }
}

/// The position of `member` in the ranking.
pub open spec fn zrank_result(
    store: StoreView,
    key: Seq<char>,
    member: Seq<char>,
    now: u64,
) -> Result<Option<int>, StoreError> {
    match zset_at(store, key, now) {
        Ok(members) => if members.contains_key(member) {
            Ok(Some(score::ranking(members).index_of(member)))
        } else {
            Ok(None)
        },
        Err(error) => Err(error),
    }
}

pub open spec fn zrange_by_score_result(
    store: StoreView,
    key: Seq<char>,
    min: u64,
    min_inclusive: bool,
    max: u64,
    max_inclusive: bool,
    now: u64,
) -> Result<Seq<Seq<char>>, StoreError> {
    match zset_at(store, key, now) {
        Ok(members) => Ok(
            data_structure::members_in_bounds(members, min, min_inclusive, max, max_inclusive),
        ),
        Err(error) => Err(error),
    }
}

/// The keyspace once `member` has been given the score `sum`.
pub open spec fn after_zincrby(
    store: StoreView,
    key: Seq<char>,
    sum: ScoreView,
    member: Seq<char>,
    now: u64,
) -> StoreView {
    match zset_at(store, key, now) {
        Ok(members) => with_value(
            store,
            key,
            ValueView::SortedSet(data_structure::zset_add(members, sum, member)),
            now,
        ),
        Err(_) => store,
    }
}

// --- Hashes -------------------------------------------------------------

pub open spec fn hset_result(
    store: StoreView,
    key: Seq<char>,
    field: Seq<char>,
    now: u64,
) -> Result<bool, StoreError> {
    match hash_at(store, key, now) {
        Ok(fields) => Ok(!fields.contains_key(field)),
        Err(error) => Err(error),
    }
}

pub open spec fn after_hset(
    store: StoreView,
    key: Seq<char>,
    field: Seq<char>,
    value: Seq<char>,
    now: u64,
) -> StoreView {
    match hash_at(store, key, now) {
        Ok(fields) => with_value(store, key, ValueView::Hash(fields.insert(field, value)), now),
        Err(_) => store,
    }
}

/// The value of a field, if there is one.
pub open spec fn field_of(fields: Map<Seq<char>, Seq<char>>, field: Seq<char>) -> Option<
    Seq<char>,
> {
    if fields.contains_key(field) {
        Some(fields[field])
    } else {
        None
    }
}

pub open spec fn hget_result(
    store: StoreView,
    key: Seq<char>,
    field: Seq<char>,
    now: u64,
) -> Result<Option<Seq<char>>, StoreError> {
    match hash_at(store, key, now) {
        Ok(fields) => Ok(field_of(fields, field)),
        Err(error) => Err(error),
    }
}

pub open spec fn hexists_result(
    store: StoreView,
    key: Seq<char>,
    field: Seq<char>,
    now: u64,
) -> Result<bool, StoreError> {
    match hash_at(store, key, now) {
        Ok(fields) => Ok(fields.contains_key(field)),
        Err(error) => Err(error),
    }
}

pub open spec fn after_hdel(
    store: StoreView,
    key: Seq<char>,
    field: Seq<char>,
    now: u64,
) -> StoreView {
    match hash_at(store, key, now) {
        Ok(fields) => settled(store, key, ValueView::Hash(fields.remove(field)), now),
        Err(_) => store,
    }
}

/// A field, its value, the next field, its value, and so on.
pub open spec fn flattened(pairs: Seq<(Seq<char>, Seq<char>)>) -> Seq<Seq<char>> {
    Seq::new(
        2 * pairs.len(),
        |i: int|
            if i % 2 == 0 {
                pairs[i / 2].0
            } else {
                pairs[i / 2].1
            },
    )
}

/// `items` are the fields and values of the hash, each field before its value,
/// the fields in any order.
pub open spec fn lists_hash(items: Seq<Seq<char>>, fields: Map<Seq<char>, Seq<char>>) -> bool {
    exists|pairs: Seq<(Seq<char>, Seq<char>)>|
        keyed_map::lists_entries(pairs, fields) && items == flattened(pairs)
}

/// `items` are the values of the hash, one for each field, in any order.
pub open spec fn lists_values(items: Seq<Seq<char>>, fields: Map<Seq<char>, Seq<char>>) -> bool {
    exists|order: Seq<Seq<char>>|
        keyed_map::enumerates(order, fields.dom()) && items == order.map_values(
            |field: Seq<char>| fields[field],
        )
}

/// What `HGETALL` may answer.
pub open spec fn is_hgetall(
    store: StoreView,
    key: Seq<char>,
    now: u64,
    r: Result<Seq<Seq<char>>, StoreError>,
) -> bool {
    match hash_at(store, key, now) {
        Ok(fields) => r matches Ok(items) && lists_hash(items, fields),
        Err(error) => r == Err::<Seq<Seq<char>>, StoreError>(error),
    }
}

/// What `HVALS` may answer.
pub open spec fn is_hvals(
    store: StoreView,
    key: Seq<char>,
    now: u64,
    r: Result<Seq<Seq<char>>, StoreError>,
) -> bool {
    match hash_at(store, key, now) {
        Ok(fields) => r matches Ok(items) && lists_values(items, fields),
        Err(error) => r == Err::<Seq<Seq<char>>, StoreError>(error),
    }
}

/// The fields of the hash at `key`.
pub open spec fn hkeys_result(store: StoreView, key: Seq<char>, now: u64) -> Result<
    Set<Seq<char>>,
    StoreError,
> {
    match hash_at(store, key, now) {
        Ok(fields) => Ok(fields.dom()),
        Err(error) => Err(error),
    }
}

pub open spec fn hlen_result(store: StoreView, key: Seq<char>, now: u64) -> Result<
    int,
    StoreError,
> {
    match hash_at(store, key, now) {
        Ok(fields) => Ok(fields.dom().len() as int),
        Err(error) => Err(error),
    }
}

pub open spec fn hincrby_result(
    store: StoreView,
    key: Seq<char>,
    field: Seq<char>,
    delta: int,
    now: u64,
) -> Result<int, StoreError> {
    match hash_at(store, key, now) {
        Ok(fields) => incremented(field_of(fields, field), delta, StoreError::NotAHashInteger),
        Err(error) => Err(error),
    }
}

pub open spec fn after_hincrby(
    store: StoreView,
    key: Seq<char>,
    field: Seq<char>,
    delta: int,
    now: u64,
) -> StoreView {
    match hincrby_result(store, key, field, delta, now) {
        Ok(number) => after_hset(store, key, field, text::decimal(number), now),
        Err(_) => store,
    }
}

// --- Generic key operations ---------------------------------------------

/// How many of `keys` name a live key, duplicates counted each time.
pub open spec fn exists_count(store: StoreView, keys: Seq<Seq<char>>, now: u64) -> int {
    keys.filter(|key: Seq<char>| keyspace::is_live(store, key, now)).len() as int
}

/// The name of a value's type.
pub open spec fn kind_name(value: Option<ValueView>) -> Seq<char> {
    match value {
        None => "none"@,
        Some(ValueView::Str(_)) => "string"@,
        Some(ValueView::List(_)) => "list"@,
        Some(ValueView::StrSet(_)) => "set"@,
        Some(ValueView::SortedSet(_)) => "zset"@,
        Some(ValueView::Hash(_)) => "hash"@,
    }
}

/// The live keys whose name matches the glob pattern.
pub open spec fn matching_keys(store: StoreView, pattern: Seq<char>, now: u64) -> Set<Seq<char>> {
    keyspace::live_keys(store, now).filter(|key: Seq<char>| glob::text_matches(pattern, key))
}

pub open spec fn after_expire(
    store: StoreView,
    key: Seq<char>,
    seconds: int,
    now: u64,
) -> StoreView {
    if !keyspace::is_live(store, key, now) || seconds <= 0 {
        store.remove(key)
    } else {
        store.insert(
            key,
            EntryView {
                value: store[key].value,
                expires_at: Some(keyspace::deadline_after(now, seconds)),
            },
        )
    }
}

/// The seconds left, `-1` for a key without a deadline, `-2` for a missing key.
pub open spec fn ttl_result(store: StoreView, key: Seq<char>, now: u64) -> int {
    if !keyspace::is_live(store, key, now) {
        -2
    } else {
        match store[key].expires_at {
            None => -1,
            Some(deadline) => if keyspace::seconds_left(deadline, now) > i64::MAX {
                i64::MAX as int
            } else {
                keyspace::seconds_left(deadline, now)
            },
        }
    }
}

pub open spec fn after_persist(store: StoreView, key: Seq<char>, now: u64) -> StoreView {
    if keyspace::is_live(store, key, now) {
        store.insert(key, EntryView { value: store[key].value, expires_at: None })
    } else {
        store.remove(key)
    }
}

pub open spec fn after_rename(
    store: StoreView,
    key: Seq<char>,
    new_key: Seq<char>,
    now: u64,
) -> StoreView {
    if keyspace::is_live(store, key, now) {
        store.remove(key).insert(new_key, store[key])
    } else {
        store.remove(key)
    }
}

/// How many keys are live.
pub open spec fn live_count(store: StoreView, now: u64) -> int {
    keyspace::live_keys(store, now).len() as int
}

} // verus!
