//! What holds of the keyspace across operations.
use vstd::prelude::*;
use vstd::utf8::*;

use crate::database::data_structure;
use crate::database::db::StoreError;
use crate::database::glob;
use crate::database::keyspace;
use crate::database::keyspace::{EntryView, StoreView, NANOS_PER_SECOND};
use crate::database::model;
use crate::score;
use crate::score::ScoreView;
use crate::text;

verus! {

// --- Expiry -------------------------------------------------------------

/// Evicting an expired key changes nothing that can be seen.
pub proof fn lemma_eviction_is_invisible(store: StoreView, key: Seq<char>, now: u64)
    ensures
        keyspace::live_part(keyspace::evicted(store, key, now), now) == keyspace::live_part(
            store,
            now,
        ),
{
    assert(keyspace::live_part(keyspace::evicted(store, key, now), now) =~= keyspace::live_part(
        store,
        now,
    ));
}

/// Removing a key that is not live changes nothing that can be seen.
pub proof fn lemma_removing_the_dead_is_invisible(store: StoreView, key: Seq<char>, now: u64)
    requires
        !keyspace::is_live(store, key, now),
    ensures
        keyspace::live_part(store.remove(key), now) == keyspace::live_part(store, now),
{
    assert(keyspace::live_part(store.remove(key), now) =~= keyspace::live_part(store, now));
}

/// Once expired, a key stays expired.
pub proof fn lemma_expiry_is_final(entry: EntryView, now: u64, later: u64)
    requires
        now <= later,
        keyspace::has_expired(entry, now),
    ensures
        keyspace::has_expired(entry, later),
{
}

/// A sweep removes exactly the expired keys, and sweeping twice is sweeping once.
pub proof fn lemma_sweep_keeps_the_living(store: StoreView, key: Seq<char>, now: u64)
    ensures
        keyspace::live_part(store, now).contains_key(key) == keyspace::is_live(store, key, now),
        keyspace::is_live(store, key, now) ==> keyspace::live_part(store, now)[key] == store[key],
        keyspace::live_part(keyspace::live_part(store, now), now) == keyspace::live_part(
            store,
            now,
        ),
{
    assert(keyspace::live_part(keyspace::live_part(store, now), now) =~= keyspace::live_part(
        store,
        now,
    ));
}

/// Whether an expired key has been evicted or not makes no difference to any
/// lookup.
pub proof fn lemma_lookups_see_the_living_only(store: StoreView, key: Seq<char>, now: u64)
    ensures
        keyspace::is_live(keyspace::live_part(store, now), key, now) == keyspace::is_live(
            store,
            key,
            now,
        ),
        keyspace::live_value(keyspace::live_part(store, now), key, now) == keyspace::live_value(
            store,
            key,
            now,
        ),
        keyspace::live_deadline(keyspace::live_part(store, now), key, now)
            == keyspace::live_deadline(store, key, now),
        keyspace::live_keys(keyspace::live_part(store, now), now) == keyspace::live_keys(
            store,
            now,
        ),
{
    assert(keyspace::live_keys(keyspace::live_part(store, now), now) =~= keyspace::live_keys(
        store,
        now,
    ));
}

// --- Strings ------------------------------------------------------------

/// A stored string is read back until its deadline, and not from then on; a
/// string without a TTL is read back at any time. No other key is touched.
pub proof fn lemma_set_is_read_back(
    store: StoreView,
    key: Seq<char>,
    value: Seq<char>,
    ttl: Option<u64>,
    now: u64,
    later: u64,
    other: Seq<char>,
)
    ensures
        ({
            let after = model::after_set(store, key, value, ttl, now);
            &&& model::string_at(after, key, later) == match ttl {
                Some(seconds) => if later < keyspace::deadline_after(now, seconds as int) {
                    Ok::<Option<Seq<char>>, StoreError>(Some(value))
                } else {
                    Ok(None)
                },
                None => Ok(Some(value)),
            }
            &&& other != key ==> {
                &&& after.contains_key(other) == store.contains_key(other)
                &&& store.contains_key(other) ==> after[other] == store[other]
            }
        }),
{
}

/// A deleted key is gone, and no other key is touched.
pub proof fn lemma_deleted_is_gone(
    store: StoreView,
    keys: Seq<Seq<char>>,
    key: Seq<char>,
    now: u64,
)
    ensures
        ({
            let after = store.remove_keys(keys.to_set());
            &&& keys.contains(key) ==> !keyspace::is_live(after, key, now)
            &&& !keys.contains(key) ==> {
                &&& after.contains_key(key) == store.contains_key(key)
                &&& store.contains_key(key) ==> after[key] == store[key]
            }
        }),
{
}

/// An increment keeps the deadline, is read back as the number it answered, and
/// is undone by the opposite increment.
pub proof fn lemma_increment_and_back(store: StoreView, key: Seq<char>, delta: i64, now: u64)
    requires
        delta != i64::MIN,
        model::incr_result(store, key, delta as int, now) is Ok,
    ensures
        ({
            let sum = model::incr_result(store, key, delta as int, now)->Ok_0;
            let after = model::after_incr(store, key, delta as int, now);
            let back = model::incr_result(after, key, -(delta as int), now);
            &&& keyspace::is_live(after, key, now)
            &&& after[key].expires_at == keyspace::live_deadline(store, key, now)
            &&& model::string_at(after, key, now) == Ok::<Option<Seq<char>>, StoreError>(
                Some(text::decimal(sum)),
            )
            &&& back == Ok::<int, StoreError>(sum - delta)
        }),
{
    let sum = model::incr_result(store, key, delta as int, now)->Ok_0;
    text::lemma_decimal_round_trip(sum as i64);
    match model::string_at(store, key, now) {
        Ok(Some(digits)) => {
            text::lemma_parse_signed_range(digits);
        },
        _ => {},
    }
}

/// Appending makes the string longer by exactly the suffix.
pub proof fn lemma_append_extends(store: StoreView, key: Seq<char>, suffix: Seq<char>, now: u64)
    requires
        model::string_at(store, key, now) is Ok,
    ensures
        ({
            let after = model::after_append(store, key, suffix, now);
            let current = model::string_at(store, key, now)->Ok_0;
            &&& model::string_at(after, key, now) == Ok::<Option<Seq<char>>, StoreError>(
                Some(model::extended(current, suffix)),
            )
            &&& model::strlen_result(after, key, now) == model::append_result(
                store,
                key,
                suffix,
                now,
            )
            &&& model::append_result(store, key, suffix, now)->Ok_0 == model::strlen_result(
                store,
                key,
                now,
            )->Ok_0 + encode_utf8(suffix).len()
        }),
{
    match model::string_at(store, key, now) {
        Ok(Some(value)) => {
            text::lemma_encode_concat(value, suffix);
        },
        _ => {},
    }
}

/// `SETNX` stores a value where there is none, and leaves one that is there.
pub proof fn lemma_setnx_never_overwrites(
    store: StoreView,
    key: Seq<char>,
    value: Seq<char>,
    now: u64,
)
    ensures
        ({
            let after = model::after_setnx(store, key, value, now);
            &&& keyspace::is_live(store, key, now) ==> after == store
            &&& !keyspace::is_live(store, key, now) ==> model::string_at(after, key, now) == Ok::<
                Option<Seq<char>>,
                StoreError,
            >(Some(value))
        }),
{
}

/// Each key of an `MSET` holds the last value that was given for it, without a
/// TTL; no other key is touched.
pub proof fn lemma_mset_is_read_back(
    store: StoreView,
    pairs: Seq<(Seq<char>, Seq<char>)>,
    i: int,
    now: u64,
    other: Seq<char>,
)
    requires
        0 <= i < pairs.len(),
        forall|j: int| i < j < pairs.len() ==> (#[trigger] pairs[j]).0 != pairs[i].0,
        forall|j: int| 0 <= j < pairs.len() ==> (#[trigger] pairs[j]).0 != other,
    ensures
        ({
            let after = model::after_mset(store, pairs);
            &&& model::string_at(after, pairs[i].0, now) == Ok::<Option<Seq<char>>, StoreError>(
                Some(pairs[i].1),
            )
            &&& model::ttl_result(after, pairs[i].0, now) == -1
            &&& after.contains_key(other) == store.contains_key(other)
            &&& store.contains_key(other) ==> after[other] == store[other]
        }),
    decreases pairs.len(),
{
    let fewer = pairs.drop_last();
    let last = pairs[pairs.len() - 1];
    assert(pairs.last() == last);
    assert forall|j: int| 0 <= j < fewer.len() implies (#[trigger] fewer[j]).0 != other by {
        assert(fewer[j] == pairs[j]);
    }
    if i < fewer.len() {
        assert(last.0 != pairs[i].0);
        assert forall|j: int| i < j < fewer.len() implies (#[trigger] fewer[j]).0 != fewer[i].0 by {
            assert(fewer[j] == pairs[j]);
        }
        lemma_mset_is_read_back(store, fewer, i, now, other);
    } else if fewer.len() > 0 {
        lemma_mset_untouched(store, fewer, other);
    }
}

proof fn lemma_mset_untouched(
    store: StoreView,
    pairs: Seq<(Seq<char>, Seq<char>)>,
    other: Seq<char>,
)
    requires
        forall|j: int| 0 <= j < pairs.len() ==> (#[trigger] pairs[j]).0 != other,
    ensures
        model::after_mset(store, pairs).contains_key(other) == store.contains_key(other),
        store.contains_key(other) ==> model::after_mset(store, pairs)[other] == store[other],
    decreases pairs.len(),
{
    if pairs.len() > 0 {
        let fewer = pairs.drop_last();
        assert(pairs.last() == pairs[pairs.len() - 1]);
        assert forall|j: int| 0 <= j < fewer.len() implies (#[trigger] fewer[j]).0 != other by {
            assert(fewer[j] == pairs[j]);
        }
        lemma_mset_untouched(store, fewer, other);
    }
}

/// `GETSET` answers with the string that was there, stores the new one in its
/// place, and clears the TTL.
pub proof fn lemma_getset_replaces(
    store: StoreView,
    key: Seq<char>,
    value: Seq<char>,
    now: u64,
    later: u64,
)
    requires
        model::string_at(store, key, now) is Ok,
    ensures
        ({
            let after = model::after_getset(store, key, value, now);
            &&& model::string_at(after, key, later) == Ok::<Option<Seq<char>>, StoreError>(
                Some(value),
            )
            &&& model::ttl_result(after, key, later) == -1
        }),
{
}

// --- Lists --------------------------------------------------------------

/// What is pushed at either end of a list is popped from that end, and the list
/// is then as it was before; a list that was missing is missing again.
pub proof fn lemma_push_then_pop(
    store: StoreView,
    key: Seq<char>,
    value: Seq<char>,
    now: u64,
)
    requires
        model::list_at(store, key, now) is Ok,
        keyspace::is_live(store, key, now) ==> !store[key].value.is_hollow(),
    ensures
        ({
            let left = model::after_lpush(store, key, seq![value], now);
            &&& model::lpop_result(left, key, now) == Ok::<Option<Seq<char>>, StoreError>(
                Some(value),
            )
            &&& keyspace::live_part(model::after_lpop(left, key, now), now)
                == keyspace::live_part(store, now)
        }),
        ({
            let right = model::after_rpush(store, key, seq![value], now);
            &&& model::rpop_result(right, key, now) == Ok::<Option<Seq<char>>, StoreError>(
                Some(value),
            )
            &&& keyspace::live_part(model::after_rpop(right, key, now), now)
                == keyspace::live_part(store, now)
        }),
{
    let list = model::list_at(store, key, now)->Ok_0;
    let left = model::after_lpush(store, key, seq![value], now);
    let right = model::after_rpush(store, key, seq![value], now);
    assert(seq![value].reverse() =~= seq![value]);
    assert(model::pushed_front(list, seq![value]).drop_first() =~= list);
    assert((list + seq![value]).drop_last() =~= list);
    assert(keyspace::live_part(model::after_lpop(left, key, now), now) =~= keyspace::live_part(
        store,
        now,
    ));
    assert(keyspace::live_part(model::after_rpop(right, key, now), now) =~= keyspace::live_part(
        store,
        now,
    ));
}

/// The range from the first to the last element is the whole list, and the
/// element at an index is what the range of that one index holds.
pub proof fn lemma_ranges_of_a_list(list: Seq<Seq<char>>, index: int)
    ensures
        data_structure::selected(list, 0, -1) == list,
        data_structure::element_at(list, index) matches Some(value) ==> data_structure::selected(
            list,
            index,
            index,
        ) == seq![value],
{
    assert(data_structure::selected(list, 0, -1) =~= list);
    if data_structure::element_at(list, index) is Some {
        assert(data_structure::selected(list, index, index) =~= seq![
            data_structure::element_at(list, index)->Some_0,
        ]);
    }
}

/// A range never holds anything but elements of the list, in list order.
pub proof fn lemma_range_is_a_slice(list: Seq<Seq<char>>, start: int, stop: int)
    ensures
        ({
            let range = data_structure::selected(list, start, stop);
            &&& range.len() <= list.len()
            &&& forall|i: int|
                0 <= i < range.len() ==> range[i] == #[trigger] list[data_structure::range_start(
                    start,
                    list.len(),
                ) + i]
        }),
{
}

/// What `LSET` stores is what `LINDEX` then reads, and no other element changes.
pub proof fn lemma_lset_then_lindex(
    store: StoreView,
    key: Seq<char>,
    index: int,
    value: Seq<char>,
    now: u64,
    other: int,
)
    requires
        model::lset_result(store, key, index, now) is Ok,
    ensures
        ({
            let after = model::after_lset(store, key, index, value, now);
            let list = model::list_at(store, key, now)->Ok_0;
            &&& model::lindex_result(after, key, index, now) == Ok::<
                Option<Seq<char>>,
                StoreError,
            >(Some(value))
            &&& data_structure::resolved(other, list.len()) != data_structure::resolved(
                index,
                list.len(),
            ) ==> model::lindex_result(after, key, other, now) == model::lindex_result(
                store,
                key,
                other,
                now,
            )
        }),
{
}

// --- Sets ---------------------------------------------------------------

/// An added member is a member; adding it again adds nothing; a removed member
/// is a member no more.
pub proof fn lemma_members_come_and_go(
    store: StoreView,
    key: Seq<char>,
    value: Seq<char>,
    now: u64,
)
    requires
        model::set_at(store, key, now) is Ok,
        model::members_at(store, key, now).finite(),
    ensures
        ({
            let added = model::after_sadd(store, key, seq![value], now);
            &&& model::sismember_result(added, key, value, now) == Ok::<bool, StoreError>(true)
            &&& model::sadd_result(added, key, seq![value], now) == Ok::<int, StoreError>(0)
            &&& model::sadd_result(store, key, seq![value], now) == Ok::<int, StoreError>(
                if model::members_at(store, key, now).contains(value) {
                    0
                } else {
                    1
                },
            )
        }),
        ({
            let removed = model::after_srem(store, key, seq![value], now);
            &&& model::sismember_result(removed, key, value, now) == Ok::<bool, StoreError>(false)
            &&& model::srem_result(store, key, seq![value], now) == Ok::<int, StoreError>(
                if model::members_at(store, key, now).contains(value) {
                    1
                } else {
                    0
                },
            )
        }),
{
    let members = model::members_at(store, key, now);
    let one = seq![value];
    assert(one.to_set() =~= Set::empty().insert(value)) by {
        assert(one[0] == value);
    }
    assert(members.union(one.to_set()) =~= members.insert(value));
    assert(members.difference(one.to_set()) =~= members.remove(value));
    let more = members.insert(value);
    assert(more.union(one.to_set()) =~= more);
    if members.contains(value) {
        assert(more =~= members);
    } else {
        assert(members.remove(value) =~= members);
    }
}

/// `SPOP` does to the keyspace what `SREM` of the popped member does, so the one
/// can be logged for the other.
pub proof fn lemma_pop_is_a_removal(
    store: StoreView,
    key: Seq<char>,
    now: u64,
    member: Seq<char>,
    after: StoreView,
)
    requires
        model::pops_member(
            store,
            key,
            now,
            Ok::<Option<Seq<char>>, StoreError>(Some(member)),
            after,
        ),
    ensures
        after == model::after_srem(store, key, seq![member], now),
{
    let members = model::members_at(store, key, now);
    assert(seq![member].to_set() =~= Set::empty().insert(member)) by {
        assert(seq![member][0] == member);
    }
    assert(members.difference(seq![member].to_set()) =~= members.remove(member));
}

/// The intersection is within the union; the difference and the intersection of
/// the same keys have nothing in common, when there is more than one key.
pub proof fn lemma_set_algebra(
    store: StoreView,
    keys: Seq<Seq<char>>,
    now: u64,
    member: Seq<char>,
)
    requires
        !model::some_not_set(store, keys, now),
    ensures
        model::sinter_result(store, keys, now)->Ok_0.contains(member) ==> model::sunion_result(
            store,
            keys,
            now,
        )->Ok_0.contains(member),
        model::sdiff_result(store, keys, now)->Ok_0.contains(member) ==> model::sunion_result(
            store,
            keys,
            now,
        )->Ok_0.contains(member),
        keys.len() > 1 ==> !(model::sinter_result(store, keys, now)->Ok_0.contains(member)
            && model::sdiff_result(store, keys, now)->Ok_0.contains(member)),
        keys.len() == 1 ==> model::sinter_result(store, keys, now)->Ok_0.contains(member)
            == model::members_at(store, keys[0], now).contains(member),
{
    if keys.len() > 0 {
        if model::members_at(store, keys[0], now).contains(member) {
            assert(model::sunion_result(store, keys, now)->Ok_0.contains(member));
        }
        if keys.len() > 1 && model::sinter_result(store, keys, now)->Ok_0.contains(member) {
            let second = keys[1];
            assert(model::members_at(store, second, now).contains(member));
            assert(!model::sdiff_result(store, keys, now)->Ok_0.contains(member));
        }
    }
}

// --- Sorted sets --------------------------------------------------------

/// An added member has the score it was added with, or one that stands at the
/// same place; no other member is touched.
pub proof fn lemma_zadd_sets_the_score(
    members: Map<Seq<char>, ScoreView>,
    new: ScoreView,
    member: Seq<char>,
    other: Seq<char>,
)
    ensures
        ({
            let after = data_structure::zset_add(members, new, member);
            &&& after.contains_key(member)
            &&& score::level(after[member].bits) == score::level(new.bits)
            &&& other != member ==> {
                &&& after.contains_key(other) == members.contains_key(other)
                &&& members.contains_key(other) ==> after[other] == members[other]
            }
        }),
{
}

/// A ranking lists every member once, and the rank of a member is where the
/// ranking lists it.
pub proof fn lemma_rank_is_the_position(
    members: Map<Seq<char>, ScoreView>,
    ranking: Seq<Seq<char>>,
    i: int,
    j: int,
)
    requires
        score::is_ranking(ranking, members),
        0 <= i < j < ranking.len(),
    ensures
        ranking[i] != ranking[j],
        score::ranks_before(members[ranking[i]], ranking[i], members[ranking[j]], ranking[j]),
        score::level(members[ranking[i]].bits) <= score::level(members[ranking[j]].bits),
        score::ranking(members) == ranking,
        ranking.index_of(ranking[i]) == i,
{
    score::lemma_is_the_ranking(ranking, members);
    score::lemma_ranks_before_irreflexive(members[ranking[i]], ranking[i]);
    let k = ranking.index_of(ranking[i]);
    assert(0 <= k < ranking.len() && ranking[k] == ranking[i]);
    if k < i {
        assert(score::ranks_before(
            members[ranking[k]],
            ranking[k],
            members[ranking[i]],
            ranking[i],
        ));
    } else if i < k {
        assert(score::ranks_before(
            members[ranking[i]],
            ranking[i],
            members[ranking[k]],
            ranking[k],
        ));
    }
}

// --- Hashes -------------------------------------------------------------

/// A field that was set is read back, a field that was deleted is not, and no
/// other field is touched.
pub proof fn lemma_fields_come_and_go(
    store: StoreView,
    key: Seq<char>,
    field: Seq<char>,
    value: Seq<char>,
    other: Seq<char>,
    now: u64,
)
    requires
        model::hash_at(store, key, now) is Ok,
    ensures
        ({
            let after = model::after_hset(store, key, field, value, now);
            &&& model::hget_result(after, key, field, now) == Ok::<
                Option<Seq<char>>,
                StoreError,
            >(Some(value))
            &&& model::hset_result(after, key, field, now) == Ok::<bool, StoreError>(false)
            &&& other != field ==> model::hget_result(after, key, other, now)
                == model::hget_result(store, key, other, now)
        }),
        ({
            let after = model::after_hdel(store, key, field, now);
            &&& model::hget_result(after, key, field, now) == Ok::<
                Option<Seq<char>>,
                StoreError,
            >(None)
            &&& other != field ==> model::hget_result(after, key, other, now)
                == model::hget_result(store, key, other, now)
        }),
{
    let fields = model::hash_at(store, key, now)->Ok_0;
    let left = fields.remove(field);
    if left == Map::<Seq<char>, Seq<char>>::empty() && other != field {
        assert(left.contains_key(other) == fields.contains_key(other));
    }
}

// --- Keys ---------------------------------------------------------------

/// Renaming moves the value and the TTL to the new name, and takes them from the
/// old one. No other key is touched.
pub proof fn lemma_rename_moves(
    store: StoreView,
    key: Seq<char>,
    new_key: Seq<char>,
    now: u64,
    other: Seq<char>,
)
    requires
        keyspace::is_live(store, key, now),
    ensures
        ({
            let after = model::after_rename(store, key, new_key, now);
            &&& keyspace::is_live(after, new_key, now)
            &&& after[new_key] == store[key]
            &&& model::ttl_result(after, new_key, now) == model::ttl_result(store, key, now)
            &&& key != new_key ==> !keyspace::is_live(after, key, now)
            &&& other != key && other != new_key ==> {
                &&& after.contains_key(other) == store.contains_key(other)
                &&& store.contains_key(other) ==> after[other] == store[other]
            }
        }),
{
}

/// A TTL counts down from the seconds it was set to; `PERSIST` takes it away; a
/// TTL that is not positive deletes the key at once. The value stays as it was.
pub proof fn lemma_ttl_of_a_key(store: StoreView, key: Seq<char>, seconds: i64, now: u64)
    requires
        keyspace::is_live(store, key, now),
    ensures
        ({
            let after = model::after_expire(store, key, seconds as int, now);
            if seconds > 0 {
                &&& model::ttl_result(after, key, now) == seconds
                &&& after[key].value == store[key].value
            } else {
                model::ttl_result(after, key, now) == -2
            }
        }),
        ({
            let after = model::after_persist(store, key, now);
            &&& model::ttl_result(after, key, now) == -1
            &&& after[key].value == store[key].value
        }),
        model::ttl_result(store, key, now) >= -1,
{
    if seconds > 0 {
        let left = seconds as int * NANOS_PER_SECOND as int;
        assert(keyspace::deadline_after(now, seconds as int) - now == left);
        vstd::arithmetic::div_mod::lemma_div_multiples_vanish(
            seconds as int,
            NANOS_PER_SECOND as int,
        );
        assert(left / (NANOS_PER_SECOND as int) == seconds);
        assert(left > 0) by (nonlinear_arith)
            requires
                left == seconds as int * NANOS_PER_SECOND as int,
                seconds > 0,
        ;
    }
    match store[key].expires_at {
        Some(deadline) => {
            vstd::arithmetic::div_mod::lemma_div_pos_is_pos(
                deadline - now,
                NANOS_PER_SECOND as int,
            );
        },
        None => {},
    }
}

/// A key that is given a TTL lives until its deadline, and its remaining TTL is
/// the whole seconds that are left.
pub proof fn lemma_key_lives_until_its_deadline(
    store: StoreView,
    key: Seq<char>,
    seconds: i64,
    now: u64,
    later: u64,
)
    requires
        keyspace::is_live(store, key, now),
        seconds > 0,
    ensures
        ({
            let after = model::after_expire(store, key, seconds as int, now);
            let deadline = now + seconds * NANOS_PER_SECOND;
            &&& keyspace::is_live(after, key, later) == (later < deadline)
            &&& now <= later < deadline ==> model::ttl_result(after, key, later) == (deadline
                - later) / (NANOS_PER_SECOND as int)
        }),
{
    let deadline = now + seconds * NANOS_PER_SECOND;
    if now <= later < deadline {
        let left = deadline - later;
        assert(left <= seconds * NANOS_PER_SECOND);
        vstd::arithmetic::div_mod::lemma_div_is_ordered(
            left,
            seconds * NANOS_PER_SECOND,
            NANOS_PER_SECOND as int,
        );
        vstd::arithmetic::div_mod::lemma_div_multiples_vanish(
            seconds as int,
            NANOS_PER_SECOND as int,
        );
    }
}

/// A key answers with an error to the operations of every type but the one it
/// holds.
pub proof fn lemma_one_type_per_key(store: StoreView, key: Seq<char>, now: u64)
    ensures
        ({
            let value = keyspace::live_value(store, key, now);
            &&& (model::string_at(store, key, now) is Err) == (value is Some && !(
            value->Some_0 is Str))
            &&& (model::list_at(store, key, now) is Err) == (value is Some && !(
            value->Some_0 is List))
            &&& (model::set_at(store, key, now) is Err) == (value is Some && !(
            value->Some_0 is StrSet))
            &&& (model::zset_at(store, key, now) is Err) == (value is Some && !(
            value->Some_0 is SortedSet))
            &&& (model::hash_at(store, key, now) is Err) == (value is Some && !(
            value->Some_0 is Hash))
        }),
{
}

/// The pattern `*` finds every live key, so `KEYS *` lists as many keys as
/// `DBSIZE` counts; after `FLUSHALL` there are none.
pub proof fn lemma_star_finds_every_key(store: StoreView, now: u64)
    ensures
        model::matching_keys(store, seq!['*'], now) == keyspace::live_keys(store, now),
        model::live_count(StoreView::empty(), now) == 0,
{
    let star = seq!['*'];
    assert(is_ascii_chars(star));
    is_ascii_chars_encode_utf8(star);
    assert(encode_utf8(star) =~= seq![glob::STAR]);
    assert forall|key: Seq<char>| glob::text_matches(star, key) by {
        glob::lemma_star_matches_everything(encode_utf8(key));
    }
    assert(model::matching_keys(store, star, now) =~= keyspace::live_keys(store, now));
    assert(keyspace::live_keys(StoreView::empty(), now) =~= Set::<Seq<char>>::empty());
}

} // verus!
