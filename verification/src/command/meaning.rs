//! What each request means, in terms of what is stored: what it is answered, and
//! what it leaves.
//!
//! A request is taken as its tokens, the name in any case, and a number by its
//! decimal text.
use vstd::prelude::*;
use vstd::utf8::*;

use crate::command::dispatch;
use crate::command::dispatch::StepView;
use crate::command::execute;
use crate::command::execute::OutcomeView;
use crate::command::names;
use crate::command::parse;
use crate::command::parse::Verb;
use crate::command::{CommandErrorView, CommandView};
use crate::database::data_structure;
use crate::database::db::{DatabaseView, StoreError};
use crate::database::glob;
use crate::database::keyspace;
use crate::database::keyspace::{EntryView, StoreView, ValueView};
use crate::database::model;
use crate::keyed_map;
use crate::resp;
use crate::score;
use crate::score::ScoreView;
use crate::text;

verus! {

// --- What is stored -----------------------------------------------------

/// There is no such key, or its deadline has come.
pub open spec fn lacks(store: StoreView, key: Seq<char>, now: u64) -> bool {
    !store.contains_key(key) || (store[key].expires_at matches Some(deadline) && deadline <= now)
}

/// The key is there, and holds `value`.
pub open spec fn holds(store: StoreView, key: Seq<char>, now: u64, value: ValueView) -> bool {
    !lacks(store, key, now) && store[key].value == value
}

pub open spec fn finds_string(
    store: StoreView,
    key: Seq<char>,
    now: u64,
    found: Option<Seq<char>>,
) -> bool {
    match found {
        Some(value) => holds(store, key, now, ValueView::Str(value)),
        None => lacks(store, key, now),
    }
}

pub open spec fn finds_list(
    store: StoreView,
    key: Seq<char>,
    now: u64,
    found: Seq<Seq<char>>,
) -> bool {
    ||| holds(store, key, now, ValueView::List(found))
    ||| lacks(store, key, now) && found == Seq::<Seq<char>>::empty()
}

pub open spec fn finds_set(
    store: StoreView,
    key: Seq<char>,
    now: u64,
    found: Set<Seq<char>>,
) -> bool {
    ||| holds(store, key, now, ValueView::StrSet(found))
    ||| lacks(store, key, now) && found == Set::<Seq<char>>::empty()
}

pub open spec fn finds_zset(
    store: StoreView,
    key: Seq<char>,
    now: u64,
    found: Map<Seq<char>, ScoreView>,
) -> bool {
    ||| holds(store, key, now, ValueView::SortedSet(found))
    ||| lacks(store, key, now) && found == Map::<Seq<char>, ScoreView>::empty()
}

pub open spec fn finds_hash(
    store: StoreView,
    key: Seq<char>,
    now: u64,
    found: Map<Seq<char>, Seq<char>>,
) -> bool {
    ||| holds(store, key, now, ValueView::Hash(found))
    ||| lacks(store, key, now) && found == Map::<Seq<char>, Seq<char>>::empty()
}

/// The database with another value at the key, under the deadline it has.
pub open spec fn stored(
    before: DatabaseView,
    key: Seq<char>,
    value: ValueView,
    now: u64,
) -> DatabaseView {
    DatabaseView {
        store: before.store.insert(
            key,
            EntryView {
                value,
                expires_at: if lacks(before.store, key, now) {
                    None
                } else {
                    before.store[key].expires_at
                },
            },
        ),
        ..before
    }
}

/// The database without the key.
pub open spec fn removed(before: DatabaseView, key: Seq<char>) -> DatabaseView {
    DatabaseView { store: before.store.remove(key), ..before }
}

/// The database after a look at the key, which takes it away if its deadline has
/// come.
pub open spec fn looked_up(before: DatabaseView, key: Seq<char>, now: u64) -> DatabaseView {
    if lacks(before.store, key, now) {
        removed(before, key)
    } else {
        before
    }
}

/// `items` are the members, each listed once.
pub open spec fn lists_once(items: Seq<Seq<char>>, members: Set<Seq<char>>) -> bool {
    &&& forall|i: int, j: int|
        0 <= i < j < items.len() ==> #[trigger] items[i] != #[trigger] items[j]
    &&& forall|i: int| 0 <= i < items.len() ==> members.contains(#[trigger] items[i])
    &&& forall|x: Seq<char>| #[trigger]
        members.contains(x) ==> exists|i: int| 0 <= i < items.len() && items[i] == x
}

/// `items` are the fields, each listed once and followed by its value.
pub open spec fn lists_fields_and_values(
    items: Seq<Seq<char>>,
    fields: Map<Seq<char>, Seq<char>>,
) -> bool {
    exists|order: Seq<Seq<char>>|
        {
            &&& #[trigger] lists_once(order, fields.dom())
            &&& items.len() == 2 * order.len()
            &&& forall|i: int|
                0 <= i < order.len() ==> items[2 * i] == #[trigger] order[i] && items[2 * i + 1]
                    == fields[order[i]]
        }
}

/// Whether a position of a list lies between `start` and `stop`, both included; a
/// negative number counts from the end.
pub open spec fn lies_between(p: int, len: int, start: int, stop: int) -> bool {
    &&& p >= start && start >= 0 || p >= len + start && start < 0
    &&& p <= stop && stop >= 0 || p <= len + stop && stop < 0
}

/// `items` are the elements of `list` whose position lies between `start` and
/// `stop`, in order; a negative position counts from the end.
pub open spec fn is_range(
    items: Seq<Seq<char>>,
    list: Seq<Seq<char>>,
    start: int,
    stop: int,
) -> bool {
    exists|from: int|
        {
            &&& 0 <= from <= from + items.len() <= list.len()
            &&& items == #[trigger] list.subrange(from, from + items.len())
            &&& forall|p: int|
                0 <= p < list.len() ==> (from <= p < from + items.len()) == #[trigger] lies_between(
                    p,
                    list.len() as int,
                    start,
                    stop,
                )
        }
}

/// `current` spells the number `n`; nothing spells zero.
pub open spec fn spells(current: Option<Seq<char>>, n: i64) -> bool {
    match current {
        Some(digits) => digits == text::decimal(n as int),
        None => n == 0,
    }
}

/// The reply that a request gets at once.
pub open spec fn answered(step: StepView, reply: Seq<char>) -> bool {
    step.outcome == OutcomeView::Reply(reply)
}

// --- From requests to what they come to ---------------------------------

proof fn lemma_answered(
    tokens: Seq<Seq<char>>,
    readings: Map<Seq<char>, ScoreView>,
    before: DatabaseView,
    now: u64,
    after: DatabaseView,
    step: StepView,
    command: CommandView,
)
    requires
        dispatch::dispatches(tokens, readings, before, now, after, step),
        tokens.len() > 0,
        parse::parsed(tokens, readings) == Ok::<CommandView, CommandErrorView>(command),
        !(command is SPop),
        !(command is Save),
        !(command is BgSave),
        !(command is Publish),
        !(command is ZIncrBy),
    ensures
        step.outcome is Reply,
        execute::answers(command, before, now, after.store, step.outcome->Reply_0),
        after == (DatabaseView { store: after.store, ..before }),
{
}

proof fn lemma_looked_up(store: StoreView, key: Seq<char>, now: u64)
    ensures
        lacks(store, key, now) ==> keyspace::evicted(store, key, now) == store.remove(key),
        !lacks(store, key, now) ==> keyspace::evicted(store, key, now) == store,
{
    if !store.contains_key(key) {
        assert(store.remove(key) =~= store);
    }
}

proof fn lemma_settled_is(store: StoreView, key: Seq<char>, now: u64)
    ensures
        keyspace::is_live(store, key, now) == !lacks(store, key, now),
{
}

/// A listing without repetitions lists each member once.
pub proof fn lemma_enumerated_is_listed(items: Seq<Seq<char>>, members: Set<Seq<char>>)
    requires
        keyed_map::enumerates(items, members),
    ensures
        lists_once(items, members),
{
    assert forall|i: int| 0 <= i < items.len() implies members.contains(#[trigger] items[i]) by {
        assert(items.to_set().contains(items[i]));
    }
    assert forall|x: Seq<char>| #[trigger] members.contains(x) implies exists|i: int|
        0 <= i < items.len() && items[i] == x by {
        assert(items.to_set().contains(x));
    }
}

proof fn lemma_listed(reply: Seq<char>, expected: Result<Set<Seq<char>>, StoreError>)
    requires
        execute::lists_reply(reply, expected),
        expected is Ok,
    ensures
        exists|items: Seq<Seq<char>>| #[trigger]
            lists_once(items, expected->Ok_0) && reply == resp::array_frame(items),
{
    let r = choose|r: Result<Seq<Seq<char>>, StoreError>|
        #![trigger execute::array_reply(r)]
        model::lists_members(r, expected) && reply == execute::array_reply(r);
    lemma_enumerated_is_listed(r->Ok_0, expected->Ok_0);
}

proof fn lemma_hash_listed(items: Seq<Seq<char>>, fields: Map<Seq<char>, Seq<char>>)
    requires
        model::lists_hash(items, fields),
    ensures
        lists_fields_and_values(items, fields),
{
    let pairs = choose|pairs: Seq<(Seq<char>, Seq<char>)>|
        keyed_map::lists_entries(pairs, fields) && items == model::flattened(pairs);
    let order = keyed_map::firsts(pairs);
    lemma_enumerated_is_listed(order, fields.dom());
    assert forall|i: int| 0 <= i < order.len() implies items[2 * i] == #[trigger] order[i]
        && items[2 * i + 1] == fields[order[i]] by {
        assert(pairs[i].1 == fields[pairs[i].0]);
        assert((2 * i) / 2 == i && (2 * i) % 2 == 0);
        assert((2 * i + 1) / 2 == i && (2 * i + 1) % 2 == 1);
    }
}

proof fn lemma_selected_is_range(list: Seq<Seq<char>>, start: int, stop: int)
    ensures
        is_range(data_structure::selected(list, start, stop), list, start, stop),
{
    let items = data_structure::selected(list, start, stop);
    let from = data_structure::range_start(start, list.len());
    if from > data_structure::range_stop(stop, list.len()) {
        assert(items =~= list.subrange(0, 0int + items.len()));
    } else {
        assert(items =~= list.subrange(from, from + items.len()));
    }
}

proof fn lemma_added_few(members: Set<Seq<char>>, values: Seq<Seq<char>>)
    requires
        members.finite(),
    ensures
        members.union(values.to_set()).finite(),
        members.len() <= members.union(values.to_set()).len() <= members.len() + values.len(),
{
    let all = members.union(values.to_set());
    vstd::set_lib::lemma_len_subset(members, all);
    vstd::set_lib::lemma_len_union(members, values.to_set());
    values.lemma_cardinality_of_set();
}

proof fn lemma_few_distinct(keys: Seq<Seq<char>>, there: Set<Seq<char>>)
    requires
        forall|key: Seq<char>| #[trigger] there.contains(key) ==> keys.contains(key),
    ensures
        there.len() <= keys.len(),
{
    keys.lemma_cardinality_of_set();
    assert(there.subset_of(keys.to_set())) by {
        assert forall|key: Seq<char>| there.contains(key) implies keys.to_set().contains(key) by {
            assert(keys.contains(key));
        }
    }
    vstd::set_lib::lemma_len_subset(there, keys.to_set());
}

proof fn lemma_exists_counts(
    store: StoreView,
    keys: Seq<Seq<char>>,
    now: u64,
    there: Seq<int>,
)
    requires
        there.no_duplicates(),
        forall|i: int| #[trigger]
            there.contains(i) == (0 <= i < keys.len() && !lacks(store, keys[i], now)),
    ensures
        model::exists_count(store, keys, now) == there.len(),
        there.len() <= keys.len(),
    decreases keys.len(),
{
    reveal(Seq::filter);
    if keys.len() == 0 {
        if there.len() > 0 {
            assert(there.contains(there[0]));
        }
    } else {
        let last = keys.len() - 1;
        let fewer = keys.drop_last();
        if lacks(store, keys[last], now) {
            assert forall|i: int| #[trigger]
                there.contains(i) == (0 <= i < fewer.len() && !lacks(store, fewer[i], now)) by {
                assert(there.contains(i) == (0 <= i < keys.len() && !lacks(store, keys[i], now)));
            }
            lemma_exists_counts(store, fewer, now, there);
        } else {
            assert(there.contains(last));
            let at = choose|at: int| 0 <= at < there.len() && there[at] == last;
            let others = there.remove(at);
            assert forall|i: int| #[trigger]
                others.contains(i) == (0 <= i < fewer.len() && !lacks(store, fewer[i], now)) by {
                assert(there.contains(i) == (0 <= i < keys.len() && !lacks(store, keys[i], now)));
                if others.contains(i) {
                    let k = choose|k: int| 0 <= k < others.len() && others[k] == i;
                    if k < at {
                        assert(there[k] == i);
                    } else {
                        assert(there[k + 1] == i);
                    }
                }
                if there.contains(i) && i != last {
                    let k = choose|k: int| 0 <= k < there.len() && there[k] == i;
                    if k < at {
                        assert(others[k] == i);
                    } else {
                        assert(others[k - 1] == i);
                    }
                }
            }
            lemma_exists_counts(store, fewer, now, others);
        }
    }
}

proof fn lemma_mset_entries(
    store: StoreView,
    pairs: Seq<(Seq<char>, Seq<char>)>,
    i: int,
    other: Seq<char>,
)
    requires
        0 <= i < pairs.len(),
        forall|j: int| i < j < pairs.len() ==> (#[trigger] pairs[j]).0 != pairs[i].0,
        forall|j: int| 0 <= j < pairs.len() ==> (#[trigger] pairs[j]).0 != other,
    ensures
        ({
            let after = model::after_mset(store, pairs);
            &&& after.contains_key(pairs[i].0)
            &&& after[pairs[i].0] == (EntryView {
                value: ValueView::Str(pairs[i].1),
                expires_at: None,
            })
            &&& after.contains_key(other) == store.contains_key(other)
            &&& store.contains_key(other) ==> after[other] == store[other]
        }),
    decreases pairs.len(),
{
    let fewer = pairs.drop_last();
    let last = pairs[pairs.len() - 1];
    assert(pairs.last() == last);
    assert forall|j: int| 0 <= j < fewer.len() implies (#[trigger] fewer[j]).0 != other by {
        assert(fewer[j] == pairs[j]);
    }
    if i < fewer.len() {
        assert(last.0 != pairs[i].0);
        assert forall|j: int| i < j < fewer.len() implies (#[trigger] fewer[j]).0 != fewer[i].0 by {
            assert(fewer[j] == pairs[j]);
        }
        lemma_mset_entries(store, fewer, i, other);
    } else if fewer.len() > 0 {
        lemma_mset_others(store, fewer, other);
    }
}

proof fn lemma_mset_others(
    store: StoreView,
    pairs: Seq<(Seq<char>, Seq<char>)>,
    other: Seq<char>,
)
    requires
        forall|j: int| 0 <= j < pairs.len() ==> (#[trigger] pairs[j]).0 != other,
    ensures
        model::after_mset(store, pairs).contains_key(other) == store.contains_key(other),
        store.contains_key(other) ==> model::after_mset(store, pairs)[other] == store[other],
    decreases pairs.len(),
{
    if pairs.len() > 0 {
        let fewer = pairs.drop_last();
        assert(pairs.last() == pairs[pairs.len() - 1]);
        assert forall|j: int| 0 <= j < fewer.len() implies (#[trigger] fewer[j]).0 != other by {
            assert(fewer[j] == pairs[j]);
        }
        lemma_mset_others(store, fewer, other);
    }
}

proof fn lemma_whole_seconds(span: int, left: int)
    ensures
        0 <= left && left * 1_000_000_000 <= span < (left + 1) * 1_000_000_000 ==> span
            / 1_000_000_000 == left,
{
    if 0 <= left && left * 1_000_000_000 <= span < (left + 1) * 1_000_000_000 {
        vstd::arithmetic::div_mod::lemma_fundamental_div_mod_converse(
            span,
            1_000_000_000,
            left,
            span - left * 1_000_000_000,
        );
    }
}

proof fn lemma_sets_found(
    store: StoreView,
    keys: Seq<Seq<char>>,
    sets: Seq<Set<Seq<char>>>,
    now: u64,
)
    requires
        sets.len() == keys.len(),
        forall|i: int|
            0 <= i < keys.len() ==> finds_set(store, keys[i], now, #[trigger] sets[i]),
    ensures
        !model::some_not_set(store, keys, now),
        forall|i: int|
            0 <= i < keys.len() ==> model::members_at(store, #[trigger] keys[i], now) == sets[i],
{
    assert forall|i: int| 0 <= i < keys.len() implies model::set_at(store, #[trigger] keys[i], now)
        == Ok::<Set<Seq<char>>, StoreError>(sets[i]) by {
        assert(finds_set(store, keys[i], now, sets[i]));
    }
}

proof fn lemma_sinter_is(
    store: StoreView,
    keys: Seq<Seq<char>>,
    sets: Seq<Set<Seq<char>>>,
    wanted: Set<Seq<char>>,
    now: u64,
)
    requires
        keys.len() > 0,
        sets.len() == keys.len(),
        forall|i: int|
            0 <= i < keys.len() ==> finds_set(store, keys[i], now, #[trigger] sets[i]),
        forall|x: Seq<char>| #[trigger]
            wanted.contains(x) == (forall|i: int|
                0 <= i < sets.len() ==> (#[trigger] sets[i]).contains(x)),
    ensures
        model::sinter_result(store, keys, now) == Ok::<Set<Seq<char>>, StoreError>(wanted),
{
    lemma_sets_found(store, keys, sets, now);
    let given = model::sinter_result(store, keys, now)->Ok_0;
    assert forall|x: Seq<char>| given.contains(x) == wanted.contains(x) by {
        if given.contains(x) {
            assert forall|i: int| 0 <= i < sets.len() implies (#[trigger] sets[i]).contains(x) by {
                assert(model::members_at(store, keys[i], now).contains(x));
            }
        }
        if wanted.contains(x) {
            assert forall|i: int| 0 <= i < keys.len() implies model::members_at(
                store,
                #[trigger] keys[i],
                now,
            ).contains(x) by {
                assert(sets[i].contains(x));
            }
        }
    }
    assert(given =~= wanted);
}

proof fn lemma_sunion_is(
    store: StoreView,
    keys: Seq<Seq<char>>,
    sets: Seq<Set<Seq<char>>>,
    wanted: Set<Seq<char>>,
    now: u64,
)
    requires
        keys.len() > 0,
        sets.len() == keys.len(),
        forall|i: int|
            0 <= i < keys.len() ==> finds_set(store, keys[i], now, #[trigger] sets[i]),
        forall|x: Seq<char>| #[trigger]
            wanted.contains(x) == (exists|i: int|
                0 <= i < sets.len() && (#[trigger] sets[i]).contains(x)),
    ensures
        model::sunion_result(store, keys, now) == Ok::<Set<Seq<char>>, StoreError>(wanted),
{
    lemma_sets_found(store, keys, sets, now);
    let given = model::sunion_result(store, keys, now)->Ok_0;
    assert forall|x: Seq<char>| given.contains(x) == wanted.contains(x) by {
        if given.contains(x) {
            let i = choose|i: int|
                0 <= i < keys.len() && model::members_at(
                    store,
                    #[trigger] keys[i],
                    now,
                ).contains(x);
            assert(sets[i].contains(x));
        }
        if wanted.contains(x) {
            let i = choose|i: int| 0 <= i < sets.len() && (#[trigger] sets[i]).contains(x);
            assert(model::members_at(store, keys[i], now).contains(x));
        }
    }
    assert(given =~= wanted);
}

proof fn lemma_sdiff_is(
    store: StoreView,
    keys: Seq<Seq<char>>,
    sets: Seq<Set<Seq<char>>>,
    wanted: Set<Seq<char>>,
    now: u64,
)
    requires
        keys.len() > 0,
        sets.len() == keys.len(),
        forall|i: int|
            0 <= i < keys.len() ==> finds_set(store, keys[i], now, #[trigger] sets[i]),
        forall|x: Seq<char>| #[trigger]
            wanted.contains(x) == (sets[0].contains(x) && forall|i: int|
                1 <= i < sets.len() ==> !(#[trigger] sets[i]).contains(x)),
    ensures
        model::sdiff_result(store, keys, now) == Ok::<Set<Seq<char>>, StoreError>(wanted),
{
    lemma_sets_found(store, keys, sets, now);
    let given = model::sdiff_result(store, keys, now)->Ok_0;
    assert(model::members_at(store, keys[0], now) == sets[0]);
    assert forall|x: Seq<char>| given.contains(x) == wanted.contains(x) by {
        if given.contains(x) {
            assert forall|i: int| 1 <= i < sets.len() implies !(#[trigger] sets[i]).contains(
                x,
            ) by {
                assert(!model::members_at(store, keys[i], now).contains(x));
            }
        }
        if wanted.contains(x) {
            assert forall|i: int| 1 <= i < keys.len() implies !model::members_at(
                store,
                #[trigger] keys[i],
                now,
            ).contains(x) by {
                assert(!sets[i].contains(x));
            }
        }
    }
    assert(given =~= wanted);
}

// --- Sorted sets --------------------------------------------------------

/// The `j`-th text that stands for a score is a number, and gives the member behind
/// it that score.
pub open spec fn gives_score(
    args: Seq<Seq<char>>,
    added: Seq<(ScoreView, Seq<char>)>,
    readings: Map<Seq<char>, ScoreView>,
    j: int,
) -> bool {
    &&& readings.contains_key(args[2 * j])
    &&& added[j].0 == readings[args[2 * j]]
    &&& !score::bits_are_nan(added[j].0.bits)
    &&& added[j].1 == args[2 * j + 1]
}

/// The scores that the texts give, each to the member behind it.
pub open spec fn gives_scores(
    args: Seq<Seq<char>>,
    added: Seq<(ScoreView, Seq<char>)>,
    readings: Map<Seq<char>, ScoreView>,
) -> bool {
    forall|j: int| 0 <= j < added.len() ==> #[trigger] gives_score(args, added, readings, j)
}

/// Whether a member comes before another: by its score, and among equal scores by
/// the bytes of its name.
pub open spec fn outranks(
    members: Map<Seq<char>, ScoreView>,
    one: Seq<char>,
    other: Seq<char>,
) -> bool {
    ||| score::level(members[one].bits) < score::level(members[other].bits)
    ||| score::level(members[one].bits) == score::level(members[other].bits)
        && score::bytes_before(encode_utf8(one), encode_utf8(other))
}

/// `items` are in the order of their scores.
pub open spec fn in_rank_order(
    items: Seq<Seq<char>>,
    members: Map<Seq<char>, ScoreView>,
) -> bool {
    forall|i: int, j: int|
        #![trigger items[i], items[j]]
        0 <= i < j < items.len() ==> outranks(members, items[i], items[j])
}

/// `ranked` are all the members, each listed once, in the order of their scores.
pub open spec fn is_rank_order(
    ranked: Seq<Seq<char>>,
    members: Map<Seq<char>, ScoreView>,
) -> bool {
    lists_once(ranked, members.dom()) && in_rank_order(ranked, members)
}

/// Whether a score is at or above a lower bound, or above it where the bound itself
/// is left out.
pub open spec fn meets_low(given: ScoreView, low: ScoreView, with_low: bool) -> bool {
    &&& !score::bits_are_nan(given.bits)
    &&& score::level(given.bits) > score::level(low.bits) || with_low && score::level(given.bits)
        == score::level(low.bits)
}

/// Whether a score is at or below an upper bound, or below it where the bound
/// itself is left out.
pub open spec fn meets_high(given: ScoreView, high: ScoreView, with_high: bool) -> bool {
    &&& !score::bits_are_nan(given.bits)
    &&& score::level(given.bits) < score::level(high.bits) || with_high && score::level(given.bits)
        == score::level(high.bits)
}

proof fn lemma_rank_order(ranked: Seq<Seq<char>>, members: Map<Seq<char>, ScoreView>)
    requires
        is_rank_order(ranked, members),
    ensures
        score::ranking(members) == ranked,
        forall|x: Seq<char>| #[trigger] ranked.contains(x) == members.contains_key(x),
{
    assert forall|i: int| 0 <= i < ranked.len() implies members.contains_key(
        #[trigger] ranked[i],
    ) by {
        assert(members.dom().contains(ranked[i]));
    }
    assert forall|x: Seq<char>| #[trigger] members.contains_key(x) implies ranked.contains(x) by {
        assert(members.dom().contains(x));
    }
    assert forall|i: int, j: int|
        #![trigger ranked[i], ranked[j]]
        0 <= i < j < ranked.len() implies score::ranks_before(
        members[ranked[i]],
        ranked[i],
        members[ranked[j]],
        ranked[j],
    ) by {
        assert(outranks(members, ranked[i], ranked[j]));
    }
    score::lemma_is_the_ranking(ranked, members);
}

proof fn lemma_filtered_in_order(
    ranked: Seq<Seq<char>>,
    members: Map<Seq<char>, ScoreView>,
    keep: spec_fn(Seq<char>) -> bool,
)
    requires
        in_rank_order(ranked, members),
    ensures
        in_rank_order(ranked.filter(keep), members),
        forall|x: Seq<char>| #[trigger]
            ranked.filter(keep).contains(x) == (ranked.contains(x) && keep(x)),
    decreases ranked.len(),
{
    reveal(Seq::filter);
    if ranked.len() > 0 {
        let fewer = ranked.drop_last();
        let last = ranked[ranked.len() - 1];
        assert(ranked.last() == last);
        assert(ranked =~= fewer.push(last));
        assert forall|i: int, j: int|
            #![trigger fewer[i], fewer[j]]
            0 <= i < j < fewer.len() implies outranks(members, fewer[i], fewer[j]) by {
            assert(fewer[i] == ranked[i] && fewer[j] == ranked[j]);
        }
        lemma_filtered_in_order(fewer, members, keep);
        let kept = fewer.filter(keep);
        let items = ranked.filter(keep);
        assert forall|x: Seq<char>| #[trigger] ranked.contains(x) == (fewer.contains(x) || x
            == last) by {
            text::lemma_push_contains(fewer, last, x);
        }
        if keep(last) {
            assert(items == kept.push(last));
            assert forall|x: Seq<char>| #[trigger]
                items.contains(x) == (ranked.contains(x) && keep(x)) by {
                text::lemma_push_contains(kept, last, x);
            }
            assert forall|i: int, j: int|
                #![trigger items[i], items[j]]
                0 <= i < j < items.len() implies outranks(members, items[i], items[j]) by {
                if j < kept.len() {
                    assert(items[i] == kept[i] && items[j] == kept[j]);
                } else {
                    assert(kept.contains(kept[i]));
                    assert(fewer.contains(kept[i]));
                    let k = choose|k: int| 0 <= k < fewer.len() && fewer[k] == kept[i];
                    assert(ranked[k] == kept[i]);
                    assert(outranks(members, ranked[k], ranked[ranked.len() - 1]));
                }
            }
        } else {
            assert(items == kept);
        }
    }
}

proof fn lemma_bounds_are_numbers(raw: Seq<char>, readings: Map<Seq<char>, ScoreView>)
    ensures
        parse::bound_of(raw, readings) matches Some((bound, _)) ==> !score::bits_are_nan(
            bound.bits,
        ),
{
}

proof fn lemma_scores_given(
    args: Seq<Seq<char>>,
    added: Seq<(ScoreView, Seq<char>)>,
    readings: Map<Seq<char>, ScoreView>,
)
    requires
        args.len() == 2 * added.len(),
        gives_scores(args, added, readings),
    ensures
        parse::scored_members(args, readings) == Ok::<
            Seq<(ScoreView, Seq<char>)>,
            CommandErrorView,
        >(added),
    decreases added.len(),
{
    if added.len() == 0 {
        assert(added =~= Seq::<(ScoreView, Seq<char>)>::empty());
    } else {
        let n = args.len() - 2;
        let fewer = added.drop_last();
        assert forall|j: int| 0 <= j < fewer.len() implies #[trigger] gives_score(
            args.take(n),
            fewer,
            readings,
            j,
        ) by {
            assert(gives_score(args, added, readings, j));
        }
        lemma_scores_given(args.take(n), fewer, readings);
        let last = added[added.len() - 1];
        assert(gives_score(args, added, readings, added.len() - 1));
        assert(fewer.push(last) =~= added);
    }
}

proof fn lemma_all_added(
    members: Map<Seq<char>, ScoreView>,
    added: Seq<(ScoreView, Seq<char>)>,
    i: int,
    other: Seq<char>,
)
    requires
        members.dom().finite(),
        0 <= i < added.len(),
        forall|j: int| i < j < added.len() ==> (#[trigger] added[j]).1 != added[i].1,
        forall|j: int| 0 <= j < added.len() ==> (#[trigger] added[j]).1 != other,
    ensures
        ({
            let after = model::zset_add_all(members, added);
            &&& after.dom().finite()
            &&& members.dom().len() <= after.dom().len() <= members.dom().len() + added.len()
            &&& after.contains_key(added[i].1)
            &&& score::level(after[added[i].1].bits) == score::level(added[i].0.bits)
            &&& after.contains_key(other) == members.contains_key(other)
            &&& members.contains_key(other) ==> after[other] == members[other]
        }),
    decreases added.len(),
{
    lemma_added_size(members, added);
    let fewer = added.drop_last();
    let last = added[added.len() - 1];
    assert(added.last() == last);
    lemma_added_others(members, fewer, other);
    if i < fewer.len() {
        assert(last.1 != added[i].1);
        assert forall|j: int| i < j < fewer.len() implies (#[trigger] fewer[j]).1 != fewer[i].1 by {
            assert(fewer[j] == added[j]);
        }
        assert forall|j: int| 0 <= j < fewer.len() implies (#[trigger] fewer[j]).1 != other by {
            assert(fewer[j] == added[j]);
        }
        lemma_all_added(members, fewer, i, other);
    }
}

proof fn lemma_added_others(
    members: Map<Seq<char>, ScoreView>,
    added: Seq<(ScoreView, Seq<char>)>,
    other: Seq<char>,
)
    ensures
        (forall|j: int| 0 <= j < added.len() ==> (#[trigger] added[j]).1 != other) ==> {
            let after = model::zset_add_all(members, added);
            &&& after.contains_key(other) == members.contains_key(other)
            &&& members.contains_key(other) ==> after[other] == members[other]
        },
    decreases added.len(),
{
    if added.len() > 0 && forall|j: int|
        0 <= j < added.len() ==> (#[trigger] added[j]).1 != other {
        let fewer = added.drop_last();
        assert(added.last() == added[added.len() - 1]);
        assert forall|j: int| 0 <= j < fewer.len() implies (#[trigger] fewer[j]).1 != other by {
            assert(fewer[j] == added[j]);
        }
        lemma_added_others(members, fewer, other);
    }
}

proof fn lemma_added_size(
    members: Map<Seq<char>, ScoreView>,
    added: Seq<(ScoreView, Seq<char>)>,
)
    requires
        members.dom().finite(),
    ensures
        ({
            let after = model::zset_add_all(members, added);
            &&& after.dom().finite()
            &&& members.dom().len() <= after.dom().len() <= members.dom().len() + added.len()
        }),
    decreases added.len(),
{
    if added.len() > 0 {
        lemma_added_size(members, added.drop_last());
        let before = model::zset_add_all(members, added.drop_last());
        let after = model::zset_add_all(members, added);
        if !before.contains_key(added.last().1) {
            assert(after.dom() =~= before.dom().insert(added.last().1));
        } else {
            assert(after.dom() =~= before.dom());
        }
    }
}

proof fn lemma_zadd_parses(
    name: Seq<char>,
    key: Seq<char>,
    args: Seq<Seq<char>>,
    added: Seq<(ScoreView, Seq<char>)>,
    readings: Map<Seq<char>, ScoreView>,
)
    requires
        text::upper(name) == "ZADD"@,
        added.len() > 0,
        args.len() == 2 * added.len(),
        gives_scores(args, added, readings),
    ensures
        parse::parsed(seq![name, key] + args, readings) == Ok::<CommandView, CommandErrorView>(
            CommandView::ZAdd { key, members: added },
        ),
{
    names::lemma_named_zadd();
    lemma_scores_given(args, added, readings);
    let tokens = seq![name, key] + args;
    let behind = seq![key] + args;
    assert(tokens.skip(1) =~= behind);
    assert(behind.skip(1) =~= args);
    assert(behind.len() >= 3 && behind.len() % 2 == 1);
    assert(parse::takes(Verb::ZAdd, behind));
    assert(tokens[0] == name && behind[0] == key);
}

/// The second half of `ZINCRBY` gives the member the sum, keeps every other member
/// and the TTL, and answers with the sum.
pub proof fn lemma_zincrby_finish_means(
    before: DatabaseView,
    key: Seq<char>,
    sum: ScoreView,
    member: Seq<char>,
    now: u64,
    members: Map<Seq<char>, ScoreView>,
)
    requires
        finds_zset(before.store, key, now, members),
    ensures
        ({
            let after = model::after_zincrby(before.store, key, sum, member, now);
            let now_there = after[key].value->SortedSet_0;
            &&& after == stored(before, key, ValueView::SortedSet(now_there), now).store
            &&& now_there.contains_key(member)
            &&& score::level(now_there[member].bits) == score::level(sum.bits)
            &&& now_there.remove(member) == members.remove(member)
            &&& dispatch::zincrby_reply(before.store, key, sum, now) == resp::bulk_frame(sum.text)
        }),
{
    let now_there = data_structure::zset_add(members, sum, member);
    assert(now_there.remove(member) =~= members.remove(member));
}

// --- The requests -------------------------------------------------------

/// `SET` stores the string, without a TTL.
pub proof fn lemma_set_means(
    name: Seq<char>,
    key: Seq<char>,
    value: Seq<char>,
    readings: Map<Seq<char>, ScoreView>,
    before: DatabaseView,
    now: u64,
    after: DatabaseView,
    step: StepView,
)
    requires
        text::upper(name) == "SET"@,
        dispatch::dispatches(seq![name, key, value], readings, before, now, after, step),
    ensures
        answered(step, resp::simple_frame("OK"@)),
        after == (DatabaseView {
            store: before.store.insert(
                key,
                EntryView { value: ValueView::Str(value), expires_at: None },
            ),
            ..before
        }),
{
    let tokens = seq![name, key, value];
    let command = CommandView::SetKey { key, value, ttl: None };
    names::lemma_named_set();
    assert(tokens.skip(1) =~= seq![key, value]);
    assert(parse::parsed(tokens, readings) == Ok::<CommandView, CommandErrorView>(command));
    lemma_answered(tokens, readings, before, now, after, step, command);
}

/// `SET` with `EX` (or `EXP`) stores the string until the given number of seconds
/// has passed.
pub proof fn lemma_set_with_ttl_means(
    name: Seq<char>,
    key: Seq<char>,
    value: Seq<char>,
    option: Seq<char>,
    seconds: u64,
    readings: Map<Seq<char>, ScoreView>,
    before: DatabaseView,
    now: u64,
    after: DatabaseView,
    step: StepView,
)
    requires
        text::upper(name) == "SET"@,
        dispatch::dispatches(
            seq![name, key, value, option, text::decimal(seconds as int)],
            readings,
            before,
            now,
            after,
            step,
        ),
        text::lower(option) == "ex"@ || text::lower(option) == "exp"@,
    ensures
        answered(step, resp::simple_frame("OK"@)),
        after == (DatabaseView {
            store: before.store.insert(
                key,
                EntryView { value: ValueView::Str(value), expires_at: Some(now + seconds * 1_000_000_000) },
            ),
            ..before
        }),
{
    let tokens = seq![name, key, value, option, text::decimal(seconds as int)];
    let command = CommandView::SetKey { key, value, ttl: Some(seconds) };
    names::lemma_named_set();
    names::lemma_option_words();
    text::lemma_unsigned_round_trip(seconds as nat, u64::MAX as int);
    assert(tokens.skip(1) =~= seq![key, value, option, text::decimal(seconds as int)]);
    assert(parse::parsed(tokens, readings) == Ok::<CommandView, CommandErrorView>(command));
    lemma_answered(tokens, readings, before, now, after, step, command);
}

/// `GET` answers with the string at the key, or with nil.
pub proof fn lemma_get_means(
    name: Seq<char>,
    key: Seq<char>,
    current: Option<Seq<char>>,
    readings: Map<Seq<char>, ScoreView>,
    before: DatabaseView,
    now: u64,
    after: DatabaseView,
    step: StepView,
)
    requires
        text::upper(name) == "GET"@,
        dispatch::dispatches(seq![name, key], readings, before, now, after, step),
        finds_string(before.store, key, now, current),
    ensures
        answered(step, match current {
            Some(value) => resp::bulk_frame(value),
            None => resp::null_frame(),
        }),
        after == looked_up(before, key, now),
{
    let tokens = seq![name, key];
    let command = CommandView::Get { key };
    names::lemma_named_get();
    assert(tokens.skip(1) =~= seq![key]);
    assert(parse::parsed(tokens, readings) == Ok::<CommandView, CommandErrorView>(command));
    lemma_answered(tokens, readings, before, now, after, step, command);
    lemma_looked_up(before.store, key, now);
}

/// `SETNX` stores the string only where there is no key.
pub proof fn lemma_setnx_means(
    name: Seq<char>,
    key: Seq<char>,
    value: Seq<char>,
    readings: Map<Seq<char>, ScoreView>,
    before: DatabaseView,
    now: u64,
    after: DatabaseView,
    step: StepView,
)
    requires
        text::upper(name) == "SETNX"@,
        dispatch::dispatches(seq![name, key, value], readings, before, now, after, step),
    ensures
        lacks(before.store, key, now) ==> {
            &&& answered(step, resp::integer_frame(1))
            &&& after == (DatabaseView {
            store: before.store.insert(
                key,
                EntryView { value: ValueView::Str(value), expires_at: None },
            ),
            ..before
        })
        },
        !lacks(before.store, key, now) ==> {
            &&& answered(step, resp::integer_frame(0))
            &&& after == before
        },
{
    let tokens = seq![name, key, value];
    let command = CommandView::SetNx { key, value };
    names::lemma_named_setnx();
    assert(tokens.skip(1) =~= seq![key, value]);
    assert(parse::parsed(tokens, readings) == Ok::<CommandView, CommandErrorView>(command));
    lemma_answered(tokens, readings, before, now, after, step, command);
}

/// `GETSET` answers with the string that was there, and stores the new one without
/// a TTL.
pub proof fn lemma_getset_means(
    name: Seq<char>,
    key: Seq<char>,
    value: Seq<char>,
    current: Option<Seq<char>>,
    readings: Map<Seq<char>, ScoreView>,
    before: DatabaseView,
    now: u64,
    after: DatabaseView,
    step: StepView,
)
    requires
        text::upper(name) == "GETSET"@,
        dispatch::dispatches(seq![name, key, value], readings, before, now, after, step),
        finds_string(before.store, key, now, current),
    ensures
        answered(step, match current {
            Some(old_value) => resp::bulk_frame(old_value),
            None => resp::null_frame(),
        }),
        after == (DatabaseView {
            store: before.store.insert(
                key,
                EntryView { value: ValueView::Str(value), expires_at: None },
            ),
            ..before
        }),
{
    let tokens = seq![name, key, value];
    let command = CommandView::GetSet { key, value };
    names::lemma_named_getset();
    assert(tokens.skip(1) =~= seq![key, value]);
    assert(parse::parsed(tokens, readings) == Ok::<CommandView, CommandErrorView>(command));
    lemma_answered(tokens, readings, before, now, after, step, command);
}

/// `MSET` stores every pair; of a key that is given twice the last value counts. No
/// other key is touched.
pub proof fn lemma_mset_means(
    name: Seq<char>,
    args: Seq<Seq<char>>,
    pairs: Seq<(Seq<char>, Seq<char>)>,
    i: int,
    other: Seq<char>,
    readings: Map<Seq<char>, ScoreView>,
    before: DatabaseView,
    now: u64,
    after: DatabaseView,
    step: StepView,
)
    requires
        text::upper(name) == "MSET"@,
        dispatch::dispatches(seq![name] + args, readings, before, now, after, step),
        args.len() == 2 * pairs.len(),
        forall|j: int|
            0 <= j < pairs.len() ==> (#[trigger] pairs[j]).0 == args[2 * j] && pairs[j].1 == args[2 * j
                + 1],
        0 <= i < pairs.len(),
        forall|j: int| i < j < pairs.len() ==> (#[trigger] pairs[j]).0 != pairs[i].0,
        forall|j: int| 0 <= j < pairs.len() ==> (#[trigger] pairs[j]).0 != other,
    ensures
        answered(step, resp::simple_frame("OK"@)),
        after == (DatabaseView { store: after.store, ..before }),
        after.store.contains_key(pairs[i].0),
        after.store[pairs[i].0] == (EntryView {
            value: ValueView::Str(pairs[i].1),
            expires_at: None,
        }),
        after.store.contains_key(other) == before.store.contains_key(other),
        before.store.contains_key(other) ==> after.store[other] == before.store[other],
{
    let tokens = seq![name] + args;
    let command = CommandView::MSet { pairs };
    names::lemma_named_mset();
    assert(parse::paired(args) =~= pairs);
    assert(tokens.skip(1) =~= args);
    assert(parse::parsed(tokens, readings) == Ok::<CommandView, CommandErrorView>(command));
    lemma_answered(tokens, readings, before, now, after, step, command);
    lemma_mset_entries(before.store, pairs, i, other);
}

/// `MGET` answers with the string of each key in turn, and with nil for a key that
/// holds none.
pub proof fn lemma_mget_means(
    name: Seq<char>,
    keys: Seq<Seq<char>>,
    found: Seq<Option<Seq<char>>>,
    readings: Map<Seq<char>, ScoreView>,
    before: DatabaseView,
    now: u64,
    after: DatabaseView,
    step: StepView,
)
    requires
        text::upper(name) == "MGET"@,
        dispatch::dispatches(seq![name] + keys, readings, before, now, after, step),
        keys.len() > 0,
        found.len() == keys.len(),
        forall|i: int|
            0 <= i < keys.len() ==> match #[trigger] found[i] {
                Some(value) => holds(before.store, keys[i], now, ValueView::Str(value)),
                None => lacks(before.store, keys[i], now) || !(before.store[keys[i]].value is Str),
            },
    ensures
        answered(step, resp::nullable_frame(found)),
        after == before,
{
    let tokens = seq![name] + keys;
    let command = CommandView::MGet { keys };
    names::lemma_named_mget();
    assert(tokens.skip(1) =~= keys);
    assert(parse::parsed(tokens, readings) == Ok::<CommandView, CommandErrorView>(command));
    lemma_answered(tokens, readings, before, now, after, step, command);
    let r = model::mget_result(before.store, keys, now);
    assert forall|i: int| 0 <= i < keys.len() implies r[i] == found[i] by {
        assert(found[i] is Some || found[i] is None);
    }
    assert(r =~= found);
}

/// `INCRBY` adds its number to the one at the key, keeping the TTL.
pub proof fn lemma_incrby_means(
    name: Seq<char>,
    key: Seq<char>,
    current: Option<Seq<char>>,
    n: i64,
    delta: i64,
    readings: Map<Seq<char>, ScoreView>,
    before: DatabaseView,
    now: u64,
    after: DatabaseView,
    step: StepView,
)
    requires
        text::upper(name) == "INCRBY"@,
        dispatch::dispatches(
            seq![name, key, text::decimal(delta as int)],
            readings,
            before,
            now,
            after,
            step,
        ),
        finds_string(before.store, key, now, current),
        spells(current, n),
    ensures
        i64::MIN <= n + (delta as int) <= i64::MAX ==> {
            &&& answered(step, resp::integer_frame(n + (delta as int)))
            &&& after == stored(before, key, ValueView::Str(text::decimal(n + (delta as int))), now)
        },
        !(i64::MIN <= n + (delta as int) <= i64::MAX) ==> {
            &&& answered(step, resp::error_frame("ERR increment or decrement would overflow"@))
            &&& after == before
        },
{
    let tokens = seq![name, key, text::decimal(delta as int)];
    let command = CommandView::IncrBy { key, delta: (delta as int) as i64 };
    names::lemma_named_incrby();
    text::lemma_decimal_round_trip(delta);
    text::lemma_decimal_round_trip(n);
    assert(tokens.skip(1) =~= seq![key, text::decimal(delta as int)]);
    assert(parse::parsed(tokens, readings) == Ok::<CommandView, CommandErrorView>(command));
    lemma_answered(tokens, readings, before, now, after, step, command);
}

/// `DECRBY` takes its number from the one at the key.
pub proof fn lemma_decrby_means(
    name: Seq<char>,
    key: Seq<char>,
    current: Option<Seq<char>>,
    n: i64,
    delta: i64,
    readings: Map<Seq<char>, ScoreView>,
    before: DatabaseView,
    now: u64,
    after: DatabaseView,
    step: StepView,
)
    requires
        text::upper(name) == "DECRBY"@,
        dispatch::dispatches(
            seq![name, key, text::decimal(delta as int)],
            readings,
            before,
            now,
            after,
            step,
        ),
        finds_string(before.store, key, now, current),
        spells(current, n),
        delta != i64::MIN,
    ensures
        i64::MIN <= n + (-(delta as int)) <= i64::MAX ==> {
            &&& answered(step, resp::integer_frame(n + (-(delta as int))))
            &&& after == stored(
                before,
                key,
                ValueView::Str(text::decimal(n + (-(delta as int)))),
                now,
            )
        },
        !(i64::MIN <= n + (-(delta as int)) <= i64::MAX) ==> {
            &&& answered(step, resp::error_frame("ERR increment or decrement would overflow"@))
            &&& after == before
        },
{
    let tokens = seq![name, key, text::decimal(delta as int)];
    let command = CommandView::IncrBy { key, delta: (-(delta as int)) as i64 };
    names::lemma_named_decrby();
    text::lemma_decimal_round_trip(delta);
    text::lemma_decimal_round_trip(n);
    assert(tokens.skip(1) =~= seq![key, text::decimal(delta as int)]);
    assert(parse::parsed(tokens, readings) == Ok::<CommandView, CommandErrorView>(command));
    lemma_answered(tokens, readings, before, now, after, step, command);
}

/// `INCR` adds one.
pub proof fn lemma_incr_means(
    name: Seq<char>,
    key: Seq<char>,
    current: Option<Seq<char>>,
    n: i64,
    readings: Map<Seq<char>, ScoreView>,
    before: DatabaseView,
    now: u64,
    after: DatabaseView,
    step: StepView,
)
    requires
        text::upper(name) == "INCR"@,
        dispatch::dispatches(seq![name, key], readings, before, now, after, step),
        finds_string(before.store, key, now, current),
        spells(current, n),
    ensures
        i64::MIN <= n + (1) <= i64::MAX ==> answered(step, resp::integer_frame(n + (1))) && after
            == stored(before, key, ValueView::Str(text::decimal(n + (1))), now),
        !(i64::MIN <= n + (1) <= i64::MAX) ==> {
            &&& answered(step, resp::error_frame("ERR increment or decrement would overflow"@))
            &&& after == before
        },
{
    let tokens = seq![name, key];
    let command = CommandView::IncrBy { key, delta: (1) as i64 };
    names::lemma_named_incr();
    text::lemma_decimal_round_trip(n);
    assert(tokens.skip(1) =~= seq![key]);
    assert(parse::parsed(tokens, readings) == Ok::<CommandView, CommandErrorView>(command));
    lemma_answered(tokens, readings, before, now, after, step, command);
}

/// `DECR` takes one away.
pub proof fn lemma_decr_means(
    name: Seq<char>,
    key: Seq<char>,
    current: Option<Seq<char>>,
    n: i64,
    readings: Map<Seq<char>, ScoreView>,
    before: DatabaseView,
    now: u64,
    after: DatabaseView,
    step: StepView,
)
    requires
        text::upper(name) == "DECR"@,
        dispatch::dispatches(seq![name, key], readings, before, now, after, step),
        finds_string(before.store, key, now, current),
        spells(current, n),
    ensures
        i64::MIN <= n + (-1) <= i64::MAX ==> {
            &&& answered(step, resp::integer_frame(n + (-1)))
            &&& after == stored(before, key, ValueView::Str(text::decimal(n + (-1))), now)
        },
        !(i64::MIN <= n + (-1) <= i64::MAX) ==> {
            &&& answered(step, resp::error_frame("ERR increment or decrement would overflow"@))
            &&& after == before
        },
{
    let tokens = seq![name, key];
    let command = CommandView::IncrBy { key, delta: (-1) as i64 };
    names::lemma_named_decr();
    text::lemma_decimal_round_trip(n);
    assert(tokens.skip(1) =~= seq![key]);
    assert(parse::parsed(tokens, readings) == Ok::<CommandView, CommandErrorView>(command));
    lemma_answered(tokens, readings, before, now, after, step, command);
}

/// A string that is no integer is not incremented.
pub proof fn lemma_incrby_of_no_number_means(
    name: Seq<char>,
    key: Seq<char>,
    value: Seq<char>,
    delta: i64,
    readings: Map<Seq<char>, ScoreView>,
    before: DatabaseView,
    now: u64,
    after: DatabaseView,
    step: StepView,
)
    requires
        text::upper(name) == "INCRBY"@,
        dispatch::dispatches(
            seq![name, key, text::decimal(delta as int)],
            readings,
            before,
            now,
            after,
            step,
        ),
        holds(before.store, key, now, ValueView::Str(value)),
        text::parse_signed(value) is None,
    ensures
        answered(step, resp::error_frame("ERR value is not an integer or out of range"@)),
        after == before,
{
    let tokens = seq![name, key, text::decimal(delta as int)];
    let command = CommandView::IncrBy { key, delta };
    names::lemma_named_incrby();
    text::lemma_decimal_round_trip(delta);
    assert(tokens.skip(1) =~= seq![key, text::decimal(delta as int)]);
    assert(parse::parsed(tokens, readings) == Ok::<CommandView, CommandErrorView>(command));
    lemma_answered(tokens, readings, before, now, after, step, command);
}

/// `APPEND` puts its text behind the string at the key, keeping the TTL, and answers
/// with the new length in bytes.
pub proof fn lemma_append_means(
    name: Seq<char>,
    key: Seq<char>,
    suffix: Seq<char>,
    current: Option<Seq<char>>,
    whole: Seq<char>,
    readings: Map<Seq<char>, ScoreView>,
    before: DatabaseView,
    now: u64,
    after: DatabaseView,
    step: StepView,
)
    requires
        text::upper(name) == "APPEND"@,
        dispatch::dispatches(seq![name, key, suffix], readings, before, now, after, step),
        finds_string(before.store, key, now, current),
        whole == match current {
            Some(value) => value + suffix,
            None => suffix,
        },
        encode_utf8(whole).len() <= i64::MAX,
    ensures
        answered(step, resp::integer_frame(encode_utf8(whole).len() as int)),
        after == stored(before, key, ValueView::Str(whole), now),
{
    let tokens = seq![name, key, suffix];
    let command = CommandView::Append { key, value: suffix };
    names::lemma_named_append();
    assert(tokens.skip(1) =~= seq![key, suffix]);
    assert(parse::parsed(tokens, readings) == Ok::<CommandView, CommandErrorView>(command));
    lemma_answered(tokens, readings, before, now, after, step, command);
}

/// `STRLEN` answers with the length of the string in bytes, 0 without one.
pub proof fn lemma_strlen_means(
    name: Seq<char>,
    key: Seq<char>,
    current: Option<Seq<char>>,
    length: nat,
    readings: Map<Seq<char>, ScoreView>,
    before: DatabaseView,
    now: u64,
    after: DatabaseView,
    step: StepView,
)
    requires
        text::upper(name) == "STRLEN"@,
        dispatch::dispatches(seq![name, key], readings, before, now, after, step),
        finds_string(before.store, key, now, current),
        length == match current {
            Some(value) => encode_utf8(value).len(),
            None => 0,
        },
        length <= i64::MAX,
    ensures
        answered(step, resp::integer_frame(length as int)),
        after == looked_up(before, key, now),
{
    let tokens = seq![name, key];
    let command = CommandView::StrLen { key };
    names::lemma_named_strlen();
    assert(tokens.skip(1) =~= seq![key]);
    assert(parse::parsed(tokens, readings) == Ok::<CommandView, CommandErrorView>(command));
    lemma_answered(tokens, readings, before, now, after, step, command);
    lemma_looked_up(before.store, key, now);
}

/// `LPUSH` puts its values before the list, the last of them first, and answers with
/// the new length.
pub proof fn lemma_lpush_means(
    name: Seq<char>,
    key: Seq<char>,
    values: Seq<Seq<char>>,
    list: Seq<Seq<char>>,
    readings: Map<Seq<char>, ScoreView>,
    before: DatabaseView,
    now: u64,
    after: DatabaseView,
    step: StepView,
)
    requires
        text::upper(name) == "LPUSH"@,
        dispatch::dispatches(seq![name, key] + values, readings, before, now, after, step),
        values.len() > 0,
        finds_list(before.store, key, now, list),
        list.len() + values.len() <= i64::MAX,
    ensures
        answered(step, resp::integer_frame((list.len() + values.len()) as int)),
        ({
            let now_there = after.store[key].value->List_0;
            &&& after == stored(before, key, ValueView::List(now_there), now)
            &&& now_there.len() == values.len() + list.len()
            &&& forall|i: int|
                0 <= i < values.len() ==> #[trigger] now_there[i] == values[values.len() - 1 - i]
            &&& forall|i: int|
                0 <= i < list.len() ==> now_there[values.len() + i] == #[trigger] list[i]
        }),
{
    let tokens = seq![name, key] + values;
    let command = CommandView::LPush { key, values };
    names::lemma_named_lpush();
    assert((seq![key] + values).skip(1) =~= values);
    assert(tokens.skip(1) =~= seq![key] + values);
    assert(parse::parsed(tokens, readings) == Ok::<CommandView, CommandErrorView>(command));
    lemma_answered(tokens, readings, before, now, after, step, command);
    assert(after.store[key].value == ValueView::List(model::pushed_front(list, values)));
}

/// `RPUSH` puts its values behind the list, in the order given, and answers with the
/// new length.
pub proof fn lemma_rpush_means(
    name: Seq<char>,
    key: Seq<char>,
    values: Seq<Seq<char>>,
    list: Seq<Seq<char>>,
    readings: Map<Seq<char>, ScoreView>,
    before: DatabaseView,
    now: u64,
    after: DatabaseView,
    step: StepView,
)
    requires
        text::upper(name) == "RPUSH"@,
        dispatch::dispatches(seq![name, key] + values, readings, before, now, after, step),
        values.len() > 0,
        finds_list(before.store, key, now, list),
        list.len() + values.len() <= i64::MAX,
    ensures
        answered(step, resp::integer_frame((list.len() + values.len()) as int)),
        ({
            let now_there = after.store[key].value->List_0;
            &&& after == stored(before, key, ValueView::List(now_there), now)
            &&& now_there.len() == values.len() + list.len()
            &&& forall|i: int| 0 <= i < list.len() ==> #[trigger] now_there[i] == list[i]
            &&& forall|i: int|
                0 <= i < values.len() ==> now_there[list.len() + i] == #[trigger] values[i]
        }),
{
    let tokens = seq![name, key] + values;
    let command = CommandView::RPush { key, values };
    names::lemma_named_rpush();
    assert((seq![key] + values).skip(1) =~= values);
    assert(tokens.skip(1) =~= seq![key] + values);
    assert(parse::parsed(tokens, readings) == Ok::<CommandView, CommandErrorView>(command));
    lemma_answered(tokens, readings, before, now, after, step, command);
    assert(after.store[key].value == ValueView::List(list + values));
}

/// `LPOP` answers with the first element and takes it away, the key too if it was the
/// only one; nil without an element.
pub proof fn lemma_lpop_means(
    name: Seq<char>,
    key: Seq<char>,
    list: Seq<Seq<char>>,
    readings: Map<Seq<char>, ScoreView>,
    before: DatabaseView,
    now: u64,
    after: DatabaseView,
    step: StepView,
)
    requires
        text::upper(name) == "LPOP"@,
        dispatch::dispatches(seq![name, key], readings, before, now, after, step),
        finds_list(before.store, key, now, list),
    ensures
        list.len() == 0 ==> answered(step, resp::null_frame()) && after == removed(before, key),
        list.len() > 0 ==> answered(step, resp::bulk_frame(list[0])),
        list.len() == 1 ==> after == removed(before, key),
        list.len() > 1 ==> after == stored(
            before,
            key,
            ValueView::List(list.subrange(1, list.len() as int)),
            now,
        ),
{
    let tokens = seq![name, key];
    let command = CommandView::LPop { key };
    names::lemma_named_lpop();
    assert(tokens.skip(1) =~= seq![key]);
    assert(parse::parsed(tokens, readings) == Ok::<CommandView, CommandErrorView>(command));
    lemma_answered(tokens, readings, before, now, after, step, command);
    if list.len() > 0 {
        assert(list.drop_first() =~= list.subrange(1, list.len() as int));
    }
    lemma_settled_is(before.store, key, now);
}

/// `RPOP` answers with the last element and takes it away, the key too if it was the
/// only one; nil without an element.
pub proof fn lemma_rpop_means(
    name: Seq<char>,
    key: Seq<char>,
    list: Seq<Seq<char>>,
    readings: Map<Seq<char>, ScoreView>,
    before: DatabaseView,
    now: u64,
    after: DatabaseView,
    step: StepView,
)
    requires
        text::upper(name) == "RPOP"@,
        dispatch::dispatches(seq![name, key], readings, before, now, after, step),
        finds_list(before.store, key, now, list),
    ensures
        list.len() == 0 ==> answered(step, resp::null_frame()) && after == removed(before, key),
        list.len() > 0 ==> answered(step, resp::bulk_frame(list[list.len() - 1])),
        list.len() == 1 ==> after == removed(before, key),
        list.len() > 1 ==> after == stored(
            before,
            key,
            ValueView::List(list.subrange(0, list.len() - 1)),
            now,
        ),
{
    let tokens = seq![name, key];
    let command = CommandView::RPop { key };
    names::lemma_named_rpop();
    assert(tokens.skip(1) =~= seq![key]);
    assert(parse::parsed(tokens, readings) == Ok::<CommandView, CommandErrorView>(command));
    lemma_answered(tokens, readings, before, now, after, step, command);
    if list.len() > 0 {
        assert(list.drop_last() =~= list.subrange(0, list.len() - 1));
    }
    lemma_settled_is(before.store, key, now);
}

/// `LRANGE` answers with the elements from `start` to `stop`, both included, negative
/// positions counting from the end.
pub proof fn lemma_lrange_means(
    name: Seq<char>,
    key: Seq<char>,
    start: i64,
    stop: i64,
    list: Seq<Seq<char>>,
    readings: Map<Seq<char>, ScoreView>,
    before: DatabaseView,
    now: u64,
    after: DatabaseView,
    step: StepView,
)
    requires
        text::upper(name) == "LRANGE"@,
        dispatch::dispatches(
            seq![name, key, text::decimal(start as int), text::decimal(stop as int)],
            readings,
            before,
            now,
            after,
            step,
        ),
        finds_list(before.store, key, now, list),
    ensures
        exists|items: Seq<Seq<char>>| #[trigger]
            is_range(items, list, start as int, stop as int) && answered(
                step,
                resp::array_frame(items),
            ),
        after == looked_up(before, key, now),
{
    let tokens = seq![name, key, text::decimal(start as int), text::decimal(stop as int)];
    let command = CommandView::LRange { key, start, stop };
    names::lemma_named_lrange();
    text::lemma_decimal_round_trip(start);
    text::lemma_decimal_round_trip(stop);
    assert(tokens.skip(1) =~= seq![key, text::decimal(start as int), text::decimal(stop as int)]);
    assert(parse::parsed(tokens, readings) == Ok::<CommandView, CommandErrorView>(command));
    lemma_answered(tokens, readings, before, now, after, step, command);
    lemma_selected_is_range(list, start as int, stop as int);
    lemma_looked_up(before.store, key, now);
}

/// `LLEN` answers with the length of the list.
pub proof fn lemma_llen_means(
    name: Seq<char>,
    key: Seq<char>,
    list: Seq<Seq<char>>,
    readings: Map<Seq<char>, ScoreView>,
    before: DatabaseView,
    now: u64,
    after: DatabaseView,
    step: StepView,
)
    requires
        text::upper(name) == "LLEN"@,
        dispatch::dispatches(seq![name, key], readings, before, now, after, step),
        finds_list(before.store, key, now, list),
        list.len() <= i64::MAX,
    ensures
        answered(step, resp::integer_frame(list.len() as int)),
        after == looked_up(before, key, now),
{
    let tokens = seq![name, key];
    let command = CommandView::LLen { key };
    names::lemma_named_llen();
    assert(tokens.skip(1) =~= seq![key]);
    assert(parse::parsed(tokens, readings) == Ok::<CommandView, CommandErrorView>(command));
    lemma_answered(tokens, readings, before, now, after, step, command);
    lemma_looked_up(before.store, key, now);
}

/// `LINDEX` answers with the element at the position, negative positions counting
/// from the end, or with nil.
pub proof fn lemma_lindex_means(
    name: Seq<char>,
    key: Seq<char>,
    index: i64,
    list: Seq<Seq<char>>,
    readings: Map<Seq<char>, ScoreView>,
    before: DatabaseView,
    now: u64,
    after: DatabaseView,
    step: StepView,
)
    requires
        text::upper(name) == "LINDEX"@,
        dispatch::dispatches(
            seq![name, key, text::decimal(index as int)],
            readings,
            before,
            now,
            after,
            step,
        ),
        finds_list(before.store, key, now, list),
    ensures
        0 <= index < list.len() ==> answered(step, resp::bulk_frame(list[index as int])),
        -list.len() <= index < 0 ==> answered(step, resp::bulk_frame(list[list.len() + index])),
        index >= list.len() || index < -list.len() ==> answered(step, resp::null_frame()),
        after == looked_up(before, key, now),
{
    let tokens = seq![name, key, text::decimal(index as int)];
    let command = CommandView::LIndex { key, index };
    names::lemma_named_lindex();
    text::lemma_decimal_round_trip(index);
    assert(tokens.skip(1) =~= seq![key, text::decimal(index as int)]);
    assert(parse::parsed(tokens, readings) == Ok::<CommandView, CommandErrorView>(command));
    lemma_answered(tokens, readings, before, now, after, step, command);
    lemma_looked_up(before.store, key, now);
}

/// `LSET` overwrites the element at the position, and nothing else of the list.
pub proof fn lemma_lset_means(
    name: Seq<char>,
    key: Seq<char>,
    index: i64,
    value: Seq<char>,
    list: Seq<Seq<char>>,
    at: int,
    readings: Map<Seq<char>, ScoreView>,
    before: DatabaseView,
    now: u64,
    after: DatabaseView,
    step: StepView,
)
    requires
        text::upper(name) == "LSET"@,
        dispatch::dispatches(
            seq![name, key, text::decimal(index as int), value],
            readings,
            before,
            now,
            after,
            step,
        ),
        holds(before.store, key, now, ValueView::List(list)),
        at == if index < 0 {
            list.len() + index
        } else {
            index as int
        },
    ensures
        0 <= at < list.len() ==> answered(step, resp::simple_frame("OK"@)) && after == stored(
            before,
            key,
            ValueView::List(list.update(at, value)),
            now,
        ),
        !(0 <= at < list.len()) ==> {
            &&& answered(step, resp::error_frame("ERR index out of range"@))
            &&& after == before
        },
{
    let tokens = seq![name, key, text::decimal(index as int), value];
    let command = CommandView::LSet { key, index, value };
    names::lemma_named_lset();
    text::lemma_decimal_round_trip(index);
    assert(tokens.skip(1) =~= seq![key, text::decimal(index as int), value]);
    assert(parse::parsed(tokens, readings) == Ok::<CommandView, CommandErrorView>(command));
    lemma_answered(tokens, readings, before, now, after, step, command);
}

/// `LSET` needs a key.
pub proof fn lemma_lset_of_nothing_means(
    name: Seq<char>,
    key: Seq<char>,
    index: i64,
    value: Seq<char>,
    readings: Map<Seq<char>, ScoreView>,
    before: DatabaseView,
    now: u64,
    after: DatabaseView,
    step: StepView,
)
    requires
        text::upper(name) == "LSET"@,
        dispatch::dispatches(
            seq![name, key, text::decimal(index as int), value],
            readings,
            before,
            now,
            after,
            step,
        ),
        lacks(before.store, key, now),
    ensures
        answered(step, resp::error_frame("ERR no such key"@)),
        after == removed(before, key),
{
    let tokens = seq![name, key, text::decimal(index as int), value];
    let command = CommandView::LSet { key, index, value };
    names::lemma_named_lset();
    text::lemma_decimal_round_trip(index);
    assert(tokens.skip(1) =~= seq![key, text::decimal(index as int), value]);
    assert(parse::parsed(tokens, readings) == Ok::<CommandView, CommandErrorView>(command));
    lemma_answered(tokens, readings, before, now, after, step, command);
    lemma_looked_up(before.store, key, now);
}

/// `SADD` makes each value a member, and answers with how many were new.
pub proof fn lemma_sadd_means(
    name: Seq<char>,
    key: Seq<char>,
    values: Seq<Seq<char>>,
    members: Set<Seq<char>>,
    x: Seq<char>,
    readings: Map<Seq<char>, ScoreView>,
    before: DatabaseView,
    now: u64,
    after: DatabaseView,
    step: StepView,
)
    requires
        text::upper(name) == "SADD"@,
        dispatch::dispatches(seq![name, key] + values, readings, before, now, after, step),
        values.len() > 0,
        finds_set(before.store, key, now, members),
        members.finite(),
        values.len() <= i64::MAX,
    ensures
        ({
            let now_there = after.store[key].value->StrSet_0;
            &&& after == stored(before, key, ValueView::StrSet(now_there), now)
            &&& now_there.finite()
            &&& now_there.contains(x) == (members.contains(x) || values.contains(x))
            &&& answered(step, resp::integer_frame(now_there.len() - members.len()))
        }),
{
    let tokens = seq![name, key] + values;
    let command = CommandView::SAdd { key, values };
    names::lemma_named_sadd();
    assert((seq![key] + values).skip(1) =~= values);
    assert(tokens.skip(1) =~= seq![key] + values);
    assert(parse::parsed(tokens, readings) == Ok::<CommandView, CommandErrorView>(command));
    lemma_answered(tokens, readings, before, now, after, step, command);
    let now_there = members.union(values.to_set());
    assert(after.store[key].value == ValueView::StrSet(now_there));
    lemma_added_few(members, values);
    assert(values.to_set().contains(x) == values.contains(x));
}

/// `SREM` takes each value out of the set, the key too if nothing is left, and answers
/// with how many were members.
pub proof fn lemma_srem_means(
    name: Seq<char>,
    key: Seq<char>,
    values: Seq<Seq<char>>,
    members: Set<Seq<char>>,
    left: Set<Seq<char>>,
    readings: Map<Seq<char>, ScoreView>,
    before: DatabaseView,
    now: u64,
    after: DatabaseView,
    step: StepView,
)
    requires
        text::upper(name) == "SREM"@,
        dispatch::dispatches(seq![name, key] + values, readings, before, now, after, step),
        values.len() > 0,
        finds_set(before.store, key, now, members),
        members.finite(),
        members.len() <= i64::MAX,
        forall|x: Seq<char>| #[trigger] left.contains(x) == (members.contains(x) && !values.contains(
            x,
        )),
    ensures
        answered(step, resp::integer_frame(members.len() - left.len())),
        left.len() <= members.len(),
        left.len() == 0 ==> after == removed(before, key),
        left.len() > 0 ==> after == stored(before, key, ValueView::StrSet(left), now),
{
    let tokens = seq![name, key] + values;
    let command = CommandView::SRem { key, values };
    names::lemma_named_srem();
    assert((seq![key] + values).skip(1) =~= values);
    assert(tokens.skip(1) =~= seq![key] + values);
    assert(parse::parsed(tokens, readings) == Ok::<CommandView, CommandErrorView>(command));
    lemma_answered(tokens, readings, before, now, after, step, command);
    assert forall|x: Seq<char>| values.to_set().contains(x) == values.contains(x) by {}
    assert(members.difference(values.to_set()) =~= left);
    vstd::set_lib::lemma_len_subset(left, members);
    if left.len() == 0 {
        assert(left =~= Set::<Seq<char>>::empty());
    }
    lemma_settled_is(before.store, key, now);
}

/// `SMEMBERS` lists every member once.
pub proof fn lemma_smembers_means(
    name: Seq<char>,
    key: Seq<char>,
    members: Set<Seq<char>>,
    readings: Map<Seq<char>, ScoreView>,
    before: DatabaseView,
    now: u64,
    after: DatabaseView,
    step: StepView,
)
    requires
        text::upper(name) == "SMEMBERS"@,
        dispatch::dispatches(seq![name, key], readings, before, now, after, step),
        finds_set(before.store, key, now, members),
    ensures
        exists|items: Seq<Seq<char>>| #[trigger]
            lists_once(items, members) && answered(step, resp::array_frame(items)),
        after == looked_up(before, key, now),
{
    let tokens = seq![name, key];
    let command = CommandView::SMembers { key };
    names::lemma_named_smembers();
    assert(tokens.skip(1) =~= seq![key]);
    assert(parse::parsed(tokens, readings) == Ok::<CommandView, CommandErrorView>(command));
    lemma_answered(tokens, readings, before, now, after, step, command);
    lemma_listed(step.outcome->Reply_0, Ok::<Set<Seq<char>>, StoreError>(members));
    lemma_looked_up(before.store, key, now);
}

/// `SISMEMBER` answers 1 for a member, 0 for anything else.
pub proof fn lemma_sismember_means(
    name: Seq<char>,
    key: Seq<char>,
    value: Seq<char>,
    members: Set<Seq<char>>,
    readings: Map<Seq<char>, ScoreView>,
    before: DatabaseView,
    now: u64,
    after: DatabaseView,
    step: StepView,
)
    requires
        text::upper(name) == "SISMEMBER"@,
        dispatch::dispatches(seq![name, key, value], readings, before, now, after, step),
        finds_set(before.store, key, now, members),
    ensures
        members.contains(value) ==> answered(step, resp::integer_frame(1)),
        !members.contains(value) ==> answered(step, resp::integer_frame(0)),
        after == looked_up(before, key, now),
{
    let tokens = seq![name, key, value];
    let command = CommandView::SIsMember { key, value };
    names::lemma_named_sismember();
    assert(tokens.skip(1) =~= seq![key, value]);
    assert(parse::parsed(tokens, readings) == Ok::<CommandView, CommandErrorView>(command));
    lemma_answered(tokens, readings, before, now, after, step, command);
    lemma_looked_up(before.store, key, now);
}

/// `SCARD` answers with the number of members.
pub proof fn lemma_scard_means(
    name: Seq<char>,
    key: Seq<char>,
    members: Set<Seq<char>>,
    readings: Map<Seq<char>, ScoreView>,
    before: DatabaseView,
    now: u64,
    after: DatabaseView,
    step: StepView,
)
    requires
        text::upper(name) == "SCARD"@,
        dispatch::dispatches(seq![name, key], readings, before, now, after, step),
        finds_set(before.store, key, now, members),
        members.finite(),
        members.len() <= i64::MAX,
    ensures
        answered(step, resp::integer_frame(members.len() as int)),
        after == looked_up(before, key, now),
{
    let tokens = seq![name, key];
    let command = CommandView::SCard { key };
    names::lemma_named_scard();
    assert(tokens.skip(1) =~= seq![key]);
    assert(parse::parsed(tokens, readings) == Ok::<CommandView, CommandErrorView>(command));
    lemma_answered(tokens, readings, before, now, after, step, command);
    lemma_looked_up(before.store, key, now);
}

/// `SINTER` lists the values that are in the set at every key, each once.
pub proof fn lemma_sinter_means(
    name: Seq<char>,
    keys: Seq<Seq<char>>,
    sets: Seq<Set<Seq<char>>>,
    wanted: Set<Seq<char>>,
    readings: Map<Seq<char>, ScoreView>,
    before: DatabaseView,
    now: u64,
    after: DatabaseView,
    step: StepView,
)
    requires
        text::upper(name) == "SINTER"@,
        dispatch::dispatches(seq![name] + keys, readings, before, now, after, step),
        keys.len() > 0,
        sets.len() == keys.len(),
        forall|i: int|
            0 <= i < keys.len() ==> finds_set(before.store, keys[i], now, #[trigger] sets[i]),
        forall|x: Seq<char>| #[trigger]
            wanted.contains(x) == (forall|i: int| 0 <= i < sets.len() ==> (#[trigger] sets[i]).contains(
                x,
            )),
    ensures
        exists|items: Seq<Seq<char>>| #[trigger]
            lists_once(items, wanted) && answered(step, resp::array_frame(items)),
        after == before,
{
    let tokens = seq![name] + keys;
    let command = CommandView::SInter { keys };
    names::lemma_named_sinter();
    assert(tokens.skip(1) =~= keys);
    assert(parse::parsed(tokens, readings) == Ok::<CommandView, CommandErrorView>(command));
    lemma_answered(tokens, readings, before, now, after, step, command);
    lemma_sinter_is(before.store, keys, sets, wanted, now);
    lemma_listed(step.outcome->Reply_0, Ok::<Set<Seq<char>>, StoreError>(wanted));
}

/// `SUNION` lists the values that are in the set at some key, each once.
pub proof fn lemma_sunion_means(
    name: Seq<char>,
    keys: Seq<Seq<char>>,
    sets: Seq<Set<Seq<char>>>,
    wanted: Set<Seq<char>>,
    readings: Map<Seq<char>, ScoreView>,
    before: DatabaseView,
    now: u64,
    after: DatabaseView,
    step: StepView,
)
    requires
        text::upper(name) == "SUNION"@,
        dispatch::dispatches(seq![name] + keys, readings, before, now, after, step),
        keys.len() > 0,
        sets.len() == keys.len(),
        forall|i: int|
            0 <= i < keys.len() ==> finds_set(before.store, keys[i], now, #[trigger] sets[i]),
        forall|x: Seq<char>| #[trigger]
            wanted.contains(x) == (exists|i: int| 0 <= i < sets.len() && (#[trigger] sets[i]).contains(
                x,
            )),
    ensures
        exists|items: Seq<Seq<char>>| #[trigger]
            lists_once(items, wanted) && answered(step, resp::array_frame(items)),
        after == before,
{
    let tokens = seq![name] + keys;
    let command = CommandView::SUnion { keys };
    names::lemma_named_sunion();
    assert(tokens.skip(1) =~= keys);
    assert(parse::parsed(tokens, readings) == Ok::<CommandView, CommandErrorView>(command));
    lemma_answered(tokens, readings, before, now, after, step, command);
    lemma_sunion_is(before.store, keys, sets, wanted, now);
    lemma_listed(step.outcome->Reply_0, Ok::<Set<Seq<char>>, StoreError>(wanted));
}

/// `SDIFF` lists the values that are in the set at the first key and at no other, each
/// once.
pub proof fn lemma_sdiff_means(
    name: Seq<char>,
    keys: Seq<Seq<char>>,
    sets: Seq<Set<Seq<char>>>,
    wanted: Set<Seq<char>>,
    readings: Map<Seq<char>, ScoreView>,
    before: DatabaseView,
    now: u64,
    after: DatabaseView,
    step: StepView,
)
    requires
        text::upper(name) == "SDIFF"@,
        dispatch::dispatches(seq![name] + keys, readings, before, now, after, step),
        keys.len() > 0,
        sets.len() == keys.len(),
        forall|i: int|
            0 <= i < keys.len() ==> finds_set(before.store, keys[i], now, #[trigger] sets[i]),
        forall|x: Seq<char>| #[trigger]
            wanted.contains(x) == (sets[0].contains(x) && forall|i: int|
                    1 <= i < sets.len() ==> !(#[trigger] sets[i]).contains(x)),
    ensures
        exists|items: Seq<Seq<char>>| #[trigger]
            lists_once(items, wanted) && answered(step, resp::array_frame(items)),
        after == before,
{
    let tokens = seq![name] + keys;
    let command = CommandView::SDiff { keys };
    names::lemma_named_sdiff();
    assert(tokens.skip(1) =~= keys);
    assert(parse::parsed(tokens, readings) == Ok::<CommandView, CommandErrorView>(command));
    lemma_answered(tokens, readings, before, now, after, step, command);
    lemma_sdiff_is(before.store, keys, sets, wanted, now);
    lemma_listed(step.outcome->Reply_0, Ok::<Set<Seq<char>>, StoreError>(wanted));
}

/// `HSET` gives the field its value, keeps the other fields and the TTL, and answers 1
/// for a new field.
pub proof fn lemma_hset_means(
    name: Seq<char>,
    key: Seq<char>,
    field: Seq<char>,
    value: Seq<char>,
    fields: Map<Seq<char>, Seq<char>>,
    readings: Map<Seq<char>, ScoreView>,
    before: DatabaseView,
    now: u64,
    after: DatabaseView,
    step: StepView,
)
    requires
        text::upper(name) == "HSET"@,
        dispatch::dispatches(seq![name, key, field, value], readings, before, now, after, step),
        finds_hash(before.store, key, now, fields),
    ensures
        fields.contains_key(field) ==> answered(step, resp::integer_frame(0)),
        !fields.contains_key(field) ==> answered(step, resp::integer_frame(1)),
        after == stored(before, key, ValueView::Hash(fields.insert(field, value)), now),
{
    let tokens = seq![name, key, field, value];
    let command = CommandView::HSet { key, field, value };
    names::lemma_named_hset();
    assert(tokens.skip(1) =~= seq![key, field, value]);
    assert(parse::parsed(tokens, readings) == Ok::<CommandView, CommandErrorView>(command));
    lemma_answered(tokens, readings, before, now, after, step, command);
}

/// `HGET` answers with the value of the field, or with nil.
pub proof fn lemma_hget_means(
    name: Seq<char>,
    key: Seq<char>,
    field: Seq<char>,
    fields: Map<Seq<char>, Seq<char>>,
    readings: Map<Seq<char>, ScoreView>,
    before: DatabaseView,
    now: u64,
    after: DatabaseView,
    step: StepView,
)
    requires
        text::upper(name) == "HGET"@,
        dispatch::dispatches(seq![name, key, field], readings, before, now, after, step),
        finds_hash(before.store, key, now, fields),
    ensures
        fields.contains_key(field) ==> answered(step, resp::bulk_frame(fields[field])),
        !fields.contains_key(field) ==> answered(step, resp::null_frame()),
        after == looked_up(before, key, now),
{
    let tokens = seq![name, key, field];
    let command = CommandView::HGet { key, field };
    names::lemma_named_hget();
    assert(tokens.skip(1) =~= seq![key, field]);
    assert(parse::parsed(tokens, readings) == Ok::<CommandView, CommandErrorView>(command));
    lemma_answered(tokens, readings, before, now, after, step, command);
    lemma_looked_up(before.store, key, now);
}

/// `HDEL` takes the field out, the key too if no field is left, and answers 1 if it was
/// there.
pub proof fn lemma_hdel_means(
    name: Seq<char>,
    key: Seq<char>,
    field: Seq<char>,
    fields: Map<Seq<char>, Seq<char>>,
    readings: Map<Seq<char>, ScoreView>,
    before: DatabaseView,
    now: u64,
    after: DatabaseView,
    step: StepView,
)
    requires
        text::upper(name) == "HDEL"@,
        dispatch::dispatches(seq![name, key, field], readings, before, now, after, step),
        finds_hash(before.store, key, now, fields),
    ensures
        fields.contains_key(field) ==> answered(step, resp::integer_frame(1)),
        !fields.contains_key(field) ==> answered(step, resp::integer_frame(0)),
        (forall|other: Seq<char>| #[trigger] fields.contains_key(other) ==> other == field) ==> after
            == removed(before, key),
        (exists|other: Seq<char>| #[trigger] fields.contains_key(other) && other != field) ==> after
            == stored(before, key, ValueView::Hash(fields.remove(field)), now),
{
    let tokens = seq![name, key, field];
    let command = CommandView::HDel { key, field };
    names::lemma_named_hdel();
    assert(tokens.skip(1) =~= seq![key, field]);
    assert(parse::parsed(tokens, readings) == Ok::<CommandView, CommandErrorView>(command));
    lemma_answered(tokens, readings, before, now, after, step, command);
    let left = fields.remove(field);
    if forall|other: Seq<char>| #[trigger] fields.contains_key(other) ==> other == field {
        assert(left =~= Map::<Seq<char>, Seq<char>>::empty());
    }
    if exists|other: Seq<char>| #[trigger] fields.contains_key(other) && other != field {
        let other = choose|other: Seq<char>| #[trigger] fields.contains_key(other) && other != field;
        assert(left.contains_key(other));
    }
    lemma_settled_is(before.store, key, now);
}

/// `HGETALL` lists every field once, each followed by its value.
pub proof fn lemma_hgetall_means(
    name: Seq<char>,
    key: Seq<char>,
    fields: Map<Seq<char>, Seq<char>>,
    readings: Map<Seq<char>, ScoreView>,
    before: DatabaseView,
    now: u64,
    after: DatabaseView,
    step: StepView,
)
    requires
        text::upper(name) == "HGETALL"@,
        dispatch::dispatches(seq![name, key], readings, before, now, after, step),
        finds_hash(before.store, key, now, fields),
    ensures
        exists|items: Seq<Seq<char>>| #[trigger]
            lists_fields_and_values(items, fields) && answered(step, resp::array_frame(items)),
        after == looked_up(before, key, now),
{
    let tokens = seq![name, key];
    let command = CommandView::HGetAll { key };
    names::lemma_named_hgetall();
    assert(tokens.skip(1) =~= seq![key]);
    assert(parse::parsed(tokens, readings) == Ok::<CommandView, CommandErrorView>(command));
    lemma_answered(tokens, readings, before, now, after, step, command);
    let r = choose|r: Result<Seq<Seq<char>>, StoreError>|
        #![trigger execute::array_reply(r)]
        model::is_hgetall(before.store, key, now, r) && step.outcome->Reply_0
            == execute::array_reply(r);
    lemma_hash_listed(r->Ok_0, fields);
    lemma_looked_up(before.store, key, now);
}

/// `HKEYS` lists every field once.
pub proof fn lemma_hkeys_means(
    name: Seq<char>,
    key: Seq<char>,
    fields: Map<Seq<char>, Seq<char>>,
    readings: Map<Seq<char>, ScoreView>,
    before: DatabaseView,
    now: u64,
    after: DatabaseView,
    step: StepView,
)
    requires
        text::upper(name) == "HKEYS"@,
        dispatch::dispatches(seq![name, key], readings, before, now, after, step),
        finds_hash(before.store, key, now, fields),
    ensures
        exists|items: Seq<Seq<char>>| #[trigger]
            lists_once(items, fields.dom()) && answered(step, resp::array_frame(items)),
        after == looked_up(before, key, now),
{
    let tokens = seq![name, key];
    let command = CommandView::HKeys { key };
    names::lemma_named_hkeys();
    assert(tokens.skip(1) =~= seq![key]);
    assert(parse::parsed(tokens, readings) == Ok::<CommandView, CommandErrorView>(command));
    lemma_answered(tokens, readings, before, now, after, step, command);
    lemma_listed(step.outcome->Reply_0, Ok::<Set<Seq<char>>, StoreError>(fields.dom()));
    lemma_looked_up(before.store, key, now);
}

/// `HVALS` lists the value of every field, one for each field.
pub proof fn lemma_hvals_means(
    name: Seq<char>,
    key: Seq<char>,
    fields: Map<Seq<char>, Seq<char>>,
    readings: Map<Seq<char>, ScoreView>,
    before: DatabaseView,
    now: u64,
    after: DatabaseView,
    step: StepView,
)
    requires
        text::upper(name) == "HVALS"@,
        dispatch::dispatches(seq![name, key], readings, before, now, after, step),
        finds_hash(before.store, key, now, fields),
    ensures
        exists|order: Seq<Seq<char>>, items: Seq<Seq<char>>|
            #![trigger lists_once(order, fields.dom()), resp::array_frame(items)]
            {
                &&& lists_once(order, fields.dom())
                &&& items.len() == order.len()
                &&& forall|i: int| 0 <= i < items.len() ==> items[i] == fields[#[trigger] order[i]]
                &&& answered(step, resp::array_frame(items))
            },
        after == looked_up(before, key, now),
{
    let tokens = seq![name, key];
    let command = CommandView::HVals { key };
    names::lemma_named_hvals();
    assert(tokens.skip(1) =~= seq![key]);
    assert(parse::parsed(tokens, readings) == Ok::<CommandView, CommandErrorView>(command));
    lemma_answered(tokens, readings, before, now, after, step, command);
    let r = choose|r: Result<Seq<Seq<char>>, StoreError>|
        #![trigger execute::array_reply(r)]
        model::is_hvals(before.store, key, now, r) && step.outcome->Reply_0
            == execute::array_reply(r);
    let items = r->Ok_0;
    let order = choose|order: Seq<Seq<char>>|
        keyed_map::enumerates(order, fields.dom()) && items == order.map_values(
            |field: Seq<char>| fields[field],
        );
    lemma_enumerated_is_listed(order, fields.dom());
    assert(step.outcome == OutcomeView::Reply(resp::array_frame(items)));
    lemma_looked_up(before.store, key, now);
}

/// `HLEN` answers with the number of fields.
pub proof fn lemma_hlen_means(
    name: Seq<char>,
    key: Seq<char>,
    fields: Map<Seq<char>, Seq<char>>,
    readings: Map<Seq<char>, ScoreView>,
    before: DatabaseView,
    now: u64,
    after: DatabaseView,
    step: StepView,
)
    requires
        text::upper(name) == "HLEN"@,
        dispatch::dispatches(seq![name, key], readings, before, now, after, step),
        finds_hash(before.store, key, now, fields),
        fields.dom().finite(),
        fields.dom().len() <= i64::MAX,
    ensures
        answered(step, resp::integer_frame(fields.dom().len() as int)),
        after == looked_up(before, key, now),
{
    let tokens = seq![name, key];
    let command = CommandView::HLen { key };
    names::lemma_named_hlen();
    assert(tokens.skip(1) =~= seq![key]);
    assert(parse::parsed(tokens, readings) == Ok::<CommandView, CommandErrorView>(command));
    lemma_answered(tokens, readings, before, now, after, step, command);
    lemma_looked_up(before.store, key, now);
}

/// `HEXISTS` answers 1 for a field that is there, 0 for any other.
pub proof fn lemma_hexists_means(
    name: Seq<char>,
    key: Seq<char>,
    field: Seq<char>,
    fields: Map<Seq<char>, Seq<char>>,
    readings: Map<Seq<char>, ScoreView>,
    before: DatabaseView,
    now: u64,
    after: DatabaseView,
    step: StepView,
)
    requires
        text::upper(name) == "HEXISTS"@,
        dispatch::dispatches(seq![name, key, field], readings, before, now, after, step),
        finds_hash(before.store, key, now, fields),
    ensures
        fields.contains_key(field) ==> answered(step, resp::integer_frame(1)),
        !fields.contains_key(field) ==> answered(step, resp::integer_frame(0)),
        after == looked_up(before, key, now),
{
    let tokens = seq![name, key, field];
    let command = CommandView::HExists { key, field };
    names::lemma_named_hexists();
    assert(tokens.skip(1) =~= seq![key, field]);
    assert(parse::parsed(tokens, readings) == Ok::<CommandView, CommandErrorView>(command));
    lemma_answered(tokens, readings, before, now, after, step, command);
    lemma_looked_up(before.store, key, now);
}

/// `HINCRBY` adds its number to the one in the field: the field, read afterwards, is the
/// number answered. The other fields and the TTL stay.
pub proof fn lemma_hincrby_means(
    name: Seq<char>,
    key: Seq<char>,
    field: Seq<char>,
    delta: i64,
    fields: Map<Seq<char>, Seq<char>>,
    n: i64,
    readings: Map<Seq<char>, ScoreView>,
    before: DatabaseView,
    now: u64,
    after: DatabaseView,
    step: StepView,
)
    requires
        text::upper(name) == "HINCRBY"@,
        dispatch::dispatches(
            seq![name, key, field, text::decimal(delta as int)],
            readings,
            before,
            now,
            after,
            step,
        ),
        finds_hash(before.store, key, now, fields),
        fields.contains_key(field) ==> fields[field] == text::decimal(n as int),
        !fields.contains_key(field) ==> n == 0,
    ensures
        i64::MIN <= n + delta <= i64::MAX ==> {
            &&& answered(step, resp::integer_frame(n + delta))
            &&& after == stored(
                before,
                key,
                ValueView::Hash(fields.insert(field, text::decimal(n + delta))),
                now,
            )
        },
        !(i64::MIN <= n + delta <= i64::MAX) ==> {
            &&& answered(step, resp::error_frame("ERR increment or decrement would overflow"@))
            &&& after == before
        },
{
    let tokens = seq![name, key, field, text::decimal(delta as int)];
    let command = CommandView::HIncrBy { key, field, delta };
    names::lemma_named_hincrby();
    text::lemma_decimal_round_trip(delta);
    text::lemma_decimal_round_trip(n);
    assert(tokens.skip(1) =~= seq![key, field, text::decimal(delta as int)]);
    assert(parse::parsed(tokens, readings) == Ok::<CommandView, CommandErrorView>(command));
    lemma_answered(tokens, readings, before, now, after, step, command);
}

/// A field that is no integer is not incremented.
pub proof fn lemma_hincrby_of_no_number_means(
    name: Seq<char>,
    key: Seq<char>,
    field: Seq<char>,
    delta: i64,
    fields: Map<Seq<char>, Seq<char>>,
    readings: Map<Seq<char>, ScoreView>,
    before: DatabaseView,
    now: u64,
    after: DatabaseView,
    step: StepView,
)
    requires
        text::upper(name) == "HINCRBY"@,
        dispatch::dispatches(
            seq![name, key, field, text::decimal(delta as int)],
            readings,
            before,
            now,
            after,
            step,
        ),
        holds(before.store, key, now, ValueView::Hash(fields)),
        fields.contains_key(field),
        text::parse_signed(fields[field]) is None,
    ensures
        answered(step, resp::error_frame("ERR hash value is not an integer"@)),
        after == before,
{
    let tokens = seq![name, key, field, text::decimal(delta as int)];
    let command = CommandView::HIncrBy { key, field, delta };
    names::lemma_named_hincrby();
    text::lemma_decimal_round_trip(delta);
    assert(tokens.skip(1) =~= seq![key, field, text::decimal(delta as int)]);
    assert(parse::parsed(tokens, readings) == Ok::<CommandView, CommandErrorView>(command));
    lemma_answered(tokens, readings, before, now, after, step, command);
}

/// `DEL` removes every key it is given, and answers with how many of them were there,
/// each counted once.
pub proof fn lemma_del_means(
    name: Seq<char>,
    keys: Seq<Seq<char>>,
    there: Set<Seq<char>>,
    readings: Map<Seq<char>, ScoreView>,
    before: DatabaseView,
    now: u64,
    after: DatabaseView,
    step: StepView,
)
    requires
        text::upper(name) == "DEL"@,
        dispatch::dispatches(seq![name] + keys, readings, before, now, after, step),
        keys.len() > 0,
        keys.len() <= i64::MAX,
        there.finite(),
        forall|key: Seq<char>| #[trigger]
            there.contains(key) == (keys.contains(key) && !lacks(before.store, key, now)),
    ensures
        answered(step, resp::integer_frame(there.len() as int)),
        after == (DatabaseView { store: after.store, ..before }),
        forall|key: Seq<char>| #[trigger]
            after.store.contains_key(key) == (before.store.contains_key(key) && !keys.contains(
                key,
            )),
        forall|key: Seq<char>| #[trigger]
            after.store.contains_key(key) ==> after.store[key] == before.store[key],
{
    let tokens = seq![name] + keys;
    let command = CommandView::Del { keys };
    names::lemma_named_del();
    assert(tokens.skip(1) =~= keys);
    assert(parse::parsed(tokens, readings) == Ok::<CommandView, CommandErrorView>(command));
    lemma_answered(tokens, readings, before, now, after, step, command);
    let counted = keys.to_set().filter(|key: Seq<char>| keyspace::is_live(before.store, key, now));
    assert forall|key: Seq<char>| keys.to_set().contains(key) == keys.contains(key) by {}
    assert(counted =~= there);
    lemma_few_distinct(keys, there);
}

/// `EXISTS` answers with how many of the keys it is given are there, each counted as
/// often as it is given.
pub proof fn lemma_exists_means(
    name: Seq<char>,
    keys: Seq<Seq<char>>,
    there: Seq<int>,
    readings: Map<Seq<char>, ScoreView>,
    before: DatabaseView,
    now: u64,
    after: DatabaseView,
    step: StepView,
)
    requires
        text::upper(name) == "EXISTS"@,
        dispatch::dispatches(seq![name] + keys, readings, before, now, after, step),
        keys.len() > 0,
        keys.len() <= i64::MAX,
        there.no_duplicates(),
        forall|i: int| #[trigger]
            there.contains(i) == (0 <= i < keys.len() && !lacks(before.store, keys[i], now)),
    ensures
        answered(step, resp::integer_frame(there.len() as int)),
        after == before,
{
    let tokens = seq![name] + keys;
    let command = CommandView::Exists { keys };
    names::lemma_named_exists();
    assert(tokens.skip(1) =~= keys);
    assert(parse::parsed(tokens, readings) == Ok::<CommandView, CommandErrorView>(command));
    lemma_answered(tokens, readings, before, now, after, step, command);
    lemma_exists_counts(before.store, keys, now, there);
}

/// `TYPE` names the type of the value at the key.
pub proof fn lemma_type_means(
    name: Seq<char>,
    key: Seq<char>,
    readings: Map<Seq<char>, ScoreView>,
    before: DatabaseView,
    now: u64,
    after: DatabaseView,
    step: StepView,
)
    requires
        text::upper(name) == "TYPE"@,
        dispatch::dispatches(seq![name, key], readings, before, now, after, step),
    ensures
        lacks(before.store, key, now) ==> answered(step, resp::simple_frame("none"@)),
        !lacks(before.store, key, now) && before.store[key].value is Str ==> {
            &&& answered(step, resp::simple_frame("string"@))
        },
        !lacks(before.store, key, now) && before.store[key].value is List ==> {
            &&& answered(step, resp::simple_frame("list"@))
        },
        !lacks(before.store, key, now) && before.store[key].value is StrSet ==> {
            &&& answered(step, resp::simple_frame("set"@))
        },
        !lacks(before.store, key, now) && before.store[key].value is SortedSet ==> {
            &&& answered(step, resp::simple_frame("zset"@))
        },
        !lacks(before.store, key, now) && before.store[key].value is Hash ==> {
            &&& answered(step, resp::simple_frame("hash"@))
        },
        after == looked_up(before, key, now),
{
    let tokens = seq![name, key];
    let command = CommandView::Type { key };
    names::lemma_named_type();
    assert(tokens.skip(1) =~= seq![key]);
    assert(parse::parsed(tokens, readings) == Ok::<CommandView, CommandErrorView>(command));
    lemma_answered(tokens, readings, before, now, after, step, command);
    lemma_looked_up(before.store, key, now);
}

/// `KEYS` lists, once each, the keys that are there and match the pattern.
pub proof fn lemma_keys_means(
    name: Seq<char>,
    pattern: Seq<char>,
    wanted: Set<Seq<char>>,
    readings: Map<Seq<char>, ScoreView>,
    before: DatabaseView,
    now: u64,
    after: DatabaseView,
    step: StepView,
)
    requires
        text::upper(name) == "KEYS"@,
        dispatch::dispatches(seq![name, pattern], readings, before, now, after, step),
        forall|key: Seq<char>| #[trigger]
            wanted.contains(key) == (!lacks(before.store, key, now) && glob::glob_matches(
                encode_utf8(pattern),
                encode_utf8(key),
            )),
    ensures
        exists|items: Seq<Seq<char>>| #[trigger]
            lists_once(items, wanted) && answered(step, resp::array_frame(items)),
        after == before,
{
    let tokens = seq![name, pattern];
    let command = CommandView::Keys { pattern };
    names::lemma_named_keys();
    assert(tokens.skip(1) =~= seq![pattern]);
    assert(parse::parsed(tokens, readings) == Ok::<CommandView, CommandErrorView>(command));
    lemma_answered(tokens, readings, before, now, after, step, command);
    assert(model::matching_keys(before.store, pattern, now) =~= wanted);
    lemma_listed(step.outcome->Reply_0, Ok::<Set<Seq<char>>, StoreError>(wanted));
}

/// `EXPIRE` gives a key that is there a deadline that many seconds from now, or removes
/// it if the number is not positive.
pub proof fn lemma_expire_means(
    name: Seq<char>,
    key: Seq<char>,
    seconds: i64,
    readings: Map<Seq<char>, ScoreView>,
    before: DatabaseView,
    now: u64,
    after: DatabaseView,
    step: StepView,
)
    requires
        text::upper(name) == "EXPIRE"@,
        dispatch::dispatches(
            seq![name, key, text::decimal(seconds as int)],
            readings,
            before,
            now,
            after,
            step,
        ),
    ensures
        lacks(before.store, key, now) ==> {
            &&& answered(step, resp::integer_frame(0))
            &&& after == removed(before, key)
        },
        !lacks(before.store, key, now) ==> answered(step, resp::integer_frame(1)),
        !lacks(before.store, key, now) && seconds <= 0 ==> after == removed(before, key),
        !lacks(before.store, key, now) && seconds > 0 ==> {
            &&& after == (DatabaseView {
            store: before.store.insert(
                key,
                EntryView { value: before.store[key].value, expires_at: Some(now + seconds * 1_000_000_000) },
            ),
            ..before
        })
        },
{
    let tokens = seq![name, key, text::decimal(seconds as int)];
    let command = CommandView::Expire { key, seconds };
    names::lemma_named_expire();
    text::lemma_decimal_round_trip(seconds);
    assert(tokens.skip(1) =~= seq![key, text::decimal(seconds as int)]);
    assert(parse::parsed(tokens, readings) == Ok::<CommandView, CommandErrorView>(command));
    lemma_answered(tokens, readings, before, now, after, step, command);
    lemma_looked_up(before.store, key, now);
}

/// `TTL` answers with the whole seconds until the deadline, -1 without a deadline, -2
/// without a key.
pub proof fn lemma_ttl_means(
    name: Seq<char>,
    key: Seq<char>,
    left: int,
    readings: Map<Seq<char>, ScoreView>,
    before: DatabaseView,
    now: u64,
    after: DatabaseView,
    step: StepView,
)
    requires
        text::upper(name) == "TTL"@,
        dispatch::dispatches(seq![name, key], readings, before, now, after, step),
    ensures
        lacks(before.store, key, now) ==> answered(step, resp::integer_frame(-2)),
        !lacks(before.store, key, now) && before.store[key].expires_at is None ==> {
            &&& answered(step, resp::integer_frame(-1))
        },
        !lacks(before.store, key, now) && before.store[key].expires_at is Some && 0 <= left
            <= i64::MAX && now + left * 1_000_000_000 <= before.store[key].expires_at->Some_0
            < now + (left + 1) * 1_000_000_000 ==> answered(step, resp::integer_frame(left)),
        after == looked_up(before, key, now),
{
    let tokens = seq![name, key];
    let command = CommandView::Ttl { key };
    names::lemma_named_ttl();
    assert(tokens.skip(1) =~= seq![key]);
    assert(parse::parsed(tokens, readings) == Ok::<CommandView, CommandErrorView>(command));
    lemma_answered(tokens, readings, before, now, after, step, command);
    if !lacks(before.store, key, now) && before.store[key].expires_at is Some {
        lemma_whole_seconds(before.store[key].expires_at->Some_0 - now, left);
    }
    lemma_looked_up(before.store, key, now);
}

/// `PERSIST` takes the deadline away, and answers 1 if there was one.
pub proof fn lemma_persist_means(
    name: Seq<char>,
    key: Seq<char>,
    readings: Map<Seq<char>, ScoreView>,
    before: DatabaseView,
    now: u64,
    after: DatabaseView,
    step: StepView,
)
    requires
        text::upper(name) == "PERSIST"@,
        dispatch::dispatches(seq![name, key], readings, before, now, after, step),
    ensures
        lacks(before.store, key, now) ==> {
            &&& answered(step, resp::integer_frame(0))
            &&& after == removed(before, key)
        },
        !lacks(before.store, key, now) && before.store[key].expires_at is None ==> {
            &&& answered(step, resp::integer_frame(0))
            &&& after  == before
        },
        !lacks(before.store, key, now) && before.store[key].expires_at is Some ==> {
            &&& answered(step, resp::integer_frame(1))
            &&& after == (DatabaseView {
            store: before.store.insert(
                key,
                EntryView { value: before.store[key].value, expires_at: None },
            ),
            ..before
        })
        },
{
    let tokens = seq![name, key];
    let command = CommandView::Persist { key };
    names::lemma_named_persist();
    assert(tokens.skip(1) =~= seq![key]);
    assert(parse::parsed(tokens, readings) == Ok::<CommandView, CommandErrorView>(command));
    lemma_answered(tokens, readings, before, now, after, step, command);
    if !lacks(before.store, key, now) && before.store[key].expires_at is None {
        assert(after.store =~= before.store);
    }
    lemma_looked_up(before.store, key, now);
}

/// `RENAME` moves value and deadline to the new name; it needs a key.
pub proof fn lemma_rename_means(
    name: Seq<char>,
    key: Seq<char>,
    new_key: Seq<char>,
    readings: Map<Seq<char>, ScoreView>,
    before: DatabaseView,
    now: u64,
    after: DatabaseView,
    step: StepView,
)
    requires
        text::upper(name) == "RENAME"@,
        dispatch::dispatches(seq![name, key, new_key], readings, before, now, after, step),
    ensures
        lacks(before.store, key, now) ==> {
            &&& answered(step, resp::error_frame("ERR no such key"@))
            &&& after == removed(before, key)
        },
        !lacks(before.store, key, now) ==> {
            &&& answered(step, resp::simple_frame("OK"@))
            &&& after == (DatabaseView {
            store: before.store.remove(key).insert(new_key, before.store[key]),
            ..before
        })
        },
{
    let tokens = seq![name, key, new_key];
    let command = CommandView::Rename { key, new_key };
    names::lemma_named_rename();
    assert(tokens.skip(1) =~= seq![key, new_key]);
    assert(parse::parsed(tokens, readings) == Ok::<CommandView, CommandErrorView>(command));
    lemma_answered(tokens, readings, before, now, after, step, command);
    lemma_looked_up(before.store, key, now);
}

/// `DBSIZE` counts the keys that are there.
pub proof fn lemma_dbsize_means(
    name: Seq<char>,
    there: Set<Seq<char>>,
    readings: Map<Seq<char>, ScoreView>,
    before: DatabaseView,
    now: u64,
    after: DatabaseView,
    step: StepView,
)
    requires
        text::upper(name) == "DBSIZE"@,
        dispatch::dispatches(seq![name], readings, before, now, after, step),
        there.finite(),
        there.len() <= i64::MAX,
        forall|key: Seq<char>| #[trigger] there.contains(key) == !lacks(before.store, key, now),
    ensures
        answered(step, resp::integer_frame(there.len() as int)),
        after == before,
{
    let tokens = seq![name];
    let command = CommandView::DbSize;
    names::lemma_named_dbsize();
    assert(tokens.skip(1) =~= Seq::<Seq<char>>::empty());
    assert(parse::parsed(tokens, readings) == Ok::<CommandView, CommandErrorView>(command));
    lemma_answered(tokens, readings, before, now, after, step, command);
    assert(keyspace::live_keys(before.store, now) =~= there);
}

/// `FLUSHALL` leaves no key.
pub proof fn lemma_flushall_means(
    name: Seq<char>,
    readings: Map<Seq<char>, ScoreView>,
    before: DatabaseView,
    now: u64,
    after: DatabaseView,
    step: StepView,
)
    requires
        text::upper(name) == "FLUSHALL"@,
        dispatch::dispatches(seq![name], readings, before, now, after, step),
    ensures
        answered(step, resp::simple_frame("OK"@)),
        after == (DatabaseView { store: Map::empty(), ..before }),
{
    let tokens = seq![name];
    let command = CommandView::FlushAll;
    names::lemma_named_flushall();
    assert(tokens.skip(1) =~= Seq::<Seq<char>>::empty());
    assert(parse::parsed(tokens, readings) == Ok::<CommandView, CommandErrorView>(command));
    lemma_answered(tokens, readings, before, now, after, step, command);
}

/// `PING` answers `PONG`.
pub proof fn lemma_ping_means(
    name: Seq<char>,
    readings: Map<Seq<char>, ScoreView>,
    before: DatabaseView,
    now: u64,
    after: DatabaseView,
    step: StepView,
)
    requires
        text::upper(name) == "PING"@,
        dispatch::dispatches(seq![name], readings, before, now, after, step),
    ensures
        answered(step, resp::simple_frame("PONG"@)),
        after == before,
{
    let tokens = seq![name];
    let command = CommandView::Ping { message: None };
    names::lemma_named_ping();
    assert(tokens.skip(1) =~= Seq::<Seq<char>>::empty());
    assert(parse::parsed(tokens, readings) == Ok::<CommandView, CommandErrorView>(command));
    lemma_answered(tokens, readings, before, now, after, step, command);
}

/// `PING` with a message answers with the message.
pub proof fn lemma_ping_with_a_message_means(
    name: Seq<char>,
    message: Seq<char>,
    readings: Map<Seq<char>, ScoreView>,
    before: DatabaseView,
    now: u64,
    after: DatabaseView,
    step: StepView,
)
    requires
        text::upper(name) == "PING"@,
        dispatch::dispatches(seq![name, message], readings, before, now, after, step),
    ensures
        answered(step, resp::bulk_frame(message)),
        after == before,
{
    let tokens = seq![name, message];
    let command = CommandView::Ping { message: Some(message) };
    names::lemma_named_ping();
    assert(tokens.skip(1) =~= seq![message]);
    assert(parse::parsed(tokens, readings) == Ok::<CommandView, CommandErrorView>(command));
    lemma_answered(tokens, readings, before, now, after, step, command);
}

/// `ECHO` answers with the message.
pub proof fn lemma_echo_means(
    name: Seq<char>,
    message: Seq<char>,
    readings: Map<Seq<char>, ScoreView>,
    before: DatabaseView,
    now: u64,
    after: DatabaseView,
    step: StepView,
)
    requires
        text::upper(name) == "ECHO"@,
        dispatch::dispatches(seq![name, message], readings, before, now, after, step),
    ensures
        answered(step, resp::bulk_frame(message)),
        after == before,
{
    let tokens = seq![name, message];
    let command = CommandView::Echo { message };
    names::lemma_named_echo();
    assert(tokens.skip(1) =~= seq![message]);
    assert(parse::parsed(tokens, readings) == Ok::<CommandView, CommandErrorView>(command));
    lemma_answered(tokens, readings, before, now, after, step, command);
}

/// `INFO` answers with the uptime, the number of clients and the number of keys.
pub proof fn lemma_info_means(
    name: Seq<char>,
    args: Seq<Seq<char>>,
    there: Set<Seq<char>>,
    readings: Map<Seq<char>, ScoreView>,
    before: DatabaseView,
    now: u64,
    after: DatabaseView,
    step: StepView,
)
    requires
        text::upper(name) == "INFO"@,
        dispatch::dispatches(seq![name] + args, readings, before, now, after, step),
        there.finite(),
        forall|key: Seq<char>| #[trigger] there.contains(key) == !lacks(before.store, key, now),
    ensures
        answered(step, resp::bulk_frame(
            "# Server\r\nserver_name:redis_clone\r\nuptime_in_seconds:"@ + text::decimal(
                now as int / 1_000_000_000,
            ) + "\r\n\r\n# Clients\r\nconnected_clients:"@ + text::decimal(before.clients as int)
                + "\r\n\r\n# Keyspace\r\nkeys:"@ + text::decimal(there.len() as int) + "\r\n"@,
        )),
        after == before,
{
    let tokens = seq![name] + args;
    let command = CommandView::Info;
    names::lemma_named_info();
    assert(tokens.skip(1) =~= args);
    assert(parse::parsed(tokens, readings) == Ok::<CommandView, CommandErrorView>(command));
    lemma_answered(tokens, readings, before, now, after, step, command);
    assert(keyspace::live_keys(before.store, now) =~= there);
}

/// `ZADD` gives each member the score that comes before it; of a member that is given
/// twice the last score counts. It answers with how many members are new, and touches
/// no other member.
pub proof fn lemma_zadd_means(
    name: Seq<char>,
    key: Seq<char>,
    args: Seq<Seq<char>>,
    added: Seq<(ScoreView, Seq<char>)>,
    members: Map<Seq<char>, ScoreView>,
    i: int,
    other: Seq<char>,
    readings: Map<Seq<char>, ScoreView>,
    before: DatabaseView,
    now: u64,
    after: DatabaseView,
    step: StepView,
)
    requires
        text::upper(name) == "ZADD"@,
        dispatch::dispatches(seq![name, key] + args, readings, before, now, after, step),
        added.len() > 0,
        added.len() <= i64::MAX,
        args.len() == 2 * added.len(),
        gives_scores(args, added, readings),
        finds_zset(before.store, key, now, members),
        members.dom().finite(),
        0 <= i < added.len(),
        forall|j: int| i < j < added.len() ==> (#[trigger] added[j]).1 != added[i].1,
        forall|j: int| 0 <= j < added.len() ==> (#[trigger] added[j]).1 != other,
    ensures
        ({
            let now_there = after.store[key].value->SortedSet_0;
            &&& after == stored(before, key, ValueView::SortedSet(now_there), now)
            &&& now_there.dom().finite()
            &&& answered(step, resp::integer_frame(
                now_there.dom().len() - members.dom().len(),
            ))
            &&& now_there.contains_key(added[i].1)
            &&& score::level(now_there[added[i].1].bits) == score::level(added[i].0.bits)
            &&& now_there.contains_key(other) == members.contains_key(other)
            &&& members.contains_key(other) ==> now_there[other] == members[other]
        }),
{
    let tokens = seq![name, key] + args;
    let command = CommandView::ZAdd { key, members: added };
    names::lemma_named_zadd();
    lemma_zadd_parses(name, key, args, added, readings);
    assert(tokens.skip(1) =~= seq![key] + args);
    assert(parse::parsed(tokens, readings) == Ok::<CommandView, CommandErrorView>(command));
    lemma_answered(tokens, readings, before, now, after, step, command);
    lemma_all_added(members, added, i, other);
    assert(after.store[key].value == ValueView::SortedSet(model::zset_add_all(members, added)));
}

/// `ZADD` of one member gives it exactly the score given, unless the score it has stands
/// at the same place.
pub proof fn lemma_zadd_of_one_means(
    name: Seq<char>,
    key: Seq<char>,
    score_text: Seq<char>,
    member: Seq<char>,
    members: Map<Seq<char>, ScoreView>,
    readings: Map<Seq<char>, ScoreView>,
    before: DatabaseView,
    now: u64,
    after: DatabaseView,
    step: StepView,
)
    requires
        text::upper(name) == "ZADD"@,
        dispatch::dispatches(
            seq![name, key, score_text, member],
            readings,
            before,
            now,
            after,
            step,
        ),
        readings.contains_key(score_text),
        !score::bits_are_nan(readings[score_text].bits),
        finds_zset(before.store, key, now, members),
        members.dom().finite(),
    ensures
        members.contains_key(member) ==> answered(step, resp::integer_frame(0)),
        !members.contains_key(member) ==> answered(step, resp::integer_frame(1)),
        !members.contains_key(member) || score::level(members[member].bits) != score::level(
            readings[score_text].bits,
        ) ==> after == stored(
            before,
            key,
            ValueView::SortedSet(members.insert(member, readings[score_text])),
            now,
        ),
        members.contains_key(member) && score::level(members[member].bits) == score::level(
            readings[score_text].bits,
        ) ==> after == stored(before, key, ValueView::SortedSet(members), now),
{
    let tokens = seq![name, key, score_text, member];
    let command = CommandView::ZAdd { key, members: seq![(readings[score_text], member)] };
    names::lemma_named_zadd();
    let added = seq![(readings[score_text], member)];
    assert(seq![key, score_text, member].skip(1) =~= seq![score_text, member]);
    assert(gives_score(seq![score_text, member], added, readings, 0));
    lemma_scores_given(seq![score_text, member], added, readings);
    assert(tokens.skip(1) =~= seq![key, score_text, member]);
    assert(parse::parsed(tokens, readings) == Ok::<CommandView, CommandErrorView>(command));
    lemma_answered(tokens, readings, before, now, after, step, command);
    assert(added.drop_last() =~= Seq::<(ScoreView, Seq<char>)>::empty());
    assert(model::zset_add_all(members, added.drop_last()) == members);
    assert(added.last() == added[0]);
    let now_there = data_structure::zset_add(members, readings[score_text], member);
    assert(model::zset_add_all(members, added) == now_there);
    if members.contains_key(member) {
        assert(now_there.dom() =~= members.dom());
    } else {
        assert(now_there.dom() =~= members.dom().insert(member));
    }
}

/// `ZREM` takes the member out, the key too if nobody is left, and answers 1 if it was
/// there.
pub proof fn lemma_zrem_means(
    name: Seq<char>,
    key: Seq<char>,
    member: Seq<char>,
    members: Map<Seq<char>, ScoreView>,
    readings: Map<Seq<char>, ScoreView>,
    before: DatabaseView,
    now: u64,
    after: DatabaseView,
    step: StepView,
)
    requires
        text::upper(name) == "ZREM"@,
        dispatch::dispatches(seq![name, key, member], readings, before, now, after, step),
        finds_zset(before.store, key, now, members),
    ensures
        members.contains_key(member) ==> answered(step, resp::integer_frame(1)),
        !members.contains_key(member) ==> answered(step, resp::integer_frame(0)),
        (forall|other: Seq<char>| #[trigger] members.contains_key(other) ==> other == member) ==> after
            == removed(before, key),
        (exists|other: Seq<char>| #[trigger] members.contains_key(other) && other != member) ==> after
            == stored(before, key, ValueView::SortedSet(members.remove(member)), now),
{
    let tokens = seq![name, key, member];
    let command = CommandView::ZRem { key, member };
    names::lemma_named_zrem();
    assert(tokens.skip(1) =~= seq![key, member]);
    assert(parse::parsed(tokens, readings) == Ok::<CommandView, CommandErrorView>(command));
    lemma_answered(tokens, readings, before, now, after, step, command);
    let left = members.remove(member);
    if forall|other: Seq<char>| #[trigger] members.contains_key(other) ==> other == member {
        assert(left =~= Map::<Seq<char>, ScoreView>::empty());
    }
    if exists|other: Seq<char>| #[trigger] members.contains_key(other) && other != member {
        let other = choose|other: Seq<char>| #[trigger] members.contains_key(other) && other != member;
        assert(left.contains_key(other));
    }
    lemma_settled_is(before.store, key, now);
}

/// `ZRANGE` answers with the members from rank `start` to rank `stop`, by ascending
/// score.
pub proof fn lemma_zrange_means(
    name: Seq<char>,
    key: Seq<char>,
    start: i64,
    stop: i64,
    members: Map<Seq<char>, ScoreView>,
    ranked: Seq<Seq<char>>,
    readings: Map<Seq<char>, ScoreView>,
    before: DatabaseView,
    now: u64,
    after: DatabaseView,
    step: StepView,
)
    requires
        text::upper(name) == "ZRANGE"@,
        dispatch::dispatches(
            seq![name, key, text::decimal(start as int), text::decimal(stop as int)],
            readings,
            before,
            now,
            after,
            step,
        ),
        finds_zset(before.store, key, now, members),
        is_rank_order(ranked, members),
    ensures
        exists|items: Seq<Seq<char>>| #[trigger]
            is_range(items, ranked, start as int, stop as int) && answered(
                step,
                resp::array_frame(items),
            ),
        after == looked_up(before, key, now),
{
    let tokens = seq![name, key, text::decimal(start as int), text::decimal(stop as int)];
    let command = CommandView::ZRange { key, start, stop, with_scores: false };
    names::lemma_named_zrange();
    text::lemma_decimal_round_trip(start);
    text::lemma_decimal_round_trip(stop);
    assert(tokens.skip(1) =~= seq![key, text::decimal(start as int), text::decimal(stop as int)]);
    assert(parse::parsed(tokens, readings) == Ok::<CommandView, CommandErrorView>(command));
    lemma_answered(tokens, readings, before, now, after, step, command);
    lemma_rank_order(ranked, members);
    lemma_selected_is_range(ranked, start as int, stop as int);
    lemma_looked_up(before.store, key, now);
}

/// `ZRANGE` with `WITHSCORES` puts each member's score behind it.
pub proof fn lemma_zrange_with_scores_means(
    name: Seq<char>,
    key: Seq<char>,
    start: i64,
    stop: i64,
    option: Seq<char>,
    members: Map<Seq<char>, ScoreView>,
    ranked: Seq<Seq<char>>,
    readings: Map<Seq<char>, ScoreView>,
    before: DatabaseView,
    now: u64,
    after: DatabaseView,
    step: StepView,
)
    requires
        text::upper(name) == "ZRANGE"@,
        dispatch::dispatches(
            seq![name, key, text::decimal(start as int), text::decimal(stop as int), option],
            readings,
            before,
            now,
            after,
            step,
        ),
        text::lower(option) == "withscores"@,
        finds_zset(before.store, key, now, members),
        is_rank_order(ranked, members),
    ensures
        exists|items: Seq<Seq<char>>, flat: Seq<Seq<char>>|
            #![trigger is_range(items, ranked, start as int, stop as int), resp::array_frame(flat)]
            {
                &&& is_range(items, ranked, start as int, stop as int)
                &&& flat.len() == 2 * items.len()
                &&& forall|i: int|
                    0 <= i < items.len() ==> flat[2 * i] == #[trigger] items[i] && flat[2 * i + 1]
                        == members[items[i]].text
                &&& answered(step, resp::array_frame(flat))
            },
        after == looked_up(before, key, now),
{
    let tokens = seq![name, key, text::decimal(start as int), text::decimal(stop as int), option];
    let command = CommandView::ZRange { key, start, stop, with_scores: true };
    names::lemma_named_zrange();
    names::lemma_option_words();
    text::lemma_decimal_round_trip(start);
    text::lemma_decimal_round_trip(stop);
    assert(tokens.skip(1) =~= seq![key, text::decimal(start as int), text::decimal(stop as int), option]);
    assert(parse::parsed(tokens, readings) == Ok::<CommandView, CommandErrorView>(command));
    lemma_answered(tokens, readings, before, now, after, step, command);
    lemma_rank_order(ranked, members);
    let items = data_structure::selected(ranked, start as int, stop as int);
    let pairs = data_structure::with_scores(items, members);
    let flat = execute::scored_list(pairs);
    lemma_selected_is_range(ranked, start as int, stop as int);
    assert forall|i: int| 0 <= i < items.len() implies flat[2 * i] == #[trigger] items[i] && flat[2 * i
        + 1] == members[items[i]].text by {
        assert((2 * i) / 2 == i && (2 * i) % 2 == 0);
        assert((2 * i + 1) / 2 == i && (2 * i + 1) % 2 == 1);
        assert(pairs[i] == (items[i], members[items[i]]));
    }
    assert(step.outcome == OutcomeView::Reply(resp::array_frame(flat)));
    lemma_looked_up(before.store, key, now);
}

/// `ZRANGEBYSCORE` lists, by ascending score, the members whose score meets the lower
/// bound and, apart from that, the upper bound.
pub proof fn lemma_zrangebyscore_means(
    name: Seq<char>,
    key: Seq<char>,
    min: Seq<char>,
    max: Seq<char>,
    low: ScoreView,
    with_low: bool,
    high: ScoreView,
    with_high: bool,
    members: Map<Seq<char>, ScoreView>,
    ranked: Seq<Seq<char>>,
    readings: Map<Seq<char>, ScoreView>,
    before: DatabaseView,
    now: u64,
    after: DatabaseView,
    step: StepView,
)
    requires
        text::upper(name) == "ZRANGEBYSCORE"@,
        dispatch::dispatches(seq![name, key, min, max], readings, before, now, after, step),
        parse::bound_of(min, readings) == Some((low, with_low)),
        parse::bound_of(max, readings) == Some((high, with_high)),
        finds_zset(before.store, key, now, members),
        is_rank_order(ranked, members),
    ensures
        exists|items: Seq<Seq<char>>|
            #![trigger resp::array_frame(items)]
            {
                &&& answered(step, resp::array_frame(items))
                &&& in_rank_order(items, members)
                &&& forall|x: Seq<char>| #[trigger]
                    items.contains(x) == (members.contains_key(x) && meets_low(
                        members[x],
                        low,
                        with_low,
                    ) && meets_high(members[x], high, with_high))
            },
        after == looked_up(before, key, now),
{
    let tokens = seq![name, key, min, max];
    let command = CommandView::ZRangeByScore {
        key,
        min: low,
        min_inclusive: with_low,
        max: high,
        max_inclusive: with_high,
    };
    names::lemma_named_zrangebyscore();
    assert(tokens.skip(1) =~= seq![key, min, max]);
    assert(parse::parsed(tokens, readings) == Ok::<CommandView, CommandErrorView>(command));
    lemma_answered(tokens, readings, before, now, after, step, command);
    lemma_rank_order(ranked, members);
    lemma_bounds_are_numbers(min, readings);
    lemma_bounds_are_numbers(max, readings);
    let keep = |x: Seq<char>|
        score::in_bounds(members[x].bits, low.bits, with_low, high.bits, with_high);
    lemma_filtered_in_order(ranked, members, keep);
    let items = data_structure::members_in_bounds(
        members,
        low.bits,
        with_low,
        high.bits,
        with_high,
    );
    assert(items == ranked.filter(keep));
    assert forall|x: Seq<char>| #[trigger]
        items.contains(x) == (members.contains_key(x) && meets_low(members[x], low, with_low)
            && meets_high(members[x], high, with_high)) by {
        assert(items.contains(x) == (ranked.contains(x) && keep(x)));
        assert(ranked.contains(x) == members.contains_key(x));
    }
    lemma_looked_up(before.store, key, now);
}

/// `ZSCORE` answers with the score of the member, or with nil.
pub proof fn lemma_zscore_means(
    name: Seq<char>,
    key: Seq<char>,
    member: Seq<char>,
    members: Map<Seq<char>, ScoreView>,
    readings: Map<Seq<char>, ScoreView>,
    before: DatabaseView,
    now: u64,
    after: DatabaseView,
    step: StepView,
)
    requires
        text::upper(name) == "ZSCORE"@,
        dispatch::dispatches(seq![name, key, member], readings, before, now, after, step),
        finds_zset(before.store, key, now, members),
    ensures
        members.contains_key(member) ==> answered(step, resp::bulk_frame(members[member].text)),
        !members.contains_key(member) ==> answered(step, resp::null_frame()),
        after == looked_up(before, key, now),
{
    let tokens = seq![name, key, member];
    let command = CommandView::ZScore { key, member };
    names::lemma_named_zscore();
    assert(tokens.skip(1) =~= seq![key, member]);
    assert(parse::parsed(tokens, readings) == Ok::<CommandView, CommandErrorView>(command));
    lemma_answered(tokens, readings, before, now, after, step, command);
    lemma_looked_up(before.store, key, now);
}

/// `ZCARD` answers with the number of members.
pub proof fn lemma_zcard_means(
    name: Seq<char>,
    key: Seq<char>,
    members: Map<Seq<char>, ScoreView>,
    readings: Map<Seq<char>, ScoreView>,
    before: DatabaseView,
    now: u64,
    after: DatabaseView,
    step: StepView,
)
    requires
        text::upper(name) == "ZCARD"@,
        dispatch::dispatches(seq![name, key], readings, before, now, after, step),
        finds_zset(before.store, key, now, members),
        members.dom().finite(),
        members.dom().len() <= i64::MAX,
    ensures
        answered(step, resp::integer_frame(members.dom().len() as int)),
        after == looked_up(before, key, now),
{
    let tokens = seq![name, key];
    let command = CommandView::ZCard { key };
    names::lemma_named_zcard();
    assert(tokens.skip(1) =~= seq![key]);
    assert(parse::parsed(tokens, readings) == Ok::<CommandView, CommandErrorView>(command));
    lemma_answered(tokens, readings, before, now, after, step, command);
    lemma_looked_up(before.store, key, now);
}

/// `ZRANK` answers with the member's place in the order of scores, from 0 on, or with nil.
pub proof fn lemma_zrank_means(
    name: Seq<char>,
    key: Seq<char>,
    member: Seq<char>,
    members: Map<Seq<char>, ScoreView>,
    ranked: Seq<Seq<char>>,
    i: int,
    readings: Map<Seq<char>, ScoreView>,
    before: DatabaseView,
    now: u64,
    after: DatabaseView,
    step: StepView,
)
    requires
        text::upper(name) == "ZRANK"@,
        dispatch::dispatches(seq![name, key, member], readings, before, now, after, step),
        finds_zset(before.store, key, now, members),
        is_rank_order(ranked, members),
    ensures
        0 <= i < ranked.len() && i <= i64::MAX && ranked[i] == member ==> {
            &&& answered(step, resp::integer_frame(i))
        },
        !members.contains_key(member) ==> answered(step, resp::null_frame()),
        after == looked_up(before, key, now),
{
    let tokens = seq![name, key, member];
    let command = CommandView::ZRank { key, member };
    names::lemma_named_zrank();
    assert(tokens.skip(1) =~= seq![key, member]);
    assert(parse::parsed(tokens, readings) == Ok::<CommandView, CommandErrorView>(command));
    lemma_answered(tokens, readings, before, now, after, step, command);
    lemma_rank_order(ranked, members);
    if 0 <= i < ranked.len() && ranked[i] == member {
        assert(members.contains_key(ranked[i]));
        let k = ranked.index_of(member);
        assert(0 <= k < ranked.len() && ranked[k] == member);
        assert(k == i);
    }
    lemma_looked_up(before.store, key, now);
}

/// `ZINCRBY` asks for the sum of the member's score, if it has one, and the increment.
pub proof fn lemma_zincrby_means(
    name: Seq<char>,
    key: Seq<char>,
    increment: Seq<char>,
    member: Seq<char>,
    members: Map<Seq<char>, ScoreView>,
    readings: Map<Seq<char>, ScoreView>,
    before: DatabaseView,
    now: u64,
    after: DatabaseView,
    step: StepView,
)
    requires
        text::upper(name) == "ZINCRBY"@,
        dispatch::dispatches(
            seq![name, key, increment, member],
            readings,
            before,
            now,
            after,
            step,
        ),
        readings.contains_key(increment),
        !score::bits_are_nan(readings[increment].bits),
        finds_zset(before.store, key, now, members),
    ensures
        step.outcome == (OutcomeView::AddScores {
            key,
            current: if members.contains_key(member) {
                Some(members[member])
            } else {
                None
            },
            increment: readings[increment],
            member,
        }),
        step.log is None,
        after == looked_up(before, key, now),
{
    let tokens = seq![name, key, increment, member];
    let command = CommandView::ZIncrBy { key, increment: readings[increment], member };
    names::lemma_named_zincrby();
    assert(tokens.skip(1) =~= seq![key, increment, member]);
    assert(parse::parsed(tokens, readings) == Ok::<CommandView, CommandErrorView>(command));
    lemma_looked_up(before.store, key, now);
}

/// `SPOP` answers with a member and takes it away, the key too if it was the only one; it
/// is logged as the `SREM` of that member. Without a member it answers nil.
pub proof fn lemma_spop_means(
    name: Seq<char>,
    key: Seq<char>,
    members: Set<Seq<char>>,
    readings: Map<Seq<char>, ScoreView>,
    before: DatabaseView,
    now: u64,
    after: DatabaseView,
    step: StepView,
)
    requires
        text::upper(name) == "SPOP"@,
        dispatch::dispatches(seq![name, key], readings, before, now, after, step),
        finds_set(before.store, key, now, members),
    ensures
        members == Set::<Seq<char>>::empty() ==> {
            &&& answered(step, resp::null_frame())
            &&& after == removed(  before,  key, )
            &&& step.log is None
        },
        members != Set::<Seq<char>>::empty() ==> exists|member: Seq<char>| #[trigger]
            members.contains(member) && answered(step, resp::bulk_frame(
                member,
            )) && after == (if members.remove(
                member,
            ) == Set::<Seq<char>>::empty() {
                removed(before, key)
            } else {
                stored(before, key, ValueView::StrSet(members.remove(member)), now)
            }) && step.log == dispatch::logged(before, seq!["SREM"@, key, member]),
{
    let tokens = seq![name, key];
    let command = CommandView::SPop { key };
    names::lemma_named_spop();
    assert(tokens.skip(1) =~= seq![key]);
    assert(parse::parsed(tokens, readings) == Ok::<CommandView, CommandErrorView>(command));
    let popped = choose|popped: Result<Option<Seq<char>>, StoreError>|
        #![trigger execute::optional_reply(popped)]
        {
            &&& model::pops_member(before.store, key, now, popped, after.store)
            &&& step == (StepView {
                outcome: OutcomeView::Reply(execute::optional_reply(popped)),
                log: dispatch::logged_pop(before, key, popped),
            })
        };
    lemma_settled_is(before.store, key, now);
    match popped->Ok_0 {
        Some(member) => {
            assert(members.contains(member));
            if members.remove(member) == Set::<Seq<char>>::empty() {
                assert(after.store =~= before.store.remove(key));
            }
        },
        None => {},
    }
}

/// `SAVE` asks for a snapshot to be written.
pub proof fn lemma_save_means(
    name: Seq<char>,
    args: Seq<Seq<char>>,
    readings: Map<Seq<char>, ScoreView>,
    before: DatabaseView,
    now: u64,
    after: DatabaseView,
    step: StepView,
)
    requires
        text::upper(name) == "SAVE"@,
        dispatch::dispatches(seq![name] + args, readings, before, now, after, step),
    ensures
        step.outcome == OutcomeView::Save,
        step.log is None,
        after == before,
{
    let tokens = seq![name] + args;
    let command = CommandView::Save;
    names::lemma_named_save();
    assert(tokens.skip(1) =~= args);
    assert(parse::parsed(tokens, readings) == Ok::<CommandView, CommandErrorView>(command));
}

/// `BGSAVE` asks for a snapshot to be written in the background, and answers at once.
pub proof fn lemma_bgsave_means(
    name: Seq<char>,
    args: Seq<Seq<char>>,
    readings: Map<Seq<char>, ScoreView>,
    before: DatabaseView,
    now: u64,
    after: DatabaseView,
    step: StepView,
)
    requires
        text::upper(name) == "BGSAVE"@,
        dispatch::dispatches(seq![name] + args, readings, before, now, after, step),
    ensures
        step.outcome == OutcomeView::BackgroundSave(
            resp::simple_frame("Background saving started"@),
        ),
        step.log is None,
        after == before,
{
    let tokens = seq![name] + args;
    let command = CommandView::BgSave;
    names::lemma_named_bgsave();
    assert(tokens.skip(1) =~= args);
    assert(parse::parsed(tokens, readings) == Ok::<CommandView, CommandErrorView>(command));
}

/// `PUBLISH` addresses the message to every subscriber of the channel, each once, as the
/// array of `message`, the channel and the payload.
pub proof fn lemma_publish_means(
    name: Seq<char>,
    channel: Seq<char>,
    payload: Seq<char>,
    readings: Map<Seq<char>, ScoreView>,
    before: DatabaseView,
    now: u64,
    after: DatabaseView,
    step: StepView,
)
    requires
        text::upper(name) == "PUBLISH"@,
        dispatch::dispatches(seq![name, channel, payload], readings, before, now, after, step),
    ensures
        step.outcome matches OutcomeView::Publish { message, recipients } && message
            == resp::array_frame(seq!["message"@, channel, payload]) && recipients.no_duplicates()
            && forall|id: u64| #[trigger]
            recipients.contains(id) == (before.channels.contains_key(channel)
                && before.channels[channel].contains(id)),
        step.log is None,
        after == before,
{
    let tokens = seq![name, channel, payload];
    let command = CommandView::Publish { channel, message: payload };
    names::lemma_named_publish();
    assert(tokens.skip(1) =~= seq![channel, payload]);
    assert(parse::parsed(tokens, readings) == Ok::<CommandView, CommandErrorView>(command));
    match step.outcome {
        OutcomeView::Publish { message, recipients } => {
            assert forall|id: u64| #[trigger]
                recipients.contains(id) == (before.channels.contains_key(channel)
                    && before.channels[channel].contains(id)) by {
                assert(recipients.to_set().contains(id) == recipients.contains(id));
            }
        },
        _ => {},
    }
}

} // verus!
