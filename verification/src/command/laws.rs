//! What holds of every command.
use vstd::prelude::*;

use crate::command;
use crate::command::dispatch;
use crate::command::dispatch::StepView;
use crate::command::execute;
use crate::command::execute::OutcomeView;
use crate::command::names;
use crate::command::parse;
use crate::command::{CommandErrorView, CommandView};
use crate::database::data_structure;
use crate::database::db::{DatabaseView, StoreError};
use crate::database::keyspace;
use crate::database::keyspace::{EntryView, StoreView, ValueView};
use crate::database::laws;
use crate::database::model;
use crate::resp;
use crate::score::ScoreView;
use crate::text;

verus! {

broadcast proof fn lemma_simple_starts(value: Seq<char>)
    ensures
        !dispatch::is_error(#[trigger] resp::simple_frame(value)),
{
}

broadcast proof fn lemma_integer_starts(value: int)
    ensures
        !dispatch::is_error(#[trigger] resp::integer_frame(value)),
{
}

broadcast proof fn lemma_bulk_starts(value: Seq<char>)
    ensures
        !dispatch::is_error(#[trigger] resp::bulk_frame(value)),
{
}

broadcast proof fn lemma_array_starts(items: Seq<Seq<char>>)
    ensures
        !dispatch::is_error(#[trigger] resp::array_frame(items)),
{
}

broadcast proof fn lemma_nullable_starts(items: Seq<Option<Seq<char>>>)
    ensures
        !dispatch::is_error(#[trigger] resp::nullable_frame(items)),
{
}

broadcast proof fn lemma_error_starts(message: Seq<char>)
    ensures
        dispatch::is_error(#[trigger] resp::error_frame(message)),
{
}

broadcast proof fn lemma_eviction_unseen(store: StoreView, key: Seq<char>, now: u64)
    ensures
        keyspace::live_part(#[trigger] keyspace::evicted(store, key, now), now)
            == keyspace::live_part(store, now),
{
    laws::lemma_eviction_is_invisible(store, key, now);
}

broadcast proof fn lemma_removal_unseen(store: StoreView, key: Seq<char>, now: u64)
    ensures
        #![trigger store.remove(key), keyspace::is_live(store, key, now)]
        !keyspace::is_live(store, key, now) ==> keyspace::live_part(store.remove(key), now)
            == keyspace::live_part(store, now),
{
    if !keyspace::is_live(store, key, now) {
        laws::lemma_removing_the_dead_is_invisible(store, key, now);
    }
}

broadcast group group_starts {
    lemma_simple_starts,
    lemma_integer_starts,
    lemma_bulk_starts,
    lemma_array_starts,
    lemma_nullable_starts,
    lemma_error_starts,
}

broadcast group group_unseen {
    lemma_eviction_unseen,
    lemma_removal_unseen,
}

/// A command that is refused leaves every live key as it was.
pub proof fn lemma_refusal_changes_nothing(
    command: CommandView,
    before: DatabaseView,
    now: u64,
    after: StoreView,
    reply: Seq<char>,
)
    requires
        execute::answers(command, before, now, after, reply),
        dispatch::is_error(reply),
    ensures
        keyspace::live_part(after, now) == keyspace::live_part(before.store, now),
{
    broadcast use {group_starts, group_unseen};

}

/// A command that is not a write leaves every live key as it was, `SPOP` apart.
pub proof fn lemma_reading_changes_nothing(
    command: CommandView,
    before: DatabaseView,
    now: u64,
    after: StoreView,
    reply: Seq<char>,
)
    requires
        execute::answers(command, before, now, after, reply),
        !command::writes(command),
        !(command is SPop),
    ensures
        keyspace::live_part(after, now) == keyspace::live_part(before.store, now),
{
    broadcast use group_unseen;

}

/// A request that is refused leaves every live key as it was, changes nothing
/// else, and is not logged.
pub proof fn lemma_refused_request_changes_nothing(
    tokens: Seq<Seq<char>>,
    readings: Map<Seq<char>, ScoreView>,
    before: DatabaseView,
    now: u64,
    after: DatabaseView,
    step: StepView,
)
    requires
        dispatch::dispatches(tokens, readings, before, now, after, step),
        step.outcome matches OutcomeView::Reply(reply) && dispatch::is_error(reply),
    ensures
        keyspace::live_part(after.store, now) == keyspace::live_part(before.store, now),
        after == before.with_store(after.store),
        step.log is None,
{
    broadcast use {group_starts, group_unseen};

    let reply = step.outcome->Reply_0;
    match parse::parsed(tokens, readings) {
        Ok(CommandView::SPop { key }) => {
            let popped = choose|popped: Result<Option<Seq<char>>, StoreError>|
                #![trigger execute::optional_reply(popped)]
                {
                    &&& model::pops_member(before.store, key, now, popped, after.store)
                    &&& step == (StepView {
                        outcome: OutcomeView::Reply(execute::optional_reply(popped)),
                        log: dispatch::logged_pop(before, key, popped),
                    })
                };
            assert(reply == execute::optional_reply(popped));
        },
        Ok(command) => {
            if !(command is ZIncrBy) {
                lemma_refusal_changes_nothing(command, before, now, after.store, reply);
            }
        },
        Err(_) => {},
    }
}

/// With an append-only log, a request that leaves no record in it leaves every
/// live key as it was: nothing is lost when the log is replayed.
pub proof fn lemma_unlogged_request_changes_nothing(
    tokens: Seq<Seq<char>>,
    readings: Map<Seq<char>, ScoreView>,
    before: DatabaseView,
    now: u64,
    after: DatabaseView,
    step: StepView,
)
    requires
        dispatch::dispatches(tokens, readings, before, now, after, step),
        before.aof is Some,
        !before.replaying,
        keyspace::nothing_hollow(before.store),
        step.log is None,
    ensures
        keyspace::live_part(after.store, now) == keyspace::live_part(before.store, now),
{
    broadcast use {group_starts, group_unseen};

    match parse::parsed(tokens, readings) {
        Ok(CommandView::SPop { key }) => {
            let popped = choose|popped: Result<Option<Seq<char>>, StoreError>|
                #![trigger execute::optional_reply(popped)]
                {
                    &&& model::pops_member(before.store, key, now, popped, after.store)
                    &&& step == (StepView {
                        outcome: OutcomeView::Reply(execute::optional_reply(popped)),
                        log: dispatch::logged_pop(before, key, popped),
                    })
                };
            assert(dispatch::logged_pop(before, key, popped) is None);
            if model::set_at(before.store, key, now) is Ok {
                assert(popped is Ok && popped->Ok_0 is None);
                assert(!keyspace::is_live(before.store, key, now));
            }
        },
        Ok(command) => {
            if step.outcome is Reply && !(command is ZIncrBy) {
                let reply = step.outcome->Reply_0;
                if command::writes(command) {
                    assert(dispatch::is_error(reply));
                    lemma_refusal_changes_nothing(command, before, now, after.store, reply);
                } else {
                    lemma_reading_changes_nothing(command, before, now, after.store, reply);
                }
            }
        },
        Err(_) => {},
    }
}

/// A reply that ends a line.
pub open spec fn ends_a_line(reply: Seq<char>) -> bool {
    reply.len() > 2 && reply.skip(reply.len() - 2) == resp::crlf()
}

proof fn lemma_ends_a_line(content: Seq<char>)
    requires
        content.len() > 0,
    ensures
        ends_a_line(content + resp::crlf()),
{
    assert((content + resp::crlf()).skip(content.len() as int) =~= resp::crlf());
}

broadcast proof fn lemma_simple_ends(value: Seq<char>)
    ensures
        ends_a_line(#[trigger] resp::simple_frame(value)),
{
    lemma_ends_a_line(seq!['+'] + value);
}

broadcast proof fn lemma_error_ends(message: Seq<char>)
    ensures
        ends_a_line(#[trigger] resp::error_frame(message)),
{
    lemma_ends_a_line(seq!['-'] + resp::one_line(message));
}

broadcast proof fn lemma_integer_ends(value: int)
    ensures
        ends_a_line(#[trigger] resp::integer_frame(value)),
{
    lemma_ends_a_line(seq![':'] + text::decimal(value));
}

broadcast proof fn lemma_bulk_ends(value: Seq<char>)
    ensures
        ends_a_line(#[trigger] resp::bulk_frame(value)),
{
    let length = text::decimal(vstd::utf8::encode_utf8(value).len() as int);
    lemma_ends_a_line(seq!['$'] + length + resp::crlf() + value);
}

broadcast proof fn lemma_array_ends(items: Seq<Seq<char>>)
    ensures
        ends_a_line(#[trigger] resp::array_frame(items)),
{
    let head = resp::array_header(items.len());
    if items.len() == 0 {
        lemma_ends_a_line(seq!['*'] + text::decimal(0));
        assert(resp::array_frame(items) =~= head);
    } else {
        lemma_bulk_ends(items.last());
        let last = resp::bulk_frame(items.last());
        let front = head + resp::bulk_frames(items.drop_last());
        assert(resp::array_frame(items) =~= front + last);
        lemma_end_is_kept(front, last);
    }
}

broadcast proof fn lemma_nullable_ends(items: Seq<Option<Seq<char>>>)
    ensures
        ends_a_line(#[trigger] resp::nullable_frame(items)),
{
    let head = resp::array_header(items.len());
    if items.len() == 0 {
        lemma_ends_a_line(seq!['*'] + text::decimal(0));
        assert(resp::nullable_frame(items) =~= head);
    } else {
        let last = resp::optional_frame(items.last());
        match items.last() {
            Some(value) => {
                lemma_bulk_ends(value);
            },
            None => {
                lemma_null_ends();
            },
        }
        let front = head + resp::optional_frames(items.drop_last());
        assert(resp::nullable_frame(items) =~= front + last);
        lemma_end_is_kept(front, last);
    }
}

proof fn lemma_null_ends()
    ensures
        ends_a_line(resp::null_frame()),
{
    assert(resp::null_frame() =~= seq!['$', '-', '1'] + resp::crlf());
    lemma_ends_a_line(seq!['$', '-', '1']);
}

proof fn lemma_end_is_kept(front: Seq<char>, last: Seq<char>)
    requires
        ends_a_line(last),
    ensures
        ends_a_line(front + last),
{
    let whole = front + last;
    assert(whole.skip(whole.len() - 2) =~= last.skip(last.len() - 2));
}

broadcast group group_ends {
    lemma_simple_ends,
    lemma_error_ends,
    lemma_integer_ends,
    lemma_bulk_ends,
    lemma_array_ends,
    lemma_nullable_ends,
}

/// Whatever a command is answered is a complete reply, which ends its line.
pub proof fn lemma_every_command_is_answered(
    command: CommandView,
    before: DatabaseView,
    now: u64,
    after: StoreView,
    reply: Seq<char>,
)
    requires
        execute::answers(command, before, now, after, reply),
    ensures
        ends_a_line(reply),
{
    broadcast use group_ends;

    lemma_null_ends();
}

/// Every request, however malformed, is answered: with a complete reply at once,
/// or with one that the server completes. Only a blank line is not.
pub proof fn lemma_every_request_is_answered(
    tokens: Seq<Seq<char>>,
    readings: Map<Seq<char>, ScoreView>,
    before: DatabaseView,
    now: u64,
    after: DatabaseView,
    step: StepView,
)
    requires
        dispatch::dispatches(tokens, readings, before, now, after, step),
        step.outcome is Reply,
    ensures
        if tokens.len() == 0 {
            step.outcome->Reply_0 == Seq::<char>::empty()
        } else {
            ends_a_line(step.outcome->Reply_0)
        },
{
    broadcast use group_ends;

    lemma_null_ends();
    let reply = step.outcome->Reply_0;
    if tokens.len() > 0 {
        match parse::parsed(tokens, readings) {
            Ok(CommandView::SPop { key }) => {},
            Ok(command) => {
                if !(command is ZIncrBy) {
                    lemma_every_command_is_answered(command, before, now, after.store, reply);
                }
            },
            Err(_) => {},
        }
    }
}

/// A command that gives each variadic writer something to write, as every parsed
/// command does.
pub open spec fn is_filled(command: CommandView) -> bool {
    match command {
        CommandView::LPush { key, values } => values.len() > 0,
        CommandView::RPush { key, values } => values.len() > 0,
        CommandView::SAdd { key, values } => values.len() > 0,
        CommandView::ZAdd { key, members } => members.len() > 0,
        _ => true,
    }
}

/// Every parsed command is filled.
pub proof fn lemma_parsed_is_filled(
    tokens: Seq<Seq<char>>,
    readings: Map<Seq<char>, ScoreView>,
)
    ensures
        parse::parsed(tokens, readings) matches Ok(command) ==> is_filled(command),
{
    if tokens.len() > 0 {
        let args = tokens.skip(1);
        if parse::takes(parse::Verb::ZAdd, args) {
            let rest = args.skip(1);
            assert(rest.len() >= 2);
            assert(parse::scored_members(rest, readings) matches Ok(members) ==> members.len() > 0);
        }
    }
}

proof fn lemma_zset_add_all_filled(
    members: Map<Seq<char>, ScoreView>,
    added: Seq<(ScoreView, Seq<char>)>,
)
    requires
        added.len() > 0,
    ensures
        model::zset_add_all(members, added).contains_key(added.last().1),
{
}

proof fn lemma_mset_not_hollow(store: StoreView, pairs: Seq<(Seq<char>, Seq<char>)>)
    requires
        keyspace::nothing_hollow(store),
    ensures
        keyspace::nothing_hollow(model::after_mset(store, pairs)),
    decreases pairs.len(),
{
    if pairs.len() > 0 {
        lemma_mset_not_hollow(store, pairs.drop_last());
    }
}

/// No command leaves an empty collection behind: a key is dropped together with
/// its last element, and a new key starts with an element.
pub proof fn lemma_nothing_hollow_is_left(
    command: CommandView,
    before: DatabaseView,
    now: u64,
    after: StoreView,
    reply: Seq<char>,
)
    requires
        execute::answers(command, before, now, after, reply),
        is_filled(command),
        keyspace::nothing_hollow(before.store),
    ensures
        keyspace::nothing_hollow(after),
{
    let store = before.store;
    match command {
        CommandView::SAdd { key, values } => {
            if model::set_at(store, key, now) is Ok {
                let members = model::members_at(store, key, now);
                assert(values.to_set().contains(values[0]));
                assert(members.union(values.to_set()).contains(values[0]));
            }
        },
        CommandView::ZAdd { key, members } => {
            if model::zset_at(store, key, now) is Ok {
                lemma_zset_add_all_filled(model::zset_at(store, key, now)->Ok_0, members);
            }
        },
        CommandView::HSet { key, field, value } => {
            if model::hash_at(store, key, now) is Ok {
                let fields = model::hash_at(store, key, now)->Ok_0;
                assert(fields.insert(field, value).contains_key(field));
            }
        },
        CommandView::HIncrBy { key, field, delta } => {
            match model::hincrby_result(store, key, field, delta as int, now) {
                Ok(number) => {
                    let fields = model::hash_at(store, key, now)->Ok_0;
                    assert(fields.insert(field, text::decimal(number)).contains_key(field));
                },
                Err(_) => {},
            }
        },
        CommandView::MSet { pairs } => {
            lemma_mset_not_hollow(store, pairs);
        },
        _ => {},
    }
}

/// Nor does the second half of `ZINCRBY`.
pub proof fn lemma_zincrby_leaves_nothing_hollow(
    store: StoreView,
    key: Seq<char>,
    sum: ScoreView,
    member: Seq<char>,
    now: u64,
)
    requires
        keyspace::nothing_hollow(store),
    ensures
        keyspace::nothing_hollow(model::after_zincrby(store, key, sum, member, now)),
{
    if model::zset_at(store, key, now) is Ok {
        let members = model::zset_at(store, key, now)->Ok_0;
        assert(data_structure::zset_add(members, sum, member).contains_key(member));
    }
}

// --- Expired keys do not count ------------------------------------------

/// The database once its expired keys have been swept.
pub open spec fn swept(db: DatabaseView, now: u64) -> DatabaseView {
    DatabaseView { store: keyspace::live_part(db.store, now), ..db }
}

proof fn lemma_exists_count_swept(store: StoreView, keys: Seq<Seq<char>>, now: u64)
    ensures
        model::exists_count(keyspace::live_part(store, now), keys, now) == model::exists_count(
            store,
            keys,
            now,
        ),
    decreases keys.len(),
{
    reveal(Seq::filter);
    if keys.len() > 0 {
        lemma_exists_count_swept(store, keys.drop_last(), now);
    }
}

proof fn lemma_mset_swept(store: StoreView, pairs: Seq<(Seq<char>, Seq<char>)>, now: u64)
    ensures
        keyspace::live_part(model::after_mset(keyspace::live_part(store, now), pairs), now)
            == keyspace::live_part(model::after_mset(store, pairs), now),
    decreases pairs.len(),
{
    let clean = keyspace::live_part(store, now);
    if pairs.len() == 0 {
        assert(keyspace::live_part(clean, now) =~= keyspace::live_part(store, now));
    } else {
        lemma_mset_swept(store, pairs.drop_last(), now);
        let one = model::after_mset(clean, pairs.drop_last());
        let other = model::after_mset(store, pairs.drop_last());
        let (key, value) = pairs.last();
        assert(keyspace::live_part(one, now) == keyspace::live_part(other, now));
        lemma_same_living_insert(
            one,
            other,
            key,
            EntryView { value: ValueView::Str(value), expires_at: None },
            now,
        );
    }
}

/// Storing the same entry keeps two keyspaces alike.
proof fn lemma_same_living_insert(
    one: StoreView,
    other: StoreView,
    key: Seq<char>,
    entry: EntryView,
    now: u64,
)
    requires
        keyspace::live_part(one, now) == keyspace::live_part(other, now),
    ensures
        keyspace::live_part(one.insert(key, entry), now) == keyspace::live_part(
            other.insert(key, entry),
            now,
        ),
{
    let a = keyspace::live_part(one, now);
    let b = keyspace::live_part(other, now);
    let x = keyspace::live_part(one.insert(key, entry), now);
    let y = keyspace::live_part(other.insert(key, entry), now);
    assert forall|k: Seq<char>| x.contains_key(k) == y.contains_key(k) by {
        assert(a.contains_key(k) == b.contains_key(k));
    }
    assert forall|k: Seq<char>| x.contains_key(k) implies x[k] == y[k] by {
        if k != key {
            assert(a.contains_key(k) && b.contains_key(k));
            assert(a[k] == b[k]);
        }
    }
    assert(x =~= y);
}

/// Removing the same key keeps two keyspaces alike.
proof fn lemma_same_living_remove(one: StoreView, other: StoreView, key: Seq<char>, now: u64)
    requires
        keyspace::live_part(one, now) == keyspace::live_part(other, now),
    ensures
        keyspace::live_part(one.remove(key), now) == keyspace::live_part(other.remove(key), now),
{
    let a = keyspace::live_part(one, now);
    let b = keyspace::live_part(other, now);
    let x = keyspace::live_part(one.remove(key), now);
    let y = keyspace::live_part(other.remove(key), now);
    assert forall|k: Seq<char>| x.contains_key(k) == y.contains_key(k) by {
        assert(a.contains_key(k) == b.contains_key(k));
    }
    assert forall|k: Seq<char>| x.contains_key(k) implies x[k] == y[k] by {
        assert(a.contains_key(k) && b.contains_key(k));
        assert(a[k] == b[k]);
    }
    assert(x =~= y);
}

proof fn lemma_same_living(store: StoreView, now: u64)
    ensures
        keyspace::live_part(keyspace::live_part(store, now), now) == keyspace::live_part(
            store,
            now,
        ),
{
    assert(keyspace::live_part(keyspace::live_part(store, now), now) =~= keyspace::live_part(
        store,
        now,
    ));
}

broadcast proof fn lemma_with_value_swept(
    store: StoreView,
    key: Seq<char>,
    value: ValueView,
    now: u64,
)
    ensures
        keyspace::live_part(
            #[trigger] model::with_value(keyspace::live_part(store, now), key, value, now),
            now,
        ) == keyspace::live_part(model::with_value(store, key, value, now), now),
{
    lemma_same_living(store, now);
    lemma_results_swept(store, key, now);
    lemma_same_living_insert(
        keyspace::live_part(store, now),
        store,
        key,
        EntryView { value, expires_at: keyspace::live_deadline(store, key, now) },
        now,
    );
}

broadcast proof fn lemma_with_string_swept(
    store: StoreView,
    key: Seq<char>,
    value: Seq<char>,
    expires_at: Option<int>,
    now: u64,
)
    ensures
        #![trigger model::with_string(keyspace::live_part(store, now), key, value, expires_at)]
        keyspace::live_part(
            model::with_string(keyspace::live_part(store, now), key, value, expires_at),
            now,
        ) == keyspace::live_part(model::with_string(store, key, value, expires_at), now),
{
    lemma_same_living(store, now);
    lemma_same_living_insert(
        keyspace::live_part(store, now),
        store,
        key,
        EntryView { value: ValueView::Str(value), expires_at },
        now,
    );
}

broadcast proof fn lemma_removed_swept(store: StoreView, key: Seq<char>, now: u64)
    ensures
        keyspace::live_part(#[trigger] keyspace::live_part(store, now).remove(key), now)
            == keyspace::live_part(store.remove(key), now),
{
    lemma_same_living(store, now);
    lemma_same_living_remove(keyspace::live_part(store, now), store, key, now);
}

broadcast proof fn lemma_settled_swept(
    store: StoreView,
    key: Seq<char>,
    value: ValueView,
    now: u64,
)
    ensures
        keyspace::live_part(
            #[trigger] model::settled(keyspace::live_part(store, now), key, value, now),
            now,
        ) == keyspace::live_part(model::settled(store, key, value, now), now),
{
    lemma_with_value_swept(store, key, value, now);
    lemma_removed_swept(store, key, now);
}

/// The keyspace that a command leaves, the member that `SPOP` takes apart.
pub open spec fn after_command(command: CommandView, store: StoreView, now: u64) -> StoreView {
    match command {
        CommandView::SetKey { key, value, ttl } => model::after_set(store, key, value, ttl, now),
        CommandView::Del { keys } => store.remove_keys(keys.to_set()),
        CommandView::LPush { key, values } => model::after_lpush(store, key, values, now),
        CommandView::RPush { key, values } => model::after_rpush(store, key, values, now),
        CommandView::LPop { key } => model::after_lpop(store, key, now),
        CommandView::RPop { key } => model::after_rpop(store, key, now),
        CommandView::SAdd { key, values } => model::after_sadd(store, key, values, now),
        CommandView::SRem { key, values } => model::after_srem(store, key, values, now),
        CommandView::ZAdd { key, members } => model::after_zadd(store, key, members, now),
        CommandView::ZRem { key, member } => model::after_zrem(store, key, member, now),
        CommandView::HSet { key, field, value } => model::after_hset(
            store,
            key,
            field,
            value,
            now,
        ),
        CommandView::HDel { key, field } => model::after_hdel(store, key, field, now),
        CommandView::HIncrBy { key, field, delta } => model::after_hincrby(
            store,
            key,
            field,
            delta as int,
            now,
        ),
        CommandView::Expire { key, seconds } => model::after_expire(
            store,
            key,
            seconds as int,
            now,
        ),
        CommandView::Persist { key } => model::after_persist(store, key, now),
        CommandView::Rename { key, new_key } => model::after_rename(store, key, new_key, now),
        CommandView::FlushAll => Map::empty(),
        CommandView::IncrBy { key, delta } => model::after_incr(store, key, delta as int, now),
        CommandView::Append { key, value } => model::after_append(store, key, value, now),
        CommandView::MSet { pairs } => model::after_mset(store, pairs),
        CommandView::SetNx { key, value } => model::after_setnx(store, key, value, now),
        CommandView::GetSet { key, value } => model::after_getset(store, key, value, now),
        CommandView::LSet { key, index, value } => model::after_lset(
            store,
            key,
            index as int,
            value,
            now,
        ),
        CommandView::Get { key }
        | CommandView::LRange { key, .. }
        | CommandView::SMembers { key }
        | CommandView::SIsMember { key, .. }
        | CommandView::ZRange { key, .. }
        | CommandView::ZScore { key, .. }
        | CommandView::HGet { key, .. }
        | CommandView::HGetAll { key }
        | CommandView::HKeys { key }
        | CommandView::HVals { key }
        | CommandView::HLen { key }
        | CommandView::HExists { key, .. }
        | CommandView::Type { key }
        | CommandView::Ttl { key }
        | CommandView::StrLen { key }
        | CommandView::LLen { key }
        | CommandView::LIndex { key, .. }
        | CommandView::SCard { key }
        | CommandView::ZCard { key }
        | CommandView::ZRank { key, .. }
        | CommandView::ZRangeByScore { key, .. } => keyspace::evicted(store, key, now),
        _ => store,
    }
}

/// What the commands but `SPOP` leave is settled by the keyspace they find.
pub proof fn lemma_effect_is_settled(
    command: CommandView,
    before: DatabaseView,
    now: u64,
    after: StoreView,
    reply: Seq<char>,
)
    requires
        execute::answers(command, before, now, after, reply),
        !(command is SPop),
    ensures
        after == after_command(command, before.store, now),
{
}

/// No lookup tells a swept keyspace from one that has yet to be swept.
proof fn lemma_results_swept(store: StoreView, key: Seq<char>, now: u64)
    ensures
        keyspace::is_live(keyspace::live_part(store, now), key, now) == keyspace::is_live(
            store,
            key,
            now,
        ),
        keyspace::live_value(keyspace::live_part(store, now), key, now) == keyspace::live_value(
            store,
            key,
            now,
        ),
        keyspace::live_deadline(keyspace::live_part(store, now), key, now)
            == keyspace::live_deadline(store, key, now),
        model::string_at(keyspace::live_part(store, now), key, now) == model::string_at(
            store,
            key,
            now,
        ),
        model::list_at(keyspace::live_part(store, now), key, now) == model::list_at(
            store,
            key,
            now,
        ),
        model::set_at(keyspace::live_part(store, now), key, now) == model::set_at(store, key, now),
        model::zset_at(keyspace::live_part(store, now), key, now) == model::zset_at(
            store,
            key,
            now,
        ),
        model::hash_at(keyspace::live_part(store, now), key, now) == model::hash_at(
            store,
            key,
            now,
        ),
        model::ttl_result(keyspace::live_part(store, now), key, now) == model::ttl_result(
            store,
            key,
            now,
        ),
{
}

proof fn lemma_evicted_swept(store: StoreView, key: Seq<char>, now: u64)
    ensures
        keyspace::live_part(keyspace::evicted(keyspace::live_part(store, now), key, now), now)
            == keyspace::live_part(keyspace::evicted(store, key, now), now),
{
    lemma_same_living(store, now);
    laws::lemma_eviction_is_invisible(store, key, now);
    laws::lemma_eviction_is_invisible(keyspace::live_part(store, now), key, now);
}

spec fn is_about_strings(command: CommandView) -> bool {
    match command {
        CommandView::SetKey { .. }
        | CommandView::Get { .. }
        | CommandView::Del { .. }
        | CommandView::IncrBy { .. }
        | CommandView::Append { .. }
        | CommandView::StrLen { .. }
        | CommandView::MGet { .. }
        | CommandView::MSet { .. }
        | CommandView::SetNx { .. }
        | CommandView::GetSet { .. } => true,
        _ => false,
    }
}

proof fn lemma_effect_on_swept_strings(command: CommandView, store: StoreView, now: u64)
    requires
        is_about_strings(command),
    ensures
        keyspace::live_part(after_command(command, keyspace::live_part(store, now), now), now)
            == keyspace::live_part(after_command(command, store, now), now),
{
    broadcast use {lemma_with_value_swept, lemma_with_string_swept, lemma_settled_swept};

    let clean = keyspace::live_part(store, now);
    lemma_same_living(store, now);
    match command {
        CommandView::Get { key }
        | CommandView::StrLen { key } => {
            lemma_evicted_swept(store, key, now);
        },
        CommandView::SetKey { key, .. }
        | CommandView::IncrBy { key, .. }
        | CommandView::Append { key, .. }
        | CommandView::SetNx { key, .. }
        | CommandView::GetSet { key, .. } => {
            lemma_results_swept(store, key, now);
            lemma_removed_swept(store, key, now);
            lemma_evicted_swept(store, key, now);
        },
        CommandView::Del { keys } => {
            assert(keyspace::live_part(clean.remove_keys(keys.to_set()), now)
                =~= keyspace::live_part(store.remove_keys(keys.to_set()), now));
        },
        CommandView::MSet { pairs } => {
            lemma_mset_swept(store, pairs, now);
        },
        _ => {},
    }
}

spec fn is_about_lists(command: CommandView) -> bool {
    match command {
        CommandView::LPush { .. }
        | CommandView::RPush { .. }
        | CommandView::LPop { .. }
        | CommandView::RPop { .. }
        | CommandView::LRange { .. }
        | CommandView::LLen { .. }
        | CommandView::LIndex { .. }
        | CommandView::LSet { .. } => true,
        _ => false,
    }
}

proof fn lemma_effect_on_swept_lists(command: CommandView, store: StoreView, now: u64)
    requires
        is_about_lists(command),
    ensures
        keyspace::live_part(after_command(command, keyspace::live_part(store, now), now), now)
            == keyspace::live_part(after_command(command, store, now), now),
{
    broadcast use {lemma_with_value_swept, lemma_with_string_swept, lemma_settled_swept};

    let clean = keyspace::live_part(store, now);
    lemma_same_living(store, now);
    match command {
        CommandView::LRange { key, .. }
        | CommandView::LLen { key }
        | CommandView::LIndex { key, .. } => {
            lemma_evicted_swept(store, key, now);
        },
        CommandView::LPush { key, .. }
        | CommandView::RPush { key, .. }
        | CommandView::LPop { key }
        | CommandView::RPop { key }
        | CommandView::LSet { key, .. } => {
            lemma_results_swept(store, key, now);
            lemma_removed_swept(store, key, now);
            lemma_evicted_swept(store, key, now);
        },
        _ => {},
    }
}

spec fn is_about_sets(command: CommandView) -> bool {
    match command {
        CommandView::SAdd { .. }
        | CommandView::SRem { .. }
        | CommandView::SMembers { .. }
        | CommandView::SIsMember { .. }
        | CommandView::SCard { .. }
        | CommandView::SInter { .. }
        | CommandView::SUnion { .. }
        | CommandView::SDiff { .. } => true,
        _ => false,
    }
}

proof fn lemma_effect_on_swept_sets(command: CommandView, store: StoreView, now: u64)
    requires
        is_about_sets(command),
    ensures
        keyspace::live_part(after_command(command, keyspace::live_part(store, now), now), now)
            == keyspace::live_part(after_command(command, store, now), now),
{
    broadcast use {lemma_with_value_swept, lemma_with_string_swept, lemma_settled_swept};

    let clean = keyspace::live_part(store, now);
    lemma_same_living(store, now);
    match command {
        CommandView::SMembers { key }
        | CommandView::SIsMember { key, .. }
        | CommandView::SCard { key } => {
            lemma_evicted_swept(store, key, now);
        },
        CommandView::SAdd { key, .. }
        | CommandView::SRem { key, .. } => {
            lemma_results_swept(store, key, now);
            lemma_removed_swept(store, key, now);
            lemma_evicted_swept(store, key, now);
        },
        _ => {},
    }
}

spec fn is_about_sorted_sets(command: CommandView) -> bool {
    match command {
        CommandView::ZAdd { .. }
        | CommandView::ZRem { .. }
        | CommandView::ZRange { .. }
        | CommandView::ZScore { .. }
        | CommandView::ZCard { .. }
        | CommandView::ZRank { .. }
        | CommandView::ZRangeByScore { .. } => true,
        _ => false,
    }
}

proof fn lemma_effect_on_swept_sorted_sets(command: CommandView, store: StoreView, now: u64)
    requires
        is_about_sorted_sets(command),
    ensures
        keyspace::live_part(after_command(command, keyspace::live_part(store, now), now), now)
            == keyspace::live_part(after_command(command, store, now), now),
{
    broadcast use {lemma_with_value_swept, lemma_with_string_swept, lemma_settled_swept};

    let clean = keyspace::live_part(store, now);
    lemma_same_living(store, now);
    match command {
        CommandView::ZRange { key, .. }
        | CommandView::ZScore { key, .. }
        | CommandView::ZCard { key }
        | CommandView::ZRank { key, .. }
        | CommandView::ZRangeByScore { key, .. } => {
            lemma_evicted_swept(store, key, now);
        },
        CommandView::ZAdd { key, .. }
        | CommandView::ZRem { key, .. } => {
            lemma_results_swept(store, key, now);
            lemma_removed_swept(store, key, now);
            lemma_evicted_swept(store, key, now);
        },
        _ => {},
    }
}

spec fn is_about_hashes(command: CommandView) -> bool {
    match command {
        CommandView::HSet { .. }
        | CommandView::HGet { .. }
        | CommandView::HDel { .. }
        | CommandView::HGetAll { .. }
        | CommandView::HKeys { .. }
        | CommandView::HVals { .. }
        | CommandView::HLen { .. }
        | CommandView::HExists { .. }
        | CommandView::HIncrBy { .. } => true,
        _ => false,
    }
}

proof fn lemma_effect_on_swept_hashes(command: CommandView, store: StoreView, now: u64)
    requires
        is_about_hashes(command),
    ensures
        keyspace::live_part(after_command(command, keyspace::live_part(store, now), now), now)
            == keyspace::live_part(after_command(command, store, now), now),
{
    broadcast use {lemma_with_value_swept, lemma_with_string_swept, lemma_settled_swept};

    let clean = keyspace::live_part(store, now);
    lemma_same_living(store, now);
    match command {
        CommandView::HGet { key, .. }
        | CommandView::HGetAll { key }
        | CommandView::HKeys { key }
        | CommandView::HVals { key }
        | CommandView::HLen { key }
        | CommandView::HExists { key, .. } => {
            lemma_evicted_swept(store, key, now);
        },
        CommandView::HSet { key, .. }
        | CommandView::HDel { key, .. }
        | CommandView::HIncrBy { key, .. } => {
            lemma_results_swept(store, key, now);
            lemma_removed_swept(store, key, now);
            lemma_evicted_swept(store, key, now);
        },
        _ => {},
    }
}

spec fn is_about_keys(command: CommandView) -> bool {
    match command {
        CommandView::Exists { .. }
        | CommandView::Type { .. }
        | CommandView::Keys { .. }
        | CommandView::Expire { .. }
        | CommandView::Ttl { .. }
        | CommandView::Persist { .. }
        | CommandView::Rename { .. }
        | CommandView::Ping { .. }
        | CommandView::Echo { .. }
        | CommandView::DbSize
        | CommandView::FlushAll
        | CommandView::Info => true,
        _ => false,
    }
}

proof fn lemma_effect_on_swept_keys(command: CommandView, store: StoreView, now: u64)
    requires
        is_about_keys(command),
    ensures
        keyspace::live_part(after_command(command, keyspace::live_part(store, now), now), now)
            == keyspace::live_part(after_command(command, store, now), now),
{
    broadcast use {lemma_with_value_swept, lemma_with_string_swept, lemma_settled_swept};

    let clean = keyspace::live_part(store, now);
    lemma_same_living(store, now);
    match command {
        CommandView::Type { key }
        | CommandView::Ttl { key } => {
            lemma_evicted_swept(store, key, now);
        },
        CommandView::Expire { key, seconds } => {
            lemma_results_swept(store, key, now);
            lemma_removed_swept(store, key, now);
            if keyspace::is_live(store, key, now) && seconds > 0 {
                let entry = EntryView {
                    value: store[key].value,
                    expires_at: Some(keyspace::deadline_after(now, seconds as int)),
                };
                lemma_same_living_insert(clean, store, key, entry, now);
            }
        },
        CommandView::Persist { key } => {
            lemma_results_swept(store, key, now);
            lemma_removed_swept(store, key, now);
            if keyspace::is_live(store, key, now) {
                let entry = EntryView { value: store[key].value, expires_at: None };
                lemma_same_living_insert(clean, store, key, entry, now);
            }
        },
        CommandView::Rename { key, new_key } => {
            lemma_results_swept(store, key, now);
            lemma_removed_swept(store, key, now);
            if keyspace::is_live(store, key, now) {
                lemma_same_living_insert(
                    clean.remove(key),
                    store.remove(key),
                    new_key,
                    store[key],
                    now,
                );
            }
        },
        _ => {},
    }
}

/// Sweeping the expired keys first changes nothing that a command leaves.
pub proof fn lemma_effect_on_swept(command: CommandView, store: StoreView, now: u64)
    ensures
        keyspace::live_part(after_command(command, keyspace::live_part(store, now), now), now)
            == keyspace::live_part(after_command(command, store, now), now),
{
    lemma_same_living(store, now);
    if is_about_strings(command) {
        lemma_effect_on_swept_strings(command, store, now);
    } else if is_about_lists(command) {
        lemma_effect_on_swept_lists(command, store, now);
    } else if is_about_sets(command) {
        lemma_effect_on_swept_sets(command, store, now);
    } else if is_about_sorted_sets(command) {
        lemma_effect_on_swept_sorted_sets(command, store, now);
    } else if is_about_hashes(command) {
        lemma_effect_on_swept_hashes(command, store, now);
    } else if is_about_keys(command) {
        lemma_effect_on_swept_keys(command, store, now);
    }
}

proof fn lemma_set_results_swept(store: StoreView, keys: Seq<Seq<char>>, now: u64)
    ensures
        model::sinter_result(keyspace::live_part(store, now), keys, now) == model::sinter_result(
            store,
            keys,
            now,
        ),
        model::sunion_result(keyspace::live_part(store, now), keys, now) == model::sunion_result(
            store,
            keys,
            now,
        ),
        model::sdiff_result(keyspace::live_part(store, now), keys, now) == model::sdiff_result(
            store,
            keys,
            now,
        ),
{
    let clean = keyspace::live_part(store, now);
    assert forall|key: Seq<char>| #[trigger]
        model::set_at(clean, key, now) == model::set_at(store, key, now) by {
        lemma_results_swept(store, key, now);
    }
    assert forall|key: Seq<char>| #[trigger]
        model::members_at(clean, key, now) == model::members_at(store, key, now) by {
        assert(model::set_at(clean, key, now) == model::set_at(store, key, now));
    }
    if model::some_not_set(store, keys, now) {
        let i = choose|i: int|
            0 <= i < keys.len() && model::set_at(store, #[trigger] keys[i], now) is Err;
        assert(model::set_at(clean, keys[i], now) is Err);
    }
    if model::some_not_set(clean, keys, now) {
        let i = choose|i: int|
            0 <= i < keys.len() && model::set_at(clean, #[trigger] keys[i], now) is Err;
        assert(model::set_at(store, keys[i], now) is Err);
    } else {
        let one = model::sinter_result(clean, keys, now)->Ok_0;
        let other = model::sinter_result(store, keys, now)->Ok_0;
        assert forall|x: Seq<char>| one.contains(x) == other.contains(x) by {
            if one.contains(x) {
                assert forall|i: int| 0 <= i < keys.len() implies model::members_at(
                    store,
                    #[trigger] keys[i],
                    now,
                ).contains(x) by {
                    assert(model::members_at(clean, keys[i], now).contains(x));
                }
            }
            if other.contains(x) {
                assert forall|i: int| 0 <= i < keys.len() implies model::members_at(
                    clean,
                    #[trigger] keys[i],
                    now,
                ).contains(x) by {
                    assert(model::members_at(store, keys[i], now).contains(x));
                }
            }
        }
        assert(one =~= other);
        let one = model::sunion_result(clean, keys, now)->Ok_0;
        let other = model::sunion_result(store, keys, now)->Ok_0;
        assert forall|x: Seq<char>| one.contains(x) == other.contains(x) by {
            if one.contains(x) {
                let i = choose|i: int|
                    0 <= i < keys.len() && model::members_at(
                        clean,
                        #[trigger] keys[i],
                        now,
                    ).contains(x);
                assert(model::members_at(store, keys[i], now).contains(x));
            }
            if other.contains(x) {
                let i = choose|i: int|
                    0 <= i < keys.len() && model::members_at(
                        store,
                        #[trigger] keys[i],
                        now,
                    ).contains(x);
                assert(model::members_at(clean, keys[i], now).contains(x));
            }
        }
        assert(one =~= other);
        let one = model::sdiff_result(clean, keys, now)->Ok_0;
        let other = model::sdiff_result(store, keys, now)->Ok_0;
        assert forall|x: Seq<char>| one.contains(x) == other.contains(x) by {
            if one.contains(x) {
                assert forall|i: int| 1 <= i < keys.len() implies !model::members_at(
                    store,
                    #[trigger] keys[i],
                    now,
                ).contains(x) by {
                    assert(!model::members_at(clean, keys[i], now).contains(x));
                }
            }
            if other.contains(x) {
                assert forall|i: int| 1 <= i < keys.len() implies !model::members_at(
                    clean,
                    #[trigger] keys[i],
                    now,
                ).contains(x) by {
                    assert(!model::members_at(store, keys[i], now).contains(x));
                }
            }
        }
        assert(one =~= other);
    }
}

proof fn lemma_answer_on_swept_strings(
    command: CommandView,
    before: DatabaseView,
    now: u64,
    after: StoreView,
    reply: Seq<char>,
)
    requires
        execute::answers(command, before, now, after, reply),
        is_about_strings(command),
    ensures
        execute::answers(
            command,
            swept(before, now),
            now,
            after_command(command, keyspace::live_part(before.store, now), now),
            reply,
        ),
{
    let store = before.store;
    let clean = keyspace::live_part(store, now);
    match command {
        CommandView::SetKey { key, .. } => {
            lemma_results_swept(store, key, now);
        },
        CommandView::Get { key } => {
            lemma_results_swept(store, key, now);
        },
        CommandView::Del { keys } => {
            let one = keys.to_set().filter(|key: Seq<char>| keyspace::is_live(clean, key, now));
            let other = keys.to_set().filter(|key: Seq<char>| keyspace::is_live(store, key, now));
            assert forall|key: Seq<char>| one.contains(key) == other.contains(key) by {
                lemma_results_swept(store, key, now);
            }
            assert(one =~= other);
        },
        CommandView::IncrBy { key, .. } => {
            lemma_results_swept(store, key, now);
        },
        CommandView::Append { key, .. } => {
            lemma_results_swept(store, key, now);
        },
        CommandView::StrLen { key } => {
            lemma_results_swept(store, key, now);
        },
        CommandView::MGet { keys } => {
            let one = model::mget_result(clean, keys, now);
            let other = model::mget_result(store, keys, now);
            assert forall|i: int| 0 <= i < keys.len() implies one[i] == other[i] by {
                lemma_results_swept(store, keys[i], now);
            }
            assert(one =~= other);
        },
        CommandView::MSet { .. } => {},
        CommandView::SetNx { key, .. } => {
            lemma_results_swept(store, key, now);
        },
        CommandView::GetSet { key, .. } => {
            lemma_results_swept(store, key, now);
        },
        _ => {},
    }
}

proof fn lemma_answer_on_swept_lists(
    command: CommandView,
    before: DatabaseView,
    now: u64,
    after: StoreView,
    reply: Seq<char>,
)
    requires
        execute::answers(command, before, now, after, reply),
        is_about_lists(command),
    ensures
        execute::answers(
            command,
            swept(before, now),
            now,
            after_command(command, keyspace::live_part(before.store, now), now),
            reply,
        ),
{
    let store = before.store;
    let clean = keyspace::live_part(store, now);
    match command {
        CommandView::LPush { key, .. } => {
            lemma_results_swept(store, key, now);
        },
        CommandView::RPush { key, .. } => {
            lemma_results_swept(store, key, now);
        },
        CommandView::LPop { key } => {
            lemma_results_swept(store, key, now);
        },
        CommandView::RPop { key } => {
            lemma_results_swept(store, key, now);
        },
        CommandView::LRange { key, .. } => {
            lemma_results_swept(store, key, now);
        },
        CommandView::LLen { key } => {
            lemma_results_swept(store, key, now);
        },
        CommandView::LIndex { key, .. } => {
            lemma_results_swept(store, key, now);
        },
        CommandView::LSet { key, .. } => {
            lemma_results_swept(store, key, now);
        },
        _ => {},
    }
}

proof fn lemma_answer_on_swept_sets(
    command: CommandView,
    before: DatabaseView,
    now: u64,
    after: StoreView,
    reply: Seq<char>,
)
    requires
        execute::answers(command, before, now, after, reply),
        is_about_sets(command),
    ensures
        execute::answers(
            command,
            swept(before, now),
            now,
            after_command(command, keyspace::live_part(before.store, now), now),
            reply,
        ),
{
    let store = before.store;
    let clean = keyspace::live_part(store, now);
    match command {
        CommandView::SAdd { key, .. } => {
            lemma_results_swept(store, key, now);
        },
        CommandView::SRem { key, .. } => {
            lemma_results_swept(store, key, now);
        },
        CommandView::SMembers { key } => {
            lemma_results_swept(store, key, now);
        },
        CommandView::SIsMember { key, .. } => {
            lemma_results_swept(store, key, now);
        },
        CommandView::SCard { key } => {
            lemma_results_swept(store, key, now);
        },
        CommandView::SInter { keys } => {
            lemma_set_results_swept(store, keys, now);
        },
        CommandView::SUnion { keys } => {
            lemma_set_results_swept(store, keys, now);
        },
        CommandView::SDiff { keys } => {
            lemma_set_results_swept(store, keys, now);
        },
        _ => {},
    }
}

proof fn lemma_answer_on_swept_sorted_sets(
    command: CommandView,
    before: DatabaseView,
    now: u64,
    after: StoreView,
    reply: Seq<char>,
)
    requires
        execute::answers(command, before, now, after, reply),
        is_about_sorted_sets(command),
    ensures
        execute::answers(
            command,
            swept(before, now),
            now,
            after_command(command, keyspace::live_part(before.store, now), now),
            reply,
        ),
{
    let store = before.store;
    let clean = keyspace::live_part(store, now);
    match command {
        CommandView::ZAdd { key, .. } => {
            lemma_results_swept(store, key, now);
        },
        CommandView::ZRem { key, .. } => {
            lemma_results_swept(store, key, now);
        },
        CommandView::ZRange { key, .. } => {
            lemma_results_swept(store, key, now);
        },
        CommandView::ZScore { key, .. } => {
            lemma_results_swept(store, key, now);
        },
        CommandView::ZCard { key } => {
            lemma_results_swept(store, key, now);
        },
        CommandView::ZRank { key, .. } => {
            lemma_results_swept(store, key, now);
        },
        CommandView::ZRangeByScore { key, .. } => {
            lemma_results_swept(store, key, now);
        },
        _ => {},
    }
}

proof fn lemma_answer_on_swept_hashes(
    command: CommandView,
    before: DatabaseView,
    now: u64,
    after: StoreView,
    reply: Seq<char>,
)
    requires
        execute::answers(command, before, now, after, reply),
        is_about_hashes(command),
    ensures
        execute::answers(
            command,
            swept(before, now),
            now,
            after_command(command, keyspace::live_part(before.store, now), now),
            reply,
        ),
{
    let store = before.store;
    let clean = keyspace::live_part(store, now);
    match command {
        CommandView::HSet { key, .. } => {
            lemma_results_swept(store, key, now);
        },
        CommandView::HGet { key, .. } => {
            lemma_results_swept(store, key, now);
        },
        CommandView::HDel { key, .. } => {
            lemma_results_swept(store, key, now);
        },
        CommandView::HGetAll { key } => {
            lemma_results_swept(store, key, now);
        },
        CommandView::HKeys { key } => {
            lemma_results_swept(store, key, now);
        },
        CommandView::HVals { key } => {
            lemma_results_swept(store, key, now);
        },
        CommandView::HLen { key } => {
            lemma_results_swept(store, key, now);
        },
        CommandView::HExists { key, .. } => {
            lemma_results_swept(store, key, now);
        },
        CommandView::HIncrBy { key, .. } => {
            lemma_results_swept(store, key, now);
        },
        _ => {},
    }
}

proof fn lemma_answer_on_swept_keys(
    command: CommandView,
    before: DatabaseView,
    now: u64,
    after: StoreView,
    reply: Seq<char>,
)
    requires
        execute::answers(command, before, now, after, reply),
        is_about_keys(command),
    ensures
        execute::answers(
            command,
            swept(before, now),
            now,
            after_command(command, keyspace::live_part(before.store, now), now),
            reply,
        ),
{
    let store = before.store;
    let clean = keyspace::live_part(store, now);
    match command {
        CommandView::Exists { keys } => {
            lemma_exists_count_swept(store, keys, now);
        },
        CommandView::Type { key } => {
            lemma_results_swept(store, key, now);
        },
        CommandView::Keys { .. } => {
            laws::lemma_lookups_see_the_living_only(store, Seq::empty(), now);
        },
        CommandView::Expire { key, .. } => {
            lemma_results_swept(store, key, now);
        },
        CommandView::Ttl { key } => {
            lemma_results_swept(store, key, now);
        },
        CommandView::Persist { key } => {
            lemma_results_swept(store, key, now);
        },
        CommandView::Rename { key, .. } => {
            lemma_results_swept(store, key, now);
        },
        CommandView::Ping { .. } => {},
        CommandView::Echo { .. } => {},
        CommandView::DbSize => {
            laws::lemma_lookups_see_the_living_only(store, Seq::empty(), now);
        },
        CommandView::FlushAll => {},
        CommandView::Info => {
            laws::lemma_lookups_see_the_living_only(store, Seq::empty(), now);
        },
        _ => {},
    }
}

/// Sweeping the expired keys first changes no answer, and nothing that can be
/// seen of what is left: eviction is never needed for a command to be right.
pub proof fn lemma_answer_on_swept(
    command: CommandView,
    before: DatabaseView,
    now: u64,
    after: StoreView,
    reply: Seq<char>,
)
    requires
        execute::answers(command, before, now, after, reply),
    ensures
        exists|left: StoreView|
            #![trigger execute::answers(command, swept(before, now), now, left, reply)]
            execute::answers(command, swept(before, now), now, left, reply) && keyspace::live_part(
                left,
                now,
            ) == keyspace::live_part(after, now),
{
    let clean = keyspace::live_part(before.store, now);
    if command is SPop {
        lemma_pop_on_swept(command, before, now, after, reply);
    } else {
        let left = after_command(command, clean, now);
        lemma_effect_is_settled(command, before, now, after, reply);
        lemma_effect_on_swept(command, before.store, now);
        if is_about_strings(command) {
            lemma_answer_on_swept_strings(command, before, now, after, reply);
        } else if is_about_lists(command) {
            lemma_answer_on_swept_lists(command, before, now, after, reply);
        } else if is_about_sets(command) {
            lemma_answer_on_swept_sets(command, before, now, after, reply);
        } else if is_about_sorted_sets(command) {
            lemma_answer_on_swept_sorted_sets(command, before, now, after, reply);
        } else if is_about_hashes(command) {
            lemma_answer_on_swept_hashes(command, before, now, after, reply);
        } else if is_about_keys(command) {
            lemma_answer_on_swept_keys(command, before, now, after, reply);
        }
        assert(execute::answers(command, swept(before, now), now, left, reply));
    }
}

proof fn lemma_pop_on_swept(
    command: CommandView,
    before: DatabaseView,
    now: u64,
    after: StoreView,
    reply: Seq<char>,
)
    requires
        execute::answers(command, before, now, after, reply),
        command is SPop,
    ensures
        exists|left: StoreView|
            #![trigger execute::answers(command, swept(before, now), now, left, reply)]
            execute::answers(command, swept(before, now), now, left, reply) && keyspace::live_part(
                left,
                now,
            ) == keyspace::live_part(after, now),
{
    let store = before.store;
    let clean = keyspace::live_part(store, now);
    match command {
        CommandView::SPop { key } => {
            let r = choose|r: Result<Option<Seq<char>>, StoreError>|
                #![trigger execute::optional_reply(r)]
                model::pops_member(store, key, now, r, after) && reply == execute::optional_reply(
                    r,
                );
            let left = match r {
                Ok(Some(member)) => model::settled(
                    clean,
                    key,
                    ValueView::StrSet(model::members_at(store, key, now).remove(member)),
                    now,
                ),
                Ok(None) => clean.remove(key),
                Err(_) => clean,
            };
            lemma_results_swept(store, key, now);
            lemma_same_living(store, now);
            lemma_removed_swept(store, key, now);
            if r is Ok && r->Ok_0 is Some {
                lemma_settled_swept(
                    store,
                    key,
                    ValueView::StrSet(model::members_at(store, key, now).remove(r->Ok_0->Some_0)),
                    now,
                );
            }
            assert(model::pops_member(clean, key, now, r, left));
            assert(execute::answers(command, swept(before, now), now, left, reply));
        },
        _ => {},
    }
}

// --- The log ------------------------------------------------------------

/// The request `SREM key member` parses as the command it names.
proof fn lemma_srem_parses(
    key: Seq<char>,
    member: Seq<char>,
    readings: Map<Seq<char>, ScoreView>,
)
    ensures
        parse::parsed(seq!["SREM"@, key, member], readings) == Ok::<
            CommandView,
            CommandErrorView,
        >(CommandView::SRem { key, values: seq![member] }),
{
    let name = "SREM"@;
    names::lemma_named_srem();
    reveal_strlit("SREM");
    assert(text::upper(name) =~= name);
    let tokens = seq![name, key, member];
    assert(tokens.skip(1) =~= seq![key, member]);
    assert(seq![key, member].skip(1) =~= seq![member]);
}

/// What is logged of a request is a request that does, for certain, what was
/// done: carried out on the keyspace as it was, it leaves the keyspace as it is.
pub proof fn lemma_log_repeats_what_was_done(
    tokens: Seq<Seq<char>>,
    readings: Map<Seq<char>, ScoreView>,
    before: DatabaseView,
    now: u64,
    after: DatabaseView,
    step: StepView,
)
    requires
        dispatch::dispatches(tokens, readings, before, now, after, step),
        step.log is Some,
    ensures
        exists|logged: Seq<Seq<char>>, command: CommandView|
            #![trigger parse::parsed(logged, readings), after_command(command, before.store, now)]
            {
                &&& step.log->Some_0.payload == resp::array_frame(logged)
                &&& parse::parsed(logged, readings) == Ok::<CommandView, CommandErrorView>(command)
                &&& command::writes(command)
                &&& !(command is ZIncrBy)
                &&& after.store == after_command(command, before.store, now)
            },
{
    match parse::parsed(tokens, readings) {
        Ok(CommandView::SPop { key }) => {
            let popped = choose|popped: Result<Option<Seq<char>>, StoreError>|
                #![trigger execute::optional_reply(popped)]
                {
                    &&& model::pops_member(before.store, key, now, popped, after.store)
                    &&& step == (StepView {
                        outcome: OutcomeView::Reply(execute::optional_reply(popped)),
                        log: dispatch::logged_pop(before, key, popped),
                    })
                };
            let member = popped->Ok_0->Some_0;
            assert(popped == Ok::<Option<Seq<char>>, StoreError>(Some(member)));
            let logged = seq!["SREM"@, key, member];
            let command = CommandView::SRem { key, values: seq![member] };
            lemma_srem_parses(key, member, readings);
            laws::lemma_pop_is_a_removal(before.store, key, now, member, after.store);
            assert(after.store == after_command(command, before.store, now));
            assert(parse::parsed(logged, readings) == Ok::<CommandView, CommandErrorView>(command));
        },
        Ok(command) => {
            let reply = step.outcome->Reply_0;
            if command is ZIncrBy {
                assert(dispatch::is_error(reply)) by {
                    broadcast use group_starts;

                }
            } else {
                lemma_effect_is_settled(command, before, now, after.store, reply);
                assert(after.store == after_command(command, before.store, now));
                assert(parse::parsed(tokens, readings) == Ok::<CommandView, CommandErrorView>(
                    command,
                ));
            }
        },
        Err(_) => {},
    }
}

/// What is logged of a `ZINCRBY` does again what was done: the logged request
/// asks, of the keyspace as it was, for the sum of the same two scores, and
/// storing that sum leaves the keyspace as it is.
pub proof fn lemma_zincrby_log_repeats_what_was_done(
    tokens: Seq<Seq<char>>,
    readings: Map<Seq<char>, ScoreView>,
    before: DatabaseView,
    now: u64,
    asked: DatabaseView,
    step: StepView,
    key: Seq<char>,
    current: Option<ScoreView>,
    increment: ScoreView,
    member: Seq<char>,
    sum: ScoreView,
    again: DatabaseView,
    asked_again: DatabaseView,
    step_again: StepView,
)
    requires
        dispatch::dispatches(tokens, readings, before, now, asked, step),
        step.outcome == (OutcomeView::AddScores { key, current, increment, member }),
        dispatch::logged_zincrby(asked, key, tokens, now) is Some,
        again.store == before.store,
        dispatch::dispatches(tokens, readings, again, now, asked_again, step_again),
    ensures
        dispatch::logged_zincrby(asked, key, tokens, now)->Some_0.payload == resp::array_frame(
            tokens,
        ),
        parse::parsed(tokens, readings) == Ok::<CommandView, CommandErrorView>(
            CommandView::ZIncrBy { key, increment, member },
        ),
        model::zscore_result(before.store, key, member, now) == Ok::<
            Option<ScoreView>,
            StoreError,
        >(current),
        step_again.outcome == step.outcome,
        model::after_zincrby(asked_again.store, key, sum, member, now) == model::after_zincrby(
            asked.store,
            key,
            sum,
            member,
            now,
        ),
        model::after_zincrby(asked.store, key, sum, member, now) == model::after_zincrby(
            before.store,
            key,
            sum,
            member,
            now,
        ),
{
    assert(model::after_zincrby(asked.store, key, sum, member, now) =~= model::after_zincrby(
        before.store,
        key,
        sum,
        member,
        now,
    ));
}

/// A `ZINCRBY` that has come as far as the sum is logged once it is finished.
pub proof fn lemma_zincrby_is_logged(
    tokens: Seq<Seq<char>>,
    readings: Map<Seq<char>, ScoreView>,
    before: DatabaseView,
    now: u64,
    asked: DatabaseView,
    step: StepView,
)
    requires
        dispatch::dispatches(tokens, readings, before, now, asked, step),
        step.outcome is AddScores,
        before.aof is Some,
        !before.replaying,
    ensures
        dispatch::logged_zincrby(asked, step.outcome->AddScores_key, tokens, now) is Some,
{
}

/// Sweeping the expired keys first changes nothing that the second half of
/// `ZINCRBY` leaves.
pub proof fn lemma_zincrby_on_swept(
    store: StoreView,
    key: Seq<char>,
    sum: ScoreView,
    member: Seq<char>,
    now: u64,
)
    ensures
        keyspace::live_part(
            model::after_zincrby(keyspace::live_part(store, now), key, sum, member, now),
            now,
        ) == keyspace::live_part(model::after_zincrby(store, key, sum, member, now), now),
{
    lemma_same_living(store, now);
    lemma_results_swept(store, key, now);
    match model::zset_at(store, key, now) {
        Ok(members) => {
            lemma_with_value_swept(
                store,
                key,
                ValueView::SortedSet(data_structure::zset_add(members, sum, member)),
                now,
            );
        },
        Err(_) => {},
    }
}

/// No request leaves an empty collection behind when it is dispatched.
pub proof fn lemma_dispatched_leaves_nothing_hollow(
    tokens: Seq<Seq<char>>,
    readings: Map<Seq<char>, ScoreView>,
    before: DatabaseView,
    now: u64,
    after: DatabaseView,
    step: StepView,
)
    requires
        dispatch::dispatches(tokens, readings, before, now, after, step),
        keyspace::nothing_hollow(before.store),
    ensures
        keyspace::nothing_hollow(after.store),
{
    lemma_parsed_is_filled(tokens, readings);
    match parse::parsed(tokens, readings) {
        Ok(CommandView::SPop { key }) => {},
        Ok(command) => {
            if step.outcome is Reply && !(command is ZIncrBy) {
                lemma_nothing_hollow_is_left(
                    command,
                    before,
                    now,
                    after.store,
                    step.outcome->Reply_0,
                );
            }
        },
        Err(_) => {},
    }
}

/// What a request for a write leaves is settled by the keyspace it finds, and for
/// `ZINCRBY` by the sum.
pub proof fn lemma_written_is_settled(
    tokens: Seq<Seq<char>>,
    readings: Map<Seq<char>, ScoreView>,
    before: DatabaseView,
    now: u64,
    after: DatabaseView,
    step: StepView,
    command: CommandView,
    sum: ScoreView,
)
    requires
        dispatch::dispatches(tokens, readings, before, now, after, step),
        parse::parsed(tokens, readings) == Ok::<CommandView, CommandErrorView>(command),
        command::writes(command),
    ensures
        match command {
            CommandView::ZIncrBy { key, increment, member } => {
                let wanted = model::after_zincrby(before.store, key, sum, member, now);
                match step.outcome {
                    OutcomeView::AddScores { key: asked, current, increment: by, member: whose } =>
                        {
                        &&& asked == key && by == increment && whose == member
                        &&& model::after_zincrby(after.store, key, sum, member, now) == wanted
                    },
                    _ => step.outcome is Reply && after.store == before.store && before.store
                        == wanted,
                }
            },
            _ => step.outcome is Reply && after.store == after_command(
                command,
                before.store,
                now,
            ),
        },
{
    match command {
        CommandView::ZIncrBy { key, increment, member } => {
            if step.outcome is AddScores {
                assert(model::after_zincrby(after.store, key, sum, member, now)
                    =~= model::after_zincrby(before.store, key, sum, member, now));
            }
        },
        _ => {
            lemma_effect_is_settled(command, before, now, after.store, step.outcome->Reply_0);
        },
    }
}

} // verus!
