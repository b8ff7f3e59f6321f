//! Running a parsed command, and what it answers.
use vstd::prelude::*;

use crate::command::{Command, CommandView};
use crate::database::data_structure;
use crate::database::db;
use crate::database::db::{Database, DatabaseView, StoreError};
use crate::database::keyspace;
use crate::database::keyspace::{StoreView, NANOS_PER_SECOND};
use crate::database::model;
use crate::database::pubsub;
use crate::database::pubsub::Delivery;
use crate::keyed_map;
use crate::resp;
use crate::score::{Score, ScoreView};
use crate::text;

verus! {

broadcast use text::lemma_texts_push;

// --- Replies ------------------------------------------------------------

/// The reply to an operation that the store refused.
pub open spec fn refusal(error: StoreError) -> Seq<char> {
    resp::error_frame(db::store_error_text(error))
}

/// The reply `+OK`.
pub open spec fn ok_reply() -> Seq<char> {
    resp::simple_frame("OK"@)
}

/// A count as an integer reply.
pub open spec fn count_frame(count: int) -> Seq<char> {
    resp::integer_frame((count as i64) as int)
}

/// A truth value as an integer reply.
pub open spec fn flag_frame(flag: bool) -> Seq<char> {
    resp::integer_frame(
        if flag {
            1
        } else {
            0
        },
    )
}

pub open spec fn optional_reply(r: Result<Option<Seq<char>>, StoreError>) -> Seq<char> {
    match r {
        Ok(value) => resp::optional_frame(value),
        Err(error) => refusal(error),
    }
}

pub open spec fn array_reply(r: Result<Seq<Seq<char>>, StoreError>) -> Seq<char> {
    match r {
        Ok(values) => resp::array_frame(values),
        Err(error) => refusal(error),
    }
}

pub open spec fn bool_reply(r: Result<bool, StoreError>) -> Seq<char> {
    match r {
        Ok(value) => flag_frame(value),
        Err(error) => refusal(error),
    }
}

pub open spec fn count_reply(r: Result<int, StoreError>) -> Seq<char> {
    match r {
        Ok(count) => count_frame(count),
        Err(error) => refusal(error),
    }
}

pub open spec fn signed_reply(r: Result<int, StoreError>) -> Seq<char> {
    match r {
        Ok(value) => resp::integer_frame(value),
        Err(error) => refusal(error),
    }
}

pub open spec fn status_reply(r: Result<(), StoreError>) -> Seq<char> {
    match r {
        Ok(_) => ok_reply(),
        Err(error) => refusal(error),
    }
}

pub open spec fn score_reply(r: Result<Option<ScoreView>, StoreError>) -> Seq<char> {
    match r {
        Ok(Some(score)) => resp::bulk_frame(score.text),
        Ok(None) => resp::null_frame(),
        Err(error) => refusal(error),
    }
}

pub open spec fn rank_reply(r: Result<Option<int>, StoreError>) -> Seq<char> {
    match r {
        Ok(Some(rank)) => count_frame(rank),
        Ok(None) => resp::null_frame(),
        Err(error) => refusal(error),
    }
}

/// Members and the texts of their scores in one list.
pub open spec fn scored_list(pairs: Seq<(Seq<char>, ScoreView)>) -> Seq<Seq<char>> {
    model::flattened(pairs.map_values(|pair: (Seq<char>, ScoreView)| (pair.0, pair.1.text)))
}

pub open spec fn scored_reply(r: Result<Seq<(Seq<char>, ScoreView)>, StoreError>) -> Seq<char> {
    match r {
        Ok(pairs) => resp::array_frame(scored_list(pairs)),
        Err(error) => refusal(error),
    }
}

pub fn reply_error(error: StoreError) -> (r: String)
    ensures
        r@ == refusal(error),
{
    resp::error(error.message().as_str())
}

pub fn reply_optional(result: Result<Option<String>, StoreError>) -> (r: String)
    ensures
        r@ == optional_reply(model::text_result(result)),
{
    match result {
        Ok(Some(value)) => resp::bulk_string(value.as_str()),
        Ok(None) => resp::null(),
        Err(error) => reply_error(error),
    }
}

pub fn reply_array(result: Result<Vec<String>, StoreError>) -> (r: String)
    ensures
        r@ == array_reply(model::texts_result(result)),
{
    match result {
        Ok(values) => resp::array(values.as_slice()),
        Err(error) => reply_error(error),
    }
}

pub fn reply_flag(flag: bool) -> (r: String)
    ensures
        r@ == flag_frame(flag),
{
    resp::integer(
        if flag {
            1
        } else {
            0
        },
    )
}

pub fn reply_bool(result: Result<bool, StoreError>) -> (r: String)
    ensures
        r@ == bool_reply(result),
{
    match result {
        Ok(value) => reply_flag(value),
        Err(error) => reply_error(error),
    }
}

pub fn reply_number(count: usize) -> (r: String)
    ensures
        r@ == count_frame(count as int),
{
    resp::integer(count as i64)
}

pub fn reply_count(result: Result<usize, StoreError>) -> (r: String)
    ensures
        r@ == count_reply(model::count_result(result)),
{
    match result {
        Ok(count) => reply_number(count),
        Err(error) => reply_error(error),
    }
}

pub fn reply_signed(result: Result<i64, StoreError>) -> (r: String)
    ensures
        r@ == signed_reply(model::number_result(result)),
{
    match result {
        Ok(value) => resp::integer(value),
        Err(error) => reply_error(error),
    }
}

pub fn reply_status(result: Result<(), StoreError>) -> (r: String)
    ensures
        r@ == status_reply(result),
{
    match result {
        Ok(()) => resp::simple_string("OK"),
        Err(error) => reply_error(error),
    }
}

/// A score as replies write it: integral scores print without a decimal point
/// (`3`, not `3.0`).
pub fn format_score(score: &Score) -> (r: String)
    ensures
        r@ == score@.text,
{
    score.text.clone()
}

/// Members and the texts of their scores in one list.
fn flatten_scores(pairs: &Vec<(String, Score)>) -> (r: Vec<String>)
    ensures
        text::texts(r@) == scored_list(
            data_structure::scored_texts(pairs@),
        ),
{
    let ghost all = data_structure::scored_texts(pairs@);
    let ghost wanted = scored_list(all);
    let mut flat: Vec<String> = Vec::new();
    let mut i: usize = 0;
    while i < pairs.len()
        invariant
            i <= pairs@.len(),
            all == data_structure::scored_texts(pairs@),
            wanted == scored_list(all),
            flat@.len() == 2 * i,
            forall|j: int| 0 <= j < 2 * i ==> (#[trigger] flat@[j])@ == wanted[j],
        decreases pairs@.len() - i,
    {
        flat.push(pairs[i].0.clone());
        flat.push(format_score(&pairs[i].1));
        proof {
            let n = i as int;
            assert(all[n] == (pairs@[n].0@, pairs@[n].1@));
            assert(wanted[2 * n] == pairs@[n].0@);
            assert(wanted[2 * n + 1] == pairs@[n].1@.text);
        }
        i = i + 1;
    }
    assert(text::texts(flat@) =~= wanted);
    flat
}

// --- Execution ----------------------------------------------------------

/// What a command comes to. Most are answered at once; the others leave a step
/// to the server.
pub enum Outcome {
    /// The reply.
    Reply(String),
    /// Write a snapshot, and answer with
    /// [`reply_save`](crate::command::dispatch::reply_save).
    Save,
    /// Answer, and write a snapshot in the background.
    BackgroundSave(String),
    /// Deliver a message, and answer with [`reply_number`] of how many received
    /// it.
    Publish(Delivery),
    /// Add `increment` to `current` (or to 0), and go on with
    /// [`finish_zincrby`](crate::command::dispatch::finish_zincrby).
    AddScores { key: String, current: Option<Score>, increment: Score, member: String },
}

/// What an outcome holds.
pub enum OutcomeView {
    Reply(Seq<char>),
    Save,
    BackgroundSave(Seq<char>),
    Publish { message: Seq<char>, recipients: Seq<u64> },
    AddScores {
        key: Seq<char>,
        current: Option<ScoreView>,
        increment: ScoreView,
        member: Seq<char>,
    },
}

impl View for Outcome {
    type V = OutcomeView;

    open spec fn view(&self) -> OutcomeView {
        match self {
            Outcome::Reply(reply) => OutcomeView::Reply(reply@),
            Outcome::Save => OutcomeView::Save,
            Outcome::BackgroundSave(reply) => OutcomeView::BackgroundSave(reply@),
            Outcome::Publish(delivery) => OutcomeView::Publish {
                message: delivery.message@,
                recipients: delivery.recipients@,
            },
            Outcome::AddScores { key, current, increment, member } => OutcomeView::AddScores {
                key: key@,
                current: match current {
                    Some(score) => Some(score@),
                    None => None,
                },
                increment: increment@,
                member: member@,
            },
        }
    }
}

/// What the commands that are answered at once answer, and the keyspace that
/// they leave. An unordered collection may be listed in any order, and `SPOP`
/// may take any member.
pub open spec fn answers(
    command: CommandView,
    before: DatabaseView,
    now: u64,
    after: StoreView,
    reply: Seq<char>,
) -> bool {
    let store = before.store;
    match command {
        CommandView::SetKey { key, value, ttl } => {
            &&& after == model::after_set(store, key, value, ttl, now)
            &&& reply == ok_reply()
        },
        CommandView::Get { key } => {
            &&& after == keyspace::evicted(store, key, now)
            &&& reply == optional_reply(model::string_at(store, key, now))
        },
        CommandView::Del { keys } => {
            &&& after == store.remove_keys(keys.to_set())
            &&& reply == count_frame(model::deleted_count(store, keys, now))
        },
        CommandView::LPush { key, values } => {
            &&& after == model::after_lpush(store, key, values, now)
            &&& reply == count_reply(model::push_result(store, key, values, now))
        },
        CommandView::RPush { key, values } => {
            &&& after == model::after_rpush(store, key, values, now)
            &&& reply == count_reply(model::push_result(store, key, values, now))
        },
        CommandView::LPop { key } => {
            &&& after == model::after_lpop(store, key, now)
            &&& reply == optional_reply(model::lpop_result(store, key, now))
        },
        CommandView::RPop { key } => {
            &&& after == model::after_rpop(store, key, now)
            &&& reply == optional_reply(model::rpop_result(store, key, now))
        },
        CommandView::LRange { key, start, stop } => {
            &&& after == keyspace::evicted(store, key, now)
            &&& reply == array_reply(
                model::lrange_result(store, key, start as int, stop as int, now),
            )
        },
        CommandView::SAdd { key, values } => {
            &&& after == model::after_sadd(store, key, values, now)
            &&& reply == count_reply(model::sadd_result(store, key, values, now))
        },
        CommandView::SRem { key, values } => {
            &&& after == model::after_srem(store, key, values, now)
            &&& reply == count_reply(model::srem_result(store, key, values, now))
        },
        CommandView::SMembers { key } => {
            &&& after == keyspace::evicted(store, key, now)
            &&& lists_reply(reply, model::set_at(store, key, now))
        },
        CommandView::SIsMember { key, value } => {
            &&& after == keyspace::evicted(store, key, now)
            &&& reply == bool_reply(model::sismember_result(store, key, value, now))
        },
        CommandView::ZAdd { key, members } => {
            &&& after == model::after_zadd(store, key, members, now)
            &&& reply == count_reply(model::zadd_result(store, key, members, now))
        },
        CommandView::ZRem { key, member } => {
            &&& after == model::after_zrem(store, key, member, now)
            &&& reply == bool_reply(model::zrem_result(store, key, member, now))
        },
        CommandView::ZRange { key, start, stop, with_scores } => {
            &&& after == keyspace::evicted(store, key, now)
            &&& reply == if with_scores {
                scored_reply(
                    model::zrange_scored_result(store, key, start as int, stop as int, now),
                )
            } else {
                array_reply(model::zrange_result(store, key, start as int, stop as int, now))
            }
        },
        CommandView::ZScore { key, member } => {
            &&& after == keyspace::evicted(store, key, now)
            &&& reply == score_reply(model::zscore_result(store, key, member, now))
        },
        CommandView::HSet { key, field, value } => {
            &&& after == model::after_hset(store, key, field, value, now)
            &&& reply == bool_reply(model::hset_result(store, key, field, now))
        },
        CommandView::HGet { key, field } => {
            &&& after == keyspace::evicted(store, key, now)
            &&& reply == optional_reply(model::hget_result(store, key, field, now))
        },
        CommandView::HDel { key, field } => {
            &&& after == model::after_hdel(store, key, field, now)
            &&& reply == bool_reply(model::hexists_result(store, key, field, now))
        },
        CommandView::HGetAll { key } => {
            &&& after == keyspace::evicted(store, key, now)
            &&& exists|r: Result<Seq<Seq<char>>, StoreError>|
                #![trigger array_reply(r)]
                model::is_hgetall(store, key, now, r) && reply == array_reply(r)
        },
        CommandView::HKeys { key } => {
            &&& after == keyspace::evicted(store, key, now)
            &&& lists_reply(reply, model::hkeys_result(store, key, now))
        },
        CommandView::HVals { key } => {
            &&& after == keyspace::evicted(store, key, now)
            &&& exists|r: Result<Seq<Seq<char>>, StoreError>|
                #![trigger array_reply(r)]
                model::is_hvals(store, key, now, r) && reply == array_reply(r)
        },
        CommandView::HLen { key } => {
            &&& after == keyspace::evicted(store, key, now)
            &&& reply == count_reply(model::hlen_result(store, key, now))
        },
        CommandView::HExists { key, field } => {
            &&& after == keyspace::evicted(store, key, now)
            &&& reply == bool_reply(model::hexists_result(store, key, field, now))
        },
        CommandView::HIncrBy { key, field, delta } => {
            &&& after == model::after_hincrby(store, key, field, delta as int, now)
            &&& reply == signed_reply(
                model::hincrby_result(store, key, field, delta as int, now),
            )
        },
        CommandView::Exists { keys } => {
            &&& after == store
            &&& reply == count_frame(model::exists_count(store, keys, now))
        },
        CommandView::Type { key } => {
            &&& after == keyspace::evicted(store, key, now)
            &&& reply == resp::simple_frame(
                model::kind_name(keyspace::live_value(store, key, now)),
            )
        },
        CommandView::Keys { pattern } => {
            &&& after == store
            &&& lists_reply(
                reply,
                Ok::<Set<Seq<char>>, StoreError>(model::matching_keys(store, pattern, now)),
            )
        },
        CommandView::Expire { key, seconds } => {
            &&& after == model::after_expire(store, key, seconds as int, now)
            &&& reply == flag_frame(keyspace::is_live(store, key, now))
        },
        CommandView::Ttl { key } => {
            &&& after == keyspace::evicted(store, key, now)
            &&& reply == resp::integer_frame(model::ttl_result(store, key, now))
        },
        CommandView::Persist { key } => {
            &&& after == model::after_persist(store, key, now)
            &&& reply == flag_frame(keyspace::live_deadline(store, key, now).is_some())
        },
        CommandView::Rename { key, new_key } => {
            &&& after == model::after_rename(store, key, new_key, now)
            &&& reply == if keyspace::is_live(store, key, now) {
                ok_reply()
            } else {
                resp::error_frame("ERR no such key"@)
            }
        },
        CommandView::Ping { message } => {
            &&& after == store
            &&& reply == match message {
                Some(payload) => resp::bulk_frame(payload),
                None => resp::simple_frame("PONG"@),
            }
        },
        CommandView::Echo { message } => after == store && reply == resp::bulk_frame(message),
        CommandView::DbSize => {
            &&& after == store
            &&& reply == count_frame(model::live_count(store, now))
        },
        CommandView::FlushAll => after == StoreView::empty() && reply == ok_reply(),
        CommandView::Info => {
            &&& after == store
            &&& reply == resp::bulk_frame(
                db::info_text(
                    now as int / NANOS_PER_SECOND as int,
                    before.clients as int,
                    model::live_count(store, now),
                ),
            )
        },
        CommandView::IncrBy { key, delta } => {
            &&& after == model::after_incr(store, key, delta as int, now)
            &&& reply == signed_reply(model::incr_result(store, key, delta as int, now))
        },
        CommandView::Append { key, value } => {
            &&& after == model::after_append(store, key, value, now)
            &&& reply == count_reply(model::append_result(store, key, value, now))
        },
        CommandView::StrLen { key } => {
            &&& after == keyspace::evicted(store, key, now)
            &&& reply == count_reply(model::strlen_result(store, key, now))
        },
        CommandView::MGet { keys } => {
            &&& after == store
            &&& reply == resp::nullable_frame(model::mget_result(store, keys, now))
        },
        CommandView::MSet { pairs } => {
            &&& after == model::after_mset(store, pairs)
            &&& reply == ok_reply()
        },
        CommandView::SetNx { key, value } => {
            &&& after == model::after_setnx(store, key, value, now)
            &&& reply == flag_frame(!keyspace::is_live(store, key, now))
        },
        CommandView::GetSet { key, value } => {
            &&& after == model::after_getset(store, key, value, now)
            &&& reply == optional_reply(model::string_at(store, key, now))
        },
        CommandView::LLen { key } => {
            &&& after == keyspace::evicted(store, key, now)
            &&& reply == count_reply(model::llen_result(store, key, now))
        },
        CommandView::LIndex { key, index } => {
            &&& after == keyspace::evicted(store, key, now)
            &&& reply == optional_reply(model::lindex_result(store, key, index as int, now))
        },
        CommandView::LSet { key, index, value } => {
            &&& after == model::after_lset(store, key, index as int, value, now)
            &&& reply == status_reply(model::lset_result(store, key, index as int, now))
        },
        CommandView::SCard { key } => {
            &&& after == keyspace::evicted(store, key, now)
            &&& reply == count_reply(model::scard_result(store, key, now))
        },
        CommandView::SPop { key } => exists|r: Result<Option<Seq<char>>, StoreError>|
            #![trigger optional_reply(r)]
            model::pops_member(store, key, now, r, after) && reply == optional_reply(r),
        CommandView::SInter { keys } => {
            &&& after == store
            &&& lists_reply(reply, model::sinter_result(store, keys, now))
        },
        CommandView::SUnion { keys } => {
            &&& after == store
            &&& lists_reply(reply, model::sunion_result(store, keys, now))
        },
        CommandView::SDiff { keys } => {
            &&& after == store
            &&& lists_reply(reply, model::sdiff_result(store, keys, now))
        },
        CommandView::ZCard { key } => {
            &&& after == keyspace::evicted(store, key, now)
            &&& reply == count_reply(model::zcard_result(store, key, now))
        },
        CommandView::ZRank { key, member } => {
            &&& after == keyspace::evicted(store, key, now)
            &&& reply == rank_reply(model::zrank_result(store, key, member, now))
        },
        CommandView::ZRangeByScore { key, min, min_inclusive, max, max_inclusive } => {
            &&& after == keyspace::evicted(store, key, now)
            &&& reply == array_reply(
                model::zrange_by_score_result(
                    store,
                    key,
                    min.bits,
                    min_inclusive,
                    max.bits,
                    max_inclusive,
                    now,
                ),
            )
        },
        CommandView::Save
        | CommandView::BgSave
        | CommandView::Publish { .. }
        | CommandView::ZIncrBy { .. } => false,
    }
}

/// The reply lists the members of `expected` in some order, or refuses as
/// `expected` does.
pub open spec fn lists_reply(
    reply: Seq<char>,
    expected: Result<Set<Seq<char>>, StoreError>,
) -> bool {
    exists|r: Result<Seq<Seq<char>>, StoreError>|
        #![trigger array_reply(r)]
        model::lists_members(r, expected) && reply == array_reply(r)
}

/// What a command comes to, and the database that it leaves.
pub open spec fn executes(
    command: CommandView,
    before: DatabaseView,
    now: u64,
    after: DatabaseView,
    outcome: OutcomeView,
) -> bool {
    match command {
        CommandView::Save => after == before && outcome == OutcomeView::Save,
        CommandView::BgSave => {
            &&& after == before
            &&& outcome == OutcomeView::BackgroundSave(
                resp::simple_frame("Background saving started"@),
            )
        },
        CommandView::Publish { channel, message } => {
            &&& after == before
            &&& outcome matches OutcomeView::Publish { message: encoded, recipients }
                && encoded == pubsub::message_frame(channel, message) && keyed_map::enumerates(
                recipients,
                pubsub::subscribers_of(before.channels, channel),
            )
        },
        CommandView::ZIncrBy { key, increment, member } => {
            &&& after == before.with_store(keyspace::evicted(before.store, key, now))
            &&& outcome == match model::zscore_result(before.store, key, member, now) {
                Ok(current) => OutcomeView::AddScores { key, current, increment, member },
                Err(error) => OutcomeView::Reply(refusal(error)),
            }
        },
        _ => {
            &&& after == before.with_store(after.store)
            &&& outcome matches OutcomeView::Reply(reply) && answers(
                command,
                before,
                now,
                after.store,
                reply,
            )
        },
    }
}

/// Runs a parsed command and encodes its outcome as a RESP reply.
#[verifier::rlimit(60)]
pub fn execute(command: Command, db: &mut Database, now: u64) -> (r: Outcome)
    ensures
        executes(command@, old(db)@, now, final(db)@, r@),
        keyspace::well_formed(old(db)@.store),
{
    db.note_well_formed();
    match command {
        Command::Save => Outcome::Save,
        Command::BgSave => Outcome::BackgroundSave(
            resp::simple_string("Background saving started"),
        ),
        Command::Publish { channel, message } => Outcome::Publish(
            db.publish(channel.as_str(), message.as_str()),
        ),
        Command::ZIncrBy { key, increment, member } => {
            match db.zscore(key.as_str(), member.as_str(), now) {
                Ok(current) => Outcome::AddScores { key, current, increment, member },
                Err(error) => Outcome::Reply(reply_error(error)),
            }
        },
        Command::SetKey { key, value, ttl } => {
            db.set(key, value, ttl, now);
            Outcome::Reply(resp::simple_string("OK"))
        },
        Command::Get { key } => Outcome::Reply(reply_optional(db.get(key.as_str(), now))),
        Command::Del { keys } => Outcome::Reply(reply_number(db.del(keys.as_slice(), now))),
        Command::LPush { key, values } => Outcome::Reply(reply_count(db.lpush(key, values, now))),
        Command::RPush { key, values } => Outcome::Reply(reply_count(db.rpush(key, values, now))),
        Command::LPop { key } => Outcome::Reply(reply_optional(db.lpop(key.as_str(), now))),
        Command::RPop { key } => Outcome::Reply(reply_optional(db.rpop(key.as_str(), now))),
        Command::LRange { key, start, stop } => Outcome::Reply(
            reply_array(db.lrange(key.as_str(), start, stop, now)),
        ),
        Command::SAdd { key, values } => Outcome::Reply(reply_count(db.sadd(key, values, now))),
        Command::SRem { key, values } => Outcome::Reply(
            reply_count(db.srem(key.as_str(), values.as_slice(), now)),
        ),
        Command::SMembers { key } => Outcome::Reply(reply_array(db.smembers(key.as_str(), now))),
        Command::SIsMember { key, value } => Outcome::Reply(
            reply_bool(db.sismember(key.as_str(), value.as_str(), now)),
        ),
        Command::ZAdd { key, members } => Outcome::Reply(reply_count(db.zadd(key, members, now))),
        Command::ZRem { key, member } => Outcome::Reply(
            reply_bool(db.zrem(key.as_str(), member.as_str(), now)),
        ),
        Command::ZRange { key, start, stop, with_scores } => {
            if with_scores {
                match db.zrange_with_scores(key.as_str(), start, stop, now) {
                    Ok(pairs) => Outcome::Reply(resp::array(flatten_scores(&pairs).as_slice())),
                    Err(error) => Outcome::Reply(reply_error(error)),
                }
            } else {
                Outcome::Reply(reply_array(db.zrange(key.as_str(), start, stop, now)))
            }
        },
        Command::ZScore { key, member } => match db.zscore(key.as_str(), member.as_str(), now) {
            Ok(Some(score)) => Outcome::Reply(resp::bulk_string(format_score(&score).as_str())),
            Ok(None) => Outcome::Reply(resp::null()),
            Err(error) => Outcome::Reply(reply_error(error)),
        },
        Command::HSet { key, field, value } => Outcome::Reply(
            reply_bool(db.hset(key, field, value, now)),
        ),
        Command::HGet { key, field } => Outcome::Reply(
            reply_optional(db.hget(key.as_str(), field.as_str(), now)),
        ),
        Command::HDel { key, field } => Outcome::Reply(
            reply_bool(db.hdel(key.as_str(), field.as_str(), now)),
        ),
        Command::HGetAll { key } => Outcome::Reply(reply_array(db.hgetall(key.as_str(), now))),
        Command::HKeys { key } => Outcome::Reply(reply_array(db.hkeys(key.as_str(), now))),
        Command::HVals { key } => Outcome::Reply(reply_array(db.hvals(key.as_str(), now))),
        Command::HLen { key } => Outcome::Reply(reply_count(db.hlen(key.as_str(), now))),
        Command::HExists { key, field } => Outcome::Reply(
            reply_bool(db.hexists(key.as_str(), field.as_str(), now)),
        ),
        Command::HIncrBy { key, field, delta } => Outcome::Reply(
            reply_signed(db.hincrby(key, field, delta, now)),
        ),
        Command::Exists { keys } => Outcome::Reply(
            reply_number(db.exists_count(keys.as_slice(), now)),
        ),
        Command::Type { key } => Outcome::Reply(
            resp::simple_string(db.type_of(key.as_str(), now)),
        ),
        Command::Keys { pattern } => Outcome::Reply(
            reply_array(Ok(db.keys(pattern.as_str(), now))),
        ),
        Command::Expire { key, seconds } => Outcome::Reply(
            reply_flag(db.expire(key.as_str(), seconds, now)),
        ),
        Command::Ttl { key } => Outcome::Reply(resp::integer(db.ttl(key.as_str(), now))),
        Command::Persist { key } => Outcome::Reply(reply_flag(db.persist(key.as_str(), now))),
        Command::Rename { key, new_key } => {
            if db.rename(key.as_str(), new_key, now) {
                Outcome::Reply(resp::simple_string("OK"))
            } else {
                Outcome::Reply(resp::error("ERR no such key"))
            }
        },
        Command::Ping { message } => match message {
            Some(payload) => Outcome::Reply(resp::bulk_string(payload.as_str())),
            None => Outcome::Reply(resp::simple_string("PONG")),
        },
        Command::Echo { message } => Outcome::Reply(resp::bulk_string(message.as_str())),
        Command::DbSize => Outcome::Reply(reply_number(db.dbsize(now))),
        Command::FlushAll => {
            db.flushall();
            Outcome::Reply(resp::simple_string("OK"))
        },
        Command::Info => Outcome::Reply(resp::bulk_string(db.info(now).as_str())),
        Command::IncrBy { key, delta } => Outcome::Reply(reply_signed(db.incr_by(key, delta, now))),
        Command::Append { key, value } => Outcome::Reply(
            reply_count(db.append(key, value.as_str(), now)),
        ),
        Command::StrLen { key } => Outcome::Reply(reply_count(db.strlen(key.as_str(), now))),
        Command::MGet { keys } => Outcome::Reply(
            resp::nullable_array(db.mget(keys.as_slice(), now).as_slice()),
        ),
        Command::MSet { pairs } => {
            db.mset(pairs);
            Outcome::Reply(resp::simple_string("OK"))
        },
        Command::SetNx { key, value } => Outcome::Reply(reply_flag(db.setnx(key, value, now))),
        Command::GetSet { key, value } => Outcome::Reply(
            reply_optional(db.getset(key, value, now)),
        ),
        Command::LLen { key } => Outcome::Reply(reply_count(db.llen(key.as_str(), now))),
        Command::LIndex { key, index } => Outcome::Reply(
            reply_optional(db.lindex(key.as_str(), index, now)),
        ),
        Command::LSet { key, index, value } => Outcome::Reply(
            reply_status(db.lset(key.as_str(), index, value, now)),
        ),
        Command::SCard { key } => Outcome::Reply(reply_count(db.scard(key.as_str(), now))),
        Command::SPop { key } => Outcome::Reply(reply_optional(db.spop(key.as_str(), now))),
        Command::SInter { keys } => Outcome::Reply(reply_array(db.sinter(keys.as_slice(), now))),
        Command::SUnion { keys } => Outcome::Reply(reply_array(db.sunion(keys.as_slice(), now))),
        Command::SDiff { keys } => Outcome::Reply(reply_array(db.sdiff(keys.as_slice(), now))),
        Command::ZCard { key } => Outcome::Reply(reply_count(db.zcard(key.as_str(), now))),
        Command::ZRank { key, member } => match db.zrank(key.as_str(), member.as_str(), now) {
            Ok(Some(rank)) => Outcome::Reply(reply_number(rank)),
            Ok(None) => Outcome::Reply(resp::null()),
            Err(error) => Outcome::Reply(reply_error(error)),
        },
        Command::ZRangeByScore { key, min, min_inclusive, max, max_inclusive } => Outcome::Reply(
            reply_array(
                db.zrange_by_score(key.as_str(), &min, min_inclusive, &max, max_inclusive, now),
            ),
        ),
    }
}

} // verus!
