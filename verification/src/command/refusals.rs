//! What is refused and how, and what is logged.
use vstd::prelude::*;

use crate::command::dispatch;
use crate::command::dispatch::{LogRecordView, StepView};
use crate::command::execute;
use crate::command::execute::OutcomeView;
use crate::command::meaning;
use crate::command::names;
use crate::command::parse;
use crate::command::{CommandErrorView, CommandView};
use crate::database::aof::FsyncPolicy;
use crate::database::db::{DatabaseView, StoreError};
use crate::database::keyspace;
use crate::database::keyspace::{StoreView, ValueView};
use crate::database::model;
use crate::resp;
use crate::score;
use crate::score::ScoreView;
use crate::text;

verus! {

/// A blank line is not answered, and changes nothing.
pub proof fn lemma_blank_line_means(
    readings: Map<Seq<char>, ScoreView>,
    before: DatabaseView,
    now: u64,
    after: DatabaseView,
    step: StepView,
)
    requires
        dispatch::dispatches(Seq::empty(), readings, before, now, after, step),
    ensures
        step.outcome == OutcomeView::Reply(Seq::empty()),
        step.log is None,
        after == before,
{
}

/// A request that makes no command is answered with what is wrong with it, changes
/// nothing, and is not logged.
pub proof fn lemma_malformed_means(
    tokens: Seq<Seq<char>>,
    readings: Map<Seq<char>, ScoreView>,
    before: DatabaseView,
    now: u64,
    after: DatabaseView,
    step: StepView,
    what: Seq<char>,
)
    requires
        dispatch::dispatches(tokens, readings, before, now, after, step),
        tokens.len() > 0,
        parse::parsed(tokens, readings) is Err,
    ensures
        after == before,
        step.log is None,
        parse::parsed(tokens, readings) == Err::<CommandView, CommandErrorView>(
            CommandErrorView::Unknown(what),
        ) ==> step.outcome == OutcomeView::Reply(
            resp::error_frame("ERR unknown command '"@ + what + "'"@),
        ),
        parse::parsed(tokens, readings) == Err::<CommandView, CommandErrorView>(
            CommandErrorView::WrongArity(what),
        ) ==> step.outcome == OutcomeView::Reply(
            resp::error_frame(
                "ERR wrong number of arguments for '"@ + text::lower(what) + "' command"@,
            ),
        ),
        parse::parsed(tokens, readings) == Err::<CommandView, CommandErrorView>(
            CommandErrorView::NotAnInteger(what),
        ) ==> step.outcome == OutcomeView::Reply(
            resp::error_frame("ERR value '"@ + what + "' is not a valid integer"@),
        ),
        parse::parsed(tokens, readings) == Err::<CommandView, CommandErrorView>(
            CommandErrorView::NotAFloat(what),
        ) ==> step.outcome == OutcomeView::Reply(
            resp::error_frame("ERR value '"@ + what + "' is not a valid float"@),
        ),
{
}

/// Where a command takes an integer, a text that is none is what is complained of.
pub proof fn lemma_integers_are_asked_for(
    name: Seq<char>,
    args: Seq<Seq<char>>,
    readings: Map<Seq<char>, ScoreView>,
    at: int,
)
    requires
        ({
            ||| (text::upper(name) == "EXPIRE"@ || text::upper(name) == "INCRBY"@ || text::upper(name)
                == "DECRBY"@ || text::upper(name) == "LINDEX"@) && args.len() == 2 && at == 1
            ||| text::upper(name) == "LSET"@ && args.len() == 3 && at == 1
            ||| text::upper(name) == "HINCRBY"@ && args.len() == 3 && at == 2
            ||| (text::upper(name) == "LRANGE"@ || text::upper(name) == "ZRANGE"@) && args.len() == 3
                && at == 1
            ||| (text::upper(name) == "LRANGE"@ || text::upper(name) == "ZRANGE"@) && args.len() == 3
                && at == 2 && text::parse_signed(args[1]) is Some
        }),
        text::parse_signed(args[at]) is None,
    ensures
        parse::parsed(seq![name] + args, readings) == Err::<CommandView, CommandErrorView>(
            CommandErrorView::NotAnInteger(args[at]),
        ),
{
    names::lemma_names();
    assert((seq![name] + args).skip(1) =~= args);
}

/// A TTL has to be a number of seconds without a sign.
pub proof fn lemma_seconds_are_asked_for(
    name: Seq<char>,
    args: Seq<Seq<char>>,
    readings: Map<Seq<char>, ScoreView>,
)
    requires
        text::upper(name) == "SET"@,
        args.len() == 4,
        text::lower(args[2]) == "ex"@ || text::lower(args[2]) == "exp"@,
        text::parse_unsigned(args[3], u64::MAX as int) is None,
    ensures
        parse::parsed(seq![name] + args, readings) == Err::<CommandView, CommandErrorView>(
            CommandErrorView::NotAnInteger(args[3]),
        ),
{
    names::lemma_named_set();
    names::lemma_option_words();
    assert((seq![name] + args).skip(1) =~= args);
}

/// `DECRBY` of the least integer, which has no opposite, is refused.
pub proof fn lemma_decrby_of_the_least(
    name: Seq<char>,
    key: Seq<char>,
    readings: Map<Seq<char>, ScoreView>,
)
    requires
        text::upper(name) == "DECRBY"@,
    ensures
        parse::parsed(seq![name, key, text::decimal(i64::MIN as int)], readings) == Err::<
            CommandView,
            CommandErrorView,
        >(CommandErrorView::NotAnInteger(text::decimal(i64::MIN as int))),
{
    names::lemma_named_decrby();
    text::lemma_decimal_round_trip(i64::MIN);
    let tokens = seq![name, key, text::decimal(i64::MIN as int)];
    assert(tokens.skip(1) =~= seq![key, text::decimal(i64::MIN as int)]);
}

/// A text that stands for a score: a number.
pub open spec fn is_score(raw: Seq<char>, readings: Map<Seq<char>, ScoreView>) -> bool {
    readings.contains_key(raw) && !score::bits_are_nan(readings[raw].bits)
}

/// `ZADD` complains of the first text that should be a score and is none.
pub proof fn lemma_zadd_asks_for_scores(
    name: Seq<char>,
    key: Seq<char>,
    args: Seq<Seq<char>>,
    readings: Map<Seq<char>, ScoreView>,
    i: int,
)
    requires
        text::upper(name) == "ZADD"@,
        args.len() % 2 == 0,
        0 <= i < args.len(),
        i % 2 == 0,
        !is_score(args[i], readings),
        forall|j: int| 0 <= j < i && j % 2 == 0 ==> is_score(#[trigger] args[j], readings),
    ensures
        parse::parsed(seq![name, key] + args, readings) == Err::<CommandView, CommandErrorView>(
            CommandErrorView::NotAFloat(args[i]),
        ),
{
    names::lemma_named_zadd();
    assert((seq![name, key] + args).skip(1) =~= seq![key] + args);
    assert((seq![key] + args).skip(1) =~= args);
    lemma_first_bad_score(args, readings, i);
}

proof fn lemma_first_bad_score(
    args: Seq<Seq<char>>,
    readings: Map<Seq<char>, ScoreView>,
    i: int,
)
    requires
        args.len() % 2 == 0,
        0 <= i < args.len(),
        i % 2 == 0,
        !is_score(args[i], readings),
        forall|j: int| 0 <= j < i && j % 2 == 0 ==> is_score(#[trigger] args[j], readings),
    ensures
        parse::scored_members(args, readings) == Err::<
            Seq<(ScoreView, Seq<char>)>,
            CommandErrorView,
        >(CommandErrorView::NotAFloat(args[i])),
    decreases args.len(),
{
    let n = args.len() - 2;
    let fewer = args.take(n);
    if i == n {
        lemma_good_scores(fewer, readings);
    } else {
        assert(fewer[i] == args[i]);
        assert forall|j: int| 0 <= j < i && j % 2 == 0 implies is_score(
            #[trigger] fewer[j],
            readings,
        ) by {
            assert(fewer[j] == args[j]);
        }
        lemma_first_bad_score(fewer, readings, i);
    }
}

proof fn lemma_good_scores(args: Seq<Seq<char>>, readings: Map<Seq<char>, ScoreView>)
    requires
        args.len() % 2 == 0,
        forall|j: int| 0 <= j < args.len() && j % 2 == 0 ==> is_score(#[trigger] args[j], readings),
    ensures
        parse::scored_members(args, readings) is Ok,
    decreases args.len(),
{
    if args.len() >= 2 {
        let fewer = args.take(args.len() - 2);
        assert forall|j: int| 0 <= j < fewer.len() && j % 2 == 0 implies is_score(
            #[trigger] fewer[j],
            readings,
        ) by {
            assert(fewer[j] == args[j]);
        }
        lemma_good_scores(fewer, readings);
        assert(is_score(args[args.len() - 2], readings));
    }
}

/// `ZINCRBY` complains of an increment that is no number.
pub proof fn lemma_zincrby_asks_for_a_score(
    name: Seq<char>,
    key: Seq<char>,
    increment: Seq<char>,
    member: Seq<char>,
    readings: Map<Seq<char>, ScoreView>,
)
    requires
        text::upper(name) == "ZINCRBY"@,
        !is_score(increment, readings),
    ensures
        parse::parsed(seq![name, key, increment, member], readings) == Err::<
            CommandView,
            CommandErrorView,
        >(CommandErrorView::NotAFloat(increment)),
{
    names::lemma_named_zincrby();
    let tokens = seq![name, key, increment, member];
    assert(tokens.skip(1) =~= seq![key, increment, member]);
}

/// `ZRANGEBYSCORE` complains of the first bound that is no number.
pub proof fn lemma_zrangebyscore_asks_for_bounds(
    name: Seq<char>,
    key: Seq<char>,
    min: Seq<char>,
    max: Seq<char>,
    readings: Map<Seq<char>, ScoreView>,
)
    requires
        text::upper(name) == "ZRANGEBYSCORE"@,
    ensures
        parse::bound_of(min, readings) is None ==> parse::parsed(
            seq![name, key, min, max],
            readings,
        ) == Err::<CommandView, CommandErrorView>(CommandErrorView::NotAFloat(min)),
        parse::bound_of(min, readings) is Some && parse::bound_of(max, readings) is None
            ==> parse::parsed(seq![name, key, min, max], readings) == Err::<
            CommandView,
            CommandErrorView,
        >(CommandErrorView::NotAFloat(max)),
{
    names::lemma_named_zrangebyscore();
    let tokens = seq![name, key, min, max];
    assert(tokens.skip(1) =~= seq![key, min, max]);
}

/// How a bound is written: a number by itself takes the number in, behind a `(` it
/// leaves it out; `inf`, `+inf` and `-inf`, in any case, are the ends of the scale.
pub proof fn lemma_how_bounds_are_written(
    number: Seq<char>,
    readings: Map<Seq<char>, ScoreView>,
    bracket: bool,
)
    requires
        number.len() == 0 || number[0] != '(',
    ensures
        ({
            let raw = if bracket {
                seq!['('] + number
            } else {
                number
            };
            let written = text::lower(number);
            let bound = parse::bound_of(raw, readings);
            if written == "inf"@ || written == "+inf"@ {
                bound matches Some((end, inclusive)) && end.bits == 0x7FF0_0000_0000_0000u64
                    && inclusive == !bracket
            } else if written == "-inf"@ {
                bound matches Some((end, inclusive)) && end.bits == 0xFFF0_0000_0000_0000u64
                    && inclusive == !bracket
            } else if is_score(written, readings) {
                bound == Some((readings[written], !bracket))
            } else {
                bound is None
            }
        }),
{
    if bracket {
        assert((seq!['('] + number).skip(1) =~= number);
    }
}

/// The key of a command that works on one type of value, and whether the value is of
/// that type.
pub open spec fn works_on(command: CommandView, value: ValueView) -> Option<(Seq<char>, bool)> {
    match command {
        CommandView::Get { key }
        | CommandView::StrLen { key }
        | CommandView::IncrBy { key, .. }
        | CommandView::Append { key, .. }
        | CommandView::GetSet { key, .. } => Some((key, value is Str)),
        CommandView::LPush { key, .. }
        | CommandView::RPush { key, .. }
        | CommandView::LPop { key }
        | CommandView::RPop { key }
        | CommandView::LRange { key, .. }
        | CommandView::LLen { key }
        | CommandView::LIndex { key, .. }
        | CommandView::LSet { key, .. } => Some((key, value is List)),
        CommandView::SAdd { key, .. }
        | CommandView::SRem { key, .. }
        | CommandView::SMembers { key }
        | CommandView::SIsMember { key, .. }
        | CommandView::SCard { key }
        | CommandView::SPop { key } => Some((key, value is StrSet)),
        CommandView::ZAdd { key, .. }
        | CommandView::ZRem { key, .. }
        | CommandView::ZRange { key, .. }
        | CommandView::ZScore { key, .. }
        | CommandView::ZCard { key }
        | CommandView::ZRank { key, .. }
        | CommandView::ZIncrBy { key, .. }
        | CommandView::ZRangeByScore { key, .. } => Some((key, value is SortedSet)),
        CommandView::HSet { key, .. }
        | CommandView::HGet { key, .. }
        | CommandView::HDel { key, .. }
        | CommandView::HGetAll { key }
        | CommandView::HKeys { key }
        | CommandView::HVals { key }
        | CommandView::HLen { key }
        | CommandView::HExists { key, .. }
        | CommandView::HIncrBy { key, .. } => Some((key, value is Hash)),
        _ => None,
    }
}

/// A command for one type of value, on a key that holds another, is refused with
/// `WRONGTYPE`. It changes nothing and is not logged.
pub proof fn lemma_wrong_type_means(
    tokens: Seq<Seq<char>>,
    readings: Map<Seq<char>, ScoreView>,
    before: DatabaseView,
    now: u64,
    after: DatabaseView,
    step: StepView,
    command: CommandView,
    key: Seq<char>,
)
    requires
        dispatch::dispatches(tokens, readings, before, now, after, step),
        tokens.len() > 0,
        parse::parsed(tokens, readings) == Ok::<CommandView, CommandErrorView>(command),
        !meaning::lacks(before.store, key, now),
        works_on(command, before.store[key].value) == Some((key, false)),
    ensures
        step.outcome == OutcomeView::Reply(
            resp::error_frame(
                "WRONGTYPE Operation against a key holding the wrong kind of value"@,
            ),
        ),
        after == before,
        step.log is None,
{
    let store = before.store;
    assert(keyspace::evicted(store, key, now) == store);
    let reply = step.outcome->Reply_0;
    match command {
        CommandView::SPop { .. } => {},
        CommandView::ZIncrBy { .. } => {
            assert(dispatch::is_error(reply));
        },
        _ => {
            assert(execute::answers(command, before, now, after.store, reply));
            lemma_wrong_type_answer(command, before, now, after.store, reply, key);
            assert(dispatch::is_error(reply));
        },
    }
}

proof fn lemma_wrong_type_answer(
    command: CommandView,
    before: DatabaseView,
    now: u64,
    after: StoreView,
    reply: Seq<char>,
    key: Seq<char>,
)
    requires
        execute::answers(command, before, now, after, reply),
        !meaning::lacks(before.store, key, now),
        works_on(command, before.store[key].value) == Some((key, false)),
        !(command is SPop),
    ensures
        reply == execute::refusal(StoreError::WrongType),
        after == before.store,
{
    let store = before.store;
    assert(keyspace::live_value(store, key, now) == Some(store[key].value));
    assert(keyspace::evicted(store, key, now) == store);
}

/// `SINTER`, `SUNION` and `SDIFF` are refused where one of the keys holds something
/// other than a set.
pub proof fn lemma_sets_are_asked_for(
    command: CommandView,
    keys: Seq<Seq<char>>,
    before: DatabaseView,
    now: u64,
    after: StoreView,
    reply: Seq<char>,
    i: int,
)
    requires
        execute::answers(command, before, now, after, reply),
        command == (CommandView::SInter { keys }) || command == (CommandView::SUnion { keys })
            || command == (CommandView::SDiff { keys }),
        0 <= i < keys.len(),
        !meaning::lacks(before.store, keys[i], now),
        !(before.store[keys[i]].value is StrSet),
    ensures
        reply == resp::error_frame(
            "WRONGTYPE Operation against a key holding the wrong kind of value"@,
        ),
        after == before.store,
{
    assert(model::set_at(before.store, keys[i], now) is Err);
}

/// The commands that are logged.
pub open spec fn is_logged(command: CommandView) -> bool {
    ||| command is SetKey || command is SetNx || command is GetSet || command is MSet
    ||| command is IncrBy || command is Append
    ||| command is LPush || command is RPush || command is LPop || command is RPop
    ||| command is LSet
    ||| command is SAdd || command is SRem
    ||| command is ZAdd || command is ZRem || command is ZIncrBy
    ||| command is HSet || command is HDel || command is HIncrBy
    ||| command is Del || command is Expire || command is Persist || command is Rename
    ||| command is FlushAll
}

/// A write that has succeeded is logged as it came, if there is a log and it is not
/// being replayed; it is flushed at once under the policy `always`. Nothing else is
/// logged.
pub proof fn lemma_what_is_logged(
    tokens: Seq<Seq<char>>,
    readings: Map<Seq<char>, ScoreView>,
    before: DatabaseView,
    now: u64,
    after: DatabaseView,
    step: StepView,
    command: CommandView,
)
    requires
        dispatch::dispatches(tokens, readings, before, now, after, step),
        tokens.len() > 0,
        parse::parsed(tokens, readings) == Ok::<CommandView, CommandErrorView>(command),
        !(command is SPop),
    ensures
        ({
            let succeeded = step.outcome matches OutcomeView::Reply(reply) && !(reply.len() > 0
                && reply[0] == '-');
            let logs = before.aof is Some && !before.replaying;
            &&& step.log == if is_logged(command) && succeeded && logs {
                Some(
                    LogRecordView {
                        payload: resp::array_frame(tokens),
                        sync: before.aof == Some(FsyncPolicy::Always),
                    },
                )
            } else {
                None
            }
            &&& after.aof == before.aof && after.replaying == before.replaying
            &&& after.clients == before.clients && after.channels == before.channels
            &&& after.snapshot_path == before.snapshot_path
            &&& after.next_subscriber_id == before.next_subscriber_id
        }),
{
}

} // verus!
