//! Parsing: from tokens to a typed command.
use vstd::prelude::*;
use vstd::slice::*;

use crate::command::{Command, CommandError, CommandErrorView, CommandView};
use crate::database::data_structure;
use crate::database::model;
use crate::score;
use crate::score::{FloatReadings, Score, ScoreView, INFINITY_BITS, NEG_INFINITY_BITS};
use crate::text;

verus! {

broadcast use text::lemma_texts_push;

/// The commands by name.
#[derive(Clone, Copy)]
pub enum Verb {
    SetKey,
    Get,
    Del,
    LPush,
    RPush,
    LPop,
    RPop,
    LRange,
    SAdd,
    SRem,
    SMembers,
    SIsMember,
    ZAdd,
    ZRem,
    ZRange,
    ZScore,
    HSet,
    HGet,
    HDel,
    HGetAll,
    HKeys,
    HVals,
    HLen,
    HExists,
    HIncrBy,
    Exists,
    Type,
    Keys,
    Expire,
    Ttl,
    Persist,
    Rename,
    Ping,
    Echo,
    DbSize,
    FlushAll,
    Info,
    Save,
    BgSave,
    Publish,
    Incr,
    Decr,
    IncrBy,
    DecrBy,
    Append,
    StrLen,
    MGet,
    MSet,
    SetNx,
    GetSet,
    LLen,
    LIndex,
    LSet,
    SCard,
    SPop,
    SInter,
    SUnion,
    SDiff,
    ZCard,
    ZRank,
    ZIncrBy,
    ZRangeByScore,
}

/// The name of a command, in upper case.
pub open spec fn verb_name(verb: Verb) -> Seq<char> {
    match verb {
        Verb::SetKey => "SET"@,
        Verb::Get => "GET"@,
        Verb::Del => "DEL"@,
        Verb::LPush => "LPUSH"@,
        Verb::RPush => "RPUSH"@,
        Verb::LPop => "LPOP"@,
        Verb::RPop => "RPOP"@,
        Verb::LRange => "LRANGE"@,
        Verb::SAdd => "SADD"@,
        Verb::SRem => "SREM"@,
        Verb::SMembers => "SMEMBERS"@,
        Verb::SIsMember => "SISMEMBER"@,
        Verb::ZAdd => "ZADD"@,
        Verb::ZRem => "ZREM"@,
        Verb::ZRange => "ZRANGE"@,
        Verb::ZScore => "ZSCORE"@,
        Verb::HSet => "HSET"@,
        Verb::HGet => "HGET"@,
        Verb::HDel => "HDEL"@,
        Verb::HGetAll => "HGETALL"@,
        Verb::HKeys => "HKEYS"@,
        Verb::HVals => "HVALS"@,
        Verb::HLen => "HLEN"@,
        Verb::HExists => "HEXISTS"@,
        Verb::HIncrBy => "HINCRBY"@,
        Verb::Exists => "EXISTS"@,
        Verb::Type => "TYPE"@,
        Verb::Keys => "KEYS"@,
        Verb::Expire => "EXPIRE"@,
        Verb::Ttl => "TTL"@,
        Verb::Persist => "PERSIST"@,
        Verb::Rename => "RENAME"@,
        Verb::Ping => "PING"@,
        Verb::Echo => "ECHO"@,
        Verb::DbSize => "DBSIZE"@,
        Verb::FlushAll => "FLUSHALL"@,
        Verb::Info => "INFO"@,
        Verb::Save => "SAVE"@,
        Verb::BgSave => "BGSAVE"@,
        Verb::Publish => "PUBLISH"@,
        Verb::Incr => "INCR"@,
        Verb::Decr => "DECR"@,
        Verb::IncrBy => "INCRBY"@,
        Verb::DecrBy => "DECRBY"@,
        Verb::Append => "APPEND"@,
        Verb::StrLen => "STRLEN"@,
        Verb::MGet => "MGET"@,
        Verb::MSet => "MSET"@,
        Verb::SetNx => "SETNX"@,
        Verb::GetSet => "GETSET"@,
        Verb::LLen => "LLEN"@,
        Verb::LIndex => "LINDEX"@,
        Verb::LSet => "LSET"@,
        Verb::SCard => "SCARD"@,
        Verb::SPop => "SPOP"@,
        Verb::SInter => "SINTER"@,
        Verb::SUnion => "SUNION"@,
        Verb::SDiff => "SDIFF"@,
        Verb::ZCard => "ZCARD"@,
        Verb::ZRank => "ZRANK"@,
        Verb::ZIncrBy => "ZINCRBY"@,
        Verb::ZRangeByScore => "ZRANGEBYSCORE"@,
    }
}

/// The command that an upper-case name stands for.
#[verifier::opaque]
pub open spec fn verb_named(name: Seq<char>) -> Option<Verb> {
    if name == "SET"@ {
        Some(Verb::SetKey)
    } else if name == "GET"@ {
        Some(Verb::Get)
    } else if name == "DEL"@ {
        Some(Verb::Del)
    } else if name == "LPUSH"@ {
        Some(Verb::LPush)
    } else if name == "RPUSH"@ {
        Some(Verb::RPush)
    } else if name == "LPOP"@ {
        Some(Verb::LPop)
    } else if name == "RPOP"@ {
        Some(Verb::RPop)
    } else if name == "LRANGE"@ {
        Some(Verb::LRange)
    } else if name == "SADD"@ {
        Some(Verb::SAdd)
    } else if name == "SREM"@ {
        Some(Verb::SRem)
    } else if name == "SMEMBERS"@ {
        Some(Verb::SMembers)
    } else if name == "SISMEMBER"@ {
        Some(Verb::SIsMember)
    } else if name == "ZADD"@ {
        Some(Verb::ZAdd)
    } else if name == "ZREM"@ {
        Some(Verb::ZRem)
    } else if name == "ZRANGE"@ {
        Some(Verb::ZRange)
    } else if name == "ZSCORE"@ {
        Some(Verb::ZScore)
    } else if name == "HSET"@ {
        Some(Verb::HSet)
    } else if name == "HGET"@ {
        Some(Verb::HGet)
    } else if name == "HDEL"@ {
        Some(Verb::HDel)
    } else if name == "HGETALL"@ {
        Some(Verb::HGetAll)
    } else if name == "HKEYS"@ {
        Some(Verb::HKeys)
    } else if name == "HVALS"@ {
        Some(Verb::HVals)
    } else if name == "HLEN"@ {
        Some(Verb::HLen)
    } else if name == "HEXISTS"@ {
        Some(Verb::HExists)
    } else if name == "HINCRBY"@ {
        Some(Verb::HIncrBy)
    } else if name == "EXISTS"@ {
        Some(Verb::Exists)
    } else if name == "TYPE"@ {
        Some(Verb::Type)
    } else if name == "KEYS"@ {
        Some(Verb::Keys)
    } else if name == "EXPIRE"@ {
        Some(Verb::Expire)
    } else if name == "TTL"@ {
        Some(Verb::Ttl)
    } else if name == "PERSIST"@ {
        Some(Verb::Persist)
    } else if name == "RENAME"@ {
        Some(Verb::Rename)
    } else if name == "PING"@ {
        Some(Verb::Ping)
    } else if name == "ECHO"@ {
        Some(Verb::Echo)
    } else if name == "DBSIZE"@ {
        Some(Verb::DbSize)
    } else if name == "FLUSHALL"@ {
        Some(Verb::FlushAll)
    } else if name == "INFO"@ {
        Some(Verb::Info)
    } else if name == "SAVE"@ {
        Some(Verb::Save)
    } else if name == "BGSAVE"@ {
        Some(Verb::BgSave)
    } else if name == "PUBLISH"@ {
        Some(Verb::Publish)
    } else if name == "INCR"@ {
        Some(Verb::Incr)
    } else if name == "DECR"@ {
        Some(Verb::Decr)
    } else if name == "INCRBY"@ {
        Some(Verb::IncrBy)
    } else if name == "DECRBY"@ {
        Some(Verb::DecrBy)
    } else if name == "APPEND"@ {
        Some(Verb::Append)
    } else if name == "STRLEN"@ {
        Some(Verb::StrLen)
    } else if name == "MGET"@ {
        Some(Verb::MGet)
    } else if name == "MSET"@ {
        Some(Verb::MSet)
    } else if name == "SETNX"@ {
        Some(Verb::SetNx)
    } else if name == "GETSET"@ {
        Some(Verb::GetSet)
    } else if name == "LLEN"@ {
        Some(Verb::LLen)
    } else if name == "LINDEX"@ {
        Some(Verb::LIndex)
    } else if name == "LSET"@ {
        Some(Verb::LSet)
    } else if name == "SCARD"@ {
        Some(Verb::SCard)
    } else if name == "SPOP"@ {
        Some(Verb::SPop)
    } else if name == "SINTER"@ {
        Some(Verb::SInter)
    } else if name == "SUNION"@ {
        Some(Verb::SUnion)
    } else if name == "SDIFF"@ {
        Some(Verb::SDiff)
    } else if name == "ZCARD"@ {
        Some(Verb::ZCard)
    } else if name == "ZRANK"@ {
        Some(Verb::ZRank)
    } else if name == "ZINCRBY"@ {
        Some(Verb::ZIncrBy)
    } else if name == "ZRANGEBYSCORE"@ {
        Some(Verb::ZRangeByScore)
    } else {
        None
    }
}

/// Whether a command takes these arguments, going by their number and by the
/// option words among them.
pub open spec fn takes(verb: Verb, args: Seq<Seq<char>>) -> bool {
    match verb {
        Verb::Get | Verb::LPop | Verb::RPop | Verb::SMembers | Verb::HGetAll | Verb::HKeys
        | Verb::HVals | Verb::HLen | Verb::Type | Verb::Keys | Verb::Ttl | Verb::Persist
        | Verb::Echo | Verb::Incr | Verb::Decr | Verb::StrLen | Verb::LLen | Verb::SCard
        | Verb::SPop | Verb::ZCard => args.len() == 1,
        Verb::SIsMember | Verb::ZRem | Verb::ZScore | Verb::HGet | Verb::HDel | Verb::HExists
        | Verb::Rename | Verb::Publish | Verb::Append | Verb::SetNx | Verb::GetSet | Verb::ZRank =>
            args.len() == 2,
        Verb::Del | Verb::Exists | Verb::MGet | Verb::SInter | Verb::SUnion | Verb::SDiff =>
            args.len() >= 1,
        Verb::LPush | Verb::RPush | Verb::SAdd | Verb::SRem => args.len() >= 2,
        Verb::SetKey => args.len() == 2 || args.len() == 4 && (text::lower(args[2]) == text::lower(
            "EX"@,
        ) || text::lower(args[2]) == text::lower("EXP"@)),
        Verb::ZAdd => args.len() >= 3 && args.len() % 2 == 1,
        Verb::ZRange => args.len() == 3 || args.len() == 4 && text::lower(args[3]) == text::lower(
            "WITHSCORES"@,
        ),
        Verb::LRange | Verb::HSet | Verb::HIncrBy | Verb::LSet | Verb::ZIncrBy
        | Verb::ZRangeByScore => args.len() == 3,
        Verb::Expire | Verb::IncrBy | Verb::DecrBy | Verb::LIndex => args.len() == 2,
        Verb::Ping => args.len() <= 1,
        Verb::DbSize | Verb::FlushAll => args.len() == 0,
        Verb::MSet => args.len() > 0 && args.len() % 2 == 0,
        Verb::Info | Verb::Save | Verb::BgSave => true,
    }
}

/// The score that a text stands for. What is not a number is not a score.
pub open spec fn score_of(raw: Seq<char>, readings: Map<Seq<char>, ScoreView>) -> Option<
    ScoreView,
> {
    if readings.contains_key(raw) && !score::bits_are_nan(readings[raw].bits) {
        Some(readings[raw])
    } else {
        None
    }
}

/// The number in a `ZRANGEBYSCORE` bound: what follows a leading `(`, in lower
/// case.
pub open spec fn bound_number(raw: Seq<char>) -> Seq<char> {
    if raw.len() > 0 && raw[0] == '(' {
        text::lower(raw.skip(1))
    } else {
        text::lower(raw)
    }
}

/// A `ZRANGEBYSCORE` bound: its score, and whether the score itself is within.
pub open spec fn bound_of(raw: Seq<char>, readings: Map<Seq<char>, ScoreView>) -> Option<
    (ScoreView, bool),
> {
    let number = bound_number(raw);
    let inclusive = !(raw.len() > 0 && raw[0] == '(');
    if number == "+inf"@ || number == "inf"@ {
        Some((ScoreView { bits: INFINITY_BITS, text: "inf"@ }, inclusive))
    } else if number == "-inf"@ {
        Some((ScoreView { bits: NEG_INFINITY_BITS, text: "-inf"@ }, inclusive))
    } else {
        match score_of(number, readings) {
            Some(score) => Some((score, inclusive)),
            None => None,
        }
    }
}

/// Alternating scores and members as pairs, up to the first text that is no
/// score.
pub open spec fn scored_members(
    args: Seq<Seq<char>>,
    readings: Map<Seq<char>, ScoreView>,
) -> Result<Seq<(ScoreView, Seq<char>)>, CommandErrorView>
    decreases args.len(),
{
    if args.len() < 2 {
        Ok(Seq::empty())
    } else {
        let last = args.len() - 2;
        match scored_members(args.take(last), readings) {
            Ok(members) => match score_of(args[last], readings) {
                Some(score) => Ok(members.push((score, args[last + 1]))),
                None => Err(CommandErrorView::NotAFloat(args[last])),
            },
            Err(error) => Err(error),
        }
    }
}

/// Alternating keys and values as pairs.
pub open spec fn paired(args: Seq<Seq<char>>) -> Seq<(Seq<char>, Seq<char>)> {
    Seq::new(args.len() / 2, |i: int| (args[2 * i], args[2 * i + 1]))
}

/// The command that a verb makes of arguments that it takes.
pub open spec fn command_of(
    verb: Verb,
    args: Seq<Seq<char>>,
    readings: Map<Seq<char>, ScoreView>,
) -> Result<CommandView, CommandErrorView> {
    match verb {
        Verb::SetKey => if args.len() == 2 {
            Ok(CommandView::SetKey { key: args[0], value: args[1], ttl: None })
        } else {
            match text::parse_unsigned(args[3], u64::MAX as int) {
                Some(seconds) => Ok(
                    CommandView::SetKey {
                        key: args[0],
                        value: args[1],
                        ttl: Some(seconds as u64),
                    },
                ),
                None => Err(CommandErrorView::NotAnInteger(args[3])),
            }
        },
        Verb::Get => Ok(CommandView::Get { key: args[0] }),
        Verb::Del => Ok(CommandView::Del { keys: args }),
        Verb::LPush => Ok(CommandView::LPush { key: args[0], values: args.skip(1) }),
        Verb::RPush => Ok(CommandView::RPush { key: args[0], values: args.skip(1) }),
        Verb::LPop => Ok(CommandView::LPop { key: args[0] }),
        Verb::RPop => Ok(CommandView::RPop { key: args[0] }),
        Verb::LRange => match (text::parse_signed(args[1]), text::parse_signed(args[2])) {
            (Some(start), Some(stop)) => Ok(
                CommandView::LRange { key: args[0], start: start as i64, stop: stop as i64 },
            ),
            (None, _) => Err(CommandErrorView::NotAnInteger(args[1])),
            (_, None) => Err(CommandErrorView::NotAnInteger(args[2])),
        },
        Verb::SAdd => Ok(CommandView::SAdd { key: args[0], values: args.skip(1) }),
        Verb::SRem => Ok(CommandView::SRem { key: args[0], values: args.skip(1) }),
        Verb::SMembers => Ok(CommandView::SMembers { key: args[0] }),
        Verb::SIsMember => Ok(CommandView::SIsMember { key: args[0], value: args[1] }),
        Verb::ZAdd => match scored_members(args.skip(1), readings) {
            Ok(members) => Ok(CommandView::ZAdd { key: args[0], members }),
            Err(error) => Err(error),
        },
        Verb::ZRem => Ok(CommandView::ZRem { key: args[0], member: args[1] }),
        Verb::ZRange => match (text::parse_signed(args[1]), text::parse_signed(args[2])) {
            (Some(start), Some(stop)) => Ok(
                CommandView::ZRange {
                    key: args[0],
                    start: start as i64,
                    stop: stop as i64,
                    with_scores: args.len() == 4,
                },
            ),
            (None, _) => Err(CommandErrorView::NotAnInteger(args[1])),
            (_, None) => Err(CommandErrorView::NotAnInteger(args[2])),
        },
        Verb::ZScore => Ok(CommandView::ZScore { key: args[0], member: args[1] }),
        Verb::HSet => Ok(
            CommandView::HSet { key: args[0], field: args[1], value: args[2] },
        ),
        Verb::HGet => Ok(CommandView::HGet { key: args[0], field: args[1] }),
        Verb::HDel => Ok(CommandView::HDel { key: args[0], field: args[1] }),
        Verb::HGetAll => Ok(CommandView::HGetAll { key: args[0] }),
        Verb::HKeys => Ok(CommandView::HKeys { key: args[0] }),
        Verb::HVals => Ok(CommandView::HVals { key: args[0] }),
        Verb::HLen => Ok(CommandView::HLen { key: args[0] }),
        Verb::HExists => Ok(CommandView::HExists { key: args[0], field: args[1] }),
        Verb::HIncrBy => match text::parse_signed(args[2]) {
            Some(number) => Ok(
                CommandView::HIncrBy { key: args[0], field: args[1], delta: number as i64 },
            ),
            None => Err(CommandErrorView::NotAnInteger(args[2])),
        },
        Verb::Exists => Ok(CommandView::Exists { keys: args }),
        Verb::Type => Ok(CommandView::Type { key: args[0] }),
        Verb::Keys => Ok(CommandView::Keys { pattern: args[0] }),
        Verb::Expire => match text::parse_signed(args[1]) {
            Some(number) => Ok(
                CommandView::Expire { key: args[0], seconds: number as i64 },
            ),
            None => Err(CommandErrorView::NotAnInteger(args[1])),
        },
        Verb::Ttl => Ok(CommandView::Ttl { key: args[0] }),
        Verb::Persist => Ok(CommandView::Persist { key: args[0] }),
        Verb::Rename => Ok(CommandView::Rename { key: args[0], new_key: args[1] }),
        Verb::Ping => Ok(
            CommandView::Ping {
                message: if args.len() == 0 {
                    None
                } else {
                    Some(args[0])
                },
            },
        ),
        Verb::Echo => Ok(CommandView::Echo { message: args[0] }),
        Verb::DbSize => Ok(CommandView::DbSize),
        Verb::FlushAll => Ok(CommandView::FlushAll),
        Verb::Info => Ok(CommandView::Info),
        Verb::Save => Ok(CommandView::Save),
        Verb::BgSave => Ok(CommandView::BgSave),
        Verb::Publish => Ok(CommandView::Publish { channel: args[0], message: args[1] }),
        Verb::Incr => Ok(CommandView::IncrBy { key: args[0], delta: 1 }),
        Verb::Decr => Ok(CommandView::IncrBy { key: args[0], delta: (-1) as i64 }),
        Verb::IncrBy => match text::parse_signed(args[1]) {
            Some(number) => Ok(
                CommandView::IncrBy { key: args[0], delta: number as i64 },
            ),
            None => Err(CommandErrorView::NotAnInteger(args[1])),
        },
        Verb::DecrBy => match text::parse_signed(args[1]) {
            Some(number) => if number == i64::MIN {
                Err(CommandErrorView::NotAnInteger(text::decimal(number)))
            } else {
                Ok(CommandView::IncrBy { key: args[0], delta: (-number) as i64 })
            },
            None => Err(CommandErrorView::NotAnInteger(args[1])),
        },
        Verb::Append => Ok(CommandView::Append { key: args[0], value: args[1] }),
        Verb::StrLen => Ok(CommandView::StrLen { key: args[0] }),
        Verb::MGet => Ok(CommandView::MGet { keys: args }),
        Verb::MSet => Ok(CommandView::MSet { pairs: paired(args) }),
        Verb::SetNx => Ok(CommandView::SetNx { key: args[0], value: args[1] }),
        Verb::GetSet => Ok(CommandView::GetSet { key: args[0], value: args[1] }),
        Verb::LLen => Ok(CommandView::LLen { key: args[0] }),
        Verb::LIndex => match text::parse_signed(args[1]) {
            Some(number) => Ok(
                CommandView::LIndex { key: args[0], index: number as i64 },
            ),
            None => Err(CommandErrorView::NotAnInteger(args[1])),
        },
        Verb::LSet => match text::parse_signed(args[1]) {
            Some(number) => Ok(
                CommandView::LSet { key: args[0], index: number as i64, value: args[2] },
            ),
            None => Err(CommandErrorView::NotAnInteger(args[1])),
        },
        Verb::SCard => Ok(CommandView::SCard { key: args[0] }),
        Verb::SPop => Ok(CommandView::SPop { key: args[0] }),
        Verb::SInter => Ok(CommandView::SInter { keys: args }),
        Verb::SUnion => Ok(CommandView::SUnion { keys: args }),
        Verb::SDiff => Ok(CommandView::SDiff { keys: args }),
        Verb::ZCard => Ok(CommandView::ZCard { key: args[0] }),
        Verb::ZRank => Ok(CommandView::ZRank { key: args[0], member: args[1] }),
        Verb::ZIncrBy => match score_of(args[1], readings) {
            Some(increment) => Ok(
                CommandView::ZIncrBy { key: args[0], increment, member: args[2] },
            ),
            None => Err(CommandErrorView::NotAFloat(args[1])),
        },
        Verb::ZRangeByScore => match (bound_of(args[1], readings), bound_of(args[2], readings)) {
            (Some(min), Some(max)) => Ok(
                CommandView::ZRangeByScore {
                    key: args[0],
                    min: min.0,
                    min_inclusive: min.1,
                    max: max.0,
                    max_inclusive: max.1,
                },
            ),
            (None, _) => Err(CommandErrorView::NotAFloat(args[1])),
            (_, None) => Err(CommandErrorView::NotAFloat(args[2])),
        },
    }
}

/// The command that a verb and its arguments make.
pub open spec fn parsed_args(
    verb: Verb,
    args: Seq<Seq<char>>,
    readings: Map<Seq<char>, ScoreView>,
) -> Result<CommandView, CommandErrorView> {
    if takes(verb, args) {
        command_of(verb, args, readings)
    } else {
        Err(CommandErrorView::WrongArity(verb_name(verb)))
    }
}

/// The command that a tokenized request makes, or what is wrong with it.
pub open spec fn parsed(tokens: Seq<Seq<char>>, readings: Map<Seq<char>, ScoreView>) -> Result<
    CommandView,
    CommandErrorView,
> {
    if tokens.len() == 0 {
        Err(CommandErrorView::Empty)
    } else {
        match verb_named(text::upper(tokens[0])) {
            Some(verb) => parsed_args(verb, tokens.skip(1), readings),
            None => Err(CommandErrorView::Unknown(tokens[0])),
        }
    }
}

/// A parse result by its views.
pub open spec fn parse_result(r: Result<Command, CommandError>) -> Result<
    CommandView,
    CommandErrorView,
> {
    match r {
        Ok(command) => Ok(command@),
        Err(error) => Err(error@),
    }
}

impl Verb {
    /// The command that an upper-case name stands for.
    pub fn named(name: &str) -> (r: Option<Verb>)
        ensures
            r == verb_named(name@),
    {
        proof {
            reveal(verb_named);
        }
        if text::text_eq(name, "SET") {
            return Some(Verb::SetKey);
        }
        if text::text_eq(name, "GET") {
            return Some(Verb::Get);
        }
        if text::text_eq(name, "DEL") {
            return Some(Verb::Del);
        }
        if text::text_eq(name, "LPUSH") {
            return Some(Verb::LPush);
        }
        if text::text_eq(name, "RPUSH") {
            return Some(Verb::RPush);
        }
        if text::text_eq(name, "LPOP") {
            return Some(Verb::LPop);
        }
        if text::text_eq(name, "RPOP") {
            return Some(Verb::RPop);
        }
        if text::text_eq(name, "LRANGE") {
            return Some(Verb::LRange);
        }
        if text::text_eq(name, "SADD") {
            return Some(Verb::SAdd);
        }
        if text::text_eq(name, "SREM") {
            return Some(Verb::SRem);
        }
        if text::text_eq(name, "SMEMBERS") {
            return Some(Verb::SMembers);
        }
        if text::text_eq(name, "SISMEMBER") {
            return Some(Verb::SIsMember);
        }
        if text::text_eq(name, "ZADD") {
            return Some(Verb::ZAdd);
        }
        if text::text_eq(name, "ZREM") {
            return Some(Verb::ZRem);
        }
        if text::text_eq(name, "ZRANGE") {
            return Some(Verb::ZRange);
        }
        if text::text_eq(name, "ZSCORE") {
            return Some(Verb::ZScore);
        }
        if text::text_eq(name, "HSET") {
            return Some(Verb::HSet);
        }
        if text::text_eq(name, "HGET") {
            return Some(Verb::HGet);
        }
        if text::text_eq(name, "HDEL") {
            return Some(Verb::HDel);
        }
        if text::text_eq(name, "HGETALL") {
            return Some(Verb::HGetAll);
        }
        if text::text_eq(name, "HKEYS") {
            return Some(Verb::HKeys);
        }
        if text::text_eq(name, "HVALS") {
            return Some(Verb::HVals);
        }
        if text::text_eq(name, "HLEN") {
            return Some(Verb::HLen);
        }
        if text::text_eq(name, "HEXISTS") {
            return Some(Verb::HExists);
        }
        if text::text_eq(name, "HINCRBY") {
            return Some(Verb::HIncrBy);
        }
        if text::text_eq(name, "EXISTS") {
            return Some(Verb::Exists);
        }
        if text::text_eq(name, "TYPE") {
            return Some(Verb::Type);
        }
        if text::text_eq(name, "KEYS") {
            return Some(Verb::Keys);
        }
        if text::text_eq(name, "EXPIRE") {
            return Some(Verb::Expire);
        }
        if text::text_eq(name, "TTL") {
            return Some(Verb::Ttl);
        }
        if text::text_eq(name, "PERSIST") {
            return Some(Verb::Persist);
        }
        if text::text_eq(name, "RENAME") {
            return Some(Verb::Rename);
        }
        if text::text_eq(name, "PING") {
            return Some(Verb::Ping);
        }
        if text::text_eq(name, "ECHO") {
            return Some(Verb::Echo);
        }
        if text::text_eq(name, "DBSIZE") {
            return Some(Verb::DbSize);
        }
        if text::text_eq(name, "FLUSHALL") {
            return Some(Verb::FlushAll);
        }
        if text::text_eq(name, "INFO") {
            return Some(Verb::Info);
        }
        if text::text_eq(name, "SAVE") {
            return Some(Verb::Save);
        }
        if text::text_eq(name, "BGSAVE") {
            return Some(Verb::BgSave);
        }
        if text::text_eq(name, "PUBLISH") {
            return Some(Verb::Publish);
        }
        if text::text_eq(name, "INCR") {
            return Some(Verb::Incr);
        }
        if text::text_eq(name, "DECR") {
            return Some(Verb::Decr);
        }
        if text::text_eq(name, "INCRBY") {
            return Some(Verb::IncrBy);
        }
        if text::text_eq(name, "DECRBY") {
            return Some(Verb::DecrBy);
        }
        if text::text_eq(name, "APPEND") {
            return Some(Verb::Append);
        }
        if text::text_eq(name, "STRLEN") {
            return Some(Verb::StrLen);
        }
        if text::text_eq(name, "MGET") {
            return Some(Verb::MGet);
        }
        if text::text_eq(name, "MSET") {
            return Some(Verb::MSet);
        }
        if text::text_eq(name, "SETNX") {
            return Some(Verb::SetNx);
        }
        if text::text_eq(name, "GETSET") {
            return Some(Verb::GetSet);
        }
        if text::text_eq(name, "LLEN") {
            return Some(Verb::LLen);
        }
        if text::text_eq(name, "LINDEX") {
            return Some(Verb::LIndex);
        }
        if text::text_eq(name, "LSET") {
            return Some(Verb::LSet);
        }
        if text::text_eq(name, "SCARD") {
            return Some(Verb::SCard);
        }
        if text::text_eq(name, "SPOP") {
            return Some(Verb::SPop);
        }
        if text::text_eq(name, "SINTER") {
            return Some(Verb::SInter);
        }
        if text::text_eq(name, "SUNION") {
            return Some(Verb::SUnion);
        }
        if text::text_eq(name, "SDIFF") {
            return Some(Verb::SDiff);
        }
        if text::text_eq(name, "ZCARD") {
            return Some(Verb::ZCard);
        }
        if text::text_eq(name, "ZRANK") {
            return Some(Verb::ZRank);
        }
        if text::text_eq(name, "ZINCRBY") {
            return Some(Verb::ZIncrBy);
        }
        if text::text_eq(name, "ZRANGEBYSCORE") {
            return Some(Verb::ZRangeByScore);
        }
        None
    }
}

impl Command {
    /// Parses a tokenized request (command name followed by its arguments).
    /// Command names are case-insensitive. `readings` gives the scores that the
    /// texts listed by [`float_texts`] stand for.
    pub fn parse(tokens: &[String], readings: &FloatReadings) -> (r: Result<Command, CommandError>)
        ensures
            parse_result(r) == parsed(text::texts(tokens@), readings@),
    {
        if tokens.len() == 0 {
            return Err(CommandError::Empty);
        }
        let name = text::to_ascii_uppercase(tokens[0].as_str());
        let args = slice_subrange(tokens, 1, tokens.len());
        assert(text::texts(args@) =~= text::texts(tokens@).skip(1));
        match Verb::named(name.as_str()) {
            Some(verb) => parse_args(verb, args, readings),
            None => Err(CommandError::Unknown(tokens[0].clone())),
        }
    }
}

fn parse_args(verb: Verb, args: &[String], readings: &FloatReadings) -> (r: Result<
    Command,
    CommandError,
>)
    ensures
        parse_result(r) == parsed_args(verb, text::texts(args@), readings@),
{
    match verb {
        Verb::SetKey => parse_set(args),
        Verb::Get => match single_key(args, "GET") {
            Ok(key) => Ok(Command::Get { key }),
            Err(error) => Err(error),
        },
        Verb::Del => match non_empty_args(args, "DEL") {
            Ok(keys) => Ok(Command::Del { keys }),
            Err(error) => Err(error),
        },
        Verb::LPush => match key_and_values(args, "LPUSH") {
            Ok((key, values)) => Ok(Command::LPush { key, values }),
            Err(error) => Err(error),
        },
        Verb::RPush => match key_and_values(args, "RPUSH") {
            Ok((key, values)) => Ok(Command::RPush { key, values }),
            Err(error) => Err(error),
        },
        Verb::LPop => match single_key(args, "LPOP") {
            Ok(key) => Ok(Command::LPop { key }),
            Err(error) => Err(error),
        },
        Verb::RPop => match single_key(args, "RPOP") {
            Ok(key) => Ok(Command::RPop { key }),
            Err(error) => Err(error),
        },
        Verb::LRange => if args.len() == 3 {
            match parse_number(args[1].as_str()) {
                Ok(start) => match parse_number(args[2].as_str()) {
                    Ok(stop) => Ok(Command::LRange { key: args[0].clone(), start, stop }),
                    Err(error) => Err(error),
                },
                Err(error) => Err(error),
            }
        } else {
            Err(arity("LRANGE"))
        },
        Verb::SAdd => match key_and_values(args, "SADD") {
            Ok((key, values)) => Ok(Command::SAdd { key, values }),
            Err(error) => Err(error),
        },
        Verb::SRem => match key_and_values(args, "SREM") {
            Ok((key, values)) => Ok(Command::SRem { key, values }),
            Err(error) => Err(error),
        },
        Verb::SMembers => match single_key(args, "SMEMBERS") {
            Ok(key) => Ok(Command::SMembers { key }),
            Err(error) => Err(error),
        },
        Verb::SIsMember => match key_value(args, "SISMEMBER") {
            Ok((key, value)) => Ok(Command::SIsMember { key, value }),
            Err(error) => Err(error),
        },
        Verb::ZAdd => parse_zadd(args, readings),
        Verb::ZRem => match key_value(args, "ZREM") {
            Ok((key, member)) => Ok(Command::ZRem { key, member }),
            Err(error) => Err(error),
        },
        Verb::ZRange => if args.len() == 3 || (args.len() == 4 && text::eq_ignore_ascii_case(
            args[3].as_str(),
            "WITHSCORES",
        )) {
            match parse_number(args[1].as_str()) {
                Ok(start) => match parse_number(args[2].as_str()) {
                    Ok(stop) => Ok(
                        Command::ZRange {
                            key: args[0].clone(),
                            start,
                            stop,
                            with_scores: args.len() == 4,
                        },
                    ),
                    Err(error) => Err(error),
                },
                Err(error) => Err(error),
            }
        } else {
            Err(arity("ZRANGE"))
        },
        Verb::ZScore => match key_value(args, "ZSCORE") {
            Ok((key, member)) => Ok(Command::ZScore { key, member }),
            Err(error) => Err(error),
        },
        Verb::HSet => if args.len() == 3 {
            Ok(
                Command::HSet {
                    key: args[0].clone(),
                    field: args[1].clone(),
                    value: args[2].clone(),
                },
            )
        } else {
            Err(arity("HSET"))
        },
        Verb::HGet => match key_value(args, "HGET") {
            Ok((key, field)) => Ok(Command::HGet { key, field }),
            Err(error) => Err(error),
        },
        Verb::HDel => match key_value(args, "HDEL") {
            Ok((key, field)) => Ok(Command::HDel { key, field }),
            Err(error) => Err(error),
        },
        Verb::HGetAll => match single_key(args, "HGETALL") {
            Ok(key) => Ok(Command::HGetAll { key }),
            Err(error) => Err(error),
        },
        Verb::HKeys => match single_key(args, "HKEYS") {
            Ok(key) => Ok(Command::HKeys { key }),
            Err(error) => Err(error),
        },
        Verb::HVals => match single_key(args, "HVALS") {
            Ok(key) => Ok(Command::HVals { key }),
            Err(error) => Err(error),
        },
        Verb::HLen => match single_key(args, "HLEN") {
            Ok(key) => Ok(Command::HLen { key }),
            Err(error) => Err(error),
        },
        Verb::HExists => match key_value(args, "HEXISTS") {
            Ok((key, field)) => Ok(Command::HExists { key, field }),
            Err(error) => Err(error),
        },
        Verb::HIncrBy => if args.len() == 3 {
            match parse_number(args[2].as_str()) {
                Ok(delta) => Ok(
                    Command::HIncrBy {
                        key: args[0].clone(),
                        field: args[1].clone(),
                        delta,
                    },
                ),
                Err(error) => Err(error),
            }
        } else {
            Err(arity("HINCRBY"))
        },
        Verb::Exists => match non_empty_args(args, "EXISTS") {
            Ok(keys) => Ok(Command::Exists { keys }),
            Err(error) => Err(error),
        },
        Verb::Type => match single_key(args, "TYPE") {
            Ok(key) => Ok(Command::Type { key }),
            Err(error) => Err(error),
        },
        Verb::Keys => match single_key(args, "KEYS") {
            Ok(pattern) => Ok(Command::Keys { pattern }),
            Err(error) => Err(error),
        },
        Verb::Expire => if args.len() == 2 {
            match parse_number(args[1].as_str()) {
                Ok(seconds) => Ok(Command::Expire { key: args[0].clone(), seconds }),
                Err(error) => Err(error),
            }
        } else {
            Err(arity("EXPIRE"))
        },
        Verb::Ttl => match single_key(args, "TTL") {
            Ok(key) => Ok(Command::Ttl { key }),
            Err(error) => Err(error),
        },
        Verb::Persist => match single_key(args, "PERSIST") {
            Ok(key) => Ok(Command::Persist { key }),
            Err(error) => Err(error),
        },
        Verb::Rename => match key_value(args, "RENAME") {
            Ok((key, new_key)) => Ok(Command::Rename { key, new_key }),
            Err(error) => Err(error),
        },
        Verb::Ping => if args.len() == 0 {
            Ok(Command::Ping { message: None })
        } else if args.len() == 1 {
            Ok(Command::Ping { message: Some(args[0].clone()) })
        } else {
            Err(arity("PING"))
        },
        Verb::Echo => match single_key(args, "ECHO") {
            Ok(message) => Ok(Command::Echo { message }),
            Err(error) => Err(error),
        },
        Verb::DbSize => if args.len() == 0 {
            Ok(Command::DbSize)
        } else {
            Err(arity("DBSIZE"))
        },
        Verb::FlushAll => if args.len() == 0 {
            Ok(Command::FlushAll)
        } else {
            Err(arity("FLUSHALL"))
        },
        Verb::Info => Ok(Command::Info),
        Verb::Save => Ok(Command::Save),
        Verb::BgSave => Ok(Command::BgSave),
        Verb::Publish => match key_value(args, "PUBLISH") {
            Ok((channel, message)) => Ok(Command::Publish { channel, message }),
            Err(error) => Err(error),
        },
        Verb::Incr => match single_key(args, "INCR") {
            Ok(key) => Ok(Command::IncrBy { key, delta: 1 }),
            Err(error) => Err(error),
        },
        Verb::Decr => match single_key(args, "DECR") {
            Ok(key) => Ok(Command::IncrBy { key, delta: -1 }),
            Err(error) => Err(error),
        },
        Verb::IncrBy => if args.len() == 2 {
            match parse_number(args[1].as_str()) {
                Ok(delta) => Ok(Command::IncrBy { key: args[0].clone(), delta }),
                Err(error) => Err(error),
            }
        } else {
            Err(arity("INCRBY"))
        },
        Verb::DecrBy => if args.len() == 2 {
            match parse_number(args[1].as_str()) {
                Ok(amount) => match negate(amount) {
                    Ok(delta) => Ok(Command::IncrBy { key: args[0].clone(), delta }),
                    Err(error) => Err(error),
                },
                Err(error) => Err(error),
            }
        } else {
            Err(arity("DECRBY"))
        },
        Verb::Append => match key_value(args, "APPEND") {
            Ok((key, value)) => Ok(Command::Append { key, value }),
            Err(error) => Err(error),
        },
        Verb::StrLen => match single_key(args, "STRLEN") {
            Ok(key) => Ok(Command::StrLen { key }),
            Err(error) => Err(error),
        },
        Verb::MGet => match non_empty_args(args, "MGET") {
            Ok(keys) => Ok(Command::MGet { keys }),
            Err(error) => Err(error),
        },
        Verb::MSet => if args.len() == 0 || args.len() % 2 != 0 {
            Err(arity("MSET"))
        } else {
            Ok(Command::MSet { pairs: pair_up(args) })
        },
        Verb::SetNx => match key_value(args, "SETNX") {
            Ok((key, value)) => Ok(Command::SetNx { key, value }),
            Err(error) => Err(error),
        },
        Verb::GetSet => match key_value(args, "GETSET") {
            Ok((key, value)) => Ok(Command::GetSet { key, value }),
            Err(error) => Err(error),
        },
        Verb::LLen => match single_key(args, "LLEN") {
            Ok(key) => Ok(Command::LLen { key }),
            Err(error) => Err(error),
        },
        Verb::LIndex => if args.len() == 2 {
            match parse_number(args[1].as_str()) {
                Ok(index) => Ok(Command::LIndex { key: args[0].clone(), index }),
                Err(error) => Err(error),
            }
        } else {
            Err(arity("LINDEX"))
        },
        Verb::LSet => if args.len() == 3 {
            match parse_number(args[1].as_str()) {
                Ok(index) => Ok(
                    Command::LSet { key: args[0].clone(), index, value: args[2].clone() },
                ),
                Err(error) => Err(error),
            }
        } else {
            Err(arity("LSET"))
        },
        Verb::SCard => match single_key(args, "SCARD") {
            Ok(key) => Ok(Command::SCard { key }),
            Err(error) => Err(error),
        },
        Verb::SPop => match single_key(args, "SPOP") {
            Ok(key) => Ok(Command::SPop { key }),
            Err(error) => Err(error),
        },
        Verb::SInter => match non_empty_args(args, "SINTER") {
            Ok(keys) => Ok(Command::SInter { keys }),
            Err(error) => Err(error),
        },
        Verb::SUnion => match non_empty_args(args, "SUNION") {
            Ok(keys) => Ok(Command::SUnion { keys }),
            Err(error) => Err(error),
        },
        Verb::SDiff => match non_empty_args(args, "SDIFF") {
            Ok(keys) => Ok(Command::SDiff { keys }),
            Err(error) => Err(error),
        },
        Verb::ZCard => match single_key(args, "ZCARD") {
            Ok(key) => Ok(Command::ZCard { key }),
            Err(error) => Err(error),
        },
        Verb::ZRank => match key_value(args, "ZRANK") {
            Ok((key, member)) => Ok(Command::ZRank { key, member }),
            Err(error) => Err(error),
        },
        Verb::ZIncrBy => if args.len() == 3 {
            match parse_score(args[1].as_str(), readings) {
                Ok(increment) => Ok(
                    Command::ZIncrBy {
                        key: args[0].clone(),
                        increment,
                        member: args[2].clone(),
                    },
                ),
                Err(error) => Err(error),
            }
        } else {
            Err(arity("ZINCRBY"))
        },
        Verb::ZRangeByScore => parse_zrangebyscore(args, readings),
    }
}

fn parse_set(args: &[String]) -> (r: Result<Command, CommandError>)
    ensures
        forall|readings: Map<Seq<char>, ScoreView>|
            parse_result(r) == #[trigger] parsed_args(Verb::SetKey, text::texts(args@), readings),
{
    if args.len() == 2 {
        Ok(Command::SetKey { key: args[0].clone(), value: args[1].clone(), ttl: None })
    } else if args.len() == 4 && (text::eq_ignore_ascii_case(args[2].as_str(), "EX")
        || text::eq_ignore_ascii_case(args[2].as_str(), "EXP")) {
        match parse_seconds(args[3].as_str()) {
            Ok(seconds) => Ok(
                Command::SetKey {
                    key: args[0].clone(),
                    value: args[1].clone(),
                    ttl: Some(seconds),
                },
            ),
            Err(error) => Err(error),
        }
    } else {
        Err(arity("SET"))
    }
}

fn parse_zadd(args: &[String], readings: &FloatReadings) -> (r: Result<Command, CommandError>)
    ensures
        parse_result(r) == parsed_args(Verb::ZAdd, text::texts(args@), readings@),
{
    if args.len() < 3 || args.len() % 2 == 0 {
        return Err(arity("ZADD"));
    }
    let ghost rest = text::texts(args@).skip(1);
    let mut members: Vec<(Score, String)> = Vec::new();
    let mut i: usize = 1;
    assert(model::added_texts(members@) =~= Seq::<(ScoreView, Seq<char>)>::empty());
    while i < args.len()
        invariant
            1 <= i <= args@.len(),
            i % 2 == 1,
            args@.len() % 2 == 1,
            rest == text::texts(args@).skip(1),
            scored_members(rest.take(i - 1), readings@) == Ok::<
                Seq<(ScoreView, Seq<char>)>,
                CommandErrorView,
            >(model::added_texts(members@)),
        decreases args@.len() - i,
    {
        let ghost next = rest.take(i + 1);
        proof {
            assert(next.take(i - 1) =~= rest.take(i - 1));
            assert(next[i - 1] == args@[i as int]@);
            assert(next[i as int] == args@[i + 1]@);
        }
        match parse_score(args[i].as_str(), readings) {
            Ok(score) => {
                let ghost before = model::added_texts(members@);
                members.push((score, args[i + 1].clone()));
                assert(model::added_texts(members@) =~= before.push((score@, args@[i + 1]@)));
            },
            Err(error) => {
                proof {
                    lemma_scored_members_prefix(rest, i as int + 1, readings@);
                }
                return Err(error);
            },
        }
        i = i + 2;
    }
    assert(rest.take(i - 1) =~= rest);
    Ok(Command::ZAdd { key: args[0].clone(), members })
}

/// What is wrong with the first arguments stays wrong, whatever follows.
proof fn lemma_scored_members_prefix(
    args: Seq<Seq<char>>,
    n: int,
    readings: Map<Seq<char>, ScoreView>,
)
    requires
        0 <= n <= args.len(),
        n % 2 == 0,
        args.len() % 2 == 0,
        scored_members(args.take(n), readings) is Err,
    ensures
        scored_members(args, readings) == scored_members(args.take(n), readings),
    decreases args.len(),
{
    if n == args.len() {
        assert(args.take(n) =~= args);
    } else {
        let fewer = args.take(args.len() - 2);
        assert(fewer.take(n) =~= args.take(n));
        lemma_scored_members_prefix(fewer, n, readings);
    }
}

fn parse_zrangebyscore(args: &[String], readings: &FloatReadings) -> (r: Result<
    Command,
    CommandError,
>)
    ensures
        parse_result(r) == parsed_args(Verb::ZRangeByScore, text::texts(args@), readings@),
{
    if args.len() != 3 {
        return Err(arity("ZRANGEBYSCORE"));
    }
    let (min, min_inclusive) = match parse_score_bound(args[1].as_str(), readings) {
        Ok(bound) => bound,
        Err(error) => {
            return Err(error);
        },
    };
    let (max, max_inclusive) = match parse_score_bound(args[2].as_str(), readings) {
        Ok(bound) => bound,
        Err(error) => {
            return Err(error);
        },
    };
    Ok(
        Command::ZRangeByScore {
            key: args[0].clone(),
            min,
            min_inclusive,
            max,
            max_inclusive,
        },
    )
}

/// Alternating keys and values as pairs.
fn pair_up(args: &[String]) -> (r: Vec<(String, String)>)
    ensures
        data_structure::pair_texts(r@) == paired(text::texts(args@)),
{
    let mut pairs: Vec<(String, String)> = Vec::new();
    let mut i: usize = 0;
    while i < args.len() / 2
        invariant
            i <= args@.len() / 2,
            pairs@.len() == i,
            forall|j: int|
                0 <= j < i ==> (#[trigger] pairs@[j]).0@ == args@[2 * j]@ && pairs@[j].1@
                    == args@[2 * j + 1]@,
        decreases args@.len() / 2 - i,
    {
        pairs.push((args[2 * i].clone(), args[2 * i + 1].clone()));
        i = i + 1;
    }
    assert(data_structure::pair_texts(pairs@) =~= paired(text::texts(args@)));
    pairs
}

pub fn arity(command: &str) -> (r: CommandError)
    ensures
        r@ == CommandErrorView::WrongArity(command@),
{
    CommandError::WrongArity(command.to_owned())
}

pub fn single_key(args: &[String], command: &str) -> (r: Result<String, CommandError>)
    ensures
        match r {
            Ok(key) => args@.len() == 1 && key@ == args@[0]@,
            Err(error) => args@.len() != 1 && error@ == CommandErrorView::WrongArity(command@),
        },
{
    if args.len() == 1 {
        Ok(args[0].clone())
    } else {
        Err(arity(command))
    }
}

pub fn key_value(args: &[String], command: &str) -> (r: Result<(String, String), CommandError>)
    ensures
        match r {
            Ok((key, value)) => args@.len() == 2 && key@ == args@[0]@ && value@ == args@[1]@,
            Err(error) => args@.len() != 2 && error@ == CommandErrorView::WrongArity(command@),
        },
{
    if args.len() == 2 {
        Ok((args[0].clone(), args[1].clone()))
    } else {
        Err(arity(command))
    }
}

/// Requires at least one argument, returning them all. Used by variadic
/// commands such as `EXISTS`, `DEL` and `SINTER`.
pub fn non_empty_args(args: &[String], command: &str) -> (r: Result<Vec<String>, CommandError>)
    ensures
        match r {
            Ok(all) => args@.len() > 0 && text::texts(all@) == text::texts(args@),
            Err(error) => args@.len() == 0 && error@ == CommandErrorView::WrongArity(command@),
        },
{
    if args.len() == 0 {
        Err(arity(command))
    } else {
        assert(text::texts(args@).skip(0) =~= text::texts(args@));
        Ok(text::copy_texts(args, 0))
    }
}

/// Splits `[key, value, value, ...]` into the key and its one-or-more values,
/// for variadic writers such as `LPUSH`, `RPUSH`, `SADD` and `SREM`.
pub fn key_and_values(args: &[String], command: &str) -> (r: Result<
    (String, Vec<String>),
    CommandError,
>)
    ensures
        match r {
            Ok((key, values)) => {
                &&& args@.len() >= 2
                &&& key@ == args@[0]@
                &&& text::texts(values@) == text::texts(args@).skip(1)
            },
            Err(error) => args@.len() < 2 && error@ == CommandErrorView::WrongArity(command@),
        },
{
    if args.len() >= 2 {
        Ok((args[0].clone(), text::copy_texts(args, 1)))
    } else {
        Err(arity(command))
    }
}

/// Parses a signed number.
pub fn parse_number(raw: &str) -> (r: Result<i64, CommandError>)
    ensures
        match r {
            Ok(number) => text::parse_signed(raw@) == Some(number as int),
            Err(error) => text::parse_signed(raw@) is None && error@
                == CommandErrorView::NotAnInteger(raw@),
        },
{
    match text::text_to_i64(raw) {
        Some(number) => Ok(number),
        None => Err(CommandError::NotAnInteger(raw.to_owned())),
    }
}

/// Parses a number of seconds, which has no sign.
pub fn parse_seconds(raw: &str) -> (r: Result<u64, CommandError>)
    ensures
        match r {
            Ok(number) => text::parse_unsigned(raw@, u64::MAX as int) == Some(number as int),
            Err(error) => text::parse_unsigned(raw@, u64::MAX as int) is None && error@
                == CommandErrorView::NotAnInteger(raw@),
        },
{
    match text::text_to_unsigned(raw, u64::MAX) {
        Some(number) => Ok(number),
        None => Err(CommandError::NotAnInteger(raw.to_owned())),
    }
}

/// Parses a sorted-set score. A reading may be `NaN`, which Redis rejects (a
/// `NaN` score has no meaningful order), so it is refused here; `inf`/`-inf` are
/// allowed, as Redis allows.
pub fn parse_score(raw: &str, readings: &FloatReadings) -> (r: Result<Score, CommandError>)
    ensures
        match r {
            Ok(score) => score_of(raw@, readings@) == Some(score@),
            Err(error) => score_of(raw@, readings@) is None && error@
                == CommandErrorView::NotAFloat(raw@),
        },
{
    match readings.read(raw) {
        Some(score) => {
            if score.is_nan() {
                Err(CommandError::NotAFloat(raw.to_owned()))
            } else {
                Ok(score)
            }
        },
        None => Err(CommandError::NotAFloat(raw.to_owned())),
    }
}

/// Negates a `DECRBY` amount, guarding against the one value (`i64::MIN`) whose
/// negation overflows.
pub fn negate(value: i64) -> (r: Result<i64, CommandError>)
    ensures
        match r {
            Ok(negated) => value != i64::MIN && negated == -value,
            Err(error) => value == i64::MIN && error@ == CommandErrorView::NotAnInteger(
                text::decimal(value as int),
            ),
        },
{
    if value == i64::MIN {
        Err(CommandError::NotAnInteger(text::i64_to_text(value)))
    } else {
        Ok(-value)
    }
}

/// The number in a `ZRANGEBYSCORE` bound.
fn number_of_bound(raw: &str) -> (r: (String, bool))
    ensures
        r.0@ == bound_number(raw@),
        r.1 == !(raw@.len() > 0 && raw@[0] == '('),
{
    let length: usize = raw.unicode_len();
    if length > 0 && raw.get_char(0) == '(' {
        let rest = text::substring(raw, 1, length);
        assert(rest@ =~= raw@.skip(1));
        (text::to_ascii_lowercase(rest.as_str()), false)
    } else {
        (text::to_ascii_lowercase(raw), true)
    }
}

/// Parses a `ZRANGEBYSCORE` bound into `(score, inclusive)`. A leading `(`
/// marks an exclusive bound; `+inf`/`inf`/`-inf` are accepted.
pub fn parse_score_bound(raw: &str, readings: &FloatReadings) -> (r: Result<
    (Score, bool),
    CommandError,
>)
    ensures
        match r {
            Ok((score, inclusive)) => bound_of(raw@, readings@) == Some((score@, inclusive)),
            Err(error) => bound_of(raw@, readings@) is None && error@
                == CommandErrorView::NotAFloat(raw@),
        },
{
    let (number, inclusive) = number_of_bound(raw);
    if text::text_eq(number.as_str(), "+inf") || text::text_eq(number.as_str(), "inf") {
        Ok((Score::new(INFINITY_BITS, "inf".to_owned()), inclusive))
    } else if text::text_eq(number.as_str(), "-inf") {
        Ok((Score::new(NEG_INFINITY_BITS, "-inf".to_owned()), inclusive))
    } else {
        match parse_score(number.as_str(), readings) {
            Ok(score) => Ok((score, inclusive)),
            Err(_) => Err(CommandError::NotAFloat(raw.to_owned())),
        }
    }
}

/// The texts of a request that stand for scores.
pub open spec fn score_texts(tokens: Seq<Seq<char>>) -> Seq<Seq<char>> {
    if tokens.len() == 0 {
        Seq::empty()
    } else {
        let args = tokens.skip(1);
        match verb_named(text::upper(tokens[0])) {
            Some(Verb::ZAdd) => Seq::new(args.len() / 2, |i: int| args[2 * i + 1]),
            Some(Verb::ZIncrBy) => if args.len() == 3 {
                seq![args[1]]
            } else {
                Seq::empty()
            },
            Some(Verb::ZRangeByScore) => if args.len() == 3 {
                seq![bound_number(args[1]), bound_number(args[2])]
            } else {
                Seq::empty()
            },
            _ => Seq::empty(),
        }
    }
}

/// The texts of a request that stand for scores, to be read before it is
/// parsed.
pub fn float_texts(tokens: &[String]) -> (r: Vec<String>)
    ensures
        text::texts(r@) == score_texts(text::texts(tokens@)),
{
    let ghost wanted = score_texts(text::texts(tokens@));
    let mut r: Vec<String> = Vec::new();
    assert(text::texts(r@) =~= Seq::<Seq<char>>::empty());
    if tokens.len() == 0 {
        return r;
    }
    let name = text::to_ascii_uppercase(tokens[0].as_str());
    match Verb::named(name.as_str()) {
        Some(Verb::ZAdd) => {
            let mut i: usize = 0;
            while i < (tokens.len() - 1) / 2
                invariant
                    tokens@.len() > 0,
                    i <= (tokens@.len() - 1) / 2,
                    r@.len() == i,
                    wanted.len() == (tokens@.len() - 1) / 2,
                    forall|j: int| 0 <= j < wanted.len() ==> wanted[j] == tokens@[2 * j + 2]@,
                    forall|j: int| 0 <= j < i ==> (#[trigger] r@[j])@ == wanted[j],
                decreases (tokens@.len() - 1) / 2 - i,
            {
                r.push(tokens[2 * i + 2].clone());
                i = i + 1;
            }
            assert(text::texts(r@) =~= wanted);
        },
        Some(Verb::ZIncrBy) => {
            if tokens.len() == 4 {
                r.push(tokens[2].clone());
                assert(text::texts(r@) =~= wanted);
            }
        },
        Some(Verb::ZRangeByScore) => {
            if tokens.len() == 4 {
                r.push(number_of_bound(tokens[2].as_str()).0);
                r.push(number_of_bound(tokens[3].as_str()).0);
                assert(text::texts(r@) =~= wanted);
            }
        },
        _ => {},
    }
    r
}

/// Two tables of readings that agree on the texts of a request that stand for
/// scores make the same command of it: nothing else is ever read.
pub proof fn lemma_parse_reads_score_texts_only(
    tokens: Seq<Seq<char>>,
    one: Map<Seq<char>, ScoreView>,
    other: Map<Seq<char>, ScoreView>,
)
    requires
        forall|i: int|
            0 <= i < score_texts(tokens).len() ==> score_of(#[trigger] score_texts(tokens)[i], one)
                == score_of(score_texts(tokens)[i], other),
    ensures
        parsed(tokens, one) == parsed(tokens, other),
{
    if tokens.len() > 0 {
        let args = tokens.skip(1);
        let listed = score_texts(tokens);
        match verb_named(text::upper(tokens[0])) {
            Some(Verb::ZAdd) => {
                if takes(Verb::ZAdd, args) {
                    let rest = args.skip(1);
                    assert forall|i: int| 0 <= i < rest.len() && i % 2 == 0 implies score_of(
                        #[trigger] rest[i],
                        one,
                    ) == score_of(rest[i], other) by {
                        assert(listed[i / 2] == rest[i]);
                    }
                    lemma_scored_members_agree(rest, one, other);
                }
            },
            Some(Verb::ZIncrBy) => {
                if takes(Verb::ZIncrBy, args) {
                    assert(listed[0] == args[1]);
                }
            },
            Some(Verb::ZRangeByScore) => {
                if takes(Verb::ZRangeByScore, args) {
                    assert(listed[0] == bound_number(args[1]));
                    assert(listed[1] == bound_number(args[2]));
                }
            },
            _ => {},
        }
    }
}

proof fn lemma_scored_members_agree(
    args: Seq<Seq<char>>,
    one: Map<Seq<char>, ScoreView>,
    other: Map<Seq<char>, ScoreView>,
)
    requires
        args.len() % 2 == 0,
        forall|i: int|
            0 <= i < args.len() && i % 2 == 0 ==> score_of(#[trigger] args[i], one) == score_of(
                args[i],
                other,
            ),
    ensures
        scored_members(args, one) == scored_members(args, other),
    decreases args.len(),
{
    if args.len() >= 2 {
        let last = args.len() - 2;
        let fewer = args.take(last);
        assert forall|i: int| 0 <= i < fewer.len() && i % 2 == 0 implies score_of(
            #[trigger] fewer[i],
            one,
        ) == score_of(fewer[i], other) by {
            assert(fewer[i] == args[i]);
        }
        lemma_scored_members_agree(fewer, one, other);
        assert(score_of(args[last], one) == score_of(args[last], other));
    }
}

/// Command names are case-insensitive: requests that differ only in the case of
/// the name's letters make the same command.
pub proof fn lemma_names_ignore_case(
    name: Seq<char>,
    other: Seq<char>,
    args: Seq<Seq<char>>,
    readings: Map<Seq<char>, ScoreView>,
)
    requires
        text::upper(name) == text::upper(other),
        verb_named(text::upper(name)) is Some,
    ensures
        parsed(seq![name] + args, readings) == parsed(seq![other] + args, readings),
{
    assert((seq![name] + args).skip(1) =~= args);
    assert((seq![other] + args).skip(1) =~= args);
}

/// No parsed score is `NaN`.
pub proof fn lemma_scores_are_numbers(
    tokens: Seq<Seq<char>>,
    readings: Map<Seq<char>, ScoreView>,
)
    ensures
        match parsed(tokens, readings) {
            Ok(CommandView::ZAdd { key, members }) => forall|i: int|
                0 <= i < members.len() ==> !score::bits_are_nan((#[trigger] members[i]).0.bits),
            Ok(CommandView::ZIncrBy { key, increment, member }) => !score::bits_are_nan(
                increment.bits,
            ),
            Ok(CommandView::ZRangeByScore { key, min, min_inclusive, max, max_inclusive }) =>
                !score::bits_are_nan(min.bits) && !score::bits_are_nan(max.bits),
            _ => true,
        },
{
    if tokens.len() > 0 {
        let args = tokens.skip(1);
        lemma_scored_members_are_numbers(args.skip(1), readings);
    }
}

proof fn lemma_scored_members_are_numbers(
    args: Seq<Seq<char>>,
    readings: Map<Seq<char>, ScoreView>,
)
    ensures
        scored_members(args, readings) matches Ok(members) ==> forall|i: int|
            0 <= i < members.len() ==> !score::bits_are_nan((#[trigger] members[i]).0.bits),
    decreases args.len(),
{
    if args.len() >= 2 {
        lemma_scored_members_are_numbers(args.take(args.len() - 2), readings);
    }
}

} // verus!
