//! The names of the commands: which names there are, and how many arguments each
//! takes.
use vstd::prelude::*;

use crate::command::parse;
use crate::command::parse::Verb;
use crate::command::{CommandErrorView, CommandView};
use crate::score::ScoreView;
use crate::text;

verus! {

/// The commands that take one argument.
pub open spec fn takes_one(name: Seq<char>) -> bool {
    ||| name == "GET"@
    ||| name == "LPOP"@
    ||| name == "RPOP"@
    ||| name == "SMEMBERS"@
    ||| name == "HGETALL"@
    ||| name == "HKEYS"@
    ||| name == "HVALS"@
    ||| name == "HLEN"@
    ||| name == "TYPE"@
    ||| name == "KEYS"@
    ||| name == "TTL"@
    ||| name == "PERSIST"@
    ||| name == "ECHO"@
    ||| name == "INCR"@
    ||| name == "DECR"@
    ||| name == "STRLEN"@
    ||| name == "LLEN"@
    ||| name == "SCARD"@
    ||| name == "SPOP"@
    ||| name == "ZCARD"@
}

/// The commands that take two arguments.
pub open spec fn takes_two(name: Seq<char>) -> bool {
    ||| name == "SISMEMBER"@
    ||| name == "ZREM"@
    ||| name == "ZSCORE"@
    ||| name == "HGET"@
    ||| name == "HDEL"@
    ||| name == "HEXISTS"@
    ||| name == "RENAME"@
    ||| name == "PUBLISH"@
    ||| name == "APPEND"@
    ||| name == "SETNX"@
    ||| name == "GETSET"@
    ||| name == "ZRANK"@
    ||| name == "EXPIRE"@
    ||| name == "INCRBY"@
    ||| name == "DECRBY"@
    ||| name == "LINDEX"@
}

/// The commands that take three arguments.
pub open spec fn takes_three(name: Seq<char>) -> bool {
    ||| name == "LRANGE"@
    ||| name == "HSET"@
    ||| name == "HINCRBY"@
    ||| name == "LSET"@
    ||| name == "ZINCRBY"@
    ||| name == "ZRANGEBYSCORE"@
}

/// The commands that take any number of arguments but none.
pub open spec fn takes_some(name: Seq<char>) -> bool {
    ||| name == "DEL"@
    ||| name == "EXISTS"@
    ||| name == "MGET"@
    ||| name == "SINTER"@
    ||| name == "SUNION"@
    ||| name == "SDIFF"@
}

/// The commands that take a key and at least one value.
pub open spec fn takes_a_key_and_more(name: Seq<char>) -> bool {
    ||| name == "LPUSH"@
    ||| name == "RPUSH"@
    ||| name == "SADD"@
    ||| name == "SREM"@
}

/// The commands that take no argument.
pub open spec fn takes_none(name: Seq<char>) -> bool {
    ||| name == "DBSIZE"@
    ||| name == "FLUSHALL"@
}

/// The commands with options or pairs, and those that ignore their arguments.
pub open spec fn takes_in_its_own_way(name: Seq<char>) -> bool {
    ||| name == "SET"@
    ||| name == "ZADD"@
    ||| name == "ZRANGE"@
    ||| name == "PING"@
    ||| name == "MSET"@
    ||| name == "INFO"@
    ||| name == "SAVE"@
    ||| name == "BGSAVE"@
}

/// A command that takes one argument refuses any other number.
pub proof fn lemma_one_argument_is_asked_for(
    name: Seq<char>,
    args: Seq<Seq<char>>,
    readings: Map<Seq<char>, ScoreView>,
)
    requires
        takes_one(text::upper(name)),
        args.len() != 1,
    ensures
        parse::parsed(seq![name] + args, readings) == Err::<CommandView, CommandErrorView>(
            CommandErrorView::WrongArity(text::upper(name)),
        ),
{
    lemma_names();
    assert((seq![name] + args).skip(1) =~= args);
}

/// A command that takes two arguments refuses any other number.
pub proof fn lemma_two_arguments_are_asked_for(
    name: Seq<char>,
    args: Seq<Seq<char>>,
    readings: Map<Seq<char>, ScoreView>,
)
    requires
        takes_two(text::upper(name)),
        args.len() != 2,
    ensures
        parse::parsed(seq![name] + args, readings) == Err::<CommandView, CommandErrorView>(
            CommandErrorView::WrongArity(text::upper(name)),
        ),
{
    lemma_names();
    assert((seq![name] + args).skip(1) =~= args);
}

/// A command that takes three arguments refuses any other number.
pub proof fn lemma_three_arguments_are_asked_for(
    name: Seq<char>,
    args: Seq<Seq<char>>,
    readings: Map<Seq<char>, ScoreView>,
)
    requires
        takes_three(text::upper(name)),
        args.len() != 3,
    ensures
        parse::parsed(seq![name] + args, readings) == Err::<CommandView, CommandErrorView>(
            CommandErrorView::WrongArity(text::upper(name)),
        ),
{
    lemma_names();
    assert((seq![name] + args).skip(1) =~= args);
}

/// A variadic command refuses to run on nothing.
pub proof fn lemma_an_argument_is_asked_for(
    name: Seq<char>,
    args: Seq<Seq<char>>,
    readings: Map<Seq<char>, ScoreView>,
)
    requires
        takes_some(text::upper(name)),
        args.len() == 0,
    ensures
        parse::parsed(seq![name] + args, readings) == Err::<CommandView, CommandErrorView>(
            CommandErrorView::WrongArity(text::upper(name)),
        ),
{
    lemma_names();
    assert((seq![name] + args).skip(1) =~= args);
}

/// A variadic writer refuses a key without values.
pub proof fn lemma_a_value_is_asked_for(
    name: Seq<char>,
    args: Seq<Seq<char>>,
    readings: Map<Seq<char>, ScoreView>,
)
    requires
        takes_a_key_and_more(text::upper(name)),
        args.len() < 2,
    ensures
        parse::parsed(seq![name] + args, readings) == Err::<CommandView, CommandErrorView>(
            CommandErrorView::WrongArity(text::upper(name)),
        ),
{
    lemma_names();
    assert((seq![name] + args).skip(1) =~= args);
}

/// A command that takes no argument refuses any.
pub proof fn lemma_no_argument_is_asked_for(
    name: Seq<char>,
    args: Seq<Seq<char>>,
    readings: Map<Seq<char>, ScoreView>,
)
    requires
        takes_none(text::upper(name)),
        args.len() > 0,
    ensures
        parse::parsed(seq![name] + args, readings) == Err::<CommandView, CommandErrorView>(
            CommandErrorView::WrongArity(text::upper(name)),
        ),
{
    lemma_names();
    assert((seq![name] + args).skip(1) =~= args);
}

/// The commands with options or pairs refuse what is not one of their forms.
pub proof fn lemma_other_forms_are_refused(
    name: Seq<char>,
    args: Seq<Seq<char>>,
    readings: Map<Seq<char>, ScoreView>,
)
    requires
        ({
            ||| text::upper(name) == "SET"@ && args.len() != 2 && !(args.len() == 4 && (
            text::lower(args[2]) == "ex"@ || text::lower(args[2]) == "exp"@))
            ||| text::upper(name) == "ZADD"@ && (args.len() < 3 || args.len() % 2 == 0)
            ||| text::upper(name) == "ZRANGE"@ && args.len() != 3 && !(args.len() == 4
                && text::lower(args[3]) == "withscores"@)
            ||| text::upper(name) == "PING"@ && args.len() > 1
            ||| text::upper(name) == "MSET"@ && (args.len() == 0 || args.len() % 2 == 1)
        }),
    ensures
        parse::parsed(seq![name] + args, readings) == Err::<CommandView, CommandErrorView>(
            CommandErrorView::WrongArity(text::upper(name)),
        ),
{
    lemma_names();
    lemma_option_words();
    assert((seq![name] + args).skip(1) =~= args);
}

/// The option words in lower case.
pub proof fn lemma_option_words()
    ensures
        text::lower("EX"@) == "ex"@,
        text::lower("EXP"@) == "exp"@,
        text::lower("WITHSCORES"@) == "withscores"@,
{
    reveal_strlit("EX");
    reveal_strlit("EXP");
    reveal_strlit("WITHSCORES");
    reveal_strlit("ex");
    reveal_strlit("exp");
    reveal_strlit("withscores");
    assert(text::lower("EX"@) =~= "ex"@);
    assert(text::lower("EXP"@) =~= "exp"@);
    assert(text::lower("WITHSCORES"@) =~= "withscores"@);
}

/// A name that is none of the commands', in any case, is unknown; a name that is
/// one of them never is.
pub proof fn lemma_only_these_names_are_known(
    name: Seq<char>,
    args: Seq<Seq<char>>,
    readings: Map<Seq<char>, ScoreView>,
)
    ensures
        (parse::parsed(seq![name] + args, readings) == Err::<CommandView, CommandErrorView>(
            CommandErrorView::Unknown(name),
        )) == !({
            ||| takes_one(text::upper(name))
            ||| takes_two(text::upper(name))
            ||| takes_three(text::upper(name))
            ||| takes_some(text::upper(name))
            ||| takes_a_key_and_more(text::upper(name))
            ||| takes_none(text::upper(name))
            ||| takes_in_its_own_way(text::upper(name))
        }),
{
    reveal(parse::verb_named);
    let tokens = seq![name] + args;
    assert(tokens.skip(1) =~= args);
    lemma_parsed_args_is_no_unknown(text::upper(name), args, readings);
    lemma_names();
}

proof fn lemma_parsed_args_is_no_unknown(
    name: Seq<char>,
    args: Seq<Seq<char>>,
    readings: Map<Seq<char>, ScoreView>,
)
    ensures
        parse::verb_named(name) matches Some(verb) ==> !(parse::parsed_args(
            verb,
            args,
            readings,
        ) matches Err(CommandErrorView::Unknown(_))),
{
    lemma_scored_members_is_no_unknown(args.skip(1), readings);
}

proof fn lemma_scored_members_is_no_unknown(
    args: Seq<Seq<char>>,
    readings: Map<Seq<char>, ScoreView>,
)
    ensures
        !(parse::scored_members(args, readings) matches Err(CommandErrorView::Unknown(_))),
    decreases args.len(),
{
    if args.len() >= 2 {
        lemma_scored_members_is_no_unknown(args.take(args.len() - 2), readings);
    }
}

/// Each name stands for its command.
pub proof fn lemma_names()
    ensures
        parse::verb_named("SET"@) == Some(Verb::SetKey),
        parse::verb_name(Verb::SetKey) == "SET"@,
        parse::verb_named("GET"@) == Some(Verb::Get),
        parse::verb_name(Verb::Get) == "GET"@,
        parse::verb_named("DEL"@) == Some(Verb::Del),
        parse::verb_name(Verb::Del) == "DEL"@,
        parse::verb_named("LPUSH"@) == Some(Verb::LPush),
        parse::verb_name(Verb::LPush) == "LPUSH"@,
        parse::verb_named("RPUSH"@) == Some(Verb::RPush),
        parse::verb_name(Verb::RPush) == "RPUSH"@,
        parse::verb_named("LPOP"@) == Some(Verb::LPop),
        parse::verb_name(Verb::LPop) == "LPOP"@,
        parse::verb_named("RPOP"@) == Some(Verb::RPop),
        parse::verb_name(Verb::RPop) == "RPOP"@,
        parse::verb_named("LRANGE"@) == Some(Verb::LRange),
        parse::verb_name(Verb::LRange) == "LRANGE"@,
        parse::verb_named("SADD"@) == Some(Verb::SAdd),
        parse::verb_name(Verb::SAdd) == "SADD"@,
        parse::verb_named("SREM"@) == Some(Verb::SRem),
        parse::verb_name(Verb::SRem) == "SREM"@,
        parse::verb_named("SMEMBERS"@) == Some(Verb::SMembers),
        parse::verb_name(Verb::SMembers) == "SMEMBERS"@,
        parse::verb_named("SISMEMBER"@) == Some(Verb::SIsMember),
        parse::verb_name(Verb::SIsMember) == "SISMEMBER"@,
        parse::verb_named("ZADD"@) == Some(Verb::ZAdd),
        parse::verb_name(Verb::ZAdd) == "ZADD"@,
        parse::verb_named("ZREM"@) == Some(Verb::ZRem),
        parse::verb_name(Verb::ZRem) == "ZREM"@,
        parse::verb_named("ZRANGE"@) == Some(Verb::ZRange),
        parse::verb_name(Verb::ZRange) == "ZRANGE"@,
        parse::verb_named("ZSCORE"@) == Some(Verb::ZScore),
        parse::verb_name(Verb::ZScore) == "ZSCORE"@,
        parse::verb_named("HSET"@) == Some(Verb::HSet),
        parse::verb_name(Verb::HSet) == "HSET"@,
        parse::verb_named("HGET"@) == Some(Verb::HGet),
        parse::verb_name(Verb::HGet) == "HGET"@,
        parse::verb_named("HDEL"@) == Some(Verb::HDel),
        parse::verb_name(Verb::HDel) == "HDEL"@,
        parse::verb_named("HGETALL"@) == Some(Verb::HGetAll),
        parse::verb_name(Verb::HGetAll) == "HGETALL"@,
        parse::verb_named("HKEYS"@) == Some(Verb::HKeys),
        parse::verb_name(Verb::HKeys) == "HKEYS"@,
        parse::verb_named("HVALS"@) == Some(Verb::HVals),
        parse::verb_name(Verb::HVals) == "HVALS"@,
        parse::verb_named("HLEN"@) == Some(Verb::HLen),
        parse::verb_name(Verb::HLen) == "HLEN"@,
        parse::verb_named("HEXISTS"@) == Some(Verb::HExists),
        parse::verb_name(Verb::HExists) == "HEXISTS"@,
        parse::verb_named("HINCRBY"@) == Some(Verb::HIncrBy),
        parse::verb_name(Verb::HIncrBy) == "HINCRBY"@,
        parse::verb_named("EXISTS"@) == Some(Verb::Exists),
        parse::verb_name(Verb::Exists) == "EXISTS"@,
        parse::verb_named("TYPE"@) == Some(Verb::Type),
        parse::verb_name(Verb::Type) == "TYPE"@,
        parse::verb_named("KEYS"@) == Some(Verb::Keys),
        parse::verb_name(Verb::Keys) == "KEYS"@,
        parse::verb_named("EXPIRE"@) == Some(Verb::Expire),
        parse::verb_name(Verb::Expire) == "EXPIRE"@,
        parse::verb_named("TTL"@) == Some(Verb::Ttl),
        parse::verb_name(Verb::Ttl) == "TTL"@,
        parse::verb_named("PERSIST"@) == Some(Verb::Persist),
        parse::verb_name(Verb::Persist) == "PERSIST"@,
        parse::verb_named("RENAME"@) == Some(Verb::Rename),
        parse::verb_name(Verb::Rename) == "RENAME"@,
        parse::verb_named("PING"@) == Some(Verb::Ping),
        parse::verb_name(Verb::Ping) == "PING"@,
        parse::verb_named("ECHO"@) == Some(Verb::Echo),
        parse::verb_name(Verb::Echo) == "ECHO"@,
        parse::verb_named("DBSIZE"@) == Some(Verb::DbSize),
        parse::verb_name(Verb::DbSize) == "DBSIZE"@,
        parse::verb_named("FLUSHALL"@) == Some(Verb::FlushAll),
        parse::verb_name(Verb::FlushAll) == "FLUSHALL"@,
        parse::verb_named("INFO"@) == Some(Verb::Info),
        parse::verb_name(Verb::Info) == "INFO"@,
        parse::verb_named("SAVE"@) == Some(Verb::Save),
        parse::verb_name(Verb::Save) == "SAVE"@,
        parse::verb_named("BGSAVE"@) == Some(Verb::BgSave),
        parse::verb_name(Verb::BgSave) == "BGSAVE"@,
        parse::verb_named("PUBLISH"@) == Some(Verb::Publish),
        parse::verb_name(Verb::Publish) == "PUBLISH"@,
        parse::verb_named("INCR"@) == Some(Verb::Incr),
        parse::verb_name(Verb::Incr) == "INCR"@,
        parse::verb_named("DECR"@) == Some(Verb::Decr),
        parse::verb_name(Verb::Decr) == "DECR"@,
        parse::verb_named("INCRBY"@) == Some(Verb::IncrBy),
        parse::verb_name(Verb::IncrBy) == "INCRBY"@,
        parse::verb_named("DECRBY"@) == Some(Verb::DecrBy),
        parse::verb_name(Verb::DecrBy) == "DECRBY"@,
        parse::verb_named("APPEND"@) == Some(Verb::Append),
        parse::verb_name(Verb::Append) == "APPEND"@,
        parse::verb_named("STRLEN"@) == Some(Verb::StrLen),
        parse::verb_name(Verb::StrLen) == "STRLEN"@,
        parse::verb_named("MGET"@) == Some(Verb::MGet),
        parse::verb_name(Verb::MGet) == "MGET"@,
        parse::verb_named("MSET"@) == Some(Verb::MSet),
        parse::verb_name(Verb::MSet) == "MSET"@,
        parse::verb_named("SETNX"@) == Some(Verb::SetNx),
        parse::verb_name(Verb::SetNx) == "SETNX"@,
        parse::verb_named("GETSET"@) == Some(Verb::GetSet),
        parse::verb_name(Verb::GetSet) == "GETSET"@,
        parse::verb_named("LLEN"@) == Some(Verb::LLen),
        parse::verb_name(Verb::LLen) == "LLEN"@,
        parse::verb_named("LINDEX"@) == Some(Verb::LIndex),
        parse::verb_name(Verb::LIndex) == "LINDEX"@,
        parse::verb_named("LSET"@) == Some(Verb::LSet),
        parse::verb_name(Verb::LSet) == "LSET"@,
        parse::verb_named("SCARD"@) == Some(Verb::SCard),
        parse::verb_name(Verb::SCard) == "SCARD"@,
        parse::verb_named("SPOP"@) == Some(Verb::SPop),
        parse::verb_name(Verb::SPop) == "SPOP"@,
        parse::verb_named("SINTER"@) == Some(Verb::SInter),
        parse::verb_name(Verb::SInter) == "SINTER"@,
        parse::verb_named("SUNION"@) == Some(Verb::SUnion),
        parse::verb_name(Verb::SUnion) == "SUNION"@,
        parse::verb_named("SDIFF"@) == Some(Verb::SDiff),
        parse::verb_name(Verb::SDiff) == "SDIFF"@,
        parse::verb_named("ZCARD"@) == Some(Verb::ZCard),
        parse::verb_name(Verb::ZCard) == "ZCARD"@,
        parse::verb_named("ZRANK"@) == Some(Verb::ZRank),
        parse::verb_name(Verb::ZRank) == "ZRANK"@,
        parse::verb_named("ZINCRBY"@) == Some(Verb::ZIncrBy),
        parse::verb_name(Verb::ZIncrBy) == "ZINCRBY"@,
        parse::verb_named("ZRANGEBYSCORE"@) == Some(Verb::ZRangeByScore),
        parse::verb_name(Verb::ZRangeByScore) == "ZRANGEBYSCORE"@,
{
    reveal(parse::verb_named);
    reveal_strlit("SET");
    let name = "SET"@;
    assert(name.len() == 3 && name[0] == 'S' && name[1] == 'E' && name[2] == 'T');
    reveal_strlit("GET");
    let name = "GET"@;
    assert(name.len() == 3 && name[0] == 'G' && name[1] == 'E' && name[2] == 'T');
    reveal_strlit("DEL");
    let name = "DEL"@;
    assert(name.len() == 3 && name[0] == 'D' && name[1] == 'E' && name[2] == 'L');
    reveal_strlit("LPUSH");
    let name = "LPUSH"@;
    assert(name.len() == 5 && name[0] == 'L' && name[1] == 'P' && name[2] == 'U' && name[3] == 'S'
        && name[4] == 'H');
    reveal_strlit("RPUSH");
    let name = "RPUSH"@;
    assert(name.len() == 5 && name[0] == 'R' && name[1] == 'P' && name[2] == 'U' && name[3] == 'S'
        && name[4] == 'H');
    reveal_strlit("LPOP");
    let name = "LPOP"@;
    assert(name.len() == 4 && name[0] == 'L' && name[1] == 'P' && name[2] == 'O' && name[3] == 'P');
    reveal_strlit("RPOP");
    let name = "RPOP"@;
    assert(name.len() == 4 && name[0] == 'R' && name[1] == 'P' && name[2] == 'O' && name[3] == 'P');
    reveal_strlit("LRANGE");
    let name = "LRANGE"@;
    assert(name.len() == 6 && name[0] == 'L' && name[1] == 'R' && name[2] == 'A' && name[3] == 'N'
        && name[4] == 'G' && name[5] == 'E');
    reveal_strlit("SADD");
    let name = "SADD"@;
    assert(name.len() == 4 && name[0] == 'S' && name[1] == 'A' && name[2] == 'D' && name[3] == 'D');
    reveal_strlit("SREM");
    let name = "SREM"@;
    assert(name.len() == 4 && name[0] == 'S' && name[1] == 'R' && name[2] == 'E' && name[3] == 'M');
    reveal_strlit("SMEMBERS");
    let name = "SMEMBERS"@;
    assert(name.len() == 8 && name[0] == 'S' && name[1] == 'M' && name[2] == 'E' && name[3] == 'M'
        && name[4] == 'B' && name[5] == 'E' && name[6] == 'R' && name[7] == 'S');
    reveal_strlit("SISMEMBER");
    let name = "SISMEMBER"@;
    assert(name.len() == 9 && name[0] == 'S' && name[1] == 'I' && name[2] == 'S' && name[3] == 'M'
        && name[4] == 'E' && name[5] == 'M' && name[6] == 'B' && name[7] == 'E'
        && name[8] == 'R');
    reveal_strlit("ZADD");
    let name = "ZADD"@;
    assert(name.len() == 4 && name[0] == 'Z' && name[1] == 'A' && name[2] == 'D' && name[3] == 'D');
    reveal_strlit("ZREM");
    let name = "ZREM"@;
    assert(name.len() == 4 && name[0] == 'Z' && name[1] == 'R' && name[2] == 'E' && name[3] == 'M');
    reveal_strlit("ZRANGE");
    let name = "ZRANGE"@;
    assert(name.len() == 6 && name[0] == 'Z' && name[1] == 'R' && name[2] == 'A' && name[3] == 'N'
        && name[4] == 'G' && name[5] == 'E');
    reveal_strlit("ZSCORE");
    let name = "ZSCORE"@;
    assert(name.len() == 6 && name[0] == 'Z' && name[1] == 'S' && name[2] == 'C' && name[3] == 'O'
        && name[4] == 'R' && name[5] == 'E');
    reveal_strlit("HSET");
    let name = "HSET"@;
    assert(name.len() == 4 && name[0] == 'H' && name[1] == 'S' && name[2] == 'E' && name[3] == 'T');
    reveal_strlit("HGET");
    let name = "HGET"@;
    assert(name.len() == 4 && name[0] == 'H' && name[1] == 'G' && name[2] == 'E' && name[3] == 'T');
    reveal_strlit("HDEL");
    let name = "HDEL"@;
    assert(name.len() == 4 && name[0] == 'H' && name[1] == 'D' && name[2] == 'E' && name[3] == 'L');
    reveal_strlit("HGETALL");
    let name = "HGETALL"@;
    assert(name.len() == 7 && name[0] == 'H' && name[1] == 'G' && name[2] == 'E' && name[3] == 'T'
        && name[4] == 'A' && name[5] == 'L' && name[6] == 'L');
    reveal_strlit("HKEYS");
    let name = "HKEYS"@;
    assert(name.len() == 5 && name[0] == 'H' && name[1] == 'K' && name[2] == 'E' && name[3] == 'Y'
        && name[4] == 'S');
    reveal_strlit("HVALS");
    let name = "HVALS"@;
    assert(name.len() == 5 && name[0] == 'H' && name[1] == 'V' && name[2] == 'A' && name[3] == 'L'
        && name[4] == 'S');
    reveal_strlit("HLEN");
    let name = "HLEN"@;
    assert(name.len() == 4 && name[0] == 'H' && name[1] == 'L' && name[2] == 'E' && name[3] == 'N');
    reveal_strlit("HEXISTS");
    let name = "HEXISTS"@;
    assert(name.len() == 7 && name[0] == 'H' && name[1] == 'E' && name[2] == 'X' && name[3] == 'I'
        && name[4] == 'S' && name[5] == 'T' && name[6] == 'S');
    reveal_strlit("HINCRBY");
    let name = "HINCRBY"@;
    assert(name.len() == 7 && name[0] == 'H' && name[1] == 'I' && name[2] == 'N' && name[3] == 'C'
        && name[4] == 'R' && name[5] == 'B' && name[6] == 'Y');
    reveal_strlit("EXISTS");
    let name = "EXISTS"@;
    assert(name.len() == 6 && name[0] == 'E' && name[1] == 'X' && name[2] == 'I' && name[3] == 'S'
        && name[4] == 'T' && name[5] == 'S');
    reveal_strlit("TYPE");
    let name = "TYPE"@;
    assert(name.len() == 4 && name[0] == 'T' && name[1] == 'Y' && name[2] == 'P' && name[3] == 'E');
    reveal_strlit("KEYS");
    let name = "KEYS"@;
    assert(name.len() == 4 && name[0] == 'K' && name[1] == 'E' && name[2] == 'Y' && name[3] == 'S');
    reveal_strlit("EXPIRE");
    let name = "EXPIRE"@;
    assert(name.len() == 6 && name[0] == 'E' && name[1] == 'X' && name[2] == 'P' && name[3] == 'I'
        && name[4] == 'R' && name[5] == 'E');
    reveal_strlit("TTL");
    let name = "TTL"@;
    assert(name.len() == 3 && name[0] == 'T' && name[1] == 'T' && name[2] == 'L');
    reveal_strlit("PERSIST");
    let name = "PERSIST"@;
    assert(name.len() == 7 && name[0] == 'P' && name[1] == 'E' && name[2] == 'R' && name[3] == 'S'
        && name[4] == 'I' && name[5] == 'S' && name[6] == 'T');
    reveal_strlit("RENAME");
    let name = "RENAME"@;
    assert(name.len() == 6 && name[0] == 'R' && name[1] == 'E' && name[2] == 'N' && name[3] == 'A'
        && name[4] == 'M' && name[5] == 'E');
    reveal_strlit("PING");
    let name = "PING"@;
    assert(name.len() == 4 && name[0] == 'P' && name[1] == 'I' && name[2] == 'N' && name[3] == 'G');
    reveal_strlit("ECHO");
    let name = "ECHO"@;
    assert(name.len() == 4 && name[0] == 'E' && name[1] == 'C' && name[2] == 'H' && name[3] == 'O');
    reveal_strlit("DBSIZE");
    let name = "DBSIZE"@;
    assert(name.len() == 6 && name[0] == 'D' && name[1] == 'B' && name[2] == 'S' && name[3] == 'I'
        && name[4] == 'Z' && name[5] == 'E');
    reveal_strlit("FLUSHALL");
    let name = "FLUSHALL"@;
    assert(name.len() == 8 && name[0] == 'F' && name[1] == 'L' && name[2] == 'U' && name[3] == 'S'
        && name[4] == 'H' && name[5] == 'A' && name[6] == 'L' && name[7] == 'L');
    reveal_strlit("INFO");
    let name = "INFO"@;
    assert(name.len() == 4 && name[0] == 'I' && name[1] == 'N' && name[2] == 'F' && name[3] == 'O');
    reveal_strlit("SAVE");
    let name = "SAVE"@;
    assert(name.len() == 4 && name[0] == 'S' && name[1] == 'A' && name[2] == 'V' && name[3] == 'E');
    reveal_strlit("BGSAVE");
    let name = "BGSAVE"@;
    assert(name.len() == 6 && name[0] == 'B' && name[1] == 'G' && name[2] == 'S' && name[3] == 'A'
        && name[4] == 'V' && name[5] == 'E');
    reveal_strlit("PUBLISH");
    let name = "PUBLISH"@;
    assert(name.len() == 7 && name[0] == 'P' && name[1] == 'U' && name[2] == 'B' && name[3] == 'L'
        && name[4] == 'I' && name[5] == 'S' && name[6] == 'H');
    reveal_strlit("INCR");
    let name = "INCR"@;
    assert(name.len() == 4 && name[0] == 'I' && name[1] == 'N' && name[2] == 'C' && name[3] == 'R');
    reveal_strlit("DECR");
    let name = "DECR"@;
    assert(name.len() == 4 && name[0] == 'D' && name[1] == 'E' && name[2] == 'C' && name[3] == 'R');
    reveal_strlit("INCRBY");
    let name = "INCRBY"@;
    assert(name.len() == 6 && name[0] == 'I' && name[1] == 'N' && name[2] == 'C' && name[3] == 'R'
        && name[4] == 'B' && name[5] == 'Y');
    reveal_strlit("DECRBY");
    let name = "DECRBY"@;
    assert(name.len() == 6 && name[0] == 'D' && name[1] == 'E' && name[2] == 'C' && name[3] == 'R'
        && name[4] == 'B' && name[5] == 'Y');
    reveal_strlit("APPEND");
    let name = "APPEND"@;
    assert(name.len() == 6 && name[0] == 'A' && name[1] == 'P' && name[2] == 'P' && name[3] == 'E'
        && name[4] == 'N' && name[5] == 'D');
    reveal_strlit("STRLEN");
    let name = "STRLEN"@;
    assert(name.len() == 6 && name[0] == 'S' && name[1] == 'T' && name[2] == 'R' && name[3] == 'L'
        && name[4] == 'E' && name[5] == 'N');
    reveal_strlit("MGET");
    let name = "MGET"@;
    assert(name.len() == 4 && name[0] == 'M' && name[1] == 'G' && name[2] == 'E' && name[3] == 'T');
    reveal_strlit("MSET");
    let name = "MSET"@;
    assert(name.len() == 4 && name[0] == 'M' && name[1] == 'S' && name[2] == 'E' && name[3] == 'T');
    reveal_strlit("SETNX");
    let name = "SETNX"@;
    assert(name.len() == 5 && name[0] == 'S' && name[1] == 'E' && name[2] == 'T' && name[3] == 'N'
        && name[4] == 'X');
    reveal_strlit("GETSET");
    let name = "GETSET"@;
    assert(name.len() == 6 && name[0] == 'G' && name[1] == 'E' && name[2] == 'T' && name[3] == 'S'
        && name[4] == 'E' && name[5] == 'T');
    reveal_strlit("LLEN");
    let name = "LLEN"@;
    assert(name.len() == 4 && name[0] == 'L' && name[1] == 'L' && name[2] == 'E' && name[3] == 'N');
    reveal_strlit("LINDEX");
    let name = "LINDEX"@;
    assert(name.len() == 6 && name[0] == 'L' && name[1] == 'I' && name[2] == 'N' && name[3] == 'D'
        && name[4] == 'E' && name[5] == 'X');
    reveal_strlit("LSET");
    let name = "LSET"@;
    assert(name.len() == 4 && name[0] == 'L' && name[1] == 'S' && name[2] == 'E' && name[3] == 'T');
    reveal_strlit("SCARD");
    let name = "SCARD"@;
    assert(name.len() == 5 && name[0] == 'S' && name[1] == 'C' && name[2] == 'A' && name[3] == 'R'
        && name[4] == 'D');
    reveal_strlit("SPOP");
    let name = "SPOP"@;
    assert(name.len() == 4 && name[0] == 'S' && name[1] == 'P' && name[2] == 'O' && name[3] == 'P');
    reveal_strlit("SINTER");
    let name = "SINTER"@;
    assert(name.len() == 6 && name[0] == 'S' && name[1] == 'I' && name[2] == 'N' && name[3] == 'T'
        && name[4] == 'E' && name[5] == 'R');
    reveal_strlit("SUNION");
    let name = "SUNION"@;
    assert(name.len() == 6 && name[0] == 'S' && name[1] == 'U' && name[2] == 'N' && name[3] == 'I'
        && name[4] == 'O' && name[5] == 'N');
    reveal_strlit("SDIFF");
    let name = "SDIFF"@;
    assert(name.len() == 5 && name[0] == 'S' && name[1] == 'D' && name[2] == 'I' && name[3] == 'F'
        && name[4] == 'F');
    reveal_strlit("ZCARD");
    let name = "ZCARD"@;
    assert(name.len() == 5 && name[0] == 'Z' && name[1] == 'C' && name[2] == 'A' && name[3] == 'R'
        && name[4] == 'D');
    reveal_strlit("ZRANK");
    let name = "ZRANK"@;
    assert(name.len() == 5 && name[0] == 'Z' && name[1] == 'R' && name[2] == 'A' && name[3] == 'N'
        && name[4] == 'K');
    reveal_strlit("ZINCRBY");
    let name = "ZINCRBY"@;
    assert(name.len() == 7 && name[0] == 'Z' && name[1] == 'I' && name[2] == 'N' && name[3] == 'C'
        && name[4] == 'R' && name[5] == 'B' && name[6] == 'Y');
    reveal_strlit("ZRANGEBYSCORE");
    let name = "ZRANGEBYSCORE"@;
    assert(name.len() == 13 && name[0] == 'Z' && name[1] == 'R' && name[2] == 'A'
        && name[3] == 'N' && name[4] == 'G' && name[5] == 'E' && name[6] == 'B' && name[7] == 'Y'
        && name[8] == 'S' && name[9] == 'C' && name[10] == 'O' && name[11] == 'R'
        && name[12] == 'E');
}

pub(crate) proof fn lemma_named_set()
    ensures
        parse::verb_named("SET"@) == Some(Verb::SetKey),
        parse::verb_name(Verb::SetKey) == "SET"@,
{
    lemma_names();
}

pub(crate) proof fn lemma_named_get()
    ensures
        parse::verb_named("GET"@) == Some(Verb::Get),
        parse::verb_name(Verb::Get) == "GET"@,
{
    lemma_names();
}

pub(crate) proof fn lemma_named_del()
    ensures
        parse::verb_named("DEL"@) == Some(Verb::Del),
        parse::verb_name(Verb::Del) == "DEL"@,
{
    lemma_names();
}

pub(crate) proof fn lemma_named_lpush()
    ensures
        parse::verb_named("LPUSH"@) == Some(Verb::LPush),
        parse::verb_name(Verb::LPush) == "LPUSH"@,
{
    lemma_names();
}

pub(crate) proof fn lemma_named_rpush()
    ensures
        parse::verb_named("RPUSH"@) == Some(Verb::RPush),
        parse::verb_name(Verb::RPush) == "RPUSH"@,
{
    lemma_names();
}

pub(crate) proof fn lemma_named_lpop()
    ensures
        parse::verb_named("LPOP"@) == Some(Verb::LPop),
        parse::verb_name(Verb::LPop) == "LPOP"@,
{
    lemma_names();
}

pub(crate) proof fn lemma_named_rpop()
    ensures
        parse::verb_named("RPOP"@) == Some(Verb::RPop),
        parse::verb_name(Verb::RPop) == "RPOP"@,
{
    lemma_names();
}

pub(crate) proof fn lemma_named_lrange()
    ensures
        parse::verb_named("LRANGE"@) == Some(Verb::LRange),
        parse::verb_name(Verb::LRange) == "LRANGE"@,
{
    lemma_names();
}

pub(crate) proof fn lemma_named_sadd()
    ensures
        parse::verb_named("SADD"@) == Some(Verb::SAdd),
        parse::verb_name(Verb::SAdd) == "SADD"@,
{
    lemma_names();
}

pub(crate) proof fn lemma_named_srem()
    ensures
        parse::verb_named("SREM"@) == Some(Verb::SRem),
        parse::verb_name(Verb::SRem) == "SREM"@,
{
    lemma_names();
}

pub(crate) proof fn lemma_named_smembers()
    ensures
        parse::verb_named("SMEMBERS"@) == Some(Verb::SMembers),
        parse::verb_name(Verb::SMembers) == "SMEMBERS"@,
{
    lemma_names();
}

pub(crate) proof fn lemma_named_sismember()
    ensures
        parse::verb_named("SISMEMBER"@) == Some(Verb::SIsMember),
        parse::verb_name(Verb::SIsMember) == "SISMEMBER"@,
{
    lemma_names();
}

pub(crate) proof fn lemma_named_zadd()
    ensures
        parse::verb_named("ZADD"@) == Some(Verb::ZAdd),
        parse::verb_name(Verb::ZAdd) == "ZADD"@,
{
    lemma_names();
}

pub(crate) proof fn lemma_named_zrem()
    ensures
        parse::verb_named("ZREM"@) == Some(Verb::ZRem),
        parse::verb_name(Verb::ZRem) == "ZREM"@,
{
    lemma_names();
}

pub(crate) proof fn lemma_named_zrange()
    ensures
        parse::verb_named("ZRANGE"@) == Some(Verb::ZRange),
        parse::verb_name(Verb::ZRange) == "ZRANGE"@,
{
    lemma_names();
}

pub(crate) proof fn lemma_named_zscore()
    ensures
        parse::verb_named("ZSCORE"@) == Some(Verb::ZScore),
        parse::verb_name(Verb::ZScore) == "ZSCORE"@,
{
    lemma_names();
}

pub(crate) proof fn lemma_named_hset()
    ensures
        parse::verb_named("HSET"@) == Some(Verb::HSet),
        parse::verb_name(Verb::HSet) == "HSET"@,
{
    lemma_names();
}

pub(crate) proof fn lemma_named_hget()
    ensures
        parse::verb_named("HGET"@) == Some(Verb::HGet),
        parse::verb_name(Verb::HGet) == "HGET"@,
{
    lemma_names();
}

pub(crate) proof fn lemma_named_hdel()
    ensures
        parse::verb_named("HDEL"@) == Some(Verb::HDel),
        parse::verb_name(Verb::HDel) == "HDEL"@,
{
    lemma_names();
}

pub(crate) proof fn lemma_named_hgetall()
    ensures
        parse::verb_named("HGETALL"@) == Some(Verb::HGetAll),
        parse::verb_name(Verb::HGetAll) == "HGETALL"@,
{
    lemma_names();
}

pub(crate) proof fn lemma_named_hkeys()
    ensures
        parse::verb_named("HKEYS"@) == Some(Verb::HKeys),
        parse::verb_name(Verb::HKeys) == "HKEYS"@,
{
    lemma_names();
}

pub(crate) proof fn lemma_named_hvals()
    ensures
        parse::verb_named("HVALS"@) == Some(Verb::HVals),
        parse::verb_name(Verb::HVals) == "HVALS"@,
{
    lemma_names();
}

pub(crate) proof fn lemma_named_hlen()
    ensures
        parse::verb_named("HLEN"@) == Some(Verb::HLen),
        parse::verb_name(Verb::HLen) == "HLEN"@,
{
    lemma_names();
}

pub(crate) proof fn lemma_named_hexists()
    ensures
        parse::verb_named("HEXISTS"@) == Some(Verb::HExists),
        parse::verb_name(Verb::HExists) == "HEXISTS"@,
{
    lemma_names();
}

pub(crate) proof fn lemma_named_hincrby()
    ensures
        parse::verb_named("HINCRBY"@) == Some(Verb::HIncrBy),
        parse::verb_name(Verb::HIncrBy) == "HINCRBY"@,
{
    lemma_names();
}

pub(crate) proof fn lemma_named_exists()
    ensures
        parse::verb_named("EXISTS"@) == Some(Verb::Exists),
        parse::verb_name(Verb::Exists) == "EXISTS"@,
{
    lemma_names();
}

pub(crate) proof fn lemma_named_type()
    ensures
        parse::verb_named("TYPE"@) == Some(Verb::Type),
        parse::verb_name(Verb::Type) == "TYPE"@,
{
    lemma_names();
}

pub(crate) proof fn lemma_named_keys()
    ensures
        parse::verb_named("KEYS"@) == Some(Verb::Keys),
        parse::verb_name(Verb::Keys) == "KEYS"@,
{
    lemma_names();
}

pub(crate) proof fn lemma_named_expire()
    ensures
        parse::verb_named("EXPIRE"@) == Some(Verb::Expire),
        parse::verb_name(Verb::Expire) == "EXPIRE"@,
{
    lemma_names();
}

pub(crate) proof fn lemma_named_ttl()
    ensures
        parse::verb_named("TTL"@) == Some(Verb::Ttl),
        parse::verb_name(Verb::Ttl) == "TTL"@,
{
    lemma_names();
}

pub(crate) proof fn lemma_named_persist()
    ensures
        parse::verb_named("PERSIST"@) == Some(Verb::Persist),
        parse::verb_name(Verb::Persist) == "PERSIST"@,
{
    lemma_names();
}

pub(crate) proof fn lemma_named_rename()
    ensures
        parse::verb_named("RENAME"@) == Some(Verb::Rename),
        parse::verb_name(Verb::Rename) == "RENAME"@,
{
    lemma_names();
}

pub(crate) proof fn lemma_named_ping()
    ensures
        parse::verb_named("PING"@) == Some(Verb::Ping),
        parse::verb_name(Verb::Ping) == "PING"@,
{
    lemma_names();
}

pub(crate) proof fn lemma_named_echo()
    ensures
        parse::verb_named("ECHO"@) == Some(Verb::Echo),
        parse::verb_name(Verb::Echo) == "ECHO"@,
{
    lemma_names();
}

pub(crate) proof fn lemma_named_dbsize()
    ensures
        parse::verb_named("DBSIZE"@) == Some(Verb::DbSize),
        parse::verb_name(Verb::DbSize) == "DBSIZE"@,
{
    lemma_names();
}

pub(crate) proof fn lemma_named_flushall()
    ensures
        parse::verb_named("FLUSHALL"@) == Some(Verb::FlushAll),
        parse::verb_name(Verb::FlushAll) == "FLUSHALL"@,
{
    lemma_names();
}

pub(crate) proof fn lemma_named_info()
    ensures
        parse::verb_named("INFO"@) == Some(Verb::Info),
        parse::verb_name(Verb::Info) == "INFO"@,
{
    lemma_names();
}

pub(crate) proof fn lemma_named_save()
    ensures
        parse::verb_named("SAVE"@) == Some(Verb::Save),
        parse::verb_name(Verb::Save) == "SAVE"@,
{
    lemma_names();
}

pub(crate) proof fn lemma_named_bgsave()
    ensures
        parse::verb_named("BGSAVE"@) == Some(Verb::BgSave),
        parse::verb_name(Verb::BgSave) == "BGSAVE"@,
{
    lemma_names();
}

pub(crate) proof fn lemma_named_publish()
    ensures
        parse::verb_named("PUBLISH"@) == Some(Verb::Publish),
        parse::verb_name(Verb::Publish) == "PUBLISH"@,
{
    lemma_names();
}

pub(crate) proof fn lemma_named_incr()
    ensures
        parse::verb_named("INCR"@) == Some(Verb::Incr),
        parse::verb_name(Verb::Incr) == "INCR"@,
{
    lemma_names();
}

pub(crate) proof fn lemma_named_decr()
    ensures
        parse::verb_named("DECR"@) == Some(Verb::Decr),
        parse::verb_name(Verb::Decr) == "DECR"@,
{
    lemma_names();
}

pub(crate) proof fn lemma_named_incrby()
    ensures
        parse::verb_named("INCRBY"@) == Some(Verb::IncrBy),
        parse::verb_name(Verb::IncrBy) == "INCRBY"@,
{
    lemma_names();
}

pub(crate) proof fn lemma_named_decrby()
    ensures
        parse::verb_named("DECRBY"@) == Some(Verb::DecrBy),
        parse::verb_name(Verb::DecrBy) == "DECRBY"@,
{
    lemma_names();
}

pub(crate) proof fn lemma_named_append()
    ensures
        parse::verb_named("APPEND"@) == Some(Verb::Append),
        parse::verb_name(Verb::Append) == "APPEND"@,
{
    lemma_names();
}

pub(crate) proof fn lemma_named_strlen()
    ensures
        parse::verb_named("STRLEN"@) == Some(Verb::StrLen),
        parse::verb_name(Verb::StrLen) == "STRLEN"@,
{
    lemma_names();
}

pub(crate) proof fn lemma_named_mget()
    ensures
        parse::verb_named("MGET"@) == Some(Verb::MGet),
        parse::verb_name(Verb::MGet) == "MGET"@,
{
    lemma_names();
}

pub(crate) proof fn lemma_named_mset()
    ensures
        parse::verb_named("MSET"@) == Some(Verb::MSet),
        parse::verb_name(Verb::MSet) == "MSET"@,
{
    lemma_names();
}

pub(crate) proof fn lemma_named_setnx()
    ensures
        parse::verb_named("SETNX"@) == Some(Verb::SetNx),
        parse::verb_name(Verb::SetNx) == "SETNX"@,
{
    lemma_names();
}

pub(crate) proof fn lemma_named_getset()
    ensures
        parse::verb_named("GETSET"@) == Some(Verb::GetSet),
        parse::verb_name(Verb::GetSet) == "GETSET"@,
{
    lemma_names();
}

pub(crate) proof fn lemma_named_llen()
    ensures
        parse::verb_named("LLEN"@) == Some(Verb::LLen),
        parse::verb_name(Verb::LLen) == "LLEN"@,
{
    lemma_names();
}

pub(crate) proof fn lemma_named_lindex()
    ensures
        parse::verb_named("LINDEX"@) == Some(Verb::LIndex),
        parse::verb_name(Verb::LIndex) == "LINDEX"@,
{
    lemma_names();
}

pub(crate) proof fn lemma_named_lset()
    ensures
        parse::verb_named("LSET"@) == Some(Verb::LSet),
        parse::verb_name(Verb::LSet) == "LSET"@,
{
    lemma_names();
}

pub(crate) proof fn lemma_named_scard()
    ensures
        parse::verb_named("SCARD"@) == Some(Verb::SCard),
        parse::verb_name(Verb::SCard) == "SCARD"@,
{
    lemma_names();
}

pub(crate) proof fn lemma_named_spop()
    ensures
        parse::verb_named("SPOP"@) == Some(Verb::SPop),
        parse::verb_name(Verb::SPop) == "SPOP"@,
{
    lemma_names();
}

pub(crate) proof fn lemma_named_sinter()
    ensures
        parse::verb_named("SINTER"@) == Some(Verb::SInter),
        parse::verb_name(Verb::SInter) == "SINTER"@,
{
    lemma_names();
}

pub(crate) proof fn lemma_named_sunion()
    ensures
        parse::verb_named("SUNION"@) == Some(Verb::SUnion),
        parse::verb_name(Verb::SUnion) == "SUNION"@,
{
    lemma_names();
}

pub(crate) proof fn lemma_named_sdiff()
    ensures
        parse::verb_named("SDIFF"@) == Some(Verb::SDiff),
        parse::verb_name(Verb::SDiff) == "SDIFF"@,
{
    lemma_names();
}

pub(crate) proof fn lemma_named_zcard()
    ensures
        parse::verb_named("ZCARD"@) == Some(Verb::ZCard),
        parse::verb_name(Verb::ZCard) == "ZCARD"@,
{
    lemma_names();
}

pub(crate) proof fn lemma_named_zrank()
    ensures
        parse::verb_named("ZRANK"@) == Some(Verb::ZRank),
        parse::verb_name(Verb::ZRank) == "ZRANK"@,
{
    lemma_names();
}

pub(crate) proof fn lemma_named_zincrby()
    ensures
        parse::verb_named("ZINCRBY"@) == Some(Verb::ZIncrBy),
        parse::verb_name(Verb::ZIncrBy) == "ZINCRBY"@,
{
    lemma_names();
}

pub(crate) proof fn lemma_named_zrangebyscore()
    ensures
        parse::verb_named("ZRANGEBYSCORE"@) == Some(Verb::ZRangeByScore),
        parse::verb_name(Verb::ZRangeByScore) == "ZRANGEBYSCORE"@,
{
    lemma_names();
}

} // verus!
