//! Command handling, split into three clear stages:
//!
//! 1. [`Command::parse`] turns the already-tokenized request into a typed
//!    [`Command`], reporting a [`CommandError`] for anything malformed.
//! 2. [`execute`](execute::execute) runs a parsed command against the
//!    [`Database`](crate::database::db::Database).
//! 3. [`resp`](crate::resp) turns the result into a RESP reply.
//!
//! Parsing takes a slice of tokens rather than a raw line, so the same code
//! serves both the inline protocol and RESP array requests — the server does
//! the tokenizing and this module never cares which framing was used.
use vstd::prelude::*;

use crate::database::data_structure;
use crate::database::model;
use crate::resp;
use crate::score::{Score, ScoreView};
use crate::text;

pub mod dispatch;
pub mod execute;
pub mod history;
pub mod laws;
pub mod meaning;
pub mod names;
pub mod parse;
pub mod refusals;

verus! {

/// A fully parsed, validated client command.
pub enum Command {
    SetKey { key: String, value: String, ttl: Option<u64> },
    Get { key: String },
    Del { keys: Vec<String> },
    LPush { key: String, values: Vec<String> },
    RPush { key: String, values: Vec<String> },
    LPop { key: String },
    RPop { key: String },
    LRange { key: String, start: i64, stop: i64 },
    SAdd { key: String, values: Vec<String> },
    SRem { key: String, values: Vec<String> },
    SMembers { key: String },
    SIsMember { key: String, value: String },
    ZAdd { key: String, members: Vec<(Score, String)> },
    ZRem { key: String, member: String },
    ZRange { key: String, start: i64, stop: i64, with_scores: bool },
    ZScore { key: String, member: String },
    HSet { key: String, field: String, value: String },
    HGet { key: String, field: String },
    HDel { key: String, field: String },
    HGetAll { key: String },
    HKeys { key: String },
    HVals { key: String },
    HLen { key: String },
    HExists { key: String, field: String },
    HIncrBy { key: String, field: String, delta: i64 },
    Exists { keys: Vec<String> },
    Type { key: String },
    Keys { pattern: String },
    Expire { key: String, seconds: i64 },
    Ttl { key: String },
    Persist { key: String },
    Rename { key: String, new_key: String },
    Ping { message: Option<String> },
    Echo { message: String },
    DbSize,
    FlushAll,
    Info,
    Save,
    BgSave,
    Publish { channel: String, message: String },
    IncrBy { key: String, delta: i64 },
    Append { key: String, value: String },
    StrLen { key: String },
    MGet { keys: Vec<String> },
    MSet { pairs: Vec<(String, String)> },
    SetNx { key: String, value: String },
    GetSet { key: String, value: String },
    LLen { key: String },
    LIndex { key: String, index: i64 },
    LSet { key: String, index: i64, value: String },
    SCard { key: String },
    SPop { key: String },
    SInter { keys: Vec<String> },
    SUnion { keys: Vec<String> },
    SDiff { keys: Vec<String> },
    ZCard { key: String },
    ZRank { key: String, member: String },
    ZIncrBy { key: String, increment: Score, member: String },
    ZRangeByScore { key: String, min: Score, min_inclusive: bool, max: Score, max_inclusive: bool },
}

/// What a command holds.
pub enum CommandView {
    SetKey { key: Seq<char>, value: Seq<char>, ttl: Option<u64> },
    Get { key: Seq<char> },
    Del { keys: Seq<Seq<char>> },
    LPush { key: Seq<char>, values: Seq<Seq<char>> },
    RPush { key: Seq<char>, values: Seq<Seq<char>> },
    LPop { key: Seq<char> },
    RPop { key: Seq<char> },
    LRange { key: Seq<char>, start: i64, stop: i64 },
    SAdd { key: Seq<char>, values: Seq<Seq<char>> },
    SRem { key: Seq<char>, values: Seq<Seq<char>> },
    SMembers { key: Seq<char> },
    SIsMember { key: Seq<char>, value: Seq<char> },
    ZAdd { key: Seq<char>, members: Seq<(ScoreView, Seq<char>)> },
    ZRem { key: Seq<char>, member: Seq<char> },
    ZRange { key: Seq<char>, start: i64, stop: i64, with_scores: bool },
    ZScore { key: Seq<char>, member: Seq<char> },
    HSet { key: Seq<char>, field: Seq<char>, value: Seq<char> },
    HGet { key: Seq<char>, field: Seq<char> },
    HDel { key: Seq<char>, field: Seq<char> },
    HGetAll { key: Seq<char> },
    HKeys { key: Seq<char> },
    HVals { key: Seq<char> },
    HLen { key: Seq<char> },
    HExists { key: Seq<char>, field: Seq<char> },
    HIncrBy { key: Seq<char>, field: Seq<char>, delta: i64 },
    Exists { keys: Seq<Seq<char>> },
    Type { key: Seq<char> },
    Keys { pattern: Seq<char> },
    Expire { key: Seq<char>, seconds: i64 },
    Ttl { key: Seq<char> },
    Persist { key: Seq<char> },
    Rename { key: Seq<char>, new_key: Seq<char> },
    Ping { message: Option<Seq<char>> },
    Echo { message: Seq<char> },
    DbSize,
    FlushAll,
    Info,
    Save,
    BgSave,
    Publish { channel: Seq<char>, message: Seq<char> },
    IncrBy { key: Seq<char>, delta: i64 },
    Append { key: Seq<char>, value: Seq<char> },
    StrLen { key: Seq<char> },
    MGet { keys: Seq<Seq<char>> },
    MSet { pairs: Seq<(Seq<char>, Seq<char>)> },
    SetNx { key: Seq<char>, value: Seq<char> },
    GetSet { key: Seq<char>, value: Seq<char> },
    LLen { key: Seq<char> },
    LIndex { key: Seq<char>, index: i64 },
    LSet { key: Seq<char>, index: i64, value: Seq<char> },
    SCard { key: Seq<char> },
    SPop { key: Seq<char> },
    SInter { keys: Seq<Seq<char>> },
    SUnion { keys: Seq<Seq<char>> },
    SDiff { keys: Seq<Seq<char>> },
    ZCard { key: Seq<char> },
    ZRank { key: Seq<char>, member: Seq<char> },
    ZIncrBy { key: Seq<char>, increment: ScoreView, member: Seq<char> },
    ZRangeByScore {
        key: Seq<char>,
        min: ScoreView,
        min_inclusive: bool,
        max: ScoreView,
        max_inclusive: bool,
    },
}

impl View for Command {
    type V = CommandView;

    open spec fn view(&self) -> CommandView {
        match self {
            Command::SetKey { key, value, ttl } => CommandView::SetKey {
                key: key@,
                value: value@,
                ttl: *ttl,
            },
            Command::Get { key } => CommandView::Get { key: key@ },
            Command::Del { keys } => CommandView::Del { keys: text::texts(keys@) },
            Command::LPush { key, values } => CommandView::LPush {
                key: key@,
                values: text::texts(values@),
            },
            Command::RPush { key, values } => CommandView::RPush {
                key: key@,
                values: text::texts(values@),
            },
            Command::LPop { key } => CommandView::LPop { key: key@ },
            Command::RPop { key } => CommandView::RPop { key: key@ },
            Command::LRange { key, start, stop } => CommandView::LRange {
                key: key@,
                start: *start,
                stop: *stop,
            },
            Command::SAdd { key, values } => CommandView::SAdd {
                key: key@,
                values: text::texts(values@),
            },
            Command::SRem { key, values } => CommandView::SRem {
                key: key@,
                values: text::texts(values@),
            },
            Command::SMembers { key } => CommandView::SMembers { key: key@ },
            Command::SIsMember { key, value } => CommandView::SIsMember {
                key: key@,
                value: value@,
            },
            Command::ZAdd { key, members } => CommandView::ZAdd {
                key: key@,
                members: model::added_texts(members@),
            },
            Command::ZRem { key, member } => CommandView::ZRem { key: key@, member: member@ },
            Command::ZRange { key, start, stop, with_scores } => CommandView::ZRange {
                key: key@,
                start: *start,
                stop: *stop,
                with_scores: *with_scores,
            },
            Command::ZScore { key, member } => CommandView::ZScore { key: key@, member: member@ },
            Command::HSet { key, field, value } => CommandView::HSet {
                key: key@,
                field: field@,
                value: value@,
            },
            Command::HGet { key, field } => CommandView::HGet { key: key@, field: field@ },
            Command::HDel { key, field } => CommandView::HDel { key: key@, field: field@ },
            Command::HGetAll { key } => CommandView::HGetAll { key: key@ },
            Command::HKeys { key } => CommandView::HKeys { key: key@ },
            Command::HVals { key } => CommandView::HVals { key: key@ },
            Command::HLen { key } => CommandView::HLen { key: key@ },
            Command::HExists { key, field } => CommandView::HExists { key: key@, field: field@ },
            Command::HIncrBy { key, field, delta } => CommandView::HIncrBy {
                key: key@,
                field: field@,
                delta: *delta,
            },
            Command::Exists { keys } => CommandView::Exists { keys: text::texts(keys@) },
            Command::Type { key } => CommandView::Type { key: key@ },
            Command::Keys { pattern } => CommandView::Keys { pattern: pattern@ },
            Command::Expire { key, seconds } => CommandView::Expire {
                key: key@,
                seconds: *seconds,
            },
            Command::Ttl { key } => CommandView::Ttl { key: key@ },
            Command::Persist { key } => CommandView::Persist { key: key@ },
            Command::Rename { key, new_key } => CommandView::Rename {
                key: key@,
                new_key: new_key@,
            },
            Command::Ping { message } => CommandView::Ping {
                message: resp::optional_text(*message),
            },
            Command::Echo { message } => CommandView::Echo { message: message@ },
            Command::DbSize => CommandView::DbSize,
            Command::FlushAll => CommandView::FlushAll,
            Command::Info => CommandView::Info,
            Command::Save => CommandView::Save,
            Command::BgSave => CommandView::BgSave,
            Command::Publish { channel, message } => CommandView::Publish {
                channel: channel@,
                message: message@,
            },
            Command::IncrBy { key, delta } => CommandView::IncrBy { key: key@, delta: *delta },
            Command::Append { key, value } => CommandView::Append { key: key@, value: value@ },
            Command::StrLen { key } => CommandView::StrLen { key: key@ },
            Command::MGet { keys } => CommandView::MGet { keys: text::texts(keys@) },
            Command::MSet { pairs } => CommandView::MSet {
                pairs: data_structure::pair_texts(pairs@),
            },
            Command::SetNx { key, value } => CommandView::SetNx { key: key@, value: value@ },
            Command::GetSet { key, value } => CommandView::GetSet { key: key@, value: value@ },
            Command::LLen { key } => CommandView::LLen { key: key@ },
            Command::LIndex { key, index } => CommandView::LIndex { key: key@, index: *index },
            Command::LSet { key, index, value } => CommandView::LSet {
                key: key@,
                index: *index,
                value: value@,
            },
            Command::SCard { key } => CommandView::SCard { key: key@ },
            Command::SPop { key } => CommandView::SPop { key: key@ },
            Command::SInter { keys } => CommandView::SInter { keys: text::texts(keys@) },
            Command::SUnion { keys } => CommandView::SUnion { keys: text::texts(keys@) },
            Command::SDiff { keys } => CommandView::SDiff { keys: text::texts(keys@) },
            Command::ZCard { key } => CommandView::ZCard { key: key@ },
            Command::ZRank { key, member } => CommandView::ZRank { key: key@, member: member@ },
            Command::ZIncrBy { key, increment, member } => CommandView::ZIncrBy {
                key: key@,
                increment: increment@,
                member: member@,
            },
            Command::ZRangeByScore { key, min, min_inclusive, max, max_inclusive } =>
                CommandView::ZRangeByScore {
                    key: key@,
                    min: min@,
                    min_inclusive: *min_inclusive,
                    max: max@,
                    max_inclusive: *max_inclusive,
                },
        }
    }
}

/// Everything that can go wrong while parsing a request. [`message`](Self::message)
/// gives the exact text of the RESP error (without the leading `-` or trailing
/// CRLF that [`resp::error`] adds).
#[derive(Debug, PartialEq, Eq)]
pub enum CommandError {
    Empty,
    Unknown(String),
    WrongArity(String),
    NotAnInteger(String),
    NotAFloat(String),
}

/// What a command error holds.
pub enum CommandErrorView {
    Empty,
    Unknown(Seq<char>),
    WrongArity(Seq<char>),
    NotAnInteger(Seq<char>),
    NotAFloat(Seq<char>),
}

impl View for CommandError {
    type V = CommandErrorView;

    open spec fn view(&self) -> CommandErrorView {
        match self {
            CommandError::Empty => CommandErrorView::Empty,
            CommandError::Unknown(name) => CommandErrorView::Unknown(name@),
            CommandError::WrongArity(command) => CommandErrorView::WrongArity(command@),
            CommandError::NotAnInteger(value) => CommandErrorView::NotAnInteger(value@),
            CommandError::NotAFloat(value) => CommandErrorView::NotAFloat(value@),
        }
    }
}

/// The text of a command error.
pub open spec fn command_error_text(error: CommandErrorView) -> Seq<char> {
    match error {
        CommandErrorView::Empty => "ERR empty command"@,
        CommandErrorView::Unknown(name) => "ERR unknown command '"@ + name + "'"@,
        CommandErrorView::WrongArity(command) => "ERR wrong number of arguments for '"@
            + text::lower(command) + "' command"@,
        CommandErrorView::NotAnInteger(value) => "ERR value '"@ + value
            + "' is not a valid integer"@,
        CommandErrorView::NotAFloat(value) => "ERR value '"@ + value + "' is not a valid float"@,
    }
}

/// `before`, `middle` and `after` in one string.
fn enclosed(before: &str, middle: &str, after: &str) -> (r: String)
    ensures
        r@ == before@ + middle@ + after@,
{
    let mut r = before.to_owned();
    r.append(middle);
    r.append(after);
    r
}

impl CommandError {
    /// The text of the error, with its error code.
    pub fn message(&self) -> (r: String)
        ensures
            r@ == command_error_text(self@),
    {
        match self {
            CommandError::Empty => "ERR empty command".to_owned(),
            CommandError::Unknown(name) => enclosed("ERR unknown command '", name.as_str(), "'"),
            CommandError::WrongArity(command) => enclosed(
                "ERR wrong number of arguments for '",
                text::to_ascii_lowercase(command.as_str()).as_str(),
                "' command",
            ),
            CommandError::NotAnInteger(value) => enclosed(
                "ERR value '",
                value.as_str(),
                "' is not a valid integer",
            ),
            CommandError::NotAFloat(value) => enclosed(
                "ERR value '",
                value.as_str(),
                "' is not a valid float",
            ),
        }
    }
}

/// Whether a command mutates the keyspace, and so is appended to the AOF once it
/// succeeds. `SAVE`/`BGSAVE` are excluded: they persist state without changing
/// it. `SPOP` is logged as the `SREM` it amounts to.
pub open spec fn writes(command: CommandView) -> bool {
    match command {
        CommandView::SetKey { .. }
        | CommandView::Del { .. }
        | CommandView::LPush { .. }
        | CommandView::RPush { .. }
        | CommandView::LPop { .. }
        | CommandView::RPop { .. }
        | CommandView::SAdd { .. }
        | CommandView::SRem { .. }
        | CommandView::ZAdd { .. }
        | CommandView::ZRem { .. }
        | CommandView::HSet { .. }
        | CommandView::HDel { .. }
        | CommandView::HIncrBy { .. }
        | CommandView::Expire { .. }
        | CommandView::Persist { .. }
        | CommandView::Rename { .. }
        | CommandView::FlushAll
        | CommandView::IncrBy { .. }
        | CommandView::Append { .. }
        | CommandView::MSet { .. }
        | CommandView::SetNx { .. }
        | CommandView::GetSet { .. }
        | CommandView::LSet { .. }
        | CommandView::ZIncrBy { .. } => true,
        _ => false,
    }
}

impl Command {
    /// Whether this command mutates the keyspace, and so should be appended to
    /// the AOF once it succeeds.
    pub fn is_write(&self) -> (r: bool)
        ensures
            r == writes(self@),
    {
        match self {
            Command::SetKey { .. }
            | Command::Del { .. }
            | Command::LPush { .. }
            | Command::RPush { .. }
            | Command::LPop { .. }
            | Command::RPop { .. }
            | Command::SAdd { .. }
            | Command::SRem { .. }
            | Command::ZAdd { .. }
            | Command::ZRem { .. }
            | Command::HSet { .. }
            | Command::HDel { .. }
            | Command::HIncrBy { .. }
            | Command::Expire { .. }
            | Command::Persist { .. }
            | Command::Rename { .. }
            | Command::FlushAll
            | Command::IncrBy { .. }
            | Command::Append { .. }
            | Command::MSet { .. }
            | Command::SetNx { .. }
            | Command::GetSet { .. }
            | Command::LSet { .. }
            | Command::ZIncrBy { .. } => true,
            _ => false,
        }
    }
}

} // verus!
