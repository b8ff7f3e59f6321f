//! From a tokenized request to its reply, and to what is logged of it.
use vstd::prelude::*;

use crate::command::execute;
use crate::command::execute::{
    execute, reply_error, reply_optional, Outcome, OutcomeView,
};
use crate::command::parse;
use crate::command;
use crate::command::{Command, CommandView};
use crate::database::aof::{FsyncPolicy, LogRecord};
use crate::database::db::{Database, DatabaseView, StoreError};
use crate::database::keyspace;
use crate::database::model;
use crate::resp;
use crate::score::{FloatReadings, Score, ScoreView};
use crate::text;

verus! {

broadcast use text::lemma_texts_push;

/// What a request comes to, and the record it adds to the append-only log.
pub struct Step {
    pub outcome: Outcome,
    pub log: Option<LogRecord>,
}

/// What a log record holds.
pub struct LogRecordView {
    pub payload: Seq<char>,
    pub sync: bool,
}

/// What a step holds.
pub struct StepView {
    pub outcome: OutcomeView,
    pub log: Option<LogRecordView>,
}

pub open spec fn log_view(log: Option<LogRecord>) -> Option<LogRecordView> {
    match log {
        Some(record) => Some(LogRecordView { payload: record.payload@, sync: record.sync }),
        None => None,
    }
}

impl View for Step {
    type V = StepView;

    open spec fn view(&self) -> StepView {
        StepView { outcome: self.outcome@, log: log_view(self.log) }
    }
}

/// The record that a write adds to the append-only log: none without a log, and
/// none while the log is being replayed.
pub open spec fn logged(db: DatabaseView, tokens: Seq<Seq<char>>) -> Option<LogRecordView> {
    match db.aof {
        Some(policy) => if db.replaying {
            None
        } else {
            Some(
                LogRecordView {
                    payload: resp::array_frame(tokens),
                    sync: policy == FsyncPolicy::Always,
                },
            )
        },
        None => None,
    }
}

/// Whether a reply reports an error.
pub open spec fn is_error(reply: Seq<char>) -> bool {
    reply.len() > 0 && reply[0] == '-'
}

/// What is logged of a command: successful writes only.
pub open spec fn logged_outcome(
    command: CommandView,
    db: DatabaseView,
    tokens: Seq<Seq<char>>,
    outcome: OutcomeView,
) -> Option<LogRecordView> {
    match outcome {
        OutcomeView::Reply(reply) => if command::writes(command) && !is_error(reply) {
            logged(db, tokens)
        } else {
            None
        },
        _ => None,
    }
}

/// What is logged of an `SPOP`. It removes an *arbitrary* member, so logging it
/// verbatim would replay to a different member on restart, diverging from the
/// persisted state. The equivalent `SREM` of the member actually removed is
/// logged instead — the same rewrite Redis applies.
pub open spec fn logged_pop(
    db: DatabaseView,
    key: Seq<char>,
    popped: Result<Option<Seq<char>>, StoreError>,
) -> Option<LogRecordView> {
    match popped {
        Ok(Some(member)) => logged(db, seq!["SREM"@, key, member]),
        _ => None,
    }
}

/// What a request comes to, and the database that it leaves.
pub open spec fn dispatches(
    tokens: Seq<Seq<char>>,
    readings: Map<Seq<char>, ScoreView>,
    before: DatabaseView,
    now: u64,
    after: DatabaseView,
    step: StepView,
) -> bool {
    if tokens.len() == 0 {
        &&& after == before
        &&& step == (StepView { outcome: OutcomeView::Reply(Seq::empty()), log: None })
    } else {
        match parse::parsed(tokens, readings) {
            Err(error) => {
                &&& after == before
                &&& step == (StepView {
                    outcome: OutcomeView::Reply(
                        resp::error_frame(command::command_error_text(error)),
                    ),
                    log: None,
                })
            },
            Ok(CommandView::SPop { key }) => {
                &&& after == (DatabaseView { store: after.store, ..before })
                &&& exists|popped: Result<Option<Seq<char>>, StoreError>|
                    #![trigger execute::optional_reply(popped)]
                    {
                        &&& model::pops_member(before.store, key, now, popped, after.store)
                        &&& step == (StepView {
                            outcome: OutcomeView::Reply(execute::optional_reply(popped)),
                            log: logged_pop(before, key, popped),
                        })
                    }
            },
            Ok(command) => {
                &&& execute::executes(command, before, now, after, step.outcome)
                &&& step.log == logged_outcome(command, after, tokens, step.outcome)
            },
        }
    }
}

/// Whether a reply reports an error.
pub fn reports_error(reply: &str) -> (r: bool)
    ensures
        r == is_error(reply@),
{
    !reply.is_empty() && reply.get_char(0) == '-'
}

fn log_tokens(db: &Database, tokens: &[String]) -> (r: Option<LogRecord>)
    ensures
        log_view(r) == logged(db@, text::texts(tokens@)),
{
    db.log_write(tokens)
}

/// Parses a tokenized request and executes it. An empty token list (a blank
/// line) produces no reply. `readings` gives the scores that the texts listed by
/// [`float_texts`](parse::float_texts) stand for.
pub fn dispatch(tokens: &[String], readings: &FloatReadings, db: &mut Database, now: u64) -> (r:
    Step)
    ensures
        dispatches(text::texts(tokens@), readings@, old(db)@, now, final(db)@, r@),
        keyspace::well_formed(old(db)@.store),
{
    db.note_well_formed();
    if tokens.len() == 0 {
        let reply = String::new();
        assert(reply@ =~= Seq::<char>::empty());
        return Step { outcome: Outcome::Reply(reply), log: None };
    }
    let command = match Command::parse(tokens, readings) {
        Ok(command) => command,
        Err(error) => {
            return Step {
                outcome: Outcome::Reply(resp::error(error.message().as_str())),
                log: None,
            };
        },
    };
    match command {
        Command::SPop { key } => {
            let popped = db.spop(key.as_str(), now);
            let log: Option<LogRecord> = match &popped {
                Ok(Some(member)) => {
                    let name = "SREM".to_owned();
                    let rewritten: Vec<String> = vec![name, key.clone(), member.clone()];
                    assert(text::texts(rewritten@) =~= seq!["SREM"@, key@, member@]);
                    log_tokens(db, rewritten.as_slice())
                },
                _ => None,
            };
            Step { outcome: Outcome::Reply(reply_optional(popped)), log }
        },
        command => {
            let is_write = command.is_write();
            let outcome = execute(command, db, now);
            let log: Option<LogRecord> = match &outcome {
                Outcome::Reply(reply) => {
                    if is_write && !reports_error(reply.as_str()) {
                        log_tokens(db, tokens)
                    } else {
                        None
                    }
                },
                _ => None,
            };
            Step { outcome, log }
        },
    }
}

/// The reply to `ZINCRBY` once the sum is known.
pub open spec fn zincrby_reply(
    store: keyspace::StoreView,
    key: Seq<char>,
    sum: ScoreView,
    now: u64,
) -> Seq<char> {
    match model::zset_at(store, key, now) {
        Ok(_) => resp::bulk_frame(sum.text),
        Err(error) => execute::refusal(error),
    }
}

/// What is logged of a `ZINCRBY`, once it has succeeded: the request itself.
pub open spec fn logged_zincrby(
    db: DatabaseView,
    key: Seq<char>,
    tokens: Seq<Seq<char>>,
    now: u64,
) -> Option<LogRecordView> {
    if model::zset_at(db.store, key, now) is Ok {
        logged(db, tokens)
    } else {
        None
    }
}

/// The second half of `ZINCRBY`: stores the sum of the member's score and the
/// increment. `tokens` is the request, which is logged once it has succeeded.
pub fn finish_zincrby(
    tokens: &[String],
    key: String,
    sum: Score,
    member: String,
    db: &mut Database,
    now: u64,
) -> (r: (String, Option<LogRecord>))
    ensures
        final(db)@ == old(db)@.with_store(
            model::after_zincrby(old(db)@.store, key@, sum@, member@, now),
        ),
        r.0@ == zincrby_reply(old(db)@.store, key@, sum@, now),
        log_view(r.1) == logged_zincrby(old(db)@, key@, text::texts(tokens@), now),
        keyspace::well_formed(old(db)@.store),
{
    db.note_well_formed();
    match db.zincrby(key, sum, member, now) {
        Ok(score) => {
            let log = log_tokens(db, tokens);
            (resp::bulk_string(execute::format_score(&score).as_str()), log)
        },
        Err(error) => (reply_error(error), None),
    }
}

/// The reply to `SAVE`: `OK`, or what stood in the way of the snapshot.
pub open spec fn save_reply(cause: Option<Seq<char>>) -> Seq<char> {
    match cause {
        None => execute::ok_reply(),
        Some(cause) => resp::error_frame("ERR "@ + cause),
    }
}

/// A snapshot that was written is answered with `OK`, one that was not with an error
/// that names the cause.
pub proof fn lemma_save_reply_means(cause: Seq<char>)
    ensures
        save_reply(None) == resp::simple_frame("OK"@),
        save_reply(Some(cause)) == resp::error_frame("ERR "@ + cause),
{
}

/// The reply to `SAVE` once the snapshot has been written, or has not.
pub fn reply_save(result: Result<(), String>) -> (r: String)
    ensures
        r@ == save_reply(
            match result {
                Ok(_) => None,
                Err(cause) => Some(cause@),
            },
        ),
{
    match result {
        Ok(()) => resp::simple_string("OK"),
        Err(cause) => {
            let mut message = "ERR ".to_owned();
            message.append(cause.as_str());
            resp::error(message.as_str())
        },
    }
}

} // verus!
