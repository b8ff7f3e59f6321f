//! What the append-only log recovers of a whole history of requests.
use vstd::prelude::*;
use vstd::utf8::*;

use crate::command;
use crate::command::dispatch;
use crate::command::dispatch::{LogRecordView, StepView};
use crate::command::execute::OutcomeView;
use crate::command::laws;
use crate::command::parse;
use crate::command::{CommandErrorView, CommandView};
use crate::database::db::DatabaseView;
use crate::database::keyspace;
use crate::database::keyspace::StoreView;
use crate::database::model;
use crate::resp;
use crate::score::ScoreView;
use crate::server;
use crate::server::laws as framing;

verus! {

/// A request that has been served: what it came to, the database before and after
/// it, and what was logged of it.
pub struct Served {
    pub tokens: Seq<Seq<char>>,
    pub readings: Map<Seq<char>, ScoreView>,
    pub before: DatabaseView,
    /// What the request was dispatched to.
    pub step: StepView,
    /// The database once it was dispatched.
    pub dispatched: DatabaseView,
    /// The sum that was stored, where the request was a `ZINCRBY`.
    pub sum: ScoreView,
    pub after: DatabaseView,
    pub log: Option<LogRecordView>,
}

/// Whether a request was served at `now`: dispatched, and finished where it was a
/// `ZINCRBY`.
pub open spec fn is_served(served: Served, now: u64) -> bool {
    &&& dispatch::dispatches(
        served.tokens,
        served.readings,
        served.before,
        now,
        served.dispatched,
        served.step,
    )
    &&& match served.step.outcome {
        OutcomeView::AddScores { key, current, increment, member } => {
            &&& served.after == served.dispatched.with_store(
                model::after_zincrby(served.dispatched.store, key, served.sum, member, now),
            )
            &&& served.log == dispatch::logged_zincrby(
                served.dispatched,
                key,
                served.tokens,
                now,
            )
        },
        _ => served.after == served.dispatched && served.log == served.step.log,
    }
}

/// A logged request, the command it makes, and the sum that is stored where it is
/// a `ZINCRBY`.
pub struct Record {
    pub request: Seq<Seq<char>>,
    pub readings: Map<Seq<char>, ScoreView>,
    pub command: CommandView,
    pub sum: ScoreView,
}

/// Whether the record is a request for a write whose effect is certain.
pub open spec fn is_record(record: Record) -> bool {
    &&& parse::parsed(record.request, record.readings) == Ok::<CommandView, CommandErrorView>(
        record.command,
    )
    &&& command::writes(record.command)
}

/// The keyspace that a record leaves.
pub open spec fn after_record(record: Record, store: StoreView, now: u64) -> StoreView {
    match record.command {
        CommandView::ZIncrBy { key, increment, member } => model::after_zincrby(
            store,
            key,
            record.sum,
            member,
            now,
        ),
        _ => laws::after_command(record.command, store, now),
    }
}

/// The keyspace that the records leave, one after another.
pub open spec fn replayed(store: StoreView, records: Seq<Record>, now: u64) -> StoreView
    decreases records.len(),
{
    if records.len() == 0 {
        store
    } else {
        after_record(records.last(), replayed(store, records.drop_last(), now), now)
    }
}

/// The requests of the records.
pub open spec fn record_requests(records: Seq<Record>) -> Seq<Seq<Seq<char>>> {
    records.map_values(|record: Record| record.request)
}

/// What a history of requests has written to the log.
pub open spec fn logged_payloads(history: Seq<Served>) -> Seq<Seq<char>>
    decreases history.len(),
{
    if history.len() == 0 {
        Seq::empty()
    } else {
        match history.last().log {
            Some(record) => logged_payloads(history.drop_last()).push(record.payload),
            None => logged_payloads(history.drop_last()),
        }
    }
}

/// The keyspace at the end of a history that began with `start`.
pub open spec fn final_store(start: StoreView, history: Seq<Served>) -> StoreView {
    if history.len() == 0 {
        start
    } else {
        history.last().after.store
    }
}

/// The requests that were served at `now`, one after another, from the keyspace
/// `start` on, with the append-only log in use.
pub open spec fn is_history(start: StoreView, history: Seq<Served>, now: u64) -> bool {
    forall|i: int|
        0 <= i < history.len() ==> {
            &&& is_served(#[trigger] history[i], now)
            &&& history[i].before.aof is Some
            &&& !history[i].before.replaying
            &&& history[i].before.store == final_store(start, history.take(i))
        }
}

/// Two keyspaces with the same live keys have the same live keys after a record.
proof fn lemma_record_on_same_living(
    record: Record,
    one: StoreView,
    other: StoreView,
    now: u64,
)
    requires
        keyspace::live_part(one, now) == keyspace::live_part(other, now),
    ensures
        keyspace::live_part(after_record(record, one, now), now) == keyspace::live_part(
            after_record(record, other, now),
            now,
        ),
{
    match record.command {
        CommandView::ZIncrBy { key, increment, member } => {
            laws::lemma_zincrby_on_swept(one, key, record.sum, member, now);
            laws::lemma_zincrby_on_swept(other, key, record.sum, member, now);
        },
        _ => {
            laws::lemma_effect_on_swept(record.command, one, now);
            laws::lemma_effect_on_swept(record.command, other, now);
        },
    }
}

/// A served request leaves no empty collection behind.
proof fn lemma_served_leaves_nothing_hollow(served: Served, now: u64)
    requires
        is_served(served, now),
        keyspace::nothing_hollow(served.before.store),
    ensures
        keyspace::nothing_hollow(served.after.store),
{
    laws::lemma_dispatched_leaves_nothing_hollow(
        served.tokens,
        served.readings,
        served.before,
        now,
        served.dispatched,
        served.step,
    );
    match served.step.outcome {
        OutcomeView::AddScores { key, current, increment, member } => {
            laws::lemma_zincrby_leaves_nothing_hollow(
                served.dispatched.store,
                key,
                served.sum,
                member,
                now,
            );
        },
        _ => {},
    }
}

/// A request that left a record did what the record does.
proof fn lemma_record_of(served: Served, now: u64) -> (record: Record)
    requires
        is_served(served, now),
        served.log is Some,
    ensures
        is_record(record),
        served.log->Some_0.payload == resp::array_frame(record.request),
        served.after.store == after_record(record, served.before.store, now),
{
    match served.step.outcome {
        OutcomeView::AddScores { key, current, increment, member } => {
            laws::lemma_zincrby_log_repeats_what_was_done(
                served.tokens,
                served.readings,
                served.before,
                now,
                served.dispatched,
                served.step,
                key,
                current,
                increment,
                member,
                served.sum,
                served.before,
                served.dispatched,
                served.step,
            );
            Record {
                request: served.tokens,
                readings: served.readings,
                command: CommandView::ZIncrBy { key, increment, member },
                sum: served.sum,
            }
        },
        _ => {
            laws::lemma_log_repeats_what_was_done(
                served.tokens,
                served.readings,
                served.before,
                now,
                served.dispatched,
                served.step,
            );
            let (request, command) = choose|request: Seq<Seq<char>>, command: CommandView|
                #![trigger
                    parse::parsed(request, served.readings),
                    laws::after_command(command, served.before.store, now),
                ]
                {
                    &&& served.step.log->Some_0.payload == resp::array_frame(request)
                    &&& parse::parsed(request, served.readings) == Ok::<
                        CommandView,
                        CommandErrorView,
                    >(command)
                    &&& command::writes(command)
                    &&& !(command is ZIncrBy)
                    &&& served.dispatched.store == laws::after_command(
                        command,
                        served.before.store,
                        now,
                    )
                };
            Record { request, readings: served.readings, command, sum: served.sum }
        },
    }
}

/// Replaying the log recovers the keyspace. Of any history of requests served at
/// one instant, the log holds the requests of a sequence of records; these, one
/// after another from the keyspace with which the history began, leave the live
/// keys that the history left.
pub proof fn lemma_replay_recovers_the_keyspace(
    start: StoreView,
    history: Seq<Served>,
    now: u64,
) -> (records: Seq<Record>)
    requires
        is_history(start, history, now),
        keyspace::nothing_hollow(start),
    ensures
        logged_payloads(history) == record_requests(records).map_values(
            |request: Seq<Seq<char>>| resp::array_frame(request),
        ),
        forall|i: int| 0 <= i < records.len() ==> is_record(#[trigger] records[i]),
        keyspace::live_part(replayed(start, records, now), now) == keyspace::live_part(
            final_store(start, history),
            now,
        ),
        keyspace::nothing_hollow(final_store(start, history)),
    decreases history.len(),
{
    let frame = |request: Seq<Seq<char>>| resp::array_frame(request);
    if history.len() == 0 {
        let records = Seq::<Record>::empty();
        assert(logged_payloads(history) =~= record_requests(records).map_values(frame));
        records
    } else {
        let fewer = history.drop_last();
        let served = history[history.len() - 1];
        assert(history.last() == served);
        assert(history.take(history.len() - 1) =~= fewer);
        assert forall|i: int| 0 <= i < fewer.len() implies {
            &&& is_served(#[trigger] fewer[i], now)
            &&& fewer[i].before.aof is Some
            &&& !fewer[i].before.replaying
            &&& fewer[i].before.store == final_store(start, fewer.take(i))
        } by {
            assert(fewer[i] == history[i]);
            assert(fewer.take(i) =~= history.take(i));
        }
        let earlier = lemma_replay_recovers_the_keyspace(start, fewer, now);
        assert(is_served(served, now));
        assert(served.before.store == final_store(start, fewer));
        lemma_served_leaves_nothing_hollow(served, now);
        if served.log is Some {
            let record = lemma_record_of(served, now);
            let records = earlier.push(record);
            lemma_record_on_same_living(
                record,
                replayed(start, earlier, now),
                served.before.store,
                now,
            );
            assert(records.drop_last() =~= earlier);
            assert(records.last() == record);
            assert(logged_payloads(history) =~= record_requests(records).map_values(frame));
            assert forall|i: int| 0 <= i < records.len() implies is_record(
                #[trigger] records[i],
            ) by {
                if i < earlier.len() {
                    assert(records[i] == earlier[i]);
                }
            }
            records
        } else {
            match served.step.outcome {
                OutcomeView::AddScores { key, current, increment, member } => {
                    laws::lemma_zincrby_is_logged(
                        served.tokens,
                        served.readings,
                        served.before,
                        now,
                        served.dispatched,
                        served.step,
                    );
                },
                _ => {
                    laws::lemma_unlogged_request_changes_nothing(
                        served.tokens,
                        served.readings,
                        served.before,
                        now,
                        served.dispatched,
                        served.step,
                    );
                },
            }
            earlier
        }
    }
}

/// The bytes of a log file to which the payloads were appended.
pub open spec fn file_bytes(payloads: Seq<Seq<char>>) -> Seq<u8>
    decreases payloads.len(),
{
    if payloads.len() == 0 {
        Seq::empty()
    } else {
        file_bytes(payloads.drop_last()) + encode_utf8(payloads.last())
    }
}

proof fn lemma_file_bytes(requests: Seq<Seq<Seq<char>>>)
    ensures
        file_bytes(requests.map_values(|request: Seq<Seq<char>>| resp::array_frame(request)))
            == framing::log_bytes(requests),
    decreases requests.len(),
{
    let frame = |request: Seq<Seq<char>>| resp::array_frame(request);
    let payloads = requests.map_values(frame);
    if requests.len() > 0 {
        lemma_file_bytes(requests.drop_last());
        assert(payloads.drop_last() =~= requests.drop_last().map_values(frame));
        assert(payloads.last() == resp::array_frame(requests.last()));
    }
}

/// The log file of a history recovers its keyspace: reading the file gives the
/// requests of a sequence of records, and these, one after another from the
/// keyspace with which the history began, leave the live keys that the history
/// left. Every logged request has to be within the limits that a reader accepts.
pub proof fn lemma_log_file_recovers_the_keyspace(
    start: StoreView,
    history: Seq<Served>,
    now: u64,
) -> (records: Seq<Record>)
    requires
        is_history(start, history, now),
        keyspace::nothing_hollow(start),
    ensures
        (forall|i: int|
            0 <= i < records.len() ==> framing::within_limits((#[trigger] records[i]).request))
            ==> server::log_requests(file_bytes(logged_payloads(history))) == record_requests(
            records,
        ),
        forall|i: int| 0 <= i < records.len() ==> is_record(#[trigger] records[i]),
        keyspace::live_part(replayed(start, records, now), now) == keyspace::live_part(
            final_store(start, history),
            now,
        ),
{
    let records = lemma_replay_recovers_the_keyspace(start, history, now);
    let requests = record_requests(records);
    lemma_file_bytes(requests);
    if forall|i: int|
        0 <= i < records.len() ==> framing::within_limits((#[trigger] records[i]).request) {
        assert forall|i: int| 0 <= i < requests.len() implies framing::within_limits(
            #[trigger] requests[i],
        ) by {
            assert(requests[i] == records[i].request);
        }
        framing::lemma_whole_log_read_back(requests);
    }
    records
}

/// Serving the request of a record does what the record does.
pub proof fn lemma_record_is_carried_out(record: Record, served: Served, now: u64)
    requires
        is_record(record),
        is_served(served, now),
        served.tokens == record.request,
        served.readings == record.readings,
        served.sum == record.sum,
    ensures
        served.after.store == after_record(record, served.before.store, now),
{
    laws::lemma_written_is_settled(
        served.tokens,
        served.readings,
        served.before,
        now,
        served.dispatched,
        served.step,
        record.command,
        served.sum,
    );
}

} // verus!
