//! Per-connection state and the command-handling entry point.
//!
//! Most commands are stateless and go straight to
//! [`dispatch`](crate::command::dispatch::dispatch), but a few need to remember
//! something about *this* connection between requests:
//!
//!   * **Transactions** (`MULTI`/`EXEC`/`DISCARD`) queue commands and run them
//!     together.
//!   * **Pub/Sub** (`SUBSCRIBE`/`UNSUBSCRIBE`) puts the connection into a mode
//!     where it also receives messages pushed from other connections.
//!
//! Those live here, on the [`Session`]; the connection loop owns the socket and
//! the mailbox.
use vstd::prelude::*;

use crate::command;
use crate::command::dispatch;
use crate::command::dispatch::{dispatch, Step, StepView};
use crate::command::execute;
use crate::command::parse;
use crate::command::Command;
use crate::database::data_structure::RSet;
use crate::database::db::{Database, DatabaseView};
use crate::database::keyspace;
use crate::database::pubsub;
use crate::database::pubsub::Channels;
use crate::keyed_map;
use crate::resp;
use crate::score::{FloatReadings, ScoreView};
use crate::text;

verus! {

broadcast use text::lemma_texts_push;

/// A transaction opened with `MULTI`: the queued commands plus a flag recording
/// whether any of them failed to parse (which makes `EXEC` abort).
pub struct Transaction {
    pub commands: Vec<Vec<String>>,
    pub dirty: bool,
}

/// What a transaction holds.
pub struct TransactionView {
    pub commands: Seq<Seq<Seq<char>>>,
    pub dirty: bool,
}

/// The characters of each token of each queued command.
pub open spec fn queue_view(commands: Seq<Vec<String>>) -> Seq<Seq<Seq<char>>> {
    Seq::new(commands.len(), |i: int| text::texts(commands[i]@))
}

impl View for Transaction {
    type V = TransactionView;

    open spec fn view(&self) -> TransactionView {
        TransactionView { commands: queue_view(self.commands@), dirty: self.dirty }
    }
}

/// Everything a single connection needs to remember between requests.
pub struct Session {
    id: u64,
    channels: RSet,
    transaction: Option<Transaction>,
}

/// What a session holds.
pub struct SessionView {
    pub id: u64,
    pub channels: Set<Seq<char>>,
    pub transaction: Option<TransactionView>,
}

impl SessionView {
    /// Whether the connection is currently in subscribe mode.
    pub open spec fn subscribed(self) -> bool {
        self.channels != Set::<Seq<char>>::empty()
    }
}

impl View for Session {
    type V = SessionView;

    closed spec fn view(&self) -> SessionView {
        SessionView {
            id: self.id,
            channels: self.channels@,
            transaction: match self.transaction {
                Some(transaction) => Some(transaction@),
                None => None,
            },
        }
    }
}

/// What a request comes to: a reply, a command that has been run, or the queued
/// commands of a transaction, to be run one after another.
pub enum Handled {
    Reply(String),
    Run(Step),
    Exec(Vec<Vec<String>>),
}

/// What a handled request holds.
pub enum HandledView {
    Reply(Seq<char>),
    Run(StepView),
    Exec(Seq<Seq<Seq<char>>>),
}

impl View for Handled {
    type V = HandledView;

    open spec fn view(&self) -> HandledView {
        match self {
            Handled::Reply(reply) => HandledView::Reply(reply@),
            Handled::Run(step) => HandledView::Run(step@),
            Handled::Exec(commands) => HandledView::Exec(queue_view(commands@)),
        }
    }
}

/// The refusal of a command that is not permitted while subscribed.
pub open spec fn subscribe_mode_text(name: Seq<char>) -> Seq<char> {
    "ERR Can't execute '"@ + text::lower(name)
        + "': only (UN)SUBSCRIBE / PING are allowed in subscribe mode"@
}

/// A `[kind, channel, count]` confirmation: two bulk strings and an integer.
pub open spec fn subscription_frame(kind: Seq<char>, channel: Seq<char>, count: int) -> Seq<char> {
    resp::array_header(3) + resp::bulk_frame(kind) + resp::bulk_frame(channel)
        + execute::count_frame(count)
}

/// The `UNSUBSCRIBE` confirmation when nothing was subscribed: a null channel
/// and a zero count.
pub open spec fn subscription_null_frame(kind: Seq<char>) -> Seq<char> {
    resp::array_header(3) + resp::bulk_frame(kind) + resp::null_frame() + resp::integer_frame(0)
}

/// The registry after `id`, already on the channels `mine`, has subscribed to
/// each of `list`.
pub open spec fn after_joining(
    registry: Channels,
    mine: Set<Seq<char>>,
    list: Seq<Seq<char>>,
    id: u64,
) -> Channels
    decreases list.len(),
{
    if list.len() == 0 {
        registry
    } else {
        let before = after_joining(registry, mine, list.drop_last(), id);
        if mine.union(list.drop_last().to_set()).contains(list.last()) {
            before
        } else {
            pubsub::after_subscribe(before, list.last(), id)
        }
    }
}

/// The confirmations of subscribing to each of `list`, with the number of
/// channels subscribed to so far.
pub open spec fn joining_reply(mine: Set<Seq<char>>, list: Seq<Seq<char>>) -> Seq<char>
    decreases list.len(),
{
    if list.len() == 0 {
        Seq::empty()
    } else {
        joining_reply(mine, list.drop_last()) + subscription_frame(
            "subscribe"@,
            list.last(),
            mine.union(list.to_set()).len() as int,
        )
    }
}

/// The registry after `id`, on the channels `mine`, has unsubscribed from each
/// of `list`.
pub open spec fn after_parting(
    registry: Channels,
    mine: Set<Seq<char>>,
    list: Seq<Seq<char>>,
    id: u64,
) -> Channels
    decreases list.len(),
{
    if list.len() == 0 {
        registry
    } else {
        let before = after_parting(registry, mine, list.drop_last(), id);
        if mine.difference(list.drop_last().to_set()).contains(list.last()) {
            pubsub::after_unsubscribe(before, list.last(), id)
        } else {
            before
        }
    }
}

/// The confirmations of unsubscribing from each of `list`, with the number of
/// channels still subscribed to.
pub open spec fn parting_reply(mine: Set<Seq<char>>, list: Seq<Seq<char>>) -> Seq<char>
    decreases list.len(),
{
    if list.len() == 0 {
        Seq::empty()
    } else {
        parting_reply(mine, list.drop_last()) + subscription_frame(
            "unsubscribe"@,
            list.last(),
            mine.difference(list.to_set()).len() as int,
        )
    }
}

/// What `SUBSCRIBE` does.
pub open spec fn subscribes(
    list: Seq<Seq<char>>,
    before: SessionView,
    db: DatabaseView,
    after: SessionView,
    db_after: DatabaseView,
    reply: Seq<char>,
) -> bool {
    if list.len() == 0 {
        &&& after == before
        &&& db_after == db
        &&& reply == resp::error_frame("ERR wrong number of arguments for 'subscribe' command"@)
    } else {
        &&& after == (SessionView { channels: before.channels.union(list.to_set()), ..before })
        &&& db_after == (DatabaseView {
            channels: after_joining(db.channels, before.channels, list, before.id),
            ..db
        })
        &&& reply == joining_reply(before.channels, list)
    }
}

/// What leaving the channels of `list` does.
pub open spec fn parts(
    list: Seq<Seq<char>>,
    before: SessionView,
    db: DatabaseView,
    after: SessionView,
    db_after: DatabaseView,
    reply: Seq<char>,
) -> bool {
    &&& after == (SessionView { channels: before.channels.difference(list.to_set()), ..before })
    &&& db_after == (DatabaseView {
        channels: after_parting(db.channels, before.channels, list, before.id),
        ..db
    })
    &&& reply == parting_reply(before.channels, list)
}

/// What `UNSUBSCRIBE` does. Without arguments it leaves every channel, in any
/// order.
pub open spec fn unsubscribes(
    list: Seq<Seq<char>>,
    before: SessionView,
    db: DatabaseView,
    after: SessionView,
    db_after: DatabaseView,
    reply: Seq<char>,
) -> bool {
    if list.len() > 0 {
        parts(list, before, db, after, db_after, reply)
    } else if before.subscribed() {
        exists|all: Seq<Seq<char>>| #[trigger]
            keyed_map::enumerates(all, before.channels) && parts(
                all,
                before,
                db,
                after,
                db_after,
                reply,
            )
    } else {
        &&& after == before
        &&& db_after == db
        &&& reply == subscription_null_frame("unsubscribe"@)
    }
}

/// What `MULTI` does.
pub open spec fn after_multi(before: SessionView) -> (SessionView, Seq<char>) {
    if before.transaction is Some {
        (before, resp::error_frame("ERR MULTI calls can not be nested"@))
    } else {
        (
            SessionView {
                transaction: Some(TransactionView { commands: Seq::empty(), dirty: false }),
                ..before
            },
            resp::simple_frame("OK"@),
        )
    }
}

/// What `DISCARD` does.
pub open spec fn after_discard(before: SessionView) -> (SessionView, Seq<char>) {
    if before.transaction is Some {
        (SessionView { transaction: None, ..before }, resp::simple_frame("OK"@))
    } else {
        (before, resp::error_frame("ERR DISCARD without MULTI"@))
    }
}

/// What `EXEC` does.
pub open spec fn after_exec(before: SessionView) -> (SessionView, HandledView) {
    match before.transaction {
        None => (before, HandledView::Reply(resp::error_frame("ERR EXEC without MULTI"@))),
        Some(transaction) => (
            SessionView { transaction: None, ..before },
            if transaction.dirty {
                HandledView::Reply(
                    resp::error_frame(
                        "EXECABORT Transaction discarded because of previous errors."@,
                    ),
                )
            } else {
                HandledView::Exec(transaction.commands)
            },
        ),
    }
}

/// What a command does inside a transaction: it is validated and queued.
pub open spec fn after_queueing(
    tokens: Seq<Seq<char>>,
    readings: Map<Seq<char>, ScoreView>,
    before: SessionView,
    transaction: TransactionView,
) -> (SessionView, Seq<char>) {
    match parse::parsed(tokens, readings) {
        Ok(_) => (
            SessionView {
                transaction: Some(
                    TransactionView {
                        commands: transaction.commands.push(tokens),
                        dirty: transaction.dirty,
                    },
                ),
                ..before
            },
            resp::simple_frame("QUEUED"@),
        ),
        Err(error) => (
            SessionView {
                transaction: Some(TransactionView { dirty: true, ..transaction }),
                ..before
            },
            resp::error_frame(command::command_error_text(error)),
        ),
    }
}

/// What a request comes to, and the session and database that it leaves.
pub open spec fn handles(
    tokens: Seq<Seq<char>>,
    readings: Map<Seq<char>, ScoreView>,
    before: SessionView,
    db: DatabaseView,
    now: u64,
    after: SessionView,
    db_after: DatabaseView,
    handled: HandledView,
) -> bool {
    let name = text::upper(tokens[0]);
    if tokens.len() == 0 {
        after == before && db_after == db && handled == HandledView::Reply(Seq::empty())
    } else if name == "MULTI"@ && !before.subscribed() {
        &&& after == after_multi(before).0
        &&& db_after == db
        &&& handled == HandledView::Reply(after_multi(before).1)
    } else if name == "EXEC"@ {
        after == after_exec(before).0 && db_after == db && handled == after_exec(before).1
    } else if name == "DISCARD"@ {
        &&& after == after_discard(before).0
        &&& db_after == db
        &&& handled == HandledView::Reply(after_discard(before).1)
    } else if name == "SUBSCRIBE"@ && before.transaction is None {
        handled matches HandledView::Reply(reply) && subscribes(
            tokens.skip(1),
            before,
            db,
            after,
            db_after,
            reply,
        )
    } else if name == "UNSUBSCRIBE"@ {
        handled matches HandledView::Reply(reply) && unsubscribes(
            tokens.skip(1),
            before,
            db,
            after,
            db_after,
            reply,
        )
    } else if before.subscribed() && name != "PING"@ {
        &&& after == before
        &&& db_after == db
        &&& handled == HandledView::Reply(resp::error_frame(subscribe_mode_text(name)))
    } else {
        match before.transaction {
            Some(transaction) => {
                let (session, reply) = after_queueing(tokens, readings, before, transaction);
                after == session && db_after == db && handled == HandledView::Reply(reply)
            },
            None => {
                &&& after == before
                &&& handled matches HandledView::Run(step) && dispatch::dispatches(
                    tokens,
                    readings,
                    db,
                    now,
                    db_after,
                    step,
                )
            },
        }
    }
}

/// The registry after `id` has left the channels `mine`.
pub open spec fn after_leaving(registry: Channels, mine: Set<Seq<char>>, id: u64) -> Channels {
    Map::new(
        |channel: Seq<char>|
            registry.contains_key(channel) && !(mine.contains(channel)
                && registry[channel].remove(id) == Set::<u64>::empty()),
        |channel: Seq<char>|
            if mine.contains(channel) {
                registry[channel].remove(id)
            } else {
                registry[channel]
            },
    )
}

/// The replies of the queued commands as one array.
pub open spec fn concatenated(replies: Seq<Seq<char>>) -> Seq<char>
    decreases replies.len(),
{
    if replies.len() == 0 {
        Seq::empty()
    } else {
        concatenated(replies.drop_last()) + replies.last()
    }
}

/// The reply to `EXEC`: an array of each queued command's raw reply.
pub fn reply_exec(replies: &[String]) -> (r: String)
    ensures
        r@ == resp::array_header(replies@.len()) + concatenated(text::texts(replies@)),
{
    let ghost all = text::texts(replies@);
    let mut r = resp::array_prefix(replies.len());
    let mut i: usize = 0;
    assert(r@ =~= resp::array_header(all.len()) + concatenated(all.take(0)));
    while i < replies.len()
        invariant
            i <= replies@.len(),
            all == text::texts(replies@),
            r@ == resp::array_header(all.len()) + concatenated(all.take(i as int)),
        decreases replies@.len() - i,
    {
        assert(all.take(i + 1).drop_last() =~= all.take(i as int));
        assert(all.take(i + 1).last() == replies@[i as int]@);
        r.append(replies[i].as_str());
        assert(r@ =~= resp::array_header(all.len()) + concatenated(all.take(i + 1)));
        i = i + 1;
    }
    assert(all.take(i as int) =~= all);
    r
}

/// A transaction that is being run: its commands in the order in which they were
/// queued, and the replies to those that have been run so far.
pub struct Execution {
    commands: Vec<Vec<String>>,
    replies: Vec<String>,
}

/// What a running transaction holds.
pub struct ExecutionView {
    pub commands: Seq<Seq<Seq<char>>>,
    pub replies: Seq<Seq<char>>,
}

impl View for Execution {
    type V = ExecutionView;

    closed spec fn view(&self) -> ExecutionView {
        ExecutionView {
            commands: queue_view(self.commands@),
            replies: text::texts(self.replies@),
        }
    }
}

impl Execution {
    /// Starts to run the commands of a transaction.
    pub fn new(commands: Vec<Vec<String>>) -> (r: Self)
        ensures
            r@ == (ExecutionView { commands: queue_view(commands@), replies: Seq::empty() }),
    {
        let r = Execution { commands, replies: Vec::new() };
        assert(r@.replies =~= Seq::<Seq<char>>::empty());
        r
    }

    /// The command to run next: the first that has no reply yet.
    pub fn next_command(&self) -> (r: Option<Vec<String>>)
        ensures
            match r {
                Some(tokens) => {
                    &&& self@.replies.len() < self@.commands.len()
                    &&& text::texts(tokens@) == self@.commands[self@.replies.len() as int]
                },
                None => self@.replies.len() >= self@.commands.len(),
            },
    {
        let at: usize = self.replies.len();
        if at < self.commands.len() {
            let tokens = text::copy_texts(self.commands[at].as_slice(), 0);
            assert(text::texts(tokens@) =~= text::texts(self.commands@[at as int]@));
            Some(tokens)
        } else {
            None
        }
    }

    /// Takes the reply to the command that [`next_command`](Self::next_command)
    /// gave.
    pub fn answer(&mut self, reply: String)
        requires
            old(self)@.replies.len() < old(self)@.commands.len(),
        ensures
            final(self)@ == (ExecutionView {
                replies: old(self)@.replies.push(reply@),
                ..old(self)@
            }),
    {
        self.replies.push(reply);
    }

    /// The reply to `EXEC`: an array of each queued command's raw reply.
    pub fn finish(&self) -> (r: String)
        requires
            self@.replies.len() == self@.commands.len(),
        ensures
            r@ == resp::array_header(self@.commands.len()) + concatenated(self@.replies),
    {
        reply_exec(self.replies.as_slice())
    }
}

impl Session {
    /// A connection is never in subscribe mode and in a transaction at once.
    #[verifier::type_invariant]
    spec fn one_mode(self) -> bool {
        self.channels@ != Set::<Seq<char>>::empty() ==> self.transaction is None
    }

    /// Creates a session, with an id under which it subscribes.
    pub fn new(db: &mut Database) -> (r: Self)
        ensures
            r@ == (SessionView {
                id: old(db)@.next_subscriber_id,
                channels: Set::empty(),
                transaction: None,
            }),
            final(db)@ == (DatabaseView {
                next_subscriber_id: final(db)@.next_subscriber_id,
                ..old(db)@
            }),
            final(db)@.next_subscriber_id == (if old(db)@.next_subscriber_id == u64::MAX {
                0
            } else {
                old(db)@.next_subscriber_id + 1
            }),
    {
        Session { id: db.next_subscriber_id(), channels: RSet::new(), transaction: None }
    }

    /// The id under which the connection subscribes.
    pub fn id(&self) -> (r: u64)
        ensures
            r == self@.id,
    {
        self.id
    }

    /// Whether the connection is currently in subscribe mode.
    pub fn is_subscribed(&self) -> (r: bool)
        ensures
            r == self@.subscribed(),
            r ==> self@.transaction is None,
    {
        proof {
            use_type_invariant(self);
        }
        !self.channels.is_empty()
    }

    /// Handles one request. `readings` gives the scores that the texts listed by
    /// [`float_texts`](parse::float_texts) stand for.
    pub fn handle(
        &mut self,
        tokens: &[String],
        readings: &FloatReadings,
        db: &mut Database,
        now: u64,
    ) -> (r: Handled)
        ensures
            handles(
                text::texts(tokens@),
                readings@,
                old(self)@,
                old(db)@,
                now,
                final(self)@,
                final(db)@,
                r@,
            ),
            keyspace::well_formed(old(db)@.store),
    {
        db.note_well_formed();
        if tokens.len() == 0 {
            let reply = String::new();
            assert(reply@ =~= Seq::<char>::empty());
            return Handled::Reply(reply);
        }
        let name = text::to_ascii_uppercase(tokens[0].as_str());
        let args = vstd::slice::slice_subrange(tokens, 1, tokens.len());
        assert(text::texts(args@) =~= text::texts(tokens@).skip(1));
        let subscribed = self.is_subscribed();
        if text::text_eq(name.as_str(), "MULTI") && !subscribed {
            return Handled::Reply(self.begin_multi());
        }
        if text::text_eq(name.as_str(), "EXEC") {
            return self.exec();
        }
        if text::text_eq(name.as_str(), "DISCARD") {
            return Handled::Reply(self.discard());
        }
        if text::text_eq(name.as_str(), "SUBSCRIBE") && self.transaction.is_none() {
            return Handled::Reply(self.subscribe(args, db));
        }
        if text::text_eq(name.as_str(), "UNSUBSCRIBE") {
            return Handled::Reply(self.unsubscribe(args, db));
        }
        // While subscribed, RESP2 only permits a handful of commands.
        if subscribed && !text::text_eq(name.as_str(), "PING") {
            let mut message = "ERR Can't execute '".to_owned();
            message.append(text::to_ascii_lowercase(name.as_str()).as_str());
            message.append("': only (UN)SUBSCRIBE / PING are allowed in subscribe mode");
            return Handled::Reply(resp::error(message.as_str()));
        }
        // Inside a transaction, validate and queue; otherwise run immediately.
        if self.transaction.is_some() {
            Handled::Reply(self.queue(tokens, readings))
        } else {
            Handled::Run(dispatch(tokens, readings, db, now))
        }
    }

    /// Unsubscribes from everything still open; called when the connection ends.
    pub fn cleanup(&self, db: &mut Database)
        ensures
            final(db)@ == (DatabaseView {
                channels: after_leaving(old(db)@.channels, self@.channels, self@.id),
                ..old(db)@
            }),
    {
        let targets = self.channels.smembers();
        let ghost all = text::texts(targets@);
        let ghost registry = db@.channels;
        let ghost id = self.id;
        let mut i: usize = 0;
        assert(db@.channels =~= after_leaving(registry, all.take(0).to_set(), id));
        while i < targets.len()
            invariant
                i <= targets@.len(),
                all == text::texts(targets@),
                id == self.id,
                db@ == (DatabaseView {
                    channels: after_leaving(registry, all.take(i as int).to_set(), id),
                    ..old(db)@
                }),
            decreases targets@.len() - i,
        {
            let ghost done = all.take(i as int).to_set();
            let ghost channel = all[i as int];
            let ghost before = db@.channels;
            proof {
                assert(all.take(i + 1) =~= all.take(i as int).push(channel));
                text::lemma_push_to_set(all.take(i as int), channel);
            }
            db.unsubscribe(targets[i].as_str(), self.id);
            proof {
                lemma_leaving_step(registry, done, channel, id);
            }
            i = i + 1;
        }
        assert(all.take(i as int) =~= all);
    }

    // --- Transactions ---------------------------------------------------

    fn begin_multi(&mut self) -> (r: String)
        requires
            !old(self)@.subscribed(),
        ensures
            (final(self)@, r@) == after_multi(old(self)@),
    {
        let Session { id, channels, transaction } = self.take();
        if transaction.is_some() {
            *self = Session { id, channels, transaction };
            return resp::error("ERR MULTI calls can not be nested");
        }
        let opened = Transaction { commands: Vec::new(), dirty: false };
        assert(opened@.commands =~= Seq::<Seq<Seq<char>>>::empty());
        *self = Session { id, channels, transaction: Some(opened) };
        resp::simple_string("OK")
    }

    fn discard(&mut self) -> (r: String)
        ensures
            (final(self)@, r@) == after_discard(old(self)@),
    {
        let Session { id, channels, transaction } = self.take();
        *self = Session { id, channels, transaction: None };
        match transaction {
            Some(_) => resp::simple_string("OK"),
            None => resp::error("ERR DISCARD without MULTI"),
        }
    }

    fn exec(&mut self) -> (r: Handled)
        ensures
            (final(self)@, r@) == after_exec(old(self)@),
    {
        let Session { id, channels, transaction } = self.take();
        *self = Session { id, channels, transaction: None };
        match transaction {
            None => Handled::Reply(resp::error("ERR EXEC without MULTI")),
            Some(transaction) => {
                if transaction.dirty {
                    Handled::Reply(
                        resp::error("EXECABORT Transaction discarded because of previous errors."),
                    )
                } else {
                    Handled::Exec(transaction.commands)
                }
            },
        }
    }

    /// Validates a command and queues it.
    fn queue(&mut self, tokens: &[String], readings: &FloatReadings) -> (r: String)
        requires
            old(self)@.transaction is Some,
        ensures
            (final(self)@, r@) == after_queueing(
                text::texts(tokens@),
                readings@,
                old(self)@,
                old(self)@.transaction->Some_0,
            ),
    {
        let Session { id, channels, transaction } = self.take();
        let mut open: Transaction = match transaction {
            Some(transaction) => transaction,
            None => Transaction { commands: Vec::new(), dirty: false },
        };
        let ghost before = open@;
        let reply = match Command::parse(tokens, readings) {
            Ok(_) => {
                let command = text::copy_texts(tokens, 0);
                assert(text::texts(command@) =~= text::texts(tokens@));
                open.commands.push(command);
                assert(open@.commands =~= before.commands.push(text::texts(tokens@)));
                resp::simple_string("QUEUED")
            },
            Err(error) => {
                open.dirty = true;
                resp::error(error.message().as_str())
            },
        };
        *self = Session { id, channels, transaction: Some(open) };
        reply
    }

    // --- Pub/Sub --------------------------------------------------------

    fn subscribe(&mut self, list: &[String], db: &mut Database) -> (r: String)
        requires
            old(self)@.transaction is None,
        ensures
            subscribes(
                text::texts(list@),
                old(self)@,
                old(db)@,
                final(self)@,
                final(db)@,
                r@,
            ),
    {
        if list.len() == 0 {
            return resp::error("ERR wrong number of arguments for 'subscribe' command");
        }
        let Session { id, mut channels, transaction } = self.take();
        let ghost mine = channels@;
        let ghost registry = db@.channels;
        let ghost all = text::texts(list@);
        let mut reply = String::new();
        let mut i: usize = 0;
        proof {
            assert(reply@ =~= joining_reply(mine, all.take(0)));
            assert(channels@ =~= mine.union(all.take(0).to_set()));
        }
        while i < list.len()
            invariant
                i <= list@.len(),
                all == text::texts(list@),
                channels@ == mine.union(all.take(i as int).to_set()),
                db@ == (DatabaseView {
                    channels: after_joining(registry, mine, all.take(i as int), id),
                    ..old(db)@
                }),
                reply@ == joining_reply(mine, all.take(i as int)),
            decreases list@.len() - i,
        {
            let channel = list[i].clone();
            let ghost more = all.take(i + 1);
            proof {
                assert(more.drop_last() =~= all.take(i as int));
                assert(more.last() == channel@);
                assert(more =~= all.take(i as int).push(channel@));
                text::lemma_push_to_set(all.take(i as int), channel@);
            }
            if channels.sadd(channel.clone()) {
                db.subscribe(channel.clone(), id);
            }
            assert(channels@ =~= mine.union(more.to_set()));
            let confirmation = subscription_reply(
                "subscribe",
                channel.as_str(),
                channels.scard(),
            );
            reply.append(confirmation.as_str());
            i = i + 1;
        }
        assert(all.take(i as int) =~= all);
        *self = Session { id, channels, transaction };
        reply
    }

    fn unsubscribe(&mut self, list: &[String], db: &mut Database) -> (r: String)
        ensures
            unsubscribes(
                text::texts(list@),
                old(self)@,
                old(db)@,
                final(self)@,
                final(db)@,
                r@,
            ),
    {
        let targets: Vec<String> = if list.len() == 0 {
            self.channels.smembers()
        } else {
            text::copy_texts(list, 0)
        };
        let ghost all = text::texts(targets@);
        proof {
            if list@.len() > 0 {
                assert(all =~= text::texts(list@));
            } else {
                assert(keyed_map::enumerates(all, self@.channels));
            }
        }
        if targets.len() == 0 {
            assert(all.to_set() =~= Set::<Seq<char>>::empty());
            return subscription_reply_null("unsubscribe");
        }
        proof {
            assert(all.to_set().contains(all[0]));
        }
        let Session { id, mut channels, transaction } = self.take();
        let ghost mine = channels@;
        let ghost registry = db@.channels;
        let mut reply = String::new();
        let mut i: usize = 0;
        proof {
            assert(reply@ =~= parting_reply(mine, all.take(0)));
            assert(channels@ =~= mine.difference(all.take(0).to_set()));
        }
        while i < targets.len()
            invariant
                i <= targets@.len(),
                all == text::texts(targets@),
                channels@ == mine.difference(all.take(i as int).to_set()),
                db@ == (DatabaseView {
                    channels: after_parting(registry, mine, all.take(i as int), id),
                    ..old(db)@
                }),
                reply@ == parting_reply(mine, all.take(i as int)),
            decreases targets@.len() - i,
        {
            let channel = targets[i].clone();
            let ghost more = all.take(i + 1);
            proof {
                assert(more.drop_last() =~= all.take(i as int));
                assert(more.last() == channel@);
                assert(more =~= all.take(i as int).push(channel@));
                text::lemma_push_to_set(all.take(i as int), channel@);
            }
            if channels.srem(channel.as_str()) {
                db.unsubscribe(channel.as_str(), id);
            }
            assert(channels@ =~= mine.difference(more.to_set()));
            let confirmation = subscription_reply(
                "unsubscribe",
                channel.as_str(),
                channels.scard(),
            );
            reply.append(confirmation.as_str());
            i = i + 1;
        }
        proof {
            assert(all.take(i as int) =~= all);
            if mine == Set::<Seq<char>>::empty() {
                assert(channels@ =~= mine);
            }
        }
        *self = Session { id, channels, transaction };
        reply
    }

    /// Takes the whole state out, to be put back changed.
    fn take(&mut self) -> (r: Session)
        ensures
            r == *old(self),
            r.one_mode(),
    {
        let mut taken = Session { id: 0, channels: RSet::new(), transaction: None };
        std::mem::swap(self, &mut taken);
        proof {
            use_type_invariant(&taken);
        }
        taken
    }
}

/// A `[kind, channel, count]` confirmation: two bulk strings and an integer.
pub fn subscription_reply(kind: &str, channel: &str, count: usize) -> (r: String)
    ensures
        r@ == subscription_frame(kind@, channel@, count as int),
{
    let mut r = resp::array_prefix(3);
    r.append(resp::bulk_string(kind).as_str());
    r.append(resp::bulk_string(channel).as_str());
    r.append(execute::reply_number(count).as_str());
    r
}

/// The `UNSUBSCRIBE` confirmation when nothing was subscribed: a null channel
/// and a zero count.
pub fn subscription_reply_null(kind: &str) -> (r: String)
    ensures
        r@ == subscription_null_frame(kind@),
{
    let mut r = resp::array_prefix(3);
    r.append(resp::bulk_string(kind).as_str());
    r.append(resp::null().as_str());
    r.append(resp::integer(0).as_str());
    r
}

proof fn lemma_leaving_step(
    registry: Channels,
    done: Set<Seq<char>>,
    channel: Seq<char>,
    id: u64,
)
    ensures
        pubsub::after_unsubscribe(after_leaving(registry, done, id), channel, id)
            == after_leaving(registry, done.insert(channel), id),
{
    let before = after_leaving(registry, done, id);
    let after = pubsub::after_unsubscribe(before, channel, id);
    let wanted = after_leaving(registry, done.insert(channel), id);
    let left = pubsub::subscribers_of(before, channel).remove(id);
    if registry.contains_key(channel) {
        let listed = registry[channel];
        assert(listed.remove(id).remove(id) =~= listed.remove(id));
        assert(Set::<u64>::empty().remove(id) =~= Set::<u64>::empty());
    } else {
        assert(left =~= Set::<u64>::empty());
    }
    assert(after =~= wanted);
}

/// A connection is never in subscribe mode and in a transaction at once: no
/// request leads there.
pub proof fn lemma_one_mode_is_kept(
    tokens: Seq<Seq<char>>,
    readings: Map<Seq<char>, ScoreView>,
    before: SessionView,
    db: DatabaseView,
    now: u64,
    after: SessionView,
    db_after: DatabaseView,
    handled: HandledView,
)
    requires
        handles(tokens, readings, before, db, now, after, db_after, handled),
        before.subscribed() ==> before.transaction is None,
    ensures
        after.subscribed() ==> after.transaction is None,
        after.id == before.id,
{
    if !before.subscribed() {
        let list = tokens.skip(1);
        assert(before.channels.difference(list.to_set()) =~= before.channels);
    }
}

proof fn lemma_parting_from_nothing(registry: Channels, list: Seq<Seq<char>>, id: u64)
    ensures
        after_parting(registry, Set::empty(), list, id) == registry,
    decreases list.len(),
{
    if list.len() > 0 {
        lemma_parting_from_nothing(registry, list.drop_last(), id);
    }
}

/// Inside a transaction no request touches the database: commands wait for
/// `EXEC`.
pub proof fn lemma_queued_commands_wait(
    tokens: Seq<Seq<char>>,
    readings: Map<Seq<char>, ScoreView>,
    before: SessionView,
    db: DatabaseView,
    now: u64,
    after: SessionView,
    db_after: DatabaseView,
    handled: HandledView,
)
    requires
        handles(tokens, readings, before, db, now, after, db_after, handled),
        before.transaction is Some,
        !before.subscribed(),
    ensures
        db_after == db,
        !(handled is Run),
{
    lemma_parting_from_nothing(db.channels, tokens.skip(1), before.id);
    assert(before.channels =~= Set::empty());
}

/// A transaction in which a command was refused stays refused: whatever is
/// queued after it, `EXEC` runs nothing.
pub proof fn lemma_dirty_transaction_aborts(
    tokens: Seq<Seq<char>>,
    readings: Map<Seq<char>, ScoreView>,
    before: SessionView,
    transaction: TransactionView,
)
    requires
        before.transaction == Some(transaction),
    ensures
        parse::parsed(tokens, readings) is Err ==> after_queueing(
            tokens,
            readings,
            before,
            transaction,
        ).0.transaction->Some_0.dirty,
        transaction.dirty ==> after_queueing(
            tokens,
            readings,
            before,
            transaction,
        ).0.transaction->Some_0.dirty,
        transaction.dirty ==> after_exec(before).1 is Reply,
{
}

/// The session after each of `queue` has been queued in turn.
pub open spec fn after_queueing_all(
    queue: Seq<Seq<Seq<char>>>,
    readings: Map<Seq<char>, ScoreView>,
    before: SessionView,
) -> SessionView
    decreases queue.len(),
{
    if queue.len() == 0 {
        before
    } else {
        let session = after_queueing_all(queue.drop_last(), readings, before);
        match session.transaction {
            Some(transaction) => after_queueing(
                queue.last(),
                readings,
                session,
                transaction,
            ).0,
            None => session,
        }
    }
}

/// `MULTI`, then commands that parse, then `EXEC`: exactly those commands are
/// run, in the order in which they came, and the transaction is over.
pub proof fn lemma_exec_runs_the_queue(
    queue: Seq<Seq<Seq<char>>>,
    readings: Map<Seq<char>, ScoreView>,
    before: SessionView,
)
    requires
        before.transaction is None,
        forall|i: int|
            0 <= i < queue.len() ==> parse::parsed(#[trigger] queue[i], readings) is Ok,
    ensures
        ({
            let queued = after_queueing_all(queue, readings, after_multi(before).0);
            &&& after_exec(queued).1 == HandledView::Exec(queue)
            &&& after_exec(queued).0 == before
            &&& after_discard(queued).0 == before
        }),
{
    lemma_queue_grows(queue, readings, before);
}

proof fn lemma_queue_grows(
    queue: Seq<Seq<Seq<char>>>,
    readings: Map<Seq<char>, ScoreView>,
    before: SessionView,
)
    requires
        before.transaction is None,
        forall|i: int|
            0 <= i < queue.len() ==> parse::parsed(#[trigger] queue[i], readings) is Ok,
    ensures
        after_queueing_all(queue, readings, after_multi(before).0) == (SessionView {
            transaction: Some(TransactionView { commands: queue, dirty: false }),
            ..before
        }),
    decreases queue.len(),
{
    if queue.len() == 0 {
        assert(queue =~= Seq::<Seq<Seq<char>>>::empty());
    } else {
        let fewer = queue.drop_last();
        assert forall|i: int| 0 <= i < fewer.len() implies parse::parsed(
            #[trigger] fewer[i],
            readings,
        ) is Ok by {
            assert(fewer[i] == queue[i]);
        }
        lemma_queue_grows(fewer, readings, before);
        assert(queue.last() == queue[queue.len() - 1]);
        assert(fewer.push(queue.last()) =~= queue);
    }
}

/// While subscribed, a connection can subscribe, unsubscribe and ping. Any other
/// request is refused, and changes nothing.
pub proof fn lemma_subscribe_mode_refuses(
    tokens: Seq<Seq<char>>,
    readings: Map<Seq<char>, ScoreView>,
    before: SessionView,
    db: DatabaseView,
    now: u64,
    after: SessionView,
    db_after: DatabaseView,
    handled: HandledView,
)
    requires
        handles(tokens, readings, before, db, now, after, db_after, handled),
        before.subscribed(),
        before.transaction is None,
        tokens.len() > 0,
        text::upper(tokens[0]) != "SUBSCRIBE"@,
        text::upper(tokens[0]) != "UNSUBSCRIBE"@,
        text::upper(tokens[0]) != "PING"@,
    ensures
        after == before,
        db_after == db,
        handled matches HandledView::Reply(reply) && dispatch::is_error(reply),
{
}

/// A connection that has ended is a subscriber of none of its channels, and
/// nobody else's subscription has changed.
pub proof fn lemma_cleanup_leaves_no_trace(
    registry: Channels,
    mine: Set<Seq<char>>,
    id: u64,
    channel: Seq<char>,
    other: u64,
)
    ensures
        ({
            let after = after_leaving(registry, mine, id);
            &&& mine.contains(channel) ==> !pubsub::subscribers_of(after, channel).contains(id)
            &&& !mine.contains(channel) || other != id ==> pubsub::subscribers_of(
                after,
                channel,
            ).contains(other) == pubsub::subscribers_of(registry, channel).contains(other)
        }),
{
    if registry.contains_key(channel) && mine.contains(channel) && registry[channel].remove(id)
        == Set::<u64>::empty() && other != id {
        assert(registry[channel].remove(id).contains(other) == registry[channel].contains(other));
    }
}

/// Subscribing registers the connection on every channel of the list that it was
/// not yet on, and unsubscribing takes it off every channel of the list that it
/// was on.
pub proof fn lemma_joining_and_parting(
    registry: Channels,
    mine: Set<Seq<char>>,
    list: Seq<Seq<char>>,
    id: u64,
    channel: Seq<char>,
)
    requires
        list.contains(channel),
    ensures
        !mine.contains(channel) ==> pubsub::subscribers_of(
            after_joining(registry, mine, list, id),
            channel,
        ).contains(id),
        mine.contains(channel) ==> !pubsub::subscribers_of(
            after_parting(registry, mine, list, id),
            channel,
        ).contains(id),
    decreases list.len(),
{
    let fewer = list.drop_last();
    let joined = after_joining(registry, mine, fewer, id);
    let parted = after_parting(registry, mine, fewer, id);
    if fewer.contains(channel) {
        lemma_joining_and_parting(registry, mine, fewer, id, channel);
    } else {
        let i = choose|i: int| 0 <= i < list.len() && list[i] == channel;
        if i < fewer.len() {
            assert(fewer[i] == channel);
        }
        assert(list.last() == channel);
    }
    pubsub::lemma_subscription_lasts_until_unsubscribed(joined, list.last(), id, channel, id);
    pubsub::lemma_subscription_lasts_until_unsubscribed(parted, list.last(), id, channel, id);
}

/// The names that a session looks for are five different ones, and none of them is
/// `PING`.
proof fn lemma_session_names()
    ensures
        "MULTI"@ != "EXEC"@ && "MULTI"@ != "DISCARD"@ && "MULTI"@ != "SUBSCRIBE"@ && "MULTI"@
            != "UNSUBSCRIBE"@ && "MULTI"@ != "PING"@,
        "EXEC"@ != "DISCARD"@ && "EXEC"@ != "SUBSCRIBE"@ && "EXEC"@ != "UNSUBSCRIBE"@ && "EXEC"@
            != "PING"@,
        "DISCARD"@ != "SUBSCRIBE"@ && "DISCARD"@ != "UNSUBSCRIBE"@ && "DISCARD"@ != "PING"@,
        "SUBSCRIBE"@ != "UNSUBSCRIBE"@ && "SUBSCRIBE"@ != "PING"@,
        "UNSUBSCRIBE"@ != "PING"@,
{
    reveal_strlit("MULTI");
    reveal_strlit("EXEC");
    reveal_strlit("DISCARD");
    reveal_strlit("SUBSCRIBE");
    reveal_strlit("UNSUBSCRIBE");
    reveal_strlit("PING");
    assert("MULTI"@.len() == 5 && "EXEC"@.len() == 4 && "DISCARD"@.len() == 7);
    assert("SUBSCRIBE"@.len() == 9 && "UNSUBSCRIBE"@.len() == 11 && "PING"@.len() == 4);
    assert("EXEC"@[0] == 'E' && "PING"@[0] == 'P');
}

/// `MULTI` opens a transaction, which is empty. It is refused inside a transaction, and
/// in subscribe mode.
pub proof fn lemma_multi_means(
    name: Seq<char>,
    args: Seq<Seq<char>>,
    readings: Map<Seq<char>, ScoreView>,
    before: SessionView,
    db: DatabaseView,
    now: u64,
    after: SessionView,
    db_after: DatabaseView,
    handled: HandledView,
)
    requires
        text::upper(name) == "MULTI"@,
        handles(seq![name] + args, readings, before, db, now, after, db_after, handled),
        before.subscribed() ==> before.transaction is None,
    ensures
        db_after == db,
        before.channels != Set::<Seq<char>>::empty() ==> after == before && handled
            == HandledView::Reply(
            resp::error_frame(
                "ERR Can't execute '"@ + text::lower("MULTI"@)
                    + "': only (UN)SUBSCRIBE / PING are allowed in subscribe mode"@,
            ),
        ),
        before.transaction is Some ==> after == before && handled == HandledView::Reply(
            resp::error_frame("ERR MULTI calls can not be nested"@),
        ),
        before.channels == Set::<Seq<char>>::empty() && before.transaction is None ==> after == (
        SessionView {
            transaction: Some(TransactionView { commands: Seq::empty(), dirty: false }),
            ..before
        }) && handled == HandledView::Reply(resp::simple_frame("OK"@)),
{
    lemma_session_names();
}

/// `EXEC` hands out the queued commands in the order in which they were queued, unless
/// one was refused, and ends the transaction; `DISCARD` ends it and runs nothing.
pub proof fn lemma_exec_and_discard_mean(
    name: Seq<char>,
    args: Seq<Seq<char>>,
    readings: Map<Seq<char>, ScoreView>,
    before: SessionView,
    db: DatabaseView,
    now: u64,
    after: SessionView,
    db_after: DatabaseView,
    handled: HandledView,
)
    requires
        text::upper(name) == "EXEC"@ || text::upper(name) == "DISCARD"@,
        handles(seq![name] + args, readings, before, db, now, after, db_after, handled),
    ensures
        db_after == db,
        after == (SessionView { transaction: None, ..before }),
        text::upper(name) == "EXEC"@ ==> handled == match before.transaction {
            None => HandledView::Reply(resp::error_frame("ERR EXEC without MULTI"@)),
            Some(transaction) => if transaction.dirty {
                HandledView::Reply(
                    resp::error_frame(
                        "EXECABORT Transaction discarded because of previous errors."@,
                    ),
                )
            } else {
                HandledView::Exec(transaction.commands)
            },
        },
        text::upper(name) == "DISCARD"@ ==> handled == HandledView::Reply(
            if before.transaction is Some {
                resp::simple_frame("OK"@)
            } else {
                resp::error_frame("ERR DISCARD without MULTI"@)
            },
        ),
{
    lemma_session_names();
}

/// A request that is not about the session itself is refused in subscribe mode (`PING`
/// apart), queued inside a transaction, and run otherwise.
pub proof fn lemma_other_requests_mean(
    tokens: Seq<Seq<char>>,
    readings: Map<Seq<char>, ScoreView>,
    before: SessionView,
    db: DatabaseView,
    now: u64,
    after: SessionView,
    db_after: DatabaseView,
    handled: HandledView,
)
    requires
        tokens.len() > 0,
        text::upper(tokens[0]) != "MULTI"@,
        text::upper(tokens[0]) != "EXEC"@,
        text::upper(tokens[0]) != "DISCARD"@,
        text::upper(tokens[0]) != "UNSUBSCRIBE"@,
        text::upper(tokens[0]) != "SUBSCRIBE"@ || before.transaction is Some
            && before.channels == Set::<Seq<char>>::empty(),
        handles(tokens, readings, before, db, now, after, db_after, handled),
    ensures
        before.channels != Set::<Seq<char>>::empty() && text::upper(tokens[0]) != "PING"@ ==> after
            == before && db_after == db && handled == HandledView::Reply(
            resp::error_frame(
                "ERR Can't execute '"@ + text::lower(text::upper(tokens[0]))
                    + "': only (UN)SUBSCRIBE / PING are allowed in subscribe mode"@,
            ),
        ),
        before.channels == Set::<Seq<char>>::empty() ==> match before.transaction {
            Some(transaction) => {
                &&& db_after == db
                &&& parse::parsed(tokens, readings) is Ok ==> after == (SessionView {
                    transaction: Some(
                        TransactionView {
                            commands: transaction.commands.push(tokens),
                            dirty: transaction.dirty,
                        },
                    ),
                    ..before
                }) && handled == HandledView::Reply(resp::simple_frame("QUEUED"@))
                &&& parse::parsed(tokens, readings) matches Err(error) ==> after == (SessionView {
                    transaction: Some(
                        TransactionView { commands: transaction.commands, dirty: true },
                    ),
                    ..before
                }) && handled == HandledView::Reply(
                    resp::error_frame(command::command_error_text(error)),
                )
            },
            None => after == before && (handled matches HandledView::Run(step)
                && dispatch::dispatches(tokens, readings, db, now, db_after, step)),
        },
        before.transaction is None && text::upper(tokens[0]) == "PING"@ ==> after == before && (
        handled matches HandledView::Run(step) && dispatch::dispatches(
            tokens,
            readings,
            db,
            now,
            db_after,
            step,
        )),
{
    lemma_session_names();
}

/// Whether `id` is a subscriber of the channel.
pub open spec fn listens(registry: Channels, channel: Seq<char>, id: u64) -> bool {
    registry.contains_key(channel) && registry[channel].contains(id)
}

proof fn lemma_joining_others(
    registry: Channels,
    mine: Set<Seq<char>>,
    list: Seq<Seq<char>>,
    id: u64,
    channel: Seq<char>,
    other: u64,
)
    requires
        !list.contains(channel) || other != id,
    ensures
        listens(after_joining(registry, mine, list, id), channel, other) == listens(
            registry,
            channel,
            other,
        ),
        listens(after_parting(registry, mine, list, id), channel, other) == listens(
            registry,
            channel,
            other,
        ),
    decreases list.len(),
{
    if list.len() > 0 {
        let fewer = list.drop_last();
        if fewer.contains(channel) {
            let i = choose|i: int| 0 <= i < fewer.len() && fewer[i] == channel;
            assert(list[i] == channel);
        }
        if list.last() == channel {
            assert(list[list.len() - 1] == channel);
        }
        lemma_joining_others(registry, mine, fewer, id, channel, other);
        pubsub::lemma_subscription_lasts_until_unsubscribed(
            after_joining(registry, mine, fewer, id),
            list.last(),
            id,
            channel,
            other,
        );
        pubsub::lemma_subscription_lasts_until_unsubscribed(
            after_parting(registry, mine, fewer, id),
            list.last(),
            id,
            channel,
            other,
        );
    }
}

/// `SUBSCRIBE` puts the connection on every channel it is given, and answers for each
/// with the number of channels it is then on. Nobody else's subscription changes.
pub proof fn lemma_subscribe_means(
    name: Seq<char>,
    list: Seq<Seq<char>>,
    readings: Map<Seq<char>, ScoreView>,
    before: SessionView,
    db: DatabaseView,
    now: u64,
    after: SessionView,
    db_after: DatabaseView,
    handled: HandledView,
    channel: Seq<char>,
    other: u64,
)
    requires
        text::upper(name) == "SUBSCRIBE"@,
        before.transaction is None,
        handles(seq![name] + list, readings, before, db, now, after, db_after, handled),
    ensures
        list.len() == 0 ==> after == before && db_after == db && handled == HandledView::Reply(
            resp::error_frame("ERR wrong number of arguments for 'subscribe' command"@),
        ),
        list.len() > 0 ==> {
            &&& after == (SessionView { channels: after.channels, ..before })
            &&& after.channels.contains(channel) == (before.channels.contains(channel)
                || list.contains(channel))
            &&& db_after == (DatabaseView { channels: db_after.channels, ..db })
            &&& list.contains(channel) && !before.channels.contains(channel) ==> listens(
                db_after.channels,
                channel,
                before.id,
            )
            &&& !list.contains(channel) || other != before.id ==> listens(
                db_after.channels,
                channel,
                other,
            ) == listens(db.channels, channel, other)
            &&& handled == HandledView::Reply(joining_reply(before.channels, list))
        },
{
    lemma_session_names();
    assert((seq![name] + list).skip(1) =~= list);
    if list.len() > 0 {
        assert(list.to_set().contains(channel) == list.contains(channel));
        if list.contains(channel) {
            lemma_joining_and_parting(db.channels, before.channels, list, before.id, channel);
        }
        if !list.contains(channel) || other != before.id {
            lemma_joining_others(
                db.channels,
                before.channels,
                list,
                before.id,
                channel,
                other,
            );
        }
    }
}

/// What leaving channels does: the connection is on none of them afterwards, and nobody
/// else's subscription changes.
proof fn lemma_parting_means(
    list: Seq<Seq<char>>,
    before: SessionView,
    db: DatabaseView,
    after: SessionView,
    db_after: DatabaseView,
    reply: Seq<char>,
    channel: Seq<char>,
    other: u64,
)
    requires
        parts(list, before, db, after, db_after, reply),
    ensures
        after == (SessionView { channels: after.channels, ..before }),
        after.channels.contains(channel) == (before.channels.contains(channel) && !list.contains(
            channel,
        )),
        db_after == (DatabaseView { channels: db_after.channels, ..db }),
        list.contains(channel) && before.channels.contains(channel) ==> !listens(
            db_after.channels,
            channel,
            before.id,
        ),
        !list.contains(channel) || other != before.id ==> listens(
            db_after.channels,
            channel,
            other,
        ) == listens(db.channels, channel, other),
{
    assert(list.to_set().contains(channel) == list.contains(channel));
    if list.contains(channel) {
        lemma_joining_and_parting(db.channels, before.channels, list, before.id, channel);
    }
    if !list.contains(channel) || other != before.id {
        lemma_joining_others(db.channels, before.channels, list, before.id, channel, other);
    }
}

/// `UNSUBSCRIBE` takes the connection off every channel it is given, or off all of them
/// when it is given none, and answers for each with the number of channels it is still
/// on. Nobody else's subscription changes.
pub proof fn lemma_unsubscribe_means(
    name: Seq<char>,
    list: Seq<Seq<char>>,
    readings: Map<Seq<char>, ScoreView>,
    before: SessionView,
    db: DatabaseView,
    now: u64,
    after: SessionView,
    db_after: DatabaseView,
    handled: HandledView,
    channel: Seq<char>,
    other: u64,
)
    requires
        text::upper(name) == "UNSUBSCRIBE"@,
        handles(seq![name] + list, readings, before, db, now, after, db_after, handled),
    ensures
        after == (SessionView { channels: after.channels, ..before }),
        db_after == (DatabaseView { channels: db_after.channels, ..db }),
        list.len() > 0 ==> after.channels.contains(channel) == (before.channels.contains(channel)
            && !list.contains(channel)),
        list.len() == 0 ==> !after.channels.contains(channel),
        before.channels.contains(channel) && !after.channels.contains(channel) ==> !listens(
            db_after.channels,
            channel,
            before.id,
        ),
        other != before.id ==> listens(db_after.channels, channel, other) == listens(
            db.channels,
            channel,
            other,
        ),
        list.len() > 0 ==> handled == HandledView::Reply(parting_reply(before.channels, list)),
        list.len() == 0 && before.channels == Set::<Seq<char>>::empty() ==> handled
            == HandledView::Reply(
            seq!['*'] + text::decimal(3) + seq!['\r', '\n'] + resp::bulk_frame("unsubscribe"@)
                + resp::null_frame() + resp::integer_frame(0),
        ),
        list.len() == 0 && before.channels != Set::<Seq<char>>::empty() ==> exists|
            all: Seq<Seq<char>>,
        | #[trigger]
            keyed_map::enumerates(all, before.channels) && handled == HandledView::Reply(
                parting_reply(before.channels, all),
            ),
{
    lemma_session_names();
    assert((seq![name] + list).skip(1) =~= list);
    let reply = handled->Reply_0;
    if list.len() > 0 {
        lemma_parting_means(list, before, db, after, db_after, reply, channel, other);
    } else if before.subscribed() {
        let all = choose|all: Seq<Seq<char>>| #[trigger]
            keyed_map::enumerates(all, before.channels) && parts(
                all,
                before,
                db,
                after,
                db_after,
                reply,
            );
        lemma_parting_means(all, before, db, after, db_after, reply, channel, other);
        assert(all.to_set().contains(channel) == all.contains(channel));
    }
}

/// A confirmation is an array of three: what was done, the channel, and the number of
/// channels that the connection is on after it.
pub proof fn lemma_confirmations_mean(
    mine: Set<Seq<char>>,
    list: Seq<Seq<char>>,
    channel: Seq<char>,
    joined: Set<Seq<char>>,
    left: Set<Seq<char>>,
)
    requires
        mine.finite(),
        forall|x: Seq<char>| #[trigger]
            joined.contains(x) == (mine.contains(x) || list.contains(x) || x == channel),
        forall|x: Seq<char>| #[trigger]
            left.contains(x) == (mine.contains(x) && !list.contains(x) && x != channel),
        joined.len() <= i64::MAX,
        left.len() <= i64::MAX,
    ensures
        joining_reply(mine, Seq::empty()) == Seq::<char>::empty(),
        parting_reply(mine, Seq::empty()) == Seq::<char>::empty(),
        joining_reply(mine, list.push(channel)) == joining_reply(mine, list) + (seq!['*']
            + text::decimal(3) + seq!['\r', '\n'] + resp::bulk_frame("subscribe"@)
            + resp::bulk_frame(channel) + resp::integer_frame(joined.len() as int)),
        parting_reply(mine, list.push(channel)) == parting_reply(mine, list) + (seq!['*']
            + text::decimal(3) + seq!['\r', '\n'] + resp::bulk_frame("unsubscribe"@)
            + resp::bulk_frame(channel) + resp::integer_frame(left.len() as int)),
{
    let more = list.push(channel);
    assert(more.drop_last() =~= list);
    text::lemma_push_to_set(list, channel);
    assert forall|x: Seq<char>| list.to_set().contains(x) == list.contains(x) by {}
    assert(mine.union(more.to_set()) =~= joined);
    assert(mine.difference(more.to_set()) =~= left);
}

/// The replies of a transaction follow one another.
pub proof fn lemma_replies_follow(replies: Seq<Seq<char>>, reply: Seq<char>)
    ensures
        concatenated(Seq::empty()) == Seq::<char>::empty(),
        concatenated(replies.push(reply)) == concatenated(replies) + reply,
{
    assert(replies.push(reply).drop_last() =~= replies);
}

} // verus!
