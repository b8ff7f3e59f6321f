//! Requests from tokens and bytes to replies, with the server's part of the work
//! (reading and adding floating-point numbers, delivering messages, keeping the
//! log) done in memory.
use std::collections::HashMap;

use redis_clone::command::dispatch::{dispatch, finish_zincrby, reply_save, Step};
use redis_clone::command::execute::{reply_number, Outcome};
use redis_clone::command::parse::{
    arity, float_texts, key_and_values, negate, non_empty_args, parse_number, parse_score,
    parse_score_bound, parse_seconds, single_key,
};
use redis_clone::command::{Command, CommandError};
use redis_clone::database::aof::{Aof, FsyncPolicy};
use redis_clone::database::db::Database;
use redis_clone::resp;
use redis_clone::score::{FloatReadings, Score};
use redis_clone::server::{read_bulk_string, read_log, read_request, Piece, Request};
use redis_clone::session::{Execution, Handled, Session};

const SECOND: u64 = 1_000_000_000;

fn score(value: f64) -> Score {
    Score::new(value.to_bits(), value.to_string())
}

fn readings_for(texts: Vec<String>) -> FloatReadings {
    let mut readings = FloatReadings::new();
    for text in texts {
        if let Ok(value) = text.parse::<f64>() {
            readings.record(text, score(value));
        }
    }
    readings
}

fn words(input: &str) -> Vec<String> {
    input.split_whitespace().map(str::to_string).collect()
}

/// A server without sockets and files.
struct Server {
    db: Database,
    now: u64,
    log: String,
    syncs: usize,
    mailboxes: HashMap<u64, Vec<String>>,
    saves: Vec<Result<(), String>>,
}

impl Server {
    fn with(db: Database) -> Self {
        Server {
            db,
            now: 0,
            log: String::new(),
            syncs: 0,
            mailboxes: HashMap::new(),
            saves: Vec::new(),
        }
    }

    fn new() -> Self {
        Server::with(Database::new())
    }

    fn complete(&mut self, tokens: &[String], step: Step) -> String {
        let (reply, log) = match step.outcome {
            Outcome::Reply(reply) => (reply, step.log),
            Outcome::Save => (reply_save(self.saves.remove(0)), step.log),
            Outcome::BackgroundSave(reply) => (reply, step.log),
            Outcome::Publish(delivery) => {
                let mut delivered = 0;
                for id in delivery.recipients {
                    if let Some(mailbox) = self.mailboxes.get_mut(&id) {
                        mailbox.push(delivery.message.clone());
                        delivered += 1;
                    }
                }
                (reply_number(delivered), step.log)
            }
            Outcome::AddScores {
                key,
                current,
                increment,
                member,
            } => {
                let base = current.map_or(0.0, |score| f64::from_bits(score.bits));
                let sum = score(base + f64::from_bits(increment.bits));
                finish_zincrby(tokens, key, sum, member, &mut self.db, self.now)
            }
        };
        if let Some(record) = log {
            self.log.push_str(&record.payload);
            if record.sync {
                self.syncs += 1;
            }
        }
        reply
    }

    fn run(&mut self, tokens: &[String]) -> String {
        let readings = readings_for(float_texts(tokens));
        let step = dispatch(tokens, &readings, &mut self.db, self.now);
        self.complete(tokens, step)
    }

    fn handle(&mut self, input: &str) -> String {
        self.run(&words(input))
    }

    fn connect(&mut self) -> Session {
        let session = Session::new(&mut self.db);
        self.mailboxes.insert(session.id(), Vec::new());
        session
    }

    fn serve(&mut self, session: &mut Session, tokens: &[String]) -> String {
        let readings = readings_for(float_texts(tokens));
        match session.handle(tokens, &readings, &mut self.db, self.now) {
            Handled::Reply(reply) => reply,
            Handled::Run(step) => self.complete(tokens, step),
            Handled::Exec(commands) => {
                let mut execution = Execution::new(commands);
                while let Some(command) = execution.next_command() {
                    let reply = self.run(&command);
                    execution.answer(reply);
                }
                execution.finish()
            }
        }
    }

    fn send(&mut self, session: &mut Session, bytes: &[u8]) -> String {
        let mut replies = String::new();
        let mut at = 0;
        while let Request::Tokens(tokens, used) = read_request(&bytes[at..], false) {
            replies.push_str(&self.serve(session, &tokens));
            at += used;
        }
        assert_eq!(at, bytes.len());
        replies
    }
}

// --- Commands -----------------------------------------------------------

#[test]
fn spop_is_logged_to_the_aof_as_a_deterministic_srem() {
    let aof = Aof::new(FsyncPolicy::Always);
    let mut server = Server::with(Database::with_persistence(None, Some(aof)));

    server.handle("SADD s a b c");
    let popped = server.handle("SPOP s");
    // Reply is the popped member as a bulk string, e.g. "$1\r\na\r\n".
    let member = popped.lines().nth(1).unwrap().to_string();

    let logged = &server.log;
    // The AOF must record the equivalent SREM of the member actually
    // removed, never the non-deterministic SPOP.
    assert!(!logged.contains("SPOP"), "AOF logged raw SPOP: {logged:?}");
    assert!(logged.contains("SREM"), "AOF missing SREM: {logged:?}");
    assert!(logged.contains(&member), "AOF missing member: {logged:?}");
    assert_eq!(server.syncs, 2);
}

#[test]
fn set_and_get_roundtrip() {
    let mut server = Server::new();
    assert_eq!(server.handle("SET name radley"), "+OK\r\n");
    assert_eq!(server.handle("GET name"), "$6\r\nradley\r\n");
    assert_eq!(server.handle("GET missing"), "$-1\r\n");
}

#[test]
fn command_names_are_case_insensitive() {
    let mut server = Server::new();
    assert_eq!(server.handle("set k v"), "+OK\r\n");
    assert_eq!(server.handle("Get k"), "$1\r\nv\r\n");
}

#[test]
fn del_returns_an_integer_reply() {
    let mut server = Server::new();
    server.handle("SET k v");
    assert_eq!(server.handle("DEL k"), ":1\r\n");
    assert_eq!(server.handle("DEL k"), ":0\r\n");
}

#[test]
fn lrange_uses_redis_argument_order() {
    let mut server = Server::new();
    for value in ["a", "b", "c"] {
        server.handle(&format!("RPUSH l {value}"));
    }
    assert_eq!(
        server.handle("LRANGE l 0 -1"),
        "*3\r\n$1\r\na\r\n$1\r\nb\r\n$1\r\nc\r\n"
    );
}

#[test]
fn hash_set_get_and_incr() {
    let mut server = Server::new();
    assert_eq!(server.handle("HSET h f 1"), ":1\r\n"); // new field
    assert_eq!(server.handle("HSET h f 2"), ":0\r\n"); // overwrite
    assert_eq!(server.handle("HGET h f"), "$1\r\n2\r\n");
    assert_eq!(server.handle("HGET h missing"), "$-1\r\n");
    assert_eq!(server.handle("HLEN h"), ":1\r\n");
    assert_eq!(server.handle("HINCRBY h f 5"), ":7\r\n");
    assert_eq!(server.handle("HEXISTS h f"), ":1\r\n");
    assert_eq!(server.handle("HDEL h f"), ":1\r\n");
    // Hash is now empty and dropped, so HGET returns nil, not WRONGTYPE.
    assert_eq!(server.handle("HGET h f"), "$-1\r\n");
}

#[test]
fn variadic_commands_count_correctly() {
    let mut server = Server::new();
    // RPUSH with several values reports the final length.
    assert_eq!(server.handle("RPUSH l a b c"), ":3\r\n");
    assert_eq!(
        server.handle("LRANGE l 0 -1"),
        "*3\r\n$1\r\na\r\n$1\r\nb\r\n$1\r\nc\r\n"
    );
    // SADD returns the number of *new* members added.
    assert_eq!(server.handle("SADD s a b c a"), ":3\r\n");
    assert_eq!(server.handle("SREM s a b x"), ":2\r\n");
    // ZADD returns the number of new members across score/member pairs.
    assert_eq!(server.handle("ZADD z 1 a 2 b 3 c"), ":3\r\n");
    // DEL reports how many of the listed keys existed.
    assert_eq!(server.handle("DEL l s z missing"), ":3\r\n");
}

#[test]
fn string_number_and_length_commands() {
    let mut server = Server::new();
    assert_eq!(server.handle("INCR counter"), ":1\r\n");
    assert_eq!(server.handle("INCRBY counter 9"), ":10\r\n");
    assert_eq!(server.handle("DECR counter"), ":9\r\n");
    assert_eq!(server.handle("DECRBY counter 4"), ":5\r\n");
    assert_eq!(server.handle("APPEND s ab"), ":2\r\n");
    assert_eq!(server.handle("APPEND s cd"), ":4\r\n");
    assert_eq!(server.handle("STRLEN s"), ":4\r\n");
    assert!(server
        .handle("INCR s")
        .starts_with("-ERR value is not an integer"));
}

#[test]
fn mget_mset_setnx_getset() {
    let mut server = Server::new();
    assert_eq!(server.handle("MSET a 1 b 2"), "+OK\r\n");
    // MGET returns a value per key, nil for the missing one.
    assert_eq!(
        server.handle("MGET a missing b"),
        "*3\r\n$1\r\n1\r\n$-1\r\n$1\r\n2\r\n"
    );
    assert_eq!(server.handle("SETNX a 9"), ":0\r\n"); // already exists
    assert_eq!(server.handle("SETNX c 9"), ":1\r\n");
    assert_eq!(server.handle("GETSET a 5"), "$1\r\n1\r\n"); // old value
    assert_eq!(server.handle("GET a"), "$1\r\n5\r\n");
}

#[test]
fn list_index_and_set_operations() {
    let mut server = Server::new();
    for value in ["a", "b", "c"] {
        server.handle(&format!("RPUSH l {value}"));
    }
    assert_eq!(server.handle("LLEN l"), ":3\r\n");
    assert_eq!(server.handle("LINDEX l -1"), "$1\r\nc\r\n");
    assert_eq!(server.handle("LSET l 0 z"), "+OK\r\n");
    assert_eq!(server.handle("LINDEX l 0"), "$1\r\nz\r\n");
    assert!(server
        .handle("LSET l 9 x")
        .starts_with("-ERR index out of range"));
    assert!(server
        .handle("LSET missing 0 x")
        .starts_with("-ERR no such key"));

    server.handle("SADD s1 a");
    server.handle("SADD s1 b");
    server.handle("SADD s2 b");
    assert_eq!(server.handle("SCARD s1"), ":2\r\n");
    assert_eq!(server.handle("SINTER s1 s2"), "*1\r\n$1\r\nb\r\n");
}

#[test]
fn sorted_set_rank_incr_and_withscores() {
    let mut server = Server::new();
    server.handle("ZADD z 1 a");
    server.handle("ZADD z 2 b");
    assert_eq!(server.handle("ZCARD z"), ":2\r\n");
    assert_eq!(server.handle("ZRANK z b"), ":1\r\n");
    assert_eq!(server.handle("ZRANK z missing"), "$-1\r\n");
    assert_eq!(server.handle("ZINCRBY z 5 a"), "$1\r\n6\r\n"); // 1 + 5
    // a now has score 6, so b (2) ranks first.
    assert_eq!(
        server.handle("ZRANGE z 0 -1 WITHSCORES"),
        "*4\r\n$1\r\nb\r\n$1\r\n2\r\n$1\r\na\r\n$1\r\n6\r\n"
    );
    assert_eq!(server.handle("ZRANGEBYSCORE z 2 5"), "*1\r\n$1\r\nb\r\n");
}

#[test]
fn spop_removes_and_returns_a_member() {
    let mut server = Server::new();
    server.handle("SADD s only");
    assert_eq!(server.handle("SPOP s"), "$4\r\nonly\r\n");
    // The set is now empty and the key is dropped.
    assert_eq!(server.handle("SPOP s"), "$-1\r\n");
    assert_eq!(server.handle("EXISTS s"), ":0\r\n");
}

#[test]
fn nan_scores_are_rejected() {
    let mut server = Server::new();
    assert!(server.handle("ZADD z nan m").starts_with("-ERR"));
    assert!(server.handle("ZINCRBY z nan m").starts_with("-ERR"));
    assert!(server.handle("ZRANGEBYSCORE z nan 5").starts_with("-ERR"));
    // inf remains valid, as in Redis.
    assert_eq!(server.handle("ZADD z inf m"), ":1\r\n");
}

#[test]
fn generic_key_commands() {
    let mut server = Server::new();
    server.handle("SET a 1");
    server.handle("RPUSH b x");
    assert_eq!(server.handle("EXISTS a b missing"), ":2\r\n");
    assert_eq!(server.handle("TYPE a"), "+string\r\n");
    assert_eq!(server.handle("TYPE b"), "+list\r\n");
    assert_eq!(server.handle("TYPE missing"), "+none\r\n");
    assert_eq!(server.handle("DBSIZE"), ":2\r\n");
    assert_eq!(server.handle("PING"), "+PONG\r\n");
    assert_eq!(server.handle("PING hey"), "$3\r\nhey\r\n");
    assert_eq!(server.handle("ECHO hi"), "$2\r\nhi\r\n");
    assert_eq!(server.handle("RENAME missing x"), "-ERR no such key\r\n");
    assert_eq!(server.handle("RENAME a c"), "+OK\r\n");
    assert_eq!(server.handle("GET c"), "$1\r\n1\r\n");
    assert_eq!(server.handle("FLUSHALL"), "+OK\r\n");
    assert_eq!(server.handle("DBSIZE"), ":0\r\n");
}

#[test]
fn expire_ttl_and_persist() {
    let mut server = Server::new();
    server.handle("SET k v");
    assert_eq!(server.handle("TTL k"), ":-1\r\n"); // no expiry
    assert_eq!(server.handle("EXPIRE k 100"), ":1\r\n");
    // Remaining TTL is 99 or 100 depending on timing; assert it is positive.
    let ttl = server.handle("TTL k");
    assert!(
        ttl == ":100\r\n" || ttl == ":99\r\n",
        "unexpected ttl {ttl:?}"
    );
    assert_eq!(server.handle("PERSIST k"), ":1\r\n");
    assert_eq!(server.handle("PERSIST k"), ":0\r\n"); // nothing to remove
    assert_eq!(server.handle("TTL missing"), ":-2\r\n");
}

#[test]
fn keys_matches_glob_patterns() {
    let mut server = Server::new();
    for key in ["user:1", "user:2", "post:1"] {
        server.handle(&format!("SET {key} v"));
    }
    let reply = server.handle("KEYS user:*");
    assert!(reply.starts_with("*2\r\n"), "unexpected reply {reply:?}");
    assert!(reply.contains("user:1"));
    assert!(reply.contains("user:2"));
    assert!(!reply.contains("post:1"));
    // `*` alone matches every key.
    assert!(server.handle("KEYS *").starts_with("*3\r\n"));
}

#[test]
fn wrong_type_produces_an_error_reply() {
    let mut server = Server::new();
    server.handle("LPUSH l a");
    assert!(server.handle("GET l").starts_with("-WRONGTYPE"));
}

#[test]
fn malformed_input_never_panics() {
    let mut server = Server::new();
    assert!(server.handle("SET k v EX abc").starts_with("-ERR"));
    assert!(server.handle("LRANGE l x y").starts_with("-ERR"));
    assert_eq!(server.handle("FOO bar"), "-ERR unknown command 'FOO'\r\n");
    assert_eq!(
        server.handle("GET"),
        resp::error(&arity("GET").message())
    );
    assert_eq!(server.handle(""), "");
}

#[test]
fn command_error_messages_match_redis() {
    assert_eq!(
        CommandError::Unknown("X".into()).message(),
        "ERR unknown command 'X'"
    );
    assert_eq!(
        arity("SET").message(),
        "ERR wrong number of arguments for 'set' command"
    );
    assert_eq!(
        CommandError::NotAnInteger("z".into()).message(),
        "ERR value 'z' is not a valid integer"
    );
}

#[test]
fn the_other_command_errors_have_their_texts() {
    assert_eq!(CommandError::Empty.message(), "ERR empty command");
    assert_eq!(
        CommandError::NotAFloat("z".into()).message(),
        "ERR value 'z' is not a valid float"
    );
    let none: Vec<String> = Vec::new();
    assert_eq!(
        Command::parse(&none, &FloatReadings::new()).err(),
        Some(CommandError::Empty)
    );
}

#[test]
fn every_command_checks_its_arity() {
    let mut server = Server::new();
    for name in [
        "SET", "GET", "DEL", "LPUSH", "RPUSH", "LPOP", "RPOP", "LRANGE", "SADD", "SREM",
        "SMEMBERS", "SISMEMBER", "ZADD", "ZREM", "ZRANGE", "ZSCORE", "HSET", "HGET", "HDEL",
        "HGETALL", "HKEYS", "HVALS", "HLEN", "HEXISTS", "HINCRBY", "EXISTS", "TYPE", "KEYS",
        "EXPIRE", "TTL", "PERSIST", "RENAME", "ECHO", "PUBLISH", "INCR", "DECR", "INCRBY",
        "DECRBY", "APPEND", "STRLEN", "MGET", "MSET", "SETNX", "GETSET", "LLEN", "LINDEX",
        "LSET", "SCARD", "SPOP", "SINTER", "SUNION", "SDIFF", "ZCARD", "ZRANK", "ZINCRBY",
        "ZRANGEBYSCORE",
    ] {
        assert_eq!(
            server.handle(name),
            format!(
                "-ERR wrong number of arguments for '{}' command\r\n",
                name.to_lowercase()
            )
        );
    }
    for request in ["PING a b", "DBSIZE x", "FLUSHALL x", "SET k v PX 1", "ZADD z 1 a 2",
        "MSET a 1 b", "ZRANGE z 0 1 SCORES", "LPUSH l", "GET a b"] {
        assert!(server
            .handle(request)
            .starts_with("-ERR wrong number of arguments for '"));
    }
}

#[test]
fn set_with_a_ttl_takes_both_option_spellings() {
    let mut server = Server::new();
    assert_eq!(server.handle("SET a 1 EX 10"), "+OK\r\n");
    assert_eq!(server.handle("SET b 1 exp 20"), "+OK\r\n");
    assert_eq!(server.handle("TTL a"), ":10\r\n");
    assert_eq!(server.handle("TTL b"), ":20\r\n");
    assert_eq!(
        server.handle("SET a 1 EX -1"),
        "-ERR value '-1' is not a valid integer\r\n"
    );
    server.now = 10 * SECOND;
    assert_eq!(server.handle("GET a"), "$-1\r\n");
    assert_eq!(server.handle("TTL b"), ":10\r\n");
    // A plain SET clears the TTL.
    assert_eq!(server.handle("SET b 2"), "+OK\r\n");
    assert_eq!(server.handle("TTL b"), ":-1\r\n");
}

#[test]
fn expiry_deletes_and_rename_carries_the_ttl() {
    let mut server = Server::new();
    server.handle("SET k v EX 10");
    assert_eq!(server.handle("RENAME k n"), "+OK\r\n");
    assert_eq!(server.handle("TTL n"), ":10\r\n");
    assert_eq!(server.handle("EXPIRE n 0"), ":1\r\n");
    assert_eq!(server.handle("EXISTS n n k"), ":0\r\n");
    assert_eq!(server.handle("EXPIRE n 5"), ":0\r\n");
    server.handle("SET c 5 EX 10");
    assert_eq!(server.handle("INCR c"), ":6\r\n");
    assert_eq!(server.handle("TTL c"), ":10\r\n");
    assert_eq!(server.handle("GETSET c 1"), "$1\r\n6\r\n");
    assert_eq!(server.handle("TTL c"), ":-1\r\n");
    assert_eq!(server.handle("EXISTS c c"), ":2\r\n");
}

#[test]
fn integers_are_checked() {
    let mut server = Server::new();
    server.handle("SET n 9223372036854775807");
    assert_eq!(
        server.handle("INCR n"),
        "-ERR increment or decrement would overflow\r\n"
    );
    assert_eq!(server.handle("GET n"), "$19\r\n9223372036854775807\r\n");
    assert_eq!(server.handle("DECRBY n 7"), ":9223372036854775800\r\n");
    assert_eq!(
        server.handle("DECRBY n -9223372036854775808"),
        "-ERR value '-9223372036854775808' is not a valid integer\r\n"
    );
    server.handle("HSET h f x");
    assert_eq!(
        server.handle("HINCRBY h f 1"),
        "-ERR hash value is not an integer\r\n"
    );
    assert_eq!(server.handle("HINCRBY h new -3"), ":-3\r\n");
    assert_eq!(
        server.handle("INCR n"),
        ":9223372036854775801\r\n"
    );
}

#[test]
fn a_refused_request_changes_nothing() {
    let mut server = Server::with(Database::with_persistence(
        None,
        Some(Aof::new(FsyncPolicy::No)),
    ));
    server.handle("RPUSH l a b");
    let log = server.log.clone();
    for request in [
        "SADD l x", "INCR l", "APPEND l x", "HSET l f v", "ZADD l 1 a", "GETSET l x",
        "LSET l 7 x", "HINCRBY l f 1", "SPOP l", "ZINCRBY l 1 m", "SREM l a", "HDEL l f",
        "ZREM l m",
    ] {
        assert!(server.handle(request).starts_with('-'), "{request}");
    }
    assert_eq!(server.handle("LRANGE l 0 -1"), "*2\r\n$1\r\na\r\n$1\r\nb\r\n");
    assert_eq!(server.handle("DBSIZE"), ":1\r\n");
    assert_eq!(server.log, log);
    assert_eq!(server.syncs, 0);
}

#[test]
fn set_algebra_over_several_keys() {
    let mut server = Server::new();
    server.handle("SADD a 1 2 3");
    server.handle("SADD b 3");
    server.handle("SADD c 2");
    assert_eq!(server.handle("SDIFF a b c"), "*1\r\n$1\r\n1\r\n");
    assert_eq!(server.handle("SINTER a missing"), "*0\r\n");
    assert!(server.handle("SUNION b c missing").starts_with("*2\r\n"));
    server.handle("SET s x");
    assert!(server.handle("SUNION a s").starts_with("-WRONGTYPE"));
    assert!(server.handle("SINTER missing s").starts_with("-WRONGTYPE"));
    assert!(server.handle("SDIFF s").starts_with("-WRONGTYPE"));
}

#[test]
fn sorted_set_bounds_may_be_exclusive_and_infinite() {
    let mut server = Server::new();
    server.handle("ZADD z 1 a 2 b 3 c");
    assert_eq!(
        server.handle("ZRANGEBYSCORE z (1 3"),
        "*2\r\n$1\r\nb\r\n$1\r\nc\r\n"
    );
    assert_eq!(server.handle("ZRANGEBYSCORE z 1 (2"), "*1\r\n$1\r\na\r\n");
    assert_eq!(
        server.handle("ZRANGEBYSCORE z -inf +INF"),
        "*3\r\n$1\r\na\r\n$1\r\nb\r\n$1\r\nc\r\n"
    );
    assert_eq!(
        server.handle("ZRANGEBYSCORE z x 1"),
        "-ERR value 'x' is not a valid float\r\n"
    );
    assert_eq!(
        server.handle("ZADD z 1 ok x m"),
        "-ERR value 'x' is not a valid float\r\n"
    );
    assert_eq!(server.handle("ZSCORE z ok"), "$-1\r\n");
    assert_eq!(server.handle("ZADD z 1.5 a"), ":0\r\n");
    assert_eq!(server.handle("ZSCORE z a"), "$3\r\n1.5\r\n");
    assert_eq!(server.handle("ZREM z a"), ":1\r\n");
    assert_eq!(server.handle("ZINCRBY z -2.5 new"), "$4\r\n-2.5\r\n");
    assert_eq!(server.handle("ZRANK z new"), ":0\r\n");
}

#[test]
fn hashes_list_fields_and_values() {
    let mut server = Server::new();
    server.handle("HSET h f v");
    assert_eq!(server.handle("HGETALL h"), "*2\r\n$1\r\nf\r\n$1\r\nv\r\n");
    assert_eq!(server.handle("HKEYS h"), "*1\r\n$1\r\nf\r\n");
    assert_eq!(server.handle("HVALS h"), "*1\r\n$1\r\nv\r\n");
    assert_eq!(server.handle("HGETALL missing"), "*0\r\n");
}

#[test]
fn save_and_bgsave_reply() {
    let mut server = Server::new();
    server.saves = vec![Ok(()), Err("disk full".to_string())];
    assert_eq!(server.handle("SAVE"), "+OK\r\n");
    assert_eq!(server.handle("SAVE"), "-ERR disk full\r\n");
    assert_eq!(server.handle("BGSAVE now"), "+Background saving started\r\n");
    assert!(server
        .handle("INFO server")
        .contains("server_name:redis_clone\r\n"));
}

#[test]
fn argument_helpers_check_what_they_take() {
    let two = words("a b");
    assert_eq!(single_key(&two[..1], "X"), Ok("a".to_string()));
    assert_eq!(single_key(&two, "X"), Err(arity("X")));
    assert_eq!(non_empty_args(&[], "X"), Err(arity("X")));
    assert_eq!(
        key_and_values(&two, "X"),
        Ok(("a".to_string(), vec!["b".to_string()]))
    );
    assert_eq!(parse_number("+12"), Ok(12));
    assert_eq!(
        parse_number("1.5"),
        Err(CommandError::NotAnInteger("1.5".to_string()))
    );
    assert_eq!(parse_seconds("18446744073709551615"), Ok(u64::MAX));
    assert!(parse_seconds("18446744073709551616").is_err());
    assert_eq!(negate(5), Ok(-5));
    assert!(negate(i64::MIN).is_err());
    let readings = readings_for(words("1.5 nan"));
    assert_eq!(parse_score("1.5", &readings).unwrap().text, "1.5");
    assert!(parse_score("nan", &readings).is_err());
    assert!(parse_score("2", &readings).is_err());
    let (bound, inclusive) = parse_score_bound("(1.5", &readings).unwrap();
    assert_eq!((bound.bits, inclusive), (1.5f64.to_bits(), false));
    assert_eq!(
        parse_score_bound("inf", &readings).unwrap().0.bits,
        f64::INFINITY.to_bits()
    );
    assert_eq!(
        parse_score_bound("(-Inf", &readings).unwrap().0.bits,
        f64::NEG_INFINITY.to_bits()
    );
    assert_eq!(float_texts(&words("zadd z 1 a 2 b")), words("1 2"));
    assert_eq!(float_texts(&words("ZRANGEBYSCORE z (1 +INF")), words("1 +inf"));
    assert_eq!(float_texts(&words("ZINCRBY z 3 m")), words("3"));
    assert_eq!(float_texts(&words("GET z")), Vec::<String>::new());
}

#[test]
fn a_session_of_everyday_commands() {
    let mut server = Server::new();
    for (request, reply) in [
        ("SET name Alice", "+OK\r\n"),
        ("GET name", "$5\r\nAlice\r\n"),
        ("RPUSH mylist a", ":1\r\n"),
        ("RPUSH mylist b", ":2\r\n"),
        ("LRANGE mylist 0 -1", "*2\r\n$1\r\na\r\n$1\r\nb\r\n"),
        (
            "GET mylist",
            "-WRONGTYPE Operation against a key holding the wrong kind of value\r\n",
        ),
        ("ZADD board 5 alice", ":1\r\n"),
        ("ZADD board 3 bob", ":1\r\n"),
        ("ZRANGE board 0 -1", "*2\r\n$3\r\nbob\r\n$5\r\nalice\r\n"),
        ("ZRANGEBYSCORE board (3 +inf", "*1\r\n$5\r\nalice\r\n"),
        ("ZSCORE board alice", "$1\r\n5\r\n"),
        ("ZINCRBY board 2 bob", "$1\r\n5\r\n"),
        ("ZRANK board bob", ":1\r\n"),
        ("DEL name", ":1\r\n"),
        ("SADD tags rust go rust", ":2\r\n"),
        ("SADD tags rust", ":0\r\n"),
        ("SREM tags rust missing", ":1\r\n"),
        ("SISMEMBER tags go", ":1\r\n"),
        ("RPUSH tasks a b", ":2\r\n"),
        ("LPUSH tasks z", ":3\r\n"),
        ("LPOP tasks", "$1\r\nz\r\n"),
        ("RPOP tasks", "$1\r\nb\r\n"),
        ("HSET user visits 3", ":1\r\n"),
        ("HINCRBY user visits 5", ":8\r\n"),
        (
            "SET note hello world",
            "-ERR wrong number of arguments for 'set' command\r\n",
        ),
        ("MSET k 1 k 2", "+OK\r\n"),
        ("GET k", "$1\r\n2\r\n"),
    ] {
        assert_eq!(server.handle(request), reply, "{request}");
    }
}

#[test]
fn sweeping_changes_no_reply() {
    let mut lazy = Server::new();
    let mut swept = Server::new();
    for server in [&mut lazy, &mut swept] {
        server.handle("SET a 1 EX 5");
        server.handle("SET b 2");
        server.handle("RPUSH l x");
        server.handle("EXPIRE l 5");
        server.now = 6 * SECOND;
    }
    assert_eq!(swept.db.sweep_expired(swept.now), 2);
    for request in [
        "EXISTS a b l", "KEYS *", "DBSIZE", "MGET a b", "INCR a", "RPUSH l y", "TTL a",
        "LRANGE l 0 -1", "DEL a b l",
    ] {
        assert_eq!(lazy.handle(request), swept.handle(request), "{request}");
    }
}

// --- Framing and sessions -----------------------------------------------

#[test]
fn truncated_aof_replay_still_allows_future_writes_to_be_logged() {
    // A valid `SET k1 v1` followed by an entry truncated mid-bulk-string,
    // as a crash during an append would leave behind.
    let contents =
        b"*3\r\n$3\r\nSET\r\n$2\r\nk1\r\n$2\r\nv1\r\n*3\r\n$3\r\nSET\r\n$2\r\nk2\r\n$5\r\nval";
    let aof = Aof::new(FsyncPolicy::Always);
    let mut server = Server::with(Database::with_persistence(None, Some(aof)));

    let (requests, problem) = read_log(contents);
    server.db.begin_replay();
    for tokens in &requests {
        server.run(tokens);
    }
    server.db.end_replay();
    assert_eq!(problem, Some("early eof".to_string()));
    assert_eq!(server.log, "");

    // The valid entry was applied, and replay stopped at the truncation.
    assert_eq!(server.db.get("k1", 0).unwrap(), Some("v1".to_string()));
    assert_eq!(server.db.get("k2", 0).unwrap(), None);

    // The replay flag must have been cleared despite the error, so a new
    // write is still appended to the AOF (the bug left it stuck on).
    let record = server
        .db
        .log_write(&["SET".to_string(), "k3".to_string(), "v3".to_string()])
        .unwrap();
    assert!(record.payload.contains("k3"));
    assert!(record.sync);
}

#[test]
fn a_log_replays_to_the_same_keyspace() {
    let aof = Aof::new(FsyncPolicy::EverySec);
    let mut server = Server::with(Database::with_persistence(None, Some(aof)));
    for request in [
        "SET a 1", "INCR a", "RPUSH l x y z", "LPOP l", "SADD s p q r", "SPOP s", "SPOP s",
        "ZADD z 1 m", "ZINCRBY z 2.5 m", "HSET h f v", "RENAME a b", "GET b", "SPOP missing",
    ] {
        server.handle(request);
    }
    let (requests, problem) = read_log(server.log.as_bytes());
    assert_eq!(problem, None);
    assert_eq!(requests.len(), 11);
    let mut restored = Server::new();
    for tokens in &requests {
        restored.run(tokens);
    }
    for request in [
        "GET b", "LRANGE l 0 -1", "SMEMBERS s", "ZRANGE z 0 -1 WITHSCORES", "HGETALL h", "DBSIZE",
    ] {
        assert_eq!(restored.handle(request), server.handle(request), "{request}");
    }
}

#[test]
fn serves_inline_and_resp_requests_over_tcp() {
    let mut server = Server::new();
    let mut session = server.connect();

    // Inline request.
    assert_eq!(
        server.send(&mut session, b"SET greeting hello\r\n"),
        "+OK\r\n"
    );

    // RESP array request whose value contains a space (impossible inline).
    assert_eq!(
        server.send(
            &mut session,
            b"*3\r\n$3\r\nSET\r\n$4\r\nnote\r\n$11\r\nhello world\r\n"
        ),
        "+OK\r\n"
    );

    // The space-containing value round-trips.
    assert_eq!(
        server.send(&mut session, b"GET note\r\n"),
        "$11\r\nhello world\r\n"
    );
}

#[test]
fn multibulk_length_out_of_range_is_rejected() {
    assert!(matches!(
        read_request(b"*99999999999999\r\n", true),
        Request::Failed(_)
    ));
}

fn failure(input: &[u8]) -> String {
    match read_request(input, true) {
        Request::Failed(message) => message,
        _ => panic!("no failure: {input:?}"),
    }
}

#[test]
fn framing_violations_have_their_texts() {
    assert_eq!(
        failure(b"*99999999999999\r\n"),
        "protocol error: multibulk length out of range"
    );
    assert_eq!(
        failure(b"*x\r\n"),
        "protocol error: invalid multibulk length"
    );
    assert_eq!(
        failure(b"*1\r\n"),
        "protocol error: unexpected end of input"
    );
    assert_eq!(
        failure(b"*1\r\nGET\r\n"),
        "protocol error: expected a bulk string"
    );
    assert_eq!(
        failure(b"*1\r\n$x\r\n"),
        "protocol error: invalid bulk length"
    );
    assert_eq!(
        failure(b"*1\r\n$536870913\r\n"),
        "protocol error: bulk length out of range"
    );
    assert_eq!(
        failure(b"*1\r\n$1\r\n\xff\r\n"),
        "protocol error: invalid UTF-8 in bulk string"
    );
    assert_eq!(
        failure(b"*1\r\n$2\r\nhiXY"),
        "protocol error: expected CRLF after bulk data"
    );
    assert_eq!(
        failure(b"*1\r\n$2\r\nhi\n\r"),
        "protocol error: expected CRLF after bulk data"
    );
    assert!(matches!(
        read_request(b"*1\r\n$5\r\nab", true),
        Request::Truncated
    ));
    assert_eq!(failure(b"\xff\r\n"), "stream did not contain valid UTF-8");
}

#[test]
fn bulk_data_must_be_followed_by_a_line_end() {
    assert!(matches!(
        read_bulk_string(b"$2\r\nhiXY", true),
        Piece::Failed(message) if message == "protocol error: expected CRLF after bulk data"
    ));
    assert!(matches!(
        read_bulk_string(b"$2\r\nhi\r\n", true),
        Piece::Text(text, 8) if text == "hi"
    ));
    assert!(matches!(
        read_bulk_string(b"$2\r\nhi\r", false),
        Piece::Incomplete
    ));
    let (requests, problem) = read_log(b"PING\r\n*1\r\n$2\r\nhiXYPING\r\n");
    assert_eq!(requests, vec![words("PING")]);
    assert_eq!(
        problem,
        Some("protocol error: expected CRLF after bulk data".to_string())
    );
}

#[test]
fn a_request_is_read_once_it_is_complete() {
    let whole = b"*2\r\n$3\r\nGET\r\n$5\r\nh\xc3\xa9 x\r\nPING\r\n";
    let end = whole.len() - 6;
    for cut in 0..end {
        assert!(matches!(read_request(&whole[..cut], false), Request::Incomplete));
        assert!(!matches!(
            read_request(&whole[..cut], true),
            Request::Tokens(_, _)
        ));
    }
    match read_request(whole, false) {
        Request::Tokens(tokens, used) => {
            assert_eq!(tokens, vec!["GET".to_string(), "h\u{e9} x".to_string()]);
            assert_eq!(used, end);
        }
        _ => panic!("no request"),
    }
    assert!(matches!(read_request(b"", true), Request::End));
    assert!(matches!(read_request(b"PING", false), Request::Incomplete));
    assert!(
        matches!(read_request(b"PING", true), Request::Tokens(tokens, 4) if tokens == words("PING"))
    );
    assert!(matches!(read_request(b"  \r\n", false), Request::Tokens(tokens, 4) if tokens.is_empty()));
}

#[test]
fn an_array_reads_back_token_by_token() {
    let tokens = vec![
        "SET".to_string(),
        "".to_string(),
        "line\r\nbreak \u{1F980}".to_string(),
    ];
    let bytes = resp::array(&tokens).into_bytes();
    match read_request(&bytes, true) {
        Request::Tokens(read, used) => assert_eq!((read, used), (tokens, bytes.len())),
        _ => panic!("no request"),
    }
}

#[test]
fn transaction_queues_and_execs() {
    let mut server = Server::new();
    let mut session = server.connect();
    assert_eq!(server.send(&mut session, b"MULTI\r\n"), "+OK\r\n");
    assert_eq!(server.send(&mut session, b"SET k 1\r\n"), "+QUEUED\r\n");
    assert_eq!(server.send(&mut session, b"INCR k\r\n"), "+QUEUED\r\n");

    // EXEC returns an array of each queued command's reply.
    assert_eq!(
        server.send(&mut session, b"EXEC\r\n"),
        "*2\r\n+OK\r\n:2\r\n"
    );
}

#[test]
fn replies_follow_the_order_of_the_queue() {
    let mut execution = Execution::new(vec![words("GET a"), words("GET b")]);
    assert_eq!(execution.next_command(), Some(words("GET a")));
    execution.answer("$1\r\n1\r\n".to_string());
    assert_eq!(execution.next_command(), Some(words("GET b")));
    execution.answer("$-1\r\n".to_string());
    assert_eq!(execution.next_command(), None);
    assert_eq!(execution.finish(), "*2\r\n$1\r\n1\r\n$-1\r\n");
}

#[test]
fn subscribe_inside_multi_aborts_the_transaction() {
    let mut server = Server::new();
    let mut session = server.connect();
    assert_eq!(server.send(&mut session, b"MULTI\r\n"), "+OK\r\n");
    assert_eq!(server.send(&mut session, b"SET a 1\r\n"), "+QUEUED\r\n");
    // SUBSCRIBE cannot be queued; it is rejected and dirties the transaction.
    assert!(server
        .send(&mut session, b"SUBSCRIBE ch\r\n")
        .starts_with("-ERR"));
    // EXEC therefore aborts rather than half-applying the queue.
    assert!(server
        .send(&mut session, b"EXEC\r\n")
        .starts_with("-EXECABORT"));
    assert_eq!(server.handle("EXISTS a"), ":0\r\n");
}

#[test]
fn multi_is_rejected_while_subscribed() {
    let mut server = Server::new();
    let mut session = server.connect();
    // The subscribe confirmation: *3 / $9 subscribe / $2 ch / :1.
    assert_eq!(
        server.send(&mut session, b"SUBSCRIBE ch\r\n"),
        "*3\r\n$9\r\nsubscribe\r\n$2\r\nch\r\n:1\r\n"
    );
    // MULTI is not one of the commands allowed in subscribe mode.
    assert!(server.send(&mut session, b"MULTI\r\n").starts_with("-ERR"));
}

#[test]
fn exec_without_multi_is_an_error() {
    let mut server = Server::new();
    let mut session = server.connect();
    assert!(server
        .send(&mut session, b"EXEC\r\n")
        .starts_with("-ERR EXEC without MULTI"));
}

#[test]
fn publish_reaches_a_subscriber() {
    let mut server = Server::new();

    // Subscriber connection.
    let mut sub = server.connect();
    // Confirmation: *3 / $9 subscribe / $4 news / :1
    assert_eq!(
        server.send(&mut sub, b"SUBSCRIBE news\r\n"),
        "*3\r\n$9\r\nsubscribe\r\n$4\r\nnews\r\n:1\r\n"
    );

    // Publisher connection.
    let mut publisher = server.connect();
    assert_eq!(
        server.send(&mut publisher, b"PUBLISH news hello\r\n"),
        ":1\r\n"
    ); // one subscriber

    // The subscriber receives the message: *3 / $7 message / $4 news / $5 hello
    assert_eq!(
        server.mailboxes[&sub.id()],
        vec!["*3\r\n$7\r\nmessage\r\n$4\r\nnews\r\n$5\r\nhello\r\n".to_string()]
    );
    assert!(server.mailboxes[&publisher.id()].is_empty());

    // Once it has left, it receives nothing.
    sub.cleanup(&mut server.db);
    assert_eq!(
        server.send(&mut publisher, b"PUBLISH news again\r\n"),
        ":0\r\n"
    );
}

#[test]
fn transactions_nest_and_discard_as_they_should() {
    let mut server = Server::new();
    let mut session = server.connect();
    assert_eq!(
        server.send(&mut session, b"DISCARD\r\n"),
        "-ERR DISCARD without MULTI\r\n"
    );
    server.send(&mut session, b"multi\r\n");
    assert_eq!(
        server.send(&mut session, b"MULTI\r\n"),
        "-ERR MULTI calls can not be nested\r\n"
    );
    server.send(&mut session, b"SET k v\r\n");
    assert_eq!(server.handle("EXISTS k"), ":0\r\n");
    assert_eq!(server.send(&mut session, b"DISCARD\r\n"), "+OK\r\n");
    assert_eq!(server.handle("EXISTS k"), ":0\r\n");
    server.send(&mut session, b"MULTI\r\n");
    assert_eq!(
        server.send(&mut session, b"GET\r\n"),
        "-ERR wrong number of arguments for 'get' command\r\n"
    );
    assert_eq!(server.send(&mut session, b"SET k v\r\n"), "+QUEUED\r\n");
    assert_eq!(
        server.send(&mut session, b"EXEC\r\n"),
        "-EXECABORT Transaction discarded because of previous errors.\r\n"
    );
    assert_eq!(server.handle("EXISTS k"), ":0\r\n");
    server.send(&mut session, b"MULTI\r\n");
    assert_eq!(server.send(&mut session, b"EXEC\r\n"), "*0\r\n");
}

#[test]
fn subscribe_mode_permits_a_handful_of_commands() {
    let mut server = Server::new();
    let mut session = server.connect();
    assert!(!session.is_subscribed());
    assert_eq!(
        server.send(&mut session, b"SUBSCRIBE\r\n"),
        "-ERR wrong number of arguments for 'subscribe' command\r\n"
    );
    assert_eq!(
        server.send(&mut session, b"UNSUBSCRIBE\r\n"),
        "*3\r\n$11\r\nunsubscribe\r\n$-1\r\n:0\r\n"
    );
    assert_eq!(
        server.send(&mut session, b"SUBSCRIBE a a b\r\n"),
        "*3\r\n$9\r\nsubscribe\r\n$1\r\na\r\n:1\r\n\
         *3\r\n$9\r\nsubscribe\r\n$1\r\na\r\n:1\r\n\
         *3\r\n$9\r\nsubscribe\r\n$1\r\nb\r\n:2\r\n"
    );
    assert!(session.is_subscribed());
    assert_eq!(
        server.send(&mut session, b"Get k\r\n"),
        "-ERR Can't execute 'get': only (UN)SUBSCRIBE / PING are allowed in subscribe mode\r\n"
    );
    assert_eq!(server.send(&mut session, b"ping\r\n"), "+PONG\r\n");
    assert_eq!(
        server.send(&mut session, b"UNSUBSCRIBE b x\r\n"),
        "*3\r\n$11\r\nunsubscribe\r\n$1\r\nb\r\n:1\r\n\
         *3\r\n$11\r\nunsubscribe\r\n$1\r\nx\r\n:1\r\n"
    );
    assert_eq!(
        server.send(&mut session, b"UNSUBSCRIBE\r\n"),
        "*3\r\n$11\r\nunsubscribe\r\n$1\r\na\r\n:0\r\n"
    );
    assert!(!session.is_subscribed());
    assert_eq!(server.send(&mut session, b"SET k v\r\n"), "+OK\r\n");
    assert_eq!(server.send(&mut session, b"\r\n"), "");
}
