//! The keyspace, its snapshots and its pub/sub registry.
use redis_clone::database::aof::{Aof, FsyncPolicy};
use redis_clone::database::db::{Database, StoreError};
use redis_clone::database::glob::{glob_match, match_class};
use redis_clone::database::keyspace::{deadline_from, seconds_until};
use redis_clone::database::pubsub::PubSub;
use redis_clone::database::snapshot::{SerValue, Snapshot, SnapshotEntry};
use redis_clone::database::Database as StringStore;
use redis_clone::score::{FloatReadings, Score};

const SECOND: u64 = 1_000_000_000;

fn score(value: f64) -> Score {
    Score::new(value.to_bits(), value.to_string())
}

fn readings_for(texts: Vec<String>) -> FloatReadings {
    let mut readings = FloatReadings::new();
    for text in texts {
        if let Ok(value) = text.parse::<f64>() {
            readings.record(text, score(value));
        }
    }
    readings
}

#[test]
fn set_get_and_delete() {
    let mut db = Database::new();
    db.set("k".to_string(), "v".to_string(), None, 0);
    assert_eq!(db.get("k", 0).unwrap(), Some("v".to_string()));
    assert!(db.delete("k", 0));
    assert!(!db.delete("k", 0));
    assert_eq!(db.get("k", 0).unwrap(), None);
}

#[test]
fn delete_works_across_every_type() {
    let mut db = Database::new();
    db.rpush("list".to_string(), vec!["a".to_string()], 0)
        .unwrap();
    assert!(db.delete("list", 0));
    assert_eq!(db.lrange("list", 0, -1, 0).unwrap(), Vec::<String>::new());
}

#[test]
fn wrong_type_is_reported() {
    let mut db = Database::new();
    db.lpush("list".to_string(), vec!["a".to_string()], 0)
        .unwrap();
    assert_eq!(db.get("list", 0), Err(StoreError::WrongType));
}

#[test]
fn expired_keys_are_evicted_lazily() {
    let mut db = Database::new();
    db.set("k".to_string(), "v".to_string(), Some(0), 0);
    assert_eq!(db.get("k", 0).unwrap(), None);
}

#[test]
fn sweep_removes_only_expired_keys() {
    let mut db = Database::new();
    db.set("live".to_string(), "v".to_string(), None, 0);
    db.set("gone".to_string(), "v".to_string(), Some(0), 0);
    assert_eq!(db.sweep_expired(0), 1);
    assert_eq!(db.dbsize(0), 1);
    assert_eq!(db.get("live", 0).unwrap(), Some("v".to_string()));
}

#[test]
fn snapshot_round_trips_every_type() {
    let mut source = Database::new();
    source.set("s".to_string(), "v".to_string(), None, 0);
    source
        .rpush("l".to_string(), vec!["a".to_string(), "b".to_string()], 0)
        .unwrap();
    source
        .sadd("set".to_string(), vec!["x".to_string()], 0)
        .unwrap();
    source
        .zadd("z".to_string(), vec![(score(1.5), "m".to_string())], 0)
        .unwrap();
    source
        .hset("h".to_string(), "f".to_string(), "1".to_string(), 0)
        .unwrap();

    // Round-trip the snapshot into a fresh database.
    let snapshot = source.snapshot(0);
    let readings = readings_for(snapshot.score_texts());
    let mut restored = Database::new();
    restored.load_snapshot(snapshot, &readings, 0);

    assert_eq!(restored.get("s", 0).unwrap(), Some("v".to_string()));
    assert_eq!(
        restored.lrange("l", 0, -1, 0).unwrap(),
        vec!["a".to_string(), "b".to_string()]
    );
    assert!(restored.sismember("set", "x", 0).unwrap());
    let found = restored.zscore("z", "m", 0).unwrap();
    assert_eq!(found.map(|score| f64::from_bits(score.bits)), Some(1.5));
    assert_eq!(restored.hget("h", "f", 0).unwrap(), Some("1".to_string()));
    assert_eq!(restored.dbsize(0), 5);
}

#[test]
fn snapshots_keep_infinite_scores_and_remaining_ttls() {
    let mut source = Database::new();
    source
        .zadd(
            "z".to_string(),
            vec![
                (score(f64::INFINITY), "top".to_string()),
                (score(f64::NEG_INFINITY), "bottom".to_string()),
            ],
            0,
        )
        .unwrap();
    source.set("t".to_string(), "v".to_string(), Some(100), 0);
    source.set("gone".to_string(), "v".to_string(), Some(5), 0);
    let snapshot = source.snapshot(30 * SECOND);
    assert_eq!(snapshot.entries.len(), 2);
    let texts = snapshot.score_texts();
    assert_eq!(texts, vec!["-inf".to_string(), "inf".to_string()]);
    let mut restored = Database::new();
    restored.set("old".to_string(), "v".to_string(), None, 0);
    restored.load_snapshot(snapshot, &readings_for(texts), 7);
    assert_eq!(restored.ttl("t", 7), 70);
    assert_eq!(
        restored.zrange("z", 0, -1, 7).unwrap(),
        vec!["bottom".to_string(), "top".to_string()]
    );
    // The keyspace is replaced, not merged.
    assert_eq!(restored.get("old", 7).unwrap(), None);
}

#[test]
fn a_member_without_a_readable_score_is_not_loaded() {
    let snapshot = Snapshot {
        entries: vec![SnapshotEntry {
            key: "z".to_string(),
            ttl_secs: None,
            value: SerValue::ZSet(vec![
                ("a".to_string(), "1".to_string()),
                ("b".to_string(), "one".to_string()),
            ]),
        }],
    };
    let readings = readings_for(snapshot.score_texts());
    let mut db = Database::new();
    db.load_snapshot(snapshot, &readings, 0);
    assert_eq!(db.zcard("z", 0), Ok(1));
}

#[test]
fn info_reports_clients_and_keys() {
    let mut db = Database::new();
    db.set("k".to_string(), "v".to_string(), None, 0);
    assert_eq!(db.client_connected(), 1);
    assert_eq!(db.client_connected(), 2);
    db.client_disconnected();
    let info = db.info(3 * SECOND);
    assert!(info.contains("connected_clients:1"), "{info}");
    assert!(info.contains("keys:1"), "{info}");
    assert!(info.contains("uptime_in_seconds:"), "{info}");
    assert_eq!(
        info,
        "# Server\r\nserver_name:redis_clone\r\nuptime_in_seconds:3\r\n\r\n# Clients\r\n\
         connected_clients:1\r\n\r\n# Keyspace\r\nkeys:1\r\n"
    );
}

#[test]
fn popping_the_last_element_removes_the_key() {
    let mut db = Database::new();
    db.rpush("l".to_string(), vec!["only".to_string()], 0)
        .unwrap();
    assert_eq!(db.lpop("l", 0).unwrap(), Some("only".to_string()));
    // A fresh push must succeed, proving the old (empty) key was cleared.
    assert_eq!(
        db.rpush("l".to_string(), vec!["x".to_string()], 0).unwrap(),
        1
    );
}

#[test]
fn a_key_expires_when_its_deadline_comes() {
    let mut db = Database::new();
    db.set("k".to_string(), "v".to_string(), Some(2), 5);
    assert_eq!(db.ttl("k", 5), 2);
    assert_eq!(db.ttl("k", 6), 1);
    assert_eq!(db.get("k", 2 * SECOND + 4).unwrap(), Some("v".to_string()));
    assert_eq!(db.exists_count(&["k".to_string()], 2 * SECOND + 5), 0);
    assert_eq!(db.mget(&["k".to_string()], 2 * SECOND + 5), vec![None]);
    assert_eq!(db.keys("*", 2 * SECOND + 5), Vec::<String>::new());
    assert_eq!(db.dbsize(2 * SECOND + 5), 0);
    // It is still there to be evicted.
    assert_eq!(db.sweep_expired(2 * SECOND + 5), 1);
    assert_eq!(db.ttl("k", 0), -2);
}

#[test]
fn a_very_long_ttl_is_kept() {
    let mut db = Database::new();
    db.set("k".to_string(), "v".to_string(), Some(u64::MAX), 0);
    assert_eq!(db.ttl("k", 0), i64::MAX);
    assert!(db.expire("k", i64::MAX, 0));
    assert_eq!(db.ttl("k", 0), i64::MAX);
    assert_eq!(deadline_from(1, 2), 2_000_000_001);
    assert_eq!(seconds_until(2_999_999_999, 0), 2);
    assert_eq!(seconds_until(1, 2), 0);
}

#[test]
fn store_errors_have_their_texts() {
    assert_eq!(
        StoreError::WrongType.message(),
        "WRONGTYPE Operation against a key holding the wrong kind of value"
    );
    assert_eq!(
        StoreError::NotAnInteger.message(),
        "ERR value is not an integer or out of range"
    );
    assert_eq!(
        StoreError::NotAHashInteger.message(),
        "ERR hash value is not an integer"
    );
    assert_eq!(
        StoreError::Overflow.message(),
        "ERR increment or decrement would overflow"
    );
    assert_eq!(StoreError::NoSuchKey.message(), "ERR no such key");
    assert_eq!(
        StoreError::IndexOutOfRange.message(),
        "ERR index out of range"
    );
}

#[test]
fn lists_keep_the_order_of_pushes() {
    let mut db = Database::new();
    let push: Vec<String> = ["a", "b", "c"].iter().map(|s| s.to_string()).collect();
    assert_eq!(db.lpush("l".to_string(), push.clone(), 0), Ok(3));
    assert_eq!(db.rpush("l".to_string(), push, 0), Ok(6));
    assert_eq!(
        db.lrange("l", 0, -1, 0).unwrap().concat(),
        "cbaabc".to_string()
    );
    assert_eq!(db.rpop("l", 0).unwrap(), Some("c".to_string()));
    assert_eq!(db.lset("l", -1, "z".to_string(), 0), Ok(()));
    assert_eq!(db.lindex("l", -1, 0).unwrap(), Some("z".to_string()));
    assert_eq!(
        db.lset("l", 5, "z".to_string(), 0),
        Err(StoreError::IndexOutOfRange)
    );
    assert_eq!(
        db.lset("none", 0, "z".to_string(), 0),
        Err(StoreError::NoSuchKey)
    );
}

#[test]
fn strings_are_measured_in_bytes() {
    let mut db = Database::new();
    assert_eq!(db.append("s".to_string(), "h\u{e9}", 0), Ok(3));
    assert_eq!(db.append("s".to_string(), "llo", 0), Ok(6));
    assert_eq!(db.strlen("s", 0), Ok(6));
    assert_eq!(db.strlen("missing", 0), Ok(0));
}

#[test]
fn glob_patterns_match_as_redis_does() {
    assert!(glob_match("*", ""));
    assert!(glob_match("a*c", "abbbc"));
    assert!(glob_match("a**c", "ac"));
    assert!(!glob_match("a*c", "abbb"));
    assert!(glob_match("h?llo", "hello"));
    assert!(!glob_match("h?llo", "hllo"));
    assert!(glob_match("h[ae]llo", "hallo"));
    assert!(!glob_match("h[ae]llo", "hillo"));
    assert!(glob_match("h[^e]llo", "hallo"));
    assert!(!glob_match("h[!e]llo", "hello"));
    assert!(glob_match("h[a-c]llo", "hbllo"));
    assert!(glob_match("h[c-a]llo", "hbllo"));
    assert!(glob_match("a\\*b", "a*b"));
    assert!(!glob_match("a\\*b", "axb"));
    assert!(glob_match("a\\", "a\\"));
    assert!(glob_match("[\\]]", "]"));
    assert!(glob_match("[a", "a"));
    assert!(!glob_match("key", "keys"));
    // `?` is one byte, and a character may be several.
    assert!(glob_match("??", "\u{e9}"));
    assert_eq!(match_class(b"a-c]x", b'b'), (true, 4));
    assert_eq!(match_class(b"^a]", b'a'), (false, 3));
}

#[test]
fn publishing_addresses_every_subscriber() {
    let mut pubsub = PubSub::new();
    assert_eq!(pubsub.next_id(), 0);
    assert_eq!(pubsub.next_id(), 1);
    pubsub.subscribe("c".to_string(), 0);
    pubsub.subscribe("c".to_string(), 0);
    pubsub.subscribe("c".to_string(), 1);
    let delivery = pubsub.publish("c", "hi");
    assert_eq!(delivery.recipients, vec![0, 1]);
    assert_eq!(
        delivery.message,
        "*3\r\n$7\r\nmessage\r\n$1\r\nc\r\n$2\r\nhi\r\n"
    );
    pubsub.unsubscribe("c", 0);
    pubsub.unsubscribe("d", 0);
    assert_eq!(pubsub.publish("c", "hi").recipients, vec![1]);
    assert!(pubsub.publish("d", "hi").recipients.is_empty());
}

#[test]
fn writes_are_logged_unless_replaying() {
    let tokens = vec!["DEL".to_string(), "k".to_string()];
    let mut db = Database::with_persistence(
        Some("dump.json".to_string()),
        Some(Aof::new(FsyncPolicy::No)),
    );
    assert_eq!(db.snapshot_path(), Some("dump.json".to_string()));
    let record = db.log_write(&tokens).unwrap();
    assert_eq!(record.payload, "*2\r\n$3\r\nDEL\r\n$1\r\nk\r\n");
    assert!(!record.sync);
    db.begin_replay();
    assert!(db.log_write(&tokens).is_none());
    db.end_replay();
    assert!(db.log_write(&tokens).is_some());
    assert!(Database::new().log_write(&tokens).is_none());
}

#[test]
fn fsync_policies_are_named_in_any_case() {
    assert_eq!(FsyncPolicy::from_str("always"), Ok(FsyncPolicy::Always));
    assert_eq!(FsyncPolicy::from_str("EverySec"), Ok(FsyncPolicy::EverySec));
    assert_eq!("NO".parse::<FsyncPolicy>(), Ok(FsyncPolicy::No));
    assert_eq!(
        FsyncPolicy::from_str("Never"),
        Err("unknown fsync policy 'never' (expected always, everysec, or no)".to_string())
    );
    assert!(Aof::new(FsyncPolicy::EverySec).needs_background_sync());
    assert!(!Aof::new(FsyncPolicy::Always).needs_background_sync());
}

#[test]
fn the_string_store_keeps_deadlines_apart() {
    let mut store = StringStore::new();
    store.set("k".to_string(), "v".to_string(), Some(1), 0);
    assert!(!store.is_expired("k", SECOND));
    assert!(store.is_expired("k", SECOND + 1));
    // A plain set keeps the deadline.
    store.set("k".to_string(), "w".to_string(), None, 0);
    assert_eq!(store.get("k", SECOND), Some("w".to_string()));
    assert_eq!(store.get("k", SECOND + 1), None);
    assert_eq!(store.get("k", 0), None);
    store.set("p".to_string(), "v".to_string(), None, 0);
    assert!(!store.delete("p"));
    store.set("q".to_string(), "v".to_string(), Some(9), 0);
    assert!(store.delete("q"));
    assert_eq!(store.get("q", 0), None);
}
