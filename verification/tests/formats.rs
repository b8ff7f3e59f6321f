//! The reply format, text handling and configuration.
use redis_clone::config::{Config, Recovery};
use redis_clone::database::aof::FsyncPolicy;
use redis_clone::resp::{array, bulk_string, error, integer, null, nullable_array, simple_string};
use redis_clone::server::protocol_error;
use redis_clone::session::{reply_exec, subscription_reply, subscription_reply_null};
use redis_clone::text;

#[test]
fn error_sanitizes_embedded_crlf() {
    // A client token with CRLF must not forge a second reply line.
    assert_eq!(
        error("ERR unknown command 'X\r\n+OK'"),
        "-ERR unknown command 'X  +OK'\r\n"
    );
}

#[test]
fn encodes_scalar_replies() {
    assert_eq!(simple_string("OK"), "+OK\r\n");
    assert_eq!(error("ERR nope"), "-ERR nope\r\n");
    assert_eq!(integer(1), ":1\r\n");
    assert_eq!(integer(0), ":0\r\n");
    assert_eq!(bulk_string("hi"), "$2\r\nhi\r\n");
    assert_eq!(null(), "$-1\r\n");
}

#[test]
fn encodes_arrays() {
    let items = vec!["a".to_string(), "bb".to_string()];
    assert_eq!(array(&items), "*2\r\n$1\r\na\r\n$2\r\nbb\r\n");
    assert_eq!(array(&[]), "*0\r\n");
}

#[test]
fn encodes_nullable_arrays() {
    let items = vec![Some("a".to_string()), None, Some("c".to_string())];
    assert_eq!(
        nullable_array(&items),
        "*3\r\n$1\r\na\r\n$-1\r\n$1\r\nc\r\n"
    );
    assert_eq!(nullable_array(&[]), "*0\r\n");
}

#[test]
fn lengths_count_bytes() {
    assert_eq!(bulk_string("h\u{e9}"), "$3\r\nh\u{e9}\r\n");
    assert_eq!(bulk_string(""), "$0\r\n\r\n");
}

#[test]
fn integers_are_rendered_and_read() {
    for n in [i64::MIN, -10, -1, 0, 1, 9, 10, 99, 100, i64::MAX] {
        assert_eq!(text::i64_to_text(n), n.to_string());
        assert_eq!(text::text_to_i64(&n.to_string()), Some(n));
        assert_eq!(integer(n), format!(":{n}\r\n"));
    }
    assert_eq!(text::u64_to_text(u64::MAX), u64::MAX.to_string());
    for raw in [
        "", "+", "-", "+1", "-0", "007", "1x", " 1", "1 ", "--1", "+-1", "9223372036854775808",
        "-9223372036854775809", "18446744073709551616", "\u{0661}",
    ] {
        assert_eq!(text::text_to_i64(raw), raw.parse::<i64>().ok(), "{raw:?}");
        assert_eq!(
            text::text_to_unsigned(raw, u64::MAX),
            raw.parse::<u64>().ok(),
            "{raw:?}"
        );
        assert_eq!(
            text::text_to_unsigned(raw, 255),
            raw.parse::<u8>().ok().map(u64::from),
            "{raw:?}"
        );
    }
}

#[test]
fn white_space_is_what_std_says() {
    for c in '\0'..=char::MAX {
        assert_eq!(text::is_whitespace(c), c.is_whitespace(), "{c:?}");
    }
    for line in ["", "  ", "a b", " a\t b\u{a0}c\r\n", "\u{3000}x\u{3000}", "one"] {
        let words: Vec<String> = line.split_whitespace().map(str::to_string).collect();
        assert_eq!(text::split_whitespace(line), words);
        assert_eq!(text::trim_end(line), line.trim_end());
    }
}

#[test]
fn letters_change_case_as_std_says() {
    for s in ["", "aZ09_[`{@", "h\u{e9}\u{130}k", "PING"] {
        assert_eq!(text::to_ascii_uppercase(s), s.to_ascii_uppercase());
        assert_eq!(text::to_ascii_lowercase(s), s.to_ascii_lowercase());
    }
    assert!(text::eq_ignore_ascii_case("WithScores", "WITHSCORES"));
    assert!(!text::eq_ignore_ascii_case("\u{e9}", "\u{c9}"));
    assert!(text::text_eq("a", "a"));
    assert!(!text::text_eq("a", "ab"));
}

#[test]
fn session_replies_are_framed() {
    assert_eq!(
        subscription_reply("subscribe", "c", 2),
        "*3\r\n$9\r\nsubscribe\r\n$1\r\nc\r\n:2\r\n"
    );
    assert_eq!(
        subscription_reply_null("unsubscribe"),
        "*3\r\n$11\r\nunsubscribe\r\n$-1\r\n:0\r\n"
    );
    assert_eq!(
        reply_exec(&["+OK\r\n".to_string(), ":1\r\n".to_string()]),
        "*2\r\n+OK\r\n:1\r\n"
    );
    assert_eq!(protocol_error("x"), "protocol error: x");
}

fn config() -> Config {
    Config {
        host: "127.0.0.1".to_string(),
        port: 7335,
        log_level: "info".to_string(),
        sweep_secs: 10,
        snapshot_file: "dump.rdb.json".to_string(),
        appendonly: false,
        appendfsync: "everysec".to_string(),
        aof_file: "appendonly.aof".to_string(),
    }
}

#[test]
fn configuration_gives_address_interval_and_recovery() {
    let mut config = config();
    assert_eq!(config.address(), "127.0.0.1:7335");
    assert_eq!(config.sweep_interval(), 10);
    config.sweep_secs = 0;
    assert_eq!(config.sweep_interval(), 1);
    config.appendfsync = "sometimes".to_string();
    assert!(matches!(config.recovery(), Ok(Recovery::Snapshot)));
    config.appendonly = true;
    assert!(matches!(
        config.recovery(),
        Err(message) if message
            == "unknown fsync policy 'sometimes' (expected always, everysec, or no)"
    ));
    config.appendfsync = "Always".to_string();
    assert!(matches!(
        config.recovery(),
        Ok(Recovery::Log(FsyncPolicy::Always))
    ));
}
