//! Runtime configuration. Keeping every knob in one typed struct means the rest
//! of the program reads settings from a value rather than from scattered
//! constants or environment lookups.
use vstd::prelude::*;

use crate::database::aof;
use crate::database::aof::FsyncPolicy;
use crate::text;

verus! {

/// Configuration of the server.
#[derive(Debug, Clone)]
pub struct Config {
    /// Address to bind the TCP listener to.
    pub host: String,
    /// Port to listen on.
    pub port: u16,
    /// Log verbosity: error, warn, info, debug, or trace.
    pub log_level: String,
    /// How often, in seconds, the background sweeper evicts expired keys.
    pub sweep_secs: u64,
    /// Path to the JSON snapshot file, loaded on startup and written by SAVE
    /// and on shutdown.
    pub snapshot_file: String,
    /// Append every write to a log and replay it on startup (durability at the
    /// cost of throughput). When enabled, the AOF is used for recovery instead
    /// of the snapshot.
    pub appendonly: bool,
    /// AOF fsync policy: always, everysec, or no.
    pub appendfsync: String,
    /// Path to the append-only file.
    pub aof_file: String,
}

/// Where prior state comes from on startup.
pub enum Recovery {
    /// Replay the append-only file, and go on appending to it.
    Log(FsyncPolicy),
    /// Load the snapshot.
    Snapshot,
}

/// The `host:port` string to bind to.
pub open spec fn address_text(host: Seq<char>, port: u16) -> Seq<char> {
    host + seq![':'] + text::decimal(port as int)
}

/// The sweeper interval for a configured number of seconds.
pub open spec fn sweep_seconds(configured: u64) -> u64 {
    if configured == 0 {
        1
    } else {
        configured
    }
}

/// The address is the host, a colon and the port, which reads back.
pub proof fn lemma_address(host: Seq<char>, port: u16)
    ensures
        ({
            let address = address_text(host, port);
            &&& address.take(host.len() as int) == host
            &&& address[host.len() as int] == ':'
            &&& text::parse_unsigned(address.skip(host.len() as int + 1), 65535) == Some(
                port as int,
            )
            &&& !address.skip(host.len() as int + 1).contains(':')
        }),
{
    let address = address_text(host, port);
    let digits = text::decimal(port as int);
    assert(address.take(host.len() as int) =~= host);
    assert(address.skip(host.len() as int + 1) =~= digits);
    text::lemma_unsigned_round_trip(port as nat, 65535);
    text::lemma_decimal_digits(port as nat);
    if digits.contains(':') {
        let i = choose|i: int| 0 <= i < digits.len() && digits[i] == ':';
        assert(text::is_digit(digits[i]));
    }
}

/// The sweeper runs as often as configured, but never without a pause.
pub proof fn lemma_sweep_seconds(configured: u64)
    ensures
        sweep_seconds(configured) >= 1,
        configured >= 1 ==> sweep_seconds(configured) == configured,
        configured == 0 ==> sweep_seconds(configured) == 1,
{
}

impl Config {
    /// The `host:port` string to bind to.
    pub fn address(&self) -> (r: String)
        ensures
            r@ == address_text(self.host@, self.port),
    {
        let mut r = self.host.clone();
        r.push(':');
        r.append(text::u64_to_text(self.port as u64).as_str());
        assert(r@ =~= address_text(self.host@, self.port));
        r
    }

    /// The sweeper interval in seconds, clamped to at least one second so a
    /// misconfigured `0` cannot spin the eviction task.
    pub fn sweep_interval(&self) -> (r: u64)
        ensures
            r == sweep_seconds(self.sweep_secs),
    {
        if self.sweep_secs == 0 {
            1
        } else {
            self.sweep_secs
        }
    }

    /// Where prior state comes from: the AOF when append-only mode is on,
    /// otherwise the snapshot. The fsync policy is only looked at in append-only
    /// mode.
    pub fn recovery(&self) -> (r: Result<Recovery, String>)
        ensures
            match r {
                Ok(Recovery::Log(policy)) => self.appendonly && aof::named_policy(
                    self.appendfsync@,
                ) == Some(policy),
                Ok(Recovery::Snapshot) => !self.appendonly,
                Err(message) => {
                    &&& self.appendonly
                    &&& aof::named_policy(self.appendfsync@) is None
                    &&& message@ == aof::unknown_policy_text(self.appendfsync@)
                },
            },
    {
        if self.appendonly {
            match FsyncPolicy::from_str(self.appendfsync.as_str()) {
                Ok(policy) => Ok(Recovery::Log(policy)),
                Err(message) => Err(message),
            }
        } else {
            Ok(Recovery::Snapshot)
        }
    }
}

} // verus!
