//! The append-only file (AOF): a write-ahead log of every mutating command.
//!
//! Each write is appended as a RESP array — the same framing clients send — so
//! replaying the log is just re-feeding those requests through the normal
//! command path. The fsync policy trades durability against throughput, exactly
//! as Redis' `appendfsync` does.
use vstd::prelude::*;

use crate::resp;
use crate::text;

verus! {

/// When to flush the AOF to stable storage.
#[derive(Clone, Copy, Debug, PartialEq, Eq, Structural)]
pub enum FsyncPolicy {
    /// `fsync` after every write — safest, slowest.
    Always,
    /// `fsync` roughly once per second from a background task.
    EverySec,
    /// Never `fsync` explicitly; leave it to the operating system.
    No,
}

/// The policy that `value` names, in any mix of upper and lower case.
pub open spec fn named_policy(value: Seq<char>) -> Option<FsyncPolicy> {
    if text::lower(value) == "always"@ {
        Some(FsyncPolicy::Always)
    } else if text::lower(value) == "everysec"@ {
        Some(FsyncPolicy::EverySec)
    } else if text::lower(value) == "no"@ {
        Some(FsyncPolicy::No)
    } else {
        None
    }
}

/// The complaint about a name that stands for no policy.
pub open spec fn unknown_policy_text(value: Seq<char>) -> Seq<char> {
    "unknown fsync policy '"@ + text::lower(value) + "' (expected always, everysec, or no)"@
}

impl FsyncPolicy {
    pub fn from_str(value: &str) -> (r: Result<Self, String>)
        ensures
            match r {
                Ok(policy) => named_policy(value@) == Some(policy),
                Err(message) => named_policy(value@) is None && message@ == unknown_policy_text(
                    value@,
                ),
            },
    {
        let name = text::to_ascii_lowercase(value);
        proof {
            reveal_strlit("always");
            reveal_strlit("everysec");
            reveal_strlit("no");
        }
        if text::text_eq(name.as_str(), "always") {
            Ok(FsyncPolicy::Always)
        } else if text::text_eq(name.as_str(), "everysec") {
            Ok(FsyncPolicy::EverySec)
        } else if text::text_eq(name.as_str(), "no") {
            Ok(FsyncPolicy::No)
        } else {
            let mut message = "unknown fsync policy '".to_owned();
            message.append(name.as_str());
            message.append("' (expected always, everysec, or no)");
            Err(message)
        }
    }
}

impl std::str::FromStr for FsyncPolicy {
    type Err = String;

    fn from_str(value: &str) -> (r: Result<Self, String>)
        ensures
            match r {
                Ok(policy) => named_policy(value@) == Some(policy),
                Err(message) => named_policy(value@) is None && message@ == unknown_policy_text(
                    value@,
                ),
            },
    {
        FsyncPolicy::from_str(value)
    }
}

/// What one append writes to the file, and whether it is flushed at once.
pub struct LogRecord {
    pub payload: String,
    pub sync: bool,
}

/// The append-only log: how records are framed and when they are flushed.
#[derive(Clone, Copy)]
pub struct Aof {
    pub policy: FsyncPolicy,
}

impl Aof {
    pub fn new(policy: FsyncPolicy) -> (r: Self)
        ensures
            r.policy == policy,
    {
        Aof { policy }
    }

    /// Frames one command (as a RESP array), to be flushed immediately under the
    /// `Always` policy.
    pub fn append(&self, tokens: &[String]) -> (r: LogRecord)
        ensures
            r.payload@ == resp::array_frame(text::texts(tokens@)),
            r.sync == (self.policy == FsyncPolicy::Always),
    {
        LogRecord {
            payload: resp::array(tokens),
            sync: match self.policy {
                FsyncPolicy::Always => true,
                _ => false,
            },
        }
    }

    /// Whether a background task flushes the log once per second.
    pub fn needs_background_sync(&self) -> (r: bool)
        ensures
            r == (self.policy == FsyncPolicy::EverySec),
    {
        match self.policy {
            FsyncPolicy::EverySec => true,
            _ => false,
        }
    }
}

/// The three policies go by their names, in any case, and there is no other.
pub proof fn lemma_policy_names(value: Seq<char>)
    ensures
        text::lower(value) == "always"@ ==> named_policy(value) == Some(FsyncPolicy::Always),
        text::lower(value) == "everysec"@ ==> named_policy(value) == Some(FsyncPolicy::EverySec),
        text::lower(value) == "no"@ ==> named_policy(value) == Some(FsyncPolicy::No),
        text::lower(value) != "always"@ && text::lower(value) != "everysec"@ && text::lower(value)
            != "no"@ ==> named_policy(value) is None,
        unknown_policy_text(value) == "unknown fsync policy '"@ + text::lower(value)
            + "' (expected always, everysec, or no)"@,
{
    reveal_strlit("always");
    reveal_strlit("everysec");
    reveal_strlit("no");
    assert("always"@.len() == 6 && "everysec"@.len() == 8 && "no"@.len() == 2);
}

} // verus!
