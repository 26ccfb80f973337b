//! The error type shared by every component.
use vstd::prelude::*;
use vstd::string::StringExecFns;

verus! {

/// Unified error type for AtlasKV operations.
#[derive(Debug, Clone, PartialEq, Eq)]
pub enum AtlasError {
    /// An underlying filesystem or socket error, with its message.
    Io(String),
    /// A WAL record failed its integrity checks.
    WalCorruption(String),
    /// A WAL write could not be completed.
    WalWrite(String),
    /// A logic error of the storage layer.
    Storage(String),
    /// The key is not held by the SSTable that was asked.
    KeyNotFound,
    /// A record's payload could not be encoded.
    Serialization(String),
    /// A connection could not be set up.
    Network(String),
    /// A malformed or oversized wire message.
    Protocol(String),
    /// An invalid configuration.
    Config(String),
    /// A guard was poisoned by a panicking holder.
    LockPoisoned(String),
}

/// Result type alias using `AtlasError`.
pub type Result<T> = core::result::Result<T, AtlasError>;

/// Builds an error message from a literal.
pub fn msg(s: &str) -> (r: String)
    ensures
        r@ == s@,
{
    s.to_owned()
}

/// The prefix followed by the text.
fn join(prefix: &str, text: &String) -> (r: String)
    ensures
        r@ == prefix@ + text@,
{
    let mut r = prefix.to_owned();
    r.append(text.as_str());
    r
}

/// The human-readable description of an error.
pub open spec fn description(e: AtlasError) -> Seq<char> {
    match e {
        AtlasError::Io(m) => "IO error: "@ + m@,
        AtlasError::WalCorruption(m) => "WAL corruption detected: "@ + m@,
        AtlasError::WalWrite(m) => "WAL write failed: "@ + m@,
        AtlasError::Storage(m) => "Storage error: "@ + m@,
        AtlasError::KeyNotFound => "Key not found"@,
        AtlasError::Serialization(m) => "Serialization error: "@ + m@,
        AtlasError::Network(m) => "Network error: "@ + m@,
        AtlasError::Protocol(m) => "Protocol error: "@ + m@,
        AtlasError::Config(m) => "Configuration error: "@ + m@,
        AtlasError::LockPoisoned(m) => "Lock poisoned: "@ + m@,
    }
}

impl AtlasError {
    /// The human-readable description of the error.
    pub fn to_string(&self) -> (r: String)
        ensures
            r@ == description(*self),
    {
        match self {
            AtlasError::Io(m) => join("IO error: ", m),
            AtlasError::WalCorruption(m) => join("WAL corruption detected: ", m),
            AtlasError::WalWrite(m) => join("WAL write failed: ", m),
            AtlasError::Storage(m) => join("Storage error: ", m),
            AtlasError::KeyNotFound => msg("Key not found"),
            AtlasError::Serialization(m) => join("Serialization error: ", m),
            AtlasError::Network(m) => join("Network error: ", m),
            AtlasError::Protocol(m) => join("Protocol error: ", m),
            AtlasError::Config(m) => join("Configuration error: ", m),
            AtlasError::LockPoisoned(m) => join("Lock poisoned: ", m),
        }
    }
}

} // verus!
