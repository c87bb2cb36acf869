//! Error kinds shared by the storage engines and the wire protocol.

use vstd::prelude::*;

verus! {

/// Everything that can go wrong in the store.
#[derive(Clone, Copy, Debug, PartialEq, Eq, Structural)]
pub enum KvError {
    /// An underlying I/O failure.
    Io,
    /// A log record failed to decode, or its embedded key did not match.
    Corrupt,
    /// The log ended in the middle of a record during recovery.
    Truncated,
    /// `remove` was asked for a key that is not present.
    KeyNotFound,
    /// A request line failed to parse.
    ProtocolError,
    /// The selected engine disagrees with the state already on disk.
    EngineMismatch,
}

/// The wire text of each error, as the server reports it.
pub open spec fn spec_message(e: KvError) -> Seq<char> {
    match e {
        KvError::Io => "io error"@,
        KvError::Corrupt => "log corrupt"@,
        KvError::Truncated => "log truncated"@,
        KvError::KeyNotFound => "Key not found"@,
        KvError::ProtocolError => "protocol error"@,
        KvError::EngineMismatch => "engine mismatch"@,
    }
}

impl KvError {
    /// Human-readable text for this error; `KeyNotFound` matches the literal
    /// reply the wire protocol uses.
    pub fn message(&self) -> (r: &'static str)
        ensures
            r@ == spec_message(*self),
    {
        match self {
            KvError::Io => "io error",
            KvError::Corrupt => "log corrupt",
            KvError::Truncated => "log truncated",
            KvError::KeyNotFound => "Key not found",
            KvError::ProtocolError => "protocol error",
            KvError::EngineMismatch => "engine mismatch",
        }
    }
}

} // verus!
