//! The error taxonomy of the registry and queue layers.
//!
//! `NotFound` is an expected, recoverable outcome (an absent key or
//! property). The `Malformed*` kinds indicate storage corruption or a schema
//! mismatch and are fatal to the call that meets them. `Transport` stands
//! for an unreachable or failing key-value store, broker, or HTTP client;
//! retrying is the caller's own policy.

use vstd::prelude::*;

verus! {

#[derive(Clone, Copy, Debug, PartialEq, Eq, Structural)]
pub enum Error {
    /// The requested key or property is absent.
    NotFound,
    /// A storage key does not decode to the expected key shape.
    MalformedKey,
    /// A stored URL value does not parse.
    MalformedUrl,
    /// A stored timestamp value does not parse.
    MalformedDate,
    /// A stored counter value does not parse as an unsigned integer.
    MalformedCount,
    /// The underlying store or broker failed or is unreachable.
    Transport,
}

impl Error {
    /// A short stable description, for the unverified surface to log.
    pub fn describe(&self) -> (s: &'static str)
        ensures
            s@.len() > 0,
    {
        proof {
            reveal_strlit("key not found");
            reveal_strlit("key malformed");
            reveal_strlit("url parse error");
            reveal_strlit("date parse error");
            reveal_strlit("int parse error");
            reveal_strlit("transport error");
        }
        match self {
            Error::NotFound => "key not found",
            Error::MalformedKey => "key malformed",
            Error::MalformedUrl => "url parse error",
            Error::MalformedDate => "date parse error",
            Error::MalformedCount => "int parse error",
            Error::Transport => "transport error",
        }
    }
}

} // verus!
