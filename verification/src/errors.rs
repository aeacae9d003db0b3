//! The failure conditions of the identifier codec.

use vstd::prelude::*;

verus! {

/// Everything that can go wrong while creating an identifier or decoding its
/// canonical string. All failures are input-validation failures, detected
/// synchronously and returned to the caller; nothing is retried.
#[derive(Clone, Copy, Debug, PartialEq, Eq, Structural)]
pub enum Error {
    /// The namespace handed to `create` is empty.
    EmptyNamespace,
    /// An identifier was constructed other than through `create`.
    UnsupportedConstruction,
    /// The string handed to `extract_timestamp` is empty.
    EmptyInput,
    /// The string does not split into exactly five hyphen-separated segments.
    MalformedIdentifier,
    /// The timestamp segments do not form non-empty base-36 text in range.
    InvalidTimestampEncoding,
}

} // verus!
