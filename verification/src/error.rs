//! The errors of the store.

use vstd::prelude::*;

verus! {

/// An I/O error of the standard library. The store carries it to its
/// caller and never looks inside.
#[verifier::external_type_specification]
#[verifier::external_body]
pub struct ExIoError(std::io::Error);

/// A `serde_json` error. The store carries it to its caller and never
/// looks inside.
#[verifier::external_type_specification]
#[verifier::external_body]
pub struct ExJsonError(serde_json::Error);

/// Why an operation of the store failed.
#[derive(Debug)]
pub enum KvsError {
    /// Reading or writing a segment failed.
    Io(std::io::Error),
    /// A command could not be encoded or decoded.
    Serde(serde_json::Error),
    /// The key to remove has no value.
    KeyNotFound,
}

impl From<std::io::Error> for KvsError {
    fn from(err: std::io::Error) -> (e: KvsError) {
        KvsError::Io(err)
    }
}

impl vstd::std_specs::convert::FromSpecImpl<std::io::Error> for KvsError {
    open spec fn obeys_from_spec() -> bool {
        true
    }

    open spec fn from_spec(err: std::io::Error) -> KvsError {
        KvsError::Io(err)
    }
}

impl From<serde_json::Error> for KvsError {
    fn from(err: serde_json::Error) -> (e: KvsError) {
        KvsError::Serde(err)
    }
}

impl vstd::std_specs::convert::FromSpecImpl<serde_json::Error> for KvsError {
    open spec fn obeys_from_spec() -> bool {
        true
    }

    open spec fn from_spec(err: serde_json::Error) -> KvsError {
        KvsError::Serde(err)
    }
}

} // verus!
