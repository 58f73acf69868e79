//! The errors this library reports.

use vstd::prelude::*;

verus! {

/// std's I/O error, carried through unread.
#[verifier::external_type_specification]
#[verifier::external_body]
pub struct ExIoError(std::io::Error);

/// Anything that can go wrong in the daemon.
#[derive(Debug)]
pub enum MudrasError {
    /// An error with the error that caused it.
    WrapError(WrapError),
    /// An error that is its own cause.
    LibError(LibError),
    /// A failed read or write.
    IoError(std::io::Error),
}

/// An error that says what failed and keeps the error it came from. Chains
/// of any length can be built.
#[derive(Debug)]
pub struct WrapError {
    pub message: String,
    pub origin: Box<MudrasError>,
    pub help: String,
}

impl WrapError {
    /// An error that says `msg`, hints at `help` and keeps `origin` as its cause.
    pub fn new(msg: &str, help: &str, origin: MudrasError) -> (r: Self)
        ensures
            r.message@ == msg@,
            r.help@ == help@,
            *r.origin == origin,
    {
        WrapError { message: msg.to_owned(), help: help.to_owned(), origin: Box::new(origin) }
    }
}

/// A root cause: a message and a hint for the user.
#[derive(Debug)]
pub struct LibError {
    pub message: String,
    pub help: String,
}

impl LibError {
    /// An error that says `msg` and hints at `help`.
    pub fn new(msg: &str, help: &str) -> (r: Self)
        ensures
            r.message@ == msg@,
            r.help@ == help@,
    {
        LibError { message: msg.to_owned(), help: help.to_owned() }
    }
}

impl From<LibError> for MudrasError {
    fn from(e: LibError) -> (r: Self) {
        MudrasError::LibError(e)
    }
}

impl vstd::std_specs::convert::FromSpecImpl<LibError> for MudrasError {
    open spec fn obeys_from_spec() -> bool {
        true
    }

    open spec fn from_spec(e: LibError) -> Self {
        MudrasError::LibError(e)
    }
}

impl From<WrapError> for MudrasError {
    fn from(e: WrapError) -> (r: Self) {
        MudrasError::WrapError(e)
    }
}

impl vstd::std_specs::convert::FromSpecImpl<WrapError> for MudrasError {
    open spec fn obeys_from_spec() -> bool {
        true
    }

    open spec fn from_spec(e: WrapError) -> Self {
        MudrasError::WrapError(e)
    }
}

impl From<std::io::Error> for MudrasError {
    fn from(e: std::io::Error) -> (r: Self) {
        MudrasError::IoError(e)
    }
}

impl vstd::std_specs::convert::FromSpecImpl<std::io::Error> for MudrasError {
    open spec fn obeys_from_spec() -> bool {
        true
    }

    open spec fn from_spec(e: std::io::Error) -> Self {
        MudrasError::IoError(e)
    }
}

} // verus!
