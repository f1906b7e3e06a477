//! The error conditions the core reports. None is fatal to the process:
//! each is absorbed at the HTTP boundary as a status code or surfaced to the
//! operator as a log line.

use vstd::prelude::*;

verus! {

/// Why an operation could not be carried out.
#[derive(Debug)]
pub enum InternalError {
    /// The shared table's lock could not be acquired.
    LockFailed,
    /// A delete targeted a (method, path) with no registered entry; holds the
    /// requested path.
    EndpointNotFound(Vec<u8>),
    /// The logging sink could not be installed.
    LoggerInitError,
    /// A console command did not match the grammar.
    ParserError,
}

/// The result type of the fallible core operations.
pub type InternalResult<T> = Result<T, InternalError>;

} // verus!
