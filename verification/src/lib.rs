//! A programmable mock HTTP server core: an endpoint routing table keyed by
//! HTTP method and exact path, with insertion, lookup, deletion with pruning,
//! ordered enumeration, and a reader/writer-locked shared instance.

use vstd::prelude::*;

pub mod command;
pub mod console;
pub mod dispatch;
pub mod endpoint;
pub mod laws;
pub mod order;
pub mod path;
pub mod server;
pub mod util;

verus! {

/// Byte value of the path separator `/`.
pub open spec fn slash() -> u8 {
    47
}

} // verus!
