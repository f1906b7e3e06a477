//! The structured operator commands of the control plane, and the fixed set
//! of HTTP methods the routing table distinguishes.

use vstd::prelude::*;

verus! {

/// The HTTP methods an endpoint can be registered under.
#[derive(Debug, Clone, Copy, PartialEq, Eq, Structural, Hash)]
pub enum HttpMethod {
    Get,
    Post,
    Put,
    Patch,
    Delete,
}

/// The fixed order in which methods are enumerated.
pub open spec fn method_rank(m: HttpMethod) -> int {
    match m {
        HttpMethod::Get => 0,
        HttpMethod::Post => 1,
        HttpMethod::Put => 2,
        HttpMethod::Patch => 3,
        HttpMethod::Delete => 4,
    }
}

/// A parsed console command line.
#[derive(Debug)]
pub struct Cli {
    pub command: Command,
}

/// The command families the console understands.
#[derive(Debug)]
pub enum Command {
    Endpoint { action: EndpointAction },
}

/// The endpoint-management operations, with paths and bodies as raw bytes.
#[derive(Debug)]
pub enum EndpointAction {
    Add { method: HttpMethod, path: Vec<u8>, response: Vec<u8> },
    Delete { method: HttpMethod, path: Vec<u8> },
    List { method: Option<HttpMethod> },
}

} // verus!
