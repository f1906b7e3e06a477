//! The shared routing table and the request dispatcher: one process-wide
//! `EndpointStore` behind a reader/writer lock, written to by the control
//! plane and read by the HTTP data plane, plus the pure response logic.

use crate::command::HttpMethod;
use crate::endpoint::EndpointStore;
use crate::path::copy_bytes;
use crate::util::{InternalError, InternalResult};
use vstd::prelude::*;
use vstd::rwlock::{RwLock, RwLockPredicate};

verus! {

/// The invariant every value stored in the shared lock satisfies.
pub struct StoreInv;

impl RwLockPredicate<EndpointStore> for StoreInv {
    open spec fn inv(self, v: EndpointStore) -> bool {
        v.wf()
    }
}

/// The single shared routing table: writers (add, delete) are exclusive,
/// readers (get, list) may run concurrently.
pub struct ServerState {
    pub endpoints: RwLock<EndpointStore, StoreInv>,
}

impl ServerState {
    /// The lock is governed by the store invariant.
    pub closed spec fn wf(self) -> bool {
        self.endpoints.pred() == StoreInv
    }

    /// A shared table over an empty store.
    pub fn new() -> (s: Self)
        ensures
            s.wf(),
    {
        let store = EndpointStore::default();
        ServerState { endpoints: RwLock::new(store, Ghost(StoreInv)) }
    }

    /// Registers or updates an endpoint under exclusive access; reports
    /// whether it replaced an existing body.
    pub fn add_endpoint(&self, method: HttpMethod, path: &[u8], body: Vec<u8>) -> (r:
        InternalResult<bool>)
        requires
            self.wf(),
        ensures
            r is Ok,
    {
        let (mut store, handle) = self.endpoints.acquire_write();
        let was_update = store.add(method, path, body);
        handle.release_write(store);
        Ok(was_update)
    }

    /// Reads the body registered at `(method, path)` under shared access.
    pub fn get_endpoint(&self, method: HttpMethod, path: &[u8]) -> (r: InternalResult<
        Option<Vec<u8>>,
    >)
        requires
            self.wf(),
        ensures
            r is Ok,
    {
        let handle = self.endpoints.acquire_read();
        let found = match handle.borrow().get(method, path) {
            Some(b) => Some(copy_bytes(b.as_slice())),
            None => None,
        };
        handle.release_read();
        Ok(found)
    }

    /// Removes the endpoint at `(method, path)` under exclusive access; a
    /// missing endpoint is reported as `EndpointNotFound` with that path.
    pub fn delete_endpoint(&self, method: HttpMethod, path: &[u8]) -> (r: InternalResult<()>)
        requires
            self.wf(),
        ensures
            match r {
                Ok(_) => true,
                Err(e) => match e {
                    InternalError::EndpointNotFound(p) => p@ == path@,
                    _ => false,
                },
            },
    {
        let (mut store, handle) = self.endpoints.acquire_write();
        let removed = store.delete(method, path);
        handle.release_write(store);
        match removed {
            Some(_) => Ok(()),
            None => Err(InternalError::EndpointNotFound(copy_bytes(path))),
        }
    }

    /// Enumerates the registered endpoints under shared access, optionally
    /// filtered by method, in the stable method and path order.
    pub fn list_endpoints(&self, by_method: Option<&HttpMethod>) -> (r: InternalResult<
        Vec<(HttpMethod, Vec<(Vec<u8>, Vec<u8>)>)>,
    >)
        requires
            self.wf(),
        ensures
            match r {
                Ok(l) => (forall|i: int, j: int|
                    0 <= i < j < l@.len() ==> crate::command::method_rank(#[trigger] l@[i].0)
                        < crate::command::method_rank(#[trigger] l@[j].0)) && (match by_method {
                    Some(f) => forall|i: int| 0 <= i < l@.len() ==> (#[trigger] l@[i].0) == *f,
                    None => true,
                }),
                Err(_) => false,
            },
    {
        let handle = self.endpoints.acquire_read();
        let listing = handle.borrow().entries(by_method);
        handle.release_read();
        Ok(listing)
    }
}

} // verus!
