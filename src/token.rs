//! Per-client application state keyed by a client id.
use vstd::prelude::*;

use crate::ClientId;

verus! {

/// A value that an application attaches to one client.
pub trait Token: Sized {
    /// A fresh token for the client `id`.
    fn new(id: ClientId) -> Self;

    /// The client the token belongs to.
    fn id(&self) -> ClientId;
}

} // verus!
