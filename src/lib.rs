//! A non-blocking, single-threaded connection server core.
//!
//! Accepted connections are wrapped in a [`Codec`]; each poll cycle prunes
//! closed clients, flushes the outbound queue, decodes at most one message per
//! client and registers newly accepted clients, reporting all of it as a batch
//! of [`Event`]s.
use vstd::prelude::*;

pub mod codec;
pub mod linecodec;
pub mod server;
pub mod token;

pub use codec::Codec;
pub use server::Server;

verus! {

/// Identifies one accepted connection for the whole life of a server.
pub type ClientId = usize;

/// std's I/O error: carried through events and errors, never looked into.
#[verifier::external_type_specification]
#[verifier::external_body]
pub struct ExIoError(std::io::Error);

/// Failures that the server reports to its owner.
#[derive(Debug)]
pub enum ServerError {
    /// The listening socket could not be bound to `addr`.
    Bind { addr: String, e: std::io::Error },
    /// The listening socket failed.
    Listener(std::io::Error),
    /// A new client could not be accepted.
    Accept(std::io::Error),
    /// Reading from a client failed.
    Read { id: ClientId, error: std::io::Error },
    /// Writing to a client failed.
    Write { id: ClientId, error: std::io::Error },
    /// No client with this id is known.
    IdNotFound(ClientId),
}

/// One thing that happened during a poll cycle.
#[derive(Debug)]
pub enum Event {
    /// A client was accepted.
    Join(ClientId),
    /// A client closed its connection.
    Leave(ClientId),
    /// A client sent a message.
    Receive((ClientId, String)),
    /// A queued message was written to a client.
    Send(ClientId),
    /// Reading from or writing to a client failed; the client is closed.
    ClientError((ClientId, std::io::Error)),
    /// Accepting a connection failed.
    ServerError(std::io::Error),
}

/// The client an event is about, if any.
pub open spec fn client_of(ev: Event) -> Option<ClientId> {
    match ev {
        Event::Join(id) => Some(id),
        Event::Leave(id) => Some(id),
        Event::Receive((id, _)) => Some(id),
        Event::Send(id) => Some(id),
        Event::ClientError((id, _)) => Some(id),
        Event::ServerError(_) => None,
    }
}

} // verus!
