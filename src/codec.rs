//! The capability that the server needs from a connection.
use vstd::prelude::*;

use crate::ClientId;

verus! {

/// The outcome of one attempt to decode a message from a connection.
#[derive(Debug)]
pub enum Decoded {
    /// A complete, non-empty message.
    Message(String),
    /// No complete message yet; the connection stays as it is.
    WouldBlock,
    /// The peer closed the connection.
    Closed,
    /// Any other I/O failure.
    Failed(std::io::Error),
}

/// One accepted connection, turning bytes into messages and back.
///
/// A codec is made by its owner from an accepted socket and the id the
/// server allotted to it; the server then drives it through these methods
/// and keeps its own record of each client's id and state. A codec closes
/// only through `shutdown`, which the server calls whenever it marks the
/// client closed, so that record and `is_open` agree.
pub trait Codec: Sized {
    /// Tries to decode one message from the bytes available now, without
    /// blocking. A closed codec reports a failure.
    fn read(&mut self) -> Decoded;

    /// Writes one message, framed and flushed. A closed codec fails.
    fn write(&mut self, message: &str) -> Result<(), std::io::Error>;

    /// Marks the codec closed; later reads and writes fail.
    fn shutdown(&mut self);

    /// Whether the codec is still open.
    fn is_open(&self) -> bool;

    /// The id the codec was made with.
    fn id(&self) -> ClientId;
}

} // verus!
