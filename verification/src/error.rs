//! The errors that the transport reports to its caller.

use vstd::prelude::*;

verus! {

/// A connection cannot be set up as asked.
#[derive(Clone, Copy, Debug, PartialEq, Eq, Structural)]
pub enum ConfigError {
    /// The window has to leave room for at least one segment in flight.
    InvalidWindowSize,
}

/// The handshake did not take place.
#[derive(Clone, Copy, Debug, PartialEq, Eq, Structural)]
pub enum ConnectError {
    /// The request was repeated as often as allowed and never acknowledged.
    Timeout,
    /// The handshake was already started on this connection.
    AlreadyConnected,
    /// The connection has failed; nothing more is attempted on it.
    ConnectionFailed,
}

/// A payload was not taken for sending.
#[derive(Clone, Copy, Debug, PartialEq, Eq, Structural)]
pub enum SendError {
    /// The connection is not established.
    NotConnected,
    /// A segment was repeated as often as allowed and never acknowledged.
    WindowTimeout,
    /// The connection has failed; nothing more is attempted on it.
    ConnectionFailed,
}

/// No payload can be handed out.
#[derive(Clone, Copy, Debug, PartialEq, Eq, Structural)]
pub enum RecvError {
    /// The connection is not established.
    NotConnected,
    /// The connection has failed; nothing more is attempted on it.
    ConnectionFailed,
}

} // verus!
