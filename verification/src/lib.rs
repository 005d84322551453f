//! A reliable transport over datagrams, free of I/O.
//!
//! The library decides; its caller reads the socket and the clock. A
//! [`UdpReliable`] takes what happened (a call of the application, a
//! datagram off the network, the time) and answers with what is to be done.
//!
//! - [`codec`]: segments and their wire format.
//! - [`seqnum`]: positions and the sequence numbers that stand for them.
//! - [`timer`]: retransmission timeouts.
//! - [`window`]: the sender's sliding window; [`window_model`]: its mathematics.
//! - [`reorder`]: the receiver's reorder buffer; [`reorder_model`]: its mathematics.
//! - [`connection`]: the connection; [`connection_model`]: its mathematics.
//! - [`guarantees`]: what holds of every run of sender, receiver and connection.
//! - [`error`]: the errors reported to the caller.

pub mod codec;
pub mod connection;
pub mod connection_model;
pub mod error;
pub mod guarantees;
pub mod reorder;
pub mod reorder_model;
pub mod seqnum;
pub mod timer;
pub mod window;
pub mod window_model;

pub use connection::{Tick, Transmit, UdpReliable};
pub use connection_model::State;
pub use error::{ConfigError, ConnectError, RecvError, SendError};
