//! A reliable, connection-oriented transport protocol engine layered over an
//! unreliable datagram substrate.
//!
//! The crate holds the pure protocol logic: the wire codec with its checksum,
//! the per-connection state machine (handshake, data transfer, teardown), the
//! reliable-delivery mechanics (sliding window, retransmission, reorder
//! buffer, cumulative acknowledgment), and the listener-side connection
//! registry.  Callers supply the datagram I/O, the clock readings and the
//! initial sequence numbers; the engine decides what to transmit and what to
//! deliver.

pub mod rdp_conn;
pub mod rdp_error;
pub mod rdp_listener;
pub mod rdp_option;
pub mod rdp_packet;
pub mod seqnum;
pub mod wire;
