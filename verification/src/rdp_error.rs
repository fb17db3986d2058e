use vstd::prelude::*;

verus! {

/// Errors surfaced by the protocol engine.
///
/// `MalformedHeader` and `ChecksumMismatch` come from the packet codec; on
/// receipt such packets are treated as lost.  `HandshakeFailed` fails a
/// `connect`.  `RetransmissionLimitExceeded` is fatal to a connection.
/// `ConnectionReset` reports a peer reset or abnormal teardown.
/// `ConnectionClosing` rejects operations on a connection being torn down.
/// `Timeout` reports an elapsed caller-supplied deadline; the connection
/// stays usable.
#[derive(Clone, Copy, Debug, PartialEq, Eq, Structural)]
pub enum RdpError {
    MalformedHeader,
    ChecksumMismatch,
    HandshakeFailed,
    RetransmissionLimitExceeded,
    ConnectionReset,
    ConnectionClosing,
    Timeout,
}

} // verus!
