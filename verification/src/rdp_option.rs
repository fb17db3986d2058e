use vstd::prelude::*;

verus! {

/// Tunable connection parameters.
///
/// - `mss`: maximum segment size, the largest payload carried by one packet.
/// - `window`: the advertised receive window, in bytes.
/// - `rto`: the retransmission timeout, in the caller's clock units.
/// - `max_retries`: how many retransmissions of one segment are allowed
///   before the connection fails.
#[derive(Clone, Copy, Debug, PartialEq, Eq, Structural)]
pub struct RdpOption {
    pub mss: u16,
    pub window: u16,
    pub rto: u64,
    pub max_retries: u32,
}

impl RdpOption {
    /// An option set with the given maximum segment size and default
    /// values for the remaining parameters.
    pub fn new(mss: u16) -> (r: RdpOption)
        ensures
            r == (RdpOption { mss, window: 65535u16, rto: 200u64, max_retries: 8u32 }),
    {
        RdpOption { mss, window: 65535, rto: 200, max_retries: 8 }
    }

    /// The default option set: maximum segment size 1460.
    pub fn default() -> (r: RdpOption)
        ensures
            r == (RdpOption { mss: 1460u16, window: 65535u16, rto: 200u64, max_retries: 8u32 }),
    {
        RdpOption { mss: 1460, window: 65535, rto: 200, max_retries: 8 }
    }
}

} // verus!
