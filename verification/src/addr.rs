//! Socket addresses as plain values.
use vstd::prelude::*;

verus! {

/// The address of a peer: the IP version, the address bits, and the port.
/// IPv4 addresses keep their 32 bits in the low part of `ip`.
#[derive(Clone, Copy, PartialEq, Eq, Structural, Debug)]
pub struct PeerAddr {
    pub v6: bool,
    pub ip: u128,
    pub port: u16,
}

impl PeerAddr {
    /// The same host at another port.
    pub fn with_port(&self, port: u16) -> (r: PeerAddr)
        ensures
            r == (PeerAddr { v6: self.v6, ip: self.ip, port }),
    {
        PeerAddr { v6: self.v6, ip: self.ip, port }
    }
}

} // verus!
