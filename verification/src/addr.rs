//! Addresses of peers: an IP address and a port, as the peer table keys them.
use vstd::prelude::*;

verus! {

/// The port a peer listens on when nothing else is said.
pub const DEFAULT_PORT: u16 = 2504;

/// An IP address. A version 4 address is its four octets read big-endian,
/// a version 6 address its sixteen octets read big-endian.
#[derive(Clone, Copy, Debug, PartialEq, Eq, Structural)]
pub enum IpAddress {
    V4(u32),
    V6(u128),
}

/// The address of a peer's socket. Two addresses are the same peer when all
/// their fields agree, the flow information and scope of a version 6
/// address included.
#[allow(inconsistent_fields)]
#[derive(Clone, Copy, Debug, PartialEq, Eq, Structural)]
pub enum PeerAddr {
    V4 { ip: u32, port: u16 },
    V6 { ip: u128, port: u16, flowinfo: u32, scope_id: u32 },
}

impl PeerAddr {
    pub open spec fn spec_new(ip: IpAddress, port: u16) -> PeerAddr {
        match ip {
            IpAddress::V4(ip) => PeerAddr::V4 { ip, port },
            IpAddress::V6(ip) => PeerAddr::V6 { ip, port, flowinfo: 0, scope_id: 0 },
        }
    }

    pub open spec fn spec_ip(&self) -> IpAddress {
        match *self {
            PeerAddr::V4 { ip, .. } => IpAddress::V4(ip),
            PeerAddr::V6 { ip, .. } => IpAddress::V6(ip),
        }
    }

    pub open spec fn spec_port(&self) -> u16 {
        match *self {
            PeerAddr::V4 { port, .. } => port,
            PeerAddr::V6 { port, .. } => port,
        }
    }

    /// The socket address of `ip` at `port`; a version 6 address gets no
    /// flow information and no scope.
    #[verifier::when_used_as_spec(spec_new)]
    pub fn new(ip: IpAddress, port: u16) -> (r: PeerAddr)
        ensures
            r == PeerAddr::spec_new(ip, port),
    {
        match ip {
            IpAddress::V4(ip) => PeerAddr::V4 { ip, port },
            IpAddress::V6(ip) => PeerAddr::V6 { ip, port, flowinfo: 0, scope_id: 0 },
        }
    }

    #[verifier::when_used_as_spec(spec_ip)]
    pub fn ip(&self) -> (r: IpAddress)
        ensures
            r == self.spec_ip(),
    {
        match self {
            PeerAddr::V4 { ip, .. } => IpAddress::V4(*ip),
            PeerAddr::V6 { ip, .. } => IpAddress::V6(*ip),
        }
    }

    #[verifier::when_used_as_spec(spec_port)]
    pub fn port(&self) -> (r: u16)
        ensures
            r == self.spec_port(),
    {
        match self {
            PeerAddr::V4 { port, .. } => *port,
            PeerAddr::V6 { port, .. } => *port,
        }
    }
}

} // verus!
