//! Remote addresses and TCP connections.
use vstd::prelude::*;

verus! {

/// An IP address, as its octets.
#[derive(Clone, Copy, Debug, PartialEq, Eq)]
pub enum IpAddr {
    V4([u8; 4]),
    V6([u8; 16]),
}

impl View for IpAddr {
    type V = Seq<u8>;

    /// The octets: four of them or sixteen.
    open spec fn view(&self) -> Seq<u8> {
        match self {
            IpAddr::V4(octets) => octets@,
            IpAddr::V6(octets) => octets@,
        }
    }
}

/// Whether octets are a loopback address: 127.0.0.0/8 or ::1.
pub open spec fn loopback(octets: Seq<u8>) -> bool {
    if octets.len() == 4 {
        octets[0] == 127
    } else {
        octets == Seq::new(16, |i: int| if i == 15 { 1u8 } else { 0u8 })
    }
}

/// Whether octets are the unspecified address: all of them zero.
pub open spec fn unspecified(octets: Seq<u8>) -> bool {
    forall|i: int| 0 <= i < octets.len() ==> octets[i] == 0
}

/// Whether an address and a port are those of a remote endpoint.
pub open spec fn remote(octets: Seq<u8>, port: int) -> bool {
    !loopback(octets) && !unspecified(octets) && port != 0
}

/// Tells whether the first `count` octets are zero.
fn zeros(octets: &[u8], count: usize) -> (all: bool)
    requires
        count <= octets@.len(),
    ensures
        all == (forall|i: int| 0 <= i < count ==> octets@[i] == 0),
{
    let mut i: usize = 0;
    while i < count
        invariant
            i <= count <= octets@.len(),
            forall|j: int| 0 <= j < i ==> octets@[j] == 0,
        decreases count - i,
    {
        if octets[i] != 0 {
            return false;
        }
        i += 1;
    }
    true
}

impl IpAddr {
    /// Tells whether this is a loopback address.
    pub fn is_loopback(&self) -> (yes: bool)
        ensures
            yes == loopback(self@),
    {
        match self {
            IpAddr::V4(octets) => octets[0] == 127,
            IpAddr::V6(octets) => {
                let yes = zeros(octets, 15) && octets[15] == 1;
                proof {
                    let one = Seq::new(16, |i: int| if i == 15 { 1u8 } else { 0u8 });
                    if yes {
                        assert(octets@ =~= one);
                    } else if octets@ == one {
                        assert(octets@[15] == one[15]);
                        assert forall|i: int| 0 <= i < 15 implies octets@[i] == 0 by {
                            assert(octets@[i] == one[i]);
                        }
                    }
                }
                yes
            },
        }
    }

    /// Tells whether this is the unspecified address.
    pub fn is_unspecified(&self) -> (yes: bool)
        ensures
            yes == unspecified(self@),
    {
        match self {
            IpAddr::V4(octets) => zeros(octets, 4),
            IpAddr::V6(octets) => zeros(octets, 16),
        }
    }
}

/// Tells whether an address and a port are those of a remote endpoint.
pub fn is_remote(address: &IpAddr, port: u16) -> (yes: bool)
    ensures
        yes == remote(address@, port as int),
{
    !address.is_loopback() && !address.is_unspecified() && port != 0
}

/// A TCP connection: its remote endpoint and its state.
#[derive(Clone, Debug, PartialEq, Eq)]
pub struct TcpConnection {
    pub remote_ip: IpAddr,
    pub remote_port: u16,
    pub state: String,
}

impl View for TcpConnection {
    type V = (Seq<u8>, int, Seq<char>);

    /// The octets of the address, the port and the state.
    open spec fn view(&self) -> (Seq<u8>, int, Seq<char>) {
        (self.remote_ip@, self.remote_port as int, self.state@)
    }
}

/// The endpoints and states of a list of connections.
pub open spec fn connection_views(connections: Seq<TcpConnection>) -> Seq<
    (Seq<u8>, int, Seq<char>),
> {
    connections.map_values(|connection: TcpConnection| connection@)
}

/// Whether a connection is shown: all of them, or the established ones alone.
pub open spec fn shown(all_states: bool, state: Seq<char>) -> bool {
    all_states || state == "ESTABLISHED"@
}

} // verus!
