use vstd::prelude::*;

use crate::address::{loopback_spec, PeerAddress};
use crate::fabric::Registry;

verus! {

/// The configuration of one simulated node: its genesis state, its optional
/// signing identity, its port on the loopback interface, the ports of the
/// nodes it bootstraps from, and its clock offset.
pub struct NodeOpts<G, W> {
    pub genesis: G,
    pub wallet: Option<W>,
    pub addr: u16,
    pub bootstrap: Vec<u16>,
    pub timestamp_offset: i32,
}

/// The loopback addresses of `ports`, in order.
pub open spec fn loopbacks(ports: Seq<u16>) -> Seq<PeerAddress> {
    Seq::new(ports.len(), |i: int| loopback_spec(ports[i]))
}

/// The loopback addresses of `ports`, in order.
pub fn loopback_addresses(ports: &[u16]) -> (r: Vec<PeerAddress>)
    ensures
        r@ == loopbacks(ports@),
{
    let mut r: Vec<PeerAddress> = Vec::new();
    let mut i: usize = 0;
    while i < ports.len()
        invariant
            i <= ports@.len(),
            r@ == loopbacks(ports@.subrange(0, i as int)),
        decreases ports@.len() - i,
    {
        r.push(PeerAddress::loopback(ports[i]));
        i = i + 1;
        assert(r@ =~= loopbacks(ports@.subrange(0, i as int)));
    }
    assert(ports@.subrange(0, i as int) =~= ports@);
    r
}

impl<G, W> NodeOpts<G, W> {
    /// The address the node listens at.
    pub fn address(&self) -> (r: PeerAddress)
        ensures
            r == loopback_spec(self.addr),
    {
        PeerAddress::loopback(self.addr)
    }

    /// The addresses of the nodes it bootstraps from.
    pub fn bootstrap_addresses(&self) -> (r: Vec<PeerAddress>)
        ensures
            r@ == loopbacks(self.bootstrap@),
    {
        loopback_addresses(self.bootstrap.as_slice())
    }
}

/// The registry of a cluster whose node `i` listens on the loopback interface
/// at `ports[i]`.
pub fn cluster_registry(ports: &[u16]) -> (r: Registry)
    ensures
        r@ == loopbacks(ports@),
{
    Registry::new(loopback_addresses(ports))
}

} // verus!
