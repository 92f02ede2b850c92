use vstd::prelude::*;

use crate::address::{destination_of, lemma_targets_unique, targets, PeerAddress};
use crate::error::NodeError;

verus! {

/// `i` is the last position of `a` in `reg`: the entry that a map built by
/// inserting `reg` in order keeps for `a`.
pub open spec fn last_index(reg: Seq<PeerAddress>, i: int, a: PeerAddress) -> bool {
    &&& 0 <= i < reg.len()
    &&& reg[i] == a
    &&& forall|j: int| i < j < reg.len() ==> reg[j] != a
}

/// Which node of the cluster listens at each address, built once before any
/// fabric starts and never changed: entry `i` is the address of node `i`.
pub struct Registry {
    addrs: Vec<PeerAddress>,
}

impl View for Registry {
    type V = Seq<PeerAddress>;

    closed spec fn view(&self) -> Seq<PeerAddress> {
        self.addrs@
    }
}

impl Registry {
    /// The registry of a cluster whose node `i` listens at `addrs[i]`.
    pub fn new(addrs: Vec<PeerAddress>) -> (r: Registry)
        ensures
            r@ == addrs@,
    {
        Registry { addrs }
    }

    pub fn len(&self) -> (r: usize)
        ensures
            r == self@.len(),
    {
        self.addrs.len()
    }

    /// The address of node `i`.
    pub fn address(&self, i: usize) -> (r: PeerAddress)
        requires
            i < self@.len(),
        ensures
            r == self@[i as int],
    {
        self.addrs[i]
    }

    /// The node that listens at `a`; where two nodes share an address, the
    /// later one.
    pub fn lookup(&self, a: PeerAddress) -> (r: Option<usize>)
        ensures
            r matches Some(i) ==> last_index(self@, i as int, a),
            r is None <==> !self@.contains(a),
    {
        let mut i: usize = self.addrs.len();
        while i > 0
            invariant
                i <= self@.len(),
                forall|j: int| i <= j < self@.len() ==> self@[j] != a,
            decreases i,
        {
            i = i - 1;
            if self.addrs[i] == a {
                return Some(i);
            }
        }
        proof {
            assert forall|j: int| 0 <= j < self@.len() implies self@[j] != a by {}
        }
        None
    }
}

/// What a fabric does with a request that its node wants to send.
#[derive(Clone, Copy, Debug, PartialEq, Eq, Structural)]
pub enum Step {
    /// The partition switch is off: discard the request with its reply slot.
    Drop,
    /// Push the request onto the inbound queue of node `dest`, which listens at
    /// `to`, with a fresh reply slot known by `ticket`.
    Deliver { dest: usize, to: PeerAddress, ticket: u64 },
    /// Stop the fabric with this error.
    Halt(NodeError),
}

/// The state of one node's routing fabric. It forwards one request at a time:
/// `awaiting` is the ticket of the request whose reply it waits for, and every
/// delivered request gets the ticket `next_ticket`, which then grows by one.
pub struct Fabric {
    pub next_ticket: u64,
    pub awaiting: Option<u64>,
}

/// How a request toward `t` is routed while the switch reads `enabled`, and
/// the fabric state after it.
pub open spec fn route(f: Fabric, enabled: bool, reg: Seq<PeerAddress>, t: Seq<u8>) -> (Fabric, Step) {
    if !enabled {
        (f, Step::Drop)
    } else if exists|a: PeerAddress| targets(t, a) && reg.contains(a) {
        let a = choose|a: PeerAddress| targets(t, a) && reg.contains(a);
        let i = choose|i: int| last_index(reg, i, a);
        (
            Fabric { next_ticket: (f.next_ticket + 1) as u64, awaiting: Some(f.next_ticket) },
            Step::Deliver { dest: i as usize, to: a, ticket: f.next_ticket },
        )
    } else {
        (f, Step::Halt(NodeError::NotListeningError))
    }
}

/// What a fabric does with the reply that came on the slot of `ticket`, and
/// its state after it.
pub open spec fn answer<T>(f: Fabric, ticket: u64, reply: Option<Result<T, NodeError>>) -> (
    Fabric,
    Option<Result<T, NodeError>>,
) {
    if f.awaiting == Some(ticket) {
        (Fabric { next_ticket: f.next_ticket, awaiting: None }, Some(received(reply)))
    } else {
        (f, None)
    }
}

/// What the caller of a request receives from its reply slot: the reply, or
/// `NotAnsweringError` where the slot closed without one.
pub open spec fn received<T>(reply: Option<Result<T, NodeError>>) -> Result<T, NodeError> {
    match reply {
        Some(r) => r,
        None => Err(NodeError::NotAnsweringError),
    }
}

/// The outcome that a request's caller receives from its reply slot.
pub fn reply_outcome<T>(reply: Option<Result<T, NodeError>>) -> (r: Result<T, NodeError>)
    ensures
        r == received(reply),
{
    match reply {
        Some(r) => r,
        None => Err(NodeError::NotAnsweringError),
    }
}

/// How a fabric goes on after pushing a request onto an inbound queue, or
/// after handing a reply to the caller's slot: a closed queue or slot stops it
/// with `NotListeningError`.
pub fn handed_over(accepted: bool) -> (r: Result<(), NodeError>)
    ensures
        r == (if accepted {
            Ok(())
        } else {
            Err(NodeError::NotListeningError)
        }),
{
    if accepted {
        Ok(())
    } else {
        Err(NodeError::NotListeningError)
    }
}

impl Fabric {
    /// A fabric that has forwarded nothing yet.
    pub fn new() -> (r: Fabric)
        ensures
            r.next_ticket == 0,
            r.awaiting is None,
    {
        Fabric { next_ticket: 0, awaiting: None }
    }

    /// Decides what becomes of a request toward `target` while the partition
    /// switch reads `enabled`.
    pub fn on_request(&mut self, enabled: bool, registry: &Registry, target: &[u8]) -> (r: Step)
        requires
            old(self).awaiting is None,
            old(self).next_ticket < u64::MAX,
        ensures
            (*final(self), r) == route(*old(self), enabled, registry@, target@),
    {
        if !enabled {
            return Step::Drop;
        }
        match destination_of(target) {
            Some(a) => match registry.lookup(a) {
                Some(i) => {
                    proof {
                        assert(registry@.contains(a));
                        let b = choose|b: PeerAddress| targets(target@, b) && registry@.contains(b);
                        assert(b == a);
                        let j = choose|j: int| last_index(registry@, j, a);
                        if j < i {
                            assert(registry@[j] != a);
                        } else if j > i {
                            assert(registry@[i as int] != a);
                        }
                    }
                    let ticket = self.next_ticket;
                    self.next_ticket = ticket + 1;
                    self.awaiting = Some(ticket);
                    Step::Deliver { dest: i, to: a, ticket }
                },
                None => Step::Halt(NodeError::NotListeningError),
            },
            None => Step::Halt(NodeError::NotListeningError),
        }
    }

    /// Takes the reply that came on the slot of `ticket`. It is handed on, as
    /// its caller receives it, only where `ticket` is the request in flight;
    /// the fabric then waits for no reply.
    pub fn on_reply<T>(&mut self, ticket: u64, reply: Option<Result<T, NodeError>>) -> (r: Option<
        Result<T, NodeError>,
    >)
        ensures
            (*final(self), r) == answer(*old(self), ticket, reply),
    {
        if self.awaiting == Some(ticket) {
            self.awaiting = None;
            Some(reply_outcome(reply))
        } else {
            None
        }
    }
}

/// Correlation: a request delivered by a fabric owns a ticket that the
/// request after it does not get, and the reply that comes on a slot reaches a
/// caller only where it carries the ticket of the request in flight, and then
/// unchanged.
pub proof fn lemma_replies_reach_their_caller<T>(
    f: Fabric,
    reg: Seq<PeerAddress>,
    first: Seq<u8>,
    second: Seq<u8>,
    enabled: bool,
    ticket: u64,
    reply: Option<Result<T, NodeError>>,
)
    requires
        f.awaiting is None,
        f.next_ticket + 1 < u64::MAX,
    ensures
        ({
            let (f1, s1) = route(f, true, reg, first);
            s1 matches Step::Deliver { ticket: k, .. } ==> {
                &&& (answer(f1, ticket, reply).1 is Some <==> ticket == k)
                &&& answer(f1, k, reply).1 == Some(received(reply))
                &&& (route(answer(f1, k, reply).0, enabled, reg, second).1 matches Step::Deliver {
                    ticket: k2,
                    ..
                } ==> k2 != k)
            }
        }),
{
}

/// Partition: while the switch is off, every request is dropped and reaches
/// no inbound queue, and its caller, whose reply slot is dropped with it,
/// receives `NotAnsweringError`.
pub proof fn lemma_partition_drops<T>(f: Fabric, reg: Seq<PeerAddress>, t: Seq<u8>)
    ensures
        route(f, false, reg, t) == (f, Step::Drop),
        received::<T>(None) == Err::<T, NodeError>(NodeError::NotAnsweringError),
{
}

/// Unknown destination: a request toward an address that no node of the
/// registry listens at stops the fabric with `NotListeningError`.
pub proof fn lemma_unknown_destination_halts(
    f: Fabric,
    reg: Seq<PeerAddress>,
    t: Seq<u8>,
    a: PeerAddress,
)
    requires
        targets(t, a),
        !reg.contains(a),
    ensures
        route(f, true, reg, t) == (f, Step::Halt(NodeError::NotListeningError)),
{
    assert forall|b: PeerAddress| targets(t, b) implies !reg.contains(b) by {
        lemma_targets_unique(t, a, b);
    }
}

} // verus!
