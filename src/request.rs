use vstd::prelude::*;

use crate::address::{
    lemma_target_names_destination, lemma_targets_unique, opt_view, target, target_text, targets,
    PeerAddress,
};
use crate::error::NodeError;
use crate::fabric::{answer, last_index, received, route, Fabric, Step};

verus! {

/// The HTTP method of a simulated request.
#[derive(Clone, Copy, Debug, PartialEq, Eq, Structural)]
pub enum Method {
    Get,
    Post,
}

/// The calls of a node's API that the peer handle makes.
#[derive(Clone, Copy, Debug, PartialEq, Eq, Structural)]
pub enum Rpc {
    Shutdown,
    Stats,
    Peers,
    SetMiner,
    MinerPuzzle,
    MinerSolution,
}

/// The path of `r` under the node's address.
pub open spec fn rpc_path(r: Rpc) -> Seq<u8> {
    match r {
        // shutdown
        Rpc::Shutdown => seq![115u8, 104, 117, 116, 100, 111, 119, 110],
        // stats
        Rpc::Stats => seq![115u8, 116, 97, 116, 115],
        // peers
        Rpc::Peers => seq![112u8, 101, 101, 114, 115],
        // miner
        Rpc::SetMiner => seq![109u8, 105, 110, 101, 114],
        // miner/puzzle
        Rpc::MinerPuzzle => seq![109u8, 105, 110, 101, 114, 47, 112, 117, 122, 122, 108, 101],
        // miner/solution
        Rpc::MinerSolution => seq![
            109u8,
            105,
            110,
            101,
            114,
            47,
            115,
            111,
            108,
            117,
            116,
            105,
            111,
            110,
        ],
    }
}

/// The method of `r`: the reads are GET, the rest POST.
pub open spec fn rpc_method(r: Rpc) -> Method {
    match r {
        Rpc::Stats | Rpc::Peers | Rpc::MinerPuzzle => Method::Get,
        _ => Method::Post,
    }
}

/// The target of the call `rpc` toward `peer` with the encoded parameters
/// `payload`.
pub open spec fn rpc_target(peer: PeerAddress, rpc: Rpc, payload: Seq<u8>) -> Seq<u8> {
    match rpc_method(rpc) {
        Method::Get => target_text(peer, rpc_path(rpc), Some(payload)),
        Method::Post => target_text(peer, rpc_path(rpc), None),
    }
}

/// A request as the peer handle builds it, before it becomes an HTTP request:
/// a POST carries a JSON body, a GET carries its parameters in the query.
pub struct OutRequest {
    pub method: Method,
    pub target: Vec<u8>,
    pub json_body: bool,
    pub body: Vec<u8>,
}

impl Rpc {
    pub fn method(&self) -> (r: Method)
        ensures
            r == rpc_method(*self),
    {
        match self {
            Rpc::Stats | Rpc::Peers | Rpc::MinerPuzzle => Method::Get,
            _ => Method::Post,
        }
    }

    pub fn path(&self) -> (r: Vec<u8>)
        ensures
            r@ == rpc_path(*self),
    {
        let r = match self {
            Rpc::Shutdown => vec![115u8, 104, 117, 116, 100, 111, 119, 110],
            Rpc::Stats => vec![115u8, 116, 97, 116, 115],
            Rpc::Peers => vec![112u8, 101, 101, 114, 115],
            Rpc::SetMiner => vec![109u8, 105, 110, 101, 114],
            Rpc::MinerPuzzle => vec![109u8, 105, 110, 101, 114, 47, 112, 117, 122, 122, 108, 101],
            Rpc::MinerSolution => vec![
                109u8,
                105,
                110,
                101,
                114,
                47,
                115,
                111,
                108,
                117,
                116,
                105,
                111,
                110,
            ],
        };
        assert(r@ =~= rpc_path(*self));
        r
    }
}

/// A GET toward `peer` at `path` with the encoded parameters `query`: target
/// `http://peer/path?query`, empty body.
pub fn get_request(peer: PeerAddress, path: &[u8], query: &[u8]) -> (r: OutRequest)
    ensures
        r.method == Method::Get,
        r.target@ == target_text(peer, path@, Some(query@)),
        !r.json_body,
        r.body@.len() == 0,
{
    let t = target(peer, path, Some(query));
    OutRequest { method: Method::Get, target: t, json_body: false, body: Vec::new() }
}

/// A POST toward `peer` at `path` with the JSON body `body`: target
/// `http://peer/path`.
pub fn post_request(peer: PeerAddress, path: &[u8], body: Vec<u8>) -> (r: OutRequest)
    ensures
        r.method == Method::Post,
        r.target@ == target_text(peer, path@, None),
        r.json_body,
        r.body@ == body@,
{
    let t = target(peer, path, None);
    proof {
        assert(opt_view(None) == None::<Seq<u8>>);
    }
    OutRequest { method: Method::Post, target: t, json_body: true, body }
}

/// The request for the call `rpc` toward `peer` whose parameters encode to
/// `payload`: the query of a GET, the body of a POST.
pub fn rpc_request(peer: PeerAddress, rpc: Rpc, payload: Vec<u8>) -> (r: OutRequest)
    ensures
        r.method == rpc_method(rpc),
        r.json_body == (rpc_method(rpc) == Method::Post),
        r.target@ == rpc_target(peer, rpc, payload@),
        rpc_method(rpc) == Method::Get ==> r.body@.len() == 0,
        rpc_method(rpc) == Method::Post ==> r.body@ == payload@,
{
    let path = rpc.path();
    match rpc.method() {
        Method::Get => get_request(peer, path.as_slice(), payload.as_slice()),
        Method::Post => post_request(peer, path.as_slice(), payload),
    }
}

/// Round trip: while the switch is on, a call toward a node of the cluster is
/// delivered to that node, the last in the registry that listens at its
/// address, and the node's reply reaches the caller unchanged.
pub proof fn lemma_rpc_round_trip<T>(
    f: Fabric,
    reg: Seq<PeerAddress>,
    peer: PeerAddress,
    rpc: Rpc,
    payload: Seq<u8>,
    reply: Result<T, NodeError>,
)
    requires
        f.awaiting is None,
        f.next_ticket < u64::MAX,
        reg.len() <= usize::MAX,
        reg.contains(peer),
    ensures
        ({
            let (f1, s1) = route(f, true, reg, rpc_target(peer, rpc, payload));
            &&& s1 matches Step::Deliver { dest, to, ticket } && to == peer && last_index(
                reg,
                dest as int,
                peer,
            ) && answer(f1, ticket, Some(reply)).1 == Some(reply)
        }),
{
    let t = rpc_target(peer, rpc, payload);
    match rpc_method(rpc) {
        Method::Get => lemma_target_names_destination(peer, rpc_path(rpc), Some(payload)),
        Method::Post => lemma_target_names_destination(peer, rpc_path(rpc), None),
    }
    let a = choose|a: PeerAddress| targets(t, a) && reg.contains(a);
    lemma_targets_unique(t, a, peer);
    let k = choose|k: int| 0 <= k < reg.len() && reg[k] == peer;
    assert(exists|i: int| last_index(reg, i, peer)) by {
        lemma_last_index_exists(reg, peer, k);
    }
    let i = choose|i: int| last_index(reg, i, peer);
    assert((i as usize) as int == i);
    assert(received(Some(reply)) == reply);
}

proof fn lemma_last_index_exists(reg: Seq<PeerAddress>, a: PeerAddress, k: int)
    requires
        0 <= k < reg.len(),
        reg[k] == a,
    ensures
        exists|i: int| last_index(reg, i, a),
    decreases reg.len() - k,
{
    if exists|j: int| k < j < reg.len() && reg[j] == a {
        let j = choose|j: int| k < j < reg.len() && reg[j] == a;
        lemma_last_index_exists(reg, a, j);
    } else {
        assert(last_index(reg, k, a));
    }
}

} // verus!
