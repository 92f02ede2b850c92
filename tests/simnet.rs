use simnet::address::{destination_of, target, Ipv4, PeerAddress};
use simnet::cluster::{cluster_registry, loopback_addresses, NodeOpts};
use simnet::error::NodeError;
use simnet::fabric::{handed_over, reply_outcome, Fabric, Registry, Step};
use simnet::request::{get_request, post_request, rpc_request, Method, Rpc};
use simnet::solver::{meets_difficulty, solution_nonce, Puzzle, Search, Solver};

fn addr(a: u8, b: u8, c: u8, d: u8, port: u16) -> PeerAddress {
    PeerAddress { ip: Ipv4 { a, b, c, d }, port }
}

#[test]
fn loopback_address_and_origin() {
    let a = PeerAddress::loopback(3030);
    assert_eq!(a, addr(127, 0, 0, 1, 3030));
    assert_eq!(a.origin(), b"http://127.0.0.1:3030".to_vec());
}

#[test]
fn target_with_and_without_query() {
    let a = PeerAddress::loopback(8765);
    assert_eq!(target(a, b"stats", Some(b"")), b"http://127.0.0.1:8765/stats?".to_vec());
    assert_eq!(target(a, b"miner", None), b"http://127.0.0.1:8765/miner".to_vec());
    assert_eq!(
        target(addr(10, 200, 3, 255, 0), b"peers", Some(b"x=1")),
        b"http://10.200.3.255:0/peers?x=1".to_vec()
    );
}

#[test]
fn destination_read_back_from_target() {
    let a = addr(192, 168, 0, 17, 65535);
    let t = target(a, b"miner/puzzle", Some(b""));
    assert_eq!(destination_of(&t), Some(a));
    assert_eq!(destination_of(b"http://127.0.0.1:80"), Some(addr(127, 0, 0, 1, 80)));
    assert_eq!(destination_of(b"http://1.2.3.4:5?q"), Some(addr(1, 2, 3, 4, 5)));
}

#[test]
fn malformed_targets_name_no_destination() {
    assert_eq!(destination_of(b""), None);
    assert_eq!(destination_of(b"https://127.0.0.1:80/"), None);
    assert_eq!(destination_of(b"http://127.0.0.1/stats"), None);
    assert_eq!(destination_of(b"http://127.0.0.1:65536/"), None);
    assert_eq!(destination_of(b"http://256.0.0.1:80/"), None);
    assert_eq!(destination_of(b"http://127.0.0.01:80/"), None);
    assert_eq!(destination_of(b"http://127.0.0:80/"), None);
    assert_eq!(destination_of(b"http://127.0.0.1:80x"), None);
}

#[test]
fn registry_lookup_prefers_last_entry() {
    let r = Registry::new(vec![
        PeerAddress::loopback(1),
        PeerAddress::loopback(2),
        PeerAddress::loopback(1),
    ]);
    assert_eq!(r.len(), 3);
    assert_eq!(r.lookup(PeerAddress::loopback(1)), Some(2));
    assert_eq!(r.lookup(PeerAddress::loopback(2)), Some(1));
    assert_eq!(r.lookup(PeerAddress::loopback(3)), None);
    assert_eq!(r.address(1), PeerAddress::loopback(2));
}

#[test]
fn disabled_switch_drops_every_request() {
    let reg = cluster_registry(&[3000, 3001]);
    let mut f = Fabric::new();
    let t = target(PeerAddress::loopback(3001), b"stats", Some(b""));
    assert_eq!(f.on_request(false, &reg, &t), Step::Drop);
    assert_eq!(f.next_ticket, 0);
    assert_eq!(f.awaiting, None);
    let dropped: Option<Result<u32, NodeError>> = None;
    assert_eq!(reply_outcome(dropped), Err(NodeError::NotAnsweringError));
}

#[test]
fn unknown_destination_halts_fabric() {
    let reg = cluster_registry(&[3000, 3001]);
    let mut f = Fabric::new();
    let t = target(PeerAddress::loopback(4000), b"peers", Some(b""));
    assert_eq!(
        f.on_request(true, &reg, &t),
        Step::Halt(NodeError::NotListeningError)
    );
    assert_eq!(
        f.on_request(true, &reg, b"not a target"),
        Step::Halt(NodeError::NotListeningError)
    );
    assert_eq!(f.awaiting, None);
}

#[test]
fn replies_reach_their_own_request() {
    let reg = cluster_registry(&[3000, 3001, 3002]);
    let mut f = Fabric::new();
    let t = target(PeerAddress::loopback(3002), b"stats", Some(b""));
    assert_eq!(
        f.on_request(true, &reg, &t),
        Step::Deliver { dest: 2, to: PeerAddress::loopback(3002), ticket: 0 }
    );
    assert_eq!(f.awaiting, Some(0));
    assert_eq!(f.on_reply(7, Some(Ok::<u32, NodeError>(5))), None);
    assert_eq!(f.awaiting, Some(0));
    assert_eq!(f.on_reply(0, Some(Ok::<u32, NodeError>(42))), Some(Ok(42)));
    assert_eq!(f.awaiting, None);
    let t2 = target(PeerAddress::loopback(3000), b"miner", None);
    assert_eq!(
        f.on_request(true, &reg, &t2),
        Step::Deliver { dest: 0, to: PeerAddress::loopback(3000), ticket: 1 }
    );
    let closed: Option<Result<u32, NodeError>> = None;
    assert_eq!(f.on_reply(1, closed), Some(Err(NodeError::NotAnsweringError)));
}

#[test]
fn handing_over_to_closed_queue_fails() {
    assert_eq!(handed_over(true), Ok(()));
    assert_eq!(handed_over(false), Err(NodeError::NotListeningError));
}

#[test]
fn solution_nonce_is_little_endian_hex() {
    assert_eq!(solution_nonce(0), "0000000000000000");
    assert_eq!(solution_nonce(1), "0100000000000000");
    assert_eq!(solution_nonce(0x0102_0304_a0b0_c0d0), "d0c0b0a004030201");
}

#[test]
fn difficulty_threshold_comparison() {
    // zero leading bytes, threshold ff ff ff 00 ...
    let easy = 0x00ff_ffffu32;
    assert!(meets_difficulty(&[0u8; 32], easy));
    assert!(!meets_difficulty(&[0xffu8; 32], easy));
    let mut at = [0u8; 32];
    at[0] = 0xff;
    at[1] = 0xff;
    at[2] = 0xff;
    assert!(meets_difficulty(&at, easy));
    at[3] = 1;
    assert!(!meets_difficulty(&at, easy));
    // two leading zero bytes, threshold 00 00 12 34 56 00 ...
    let hard = 0x0212_3456u32;
    let mut d = [0u8; 32];
    d[2] = 0x12;
    d[3] = 0x34;
    d[4] = 0x55;
    d[5] = 0xff;
    assert!(meets_difficulty(&d, hard));
    d[4] = 0x57;
    assert!(!meets_difficulty(&d, hard));
    d[1] = 1;
    d[4] = 0;
    assert!(!meets_difficulty(&d, hard));
}

fn puzzle(key: &str, blob: &str, offset: usize, size: usize, target: u32) -> Puzzle {
    Puzzle { key: key.to_string(), blob: blob.to_string(), offset, size, target }
}

#[test]
fn unsolvable_puzzles_are_refused() {
    let blob = "00112233445566778899aabb";
    assert!(Solver::new(&puzzle("zz", blob, 0, 8, 0x00ff_ffff)).is_none());
    assert!(Solver::new(&puzzle("abc", blob, 0, 8, 0x00ff_ffff)).is_none());
    assert!(Solver::new(&puzzle("ab", "0g", 0, 8, 0x00ff_ffff)).is_none());
    assert!(Solver::new(&puzzle("ab", blob, 0, 4, 0x00ff_ffff)).is_none());
    assert!(Solver::new(&puzzle("ab", blob, 5, 8, 0x00ff_ffff)).is_none());
    assert!(Solver::new(&puzzle("ab", blob, 0, 8, 0x1eff_ffff)).is_none());
    assert!(Solver::new(&puzzle("ab", blob, 4, 8, 0x1dff_ffff)).is_some());
}

#[test]
fn solver_embeds_nonce_and_advances() {
    let p = puzzle("0A0b", "00112233445566778899AABB", 2, 8, 0x00ff_ffff);
    let mut s = Solver::new(&p).unwrap();
    assert_eq!(s.key, vec![0x0a, 0x0b]);
    assert_eq!(s.nonce, 0);
    assert_eq!(s.blob, vec![0x00, 0x11, 0, 0, 0, 0, 0, 0, 0, 0, 0xaa, 0xbb]);
    assert_eq!(s.step(&[0xffu8; 32]), Search::Next);
    assert_eq!(s.nonce, 1);
    assert_eq!(s.blob, vec![0x00, 0x11, 1, 0, 0, 0, 0, 0, 0, 0, 0xaa, 0xbb]);
    for _ in 0..254 {
        assert_eq!(s.step(&[0xffu8; 32]), Search::Next);
    }
    assert_eq!(s.blob, vec![0x00, 0x11, 0xff, 0, 0, 0, 0, 0, 0, 0, 0xaa, 0xbb]);
    assert_eq!(s.step(&[0xffu8; 32]), Search::Next);
    assert_eq!(s.blob, vec![0x00, 0x11, 0, 1, 0, 0, 0, 0, 0, 0, 0xaa, 0xbb]);
    assert_eq!(s.step(&[0u8; 32]), Search::Found(256));
    assert_eq!(s.nonce, 256);
}

#[test]
fn met_target_at_first_candidate_gives_nonce_zero() {
    let p = puzzle("", "0000000000000000", 0, 8, 0x00ff_ffff);
    let mut s = Solver::new(&p).unwrap();
    assert_eq!(s.step(&[0u8; 32]), Search::Found(0));
    assert_eq!(solution_nonce(0), "0000000000000000");
    // the same puzzle and digests give the same nonce
    let mut again = Solver::new(&p).unwrap();
    assert_eq!(again.step(&[0u8; 32]), Search::Found(0));
}

#[test]
fn requests_are_framed_per_call() {
    let peer = PeerAddress::loopback(3031);
    let g = get_request(peer, b"stats", b"");
    assert_eq!(g.method, Method::Get);
    assert_eq!(g.target, b"http://127.0.0.1:3031/stats?".to_vec());
    assert!(!g.json_body);
    assert!(g.body.is_empty());
    let p = post_request(peer, b"shutdown", b"{}".to_vec());
    assert_eq!(p.method, Method::Post);
    assert_eq!(p.target, b"http://127.0.0.1:3031/shutdown".to_vec());
    assert!(p.json_body);
    assert_eq!(p.body, b"{}".to_vec());
    let m = rpc_request(peer, Rpc::SetMiner, br#"{"webhook":"http://x"}"#.to_vec());
    assert_eq!(m.method, Method::Post);
    assert_eq!(m.target, b"http://127.0.0.1:3031/miner".to_vec());
    assert_eq!(m.body, br#"{"webhook":"http://x"}"#.to_vec());
    let z = rpc_request(peer, Rpc::MinerPuzzle, Vec::new());
    assert_eq!(z.method, Method::Get);
    assert_eq!(z.target, b"http://127.0.0.1:3031/miner/puzzle?".to_vec());
    let s = rpc_request(peer, Rpc::MinerSolution, b"{}".to_vec());
    assert_eq!(s.target, b"http://127.0.0.1:3031/miner/solution".to_vec());
    assert_eq!(Rpc::Peers.path(), b"peers".to_vec());
    assert_eq!(Rpc::Shutdown.method(), Method::Post);
}

#[test]
fn rpc_target_routes_to_its_node() {
    let reg = cluster_registry(&[4000, 4001]);
    let mut f = Fabric::new();
    let m = rpc_request(PeerAddress::loopback(4001), Rpc::SetMiner, b"{}".to_vec());
    assert_eq!(
        f.on_request(true, &reg, &m.target),
        Step::Deliver { dest: 1, to: PeerAddress::loopback(4001), ticket: 0 }
    );
    let body = "{\"success\":true}".to_string();
    assert_eq!(f.on_reply(0, Some(Ok::<String, NodeError>(body.clone()))), Some(Ok(body)));
}

#[test]
fn node_options_give_loopback_addresses() {
    let opts: NodeOpts<(), ()> = NodeOpts {
        genesis: (),
        wallet: None,
        addr: 3032,
        bootstrap: vec![3030, 3031],
        timestamp_offset: 5,
    };
    assert_eq!(opts.address(), PeerAddress::loopback(3032));
    assert_eq!(
        opts.bootstrap_addresses(),
        vec![PeerAddress::loopback(3030), PeerAddress::loopback(3031)]
    );
    assert_eq!(loopback_addresses(&[]), Vec::<PeerAddress>::new());
    let reg = cluster_registry(&[3030, 3031, 3032]);
    assert_eq!(reg.lookup(PeerAddress::loopback(3031)), Some(1));
}
