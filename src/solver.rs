use vstd::prelude::*;

use crate::hexcode::{decode_hex, encode_hex, hex_of, unhex};

verus! {

/// A proof-of-work challenge as a node hands it out: hex key, hex blob, the
/// place of the nonce field in the blob, and the difficulty target.
#[derive(Debug)]
pub struct Puzzle {
    pub key: String,
    pub blob: String,
    pub offset: usize,
    pub size: usize,
    pub target: u32,
}

/// Byte `i` (0 to 7) of `n` in little-endian order.
pub open spec fn le_byte(n: u64, i: int) -> u8 {
    ((n >> (8 * i) as u64) & 0xff) as u8
}

/// The eight little-endian bytes of `n`.
pub open spec fn le_bytes(n: u64) -> Seq<u8> {
    Seq::new(8, |i: int| le_byte(n, i))
}

/// `blob` with the nonce field at `offset` overwritten by the little-endian
/// bytes of `nonce`.
pub open spec fn embed(blob: Seq<u8>, offset: int, nonce: u64) -> Seq<u8> {
    Seq::new(
        blob.len(),
        |j: int|
            if offset <= j < offset + 8 {
                le_byte(nonce, j - offset)
            } else {
                blob[j]
            },
    )
}

/// The number of leading zero bytes that the target `d` asks for.
pub open spec fn target_zeros(d: u32) -> int {
    (d >> 24) as int
}

/// Byte `i` of the 32-byte threshold of `d`: zero but for the three bytes
/// from `target_zeros(d)` on, which hold the low 24 bits of `d` big-endian.
pub open spec fn threshold_byte(d: u32, i: int) -> u8 {
    let z = target_zeros(d);
    if z <= i < z + 3 {
        (((d & 0xffffff) >> (8 * (2 - (i - z))) as u32) & 0xff) as u8
    } else {
        0
    }
}

/// `digest` meets the target `d`: compared byte by byte with the threshold,
/// over the shorter of the two lengths, it is not greater.
pub open spec fn meets(digest: Seq<u8>, d: u32) -> bool {
    let n = if digest.len() < 32 { digest.len() as int } else { 32 };
    (forall|j: int| 0 <= j < n ==> digest[j] == threshold_byte(d, j)) || exists|k: int|
        0 <= k < n && digest[k] < threshold_byte(d, k) && forall|j: int|
            0 <= j < k ==> digest[j] == threshold_byte(d, j)
}

fn threshold_at(d: u32, i: usize) -> (r: u8)
    requires
        i < 32,
        target_zeros(d) <= 29,
    ensures
        r == threshold_byte(d, i as int),
{
    let z = (d >> 24) as usize;
    if z <= i && i < z + 3 {
        #[verifier::truncate] ((((d & 0xffffff) >> (8 * (2 - (i - z))) as u32) & 0xff) as u8)
    } else {
        0
    }
}

/// Whether `digest` meets the difficulty target `d`.
pub fn meets_difficulty(digest: &[u8], d: u32) -> (r: bool)
    requires
        target_zeros(d) <= 29,
    ensures
        r == meets(digest@, d),
{
    let n: usize = if digest.len() < 32 { digest.len() } else { 32 };
    let mut i: usize = 0;
    while i < n
        invariant
            i <= n,
            n == (if digest@.len() < 32 { digest@.len() as int } else { 32 }),
            target_zeros(d) <= 29,
            forall|j: int| 0 <= j < i ==> digest@[j] == threshold_byte(d, j),
        decreases n - i,
    {
        let b = threshold_at(d, i);
        if digest[i] > b {
            proof {
                assert forall|k: int|
                    0 <= k < n && digest@[k] < threshold_byte(d, k) implies !(forall|j: int|
                    0 <= j < k ==> digest@[j] == threshold_byte(d, j)) by {
                    if k > i {
                        assert(digest@[i as int] != threshold_byte(d, i as int));
                    }
                }
                assert(digest@[i as int] != threshold_byte(d, i as int));
            }
            return false;
        }
        if digest[i] < b {
            return true;
        }
        i = i + 1;
    }
    true
}

/// What one step of the search decided.
#[derive(Clone, Copy, Debug, PartialEq, Eq, Structural)]
pub enum Search {
    /// The candidate's digest meets the target: this nonce solves the puzzle.
    Found(u64),
    /// It does not: the next nonce is in place.
    Next,
    /// It does not, and every 64-bit nonce has been tried.
    Exhausted,
}

/// The brute-force search for a nonce. `blob` is the candidate to hash with
/// `key`: the decoded blob `base` with `nonce` in its nonce field.
pub struct Solver {
    pub key: Vec<u8>,
    pub blob: Vec<u8>,
    pub base: Ghost<Seq<u8>>,
    pub offset: usize,
    pub target: u32,
    pub nonce: u64,
}

/// The puzzle can be searched: its key and blob are hex, its nonce field is
/// eight bytes inside the blob, and its target's zero count leaves room for
/// the three threshold bytes.
pub open spec fn solvable(p: Puzzle) -> bool {
    &&& unhex(p.key@) is Some
    &&& unhex(p.blob@) is Some
    &&& p.size == 8
    &&& p.offset + 8 <= unhex(p.blob@).unwrap().len()
    &&& target_zeros(p.target) <= 29
}

/// What the search decides on the digest of the candidate with `nonce`.
pub open spec fn decide(nonce: u64, target: u32, digest: Seq<u8>) -> Search {
    if meets(digest, target) {
        Search::Found(nonce)
    } else if nonce == u64::MAX {
        Search::Exhausted
    } else {
        Search::Next
    }
}

/// `nonce` is the least one whose candidate's digest, under `hash`, meets
/// the target.
pub open spec fn least_solution(
    base: Seq<u8>,
    offset: int,
    target: u32,
    hash: spec_fn(Seq<u8>) -> Seq<u8>,
    nonce: u64,
) -> bool {
    &&& meets(hash(embed(base, offset, nonce)), target)
    &&& forall|m: u64| m < nonce ==> !meets(#[trigger] hash(embed(base, offset, m)), target)
}

/// The outcome of up to `k + 1` steps from `nonce` on, each fed the digest of
/// its candidate under `hash`.
pub open spec fn run(
    base: Seq<u8>,
    offset: int,
    target: u32,
    hash: spec_fn(Seq<u8>) -> Seq<u8>,
    nonce: u64,
    k: nat,
) -> Search
    decreases k,
{
    let r = decide(nonce, target, hash(embed(base, offset, nonce)));
    if k == 0 || r != Search::Next {
        r
    } else {
        run(base, offset, target, hash, (nonce + 1) as u64, (k - 1) as nat)
    }
}

proof fn lemma_run_from(
    base: Seq<u8>,
    offset: int,
    target: u32,
    hash: spec_fn(Seq<u8>) -> Seq<u8>,
    nonce: u64,
    k: nat,
    n: u64,
)
    requires
        forall|m: u64| m < nonce ==> !meets(#[trigger] hash(embed(base, offset, m)), target),
        run(base, offset, target, hash, nonce, k) == Search::Found(n),
    ensures
        least_solution(base, offset, target, hash, n),
    decreases k,
{
    let r = decide(nonce, target, hash(embed(base, offset, nonce)));
    if k == 0 || r != Search::Next {
    } else {
        assert forall|m: u64| m < (nonce + 1) as u64 implies !meets(
            #[trigger] hash(embed(base, offset, m)),
            target,
        ) by {
            if m < nonce {
            }
        }
        lemma_run_from(base, offset, target, hash, (nonce + 1) as u64, (k - 1) as nat, n);
    }
}

/// A search from nonce 0 that finds a nonce finds the least one whose
/// candidate, the blob with that nonce embedded, hashes to a digest that
/// meets the target.
pub proof fn lemma_search_finds_least(
    base: Seq<u8>,
    offset: int,
    target: u32,
    hash: spec_fn(Seq<u8>) -> Seq<u8>,
    k: nat,
    n: u64,
)
    requires
        run(base, offset, target, hash, 0, k) == Search::Found(n),
    ensures
        least_solution(base, offset, target, hash, n),
{
    lemma_run_from(base, offset, target, hash, 0, k, n);
}

/// Two searches of one puzzle under one hash that both find a nonce, after
/// however many steps, find the same nonce.
pub proof fn lemma_search_deterministic(
    base: Seq<u8>,
    offset: int,
    target: u32,
    hash: spec_fn(Seq<u8>) -> Seq<u8>,
    k1: nat,
    k2: nat,
    n1: u64,
    n2: u64,
)
    requires
        run(base, offset, target, hash, 0, k1) == Search::Found(n1),
        run(base, offset, target, hash, 0, k2) == Search::Found(n2),
    ensures
        n1 == n2,
{
    lemma_run_from(base, offset, target, hash, 0, k1, n1);
    lemma_run_from(base, offset, target, hash, 0, k2, n2);
    if n1 < n2 {
        assert(!meets(hash(embed(base, offset, n1)), target));
    } else if n2 < n1 {
        assert(!meets(hash(embed(base, offset, n2)), target));
    }
}

/// Where the candidate with nonce 0 already meets the target, the search
/// returns nonce 0 at once.
pub proof fn lemma_met_target_gives_zero(
    base: Seq<u8>,
    offset: int,
    target: u32,
    hash: spec_fn(Seq<u8>) -> Seq<u8>,
    k: nat,
)
    requires
        meets(hash(embed(base, offset, 0)), target),
    ensures
        run(base, offset, target, hash, 0, k) == Search::Found(0),
{
}

/// Writes the little-endian bytes of `nonce` into `blob` at `offset`.
fn write_nonce(blob: &mut Vec<u8>, offset: usize, nonce: u64, base: Ghost<Seq<u8>>)
    requires
        offset + 8 <= old(blob)@.len(),
        offset + 8 <= usize::MAX,
        old(blob)@.len() == base@.len(),
        forall|j: int|
            0 <= j < base@.len() && !(offset <= j < offset + 8) ==> old(blob)@[j] == base@[j],
    ensures
        final(blob)@ == embed(base@, offset as int, nonce),
{
    let mut i: usize = 0;
    while i < 8
        invariant
            i <= 8,
            offset + 8 <= blob@.len(),
            offset + 8 <= usize::MAX,
            blob@.len() == base@.len(),
            forall|j: int|
                0 <= j < base@.len() && !(offset <= j < offset + 8) ==> blob@[j] == base@[j],
            forall|j: int| offset <= j < offset + i ==> blob@[j] == le_byte(nonce, j - offset),
        decreases 8 - i,
    {
        blob.set(offset + i, #[verifier::truncate] (((nonce >> (8 * i) as u64) & 0xff) as u8));
        i = i + 1;
    }
    assert(blob@ =~= embed(base@, offset as int, nonce));
}

impl Solver {
    pub open spec fn wf(&self) -> bool {
        &&& self.offset + 8 <= self.base@.len() <= usize::MAX
        &&& self.blob@ == embed(self.base@, self.offset as int, self.nonce)
        &&& target_zeros(self.target) <= 29
    }

    /// Starts the search on `p` at nonce 0; none where `p` cannot be searched.
    pub fn new(p: &Puzzle) -> (r: Option<Solver>)
        ensures
            r is Some <==> solvable(*p),
            r matches Some(s) ==> {
                &&& s.wf()
                &&& Some(s.key@) == unhex(p.key@)
                &&& Some(s.base@) == unhex(p.blob@)
                &&& s.offset == p.offset
                &&& s.target == p.target
                &&& s.nonce == 0
            },
    {
        let key = match decode_hex(p.key.as_str()) {
            Some(k) => k,
            None => return None,
        };
        let mut blob = match decode_hex(p.blob.as_str()) {
            Some(b) => b,
            None => return None,
        };
        if p.size != 8 || blob.len() < 8 || p.offset > blob.len() - 8 || (p.target >> 24) > 29 {
            return None;
        }
        let base = Ghost(blob@);
        write_nonce(&mut blob, p.offset, 0, base);
        Some(Solver { key, blob, base, offset: p.offset, target: p.target, nonce: 0 })
    }

    /// Takes the digest of the current candidate `self.blob` under `self.key`
    /// and decides: the nonce solves the puzzle, or the next one is put in
    /// place.
    pub fn step(&mut self, digest: &[u8]) -> (r: Search)
        requires
            old(self).wf(),
        ensures
            final(self).wf(),
            r == decide(old(self).nonce, old(self).target, digest@),
            final(self).nonce == (if r == Search::Next {
                (old(self).nonce + 1) as u64
            } else {
                old(self).nonce
            }),
            final(self).key == old(self).key,
            final(self).base == old(self).base,
            final(self).offset == old(self).offset,
            final(self).target == old(self).target,
    {
        if meets_difficulty(digest, self.target) {
            return Search::Found(self.nonce);
        }
        if self.nonce == u64::MAX {
            return Search::Exhausted;
        }
        self.nonce = self.nonce + 1;
        write_nonce(&mut self.blob, self.offset, self.nonce, self.base);
        Search::Next
    }
}

/// The `nonce` field of a solution: the hex text of the nonce's
/// little-endian bytes.
pub fn solution_nonce(nonce: u64) -> (r: String)
    ensures
        r@ == hex_of(le_bytes(nonce)),
{
    let mut b: Vec<u8> = Vec::new();
    let mut i: usize = 0;
    while i < 8
        invariant
            i <= 8,
            b@ == le_bytes(nonce).subrange(0, i as int),
        decreases 8 - i,
    {
        b.push(#[verifier::truncate] (((nonce >> (8 * i) as u64) & 0xff) as u8));
        i = i + 1;
        assert(b@ =~= le_bytes(nonce).subrange(0, i as int));
    }
    assert(b@ =~= le_bytes(nonce));
    encode_hex(b.as_slice())
}

} // verus!
