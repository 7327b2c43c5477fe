//! Merkle proofs for elements of a sparse Merkle tree, their verification,
//! and the compact form in which placeholder sidenodes are elided and
//! recorded by a bitmask.

use vstd::prelude::*;

use crate::bit_at;
use crate::count_bits_upto;
use crate::count_set_bits;
use crate::get_bit_at_from_msb;
use crate::set_bit_at_from_msb;
use crate::tree_hasher::bytes_clone;
use crate::tree_hasher::bytes_eq;
use crate::tree_hasher::digest;
use crate::tree_hasher::digest_leaf;
use crate::tree_hasher::digest_leaf_hash;
use crate::tree_hasher::digest_node;
use crate::tree_hasher::is_placeholder;
use crate::tree_hasher::leaf_data_spec;
use crate::tree_hasher::leaf_hash_spec;
use crate::tree_hasher::node_data_spec;
use crate::tree_hasher::node_hash_spec;
use crate::tree_hasher::parse_leaf;
use crate::tree_hasher::parse_leaf_spec;
use crate::tree_hasher::path_of;
use crate::tree_hasher::placeholder;
use crate::tree_hasher::placeholder_spec;
use crate::tree_hasher::digest32_of;
use crate::views;
use crate::PATH_BITS;
use crate::PATH_SIZE;

verus! {

/// Returned when an invalid Merkle proof is supplied.
#[derive(Debug, Clone, Copy, PartialEq, Eq, Structural)]
pub struct BadProof;

/// The mathematical content of a Merkle proof.
pub ghost struct ProofModel {
    /// The sibling hashes leading up to the leaf of the proof, deepest first.
    pub side_nodes: Seq<Seq<u8>>,
    /// The serialized unrelated leaf standing at the position of the key, for
    /// a non-membership proof.
    pub non_membership_leaf_data: Option<Seq<u8>>,
    /// The serialized bytes of the bottom sibling, for updatable proofs.
    pub sibling_data: Option<Seq<u8>>,
}

/// A Merkle proof for an element in a sparse Merkle tree.
#[derive(Debug, Clone)]
pub struct SparseMerkleProof {
    side_nodes: Vec<Vec<u8>>,
    non_membership_leaf_data: Option<Vec<u8>>,
    sibling_data: Option<Vec<u8>>,
}

impl View for SparseMerkleProof {
    type V = ProofModel;

    closed spec fn view(&self) -> ProofModel {
        ProofModel {
            side_nodes: views(self.side_nodes@),
            non_membership_leaf_data: match self.non_membership_leaf_data {
                Some(d) => Some(d@),
                None => None,
            },
            sibling_data: match self.sibling_data {
                Some(d) => Some(d@),
                None => None,
            },
        }
    }
}

/// A proof passes the structural sanity check when its sidenode count is
/// bounded by the tree depth, every sidenode is digest-sized, any
/// non-membership leaf has the exact serialized-leaf length, and any sibling
/// bytes hash to the first sidenode.
pub open spec fn spec_sanity(p: ProofModel) -> bool {
    &&& p.side_nodes.len() <= PATH_BITS
    &&& match p.non_membership_leaf_data {
        Some(d) => d.len() == 1 + 2 * (PATH_SIZE as int),
        None => true,
    }
    &&& forall|i: int| 0 <= i < p.side_nodes.len() ==> (#[trigger] p.side_nodes[i]).len() == PATH_SIZE
    &&& (p.side_nodes.len() > 0 ==> match p.sibling_data {
        Some(sd) => digest32_of(sd) == p.side_nodes[0],
        None => true,
    })
}

/// Folds the sidenodes from `i` upward onto the running hash `h`: sidenode
/// `i` is combined at path bit `len - 1 - i`, on the side that bit selects.
pub open spec fn replay_from(path: Seq<u8>, sides: Seq<Seq<u8>>, i: int, h: Seq<u8>) -> Seq<u8>
    decreases sides.len() - i,
{
    if i < 0 || i >= sides.len() {
        h
    } else {
        let combined = if bit_at(path, sides.len() - 1 - i) {
            node_hash_spec(sides[i], h)
        } else {
            node_hash_spec(h, sides[i])
        };
        replay_from(path, sides, i + 1, combined)
    }
}

/// The hash the proof starts its replay from: the leaf hash of the claimed
/// value for a membership proof; for a non-membership proof, the hash of the
/// unrelated leaf, or the placeholder when the slot is empty.  `None` marks a
/// rejected non-membership proof whose unrelated leaf names the key itself.
pub open spec fn spec_start(p: ProofModel, path: Seq<u8>, value: Seq<u8>) -> Option<Seq<u8>> {
    if value.len() == 0 {
        match p.non_membership_leaf_data {
            Some(d) => {
                let (actual_path, value_hash) = parse_leaf_spec(d);
                if actual_path == path {
                    None
                } else {
                    Some(leaf_hash_spec(actual_path, value_hash))
                }
            },
            None => Some(placeholder_spec()),
        }
    } else {
        Some(leaf_hash_spec(path, digest32_of(value)))
    }
}

/// A proof verifies against a root, key and value when it is sane, its
/// starting hash is accepted, and replaying the sidenodes along the key's
/// path reproduces the root.
pub open spec fn spec_verify(p: ProofModel, root: Seq<u8>, key: Seq<u8>, value: Seq<u8>) -> bool {
    let path = digest32_of(key);
    &&& spec_sanity(p)
    &&& match spec_start(p, path, value) {
        None => false,
        Some(h0) => replay_from(path, p.side_nodes, 0, h0) == root,
    }
}

/// A proof pins a single root for a given key and value: the replayed hash
/// is a function of the proof, the key and the value alone, so a proof that
/// verifies against two roots shows them equal — equivalently, against any
/// root but the right one it fails.
pub proof fn lemma_verify_single_root(
    p: ProofModel,
    r1: Seq<u8>,
    r2: Seq<u8>,
    key: Seq<u8>,
    value: Seq<u8>,
)
    requires
        spec_verify(p, r1, key, value),
        spec_verify(p, r2, key, value),
    ensures
        r1 == r2,
{
}

/// The node-store entries hashed while replaying the sidenodes from `i`
/// upward onto `h`: one `(hash, serialized bytes)` pair per level.
pub open spec fn replay_updates_from(path: Seq<u8>, sides: Seq<Seq<u8>>, i: int, h: Seq<u8>) -> Seq<
    (Seq<u8>, Seq<u8>),
>
    decreases sides.len() - i,
{
    if i < 0 || i >= sides.len() {
        Seq::empty()
    } else {
        let (ch, cd) = if bit_at(path, sides.len() - 1 - i) {
            (node_hash_spec(sides[i], h), node_data_spec(sides[i], h))
        } else {
            (node_hash_spec(h, sides[i]), node_data_spec(h, sides[i]))
        };
        seq![(ch, cd)] + replay_updates_from(path, sides, i + 1, ch)
    }
}

/// The entries recorded at the start of a replay: the reconstructed leaf,
/// when the proof commits to one.
pub open spec fn spec_start_updates(p: ProofModel, path: Seq<u8>, value: Seq<u8>) -> Seq<
    (Seq<u8>, Seq<u8>),
> {
    if value.len() == 0 {
        match p.non_membership_leaf_data {
            Some(d) => {
                let (actual_path, value_hash) = parse_leaf_spec(d);
                seq![
                    (
                        leaf_hash_spec(actual_path, value_hash),
                        leaf_data_spec(actual_path, value_hash),
                    ),
                ]
            },
            None => Seq::empty(),
        }
    } else {
        seq![(leaf_hash_spec(path, digest32_of(value)), leaf_data_spec(path, digest32_of(value)))]
    }
}

/// All node-store entries hashed while verifying a proof, bottom-up: what a
/// verifier must add to a node store to materialize the proven branch.
pub open spec fn spec_updates(p: ProofModel, key: Seq<u8>, value: Seq<u8>) -> Seq<
    (Seq<u8>, Seq<u8>),
> {
    let path = digest32_of(key);
    match spec_start(p, path, value) {
        None => Seq::empty(),
        Some(h0) => spec_start_updates(p, path, value) + replay_updates_from(
            path,
            p.side_nodes,
            0,
            h0,
        ),
    }
}

impl SparseMerkleProof {
    /// Creates a new proof from its parts.
    pub fn new(
        side_nodes: Vec<Vec<u8>>,
        non_membership_leaf_data: Option<Vec<u8>>,
        sibling_data: Option<Vec<u8>>,
    ) -> (r: Self)
        ensures
            r@.side_nodes == views(side_nodes@),
            r@.non_membership_leaf_data == match non_membership_leaf_data {
                Some(d) => Some(d@),
                None => None::<Seq<u8>>,
            },
            r@.sibling_data == match sibling_data {
                Some(d) => Some(d@),
                None => None::<Seq<u8>>,
            },
    {
        SparseMerkleProof { side_nodes, non_membership_leaf_data, sibling_data }
    }

    /// The sibling data carried for updatable proofs.
    pub fn sibling_data(&self) -> (r: &Option<Vec<u8>>)
        ensures
            self@.sibling_data == match *r {
                Some(d) => Some(d@),
                None => None::<Seq<u8>>,
            },
    {
        &self.sibling_data
    }

    /// The unrelated-leaf data carried for non-membership proofs.
    pub fn non_membership_leaf_data(&self) -> (r: &Option<Vec<u8>>)
        ensures
            self@.non_membership_leaf_data == match *r {
                Some(d) => Some(d@),
                None => None::<Seq<u8>>,
            },
    {
        &self.non_membership_leaf_data
    }

    /// The sidenodes of this proof.
    pub fn side_nodes(&self) -> (r: &Vec<Vec<u8>>)
        ensures
            self@.side_nodes == views(r@),
    {
        &self.side_nodes
    }

    /// Checks the structural sanity of the proof, so that a malicious proof
    /// cannot cause out-of-range indexing or a CPU denial of service.
    pub fn sanity_check(&self) -> (r: bool)
        ensures
            r == spec_sanity(self@),
    {
        if self.side_nodes.len() > PATH_BITS {
            return false;
        }
        if let Some(nmld) = &self.non_membership_leaf_data {
            if nmld.len() != 1 + 2 * PATH_SIZE {
                return false;
            }
        }
        let num = self.side_nodes.len();
        for i in 0..num
            invariant
                num == self.side_nodes@.len(),
                forall|j: int| 0 <= j < i ==> (#[trigger] views(self.side_nodes@)[j]).len() == PATH_SIZE,
        {
            if self.side_nodes[i].len() != PATH_SIZE {
                proof {
                    assert(views(self.side_nodes@)[i as int].len() != PATH_SIZE);
                }
                return false;
            }
        }
        if self.side_nodes.is_empty() {
            return true;
        }
        match &self.sibling_data {
            Some(sibling_data) => {
                let sibling_hash = digest(sibling_data.as_slice());
                bytes_eq(self.side_nodes[0].as_slice(), sibling_hash.as_slice())
            },
            None => true,
        }
    }

    /// Verifies the proof against a claimed root, for the given key and
    /// value; an empty value asserts non-membership of the key.
    pub fn verify(&self, root: &[u8], key: &[u8], value: &[u8]) -> (r: bool)
        ensures
            r == spec_verify(self@, root@, key@, value@),
    {
        let path = path_of(key);
        if !self.sanity_check() {
            return false;
        }
        let mut current_hash: Vec<u8>;
        if value.len() == 0 {
            match &self.non_membership_leaf_data {
                Some(data) => {
                    let (actual_path, value_hash) = parse_leaf(data.as_slice());
                    if bytes_eq(actual_path.as_slice(), path.as_slice()) {
                        return false;
                    }
                    current_hash = digest_leaf_hash(actual_path.as_slice(), value_hash.as_slice());
                },
                None => {
                    current_hash = placeholder();
                },
            }
        } else {
            let value_hash = digest(value);
            current_hash = digest_leaf_hash(path.as_slice(), value_hash.as_slice());
        }
        let ghost h0 = current_hash@;
        let ghost sides = self@.side_nodes;
        let num = self.side_nodes.len();
        for idx in 0..num
            invariant
                num == self.side_nodes@.len(),
                num <= 256,
                sides == self@.side_nodes,
                path@.len() == 32,
                forall|j: int| 0 <= j < num ==> (#[trigger] sides[j]).len() == PATH_SIZE,
                replay_from(path@, sides, idx as int, current_hash@) == replay_from(
                    path@,
                    sides,
                    0,
                    h0,
                ),
        {
            let side = &self.side_nodes[idx];
            proof {
                assert(sides[idx as int] == side@);
            }
            if get_bit_at_from_msb(path.as_slice(), num - 1 - idx) == 1 {
                let (h, _) = digest_node(side.as_slice(), current_hash.as_slice());
                current_hash = h;
            } else {
                let (h, _) = digest_node(current_hash.as_slice(), side.as_slice());
                current_hash = h;
            }
        }
        bytes_eq(current_hash.as_slice(), root)
    }

    /// Verifies the proof and also returns every node-store entry hashed
    /// along the way, so a caller can materialize the proven branch.
    pub(crate) fn verify_proof_with_updates(&self, root: &[u8], key: &[u8], value: &[u8]) -> (r: (
        bool,
        Vec<(Vec<u8>, Vec<u8>)>,
    ))
        ensures
            r.0 == spec_verify(self@, root@, key@, value@),
            r.0 ==> pairs_views(r.1@) == spec_updates(self@, key@, value@),
    {
        let path = path_of(key);
        if !self.sanity_check() {
            return (false, Vec::new());
        }
        let mut updates: Vec<(Vec<u8>, Vec<u8>)> = Vec::new();
        let mut current_hash: Vec<u8>;
        if value.len() == 0 {
            match &self.non_membership_leaf_data {
                Some(data) => {
                    let (actual_path, value_hash) = parse_leaf(data.as_slice());
                    if bytes_eq(actual_path.as_slice(), path.as_slice()) {
                        return (false, Vec::new());
                    }
                    let (hash, data) = digest_leaf(actual_path.as_slice(), value_hash.as_slice());
                    current_hash = bytes_clone(&hash);
                    updates.push((hash, data));
                },
                None => {
                    current_hash = placeholder();
                },
            }
        } else {
            let value_hash = digest(value);
            let (hash, data) = digest_leaf(path.as_slice(), value_hash.as_slice());
            current_hash = bytes_clone(&hash);
            updates.push((hash, data));
        }
        proof {
            assert(pairs_views(updates@) =~= spec_start_updates(self@, path@, value@));
        }
        let ghost h0 = current_hash@;
        let ghost start_ups = pairs_views(updates@);
        let ghost sides = self@.side_nodes;
        let num = self.side_nodes.len();
        for idx in 0..num
            invariant
                num == self.side_nodes@.len(),
                num <= 256,
                sides == self@.side_nodes,
                path@.len() == 32,
                forall|j: int| 0 <= j < num ==> (#[trigger] sides[j]).len() == PATH_SIZE,
                replay_from(path@, sides, idx as int, current_hash@) == replay_from(
                    path@,
                    sides,
                    0,
                    h0,
                ),
                pairs_views(updates@) + replay_updates_from(path@, sides, idx as int, current_hash@)
                    =~= start_ups + replay_updates_from(path@, sides, 0, h0),
        {
            let side = &self.side_nodes[idx];
            proof {
                assert(sides[idx as int] == side@);
            }
            let ghost pre_ups = pairs_views(updates@);
            if get_bit_at_from_msb(path.as_slice(), num - 1 - idx) == 1 {
                let (hash, data) = digest_node(side.as_slice(), current_hash.as_slice());
                current_hash = bytes_clone(&hash);
                updates.push((hash, data));
            } else {
                let (hash, data) = digest_node(current_hash.as_slice(), side.as_slice());
                current_hash = bytes_clone(&hash);
                updates.push((hash, data));
            }
            proof {
                assert(pairs_views(updates@) =~= pre_ups.push(
                    (current_hash@, updates@.last().1@),
                ));
            }
        }
        let ok = bytes_eq(current_hash.as_slice(), root);
        (ok, updates)
    }
}

/// The sequence of view pairs of a sequence of byte-vector pairs.
pub open spec fn pairs_views(s: Seq<(Vec<u8>, Vec<u8>)>) -> Seq<(Seq<u8>, Seq<u8>)> {
    s.map_values(|p: (Vec<u8>, Vec<u8>)| (p.0@, p.1@))
}

/// The mathematical content of a compact Merkle proof.
pub ghost struct CompactModel {
    /// The non-placeholder sidenodes, deepest first.
    pub side_nodes: Seq<Seq<u8>>,
    /// The serialized unrelated leaf for a non-membership proof.
    pub non_membership_leaf_data: Option<Seq<u8>>,
    /// One bit per original sidenode; a set bit marks an elided placeholder.
    pub bitmask: Seq<u8>,
    /// The number of sidenodes of the original proof.
    pub num_side_nodes: int,
    /// The serialized bytes of the bottom sibling, for updatable proofs.
    pub sibling_data: Option<Seq<u8>>,
}

/// A compact Merkle proof: placeholder sidenodes are dropped and recorded in
/// a bitmask instead.
#[derive(Debug, Clone)]
pub struct SparseCompactMerkleProof {
    side_nodes: Vec<Vec<u8>>,
    non_membership_leaf_data: Option<Vec<u8>>,
    bitmask: Vec<u8>,
    num_side_nodes: usize,
    sibling_data: Option<Vec<u8>>,
}

impl View for SparseCompactMerkleProof {
    type V = CompactModel;

    closed spec fn view(&self) -> CompactModel {
        CompactModel {
            side_nodes: views(self.side_nodes@),
            non_membership_leaf_data: match self.non_membership_leaf_data {
                Some(d) => Some(d@),
                None => None,
            },
            bitmask: self.bitmask@,
            num_side_nodes: self.num_side_nodes as int,
            sibling_data: match self.sibling_data {
                Some(d) => Some(d@),
                None => None,
            },
        }
    }
}

/// Keeps a sidenode in the compact form iff it is not the placeholder.
pub open spec fn keep_side(s: Seq<u8>) -> bool {
    s != placeholder_spec()
}

/// The non-placeholder sidenodes of a proof, in order: what its compact form
/// stores.
pub open spec fn compacted_sides(s: Seq<Seq<u8>>) -> Seq<Seq<u8>>
    decreases s.len(),
{
    if s.len() == 0 {
        Seq::empty()
    } else {
        let rest = compacted_sides(s.drop_last());
        if keep_side(s.last()) {
            rest.push(s.last())
        } else {
            rest
        }
    }
}

/// How a compact proof relates to the full proof it was made from: the count
/// and the leaf and sibling data carry over, the bitmask has exactly one set
/// bit per placeholder sidenode and no others, and the kept sidenodes are the
/// non-placeholder ones in order.
pub open spec fn compact_rel(p: ProofModel, c: CompactModel) -> bool {
    let n = p.side_nodes.len() as int;
    &&& c.num_side_nodes == n
    &&& c.non_membership_leaf_data == p.non_membership_leaf_data
    &&& c.sibling_data == p.sibling_data
    &&& c.bitmask.len() == (n + 7) / 8
    &&& forall|i: int|
        0 <= i < n ==> bit_at(c.bitmask, i) == !keep_side(#[trigger] p.side_nodes[i])
    &&& forall|i: int| n <= i < 8 * c.bitmask.len() ==> !bit_at(c.bitmask, i)
    &&& c.side_nodes == compacted_sides(p.side_nodes)
}

/// Structural sanity of a compact proof: the recorded count is within the
/// tree depth, the bitmask has exactly one byte per eight recorded sidenodes,
/// and the number of kept sidenodes matches the unset bits.
pub open spec fn spec_compact_sanity(c: CompactModel) -> bool {
    &&& c.num_side_nodes <= PATH_BITS
    &&& c.bitmask.len() == (c.num_side_nodes + 7) / 8
    &&& (c.num_side_nodes > 0 ==> c.side_nodes.len() == c.num_side_nodes - count_bits_upto(
        c.bitmask,
        8 * (c.bitmask.len() as int),
    ))
}

/// The full proof a compact proof decompacts to: the original sidenode list
/// is rebuilt by emitting the placeholder at each set bit and consuming the
/// next kept sidenode at each unset bit.  `None` when the sanity check fails
/// or the kept sidenodes run out or are left over.
pub open spec fn spec_decompact(c: CompactModel) -> Option<ProofModel> {
    if !spec_compact_sanity(c) {
        None
    } else if c.num_side_nodes - count_bits_upto(c.bitmask, c.num_side_nodes)
        != c.side_nodes.len() {
        None
    } else {
        Some(
            ProofModel {
                side_nodes: Seq::new(
                    c.num_side_nodes as nat,
                    |i: int|
                        if bit_at(c.bitmask, i) {
                            placeholder_spec()
                        } else {
                            c.side_nodes[i - count_bits_upto(c.bitmask, i)]
                        },
                ),
                non_membership_leaf_data: c.non_membership_leaf_data,
                sibling_data: c.sibling_data,
            },
        )
    }
}

/// What verifying a compact proof means: decompact it and verify the result;
/// a proof that fails to decompact verifies nothing.
pub open spec fn spec_compact_verify(
    c: CompactModel,
    root: Seq<u8>,
    key: Seq<u8>,
    value: Seq<u8>,
) -> bool {
    match spec_decompact(c) {
        Some(p) => spec_verify(p, root, key, value),
        None => false,
    }
}

proof fn lemma_zero_bits()
    ensures
        forall|k: int| 0 <= k < 8 ==> !byte_bit(0u8, k),
{
    assert(forall|sh: u8| 0u8 & (1u8 << sh) == 0) by (bit_vector);
}

fn zeros(n: usize) -> (r: Vec<u8>)
    ensures
        r@.len() == n,
        forall|j: int| 0 <= j < 8 * (n as int) ==> !bit_at(r@, j),
{
    let mut r: Vec<u8> = Vec::new();
    for i in 0..n
        invariant
            r@.len() == i,
            forall|j: int| 0 <= j < i ==> r@[j] == 0u8,
    {
        r.push(0);
    }
    proof {
        lemma_zero_bits();
    }
    r
}

fn opt_bytes_clone(o: &Option<Vec<u8>>) -> (r: Option<Vec<u8>>)
    ensures
        match (o, &r) {
            (Some(a), Some(b)) => a@ == b@,
            (None, None) => true,
            _ => false,
        },
{
    match o {
        Some(v) => Some(bytes_clone(v)),
        None => None,
    }
}

use crate::byte_bit;

impl SparseMerkleProof {
    /// Compacts the proof, eliding placeholder sidenodes into a bitmask; a
    /// proof that fails the sanity check is rejected.
    pub fn compact(&self) -> (r: Result<SparseCompactMerkleProof, BadProof>)
        ensures
            match r {
                Ok(c) => spec_sanity(self@) && compact_rel(self@, c@),
                Err(_) => !spec_sanity(self@),
            },
    {
        if !self.sanity_check() {
            return Err(BadProof);
        }
        let num = self.side_nodes.len();
        let mut bit_mask = zeros((num + 7) / 8);
        let mut compacted: Vec<Vec<u8>> = Vec::new();
        let ghost sides = self@.side_nodes;
        let ghost mlen = bit_mask@.len() as int;
        for i in 0..num
            invariant
                num == self.side_nodes@.len(),
                num <= 256,
                sides == self@.side_nodes,
                bit_mask@.len() == mlen == (num + 7) / 8,
                forall|j: int| 0 <= j < i ==> bit_at(bit_mask@, j) == !keep_side(#[trigger] sides[j]),
                forall|j: int| i <= j < 8 * mlen ==> !bit_at(bit_mask@, j),
                views(compacted@) == compacted_sides(sides.take(i as int)),
        {
            let ghost pre = views(compacted@);
            proof {
                assert(sides.take(i + 1).drop_last() =~= sides.take(i as int));
                assert(sides.take(i + 1).last() == sides[i as int]);
            }
            if is_placeholder(self.side_nodes[i].as_slice()) {
                set_bit_at_from_msb(&mut bit_mask, i);
                proof {
                    assert(views(compacted@) == compacted_sides(sides.take(i + 1)));
                }
            } else {
                compacted.push(bytes_clone(&self.side_nodes[i]));
                proof {
                    assert(views(compacted@) =~= pre.push(sides[i as int]));
                    assert(views(compacted@) == compacted_sides(sides.take(i + 1)));
                }
            }
        }
        proof {
            assert(sides.take(num as int) =~= sides);
        }
        Ok(
            SparseCompactMerkleProof {
                side_nodes: compacted,
                non_membership_leaf_data: opt_bytes_clone(&self.non_membership_leaf_data),
                bitmask: bit_mask,
                num_side_nodes: num,
                sibling_data: opt_bytes_clone(&self.sibling_data),
            },
        )
    }

    /// Compacts the proof, consuming it.
    pub fn compact_into(self) -> (r: Result<SparseCompactMerkleProof, BadProof>)
        ensures
            match r {
                Ok(c) => spec_sanity(self@) && compact_rel(self@, c@),
                Err(_) => !spec_sanity(self@),
            },
    {
        self.compact()
    }
}

impl SparseCompactMerkleProof {
    /// Creates a new compact proof from its parts.
    pub fn new(
        side_nodes: Vec<Vec<u8>>,
        non_membership_leaf_data: Option<Vec<u8>>,
        bitmask: Vec<u8>,
        num_side_nodes: usize,
        sibling_data: Option<Vec<u8>>,
    ) -> (r: Self)
        ensures
            r@.side_nodes == views(side_nodes@),
            r@.non_membership_leaf_data == match non_membership_leaf_data {
                Some(d) => Some(d@),
                None => None::<Seq<u8>>,
            },
            r@.bitmask == bitmask@,
            r@.num_side_nodes == num_side_nodes as int,
            r@.sibling_data == match sibling_data {
                Some(d) => Some(d@),
                None => None::<Seq<u8>>,
            },
    {
        SparseCompactMerkleProof {
            side_nodes,
            non_membership_leaf_data,
            bitmask,
            num_side_nodes,
            sibling_data,
        }
    }

    /// The sibling data carried for updatable proofs.
    pub fn sibling_data(&self) -> (r: &Option<Vec<u8>>)
        ensures
            self@.sibling_data == match *r {
                Some(d) => Some(d@),
                None => None::<Seq<u8>>,
            },
    {
        &self.sibling_data
    }

    /// The unrelated-leaf data carried for non-membership proofs.
    pub fn non_membership_leaf_data(&self) -> (r: &Option<Vec<u8>>)
        ensures
            self@.non_membership_leaf_data == match *r {
                Some(d) => Some(d@),
                None => None::<Seq<u8>>,
            },
    {
        &self.non_membership_leaf_data
    }

    /// The bitmask recording which sidenodes of the original proof were
    /// placeholders.
    pub fn bitmask(&self) -> (r: &Vec<u8>)
        ensures
            self@.bitmask == r@,
    {
        &self.bitmask
    }

    /// The number of sidenodes of the proof this compact proof decompacts to.
    pub fn original_side_nodes_len(&self) -> (r: usize)
        ensures
            r as int == self@.num_side_nodes,
    {
        self.num_side_nodes
    }

    /// The kept, non-placeholder sidenodes of this compact proof.
    pub fn side_nodes(&self) -> (r: &Vec<Vec<u8>>)
        ensures
            self@.side_nodes == views(r@),
    {
        &self.side_nodes
    }

    /// Checks the structural sanity of the fields specific to the compact
    /// form; the decompacted proof is checked again on verification.
    pub fn sanity_check(&self) -> (r: bool)
        ensures
            r == spec_compact_sanity(self@),
    {
        if self.num_side_nodes > PATH_BITS {
            return false;
        }
        if self.bitmask.len() != (self.num_side_nodes + 7) / 8 {
            return false;
        }
        if self.num_side_nodes > 0 {
            let set_bits = count_set_bits(self.bitmask.as_slice());
            proof {
                lemma_count_bits_bounds(self.bitmask@, 8 * self.bitmask@.len() as int);
            }
            if !(self.num_side_nodes >= set_bits && self.side_nodes.len() == self.num_side_nodes
                - set_bits) {
                return false;
            }
        }
        true
    }

    /// Decompacts the proof, rebuilding the full sidenode list; a proof whose
    /// bitmask and sidenodes do not agree is rejected.
    pub fn decompact(&self) -> (r: Result<SparseMerkleProof, BadProof>)
        ensures
            match spec_decompact(self@) {
                Some(p) => r is Ok && r->Ok_0@ == p,
                None => r is Err,
            },
    {
        if !self.sanity_check() {
            return Err(BadProof);
        }
        let ghost target = spec_decompact(self@)->Some_0;
        let mut position: usize = 0;
        let mut nodes: Vec<Vec<u8>> = Vec::new();
        let num = self.num_side_nodes;
        let ghost mask = self.bitmask@;
        for idx in 0..num
            invariant
                num == self@.num_side_nodes,
                num <= 256,
                mask == self.bitmask@,
                mask.len() == (num + 7) / 8,
                spec_compact_sanity(self@),
                position as int == idx - count_bits_upto(mask, idx as int),
                position <= self.side_nodes@.len(),
                views(nodes@).len() == idx,
                forall|j: int|
                    0 <= j < idx ==> views(nodes@)[j] == (if bit_at(mask, j) {
                        placeholder_spec()
                    } else {
                        self@.side_nodes[j - count_bits_upto(mask, j)]
                    }),
        {
            proof {
                lemma_count_bits_bounds(mask, idx as int);
            }
            let ghost pre = views(nodes@);
            if get_bit_at_from_msb(self.bitmask.as_slice(), idx) == 1 {
                nodes.push(placeholder());
                proof {
                    assert(views(nodes@) =~= pre.push(placeholder_spec()));
                }
            } else {
                if position >= self.side_nodes.len() {
                    proof {
                        lemma_rank_mono(mask, idx + 1, num as int);
                        assert(spec_decompact(self@) is None);
                    }
                    return Err(BadProof);
                }
                nodes.push(bytes_clone(&self.side_nodes[position]));
                proof {
                    assert(views(nodes@) =~= pre.push(self@.side_nodes[position as int]));
                }
                position += 1;
            }
        }
        if position != self.side_nodes.len() {
            return Err(BadProof);
        }
        proof {
            assert(spec_decompact(self@) is Some);
            assert(views(nodes@) =~= target.side_nodes);
        }
        Ok(
            SparseMerkleProof::new(
                nodes,
                opt_bytes_clone(&self.non_membership_leaf_data),
                opt_bytes_clone(&self.sibling_data),
            ),
        )
    }

    /// Decompacts the proof, consuming it.
    pub fn decompact_into(self) -> (r: Result<SparseMerkleProof, BadProof>)
        ensures
            match spec_decompact(self@) {
                Some(p) => r is Ok && r->Ok_0@ == p,
                None => r is Err,
            },
    {
        self.decompact()
    }

    /// Verifies the compact proof against a claimed root by decompacting it
    /// and verifying the result.
    pub fn verify(&self, root: &[u8], key: &[u8], value: &[u8]) -> (r: bool)
        ensures
            r == spec_compact_verify(self@, root@, key@, value@),
    {
        match self.decompact() {
            Ok(p) => p.verify(root, key, value),
            Err(_) => false,
        }
    }
}

/// The number of set bits among the first `n` bits never exceeds `n` and
/// never decreases as `n` grows.
proof fn lemma_count_bits_bounds(data: Seq<u8>, n: int)
    ensures
        0 <= count_bits_upto(data, n),
        n >= 0 ==> count_bits_upto(data, n) <= n,
    decreases n,
{
    if n > 0 {
        lemma_count_bits_bounds(data, n - 1);
    }
}

/// `i - count_bits_upto(i)` is monotone: each later bit adds at most one to
/// the count.
proof fn lemma_rank_mono(mask: Seq<u8>, i: int, j: int)
    requires
        0 <= i <= j,
    ensures
        i - count_bits_upto(mask, i) <= j - count_bits_upto(mask, j),
        count_bits_upto(mask, i) <= count_bits_upto(mask, j),
    decreases j - i,
{
    if i < j {
        lemma_rank_mono(mask, i, j - 1);
    }
}

/// Number of placeholder sidenodes among the first `i` entries.
pub open spec fn elided_upto(s: Seq<Seq<u8>>, i: int) -> int
    decreases i,
{
    if i <= 0 {
        0
    } else {
        elided_upto(s, i - 1) + if keep_side(s[i - 1]) {
            0int
        } else {
            1int
        }
    }
}

proof fn lemma_elided_bounds(s: Seq<Seq<u8>>, i: int)
    requires
        0 <= i,
    ensures
        0 <= elided_upto(s, i) <= i,
    decreases i,
{
    if i > 0 {
        lemma_elided_bounds(s, i - 1);
    }
}

proof fn lemma_elided_prefix(s: Seq<Seq<u8>>, t: Seq<Seq<u8>>, i: int)
    requires
        0 <= i,
        forall|j: int| 0 <= j < i ==> s[j] == t[j],
    ensures
        elided_upto(s, i) == elided_upto(t, i),
    decreases i,
{
    if i > 0 {
        lemma_elided_prefix(s, t, i - 1);
    }
}

proof fn lemma_compacted_len(s: Seq<Seq<u8>>)
    ensures
        compacted_sides(s).len() == s.len() - elided_upto(s, s.len() as int),
    decreases s.len(),
{
    if s.len() > 0 {
        lemma_compacted_len(s.drop_last());
        lemma_elided_prefix(s, s.drop_last(), s.len() - 1);
    }
}

proof fn lemma_compacted_index(s: Seq<Seq<u8>>, j: int)
    requires
        0 <= j < s.len(),
        keep_side(s[j]),
    ensures
        0 <= j - elided_upto(s, j) < compacted_sides(s).len(),
        compacted_sides(s)[j - elided_upto(s, j)] == s[j],
    decreases s.len(),
{
    lemma_compacted_len(s);
    lemma_elided_bounds(s, j);
    if j == s.len() - 1 {
        lemma_compacted_len(s.drop_last());
        lemma_elided_prefix(s, s.drop_last(), j);
    } else {
        lemma_compacted_index(s.drop_last(), j);
        lemma_elided_prefix(s, s.drop_last(), j);
        lemma_elided_prefix(s, s.drop_last(), s.len() - 1);
        lemma_compacted_len(s.drop_last());
        lemma_elided_bounds(s.drop_last(), s.len() - 1);
        lemma_rank_elided_mono(s.drop_last(), j + 1, s.len() - 1);
        assert(elided_upto(s.drop_last(), j + 1) == elided_upto(s.drop_last(), j));
    }
}

proof fn lemma_rank_elided_mono(s: Seq<Seq<u8>>, i: int, j: int)
    requires
        0 <= i <= j,
    ensures
        i - elided_upto(s, i) <= j - elided_upto(s, j),
        elided_upto(s, i) <= elided_upto(s, j),
    decreases j - i,
{
    if i < j {
        lemma_rank_elided_mono(s, i, j - 1);
    }
}

proof fn lemma_cbu_eq_elided(s: Seq<Seq<u8>>, mask: Seq<u8>, i: int)
    requires
        0 <= i <= s.len(),
        forall|j: int| 0 <= j < i ==> bit_at(mask, j) == !keep_side(#[trigger] s[j]),
    ensures
        count_bits_upto(mask, i) == elided_upto(s, i),
    decreases i,
{
    if i > 0 {
        lemma_cbu_eq_elided(s, mask, i - 1);
    }
}

proof fn lemma_cbu_trailing(mask: Seq<u8>, n: int, m: int)
    requires
        0 <= n <= m,
        forall|j: int| n <= j < m ==> !bit_at(mask, j),
    ensures
        count_bits_upto(mask, m) == count_bits_upto(mask, n),
    decreases m - n,
{
    if n < m {
        lemma_cbu_trailing(mask, n, m - 1);
    }
}

/// Compaction round-trip: a compact proof made from a sane proof decompacts
/// back to that proof exactly — the sidenode list, the non-membership leaf
/// data and the sibling data all carry over unchanged.
pub proof fn lemma_compact_round_trip(p: ProofModel, c: CompactModel)
    requires
        spec_sanity(p),
        compact_rel(p, c),
    ensures
        spec_decompact(c) == Some(p),
{
    let n = p.side_nodes.len() as int;
    let mask = c.bitmask;
    lemma_cbu_eq_elided(p.side_nodes, mask, n);
    lemma_cbu_trailing(mask, n, 8 * mask.len() as int);
    lemma_compacted_len(p.side_nodes);
    assert(spec_compact_sanity(c));
    assert(c.num_side_nodes - count_bits_upto(c.bitmask, c.num_side_nodes)
        == c.side_nodes.len());
    let q = spec_decompact(c)->Some_0;
    assert forall|j: int| 0 <= j < n implies q.side_nodes[j] == p.side_nodes[j] by {
        if bit_at(mask, j) {
            assert(!keep_side(p.side_nodes[j]));
        } else {
            assert(keep_side(p.side_nodes[j]));
            lemma_cbu_eq_elided(p.side_nodes, mask, j);
            lemma_compacted_index(p.side_nodes, j);
        }
    }
    assert(q.side_nodes =~= p.side_nodes);
}

/// Verification agreement: a compact proof made from a sane proof verifies
/// exactly the same (root, key, value) triples as the proof it came from.
pub proof fn lemma_compact_verify_agrees(
    p: ProofModel,
    c: CompactModel,
    root: Seq<u8>,
    key: Seq<u8>,
    value: Seq<u8>,
)
    requires
        spec_sanity(p),
        compact_rel(p, c),
    ensures
        spec_compact_verify(c, root, key, value) == spec_verify(p, root, key, value),
{
    lemma_compact_round_trip(p, c);
}

} // verus!
