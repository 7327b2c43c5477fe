//! A sparse Merkle tree for a key-value map, with the optimisations of the
//! Libra whitepaper: placeholder elision keeps the number of hash operations
//! per tree operation proportional to the number of non-empty leaves.
//!
//! The tree is built over SHA-256: a path is the 32-byte digest of a key, and
//! each of its 256 bits (most significant first) selects a child during
//! descent.  Leaves and internal nodes are hashed in disjoint domains, and the
//! all-zero digest is the canonical marker for an empty subtree.

use vstd::prelude::*;

pub mod proofs;
pub mod smt;
pub mod store;
pub mod tree_hasher;

pub use proofs::BadProof;
pub use proofs::SparseCompactMerkleProof;
pub use proofs::SparseMerkleProof;
pub use smt::Error;
pub use store::KVStore;
pub use smt::SparseMerkleTree;
pub use store::SimpleStore;

verus! {

/// Number of bytes in a digest, and hence in a tree path.
pub const PATH_SIZE: usize = 32;

/// Number of bits in a tree path: the maximum depth of the tree.
pub const PATH_BITS: usize = 256;

/// The sequence of views of a sequence of byte vectors.
pub open spec fn views(s: Seq<Vec<u8>>) -> Seq<Seq<u8>> {
    s.map_values(|v: Vec<u8>| v@)
}

/// Bit `k` (most significant first, `0 <= k < 8`) of the byte `b`.
pub open spec fn byte_bit(b: u8, k: int) -> bool {
    b & (1u8 << ((7 - k) as u8)) != 0
}

/// Bit `i` of a byte string, counted from the most significant bit of the
/// first byte.
pub open spec fn bit_at(data: Seq<u8>, i: int) -> bool {
    byte_bit(data[i / 8], i % 8)
}

proof fn lemma_get_bit(b: u8, k: usize)
    by (bit_vector)
    requires
        k < 8,
    ensures
        ((b as usize) & (1usize << ((7 - k as int) as usize)) > 0) <==> (b & (1u8 << ((7 - k as int) as u8))
            != 0),
{
}

/// Gets the bit at an offset from the most significant bit.
pub fn get_bit_at_from_msb(data: &[u8], position: usize) -> (r: usize)
    requires
        position < 8 * data@.len(),
    ensures
        r == if bit_at(data@, position as int) {
            1usize
        } else {
            0usize
        },
{
    let byte = data[position / 8];
    proof {
        lemma_get_bit(byte, position % 8);
        assert(position as int / 8 == (position / 8) as int);
    }
    if (byte as usize) & (1 << (8 - 1 - (position % 8))) > 0 {
        1
    } else {
        0
    }
}

proof fn lemma_set_bit(b: u8, k: usize, j: usize)
    by (bit_vector)
    requires
        k < 8,
        j < 8,
    ensures
        ((b as usize | (1usize << ((7 - k as int) as usize))) as u8) & (1u8 << ((7 - k as int) as u8)) != 0,
        j != k ==> (((b as usize | (1usize << ((7 - k as int) as usize))) as u8) & (1u8 << ((7 - j as int) as u8))
            != 0) == (b & (1u8 << ((7 - j as int) as u8)) != 0),
{
}

/// Sets the bit at an offset from the most significant bit.
pub fn set_bit_at_from_msb(data: &mut Vec<u8>, position: usize)
    requires
        position < 8 * old(data)@.len(),
    ensures
        final(data)@.len() == old(data)@.len(),
        bit_at(final(data)@, position as int),
        forall|j: int|
            0 <= j < 8 * old(data)@.len() && j != position ==> bit_at(final(data)@, j) == bit_at(
                old(data)@,
                j,
            ),
        forall|idx: int|
            0 <= idx < old(data)@.len() && idx != position as int / 8 ==> final(data)@[idx] == old(
                data,
            )@[idx],
{
    let b = data[position / 8];
    let mut n = b as usize;
    n |= 1 << (8 - 1 - (position % 8));
    data[position / 8] = n as u8;
    proof {
        let k = position % 8;
        lemma_set_bit(b, k, k);
        assert forall|j: int|
            0 <= j < 8 * old(data)@.len() && j != position implies bit_at(final(data)@, j) == bit_at(
            old(data)@,
            j,
        ) by {
            if j / 8 == position as int / 8 {
                assert(j % 8 != position as int % 8);
                lemma_set_bit(b, k, (j % 8) as usize);
            }
        }
    }
}

/// Number of set bits among the first `n` bits of a byte string.
pub open spec fn count_bits_upto(data: Seq<u8>, n: int) -> int
    decreases n,
{
    if n <= 0 {
        0
    } else {
        count_bits_upto(data, n - 1) + if bit_at(data, n - 1) {
            1int
        } else {
            0int
        }
    }
}

/// Counts the set bits of a byte string.
pub fn count_set_bits(data: &[u8]) -> (r: usize)
    requires
        8 * data@.len() <= usize::MAX,
    ensures
        r == count_bits_upto(data@, 8 * (data@.len() as int)),
{
    let mut count: usize = 0;
    let n = data.len() * 8;
    for i in 0..n
        invariant
            count == count_bits_upto(data@, i as int),
            count <= i,
            n == 8 * data@.len(),
    {
        if get_bit_at_from_msb(data, i) == 1 {
            count += 1;
        }
    }
    count
}

/// First bit index at which two byte strings differ, or eight times the
/// shorter length when no compared bit differs: the number of leading bits
/// the two share.
pub open spec fn common_prefix_from(a: Seq<u8>, b: Seq<u8>, i: int) -> int
    decreases 8 * min_len(a, b) - i,
{
    if i < 0 || i >= 8 * min_len(a, b) {
        i
    } else if bit_at(a, i) == bit_at(b, i) {
        common_prefix_from(a, b, i + 1)
    } else {
        i
    }
}

pub open spec fn min_len(a: Seq<u8>, b: Seq<u8>) -> int {
    if a.len() <= b.len() {
        a.len() as int
    } else {
        b.len() as int
    }
}

/// The number of leading bits that two byte strings share.
pub open spec fn common_prefix_len(a: Seq<u8>, b: Seq<u8>) -> int {
    common_prefix_from(a, b, 0)
}

proof fn lemma_common_prefix_from_bounds(a: Seq<u8>, b: Seq<u8>, i: int)
    requires
        0 <= i <= 8 * min_len(a, b),
    ensures
        i <= common_prefix_from(a, b, i) <= 8 * min_len(a, b),
    decreases 8 * min_len(a, b) - i,
{
    if i < 8 * min_len(a, b) && bit_at(a, i) == bit_at(b, i) {
        lemma_common_prefix_from_bounds(a, b, i + 1);
    }
}

/// The shared-prefix length is between zero and the number of compared bits.
pub proof fn lemma_common_prefix_bounds(a: Seq<u8>, b: Seq<u8>)
    ensures
        0 <= common_prefix_len(a, b) <= 8 * min_len(a, b),
{
    lemma_common_prefix_from_bounds(a, b, 0);
}

/// Counts the number of leading bits that two byte strings have in common.
pub fn count_common_prefix(a: &[u8], b: &[u8]) -> (r: usize)
    requires
        a@.len() * 8 <= usize::MAX,
        b@.len() * 8 <= usize::MAX,
    ensures
        r == common_prefix_len(a@, b@),
{
    let m = if a.len() <= b.len() {
        a.len()
    } else {
        b.len()
    };
    let n = m * 8;
    let mut cnt: usize = 0;
    loop
        invariant
            0 <= cnt <= n,
            n == 8 * min_len(a@, b@),
            common_prefix_len(a@, b@) == common_prefix_from(a@, b@, cnt as int),
        decreases n - cnt,
    {
        if cnt >= n {
            return cnt;
        }
        if get_bit_at_from_msb(a, cnt) == get_bit_at_from_msb(b, cnt) {
            cnt += 1;
        } else {
            return cnt;
        }
    }
}

} // verus!
