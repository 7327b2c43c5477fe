//! Hashing helpers for the tree: leaf and internal-node digests, node
//! parsing, and the all-zero placeholder that marks an empty subtree.
//!
//! A leaf node serializes as `0x00 || path || value_hash`; an internal node
//! as `0x01 || left_child_hash || right_child_hash`.  The distinct one-byte
//! prefixes keep the two hash domains disjoint, so a crafted value cannot
//! masquerade as an internal node.

use vstd::prelude::*;

use crate::PATH_SIZE;

verus! {

/// Serialization prefix of a leaf node.
pub const LEAF_PREFIX: u8 = 0;

/// Serialization prefix of an internal node.
pub const NODE_PREFIX: u8 = 1;

/// The SHA-256 digest of a byte string.  The digest is a function of the
/// input bytes alone; nothing further is assumed of it.
pub uninterp spec fn sha256_of(data: Seq<u8>) -> Seq<u8>;

/// The digest as the 32-byte string the tree works with.  SHA-256 output is
/// always 32 bytes long, so this agrees with `sha256_of` on every digest the
/// library computes; making the length definitional lets specifications
/// reason about the layout of serialized nodes.
pub open spec fn digest32_of(data: Seq<u8>) -> Seq<u8> {
    if sha256_of(data).len() == 32 {
        sha256_of(data)
    } else {
        Seq::new(32, |i: int| 0u8)
    }
}

/// Relies on sha2::Sha256::digest (one-shot SHA-256): the result depends on
/// the input bytes alone and is always 32 bytes long.
#[verifier::external_body]
fn sha256(data: &[u8]) -> (r: Vec<u8>)
    ensures
        r@ == sha256_of(data@),
        r@.len() == 32,
{
    <sha2::Sha256 as sha2::Digest>::digest(data).to_vec()
}

/// Appends a byte slice to a byte vector.
pub fn append_bytes(v: &mut Vec<u8>, other: &[u8])
    ensures
        final(v)@ == old(v)@ + other@,
{
    let ghost pre = v@;
    v.extend_from_slice(other);
    proof {
        assert forall|i: int| 0 <= i < v@.len() implies v@[i] == (pre + other@)[i] by {
            if i >= pre.len() {
                assert(cloned::<u8>(other@[i - pre.len()], v@[i]));
            }
        }
        assert(v@ =~= pre + other@);
    }
}

/// Copies the bytes `start .. end` of a slice into a fresh vector.
pub fn copy_range(data: &[u8], start: usize, end: usize) -> (r: Vec<u8>)
    requires
        start <= end <= data@.len(),
    ensures
        r@ == data@.subrange(start as int, end as int),
{
    let mut r: Vec<u8> = Vec::new();
    for i in start..end
        invariant
            start <= i <= end <= data@.len(),
            r@ =~= data@.subrange(start as int, i as int),
    {
        r.push(data[i]);
        proof {
            assert(r@ =~= data@.subrange(start as int, i + 1));
        }
    }
    r
}

/// Compares two byte strings.
pub fn bytes_eq(a: &[u8], b: &[u8]) -> (r: bool)
    ensures
        r == (a@ == b@),
{
    if a.len() != b.len() {
        proof {
            assert(a@.len() != b@.len());
        }
        return false;
    }
    let n = a.len();
    for i in 0..n
        invariant
            n == a@.len() == b@.len(),
            forall|j: int| 0 <= j < i ==> a@[j] == b@[j],
    {
        if a[i] != b[i] {
            return false;
        }
    }
    proof {
        assert(a@ =~= b@);
    }
    true
}

/// Copies a byte vector.
pub fn bytes_clone(v: &Vec<u8>) -> (r: Vec<u8>)
    ensures
        r@ == v@,
{
    copy_range(v.as_slice(), 0, v.len())
}

/// The all-zero digest: the canonical root of an empty subtree.
pub open spec fn placeholder_spec() -> Seq<u8> {
    Seq::new(PATH_SIZE as nat, |i: int| 0u8)
}

/// Returns the placeholder value.
pub fn placeholder() -> (r: Vec<u8>)
    ensures
        r@ == placeholder_spec(),
{
    let mut r: Vec<u8> = Vec::new();
    for i in 0..PATH_SIZE
        invariant
            r@.len() == i,
            forall|j: int| 0 <= j < i ==> r@[j] == 0u8,
    {
        r.push(0);
    }
    proof {
        assert(r@ =~= placeholder_spec());
    }
    r
}

/// Tests a hash against the placeholder.
pub fn is_placeholder(h: &[u8]) -> (r: bool)
    ensures
        r == (h@ == placeholder_spec()),
{
    if h.len() != PATH_SIZE {
        proof {
            assert(h@.len() != placeholder_spec().len());
        }
        return false;
    }
    for i in 0..PATH_SIZE
        invariant
            h@.len() == PATH_SIZE,
            forall|j: int| 0 <= j < i ==> h@[j] == 0u8,
    {
        if h[i] != 0 {
            proof {
                assert(h@[i as int] != placeholder_spec()[i as int]);
            }
            return false;
        }
    }
    proof {
        assert(h@ =~= placeholder_spec());
    }
    true
}

/// Serialized form of a leaf node committing `value_hash` at `path`.
pub open spec fn leaf_data_spec(path: Seq<u8>, value_hash: Seq<u8>) -> Seq<u8> {
    seq![LEAF_PREFIX] + path + value_hash
}

/// Hash of a leaf node.
pub open spec fn leaf_hash_spec(path: Seq<u8>, value_hash: Seq<u8>) -> Seq<u8> {
    digest32_of(leaf_data_spec(path, value_hash))
}

/// Serialized form of an internal node with the given child hashes.
pub open spec fn node_data_spec(left: Seq<u8>, right: Seq<u8>) -> Seq<u8> {
    seq![NODE_PREFIX] + left + right
}

/// Hash of an internal node.
pub open spec fn node_hash_spec(left: Seq<u8>, right: Seq<u8>) -> Seq<u8> {
    digest32_of(node_data_spec(left, right))
}

/// One-shot digest of a byte string.
pub fn digest(data: &[u8]) -> (r: Vec<u8>)
    ensures
        r@ == sha256_of(data@),
        r@ == digest32_of(data@),
        r@.len() == 32,
{
    sha256(data)
}

/// Digest of a user key: the path at which the key lives in the tree.
pub fn path_of(key: &[u8]) -> (r: Vec<u8>)
    ensures
        r@ == sha256_of(key@),
        r@ == digest32_of(key@),
        r@.len() == 32,
{
    sha256(key)
}

/// Computes the hash and the serialized bytes of a leaf node.
pub fn digest_leaf(path: &[u8], value_hash: &[u8]) -> (r: (Vec<u8>, Vec<u8>))
    ensures
        r.0@ == leaf_hash_spec(path@, value_hash@),
        r.1@ == leaf_data_spec(path@, value_hash@),
{
    let mut value: Vec<u8> = Vec::new();
    value.push(LEAF_PREFIX);
    append_bytes(&mut value, path);
    append_bytes(&mut value, value_hash);
    proof {
        assert(value@ =~= leaf_data_spec(path@, value_hash@));
    }
    let sum = sha256(value.as_slice());
    (sum, value)
}

/// Computes the hash of a leaf node.
pub fn digest_leaf_hash(path: &[u8], value_hash: &[u8]) -> (r: Vec<u8>)
    ensures
        r@ == leaf_hash_spec(path@, value_hash@),
{
    let (sum, _) = digest_leaf(path, value_hash);
    sum
}

/// Computes the hash and the serialized bytes of an internal node.
pub fn digest_node(left: &[u8], right: &[u8]) -> (r: (Vec<u8>, Vec<u8>))
    ensures
        r.0@ == node_hash_spec(left@, right@),
        r.1@ == node_data_spec(left@, right@),
{
    let mut value: Vec<u8> = Vec::new();
    value.push(NODE_PREFIX);
    append_bytes(&mut value, left);
    append_bytes(&mut value, right);
    proof {
        assert(value@ =~= node_data_spec(left@, right@));
    }
    let sum = sha256(value.as_slice());
    (sum, value)
}

/// Internal node whose right child is the placeholder.
pub fn digest_left_node(left: &[u8]) -> (r: (Vec<u8>, Vec<u8>))
    ensures
        r.0@ == node_hash_spec(left@, placeholder_spec()),
        r.1@ == node_data_spec(left@, placeholder_spec()),
{
    let ph = placeholder();
    digest_node(left, ph.as_slice())
}

/// Internal node whose left child is the placeholder.
pub fn digest_right_node(right: &[u8]) -> (r: (Vec<u8>, Vec<u8>))
    ensures
        r.0@ == node_hash_spec(placeholder_spec(), right@),
        r.1@ == node_data_spec(placeholder_spec(), right@),
{
    let ph = placeholder();
    digest_node(ph.as_slice(), right)
}

/// The path and the value hash held by serialized leaf bytes.  Bytes shorter
/// than a full leaf parse to a pair of empty strings.
pub open spec fn parse_leaf_spec(data: Seq<u8>) -> (Seq<u8>, Seq<u8>) {
    if data.len() >= 1 + 2 * PATH_SIZE {
        (data.subrange(1, 1 + PATH_SIZE as int), data.subrange(1 + PATH_SIZE as int, data.len() as int))
    } else {
        (Seq::empty(), Seq::empty())
    }
}

/// Parses serialized leaf bytes into the leaf's path and its value hash.
pub fn parse_leaf(data: &[u8]) -> (r: (Vec<u8>, Vec<u8>))
    ensures
        r.0@ == parse_leaf_spec(data@).0,
        r.1@ == parse_leaf_spec(data@).1,
{
    if data.len() >= 1 + 2 * PATH_SIZE {
        (copy_range(data, 1, 1 + PATH_SIZE), copy_range(data, 1 + PATH_SIZE, data.len()))
    } else {
        (Vec::new(), Vec::new())
    }
}

/// The child hashes held by serialized internal-node bytes.  Bytes shorter
/// than a full node parse to a pair of empty strings.
pub open spec fn parse_node_spec(data: Option<Seq<u8>>) -> (Seq<u8>, Seq<u8>) {
    match data {
        Some(d) => if d.len() >= 1 + 2 * PATH_SIZE {
            (d.subrange(1, 1 + PATH_SIZE as int), d.subrange(1 + PATH_SIZE as int, 1 + 2 * PATH_SIZE as int))
        } else {
            (Seq::empty(), Seq::empty())
        },
        None => (Seq::empty(), Seq::empty()),
    }
}

/// Parses serialized internal-node bytes into the two child hashes.
pub fn parse_node(data: &Option<Vec<u8>>) -> (r: (Vec<u8>, Vec<u8>))
    ensures
        r.0@ == parse_node_spec(opt_view(data)).0,
        r.1@ == parse_node_spec(opt_view(data)).1,
{
    match data {
        Some(d) => {
            if d.len() >= 1 + 2 * PATH_SIZE {
                (
                    copy_range(d.as_slice(), 1, 1 + PATH_SIZE),
                    copy_range(d.as_slice(), 1 + PATH_SIZE, 1 + 2 * PATH_SIZE),
                )
            } else {
                (Vec::new(), Vec::new())
            }
        },
        None => (Vec::new(), Vec::new()),
    }
}

/// A byte string is a leaf iff it is non-empty and starts with the leaf
/// prefix.
pub open spec fn is_leaf_spec(data: Option<Seq<u8>>) -> bool {
    match data {
        Some(d) => d.len() > 0 && d[0] == LEAF_PREFIX,
        None => false,
    }
}

/// Tests whether node bytes hold a leaf.
pub fn is_leaf(data: &Option<Vec<u8>>) -> (r: bool)
    ensures
        r == is_leaf_spec(opt_view(data)),
{
    match data {
        Some(d) => d.len() > 0 && d[0] == LEAF_PREFIX,
        None => false,
    }
}

/// The view of an optional byte vector.
pub open spec fn opt_view(data: &Option<Vec<u8>>) -> Option<Seq<u8>> {
    match data {
        Some(d) => Some(d@),
        None => None,
    }
}

/// The byte string of an optional value, the empty string when absent.
pub open spec fn opt_or_empty(data: Option<Seq<u8>>) -> Seq<u8> {
    match data {
        Some(d) => d,
        None => Seq::empty(),
    }
}

} // verus!
