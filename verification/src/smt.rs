//! The sparse Merkle tree engine: queries, insert/update/delete, proof
//! generation, and branch insertion, over a node store (hash to serialized
//! node bytes) and a value store (path to user value).
//!
//! Mutations walk the tree collecting sidenodes, then rewrite the node store
//! bottom-up so that the new root hash reflects the change.  Placeholder
//! elision is kept throughout: no internal node is ever materialized over an
//! empty subtree.

use vstd::prelude::*;

use crate::bit_at;
use crate::common_prefix_len;
use crate::count_common_prefix;
use crate::get_bit_at_from_msb;
use crate::proofs::replay_from;
use crate::proofs::spec_sanity;
use crate::proofs::spec_updates;
use crate::proofs::spec_verify;
use crate::proofs::BadProof;
use crate::proofs::ProofModel;
use crate::proofs::SparseCompactMerkleProof;
use crate::proofs::SparseMerkleProof;
use crate::store::KVStore;
use crate::store::SimpleStore;
use crate::tree_hasher::bytes_clone;
use crate::tree_hasher::bytes_eq;
use crate::tree_hasher::digest;
use crate::tree_hasher::digest32_of;
use crate::tree_hasher::digest_leaf;
use crate::tree_hasher::digest_left_node;
use crate::tree_hasher::digest_node;
use crate::tree_hasher::digest_right_node;
use crate::tree_hasher::is_leaf;
use crate::tree_hasher::is_leaf_spec;
use crate::tree_hasher::is_placeholder;
use crate::tree_hasher::leaf_data_spec;
use crate::tree_hasher::leaf_hash_spec;
use crate::tree_hasher::node_data_spec;
use crate::tree_hasher::node_hash_spec;
use crate::tree_hasher::opt_or_empty;
use crate::tree_hasher::opt_view;
use crate::tree_hasher::parse_leaf;
use crate::tree_hasher::parse_leaf_spec;
use crate::tree_hasher::parse_node;
use crate::tree_hasher::parse_node_spec;
use crate::tree_hasher::path_of;
use crate::tree_hasher::placeholder;
use crate::tree_hasher::placeholder_spec;
use crate::tree_hasher::LEAF_PREFIX;
use crate::tree_hasher::NODE_PREFIX;
use crate::views;
use crate::PATH_BITS;
use crate::PATH_SIZE;

verus! {

/// The error type of the tree engine.
#[derive(Debug)]
pub enum Error {
    /// An invalid Merkle proof was supplied.
    BadProof(BadProof),
}

impl From<BadProof> for Error {
    /// Wraps a proof failure.
    fn from(e: BadProof) -> (r: Self) {
        Error::BadProof(e)
    }
}

impl vstd::std_specs::convert::FromSpecImpl<BadProof> for Error {
    open spec fn obeys_from_spec() -> bool {
        true
    }

    open spec fn from_spec(e: BadProof) -> Self {
        Error::BadProof(e)
    }
}

/// The mathematical content of a tree: its two stores and its root hash.
pub ghost struct TreeModel {
    /// The node store: node hash to serialized node bytes.
    pub nodes: Map<Seq<u8>, Seq<u8>>,
    /// The value store: path to user value.
    pub values: Map<Seq<u8>, Seq<u8>>,
    /// The current root hash.
    pub root: Seq<u8>,
}

/// Looks a key up in a map, `None` when absent.
pub open spec fn map_opt_get(m: Map<Seq<u8>, Seq<u8>>, k: Seq<u8>) -> Option<Seq<u8>> {
    if m.contains_key(k) {
        Some(m[k])
    } else {
        None
    }
}

/// What a descent step by step collects below some internal node, deepest
/// first: the sibling hash and the on-path hash of every level entered, the
/// serialized bytes the descent ended at, and whether it ended early at a
/// placeholder or a leaf rather than by running out of depth.
pub ghost struct WalkOut {
    /// Sibling hashes, deepest first.
    pub sides: Seq<Seq<u8>>,
    /// On-path node hashes, deepest first, the starting node excluded.
    pub paths: Seq<Seq<u8>>,
    /// The serialized bytes of the node the walk ended at, when it is in the
    /// store and is not a placeholder.
    pub cur: Option<Seq<u8>>,
    /// Whether the walk ended at a placeholder or a leaf.
    pub early: bool,
}

/// Walks down from an internal node with serialized bytes `data` at `depth`,
/// following the path bits, until a placeholder or a leaf is reached or the
/// path is exhausted.
pub open spec fn spec_walk(
    nodes: Map<Seq<u8>, Seq<u8>>,
    path: Seq<u8>,
    data: Option<Seq<u8>>,
    depth: int,
) -> WalkOut
    decreases 256 - depth,
{
    if depth < 0 || depth >= 256 {
        WalkOut { sides: Seq::empty(), paths: Seq::empty(), cur: data, early: false }
    } else {
        let (l, r) = parse_node_spec(data);
        let (side, nh) = if bit_at(path, depth) {
            (l, r)
        } else {
            (r, l)
        };
        if nh == placeholder_spec() {
            WalkOut { sides: seq![side], paths: seq![nh], cur: None, early: true }
        } else {
            let nd = map_opt_get(nodes, nh);
            if is_leaf_spec(nd) {
                WalkOut { sides: seq![side], paths: seq![nh], cur: nd, early: true }
            } else {
                let rest = spec_walk(nodes, path, nd, depth + 1);
                WalkOut {
                    sides: rest.sides.push(side),
                    paths: rest.paths.push(nh),
                    cur: rest.cur,
                    early: rest.early,
                }
            }
        }
    }
}

/// The complete sidenodes walk from a root: sibling hashes and on-path node
/// hashes deepest first (the root is the last path entry), the serialized
/// bytes of the node the walk ended at, and, when requested and the walk
/// ended early, the serialized bytes of the deepest sibling.
pub ghost struct FullWalk {
    /// Sibling hashes, deepest first.
    pub sides: Seq<Seq<u8>>,
    /// On-path node hashes, deepest first; the last entry is the root.
    pub paths: Seq<Seq<u8>>,
    /// The serialized bytes of the node the walk ended at.
    pub cur: Option<Seq<u8>>,
    /// The serialized bytes of the deepest sibling, when requested.
    pub sib: Option<Seq<u8>>,
}

/// The sidenodes walk for a path from a root.
pub open spec fn spec_side_nodes(
    nodes: Map<Seq<u8>, Seq<u8>>,
    path: Seq<u8>,
    root: Seq<u8>,
    with_sib: bool,
) -> FullWalk {
    if root == placeholder_spec() {
        FullWalk { sides: Seq::empty(), paths: seq![root], cur: None, sib: None }
    } else {
        let rd = map_opt_get(nodes, root);
        if is_leaf_spec(rd) {
            FullWalk { sides: Seq::empty(), paths: seq![root], cur: rd, sib: None }
        } else {
            let w = spec_walk(nodes, path, rd, 0);
            FullWalk {
                sides: w.sides,
                paths: w.paths.push(root),
                cur: w.cur,
                sib: if with_sib && w.early && w.sides.len() > 0 {
                    map_opt_get(nodes, w.sides[0])
                } else {
                    None
                },
            }
        }
    }
}

/// The number of levels a walk enters is bounded by the depth left.
pub proof fn lemma_walk_len(
    nodes: Map<Seq<u8>, Seq<u8>>,
    path: Seq<u8>,
    data: Option<Seq<u8>>,
    depth: int,
)
    requires
        0 <= depth <= 256,
    ensures
        spec_walk(nodes, path, data, depth).sides.len() <= 256 - depth,
        spec_walk(nodes, path, data, depth).paths.len() == spec_walk(
            nodes,
            path,
            data,
            depth,
        ).sides.len(),
    decreases 256 - depth,
{
    if depth < 256 {
        let (l, r) = parse_node_spec(data);
        let nh = if bit_at(path, depth) {
            r
        } else {
            l
        };
        if nh != placeholder_spec() {
            let nd = map_opt_get(nodes, nh);
            if !is_leaf_spec(nd) {
                lemma_walk_len(nodes, path, nd, depth + 1);
            }
        }
    }
}

struct UpdateResult {
    side_nodes: Vec<Vec<u8>>,
    path_nodes: Vec<Vec<u8>>,
    sibling_data: Option<Vec<u8>>,
    current_data: Option<Vec<u8>>,
}

/// Reverses a vector of byte vectors.
fn reverse_vecs(v: Vec<Vec<u8>>) -> (r: Vec<Vec<u8>>)
    ensures
        views(r@) == views(v@).reverse(),
{
    let n = v.len();
    let mut r: Vec<Vec<u8>> = Vec::new();
    for i in 0..n
        invariant
            n == v@.len(),
            r@.len() == i,
            forall|j: int| #![trigger views(r@)[j]] 0 <= j < i ==> views(r@)[j] == views(v@)[n - 1 - j],
    {
        let ghost pre = views(r@);
        r.push(bytes_clone(&v[n - 1 - i]));
        proof {
            assert(views(r@) =~= pre.push(views(v@)[n - 1 - i]));
        }
    }
    proof {
        assert(views(r@) =~= views(v@).reverse());
    }
    r
}

/// A sparse Merkle tree over SHA-256, backed by a node store and a value
/// store.
#[derive(Debug, Clone)]
#[verifier::reject_recursive_types(S)]
pub struct SparseMerkleTree<S: KVStore = SimpleStore> {
    nodes: S,
    values: S,
    root: Vec<u8>,
}

impl<S: KVStore> View for SparseMerkleTree<S> {
    type V = TreeModel;

    closed spec fn view(&self) -> TreeModel {
        TreeModel { nodes: self.nodes@, values: self.values@, root: self.root@ }
    }
}

impl SparseMerkleTree<SimpleStore> {
    /// Creates a new, empty sparse Merkle tree over in-memory stores.
    pub fn new() -> (r: Self)
        ensures
            r.wf(),
            r@.nodes == Map::<Seq<u8>, Seq<u8>>::empty(),
            r@.values == Map::<Seq<u8>, Seq<u8>>::empty(),
            r@.root == placeholder_spec(),
    {
        SparseMerkleTree {
            nodes: SimpleStore::new(),
            values: SimpleStore::new(),
            root: placeholder(),
        }
    }
}

impl Default for SparseMerkleTree<SimpleStore> {
    /// Creates a new, empty sparse Merkle tree over in-memory stores.
    fn default() -> (r: Self)
        ensures
            r.wf(),
            r@.nodes == Map::<Seq<u8>, Seq<u8>>::empty(),
            r@.values == Map::<Seq<u8>, Seq<u8>>::empty(),
            r@.root == placeholder_spec(),
    {
        SparseMerkleTree::new()
    }
}

impl<S: KVStore> SparseMerkleTree<S> {
    /// Both stores are well-formed.
    pub closed spec fn wf(&self) -> bool {
        self.nodes.wf() && self.values.wf()
    }

    /// Creates a sparse Merkle tree based on the given stores.
    pub fn new_with_stores(nodes_store: S, values_store: S) -> (r: Self)
        requires
            nodes_store.wf(),
            values_store.wf(),
        ensures
            r.wf(),
            r@.nodes == nodes_store@,
            r@.values == values_store@,
            r@.root == placeholder_spec(),
    {
        SparseMerkleTree { nodes: nodes_store, values: values_store, root: placeholder() }
    }

    /// Imports a sparse Merkle tree from existing stores and a root; the
    /// engine trusts both.
    pub fn import(nodes_store: S, values_store: S, root: Vec<u8>) -> (r: Self)
        requires
            nodes_store.wf(),
            values_store.wf(),
        ensures
            r.wf(),
            r@.nodes == nodes_store@,
            r@.values == values_store@,
            r@.root == root@,
    {
        SparseMerkleTree { nodes: nodes_store, values: values_store, root }
    }

    /// The root of the tree.
    pub fn root(&self) -> (r: Vec<u8>)
        ensures
            r@ == self@.root,
    {
        bytes_clone(&self.root)
    }

    /// A reference to the root of the tree.
    pub fn root_ref(&self) -> (r: &[u8])
        ensures
            r@ == self@.root,
    {
        self.root.as_slice()
    }

    /// Sets a new root for the tree.
    pub fn set_root(&mut self, root: Vec<u8>)
        ensures
            final(self)@.root == root@,
            final(self)@.nodes == old(self)@.nodes,
            final(self)@.values == old(self)@.values,
            final(self).wf() == old(self).wf(),
    {
        self.root = root;
    }

    /// The node store of the tree.
    pub fn nodes(&self) -> (r: &S)
        ensures
            r@ == self@.nodes,
            self.wf() ==> r.wf(),
    {
        &self.nodes
    }

    /// The value store of the tree.
    pub fn values(&self) -> (r: &S)
        ensures
            r@ == self@.values,
            self.wf() ==> r.wf(),
    {
        &self.values
    }

    /// Gets the value of a key from the tree, reading the value store at the
    /// key's path; `None` when the tree is empty or the key is absent.
    pub fn get(&self, key: &[u8]) -> (r: Result<Option<Vec<u8>>, Error>)
        requires
            self.wf(),
        ensures
            r is Ok,
            opt_view(&r->Ok_0) == spec_get(self@, key@),
    {
        if is_placeholder(self.root.as_slice()) {
            return Ok(None);
        }
        let path = path_of(key);
        Ok(self.values.get(path.as_slice()))
    }

    /// Returns true iff the key holds a non-default value in the tree.
    pub fn contains(&self, key: &[u8]) -> (r: Result<bool, Error>)
        requires
            self.wf(),
        ensures
            r is Ok,
            r->Ok_0 == (spec_get(self@, key@) is Some),
    {
        if is_placeholder(self.root.as_slice()) {
            return Ok(false);
        }
        let path = path_of(key);
        Ok(self.values.contains(path.as_slice()))
    }

    /// Collects the sidenodes and on-path nodes for a path from a root, with
    /// the serialized data of the terminal node, and of its sibling when
    /// `get_sibling_data` is set.
    #[verifier::loop_isolation(false)]
    #[verifier::rlimit(60)]
    fn side_nodes_for_root(&self, path: &Vec<u8>, root: &Vec<u8>, get_sibling_data: bool) -> (r:
        UpdateResult)
        requires
            self.wf(),
            path@.len() == 32,
        ensures
            ({
                let w = spec_side_nodes(self@.nodes, path@, root@, get_sibling_data);
                &&& views(r.side_nodes@) == w.sides
                &&& views(r.path_nodes@) == w.paths
                &&& opt_view(&r.current_data) == w.cur
                &&& opt_view(&r.sibling_data) == w.sib
                &&& r.side_nodes@.len() <= 256
                &&& r.path_nodes@.len() >= 1
            }),
    {
        let mut side_nodes: Vec<Vec<u8>> = Vec::new();
        let mut path_nodes: Vec<Vec<u8>> = Vec::new();
        path_nodes.push(bytes_clone(root));
        proof {
            assert(views(path_nodes@) =~= seq![root@]);
        }
        if is_placeholder(root.as_slice()) {
            return UpdateResult { side_nodes, path_nodes, sibling_data: None, current_data: None };
        }
        let current_data_start = self.nodes.get(root.as_slice());
        if is_leaf(&current_data_start) {
            return UpdateResult {
                side_nodes,
                path_nodes,
                sibling_data: None,
                current_data: current_data_start,
            };
        }
        let mut current_data = current_data_start;
        let ghost nodes = self@.nodes;
        let ghost rd = opt_view(&current_data);
        let ghost w0 = spec_walk(nodes, path@, rd, 0);
        let ghost w = spec_side_nodes(nodes, path@, root@, get_sibling_data);
        proof {
            lemma_walk_len(nodes, path@, rd, 0);
            assert(w.sides == w0.sides && w.paths == w0.paths.push(root@) && w.cur == w0.cur);
        }
        for i in 0..PATH_BITS
            invariant
                side_nodes@.len() == i,
                path_nodes@.len() == i + 1,
                views(path_nodes@)[0] == root@,
                ({
                    let wi = spec_walk(nodes, path@, opt_view(&current_data), i as int);
                    &&& w0.sides =~= wi.sides + views(side_nodes@).reverse()
                    &&& w0.paths =~= wi.paths + views(path_nodes@).skip(1).reverse()
                    &&& w0.cur == wi.cur
                    &&& w0.early == wi.early
                }),
        {
            let ghost wi = spec_walk(nodes, path@, opt_view(&current_data), i as int);
            let (left_node, right_node) = parse_node(&current_data);
            let bit = get_bit_at_from_msb(path.as_slice(), i);
            let (side_node, node_hash) = if bit == 1 {
                (left_node, right_node)
            } else {
                (right_node, left_node)
            };
            let ghost pre_sides = views(side_nodes@);
            let ghost pre_paths = views(path_nodes@);
            let terminal = is_placeholder(node_hash.as_slice());
            let next_data = if terminal {
                None
            } else {
                self.nodes.get(node_hash.as_slice())
            };
            let leaf_end = !terminal && is_leaf(&next_data);
            if terminal || leaf_end {
                let sibling_data = if get_sibling_data {
                    self.nodes.get(side_node.as_slice())
                } else {
                    None
                };
                proof {
                    assert(wi.sides == seq![side_node@] && wi.paths == seq![node_hash@]);
                    assert(wi.early);
                }
                side_nodes.push(side_node);
                path_nodes.push(node_hash);
                let final_sides = reverse_vecs(side_nodes);
                let final_paths = reverse_vecs(path_nodes);
                proof {
                    assert(views(final_sides@) =~= wi.sides + pre_sides.reverse());
                    assert(views(final_paths@) =~= (wi.paths + pre_paths.skip(1).reverse()).push(
                        root@,
                    ));
                    assert(views(final_sides@) == w.sides);
                    assert(views(final_paths@) == w.paths);
                    assert(w0.sides[0] == side_node@);
                    assert(opt_view(&sibling_data) == w.sib);
                    assert(opt_view(&next_data) == w.cur);
                }
                return UpdateResult {
                    side_nodes: final_sides,
                    path_nodes: final_paths,
                    sibling_data,
                    current_data: next_data,
                };
            }
            side_nodes.push(side_node);
            path_nodes.push(node_hash);
            proof {
                let wn = spec_walk(nodes, path@, opt_view(&next_data), i + 1);
                assert(wi.sides == wn.sides.push(side_node@));
                assert(wi.paths == wn.paths.push(node_hash@));
                assert(views(side_nodes@) =~= pre_sides.push(side_node@));
                assert(views(path_nodes@) =~= pre_paths.push(node_hash@));
                assert(wn.sides.push(side_node@) + pre_sides.reverse() =~= wn.sides + views(
                    side_nodes@,
                ).reverse());
                assert(wn.paths.push(node_hash@) + pre_paths.skip(1).reverse() =~= wn.paths + views(
                    path_nodes@,
                ).skip(1).reverse());
            }
            current_data = next_data;
        }
        let final_sides = reverse_vecs(side_nodes);
        let final_paths = reverse_vecs(path_nodes);
        proof {
            let wi = spec_walk(nodes, path@, opt_view(&current_data), 256);
            assert(wi.sides =~= Seq::<Seq<u8>>::empty());
            assert(wi.paths =~= Seq::<Seq<u8>>::empty());
            assert(views(final_sides@) =~= w0.sides);
            assert(views(final_paths@) =~= w0.paths.push(root@));
            assert(!w0.early);
        }
        UpdateResult {
            side_nodes: final_sides,
            path_nodes: final_paths,
            sibling_data: None,
            current_data,
        }
    }

    /// Removes the leaf found by a completed walk, rebuilding the tree
    /// bottom-up from the sidenodes; returns the new root, or `None` when
    /// the key was already absent.
    #[verifier::loop_isolation(false)]
    #[verifier::rlimit(60)]
    fn remove_with_side_nodes(
        &mut self,
        path: &Vec<u8>,
        side_nodes: Vec<Vec<u8>>,
        path_nodes: Vec<Vec<u8>>,
        old_leaf_data: Option<Vec<u8>>,
    ) -> (r: Option<Vec<u8>>)
        requires
            old(self).wf(),
            path@.len() == 32,
            path_nodes@.len() >= 1,
            side_nodes@.len() <= 256,
        ensures
            final(self).wf(),
            final(self)@.values == old(self)@.values,
            final(self)@.root == old(self)@.root,
            ({
                let (n2, res) = spec_delete(
                    old(self)@.nodes,
                    path@,
                    views(side_nodes@),
                    views(path_nodes@),
                    opt_view(&old_leaf_data),
                );
                &&& final(self)@.nodes == n2
                &&& opt_view(&r) == res
            }),
    {
        let ghost sides = views(side_nodes@);
        let ghost paths = views(path_nodes@);
        if is_placeholder(path_nodes[0].as_slice()) {
            return None;
        }
        let (actual_path, _rest) = match &old_leaf_data {
            Some(d) => parse_leaf(d.as_slice()),
            None => (Vec::new(), Vec::new()),
        };
        if !bytes_eq(actual_path.as_slice(), path.as_slice()) {
            return None;
        }
        let ghost nodes0 = self@.nodes;
        let n_paths = path_nodes.len();
        for idx in 0..n_paths
            invariant
                self.wf(),
                self@.values == old(self)@.values,
                self@.root == old(self)@.root,
                remove_keys(self@.nodes, paths, idx as int) == remove_keys(nodes0, paths, 0),
        {
            proof {
                assert(paths[idx as int] == path_nodes@[idx as int]@);
            }
            self.nodes.remove(path_nodes[idx].as_slice());
        }
        let num = side_nodes.len();
        let mut current_data: Vec<u8> = Vec::new();
        let mut current_hash: Vec<u8> = Vec::new();
        let mut non_placeholder_reached = false;
        let ghost st0 = DelState {
            nodes: self@.nodes,
            cur_hash: Seq::empty(),
            cur_data: Seq::empty(),
            npr: false,
        };
        for idx in 0..num
            invariant
                self.wf(),
                self@.values == old(self)@.values,
                self@.root == old(self)@.root,
                spec_del_climb(
                    DelState {
                        nodes: self@.nodes,
                        cur_hash: current_hash@,
                        cur_data: current_data@,
                        npr: non_placeholder_reached,
                    },
                    path@,
                    sides,
                    idx as int,
                ) == spec_del_climb(st0, path@, sides, 0),
        {
            let ghost st_old = DelState {
                nodes: self@.nodes,
                cur_hash: current_hash@,
                cur_data: current_data@,
                npr: non_placeholder_reached,
            };
            let side_node = &side_nodes[idx];
            proof {
                assert(sides[idx as int] == side_node@);
            }
            let mut bubbled = false;
            if current_data.is_empty() {
                let side_node_value = self.nodes.get(side_node.as_slice());
                if is_leaf(&side_node_value) {
                    current_hash = bytes_clone(side_node);
                    current_data = bytes_clone(side_node);
                    bubbled = true;
                } else {
                    current_data = placeholder();
                    non_placeholder_reached = true;
                }
            }
            if !bubbled {
                if !non_placeholder_reached && is_placeholder(side_node.as_slice()) {
                } else {
                    non_placeholder_reached = true;
                    let bit = get_bit_at_from_msb(path.as_slice(), num - idx - 1);
                    let (h, d) = if bit == 1 {
                        digest_node(side_node.as_slice(), current_data.as_slice())
                    } else {
                        digest_node(current_data.as_slice(), side_node.as_slice())
                    };
                    self.nodes.set(bytes_clone(&h), d);
                    current_hash = h;
                    current_data = bytes_clone(&current_hash);
                }
            }
            proof {
                let st_new = DelState {
                    nodes: self@.nodes,
                    cur_hash: current_hash@,
                    cur_data: current_data@,
                    npr: non_placeholder_reached,
                };
                assert(st_new == spec_del_step(st_old, path@, sides[idx as int], num - idx - 1));
            }
        }
        if current_hash.is_empty() {
            current_hash = placeholder();
        }
        proof {
            let st = spec_del_climb(st0, path@, sides, 0);
            assert(current_hash@ == if st.cur_hash.len() == 0 {
                placeholder_spec()
            } else {
                st.cur_hash
            });
        }
        Some(current_hash)
    }

    /// Inserts or overwrites the value at `path`, given a completed walk,
    /// rebuilding the path to the new root; returns the new root.  A
    /// same-value overwrite leaves the stores untouched and returns the
    /// operated root.
    #[verifier::loop_isolation(false)]
    #[verifier::rlimit(60)]
    fn update_with_side_notes(
        &mut self,
        path: Vec<u8>,
        value: Vec<u8>,
        side_nodes: Vec<Vec<u8>>,
        path_nodes: Vec<Vec<u8>>,
        old_leaf_data: Option<Vec<u8>>,
        root: Vec<u8>,
    ) -> (r: Vec<u8>)
        requires
            old(self).wf(),
            path@.len() == 32,
            path_nodes@.len() >= 1,
            side_nodes@.len() <= 256,
        ensures
            final(self).wf(),
            final(self)@.root == old(self)@.root,
            ({
                let (m2, nr) = spec_insert(
                    old(self)@,
                    path@,
                    value@,
                    views(side_nodes@),
                    views(path_nodes@),
                    opt_view(&old_leaf_data),
                    root@,
                );
                &&& final(self)@ == m2
                &&& r@ == nr
            }),
    {
        let ghost sides = views(side_nodes@);
        let ghost paths = views(path_nodes@);
        let value_hash = digest(value.as_slice());
        let placeholder_first = is_placeholder(path_nodes[0].as_slice());
        proof {
            assert(paths[0] == path_nodes@[0]@);
        }
        let (common_prefix_count, old_value_hash): (usize, Option<Vec<u8>>) = if placeholder_first {
            (PATH_BITS, None)
        } else {
            let (actual_path, ovh) = match &old_leaf_data {
                Some(d) => parse_leaf(d.as_slice()),
                None => (Vec::new(), Vec::new()),
            };
            (count_common_prefix(path.as_slice(), actual_path.as_slice()), Some(ovh))
        };
        proof {
            crate::lemma_common_prefix_bounds(path@, parse_leaf_spec(opt_or_empty(opt_view(&old_leaf_data))).0);
        }
        if common_prefix_count == PATH_BITS {
            if let Some(ovh) = &old_value_hash {
                if bytes_eq(value_hash.as_slice(), ovh.as_slice()) {
                    return root;
                }
            }
        }
        let (leaf_hash, leaf_data) = digest_leaf(path.as_slice(), value_hash.as_slice());
        self.nodes.set(bytes_clone(&leaf_hash), leaf_data);
        let mut current_hash = leaf_hash;
        if common_prefix_count != PATH_BITS {
            let bit = get_bit_at_from_msb(path.as_slice(), common_prefix_count);
            let (h, d) = if bit == 1 {
                digest_node(path_nodes[0].as_slice(), current_hash.as_slice())
            } else {
                digest_node(current_hash.as_slice(), path_nodes[0].as_slice())
            };
            self.nodes.set(bytes_clone(&h), d);
            current_hash = h;
        } else if old_value_hash.is_some() {
            self.nodes.remove(path_nodes[0].as_slice());
            self.values.remove(path.as_slice());
        }
        let ghost nodes1 = self@.nodes;
        let n_paths = path_nodes.len();
        for idx in 1..n_paths
            invariant
                self.wf(),
                self@.values == (if common_prefix_count == PATH_BITS && !placeholder_first {
                    old(self)@.values.remove(path@)
                } else {
                    old(self)@.values
                }),
                self@.root == old(self)@.root,
                remove_keys(self@.nodes, paths, idx as int) == remove_keys(nodes1, paths, 1),
        {
            proof {
                assert(paths[idx as int] == path_nodes@[idx as int]@);
            }
            self.nodes.remove(path_nodes[idx].as_slice());
        }
        let offset_of_side_nodes = PATH_BITS - side_nodes.len();
        let ghost st0 = InsState { nodes: self@.nodes, cur: current_hash@ };
        let ghost cpc = common_prefix_count as int;
        for i in 0..PATH_BITS
            invariant
                self.wf(),
                self@.values == (if common_prefix_count == PATH_BITS && !placeholder_first {
                    old(self)@.values.remove(path@)
                } else {
                    old(self)@.values
                }),
                self@.root == old(self)@.root,
                spec_ins_climb(
                    InsState { nodes: self@.nodes, cur: current_hash@ },
                    path@,
                    sides,
                    cpc,
                    i as int,
                ) == spec_ins_climb(st0, path@, sides, cpc, 0),
        {
            let ghost st_old = InsState { nodes: self@.nodes, cur: current_hash@ };
            if i >= offset_of_side_nodes {
                let side = &side_nodes[i - offset_of_side_nodes];
                proof {
                    assert(sides[i - offset_of_side_nodes] == side@);
                }
                let bit = get_bit_at_from_msb(path.as_slice(), PATH_BITS - i - 1);
                let (h, d) = if bit == 1 {
                    digest_node(side.as_slice(), current_hash.as_slice())
                } else {
                    digest_node(current_hash.as_slice(), side.as_slice())
                };
                self.nodes.set(bytes_clone(&h), d);
                current_hash = h;
            } else if common_prefix_count != PATH_BITS && common_prefix_count > PATH_BITS - i - 1 {
                let bit = get_bit_at_from_msb(path.as_slice(), PATH_BITS - i - 1);
                let (h, d) = if bit == 1 {
                    digest_right_node(current_hash.as_slice())
                } else {
                    digest_left_node(current_hash.as_slice())
                };
                self.nodes.set(bytes_clone(&h), d);
                current_hash = h;
            }
            proof {
                let st_new = InsState { nodes: self@.nodes, cur: current_hash@ };
                assert(spec_ins_climb(st_new, path@, sides, cpc, i + 1) == spec_ins_climb(
                    st_old,
                    path@,
                    sides,
                    cpc,
                    i as int,
                ));
            }
        }
        let ghost path_v = path@;
        let ghost value_v = value@;
        self.values.set(path, value);
        proof {
            assert(self@.values == (if common_prefix_count == PATH_BITS && !placeholder_first {
                old(self)@.values.remove(path_v)
            } else {
                old(self)@.values
            }).insert(path_v, value_v));
        }
        current_hash
    }

    /// Sets a new value for a key in the tree; an empty value removes the
    /// key.
    pub fn update(&mut self, key: &[u8], value: Vec<u8>) -> (r: Result<(), Error>)
        requires
            old(self).wf(),
        ensures
            final(self).wf(),
            r is Ok,
            final(self)@ == spec_update(old(self)@, key@, value@),
    {
        let root = self.root();
        let new_root = match self.update_for_root(key, value, root) {
            Ok(nr) => nr,
            Err(e) => {
                return Err(e);
            },
        };
        self.set_root(new_root);
        Ok(())
    }

    /// Sets a new value for a key in the tree at a specific root, and
    /// returns the new root; the tree's own root is left unchanged.
    pub fn update_for_root(&mut self, key: &[u8], value: Vec<u8>, root: Vec<u8>) -> (r: Result<
        Vec<u8>,
        Error,
    >)
        requires
            old(self).wf(),
        ensures
            final(self).wf(),
            r is Ok,
            ({
                let (m2, nr) = spec_update_for_root(old(self)@, key@, value@, root@);
                &&& final(self)@ == m2
                &&& r->Ok_0@ == nr
            }),
    {
        let path = path_of(key);
        let ur = self.side_nodes_for_root(&path, &root, false);
        if value.len() == 0 {
            let new_root = self.remove_with_side_nodes(
                &path,
                ur.side_nodes,
                ur.path_nodes,
                ur.current_data,
            );
            match new_root {
                Some(nr) => {
                    self.values.remove(path.as_slice());
                    Ok(nr)
                },
                None => Ok(root),
            }
        } else {
            Ok(
                self.update_with_side_notes(
                    path,
                    value,
                    ur.side_nodes,
                    ur.path_nodes,
                    ur.current_data,
                    root,
                ),
            )
        }
    }

    /// Removes a key from the tree.
    pub fn remove(&mut self, key: &[u8]) -> (r: Result<(), Error>)
        requires
            old(self).wf(),
        ensures
            final(self).wf(),
            r is Ok,
            final(self)@ == spec_update(old(self)@, key@, Seq::<u8>::empty()),
    {
        self.update(key, Vec::new())
    }

    /// Removes a key from the tree at a specific root, and returns the new
    /// root; the tree's own root is left unchanged.
    pub fn remove_for_root(&mut self, key: &[u8], root: Vec<u8>) -> (r: Result<Vec<u8>, Error>)
        requires
            old(self).wf(),
        ensures
            final(self).wf(),
            r is Ok,
            ({
                let (m2, nr) = spec_update_for_root(old(self)@, key@, Seq::<u8>::empty(), root@);
                &&& final(self)@ == m2
                &&& r->Ok_0@ == nr
            }),
    {
        self.update_for_root(key, Vec::new(), root)
    }

    /// Gets the value of a key by descending the tree from the root; use
    /// after branches were added with `add_branch`, where the value store
    /// alone cannot tell a missing key from a missing branch.
    #[verifier::loop_isolation(false)]
    pub fn get_descend(&self, key: &[u8]) -> (r: Result<Option<Vec<u8>>, Error>)
        requires
            self.wf(),
        ensures
            r is Ok,
            opt_view(&r->Ok_0) == spec_get_descend(self@, key@),
    {
        if is_placeholder(self.root.as_slice()) {
            return Ok(None);
        }
        let path = path_of(key);
        let ghost nodes = self@.nodes;
        let ghost vals = self@.values;
        let mut current_hash = bytes_clone(&self.root);
        let mut i: usize = 0;
        loop
            invariant
                i <= 256,
                path@.len() == 32,
                spec_descend(nodes, vals, path@, current_hash@, i as int) == spec_descend(
                    nodes,
                    vals,
                    path@,
                    self@.root,
                    0,
                ),
            decreases 256 - i,
        {
            if i >= PATH_BITS {
                return Ok(self.values.get(path.as_slice()));
            }
            let current_data = self.nodes.get(current_hash.as_slice());
            if is_leaf(&current_data) {
                let (actual_path, _rest) = match &current_data {
                    Some(d) => parse_leaf(d.as_slice()),
                    None => (Vec::new(), Vec::new()),
                };
                if !bytes_eq(actual_path.as_slice(), path.as_slice()) {
                    return Ok(None);
                }
                return Ok(self.values.get(path.as_slice()));
            }
            let (left, right) = parse_node(&current_data);
            let bit = get_bit_at_from_msb(path.as_slice(), i);
            current_hash = if bit == 1 {
                right
            } else {
                left
            };
            if is_placeholder(current_hash.as_slice()) {
                return Ok(None);
            }
            i += 1;
        }
    }

    /// Returns true iff the key holds a non-default value, found by
    /// descending the tree from the root.
    pub fn has_descend(&self, key: &[u8]) -> (r: Result<bool, Error>)
        requires
            self.wf(),
        ensures
            r is Ok,
            r->Ok_0 == (spec_get_descend(self@, key@) is Some),
    {
        match self.get_descend(key) {
            Ok(v) => Ok(v.is_some()),
            Err(e) => Err(e),
        }
    }

    /// Generates a Merkle proof for a key against a specific root.
    #[verifier::loop_isolation(false)]
    fn do_prove_for_root(&self, key: &[u8], root: Vec<u8>, is_updatable: bool) -> (r: Result<
        SparseMerkleProof,
        Error,
    >)
        requires
            self.wf(),
        ensures
            r is Ok,
            r->Ok_0@ == spec_prove(self@.nodes, digest32_of(key@), root@, is_updatable),
            r->Ok_0@.side_nodes.len() <= 256,
    {
        let path = path_of(key);
        let ur = self.side_nodes_for_root(&path, &root, is_updatable);
        let ghost w = spec_side_nodes(self@.nodes, path@, root@, is_updatable);
        let num = ur.side_nodes.len();
        let mut non_empty_side_nodes: Vec<Vec<u8>> = Vec::new();
        for i in 0..num
            invariant
                non_empty_side_nodes@.len() <= i,
                views(non_empty_side_nodes@) == nonempty_sides(w.sides.take(i as int)),
        {
            let ghost pre = views(non_empty_side_nodes@);
            proof {
                assert(w.sides.take(i + 1).drop_last() =~= w.sides.take(i as int));
                assert(w.sides.take(i + 1).last() == w.sides[i as int]);
                assert(views(ur.side_nodes@)[i as int] == ur.side_nodes@[i as int]@);
            }
            if ur.side_nodes[i].len() > 0 {
                non_empty_side_nodes.push(bytes_clone(&ur.side_nodes[i]));
                proof {
                    assert(views(non_empty_side_nodes@) =~= pre.push(w.sides[i as int]));
                }
            }
        }
        proof {
            assert(w.sides.take(num as int) =~= w.sides);
        }
        let non_membership_leaf_data: Option<Vec<u8>> = match &ur.current_data {
            Some(leaf_data) => {
                if !is_placeholder(ur.path_nodes[0].as_slice()) {
                    proof {
                        assert(views(ur.path_nodes@)[0] == ur.path_nodes@[0]@);
                    }
                    let (actual_path, _rest) = parse_leaf(leaf_data.as_slice());
                    if !bytes_eq(actual_path.as_slice(), path.as_slice()) {
                        Some(bytes_clone(leaf_data))
                    } else {
                        None
                    }
                } else {
                    None
                }
            },
            None => None,
        };
        Ok(SparseMerkleProof::new(non_empty_side_nodes, non_membership_leaf_data, ur.sibling_data))
    }

    /// Generates a Merkle proof for a key against the current root.  The
    /// number of sidenodes never exceeds the tree depth.
    pub fn prove(&self, key: &[u8]) -> (r: Result<SparseMerkleProof, Error>)
        requires
            self.wf(),
        ensures
            r is Ok,
            r->Ok_0@ == spec_prove(self@.nodes, digest32_of(key@), self@.root, false),
            r->Ok_0@.side_nodes.len() <= 256,
    {
        let root = self.root();
        self.do_prove_for_root(key, root, false)
    }

    /// Generates a Merkle proof for a key against a specific root; useful
    /// for proofs over subtrees.
    pub fn prove_for_root(&self, key: &[u8], root: Vec<u8>) -> (r: Result<SparseMerkleProof, Error>)
        requires
            self.wf(),
        ensures
            r is Ok,
            r->Ok_0@ == spec_prove(self@.nodes, digest32_of(key@), root@, false),
            r->Ok_0@.side_nodes.len() <= 256,
    {
        self.do_prove_for_root(key, root, false)
    }

    /// Generates an updatable Merkle proof for a key against the current
    /// root, carrying the bottom sibling's bytes.
    pub fn prove_updatable(&self, key: &[u8]) -> (r: Result<SparseMerkleProof, Error>)
        requires
            self.wf(),
        ensures
            r is Ok,
            r->Ok_0@ == spec_prove(self@.nodes, digest32_of(key@), self@.root, true),
            r->Ok_0@.side_nodes.len() <= 256,
    {
        let root = self.root();
        self.do_prove_for_root(key, root, true)
    }

    /// Generates an updatable Merkle proof for a key against a specific
    /// root.
    pub fn prove_updatable_for_root(&self, key: &[u8], root: Vec<u8>) -> (r: Result<
        SparseMerkleProof,
        Error,
    >)
        requires
            self.wf(),
        ensures
            r is Ok,
            r->Ok_0@ == spec_prove(self@.nodes, digest32_of(key@), root@, true),
            r->Ok_0@.side_nodes.len() <= 256,
    {
        self.do_prove_for_root(key, root, true)
    }

    /// Generates a compacted Merkle proof for a key against the current
    /// root.
    pub fn prove_compact(&self, key: &[u8]) -> (r: Result<SparseCompactMerkleProof, Error>)
        requires
            self.wf(),
        ensures
            ({
                let pm = spec_prove(self@.nodes, digest32_of(key@), self@.root, false);
                match r {
                    Ok(c) => spec_sanity(pm) && crate::proofs::compact_rel(pm, c@),
                    Err(_) => !spec_sanity(pm),
                }
            }),
    {
        let root = self.root();
        self.prove_compact_for_root(key, root)
    }

    /// Generates a compacted Merkle proof for a key at a specific root.
    pub fn prove_compact_for_root(&self, key: &[u8], root: Vec<u8>) -> (r: Result<
        SparseCompactMerkleProof,
        Error,
    >)
        requires
            self.wf(),
        ensures
            ({
                let pm = spec_prove(self@.nodes, digest32_of(key@), root@, false);
                match r {
                    Ok(c) => spec_sanity(pm) && crate::proofs::compact_rel(pm, c@),
                    Err(_) => !spec_sanity(pm),
                }
            }),
    {
        let pf = match self.do_prove_for_root(key, root, false) {
            Ok(pf) => pf,
            Err(e) => {
                return Err(e);
            },
        };
        match pf.compact_into() {
            Ok(c) => Ok(c),
            Err(e) => Err(Error::BadProof(e)),
        }
    }

    /// Adds a branch generated by an updatable proof to the tree, so that
    /// descent, proving and updating work against that subtree; an invalid
    /// proof is rejected and the tree is left unchanged.
    pub fn add_branch(&mut self, branch_proof: SparseMerkleProof, key: &[u8], val: &[u8]) -> (r:
        Result<(), Error>)
        requires
            old(self).wf(),
        ensures
            final(self).wf(),
            spec_verify(branch_proof@, old(self)@.root, key@, val@) ==> r is Ok && final(self)@
                == spec_add_branch(old(self)@, branch_proof@, key@, val@),
            !spec_verify(branch_proof@, old(self)@.root, key@, val@) ==> r is Err && final(self)@
                == old(self)@ && r->Err_0 is BadProof,
    {
        let (result, updates) = branch_proof.verify_proof_with_updates(
            self.root.as_slice(),
            key,
            val,
        );
        if !result {
            return Err(Error::BadProof(BadProof));
        }
        if val.len() != 0 {
            let path = path_of(key);
            let value = crate::tree_hasher::copy_range(val, 0, val.len());
            proof {
                assert(value@ =~= val@);
            }
            self.values.set(path, value);
        }
        let ghost ups = spec_updates(branch_proof@, key@, val@);
        let ghost nodes0 = self@.nodes;
        let n_ups = updates.len();
        for idx in 0..n_ups
            invariant
                self.wf(),
                n_ups == updates@.len(),
                ups == crate::proofs::pairs_views(updates@),
                self@.values == (if val@.len() > 0 {
                    old(self)@.values.insert(digest32_of(key@), val@)
                } else {
                    old(self)@.values
                }),
                self@.root == old(self)@.root,
                insert_pairs(self@.nodes, ups, idx as int) == insert_pairs(nodes0, ups, 0),
        {
            proof {
                assert(ups[idx as int] == (updates@[idx as int].0@, updates@[idx as int].1@));
            }
            let h = bytes_clone(&updates[idx].0);
            let d = bytes_clone(&updates[idx].1);
            self.nodes.set(h, d);
        }
        if branch_proof.side_nodes().len() > 0 {
            if let Some(sibling) = branch_proof.sibling_data() {
                let first = bytes_clone(&branch_proof.side_nodes()[0]);
                proof {
                    assert(branch_proof@.side_nodes[0] == first@);
                }
                self.nodes.set(first, bytes_clone(sibling));
            }
        }
        Ok(())
    }
}

/// The running state of the bottom-up rebuild that follows a deletion: the
/// node store so far, the hash and data of the subtree built so far, and
/// whether a non-placeholder sibling has been passed.
pub ghost struct DelState {
    /// The node store.
    pub nodes: Map<Seq<u8>, Seq<u8>>,
    /// The hash of the subtree rebuilt so far; empty before any node exists.
    pub cur_hash: Seq<u8>,
    /// The running data value: empty at the start, then the bubbled leaf's
    /// hash or the last node hash.
    pub cur_data: Seq<u8>,
    /// Whether a non-placeholder sibling has been reached.
    pub npr: bool,
}

/// One level of the deletion climb, combining the sibling `side` at path bit
/// `bit_idx`: a lone leaf sibling bubbles up, placeholder siblings below the
/// first non-placeholder one are skipped, and every other level hashes a new
/// internal node into the store.
pub open spec fn spec_del_step(st: DelState, path: Seq<u8>, side: Seq<u8>, bit_idx: int) -> DelState {
    if st.cur_data.len() == 0 && is_leaf_spec(map_opt_get(st.nodes, side)) {
        DelState { cur_hash: side, cur_data: side, ..st }
    } else {
        let st1 = if st.cur_data.len() == 0 {
            DelState { cur_data: placeholder_spec(), npr: true, ..st }
        } else {
            st
        };
        if !st1.npr && side == placeholder_spec() {
            st1
        } else {
            let (h, d) = if bit_at(path, bit_idx) {
                (node_hash_spec(side, st1.cur_data), node_data_spec(side, st1.cur_data))
            } else {
                (node_hash_spec(st1.cur_data, side), node_data_spec(st1.cur_data, side))
            };
            DelState { nodes: st1.nodes.insert(h, d), cur_hash: h, cur_data: h, npr: true }
        }
    }
}

/// Folds the deletion climb over the sidenodes from index `i` upward.
pub open spec fn spec_del_climb(st: DelState, path: Seq<u8>, sides: Seq<Seq<u8>>, i: int) -> DelState
    decreases sides.len() - i,
{
    if i < 0 || i >= sides.len() {
        st
    } else {
        spec_del_climb(
            spec_del_step(st, path, sides[i], sides.len() - i - 1),
            path,
            sides,
            i + 1,
        )
    }
}

/// Removes the keys of a sequence from a map, from index `i` on.
pub open spec fn remove_keys(
    nodes: Map<Seq<u8>, Seq<u8>>,
    ks: Seq<Seq<u8>>,
    i: int,
) -> Map<Seq<u8>, Seq<u8>>
    decreases ks.len() - i,
{
    if i < 0 || i >= ks.len() {
        nodes
    } else {
        remove_keys(nodes.remove(ks[i]), ks, i + 1)
    }
}

/// What deleting the leaf at `path` does to the node store, given a
/// completed walk: nothing when the key is absent (the walk ended at a
/// placeholder or at a leaf with another path); otherwise every on-path node
/// is removed and the tree is rebuilt bottom-up from the sidenodes, and the
/// new root is returned (the placeholder when the tree became empty).
pub open spec fn spec_delete(
    nodes: Map<Seq<u8>, Seq<u8>>,
    path: Seq<u8>,
    sides: Seq<Seq<u8>>,
    paths: Seq<Seq<u8>>,
    cur: Option<Seq<u8>>,
) -> (Map<Seq<u8>, Seq<u8>>, Option<Seq<u8>>) {
    if paths[0] == placeholder_spec() {
        (nodes, None)
    } else if parse_leaf_spec(opt_or_empty(cur)).0 != path {
        (nodes, None)
    } else {
        let nodes1 = remove_keys(nodes, paths, 0);
        let st = spec_del_climb(
            DelState {
                nodes: nodes1,
                cur_hash: Seq::empty(),
                cur_data: Seq::empty(),
                npr: false,
            },
            path,
            sides,
            0,
        );
        (
            st.nodes,
            Some(
                if st.cur_hash.len() == 0 {
                    placeholder_spec()
                } else {
                    st.cur_hash
                },
            ),
        )
    }
}

/// The running state of the insert climb: the node store so far and the
/// hash of the subtree built so far.
pub ghost struct InsState {
    /// The node store.
    pub nodes: Map<Seq<u8>, Seq<u8>>,
    /// The hash of the subtree built so far.
    pub cur: Seq<u8>,
}

/// The insert climb from level `i` (deepest first) up to the root.  Where a
/// recorded sidenode exists it is combined at the matching path bit; above
/// the walk's reach, levels inside the region where the two colliding paths
/// agreed are built with placeholder siblings; all other levels are elided.
pub open spec fn spec_ins_climb(
    st: InsState,
    path: Seq<u8>,
    sides: Seq<Seq<u8>>,
    cpc: int,
    i: int,
) -> InsState
    decreases 256 - i,
{
    if i < 0 || i >= 256 {
        st
    } else {
        let offset = 256 - sides.len();
        let st1 = if i >= offset {
            let side = sides[i - offset];
            let (h, d) = if bit_at(path, 256 - i - 1) {
                (node_hash_spec(side, st.cur), node_data_spec(side, st.cur))
            } else {
                (node_hash_spec(st.cur, side), node_data_spec(st.cur, side))
            };
            InsState { nodes: st.nodes.insert(h, d), cur: h }
        } else if cpc != 256 && cpc > 256 - i - 1 {
            let (h, d) = if bit_at(path, 256 - i - 1) {
                (
                    node_hash_spec(placeholder_spec(), st.cur),
                    node_data_spec(placeholder_spec(), st.cur),
                )
            } else {
                (
                    node_hash_spec(st.cur, placeholder_spec()),
                    node_data_spec(st.cur, placeholder_spec()),
                )
            };
            InsState { nodes: st.nodes.insert(h, d), cur: h }
        } else {
            st
        };
        spec_ins_climb(st1, path, sides, cpc, i + 1)
    }
}

/// What inserting `value` at `path` does to the tree at `root`, given a
/// completed walk.  When the walk ended at a leaf binding this path to this
/// value's hash, the write is a same-value overwrite: the stores stay
/// untouched and the given root comes back.  Otherwise the new leaf is
/// stored; when the walk ended at a leaf with another path, a splitter
/// joins the two at their first differing bit, and a leaf with the same
/// path but another value is replaced; the orphaned on-path nodes are
/// removed; and the climb rebuilds the path to the new root.
pub open spec fn spec_insert(
    m: TreeModel,
    path: Seq<u8>,
    value: Seq<u8>,
    sides: Seq<Seq<u8>>,
    paths: Seq<Seq<u8>>,
    cur: Option<Seq<u8>>,
    root: Seq<u8>,
) -> (TreeModel, Seq<u8>) {
    let vh = digest32_of(value);
    let pl = parse_leaf_spec(opt_or_empty(cur));
    let cpc = if paths[0] == placeholder_spec() {
        256int
    } else {
        common_prefix_len(path, pl.0)
    };
    let has_old = paths[0] != placeholder_spec();
    if cpc == 256 && has_old && pl.1 == vh {
        (m, root)
    } else {
        let leaf_h = leaf_hash_spec(path, vh);
        let leaf_d = leaf_data_spec(path, vh);
        let nodes0 = m.nodes.insert(leaf_h, leaf_d);
        let (nodes1, cur1) = if cpc != 256 {
            let (h, d) = if bit_at(path, cpc) {
                (node_hash_spec(paths[0], leaf_h), node_data_spec(paths[0], leaf_h))
            } else {
                (node_hash_spec(leaf_h, paths[0]), node_data_spec(leaf_h, paths[0]))
            };
            (nodes0.insert(h, d), h)
        } else if has_old {
            (nodes0.remove(paths[0]), leaf_h)
        } else {
            (nodes0, leaf_h)
        };
        let values1 = if cpc == 256 && has_old {
            m.values.remove(path)
        } else {
            m.values
        };
        let nodes2 = remove_keys(nodes1, paths, 1);
        let st = spec_ins_climb(InsState { nodes: nodes2, cur: cur1 }, path, sides, cpc, 0);
        (
            TreeModel { nodes: st.nodes, values: values1.insert(path, value), root: m.root },
            st.cur,
        )
    }
}

/// What setting a key to a value at a given root does to the stores, and
/// the new root it yields.  An empty value is a delete: when the key is
/// absent the stores are untouched and the given root comes back; otherwise
/// the on-path nodes are removed, the tree is rebuilt from the sidenodes,
/// and the value entry is dropped.  A non-empty value is an insert.
pub open spec fn spec_update_for_root(
    m: TreeModel,
    key: Seq<u8>,
    value: Seq<u8>,
    root: Seq<u8>,
) -> (TreeModel, Seq<u8>) {
    let path = digest32_of(key);
    let w = spec_side_nodes(m.nodes, path, root, false);
    if value.len() == 0 {
        let (n2, res) = spec_delete(m.nodes, path, w.sides, w.paths, w.cur);
        match res {
            Some(nr) => (
                TreeModel { nodes: n2, values: m.values.remove(path), root: m.root },
                nr,
            ),
            None => (TreeModel { nodes: n2, values: m.values, root: m.root }, root),
        }
    } else {
        spec_insert(m, path, value, w.sides, w.paths, w.cur, root)
    }
}

/// What setting a key to a value does to the tree: the update at the
/// current root, with the tree's root moved to the result.
pub open spec fn spec_update(m: TreeModel, key: Seq<u8>, value: Seq<u8>) -> TreeModel {
    let (m2, nr) = spec_update_for_root(m, key, value, m.root);
    TreeModel { nodes: m2.nodes, values: m2.values, root: nr }
}

/// Descends from node hash `h` at depth `i` along the path bits: the value
/// at the path when a leaf with that path is reached (or the path is
/// exhausted), `None` at a placeholder or at a leaf with another path.
pub open spec fn spec_descend(
    nodes: Map<Seq<u8>, Seq<u8>>,
    values: Map<Seq<u8>, Seq<u8>>,
    path: Seq<u8>,
    h: Seq<u8>,
    i: int,
) -> Option<Seq<u8>>
    decreases 256 - i,
{
    if i < 0 || i >= 256 {
        map_opt_get(values, path)
    } else {
        let d = map_opt_get(nodes, h);
        if is_leaf_spec(d) {
            if parse_leaf_spec(opt_or_empty(d)).0 == path {
                map_opt_get(values, path)
            } else {
                None
            }
        } else {
            let (l, r) = parse_node_spec(d);
            let nh = if bit_at(path, i) {
                r
            } else {
                l
            };
            if nh == placeholder_spec() {
                None
            } else {
                spec_descend(nodes, values, path, nh, i + 1)
            }
        }
    }
}

/// Gets the value of a key by descending the node store from the root.
pub open spec fn spec_get_descend(m: TreeModel, key: Seq<u8>) -> Option<Seq<u8>> {
    if m.root == placeholder_spec() {
        None
    } else {
        spec_descend(m.nodes, m.values, digest32_of(key), m.root, 0)
    }
}

/// The sidenodes a walk yields that are kept in a proof: the non-empty
/// ones, in order.  Placeholder-elided levels of a partial store produce
/// empty entries, which a proof drops.
pub open spec fn nonempty_sides(s: Seq<Seq<u8>>) -> Seq<Seq<u8>>
    decreases s.len(),
{
    if s.len() == 0 {
        Seq::empty()
    } else {
        let rest = nonempty_sides(s.drop_last());
        if s.last().len() > 0 {
            rest.push(s.last())
        } else {
            rest
        }
    }
}

/// The Merkle proof generated for a path against a root: the non-empty
/// sidenodes of the walk; the serialized unrelated leaf when the walk ended
/// at a leaf with another path (a non-membership proof); and, for updatable
/// proofs, the serialized bytes of the deepest sibling.
pub open spec fn spec_prove(
    nodes: Map<Seq<u8>, Seq<u8>>,
    path: Seq<u8>,
    root: Seq<u8>,
    updatable: bool,
) -> ProofModel {
    let w = spec_side_nodes(nodes, path, root, updatable);
    ProofModel {
        side_nodes: nonempty_sides(w.sides),
        non_membership_leaf_data: match w.cur {
            Some(ld) => if w.paths[0] != placeholder_spec() && parse_leaf_spec(ld).0 != path {
                Some(ld)
            } else {
                None
            },
            None => None,
        },
        sibling_data: w.sib,
    }
}

/// Inserts a sequence of key-value pairs into a map, from index `i` on.
pub open spec fn insert_pairs(
    m: Map<Seq<u8>, Seq<u8>>,
    ups: Seq<(Seq<u8>, Seq<u8>)>,
    i: int,
) -> Map<Seq<u8>, Seq<u8>>
    decreases ups.len() - i,
{
    if i < 0 || i >= ups.len() {
        m
    } else {
        insert_pairs(m.insert(ups[i].0, ups[i].1), ups, i + 1)
    }
}

/// What adding a verified branch does to the stores: the value entry is
/// written for a membership proof, every node hashed during verification is
/// stored, and the sibling bytes of an updatable proof are stored under the
/// deepest sidenode.
pub open spec fn spec_add_branch(
    m: TreeModel,
    p: ProofModel,
    key: Seq<u8>,
    value: Seq<u8>,
) -> TreeModel {
    let path = digest32_of(key);
    let ups = spec_updates(p, key, value);
    let values1 = if value.len() > 0 {
        m.values.insert(path, value)
    } else {
        m.values
    };
    let nodes1 = insert_pairs(m.nodes, ups, 0);
    let nodes2 = match p.sibling_data {
        Some(sd) => if p.side_nodes.len() > 0 {
            nodes1.insert(p.side_nodes[0], sd)
        } else {
            nodes1
        },
        None => nodes1,
    };
    TreeModel { nodes: nodes2, values: values1, root: m.root }
}

/// Gets the value of a key when the tree is non-empty: the value store read
/// at the key's path.
pub open spec fn spec_get(m: TreeModel, key: Seq<u8>) -> Option<Seq<u8>> {
    if m.root == placeholder_spec() {
        None
    } else {
        map_opt_get(m.values, digest32_of(key))
    }
}

/// Round-trip, insert half: after setting a non-empty value for a key, a
/// read of that key returns the value, whenever the updated tree is
/// non-empty.  The one overwrite the engine short-circuits — the tree
/// already holds a leaf binding this key's path to this value's hash — asks
/// that the value store already hold the value, as it does in any tree the
/// engine built itself.
pub proof fn lemma_update_get_round_trip(m: TreeModel, key: Seq<u8>, value: Seq<u8>)
    requires
        value.len() > 0,
        ({
            let path = digest32_of(key);
            let w = spec_side_nodes(m.nodes, path, m.root, false);
            let pl = parse_leaf_spec(opt_or_empty(w.cur));
            (w.paths[0] != placeholder_spec() && common_prefix_len(path, pl.0) == 256 && pl.1
                == digest32_of(value)) ==> map_opt_get(m.values, path) == Some(value)
        }),
    ensures
        ({
            let m2 = spec_update(m, key, value);
            m2.root != placeholder_spec() ==> spec_get(m2, key) == Some(value)
        }),
{
}

/// Round-trip, delete half: after removing a key that the tree holds — the
/// walk for its path ends at a leaf with exactly that path — a read of the
/// key returns `None`.
pub proof fn lemma_remove_get_round_trip(m: TreeModel, key: Seq<u8>)
    requires
        ({
            let path = digest32_of(key);
            let w = spec_side_nodes(m.nodes, path, m.root, false);
            w.paths[0] != placeholder_spec() && parse_leaf_spec(opt_or_empty(w.cur)).0 == path
        }),
    ensures
        spec_get(spec_update(m, key, Seq::<u8>::empty()), key) is None,
{
}

/// Every stored node is content-addressed — stored under the hash of its own
/// bytes — is exactly one prefix byte and two digests long, and begins with
/// one of the two node prefixes.  Every entry the engine itself writes has
/// this shape; it is what ties the structure of a walk to the root hash.
pub open spec fn store_ok(nodes: Map<Seq<u8>, Seq<u8>>) -> bool {
    forall|k: Seq<u8>| #[trigger] nodes.contains_key(k) ==> {
        &&& digest32_of(nodes[k]) == k
        &&& nodes[k].len() == 1 + 2 * (PATH_SIZE as int)
        &&& (nodes[k][0] == LEAF_PREFIX || nodes[k][0] == NODE_PREFIX)
    }
}

/// The node store of a fresh tree is trivially content-addressed: the base
/// of the preservation chain of `lemma_update_preserves_store_ok` for trees
/// grown from empty by updates.
pub proof fn lemma_empty_store_ok()
    ensures
        store_ok(Map::<Seq<u8>, Seq<u8>>::empty()),
{
}

/// The branch along `path` below an internal node with bytes `data` is fully
/// present: descending by the path bits, every non-placeholder child is in
/// the store, down to a leaf, a placeholder, or the full depth.
pub open spec fn walk_complete(
    nodes: Map<Seq<u8>, Seq<u8>>,
    path: Seq<u8>,
    data: Option<Seq<u8>>,
    dp: int,
) -> bool
    decreases 256 - dp,
{
    if dp < 0 || dp >= 256 {
        true
    } else {
        let (l, r) = parse_node_spec(data);
        let nh = if bit_at(path, dp) {
            r
        } else {
            l
        };
        if nh == placeholder_spec() {
            true
        } else {
            &&& nodes.contains_key(nh)
            &&& (is_leaf_spec(map_opt_get(nodes, nh)) || walk_complete(
                nodes,
                path,
                map_opt_get(nodes, nh),
                dp + 1,
            ))
        }
    }
}

/// Replays sidenodes onto `h` as `replay_from` does, but for a walk that
/// began at depth `dp` rather than at the root: sidenode `i` is combined at
/// path bit `dp + len - 1 - i`.
pub open spec fn replay_dp(
    path: Seq<u8>,
    sides: Seq<Seq<u8>>,
    i: int,
    h: Seq<u8>,
    dp: int,
) -> Seq<u8>
    decreases sides.len() - i,
{
    if i < 0 || i >= sides.len() {
        h
    } else {
        let combined = if bit_at(path, dp + sides.len() - 1 - i) {
            node_hash_spec(sides[i], h)
        } else {
            node_hash_spec(h, sides[i])
        };
        replay_dp(path, sides, i + 1, combined, dp)
    }
}

proof fn lemma_replay_dp_zero(path: Seq<u8>, sides: Seq<Seq<u8>>, i: int, h: Seq<u8>)
    ensures
        replay_dp(path, sides, i, h, 0) == replay_from(path, sides, i, h),
    decreases sides.len() - i,
{
    if 0 <= i && i < sides.len() {
        let combined = if bit_at(path, sides.len() - 1 - i) {
            node_hash_spec(sides[i], h)
        } else {
            node_hash_spec(h, sides[i])
        };
        lemma_replay_dp_zero(path, sides, i + 1, combined);
    }
}

proof fn lemma_replay_push(path: Seq<u8>, sides: Seq<Seq<u8>>, i: int, h: Seq<u8>, dp: int, x: Seq<
    u8,
>)
    requires
        0 <= i <= sides.len(),
    ensures
        replay_dp(path, sides.push(x), i, h, dp) == ({
            let inner = replay_dp(path, sides, i, h, dp + 1);
            if bit_at(path, dp) {
                node_hash_spec(x, inner)
            } else {
                node_hash_spec(inner, x)
            }
        }),
    decreases sides.len() - i,
{
    let pushed = sides.push(x);
    if i < sides.len() {
        assert(pushed[i] == sides[i]);
        assert(dp + pushed.len() - 1 - i == (dp + 1) + sides.len() - 1 - i);
        let combined = if bit_at(path, (dp + 1) + sides.len() - 1 - i) {
            node_hash_spec(sides[i], h)
        } else {
            node_hash_spec(h, sides[i])
        };
        assert(replay_dp(path, pushed, i, h, dp) == replay_dp(path, pushed, i + 1, combined, dp));
        assert(replay_dp(path, sides, i, h, dp + 1) == replay_dp(
            path,
            sides,
            i + 1,
            combined,
            dp + 1,
        ));
        lemma_replay_push(path, sides, i + 1, combined, dp, x);
    } else {
        assert(pushed[i] == x);
        assert(dp + pushed.len() - 1 - i == dp);
        assert(replay_dp(path, sides, i, h, dp + 1) == h);
        assert(replay_dp(path, pushed, i + 1, if bit_at(path, dp) {
            node_hash_spec(x, h)
        } else {
            node_hash_spec(h, x)
        }, dp) == if bit_at(path, dp) {
            node_hash_spec(x, h)
        } else {
            node_hash_spec(h, x)
        });
    }
}

/// The hash a completed walk replays from: the hash of the terminal node's
/// bytes, or the placeholder when the walk ended at an empty subtree.
pub open spec fn walk_start_hash(cur: Option<Seq<u8>>) -> Seq<u8> {
    match cur {
        Some(d) => digest32_of(d),
        None => placeholder_spec(),
    }
}

/// The walk-replay theorem: below an internal node whose branch along the
/// path is fully present in a content-addressed store, replaying the walk's
/// sidenodes onto the terminal hash rebuilds the node's own hash.  The
/// sidenodes are all digest-sized, and the terminal bytes, if any, are a
/// stored node.
proof fn lemma_walk_replay(nodes: Map<Seq<u8>, Seq<u8>>, path: Seq<u8>, d: Seq<u8>, dp: int)
    requires
        store_ok(nodes),
        0 <= dp < 256,
        d.len() == 1 + 2 * (PATH_SIZE as int),
        d[0] == NODE_PREFIX,
        walk_complete(nodes, path, Some(d), dp),
    ensures
        ({
            let w = spec_walk(nodes, path, Some(d), dp);
            &&& replay_dp(path, w.sides, 0, walk_start_hash(w.cur), dp) == digest32_of(d)
            &&& forall|i: int| 0 <= i < w.sides.len() ==> (#[trigger] w.sides[i]).len() == 32
            &&& (w.cur matches Some(cd) ==> cd.len() == 1 + 2 * (PATH_SIZE as int) && (cd[0]
                == LEAF_PREFIX || cd[0] == NODE_PREFIX) && digest32_of(cd) == walk_start_hash(
                w.cur,
            ))
            &&& w.paths.len() == w.sides.len()
            &&& (is_leaf_spec(w.cur) ==> w.sides.len() > 0 && w.paths[0] != placeholder_spec())
            &&& forall|i: int| 0 <= i < w.paths.len() ==> (#[trigger] w.paths[i]).len() == 32
        }),
    decreases 256 - dp,
{
    let (l, r) = parse_node_spec(Some(d));
    assert(node_data_spec(l, r) =~= d);
    let (side, nh) = if bit_at(path, dp) {
        (l, r)
    } else {
        (r, l)
    };
    let w = spec_walk(nodes, path, Some(d), dp);
    if nh == placeholder_spec() {
        assert(w.sides == seq![side] && w.cur is None);
        assert(replay_dp(path, w.sides, 1, digest32_of(d), dp) == digest32_of(d));
    } else {
        let nd = map_opt_get(nodes, nh);
        assert(nodes.contains_key(nh));
        let cd = nodes[nh];
        assert(digest32_of(cd) == nh);
        if is_leaf_spec(nd) {
            assert(w.sides == seq![side] && w.cur == nd);
            assert(walk_start_hash(w.cur) == nh);
            assert(replay_dp(path, w.sides, 1, digest32_of(d), dp) == digest32_of(d));
        } else {
            assert(cd[0] == NODE_PREFIX);
            let rest = spec_walk(nodes, path, nd, dp + 1);
            assert(w.sides == rest.sides.push(side) && w.cur == rest.cur);
            if dp + 1 < 256 {
                lemma_walk_replay(nodes, path, cd, dp + 1);
            } else {
                assert(rest.sides =~= Seq::<Seq<u8>>::empty());
                assert(rest.cur == nd);
                assert(walk_start_hash(rest.cur) == nh);
            }
            lemma_replay_push(path, rest.sides, 0, walk_start_hash(rest.cur), dp, side);
        }
    }
}

proof fn lemma_nonempty_sides_identity(s: Seq<Seq<u8>>)
    requires
        forall|i: int| 0 <= i < s.len() ==> (#[trigger] s[i]).len() > 0,
    ensures
        nonempty_sides(s) == s,
    decreases s.len(),
{
    if s.len() > 0 {
        assert(forall|i: int|
            0 <= i < s.drop_last().len() ==> (#[trigger] s.drop_last()[i]).len() > 0) by {
            assert(forall|i: int| 0 <= i < s.drop_last().len() ==> s.drop_last()[i] == s[i]);
        }
        lemma_nonempty_sides_identity(s.drop_last());
        assert(nonempty_sides(s) =~= s);
    }
}

proof fn lemma_store_ok_insert(nodes: Map<Seq<u8>, Seq<u8>>, d: Seq<u8>)
    requires
        store_ok(nodes),
        d.len() == 1 + 2 * (PATH_SIZE as int),
        d[0] == LEAF_PREFIX || d[0] == NODE_PREFIX,
    ensures
        store_ok(nodes.insert(digest32_of(d), d)),
{
}

proof fn lemma_remove_keys_ok(nodes: Map<Seq<u8>, Seq<u8>>, ks: Seq<Seq<u8>>, i: int)
    requires
        store_ok(nodes),
    ensures
        store_ok(remove_keys(nodes, ks, i)),
    decreases ks.len() - i,
{
    if 0 <= i && i < ks.len() {
        assert(store_ok(nodes.remove(ks[i])));
        lemma_remove_keys_ok(nodes.remove(ks[i]), ks, i + 1);
    }
}

proof fn lemma_del_climb_ok(st: DelState, path: Seq<u8>, sides: Seq<Seq<u8>>, i: int)
    requires
        store_ok(st.nodes),
        st.cur_data.len() == 0 || st.cur_data.len() == 32,
        forall|j: int| 0 <= j < sides.len() ==> (#[trigger] sides[j]).len() == 32,
    ensures
        ({
            let r = spec_del_climb(st, path, sides, i);
            store_ok(r.nodes) && (r.cur_data.len() == 0 || r.cur_data.len() == 32)
        }),
    decreases sides.len() - i,
{
    if 0 <= i && i < sides.len() {
        let side = sides[i];
        let st1 = spec_del_step(st, path, side, sides.len() - i - 1);
        assert(store_ok(st1.nodes) && (st1.cur_data.len() == 0 || st1.cur_data.len() == 32)) by {
            if st.cur_data.len() == 0 && is_leaf_spec(map_opt_get(st.nodes, side)) {
            } else {
                let stx = if st.cur_data.len() == 0 {
                    DelState { cur_data: placeholder_spec(), npr: true, ..st }
                } else {
                    st
                };
                if !stx.npr && side == placeholder_spec() {
                } else {
                    let d = if bit_at(path, sides.len() - i - 1) {
                        node_data_spec(side, stx.cur_data)
                    } else {
                        node_data_spec(stx.cur_data, side)
                    };
                    lemma_store_ok_insert(stx.nodes, d);
                }
            }
        }
        lemma_del_climb_ok(st1, path, sides, i + 1);
    }
}

proof fn lemma_ins_climb_ok(st: InsState, path: Seq<u8>, sides: Seq<Seq<u8>>, cpc: int, i: int)
    requires
        store_ok(st.nodes),
        st.cur.len() == 32,
        forall|j: int| 0 <= j < sides.len() ==> (#[trigger] sides[j]).len() == 32,
    ensures
        ({
            let r = spec_ins_climb(st, path, sides, cpc, i);
            store_ok(r.nodes) && r.cur.len() == 32
        }),
    decreases 256 - i,
{
    if 0 <= i && i < 256 {
        let offset = 256 - sides.len();
        let st1 = if i >= offset {
            let side = sides[i - offset];
            let d = if bit_at(path, 256 - i - 1) {
                node_data_spec(side, st.cur)
            } else {
                node_data_spec(st.cur, side)
            };
            InsState { nodes: st.nodes.insert(digest32_of(d), d), cur: digest32_of(d) }
        } else if cpc != 256 && cpc > 256 - i - 1 {
            let d = if bit_at(path, 256 - i - 1) {
                node_data_spec(placeholder_spec(), st.cur)
            } else {
                node_data_spec(st.cur, placeholder_spec())
            };
            InsState { nodes: st.nodes.insert(digest32_of(d), d), cur: digest32_of(d) }
        } else {
            st
        };
        assert(store_ok(st1.nodes) && st1.cur.len() == 32) by {
            if i >= offset {
                let side = sides[i - offset];
                let d = if bit_at(path, 256 - i - 1) {
                    node_data_spec(side, st.cur)
                } else {
                    node_data_spec(st.cur, side)
                };
                lemma_store_ok_insert(st.nodes, d);
            } else if cpc != 256 && cpc > 256 - i - 1 {
                let d = if bit_at(path, 256 - i - 1) {
                    node_data_spec(placeholder_spec(), st.cur)
                } else {
                    node_data_spec(st.cur, placeholder_spec())
                };
                lemma_store_ok_insert(st.nodes, d);
            }
        }
        assert(spec_ins_climb(st, path, sides, cpc, i) == spec_ins_climb(
            st1,
            path,
            sides,
            cpc,
            i + 1,
        ));
        lemma_ins_climb_ok(st1, path, sides, cpc, i + 1);
    }
}

/// The engine's mutations keep the node store content-addressed: an update
/// — insert, overwrite or delete — at a root that is the placeholder or a
/// stored node whose branch along the key's path is fully present preserves
/// `store_ok`.  Trees grown from the empty tree by updates therefore always
/// satisfy the hypotheses of the proof-soundness laws.
pub proof fn lemma_update_preserves_store_ok(
    m: TreeModel,
    key: Seq<u8>,
    value: Seq<u8>,
    root: Seq<u8>,
)
    requires
        store_ok(m.nodes),
        root == placeholder_spec() || (m.nodes.contains_key(root) && (!is_leaf_spec(
            map_opt_get(m.nodes, root),
        ) ==> walk_complete(m.nodes, digest32_of(key), map_opt_get(m.nodes, root), 0))),
    ensures
        store_ok(spec_update_for_root(m, key, value, root).0.nodes),
{
    let path = digest32_of(key);
    let w = spec_side_nodes(m.nodes, path, root, false);
    let rd = map_opt_get(m.nodes, root);
    assert((forall|j: int| 0 <= j < w.sides.len() ==> (#[trigger] w.sides[j]).len() == 32)
        && (forall|j: int| 0 <= j < w.paths.len() ==> (#[trigger] w.paths[j]).len() == 32)) by {
        if root == placeholder_spec() {
        } else if is_leaf_spec(rd) {
            assert(digest32_of(m.nodes[root]) == root);
        } else {
            lemma_walk_replay(m.nodes, path, m.nodes[root], 0);
            assert(digest32_of(m.nodes[root]) == root);
            let ww = spec_walk(m.nodes, path, rd, 0);
            assert(w.paths == ww.paths.push(root));
            assert(forall|j: int|
                0 <= j < w.paths.len() ==> (#[trigger] w.paths[j]).len() == 32) by {
                assert(forall|j: int|
                    0 <= j < ww.paths.len() ==> w.paths[j] == (#[trigger] ww.paths[j]));
                assert(w.paths[ww.paths.len() as int] == root);
            }
        }
    }
    if value.len() == 0 {
        let (n2, res) = spec_delete(m.nodes, path, w.sides, w.paths, w.cur);
        if w.paths[0] == placeholder_spec() || parse_leaf_spec(opt_or_empty(w.cur)).0 != path {
        } else {
            lemma_remove_keys_ok(m.nodes, w.paths, 0);
            lemma_del_climb_ok(
                DelState {
                    nodes: remove_keys(m.nodes, w.paths, 0),
                    cur_hash: Seq::empty(),
                    cur_data: Seq::empty(),
                    npr: false,
                },
                path,
                w.sides,
                0,
            );
        }
    } else {
        let vh = digest32_of(value);
        let leaf_d = leaf_data_spec(path, vh);
        let leaf_h = leaf_hash_spec(path, vh);
        lemma_store_ok_insert(m.nodes, leaf_d);
        let nodes0 = m.nodes.insert(leaf_h, leaf_d);
        let pl = parse_leaf_spec(opt_or_empty(w.cur));
        let cpc = if w.paths[0] == placeholder_spec() {
            256int
        } else {
            common_prefix_len(path, pl.0)
        };
        let has_old = w.paths[0] != placeholder_spec();
        if cpc == 256 && has_old && pl.1 == vh {
        } else {
            let (nodes1, cur1) = if cpc != 256 {
                let d = if bit_at(path, cpc) {
                    node_data_spec(w.paths[0], leaf_h)
                } else {
                    node_data_spec(leaf_h, w.paths[0])
                };
                lemma_store_ok_insert(nodes0, d);
                (nodes0.insert(digest32_of(d), d), digest32_of(d))
            } else if has_old {
                assert(store_ok(nodes0.remove(w.paths[0])));
                (nodes0.remove(w.paths[0]), leaf_h)
            } else {
                (nodes0, leaf_h)
            };
            lemma_remove_keys_ok(nodes1, w.paths, 1);
            lemma_ins_climb_ok(
                InsState { nodes: remove_keys(nodes1, w.paths, 1), cur: cur1 },
                path,
                w.sides,
                cpc,
                0,
            );
        }
    }
}

/// Proof soundness, membership half: for a key the tree binds to a value —
/// the sidenodes walk for the key's path ends at the leaf committing the
/// key's path to the value's hash — the generated proof verifies that value
/// against the root.  Holds of any content-addressed node store whose
/// branch along the key's path is fully present.
pub proof fn lemma_prove_verify_membership(
    nodes: Map<Seq<u8>, Seq<u8>>,
    root: Seq<u8>,
    key: Seq<u8>,
    value: Seq<u8>,
)
    requires
        value.len() > 0,
        store_ok(nodes),
        root != placeholder_spec(),
        nodes.contains_key(root),
        ({
            let rd = map_opt_get(nodes, root);
            !is_leaf_spec(rd) ==> walk_complete(nodes, digest32_of(key), rd, 0)
        }),
        spec_side_nodes(nodes, digest32_of(key), root, false).cur == Some(
            leaf_data_spec(digest32_of(key), digest32_of(value)),
        ),
    ensures
        spec_verify(spec_prove(nodes, digest32_of(key), root, false), root, key, value),
{
    let path = digest32_of(key);
    let w = spec_side_nodes(nodes, path, root, false);
    let pm = spec_prove(nodes, path, root, false);
    let rd = map_opt_get(nodes, root);
    let cd = leaf_data_spec(path, digest32_of(value));
    assert(parse_leaf_spec(cd).0 =~= path);
    assert(parse_leaf_spec(cd).1 =~= digest32_of(value));
    assert(pm.non_membership_leaf_data is None);
    if is_leaf_spec(rd) {
        assert(nodes[root] == cd);
        assert(digest32_of(cd) == root);
        assert(pm.side_nodes =~= Seq::<Seq<u8>>::empty());
        assert(spec_sanity(pm));
    } else {
        let d = nodes[root];
        assert(d[0] == NODE_PREFIX);
        lemma_walk_replay(nodes, path, d, 0);
        let ww = spec_walk(nodes, path, rd, 0);
        lemma_walk_len(nodes, path, rd, 0);
        lemma_nonempty_sides_identity(ww.sides);
        assert(pm.side_nodes == ww.sides);
        assert(spec_sanity(pm));
        lemma_replay_dp_zero(path, ww.sides, 0, walk_start_hash(ww.cur));
        assert(walk_start_hash(ww.cur) == digest32_of(cd));
        assert(digest32_of(cd) == leaf_hash_spec(path, digest32_of(value)));
        assert(replay_from(path, pm.side_nodes, 0, leaf_hash_spec(path, digest32_of(value)))
            == root);
    }
}

/// Proof soundness, non-membership half: for a key the tree does not hold —
/// the sidenodes walk for the key's path ends at an empty subtree or at a
/// leaf with another path — the generated proof verifies the key's absence
/// against the root.  Holds of any content-addressed node store whose
/// branch along the key's path is fully present.  Together with
/// `lemma_empty_tree_non_membership` this covers every tree.
pub proof fn lemma_prove_verify_non_membership(
    nodes: Map<Seq<u8>, Seq<u8>>,
    root: Seq<u8>,
    key: Seq<u8>,
)
    requires
        store_ok(nodes),
        root != placeholder_spec(),
        nodes.contains_key(root),
        ({
            let rd = map_opt_get(nodes, root);
            !is_leaf_spec(rd) ==> walk_complete(nodes, digest32_of(key), rd, 0)
        }),
        ({
            let w = spec_side_nodes(nodes, digest32_of(key), root, false);
            w.cur is None || (is_leaf_spec(w.cur) && parse_leaf_spec(w.cur->Some_0).0
                != digest32_of(key))
        }),
    ensures
        spec_verify(
            spec_prove(nodes, digest32_of(key), root, false),
            root,
            key,
            Seq::<u8>::empty(),
        ),
{
    let path = digest32_of(key);
    let w = spec_side_nodes(nodes, path, root, false);
    let pm = spec_prove(nodes, path, root, false);
    let rd = map_opt_get(nodes, root);
    if is_leaf_spec(rd) {
        let cd = nodes[root];
        assert(w.cur == Some(cd));
        assert(cd[0] == LEAF_PREFIX);
        let (ap, vh) = parse_leaf_spec(cd);
        assert(leaf_data_spec(ap, vh) =~= cd);
        assert(pm.non_membership_leaf_data == Some(cd));
        assert(pm.side_nodes =~= Seq::<Seq<u8>>::empty());
        assert(spec_sanity(pm));
        assert(leaf_hash_spec(ap, vh) == root);
    } else {
        let d = nodes[root];
        assert(d[0] == NODE_PREFIX);
        lemma_walk_replay(nodes, path, d, 0);
        let ww = spec_walk(nodes, path, rd, 0);
        lemma_walk_len(nodes, path, rd, 0);
        lemma_nonempty_sides_identity(ww.sides);
        assert(pm.side_nodes == ww.sides);
        lemma_replay_dp_zero(path, ww.sides, 0, walk_start_hash(ww.cur));
        match ww.cur {
            None => {
                assert(pm.non_membership_leaf_data is None);
                assert(spec_sanity(pm));
                assert(replay_from(path, pm.side_nodes, 0, placeholder_spec()) == root);
            },
            Some(cd) => {
                assert(cd[0] == LEAF_PREFIX);
                let (ap, vh) = parse_leaf_spec(cd);
                assert(leaf_data_spec(ap, vh) =~= cd);
                assert(w.paths[0] == ww.paths[0]);
                assert(pm.non_membership_leaf_data == Some(cd));
                assert(spec_sanity(pm));
                assert(walk_start_hash(ww.cur) == leaf_hash_spec(ap, vh));
                assert(replay_from(path, pm.side_nodes, 0, leaf_hash_spec(ap, vh)) == root);
            },
        }
    }
}

/// Idempotence of delete on an absent key: removing a key that the tree
/// does not hold — the walk for its path ends at a placeholder or at a leaf
/// with another path, as it does after the key was removed — leaves the
/// stores and the root unchanged.
pub proof fn lemma_delete_absent_no_op(m: TreeModel, key: Seq<u8>)
    requires
        ({
            let path = digest32_of(key);
            let w = spec_side_nodes(m.nodes, path, m.root, false);
            w.paths[0] == placeholder_spec() || parse_leaf_spec(opt_or_empty(w.cur)).0 != path
        }),
    ensures
        spec_update(m, key, Seq::<u8>::empty()) == m,
{
}

/// Non-membership on the empty tree: a proof generated for any key against
/// the placeholder root verifies the key's absence against that root.
pub proof fn lemma_empty_tree_non_membership(nodes: Map<Seq<u8>, Seq<u8>>, key: Seq<u8>)
    ensures
        spec_verify(
            spec_prove(nodes, digest32_of(key), placeholder_spec(), false),
            placeholder_spec(),
            key,
            Seq::<u8>::empty(),
        ),
{
    let pm = spec_prove(nodes, digest32_of(key), placeholder_spec(), false);
    assert(pm.side_nodes =~= Seq::<Seq<u8>>::empty());
    assert(spec_sanity(pm));
}

} // verus!
