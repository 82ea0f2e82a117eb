//! The authenticated tree: hashing, parent-hash validation and resolution.
//!
//! The tree hash digests each subtree bottom-up over its public keys and
//! identities; a parent's stored parent hash binds its own public key to the
//! tree hashes of its two children.  Neither digest reads private keys, and
//! the tree hash does not read stored parent hashes, so recomputing parent
//! hashes never disturbs tree hashes.

use vstd::prelude::*;

use crate::codec::enc_bytes;
use crate::crypto::{hash, hash_of};
use crate::errors::TreeError;
use crate::index::{LeafIndex, NodeIndex};
use crate::node::{nv, pk_at, LeafNode, Node, NodeV};
use crate::treemath::{
    left_child, left_spec, lemma_left, lemma_right_child, lemma_root, level_spec, node_width,
    right_child, right_spec, root_spec, valid_leaf_count, MAX_LEAVES,
};

verus! {

/// The bytes a leaf slot contributes to its hash.
pub open spec fn leaf_bytes(n: Option<NodeV>) -> Seq<u8> {
    match n {
        None => seq![0u8],
        Some(NodeV::Leaf(l)) => seq![1u8] + enc_bytes(l.public_key) + enc_bytes(l.identity),
        Some(NodeV::Parent(_)) => seq![3u8],
    }
}

/// The bytes a parent slot contributes to its own hash.
pub open spec fn parent_bytes(n: Option<NodeV>) -> Seq<u8> {
    match n {
        None => seq![0u8],
        Some(NodeV::Parent(p)) => seq![2u8] + enc_bytes(p.public_key),
        Some(NodeV::Leaf(_)) => seq![3u8],
    }
}

/// The tree hash of the subtree rooted at `x`: a leaf hashes its public key
/// and identity, a parent its public key and both children's tree hashes.
pub open spec fn th(nodes: Seq<Option<NodeV>>, x: int, w: int) -> Seq<u8>
    decreases level_spec(x),
    via th_decreases
{
    if !(1 <= w && w % 2 == 1 && 0 <= x < w) {
        Seq::empty()
    } else if level_spec(x) == 0 {
        hash_of(leaf_bytes(nodes[x]))
    } else {
        hash_of(parent_bytes(nodes[x]) + th(nodes, left_spec(x), w) + th(nodes, right_spec(x, w), w))
    }
}

#[via_fn]
proof fn th_decreases(nodes: Seq<Option<NodeV>>, x: int, w: int) {
    if 1 <= w && w % 2 == 1 && 0 <= x < w && level_spec(x) != 0 {
        lemma_left(x);
        lemma_right_child(x, w);
    }
}

/// The parent hash a non-blank parent must store: a digest of its own
/// public key and the tree hashes of its two children.
pub open spec fn ph_of(nodes: Seq<Option<NodeV>>, x: int, w: int) -> Seq<u8> {
    hash_of(enc_bytes(pk_at(nodes, x)) + th(nodes, left_spec(x), w) + th(nodes, right_spec(x, w), w))
}

/// A parent slot is consistent: blank, or storing exactly the recomputed
/// parent hash.
pub open spec fn parent_hash_ok(nodes: Seq<Option<NodeV>>, x: int, w: int) -> bool {
    match nodes[x] {
        Some(NodeV::Parent(p)) => p.parent_hash == ph_of(nodes, x, w),
        _ => true,
    }
}

/// Every parent slot of the tree is consistent.
pub open spec fn all_parent_hashes_ok(nodes: Seq<Option<NodeV>>, w: int) -> bool {
    forall|x: int| 0 <= x < w && x % 2 == 1 ==> parent_hash_ok(nodes, x, w)
}

/// Two slots that differ at most in a parent's stored parent hash.
pub open spec fn slot_ph_only(a: Option<NodeV>, b: Option<NodeV>) -> bool {
    match (a, b) {
        (None, None) => true,
        (Some(NodeV::Leaf(l1)), Some(NodeV::Leaf(l2))) => l1 == l2,
        (Some(NodeV::Parent(p1)), Some(NodeV::Parent(p2))) =>
            p1.public_key == p2.public_key && p1.private_key == p2.private_key,
        _ => false,
    }
}

/// Two node arrays that differ at most in stored parent hashes.
pub open spec fn ph_only_diff(a: Seq<Option<NodeV>>, b: Seq<Option<NodeV>>) -> bool {
    &&& a.len() == b.len()
    &&& forall|i: int| 0 <= i < a.len() ==> slot_ph_only(#[trigger] a[i], #[trigger] b[i])
}

/// Tree hashes ignore stored parent hashes.
#[verifier::rlimit(50)]
pub proof fn lemma_th_ph_only(a: Seq<Option<NodeV>>, b: Seq<Option<NodeV>>, x: int, w: int)
    requires
        ph_only_diff(a, b),
        w <= a.len(),
    ensures
        th(a, x, w) == th(b, x, w),
    decreases level_spec(x),
{
    if !(1 <= w && w % 2 == 1 && 0 <= x < w) {
    } else if level_spec(x) == 0 {
        assert(slot_ph_only(a[x], b[x]));
        assert(leaf_bytes(a[x]) == leaf_bytes(b[x]));
    } else {
        lemma_left(x);
        lemma_right_child(x, w);
        lemma_th_ph_only(a, b, left_spec(x), w);
        lemma_th_ph_only(a, b, right_spec(x, w), w);
        assert(slot_ph_only(a[x], b[x]));
        assert(parent_bytes(a[x]) == parent_bytes(b[x]));
        assert(parent_bytes(a[x]) + th(a, left_spec(x), w) + th(a, right_spec(x, w), w)
            == parent_bytes(b[x]) + th(b, left_spec(x), w) + th(b, right_spec(x, w), w));
    }
}

/// So do recomputed parent hashes.
pub proof fn lemma_ph_ph_only(a: Seq<Option<NodeV>>, b: Seq<Option<NodeV>>, x: int, w: int)
    requires
        ph_only_diff(a, b),
        0 <= x < a.len(),
        w <= a.len(),
    ensures
        ph_of(a, x, w) == ph_of(b, x, w),
{
    lemma_th_ph_only(a, b, left_spec(x), w);
    lemma_th_ph_only(a, b, right_spec(x, w), w);
    assert(pk_at(a, x) == pk_at(b, x));
}

/// Tree hashes read only the public state: two arrays equal after
/// stripping private keys hash alike.
#[verifier::rlimit(50)]
#[verifier::spinoff_prover]
pub proof fn lemma_th_strip_eq(a: Seq<Option<NodeV>>, b: Seq<Option<NodeV>>, x: int, w: int)
    requires
        a.len() == b.len(),
        crate::node::strip_nodes(a) == crate::node::strip_nodes(b),
        w <= a.len(),
    ensures
        th(a, x, w) == th(b, x, w),
    decreases level_spec(x),
{
    if !(1 <= w && w % 2 == 1 && 0 <= x < w) {
    } else if level_spec(x) == 0 {
        assert(crate::node::strip_nodes(a)[x] == crate::node::strip_nodes(b)[x]);
        assert(leaf_bytes(a[x]) == leaf_bytes(b[x]));
    } else {
        lemma_left(x);
        lemma_right_child(x, w);
        lemma_th_strip_eq(a, b, left_spec(x), w);
        lemma_th_strip_eq(a, b, right_spec(x, w), w);
        assert(crate::node::strip_nodes(a)[x] == crate::node::strip_nodes(b)[x]);
        assert(parent_bytes(a[x]) == parent_bytes(b[x]));
        assert(parent_bytes(a[x]) + th(a, left_spec(x), w) + th(a, right_spec(x, w), w)
            == parent_bytes(b[x]) + th(b, left_spec(x), w) + th(b, right_spec(x, w), w));
    }
}

/// So does parent-hash consistency: it holds of one array exactly when it
/// holds of the other.
#[verifier::rlimit(50)]
#[verifier::spinoff_prover]
pub proof fn lemma_all_ph_strip_eq(a: Seq<Option<NodeV>>, b: Seq<Option<NodeV>>, w: int)
    requires
        a.len() == b.len(),
        crate::node::strip_nodes(a) == crate::node::strip_nodes(b),
        w <= a.len(),
    ensures
        all_parent_hashes_ok(a, w) == all_parent_hashes_ok(b, w),
{
    assert forall|x: int| 0 <= x < w && x % 2 == 1 implies (parent_hash_ok(a, x, w) == parent_hash_ok(b, x, w)) by {
        lemma_th_strip_eq(a, b, left_spec(x), w);
        lemma_th_strip_eq(a, b, right_spec(x, w), w);
        assert(crate::node::strip_nodes(a)[x] == crate::node::strip_nodes(b)[x]);
        assert(pk_at(a, x) == pk_at(b, x));
        assert(ph_of(a, x, w) == ph_of(b, x, w));
    }
    if all_parent_hashes_ok(a, w) {
        assert forall|x: int| 0 <= x < w && x % 2 == 1 implies parent_hash_ok(b, x, w) by {
            assert(parent_hash_ok(a, x, w) == parent_hash_ok(b, x, w));
        }
    }
    if all_parent_hashes_ok(b, w) {
        assert forall|x: int| 0 <= x < w && x % 2 == 1 implies parent_hash_ok(a, x, w) by {
            assert(parent_hash_ok(a, x, w) == parent_hash_ok(b, x, w));
        }
    }
}

/// The shape every tree keeps: an odd number of slots within the machine
/// limit, leaves at even positions, parents at odd ones.
pub open spec fn wf_shape(nodes: Seq<Option<NodeV>>) -> bool {
    &&& nodes.len() % 2 == 1
    &&& 1 <= nodes.len() <= node_width(MAX_LEAVES as int)
    &&& forall|i: int| 0 <= i < nodes.len() && i % 2 == 0 ==> ((#[trigger] nodes[i]) is None || nodes[i] matches Some(NodeV::Leaf(_)))
    &&& forall|i: int| 0 <= i < nodes.len() && i % 2 == 1 ==> ((#[trigger] nodes[i]) is None || nodes[i] matches Some(NodeV::Parent(_)))
}

/// Every stored private key matches the public key beside it.
pub open spec fn keys_ok(nodes: Seq<Option<NodeV>>) -> bool {
    forall|i: int| 0 <= i < nodes.len() ==> match #[trigger] nodes[i] {
        Some(n) => crate::node::node_keys_ok(n),
        None => true,
    }
}

/// The number of leaves of a tree with this many slots.
pub open spec fn leaf_count(nodes: Seq<Option<NodeV>>) -> int {
    (nodes.len() as int + 1) / 2
}

/// Computes the tree hash of the subtree rooted at `x`.
pub fn compute_tree_hash(nodes: &Vec<Option<Node>>, x: NodeIndex, size: LeafIndex) -> (r: Vec<u8>)
    requires
        valid_leaf_count(size.0 as int),
        nodes@.len() == node_width(size.0 as int),
        (x.0 as int) < node_width(size.0 as int),
        crate::codec::encodable(nv(nodes@)),
    ensures
        r@ == th(nv(nodes@), x.0 as int, node_width(size.0 as int)),
        r@.len() == 32,
    decreases level_spec(x.0 as int),
{
    proof {
        assert(crate::codec::slot_encodable(nv(nodes@)[x.0 as int]));
    }
    let ghost wi = node_width(size.0 as int);
    let mut buf: Vec<u8> = Vec::new();
    if x.is_leaf() {
        match &nodes[x.0 as usize] {
            None => {
                buf.push(0u8);
            },
            Some(Node::Leaf(l)) => {
                buf.push(1u8);
                crate::codec::push_prefixed(&mut buf, &l.public_key);
                crate::codec::push_prefixed(&mut buf, &l.identity);
            },
            Some(Node::Parent(_)) => {
                buf.push(3u8);
            },
        }
        proof {
            assert(buf@ =~= leaf_bytes(nv(nodes@)[x.0 as int]));
        }
        hash(buf.as_slice())
    } else {
        proof {
            lemma_left(x.0 as int);
            lemma_right_child(x.0 as int, wi);
        }
        let lc = match left_child(x) {
            Ok(c) => c,
            Err(_) => {
                return Vec::new();
            },
        };
        let rc = match right_child(x, size) {
            Ok(c) => c,
            Err(_) => {
                return Vec::new();
            },
        };
        let lh = compute_tree_hash(nodes, lc, size);
        let rh = compute_tree_hash(nodes, rc, size);
        match &nodes[x.0 as usize] {
            None => {
                buf.push(0u8);
            },
            Some(Node::Parent(p)) => {
                buf.push(2u8);
                crate::codec::push_prefixed(&mut buf, &p.public_key);
            },
            Some(Node::Leaf(_)) => {
                buf.push(3u8);
            },
        }
        proof {
            assert(buf@ =~= parent_bytes(nv(nodes@)[x.0 as int]));
        }
        crate::codec::push_bytes(&mut buf, &lh);
        crate::codec::push_bytes(&mut buf, &rh);
        proof {
            assert(buf@ =~= parent_bytes(nv(nodes@)[x.0 as int]) + th(nv(nodes@), left_spec(x.0 as int), wi) + th(nv(nodes@), right_spec(x.0 as int, wi), wi));
        }
        hash(buf.as_slice())
    }
}

/// Recomputes the parent hash a parent slot must store.
pub fn compute_parent_hash(nodes: &Vec<Option<Node>>, x: NodeIndex, size: LeafIndex) -> (r: Vec<u8>)
    requires
        valid_leaf_count(size.0 as int),
        nodes@.len() == node_width(size.0 as int),
        (x.0 as int) < node_width(size.0 as int),
        x.0 % 2 == 1,
        nodes@[x.0 as int] matches Some(n) && n matches Node::Parent(_),
        crate::codec::encodable(nv(nodes@)),
    ensures
        r@ == ph_of(nv(nodes@), x.0 as int, node_width(size.0 as int)),
        r@.len() == 32,
{
    proof {
        assert(crate::codec::slot_encodable(nv(nodes@)[x.0 as int]));
    }
    let ghost wi = node_width(size.0 as int);
    proof {
        assert(level_spec(x.0 as int) >= 1) by {
            assert(x.0 as int % 2 == 1);
        }
        lemma_left(x.0 as int);
        lemma_right_child(x.0 as int, wi);
    }
    let lc = match left_child(x) {
        Ok(c) => c,
        Err(_) => {
            return Vec::new();
        },
    };
    let rc = match right_child(x, size) {
        Ok(c) => c,
        Err(_) => {
            return Vec::new();
        },
    };
    let lh = compute_tree_hash(nodes, lc, size);
    let rh = compute_tree_hash(nodes, rc, size);
    let mut buf: Vec<u8> = Vec::new();
    match &nodes[x.0 as usize] {
        Some(Node::Parent(p)) => {
            crate::codec::push_prefixed(&mut buf, &p.public_key);
        },
        _ => {
            return Vec::new();
        },
    }
    proof {
        assert(buf@ =~= enc_bytes(pk_at(nv(nodes@), x.0 as int)));
    }
    crate::codec::push_bytes(&mut buf, &lh);
    crate::codec::push_bytes(&mut buf, &rh);
    proof {
        assert(buf@ =~= enc_bytes(pk_at(nv(nodes@), x.0 as int)) + th(nv(nodes@), left_spec(x.0 as int), wi) + th(nv(nodes@), right_spec(x.0 as int, wi), wi));
    }
    hash(buf.as_slice())
}

/// The resolution of the subtree at `x`: the minimal set of non-blank
/// nodes covering all its members.
pub open spec fn res_spec(nodes: Seq<Option<NodeV>>, x: int, w: int) -> Seq<int>
    decreases level_spec(x),
    via res_decreases
{
    if !(1 <= w && w % 2 == 1 && 0 <= x < w) {
        Seq::empty()
    } else if nodes[x] is Some {
        seq![x]
    } else if level_spec(x) == 0 {
        Seq::empty()
    } else {
        res_spec(nodes, left_spec(x), w) + res_spec(nodes, right_spec(x, w), w)
    }
}

#[via_fn]
proof fn res_decreases(nodes: Seq<Option<NodeV>>, x: int, w: int) {
    if 1 <= w && w % 2 == 1 && 0 <= x < w && nodes[x] is None && level_spec(x) != 0 {
        lemma_left(x);
        lemma_right_child(x, w);
    }
}

/// Collects the resolution of the subtree at `x`.
pub fn resolution(nodes: &Vec<Option<Node>>, x: NodeIndex, size: LeafIndex) -> (r: Vec<NodeIndex>)
    requires
        valid_leaf_count(size.0 as int),
        nodes@.len() == node_width(size.0 as int),
        (x.0 as int) < node_width(size.0 as int),
    ensures
        crate::treemath::ixs(r@) == res_spec(nv(nodes@), x.0 as int, node_width(size.0 as int)),
    decreases level_spec(x.0 as int),
{
    let ghost wi = node_width(size.0 as int);
    let mut r: Vec<NodeIndex> = Vec::new();
    if nodes[x.0 as usize].is_some() {
        r.push(x);
        proof {
            assert(crate::treemath::ixs(r@) =~= res_spec(nv(nodes@), x.0 as int, wi));
        }
        return r;
    }
    if x.is_leaf() {
        proof {
            assert(crate::treemath::ixs(r@) =~= res_spec(nv(nodes@), x.0 as int, wi));
        }
        return r;
    }
    proof {
        lemma_left(x.0 as int);
        lemma_right_child(x.0 as int, wi);
    }
    let lc = match left_child(x) {
        Ok(c) => c,
        Err(_) => {
            return r;
        },
    };
    let rc = match right_child(x, size) {
        Ok(c) => c,
        Err(_) => {
            return r;
        },
    };
    let mut left_part = resolution(nodes, lc, size);
    let right_part = resolution(nodes, rc, size);
    proof {
        assert(res_spec(nv(nodes@), lc.0 as int, wi) + crate::treemath::ixs(right_part@).subrange(0, 0)
            =~= res_spec(nv(nodes@), lc.0 as int, wi));
    }
    let mut i: usize = 0;
    while i < right_part.len()
        invariant
            i <= right_part@.len(),
            crate::treemath::ixs(left_part@) == res_spec(nv(nodes@), lc.0 as int, wi) + crate::treemath::ixs(right_part@).subrange(0, i as int),
            crate::treemath::ixs(right_part@) == res_spec(nv(nodes@), rc.0 as int, wi),
        decreases right_part@.len() - i,
    {
        let ghost pre = crate::treemath::ixs(left_part@);
        left_part.push(right_part[i]);
        i = i + 1;
        proof {
            assert(crate::treemath::ixs(left_part@) =~= pre.push(right_part@[i as int - 1].0 as int));
            assert(crate::treemath::ixs(left_part@) =~= res_spec(nv(nodes@), lc.0 as int, wi) + crate::treemath::ixs(right_part@).subrange(0, i as int));
        }
    }
    proof {
        assert(crate::treemath::ixs(right_part@).subrange(0, right_part@.len() as int) =~= crate::treemath::ixs(right_part@));
        assert(crate::treemath::ixs(left_part@) =~= res_spec(nv(nodes@), x.0 as int, wi));
    }
    left_part
}

/// Replaces one slot of a node array.
pub fn set_node(nodes: &mut Vec<Option<Node>>, i: usize, n: Option<Node>)
    requires
        i < old(nodes)@.len(),
    ensures
        final(nodes)@ == old(nodes)@.update(i as int, n),
{
    nodes.remove(i);
    nodes.insert(i, n);
    proof {
        assert(nodes@ =~= old(nodes)@.update(i as int, n));
    }
}

/// Compares two byte strings.
pub fn eq_bytes(a: &Vec<u8>, b: &Vec<u8>) -> (r: bool)
    ensures
        r == (a@ == b@),
{
    if a.len() != b.len() {
        proof {
            assert(a@ != b@);
        }
        return false;
    }
    let mut i: usize = 0;
    while i < a.len()
        invariant
            i <= a@.len(),
            a@.len() == b@.len(),
            forall|j: int| 0 <= j < i ==> a@[j] == b@[j],
        decreases a@.len() - i,
    {
        if a[i] != b[i] {
            return false;
        }
        i = i + 1;
    }
    proof {
        assert(a@ =~= b@);
    }
    true
}

/// The leaf count of a well-shaped node array.
pub fn tree_size(nodes: &Vec<Option<Node>>) -> (r: LeafIndex)
    requires
        wf_shape(nv(nodes@)),
    ensures
        r.0 as int == leaf_count(nv(nodes@)),
        valid_leaf_count(r.0 as int),
        node_width(r.0 as int) == nodes@.len(),
{
    let n = ((nodes.len() as u32) + 1) / 2;
    LeafIndex(n)
}

/// The authoritative, queryable snapshot: the node array, the cached tree
/// hash, and the position of the local member's own leaf.
pub struct TreeSync {
    pub nodes: Vec<Option<Node>>,
    pub tree_hash: Vec<u8>,
    pub own_leaf: LeafIndex,
}

impl View for TreeSync {
    type V = Seq<Option<NodeV>>;

    open spec fn view(&self) -> Seq<Option<NodeV>> {
        nv(self.nodes@)
    }
}

/// A staged, mutable overlay: a working copy of the node array that is
/// merged at most once, or discarded.
pub struct Diff {
    pub nodes: Vec<Option<Node>>,
    pub own_leaf: LeafIndex,
}

impl View for Diff {
    type V = Seq<Option<NodeV>>;

    open spec fn view(&self) -> Seq<Option<NodeV>> {
        nv(self.nodes@)
    }
}

/// A diff whose parent hashes have been recomputed and whose tree hash is
/// cached: the only thing `merge_diff` accepts.
pub struct StagedDiff {
    pub nodes: Vec<Option<Node>>,
    pub tree_hash: Vec<u8>,
    pub own_leaf: LeafIndex,
}

impl View for StagedDiff {
    type V = Seq<Option<NodeV>>;

    open spec fn view(&self) -> Seq<Option<NodeV>> {
        nv(self.nodes@)
    }
}

/// What every live tree maintains: shape, matching key pairs, bounded
/// fields, consistent parent hashes, an up-to-date cached tree hash, and an
/// own leaf that exists and is not blank.
pub open spec fn tree_wf(nodes: Seq<Option<NodeV>>, tree_hash: Seq<u8>, own_leaf: int) -> bool {
    &&& wf_shape(nodes)
    &&& keys_ok(nodes)
    &&& crate::codec::encodable(nodes)
    &&& all_parent_hashes_ok(nodes, nodes.len() as int)
    &&& tree_hash == th(nodes, root_spec(nodes.len() as int), nodes.len() as int)
    &&& 0 <= 2 * own_leaf < nodes.len()
    &&& nodes[2 * own_leaf] is Some
}

impl TreeSync {
    /// The tree's invariant.
    pub open spec fn wf(&self) -> bool {
        tree_wf(self@, self.tree_hash@, self.own_leaf.0 as int)
    }

    /// A fresh one-member tree: the local member's leaf, its key pair
    /// derived from the given secret.
    pub fn new(identity: Vec<u8>, init_secret: Vec<u8>) -> (r: Result<TreeSync, TreeError>)
        requires
            identity@.len() <= 0xffff_ffff,
        ensures
            r matches Ok(t) ==> {
                &&& t.wf()
                &&& t@.len() == 1
                &&& t.own_leaf.0 == 0
                &&& (t@[0] matches Some(NodeV::Leaf(l)) && l.identity == identity@
                    && l.public_key == crate::crypto::hpke_pk_of(init_secret@)
                    && l.private_key == Some(crate::crypto::hpke_sk_of(init_secret@)))
            },
            r matches Err(e) ==> e == TreeError::PathCryptoError,
    {
        let (pk, sk) = match crate::crypto::derive_keypair(init_secret.as_slice()) {
            Ok(kp) => kp,
            Err(e) => {
                return Err(e);
            },
        };
        let mut nodes: Vec<Option<Node>> = Vec::new();
        nodes.push(Some(Node::Leaf(LeafNode { public_key: pk, identity, private_key: Some(sk) })));
        proof {
            crate::treemath::lemma_lg_bounds(1);
            lemma_root(1);
            assert(root_spec(1) == 0);
            assert(wf_shape(nv(nodes@)));
            assert(keys_ok(nv(nodes@))) by {
                assert(crate::node::node_keys_ok(nv(nodes@)[0]->Some_0));
            }
            assert(crate::codec::encodable(nv(nodes@))) by {
                assert(crate::codec::slot_encodable(nv(nodes@)[0]));
            }
            assert forall|x: int| 0 <= x < 1 && x % 2 == 1 implies parent_hash_ok(nv(nodes@), x, 1) by {
                assert(false);
            }
        }
        let root_hash = compute_tree_hash(&nodes, NodeIndex(0), LeafIndex(1));
        Ok(TreeSync { nodes, tree_hash: root_hash, own_leaf: LeafIndex(0) })
    }

    /// The local member's own leaf position.
    pub fn own_leaf_index(&self) -> (r: LeafIndex)
        ensures
            r == self.own_leaf,
    {
        self.own_leaf
    }

    /// The number of leaves.
    pub fn leaf_span(&self) -> (r: LeafIndex)
        requires
            self.wf(),
        ensures
            r.0 as int == leaf_count(self@),
    {
        tree_size(&self.nodes)
    }

    /// The cached tree hash: the digest of the whole tree's public state.
    pub fn tree_hash(&self) -> (r: Vec<u8>)
        requires
            self.wf(),
        ensures
            r@ == th(self@, root_spec(self@.len() as int), self@.len() as int),
    {
        crate::crypto::clone_bytes(&self.tree_hash)
    }

    /// Compares an expected digest against the tree's hash; the mismatch is
    /// surfaced, never silently accepted.
    pub fn verify_tree_hash(&self, expected: &Vec<u8>) -> (r: Result<(), TreeError>)
        requires
            self.wf(),
        ensures
            r is Ok <==> expected@ == th(self@, root_spec(self@.len() as int), self@.len() as int),
            r matches Err(e) ==> e == TreeError::TreeHashMismatch,
    {
        if eq_bytes(expected, &self.tree_hash) {
            Ok(())
        } else {
            Err(TreeError::TreeHashMismatch)
        }
    }

    /// Recomputes the parent hash of every non-blank parent and compares it
    /// to the stored value: true exactly when the whole tree is consistent.
    #[verifier::rlimit(100)]
    #[verifier::spinoff_prover]
    pub fn parent_hash_valid(&self) -> (r: bool)
        requires
            wf_shape(self@),
            crate::codec::encodable(self@),
        ensures
            r == all_parent_hashes_ok(self@, self@.len() as int),
    {
        let size = tree_size(&self.nodes);
        let w = self.nodes.len();
        let mut x: usize = 1;
        while x < w
            invariant
                x % 2 == 1,
                wf_shape(self@),
                crate::codec::encodable(self@),
                w == self@.len(),
                valid_leaf_count(size.0 as int),
                node_width(size.0 as int) == self@.len(),
                forall|y: int| 0 <= y < x && y % 2 == 1 ==> parent_hash_ok(self@, y, self@.len() as int),
            decreases w - x,
        {
            match &self.nodes[x] {
                Some(Node::Parent(p)) => {
                    let computed = compute_parent_hash(&self.nodes, NodeIndex(x as u32), size);
                    if !eq_bytes(&p.parent_hash, &computed) {
                        proof {
                            assert(!parent_hash_ok(self@, x as int, self@.len() as int));
                        }
                        return false;
                    }
                },
                _ => {},
            }
            x = x + 2;
        }
        true
    }

    /// The ordered public node sequence for wire transmission: every
    /// private key stripped.
    pub fn export_nodes(&self) -> (r: Vec<Option<Node>>)
        ensures
            nv(r@) == crate::node::strip_nodes(self@),
    {
        export_public(&self.nodes)
    }

    /// Opens a fresh diff over the current snapshot.
    pub fn empty_diff(&self) -> (r: Diff)
        requires
            self.wf(),
        ensures
            r@ == self@,
            r.own_leaf == self.own_leaf,
            r.wf(),
    {
        Diff { nodes: crate::node::clone_nodes(&self.nodes), own_leaf: self.own_leaf }
    }

    /// Atomically replaces the snapshot with a staged diff: the only
    /// mutator of the authoritative tree.
    pub fn merge_diff(&mut self, staged: StagedDiff)
        requires
            staged.wf(),
        ensures
            final(self)@ == staged@,
            final(self).wf(),
            final(self).own_leaf == staged.own_leaf,
            final(self).tree_hash@ == staged.tree_hash@,
    {
        self.nodes = staged.nodes;
        self.tree_hash = staged.tree_hash;
        self.own_leaf = staged.own_leaf;
    }
}

/// Strips every private key from a node array.
pub fn export_public(nodes: &Vec<Option<Node>>) -> (r: Vec<Option<Node>>)
    ensures
        nv(r@) == crate::node::strip_nodes(nv(nodes@)),
{
    let mut r: Vec<Option<Node>> = Vec::new();
    let mut i: usize = 0;
    while i < nodes.len()
        invariant
            i <= nodes@.len(),
            r@.len() == i,
            nv(r@) == crate::node::strip_nodes(nv(nodes@)).subrange(0, i as int),
        decreases nodes.len() - i,
    {
        let e = match &nodes[i] {
            Some(n) => Some(crate::node::public_node(n)),
            None => None,
        };
        r.push(e);
        i = i + 1;
        proof {
            assert(nv(r@) =~= crate::node::strip_nodes(nv(nodes@)).subrange(0, i as int));
        }
    }
    proof {
        assert(crate::node::strip_nodes(nv(nodes@)).subrange(0, nodes@.len() as int) =~= crate::node::strip_nodes(nv(nodes@)));
    }
    r
}

/// Dropping trailing blank leaves, two slots at a time.
pub open spec fn trim(nodes: Seq<Option<NodeV>>) -> Seq<Option<NodeV>>
    decreases nodes.len(),
{
    if nodes.len() >= 3 && nodes[nodes.len() - 1] is None {
        trim(nodes.take(nodes.len() - 2))
    } else {
        nodes
    }
}

/// Trimming never cuts below a non-blank slot.
pub proof fn lemma_trim_keeps(nodes: Seq<Option<NodeV>>, k: int)
    requires
        0 <= k < nodes.len(),
        k % 2 == 0,
        nodes.len() % 2 == 1,
        nodes[k] is Some,
    ensures
        trim(nodes).len() > k,
        trim(nodes).len() <= nodes.len(),
        trim(nodes) == nodes.take(trim(nodes).len() as int),
        forall|j: int| 0 <= j < trim(nodes).len() ==> #[trigger] trim(nodes)[j] == nodes[j],
    decreases nodes.len(),
{
    if nodes.len() >= 3 && nodes[nodes.len() - 1] is None {
        let t = nodes.take(nodes.len() - 2);
        assert(k != nodes.len() - 1);
        assert(k != nodes.len() - 2);
        assert(k < nodes.len() - 2);
        assert(t[k] == nodes[k]);
        lemma_trim_keeps(t, k);
        assert(trim(nodes) == trim(t));
        assert forall|j: int| 0 <= j < trim(nodes).len() implies #[trigger] trim(nodes)[j] == nodes[j] by {
            assert(trim(t)[j] == t[j]);
            assert(j < t.len());
            assert(t[j] == nodes[j]);
        }
        assert(trim(nodes) =~= nodes.take(trim(nodes).len() as int));
    } else {
        assert(nodes.take(nodes.len() as int) =~= nodes);
    }
}


/// One staging step: writing the recomputed parent hash of slot `x` keeps
/// every invariant and makes slot `x` consistent.
#[verifier::rlimit(100)]
#[verifier::spinoff_prover]
proof fn lemma_staged_step(orig: Seq<Option<NodeV>>, pre: Seq<Option<NodeV>>, cur: Seq<Option<NodeV>>, x: int, w: int)
    requires
        w == pre.len(),
        cur.len() == pre.len(),
        0 <= x < w,
        x % 2 == 1,
        ph_only_diff(orig, pre),
        wf_shape(pre),
        keys_ok(pre),
        crate::codec::encodable(pre),
        forall|y: int| 0 <= y < x && y % 2 == 1 ==> parent_hash_ok(pre, y, w),
        pre[x] matches Some(NodeV::Parent(_)),
        cur[x] matches Some(NodeV::Parent(q)) && (pre[x] matches Some(NodeV::Parent(p))
            && q.public_key == p.public_key && q.private_key == p.private_key
            && q.parent_hash == ph_of(pre, x, w) && q.parent_hash.len() == 32),
        forall|i: int| 0 <= i < cur.len() && i != x ==> #[trigger] cur[i] == pre[i],
    ensures
        ph_only_diff(orig, cur),
        wf_shape(cur),
        keys_ok(cur),
        crate::codec::encodable(cur),
        forall|y: int| 0 <= y < x + 2 && y % 2 == 1 ==> parent_hash_ok(cur, y, w),
{
    assert(slot_ph_only(pre[x], cur[x]));
    assert forall|i: int| 0 <= i < cur.len() implies slot_ph_only(#[trigger] pre[i], #[trigger] cur[i]) by {
        if i != x {
            assert(cur[i] == pre[i]);
            assert(slot_ph_only(pre[i], pre[i]));
        }
    }
    assert(ph_only_diff(pre, cur));
    assert forall|i: int| 0 <= i < cur.len() implies slot_ph_only(#[trigger] orig[i], #[trigger] cur[i]) by {
        assert(slot_ph_only(orig[i], pre[i]));
    }
    assert forall|y: int| 0 <= y < x + 2 && y % 2 == 1 implies parent_hash_ok(cur, y, w) by {
        lemma_ph_ph_only(pre, cur, y, w);
        if y < x {
            assert(parent_hash_ok(pre, y, w));
            assert(cur[y] == pre[y]);
        } else {
            assert(y == x);
        }
    }
    assert forall|i: int| 0 <= i < cur.len() && i % 2 == 0 implies ((#[trigger] cur[i]) is None || cur[i] matches Some(NodeV::Leaf(_))) by {
        assert(cur[i] == pre[i]);
    }
    assert forall|i: int| 0 <= i < cur.len() && i % 2 == 1 implies ((#[trigger] cur[i]) is None || cur[i] matches Some(NodeV::Parent(_))) by {
        if i != x {
            assert(cur[i] == pre[i]);
        }
    }
    assert forall|i: int| 0 <= i < cur.len() implies (match #[trigger] cur[i] {
        Some(n) => crate::node::node_keys_ok(n),
        None => true,
    }) by {
        if i != x {
            assert(cur[i] == pre[i]);
        } else {
            assert(crate::node::node_keys_ok(pre[i]->Some_0));
        }
    }
    assert forall|i: int| 0 <= i < cur.len() implies crate::codec::slot_encodable(#[trigger] cur[i]) by {
        if i != x {
            assert(cur[i] == pre[i]);
        } else {
            assert(crate::codec::slot_encodable(pre[i]));
        }
    }
}

impl StagedDiff {
    /// A staged diff satisfies the full tree invariant: consistent parent
    /// hashes and a cached tree hash.
    pub open spec fn wf(&self) -> bool {
        tree_wf(self@, self.tree_hash@, self.own_leaf.0 as int)
    }
}

impl Diff {
    /// The diff's invariant while mutations are staged: parent hashes are
    /// recomputed only when the diff is staged.
    pub open spec fn wf(&self) -> bool {
        &&& wf_shape(self@)
        &&& keys_ok(self@)
        &&& crate::codec::encodable(self@)
        &&& 0 <= 2 * (self.own_leaf.0 as int) < self@.len()
        &&& self@[2 * (self.own_leaf.0 as int)] is Some
    }

    /// The new member's leaf as a slot value.
    pub open spec fn added_leaf(identity: Seq<u8>, public_key: Seq<u8>) -> Option<NodeV> {
        Some(NodeV::Leaf(crate::node::LeafNodeV { public_key: public_key, identity: identity, private_key: None }))
    }

    /// Adds a member: the first blank leaf slot is reused; otherwise the
    /// array grows by one leaf and one parent slot.  Fails only when the
    /// tree is already at the machine limit.
    pub fn add_leaf(&mut self, identity: Vec<u8>, public_key: Vec<u8>) -> (r: Result<LeafIndex, TreeError>)
        requires
            old(self).wf(),
            identity@.len() <= 0xffff_ffff,
            public_key@.len() <= 0xffff_ffff,
        ensures
            final(self).wf(),
            final(self).own_leaf == old(self).own_leaf,
            (r is Err) <==> (leaf_count(old(self)@) == MAX_LEAVES
                && (forall|j: int| 0 <= 2 * j < old(self)@.len() ==> (#[trigger] old(self)@[2 * j]) is Some)),
            r matches Err(e) ==> e == TreeError::IndexOutOfBounds && final(self)@ == old(self)@,
            r matches Ok(li) ==> {
                if exists|j: int| 0 <= 2 * j < old(self)@.len() && (#[trigger] old(self)@[2 * j]) is None {
                    &&& 0 <= 2 * (li.0 as int) < old(self)@.len()
                    &&& old(self)@[2 * (li.0 as int)] is None
                    &&& (forall|j: int| 0 <= j < li.0 as int ==> (#[trigger] old(self)@[2 * j]) is Some)
                    &&& final(self)@ == old(self)@.update(2 * (li.0 as int), Self::added_leaf(identity@, public_key@))
                } else {
                    &&& li.0 as int == leaf_count(old(self)@)
                    &&& final(self)@ == old(self)@ + seq![None, Self::added_leaf(identity@, public_key@)]
                }
            },
    {
        let ghost idv = identity@;
        let ghost pkv = public_key@;
        let size = tree_size(&self.nodes);
        let mut j: u32 = 0;
        let mut found: bool = false;
        while j < size.0 && !found
            invariant
                j <= size.0,
                valid_leaf_count(size.0 as int),
                size.0 as int == leaf_count(self@),
                node_width(size.0 as int) == self@.len(),
                forall|k: int| 0 <= k < j ==> (#[trigger] self@[2 * k]) is Some,
                found ==> (j < size.0 && self@[2 * (j as int)] is None),
            decreases size.0 - j + (if found { 0int } else { 1int }),
        {
            if self.nodes[(2 * j) as usize].is_none() {
                found = true;
            } else {
                j = j + 1;
            }
        }
        let leaf = Node::Leaf(LeafNode { public_key, identity, private_key: None });
        if found {
            set_node(&mut self.nodes, (2 * j) as usize, Some(leaf));
            proof {
                assert(self@ =~= old(self)@.update(2 * (j as int), Self::added_leaf(idv, pkv)));
                assert(self.wf()) by {
                    assert(self@[2 * (self.own_leaf.0 as int)] is Some);
                    assert forall|i: int| 0 <= i < self@.len() && i % 2 == 0 implies ((#[trigger] self@[i]) is None || self@[i] matches Some(NodeV::Leaf(_))) by {
                        if i != 2 * (j as int) {
                            assert(self@[i] == old(self)@[i]);
                        }
                    }
                    assert forall|i: int| 0 <= i < self@.len() && i % 2 == 1 implies ((#[trigger] self@[i]) is None || self@[i] matches Some(NodeV::Parent(_))) by {
                        assert(self@[i] == old(self)@[i]);
                    }
                    assert forall|i: int| 0 <= i < self@.len() implies (match #[trigger] self@[i] {
                        Some(n) => crate::node::node_keys_ok(n),
                        None => true,
                    }) by {
                        if i != 2 * (j as int) {
                            assert(self@[i] == old(self)@[i]);
                        }
                    }
                    assert forall|i: int| 0 <= i < self@.len() implies crate::codec::slot_encodable(#[trigger] self@[i]) by {
                        if i != 2 * (j as int) {
                            assert(self@[i] == old(self)@[i]);
                        }
                    }
                }
            }
            return Ok(LeafIndex(j));
        }
        if size.0 >= MAX_LEAVES {
            return Err(TreeError::IndexOutOfBounds);
        }
        self.nodes.push(None);
        self.nodes.push(Some(leaf));
        proof {
            assert(self@ =~= old(self)@ + seq![None, Self::added_leaf(idv, pkv)]);
            assert(self.wf()) by {
                assert(self@[2 * (self.own_leaf.0 as int)] == old(self)@[2 * (self.own_leaf.0 as int)]);
                assert forall|i: int| 0 <= i < self@.len() && i % 2 == 0 implies ((#[trigger] self@[i]) is None || self@[i] matches Some(NodeV::Leaf(_))) by {
                    if i < old(self)@.len() {
                        assert(self@[i] == old(self)@[i]);
                    }
                }
                assert forall|i: int| 0 <= i < self@.len() && i % 2 == 1 implies ((#[trigger] self@[i]) is None || self@[i] matches Some(NodeV::Parent(_))) by {
                    if i < old(self)@.len() {
                        assert(self@[i] == old(self)@[i]);
                    }
                }
                assert forall|i: int| 0 <= i < self@.len() implies (match #[trigger] self@[i] {
                    Some(n) => crate::node::node_keys_ok(n),
                    None => true,
                }) by {
                    if i < old(self)@.len() {
                        assert(self@[i] == old(self)@[i]);
                    }
                }
                assert forall|i: int| 0 <= i < self@.len() implies crate::codec::slot_encodable(#[trigger] self@[i]) by {
                    if i < old(self)@.len() {
                        assert(self@[i] == old(self)@[i]);
                    }
                }
            }
        }
        Ok(LeafIndex(size.0))
    }

    /// Blanks a member's leaf and trims trailing blank leaves.  Fails with
    /// `UnknownMemberRemoval` when the leaf is out of range, already blank,
    /// or the local member's own leaf.
    pub fn blank_leaf(&mut self, leaf: LeafIndex) -> (r: Result<(), TreeError>)
        requires
            old(self).wf(),
        ensures
            final(self).wf(),
            final(self).own_leaf == old(self).own_leaf,
            (r is Err) <==> (2 * (leaf.0 as int) >= old(self)@.len()
                || old(self)@[2 * (leaf.0 as int)] is None
                || leaf.0 == old(self).own_leaf.0),
            r matches Err(e) ==> e == TreeError::UnknownMemberRemoval && final(self)@ == old(self)@,
            r matches Ok(_) ==> final(self)@ == trim(old(self)@.update(2 * (leaf.0 as int), None)),
    {
        let size = tree_size(&self.nodes);
        if leaf.0 >= size.0 || leaf.0 == self.own_leaf.0 {
            return Err(TreeError::UnknownMemberRemoval);
        }
        if self.nodes[(2 * leaf.0) as usize].is_none() {
            return Err(TreeError::UnknownMemberRemoval);
        }
        set_node(&mut self.nodes, (2 * leaf.0) as usize, None);
        let ghost target = old(self)@.update(2 * (leaf.0 as int), None);
        proof {
            assert(nv(self.nodes@) =~= target);
            assert(target[2 * (self.own_leaf.0 as int)] is Some);
            assert(target.take(target.len() as int) =~= target);
        }
        while self.nodes.len() >= 3 && self.nodes[self.nodes.len() - 1].is_none()
            invariant
                self.own_leaf == old(self).own_leaf,
                trim(nv(self.nodes@)) == trim(target),
                target == old(self)@.update(2 * (leaf.0 as int), None),
                target.len() % 2 == 1,
                nv(self.nodes@).len() % 2 == 1,
                nv(self.nodes@) == target.take(nv(self.nodes@).len() as int),
                target[2 * (self.own_leaf.0 as int)] is Some,
                2 * (self.own_leaf.0 as int) < nv(self.nodes@).len(),
                nv(self.nodes@).len() <= target.len(),
            decreases self.nodes@.len(),
        {
            let ghost pre = nv(self.nodes@);
            self.nodes.pop();
            self.nodes.pop();
            proof {
                assert(nv(self.nodes@) =~= pre.take(pre.len() - 2));
                assert(nv(self.nodes@) =~= target.take(nv(self.nodes@).len() as int));
                lemma_trim_keeps(pre, 2 * (self.own_leaf.0 as int));
            }
        }
        proof {
            assert(trim(nv(self.nodes@)) == nv(self.nodes@));
            let fin = self@;
            assert(fin == target.take(fin.len() as int));
            assert forall|i: int| 0 <= i < fin.len() implies #[trigger] fin[i] == target[i] by {}
            assert(self.wf()) by {
                assert(fin[2 * (self.own_leaf.0 as int)] is Some);
                assert forall|i: int| 0 <= i < fin.len() && i % 2 == 0 implies ((#[trigger] fin[i]) is None || fin[i] matches Some(NodeV::Leaf(_))) by {
                    assert(fin[i] == target[i]);
                    if i != 2 * (leaf.0 as int) {
                        assert(target[i] == old(self)@[i]);
                    }
                }
                assert forall|i: int| 0 <= i < fin.len() && i % 2 == 1 implies ((#[trigger] fin[i]) is None || fin[i] matches Some(NodeV::Parent(_))) by {
                    assert(fin[i] == target[i]);
                    assert(target[i] == old(self)@[i]);
                }
                assert forall|i: int| 0 <= i < fin.len() implies (match #[trigger] fin[i] {
                    Some(n) => crate::node::node_keys_ok(n),
                    None => true,
                }) by {
                    assert(fin[i] == target[i]);
                    if i != 2 * (leaf.0 as int) {
                        assert(target[i] == old(self)@[i]);
                    }
                }
                assert forall|i: int| 0 <= i < fin.len() implies crate::codec::slot_encodable(#[trigger] fin[i]) by {
                    assert(fin[i] == target[i]);
                    if i != 2 * (leaf.0 as int) {
                        assert(target[i] == old(self)@[i]);
                    }
                }
            }
        }
        Ok(())
    }

    /// Recomputes the parent hash of every non-blank parent and caches the
    /// tree hash, sealing the diff for merging.  On a well-formed diff the
    /// recomputation always succeeds.
    #[verifier::rlimit(100)]
    #[verifier::spinoff_prover]
    pub fn into_staged_diff(self) -> (r: Result<StagedDiff, TreeError>)
        requires
            self.wf(),
        ensures
            r is Ok,
            r matches Ok(s) ==> {
                &&& s.wf()
                &&& ph_only_diff(self@, s@)
                &&& s.own_leaf == self.own_leaf
                &&& th(s@, root_spec(s@.len() as int), s@.len() as int)
                    == th(self@, root_spec(self@.len() as int), self@.len() as int)
            },
    {
        let ghost orig = nv(self.nodes@);
        let mut nodes = self.nodes;
        let own_leaf = self.own_leaf;
        let size = tree_size(&nodes);
        let w = nodes.len();
        let mut x: usize = 1;
        while x < w
            invariant
                x % 2 == 1,
                w == nv(nodes@).len(),
                ph_only_diff(orig, nv(nodes@)),
                wf_shape(nv(nodes@)),
                keys_ok(nv(nodes@)),
                crate::codec::encodable(nv(nodes@)),
                valid_leaf_count(size.0 as int),
                node_width(size.0 as int) == w,
                forall|y: int| 0 <= y < x && y % 2 == 1 ==> parent_hash_ok(nv(nodes@), y, w as int),
            decreases w - x,
        {
            let ghost pre = nv(nodes@);
            let info: Option<(Vec<u8>, Option<Vec<u8>>)> = match &nodes[x] {
                Some(Node::Parent(p)) => Some((crate::crypto::clone_bytes(&p.public_key), crate::node::clone_opt_bytes(&p.private_key))),
                _ => None,
            };
            match info {
                Some(pair) => {
                    let ph = compute_parent_hash(&nodes, NodeIndex(x as u32), size);
                    let (pk, sk) = pair;
                    set_node(&mut nodes, x, Some(Node::Parent(crate::node::ParentNode { public_key: pk, parent_hash: ph, private_key: sk })));
                    proof {
                        let cur = nv(nodes@);
                        assert(cur =~= pre.update(x as int, cur[x as int]));
                        assert forall|i: int| 0 <= i < cur.len() && i != x as int implies #[trigger] cur[i] == pre[i] by {}
                        lemma_staged_step(orig, pre, cur, x as int, w as int);
                    }
                },
                None => {},
            }
            x = x + 2;
        }
        let root_ix = crate::treemath::root(size);
        proof {
            lemma_root(w as int);
            lemma_th_ph_only(orig, nv(nodes@), root_spec(w as int), w as int);
        }
        let tree_hash = compute_tree_hash(&nodes, root_ix, size);
        proof {
            assert(nv(nodes@)[2 * (own_leaf.0 as int)] is Some) by {
                assert(slot_ph_only(orig[2 * (own_leaf.0 as int)], nv(nodes@)[2 * (own_leaf.0 as int)]));
            }
        }
        Ok(StagedDiff { nodes, tree_hash, own_leaf })
    }
}


/// Writes a parent slot, preserving shape, key consistency and bounded
/// fields.  The stored parent hash is left empty: staging recomputes it.
pub fn write_parent(nodes: &mut Vec<Option<Node>>, x: usize, public_key: Vec<u8>, private_key: Option<Vec<u8>>)
    requires
        x < old(nodes)@.len(),
        x % 2 == 1,
        wf_shape(nv(old(nodes)@)),
        keys_ok(nv(old(nodes)@)),
        crate::codec::encodable(nv(old(nodes)@)),
        public_key@.len() <= 0xffff_ffff,
        (private_key matches Some(sk) ==> exists|m: Seq<u8>| public_key@ == crate::crypto::hpke_pk_of(m) && sk@ == #[trigger] crate::crypto::hpke_sk_of(m)),
    ensures
        nv(final(nodes)@) == nv(old(nodes)@).update(x as int, Some(NodeV::Parent(crate::node::ParentNodeV {
            public_key: public_key@,
            parent_hash: Seq::empty(),
            private_key: crate::node::opt_bytes_view(private_key),
        }))),
        wf_shape(nv(final(nodes)@)),
        keys_ok(nv(final(nodes)@)),
        crate::codec::encodable(nv(final(nodes)@)),
{
    let ghost pkv = public_key@;
    let ghost skv = crate::node::opt_bytes_view(private_key);
    set_node(nodes, x, Some(Node::Parent(crate::node::ParentNode { public_key, parent_hash: Vec::new(), private_key })));
    proof {
        let pre = nv(old(nodes)@);
        let cur = nv(nodes@);
        let slot = Some(NodeV::Parent(crate::node::ParentNodeV { public_key: pkv, parent_hash: Seq::empty(), private_key: skv }));
        assert(cur =~= pre.update(x as int, slot));
        assert forall|i: int| 0 <= i < cur.len() && i % 2 == 0 implies ((#[trigger] cur[i]) is None || cur[i] matches Some(NodeV::Leaf(_))) by {
            assert(cur[i] == pre[i]);
        }
        assert forall|i: int| 0 <= i < cur.len() && i % 2 == 1 implies ((#[trigger] cur[i]) is None || cur[i] matches Some(NodeV::Parent(_))) by {
            if i != x as int {
                assert(cur[i] == pre[i]);
            }
        }
        assert forall|i: int| 0 <= i < cur.len() implies (match #[trigger] cur[i] {
            Some(n) => crate::node::node_keys_ok(n),
            None => true,
        }) by {
            if i != x as int {
                assert(cur[i] == pre[i]);
            }
        }
        assert forall|i: int| 0 <= i < cur.len() implies crate::codec::slot_encodable(#[trigger] cur[i]) by {
            if i != x as int {
                assert(cur[i] == pre[i]);
            }
        }
    }
}

/// Writes a leaf slot, preserving shape, key consistency and bounded
/// fields.
pub fn write_leaf(nodes: &mut Vec<Option<Node>>, x: usize, public_key: Vec<u8>, identity: Vec<u8>, private_key: Option<Vec<u8>>)
    requires
        x < old(nodes)@.len(),
        x % 2 == 0,
        wf_shape(nv(old(nodes)@)),
        keys_ok(nv(old(nodes)@)),
        crate::codec::encodable(nv(old(nodes)@)),
        public_key@.len() <= 0xffff_ffff,
        identity@.len() <= 0xffff_ffff,
        (private_key matches Some(sk) ==> exists|m: Seq<u8>| public_key@ == crate::crypto::hpke_pk_of(m) && sk@ == #[trigger] crate::crypto::hpke_sk_of(m)),
    ensures
        nv(final(nodes)@) == nv(old(nodes)@).update(x as int, Some(NodeV::Leaf(crate::node::LeafNodeV {
            public_key: public_key@,
            identity: identity@,
            private_key: crate::node::opt_bytes_view(private_key),
        }))),
        wf_shape(nv(final(nodes)@)),
        keys_ok(nv(final(nodes)@)),
        crate::codec::encodable(nv(final(nodes)@)),
{
    let ghost pkv = public_key@;
    let ghost idv = identity@;
    let ghost skv = crate::node::opt_bytes_view(private_key);
    set_node(nodes, x, Some(Node::Leaf(LeafNode { public_key, identity, private_key })));
    proof {
        let pre = nv(old(nodes)@);
        let cur = nv(nodes@);
        let slot = Some(NodeV::Leaf(crate::node::LeafNodeV { public_key: pkv, identity: idv, private_key: skv }));
        assert(cur =~= pre.update(x as int, slot));
        assert forall|i: int| 0 <= i < cur.len() && i % 2 == 0 implies ((#[trigger] cur[i]) is None || cur[i] matches Some(NodeV::Leaf(_))) by {
            if i != x as int {
                assert(cur[i] == pre[i]);
            }
        }
        assert forall|i: int| 0 <= i < cur.len() && i % 2 == 1 implies ((#[trigger] cur[i]) is None || cur[i] matches Some(NodeV::Parent(_))) by {
            assert(cur[i] == pre[i]);
        }
        assert forall|i: int| 0 <= i < cur.len() implies (match #[trigger] cur[i] {
            Some(n) => crate::node::node_keys_ok(n),
            None => true,
        }) by {
            if i != x as int {
                assert(cur[i] == pre[i]);
            }
        }
        assert forall|i: int| 0 <= i < cur.len() implies crate::codec::slot_encodable(#[trigger] cur[i]) by {
            if i != x as int {
                assert(cur[i] == pre[i]);
            }
        }
    }
}

/// Re-validating an unmodified well-formed tree always succeeds: its
/// stored parent hashes and its cached tree hash already equal the
/// recomputed values, so `parent_hash_valid` returns true and the cache
/// matches the root's tree hash.
pub proof fn lemma_revalidation_idempotent(t: &TreeSync)
    requires
        t.wf(),
    ensures
        all_parent_hashes_ok(t@, t@.len() as int),
        t.tree_hash@ == th(t@, root_spec(t@.len() as int), t@.len() as int),
{
}

} // verus!
