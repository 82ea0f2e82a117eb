//! The nodes of the authenticated tree.
//!
//! A leaf owns an identity-bound public key; a parent owns a public key
//! derived through the path-secret chain and a parent hash binding it to
//! its children's public state.  Either kind holds its private key only
//! while the local member is entitled to it; a blank slot is `None` in the
//! node array.

use vstd::prelude::*;

use crate::crypto::{clone_bytes, hpke_pk_of, hpke_sk_of};

verus! {

/// A leaf node: a member's identity and encryption key.
pub struct LeafNode {
    pub public_key: Vec<u8>,
    pub identity: Vec<u8>,
    pub private_key: Option<Vec<u8>>,
}

/// A parent node: a derived encryption key and the hash binding it to the
/// children's public state.
pub struct ParentNode {
    pub public_key: Vec<u8>,
    pub parent_hash: Vec<u8>,
    pub private_key: Option<Vec<u8>>,
}

/// A node is either a leaf or a parent.
pub enum Node {
    Leaf(LeafNode),
    Parent(ParentNode),
}

/// The mathematical image of a leaf node.
pub struct LeafNodeV {
    pub public_key: Seq<u8>,
    pub identity: Seq<u8>,
    pub private_key: Option<Seq<u8>>,
}

/// The mathematical image of a parent node.
pub struct ParentNodeV {
    pub public_key: Seq<u8>,
    pub parent_hash: Seq<u8>,
    pub private_key: Option<Seq<u8>>,
}

/// The mathematical image of a node.
pub enum NodeV {
    Leaf(LeafNodeV),
    Parent(ParentNodeV),
}

impl View for LeafNode {
    type V = LeafNodeV;

    open spec fn view(&self) -> LeafNodeV {
        LeafNodeV {
            public_key: self.public_key@,
            identity: self.identity@,
            private_key: match self.private_key {
                Some(ref sk) => Some(sk@),
                None => None,
            },
        }
    }
}

impl View for ParentNode {
    type V = ParentNodeV;

    open spec fn view(&self) -> ParentNodeV {
        ParentNodeV {
            public_key: self.public_key@,
            parent_hash: self.parent_hash@,
            private_key: match self.private_key {
                Some(ref sk) => Some(sk@),
                None => None,
            },
        }
    }
}

impl View for Node {
    type V = NodeV;

    open spec fn view(&self) -> NodeV {
        match self {
            Node::Leaf(l) => NodeV::Leaf(l@),
            Node::Parent(p) => NodeV::Parent(p@),
        }
    }
}

/// The views of a node array's slots.
pub open spec fn nv(s: Seq<Option<Node>>) -> Seq<Option<NodeV>> {
    s.map(|i: int, o: Option<Node>| match o {
        Some(n) => Some(n@),
        None => None,
    })
}

/// The public key stored at a slot; empty on a blank.
pub open spec fn pk_at(nodes: Seq<Option<NodeV>>, i: int) -> Seq<u8> {
    match nodes[i] {
        Some(NodeV::Leaf(l)) => l.public_key,
        Some(NodeV::Parent(p)) => p.public_key,
        None => Seq::empty(),
    }
}

/// The private key stored at a slot, if any.
pub open spec fn sk_at(nodes: Seq<Option<NodeV>>, i: int) -> Option<Seq<u8>> {
    match nodes[i] {
        Some(NodeV::Leaf(l)) => l.private_key,
        Some(NodeV::Parent(p)) => p.private_key,
        None => None,
    }
}

/// A stored private key matches the stored public key: both derive from
/// one input key material.
pub open spec fn node_keys_ok(n: NodeV) -> bool {
    match n {
        NodeV::Leaf(l) => match l.private_key {
            Some(sk) => exists|m: Seq<u8>| l.public_key == hpke_pk_of(m) && sk == #[trigger] hpke_sk_of(m),
            None => true,
        },
        NodeV::Parent(p) => match p.private_key {
            Some(sk) => exists|m: Seq<u8>| p.public_key == hpke_pk_of(m) && sk == #[trigger] hpke_sk_of(m),
            None => true,
        },
    }
}

/// The view of an optional byte vector.
pub open spec fn opt_bytes_view(o: Option<Vec<u8>>) -> Option<Seq<u8>> {
    match o {
        Some(b) => Some(b@),
        None => None,
    }
}

/// Field-wise copy of an optional secret.
pub fn clone_opt_bytes(v: &Option<Vec<u8>>) -> (r: Option<Vec<u8>>)
    ensures
        match v {
            Some(b) => r matches Some(rb) && rb@ == b@,
            None => r is None,
        },
{
    match v {
        Some(b) => Some(clone_bytes(b)),
        None => None,
    }
}

/// Field-wise copy of a node.
pub fn clone_node(n: &Node) -> (r: Node)
    ensures
        r@ == n@,
{
    match n {
        Node::Leaf(l) => Node::Leaf(LeafNode {
            public_key: clone_bytes(&l.public_key),
            identity: clone_bytes(&l.identity),
            private_key: clone_opt_bytes(&l.private_key),
        }),
        Node::Parent(p) => Node::Parent(ParentNode {
            public_key: clone_bytes(&p.public_key),
            parent_hash: clone_bytes(&p.parent_hash),
            private_key: clone_opt_bytes(&p.private_key),
        }),
    }
}

/// Field-wise copy of an optional node.
pub fn clone_opt_node(n: &Option<Node>) -> (r: Option<Node>)
    ensures
        match n {
            Some(x) => r matches Some(rx) && rx@ == x@,
            None => r is None,
        },
{
    match n {
        Some(x) => Some(clone_node(x)),
        None => None,
    }
}

/// Field-wise copy of a node array.
pub fn clone_nodes(v: &Vec<Option<Node>>) -> (r: Vec<Option<Node>>)
    ensures
        nv(r@) == nv(v@),
        r@.len() == v@.len(),
{
    let mut r: Vec<Option<Node>> = Vec::new();
    let mut i: usize = 0;
    while i < v.len()
        invariant
            i <= v.len(),
            r@.len() == i,
            nv(r@) == nv(v@).subrange(0, i as int),
        decreases v.len() - i,
    {
        let c = clone_opt_node(&v[i]);
        proof {
            match v@[i as int] {
                Some(x) => {
                    assert(c matches Some(cx) && cx@ == x@);
                },
                None => {},
            }
        }
        r.push(c);
        i = i + 1;
        proof {
            assert(nv(r@) =~= nv(v@).subrange(0, i as int));
        }
    }
    proof {
        assert(nv(v@).subrange(0, v@.len() as int) =~= nv(v@));
    }
    r
}

/// The public part of a node: the private key stripped.
pub fn public_node(n: &Node) -> (r: Node)
    ensures
        r@ == strip_node(n@),
{
    match n {
        Node::Leaf(l) => Node::Leaf(LeafNode {
            public_key: clone_bytes(&l.public_key),
            identity: clone_bytes(&l.identity),
            private_key: None,
        }),
        Node::Parent(p) => Node::Parent(ParentNode {
            public_key: clone_bytes(&p.public_key),
            parent_hash: clone_bytes(&p.parent_hash),
            private_key: None,
        }),
    }
}

/// A node with its private key stripped.
pub open spec fn strip_node(n: NodeV) -> NodeV {
    match n {
        NodeV::Leaf(l) => NodeV::Leaf(LeafNodeV { public_key: l.public_key, identity: l.identity, private_key: None }),
        NodeV::Parent(p) => NodeV::Parent(ParentNodeV { public_key: p.public_key, parent_hash: p.parent_hash, private_key: None }),
    }
}

/// A node array with every private key stripped.
pub open spec fn strip_nodes(s: Seq<Option<NodeV>>) -> Seq<Option<NodeV>> {
    s.map(|i: int, o: Option<NodeV>| match o {
        Some(n) => Some(strip_node(n)),
        None => None,
    })
}

/// A slot sequence is public when it holds no private key.
pub open spec fn public_nodes(s: Seq<Option<NodeV>>) -> bool {
    forall|i: int| 0 <= i < s.len() ==> sk_at(s, i) is None
}

} // verus!
