//! The wire format of an exported node sequence: a length-prefixed list of
//! optional nodes.  A present node is a tag, its public key and its
//! identity or parent hash, each length-prefixed; a blank is a single zero
//! byte.  The layout is fixed by protocol compatibility and round-trips
//! byte-exact: whatever decodes re-encodes to the very same bytes.

use vstd::prelude::*;
use vstd::arithmetic::div_mod::lemma_fundamental_div_mod_converse;

use crate::errors::TreeError;
use crate::node::{nv, sk_at, LeafNode, Node, NodeV, ParentNode, public_nodes};

verus! {

/// Four big-endian bytes of a 32-bit length.
pub open spec fn u32_bytes(n: int) -> Seq<u8> {
    seq![
        (((n / 0x100_0000) % 0x100) as u8),
        (((n / 0x1_0000) % 0x100) as u8),
        (((n / 0x100) % 0x100) as u8),
        ((n % 0x100) as u8),
    ]
}

/// A length-prefixed byte string.
pub open spec fn enc_bytes(b: Seq<u8>) -> Seq<u8> {
    u32_bytes(b.len() as int) + b
}

/// One optional node on the wire.
pub open spec fn enc_opt_node(n: Option<NodeV>) -> Seq<u8> {
    match n {
        None => seq![0u8],
        Some(NodeV::Leaf(l)) => seq![1u8] + enc_bytes(l.public_key) + enc_bytes(l.identity),
        Some(NodeV::Parent(p)) => seq![2u8] + enc_bytes(p.public_key) + enc_bytes(p.parent_hash),
    }
}

/// The slots from position `i` on, encoded in order.
pub open spec fn enc_nodes_from(nodes: Seq<Option<NodeV>>, i: int) -> Seq<u8>
    decreases nodes.len() - i,
{
    if i < 0 || i >= nodes.len() {
        Seq::empty()
    } else {
        enc_opt_node(nodes[i]) + enc_nodes_from(nodes, i + 1)
    }
}

/// The whole node sequence on the wire: its length, then each slot.
pub open spec fn enc_nodes(nodes: Seq<Option<NodeV>>) -> Seq<u8> {
    u32_bytes(nodes.len() as int) + enc_nodes_from(nodes, 0)
}

/// Appending a slot extends the encoding on the right.
pub proof fn lemma_enc_push(nodes: Seq<Option<NodeV>>, n: Option<NodeV>)
    ensures
        enc_nodes_from(nodes.push(n), 0) == enc_nodes_from(nodes, 0) + enc_opt_node(n),
{
    lemma_enc_push_from(nodes, n, 0);
}

proof fn lemma_enc_push_from(nodes: Seq<Option<NodeV>>, n: Option<NodeV>, i: int)
    requires
        0 <= i <= nodes.len(),
    ensures
        enc_nodes_from(nodes.push(n), i) == enc_nodes_from(nodes, i) + enc_opt_node(n),
    decreases nodes.len() - i,
{
    let e = nodes.push(n);
    if i == nodes.len() {
        assert(e[i] == n);
        assert(enc_nodes_from(e, i + 1) =~= Seq::<u8>::empty());
        assert(enc_nodes_from(e, i) =~= enc_opt_node(n));
        assert(enc_nodes_from(nodes, i) =~= Seq::<u8>::empty());
        assert(enc_nodes_from(nodes, i) + enc_opt_node(n) =~= enc_opt_node(n));
    } else {
        lemma_enc_push_from(nodes, n, i + 1);
        assert(e[i] == nodes[i]);
        assert(enc_nodes_from(e, i) =~= enc_opt_node(nodes[i]) + (enc_nodes_from(nodes, i + 1) + enc_opt_node(n)));
        assert(enc_opt_node(nodes[i]) + (enc_nodes_from(nodes, i + 1) + enc_opt_node(n))
            =~= (enc_opt_node(nodes[i]) + enc_nodes_from(nodes, i + 1)) + enc_opt_node(n));
    }
}

/// A value below `2^32` is recovered from its four bytes.
pub proof fn lemma_u32_bytes_inj(a: int, b: int)
    requires
        0 <= a < 0x1_0000_0000,
        0 <= b < 0x1_0000_0000,
        u32_bytes(a) == u32_bytes(b),
    ensures
        a == b,
{
    lemma_u32_bytes_recon(a);
    lemma_u32_bytes_recon(b);
    assert(u32_bytes(a)[0] == u32_bytes(b)[0]);
    assert(u32_bytes(a)[1] == u32_bytes(b)[1]);
    assert(u32_bytes(a)[2] == u32_bytes(b)[2]);
    assert(u32_bytes(a)[3] == u32_bytes(b)[3]);
}

/// Base-256 reconstruction of a 32-bit value from its digit bytes.
proof fn lemma_u32_bytes_recon(a: int)
    requires
        0 <= a < 0x1_0000_0000,
    ensures
        a == ((a / 0x100_0000) % 0x100) * 0x100_0000 + ((a / 0x1_0000) % 0x100) * 0x1_0000
            + ((a / 0x100) % 0x100) * 0x100 + a % 0x100,
        (a / 0x100_0000) % 0x100 < 0x100,
        (a / 0x1_0000) % 0x100 < 0x100,
        (a / 0x100) % 0x100 < 0x100,
        a % 0x100 < 0x100,
{
    let q1 = a / 0x100;
    let q2 = a / 0x1_0000;
    let q3 = a / 0x100_0000;
    vstd::arithmetic::div_mod::lemma_fundamental_div_mod(a, 0x100);
    vstd::arithmetic::div_mod::lemma_fundamental_div_mod(q1, 0x100);
    vstd::arithmetic::div_mod::lemma_fundamental_div_mod(q2, 0x100);
    vstd::arithmetic::div_mod::lemma_div_denominator(a, 0x100, 0x100);
    assert(q1 / 0x100 == q2);
    vstd::arithmetic::div_mod::lemma_div_denominator(a, 0x1_0000, 0x100);
    assert(q2 / 0x100 == q3);
    assert(0 <= q3 < 0x100) by (nonlinear_arith)
        requires 0 <= a < 0x1_0000_0000, q3 == a / 0x100_0000;
    vstd::arithmetic::div_mod::lemma_small_mod(q3 as nat, 0x100);
}

/// The slot encodings of a prefix and the rest concatenate to the whole.
pub proof fn lemma_enc_from_take(nodes: Seq<Option<NodeV>>, j: int)
    requires
        0 <= j <= nodes.len(),
    ensures
        enc_nodes_from(nodes, 0) == enc_nodes_from(nodes.take(j), 0) + enc_nodes_from(nodes, j),
    decreases j,
{
    if j == 0 {
        assert(enc_nodes_from(nodes.take(0), 0) =~= Seq::<u8>::empty());
        assert(enc_nodes_from(nodes.take(0), 0) + enc_nodes_from(nodes, 0) =~= enc_nodes_from(nodes, 0));
    } else {
        lemma_enc_from_take(nodes, j - 1);
        assert(nodes.take(j) =~= nodes.take(j - 1).push(nodes[j - 1]));
        lemma_enc_push(nodes.take(j - 1), nodes[j - 1]);
        assert(enc_nodes_from(nodes, j - 1) == enc_opt_node(nodes[j - 1]) + enc_nodes_from(nodes, j));
        assert(enc_nodes_from(nodes.take(j - 1), 0) + (enc_opt_node(nodes[j - 1]) + enc_nodes_from(nodes, j))
            =~= (enc_nodes_from(nodes.take(j - 1), 0) + enc_opt_node(nodes[j - 1])) + enc_nodes_from(nodes, j));
    }
}

/// What the wire holds at a parse position: the remaining input is exactly
/// the remaining slot encodings, and the next slot's layout is laid bare.
#[verifier::rlimit(100)]
#[verifier::spinoff_prover]
proof fn lemma_decode_step(data: Seq<u8>, ns: Seq<Option<NodeV>>, parsed: int, pos: int)
    requires
        data == enc_nodes(ns),
        encodable(ns),
        0 <= parsed <= ns.len(),
        data.subrange(0, pos) == u32_bytes(ns.len() as int) + enc_nodes_from(ns.take(parsed), 0),
        4 <= pos <= data.len(),
    ensures
        data.skip(pos) == enc_nodes_from(ns, parsed),
        parsed == ns.len() ==> pos == data.len(),
        parsed < ns.len() ==> {
            &&& pos < data.len()
            &&& data.skip(pos) == enc_opt_node(ns[parsed]) + enc_nodes_from(ns, parsed + 1)
            &&& data[pos] == enc_opt_node(ns[parsed])[0]
            &&& (ns[parsed] is None ==> data[pos] == 0)
            &&& (ns[parsed] matches Some(NodeV::Leaf(_)) ==> data[pos] == 1)
            &&& (ns[parsed] matches Some(NodeV::Parent(_)) ==> data[pos] == 2)
        },
{
    lemma_enc_from_take(ns, parsed);
    assert(data == data.subrange(0, pos) + data.skip(pos));
    assert(data == (u32_bytes(ns.len() as int) + enc_nodes_from(ns.take(parsed), 0)) + enc_nodes_from(ns, parsed));
    assert(data.skip(pos) =~= enc_nodes_from(ns, parsed));
    if parsed == ns.len() {
        assert(enc_nodes_from(ns, parsed) =~= Seq::<u8>::empty());
    } else {
        assert(enc_nodes_from(ns, parsed) == enc_opt_node(ns[parsed]) + enc_nodes_from(ns, parsed + 1));
        assert(enc_opt_node(ns[parsed]).len() >= 1) by {
            match ns[parsed] {
                None => {},
                Some(NodeV::Leaf(_)) => {},
                Some(NodeV::Parent(_)) => {},
            }
        }
        assert(data[pos] == data.skip(pos)[0]);
        assert(data.skip(pos)[0] == enc_opt_node(ns[parsed])[0]);
        match ns[parsed] {
            None => {
                assert(enc_opt_node(ns[parsed])[0] == 0);
            },
            Some(NodeV::Leaf(l)) => {
                assert(enc_opt_node(ns[parsed])[0] == 1);
            },
            Some(NodeV::Parent(p)) => {
                assert(enc_opt_node(ns[parsed])[0] == 2);
            },
        }
    }
}

/// The first byte string a present slot carries: its public key.
pub open spec fn slot_pk(o: Option<NodeV>) -> Seq<u8> {
    match o {
        Some(NodeV::Leaf(l)) => l.public_key,
        Some(NodeV::Parent(p)) => p.public_key,
        None => Seq::empty(),
    }
}

/// The second byte string a present slot carries: a leaf's identity or a
/// parent's stored parent hash.
pub open spec fn slot_snd(o: Option<NodeV>) -> Seq<u8> {
    match o {
        Some(NodeV::Leaf(l)) => l.identity,
        Some(NodeV::Parent(p)) => p.parent_hash,
        None => Seq::empty(),
    }
}

/// A slice of the input at a known offset inside a three-part suffix.
proof fn lemma_slice_at(data: Seq<u8>, pos: int, pre: Seq<u8>, part: Seq<u8>, post: Seq<u8>)
    requires
        0 <= pos <= data.len(),
        data.skip(pos) == pre + part + post,
    ensures
        pos + pre.len() + part.len() + post.len() == data.len(),
        data.subrange(pos + pre.len(), pos + pre.len() + part.len()) == part,
{
    assert(data.skip(pos).len() == pre.len() + part.len() + post.len());
    assert forall|i: int| 0 <= i < part.len() implies data.subrange(pos + pre.len(), pos + pre.len() + part.len())[i] == part[i] by {
        assert(data.skip(pos)[pre.len() + i] == part[i]);
        assert(data[pos + pre.len() + i] == data.skip(pos)[pre.len() + i]);
    }
    assert(data.subrange(pos + pre.len(), pos + pre.len() + part.len()) =~= part);
}

/// The byte layout of a present slot at its parse position.
#[verifier::rlimit(100)]
#[verifier::spinoff_prover]
proof fn lemma_decode_fields(data: Seq<u8>, ns: Seq<Option<NodeV>>, parsed: int, pos: int)
    requires
        data == enc_nodes(ns),
        encodable(ns),
        0 <= parsed < ns.len(),
        ns[parsed] is Some,
        data.subrange(0, pos) == u32_bytes(ns.len() as int) + enc_nodes_from(ns.take(parsed), 0),
        4 <= pos <= data.len(),
    ensures
        pos + 9 + slot_pk(ns[parsed]).len() + slot_snd(ns[parsed]).len() <= data.len(),
        data.subrange(pos + 1, pos + 5) == u32_bytes(slot_pk(ns[parsed]).len() as int),
        data.subrange(pos + 5, pos + 5 + slot_pk(ns[parsed]).len() as int) == slot_pk(ns[parsed]),
        data.subrange(pos + 5 + slot_pk(ns[parsed]).len() as int, pos + 9 + slot_pk(ns[parsed]).len() as int)
            == u32_bytes(slot_snd(ns[parsed]).len() as int),
        data.subrange(pos + 9 + slot_pk(ns[parsed]).len() as int,
            pos + 9 + slot_pk(ns[parsed]).len() as int + slot_snd(ns[parsed]).len() as int)
            == slot_snd(ns[parsed]),
{
    lemma_decode_step(data, ns, parsed, pos);
    let pk = slot_pk(ns[parsed]);
    let snd = slot_snd(ns[parsed]);
    let rest = enc_nodes_from(ns, parsed + 1);
    let e = enc_opt_node(ns[parsed]);
    let t = seq![e[0]];
    let bpk = u32_bytes(pk.len() as int);
    let bsnd = u32_bytes(snd.len() as int);
    assert(e =~= t + bpk + pk + bsnd + snd) by {
        match ns[parsed] {
            Some(NodeV::Leaf(l)) => {
                assert(e == seq![1u8] + enc_bytes(l.public_key) + enc_bytes(l.identity));
            },
            Some(NodeV::Parent(p)) => {
                assert(e == seq![2u8] + enc_bytes(p.public_key) + enc_bytes(p.parent_hash));
            },
            None => {},
        }
    }
    assert(data.skip(pos) == e + rest);
    assert(data.skip(pos) =~= t + bpk + (pk + (bsnd + (snd + rest))));
    lemma_slice_at(data, pos, t, bpk, pk + (bsnd + (snd + rest)));
    assert(data.skip(pos) =~= (t + bpk) + pk + (bsnd + (snd + rest)));
    lemma_slice_at(data, pos, t + bpk, pk, bsnd + (snd + rest));
    assert(data.skip(pos) =~= (t + bpk + pk) + bsnd + (snd + rest));
    lemma_slice_at(data, pos, t + bpk + pk, bsnd, snd + rest);
    assert(data.skip(pos) =~= (t + bpk + pk + bsnd) + snd + rest);
    lemma_slice_at(data, pos, t + bpk + pk + bsnd, snd, rest);
}

/// Everything the parser needs to know about a present slot: its kind is
/// the tag byte, its fields are bounded, public, and laid out at known
/// offsets.
#[verifier::rlimit(100)]
#[verifier::spinoff_prover]
proof fn lemma_present_slot_layout(data: Seq<u8>, ns: Seq<Option<NodeV>>, parsed: int, pos: int)
    requires
        data == enc_nodes(ns),
        public_nodes(ns),
        encodable(ns),
        0 <= parsed < ns.len(),
        data.subrange(0, pos) == u32_bytes(ns.len() as int) + enc_nodes_from(ns.take(parsed), 0),
        4 <= pos <= data.len(),
        pos < data.len(),
        data[pos] == 1 || data[pos] == 2,
    ensures
        ns[parsed] is Some,
        (data[pos] == 1 <==> ns[parsed] matches Some(NodeV::Leaf(_))),
        (data[pos] == 2 <==> ns[parsed] matches Some(NodeV::Parent(_))),
        slot_pk(ns[parsed]).len() <= 0xffff_ffff,
        slot_snd(ns[parsed]).len() <= 0xffff_ffff,
        sk_at(ns, parsed) is None,
        pos + 9 + slot_pk(ns[parsed]).len() + slot_snd(ns[parsed]).len() <= data.len(),
        data.subrange(pos + 1, pos + 5) == u32_bytes(slot_pk(ns[parsed]).len() as int),
        data.subrange(pos + 5, pos + 5 + slot_pk(ns[parsed]).len() as int) == slot_pk(ns[parsed]),
        data.subrange(pos + 5 + slot_pk(ns[parsed]).len() as int, pos + 9 + slot_pk(ns[parsed]).len() as int)
            == u32_bytes(slot_snd(ns[parsed]).len() as int),
        data.subrange(pos + 9 + slot_pk(ns[parsed]).len() as int,
            pos + 9 + slot_pk(ns[parsed]).len() as int + slot_snd(ns[parsed]).len() as int)
            == slot_snd(ns[parsed]),
{
    lemma_decode_step(data, ns, parsed, pos);
    match ns[parsed] {
        None => {
            assert(data[pos] == 0);
        },
        Some(NodeV::Leaf(_)) => {},
        Some(NodeV::Parent(_)) => {},
    }
    lemma_decode_fields(data, ns, parsed, pos);
    assert(slot_encodable(ns[parsed]));
    match ns[parsed] {
        Some(NodeV::Leaf(l)) => {},
        Some(NodeV::Parent(p)) => {},
        None => {},
    }
}

/// One parse step over a present slot: pushing the decoded node extends
/// the consumed prefix by the slot's encoding and keeps the decoded
/// sequence public and bounded.
#[verifier::rlimit(100)]
#[verifier::spinoff_prover]
proof fn lemma_present_prefix(
    data: Seq<u8>,
    prev: Seq<Option<NodeV>>,
    cur: Seq<Option<NodeV>>,
    nview: NodeV,
    count: int,
    pos0: int,
    pk_len: int,
    snd_len: int,
)
    requires
        cur == prev.push(Some(nview)),
        4 <= pos0,
        pos0 + 9 + pk_len + snd_len <= data.len(),
        0 <= pk_len < 0x1_0000_0000,
        0 <= snd_len < 0x1_0000_0000,
        data.subrange(0, pos0) == u32_bytes(count) + enc_nodes_from(prev, 0),
        u32_bytes(pk_len) == data.subrange(pos0 + 1, pos0 + 5),
        u32_bytes(snd_len) == data.subrange(pos0 + 5 + pk_len, pos0 + 9 + pk_len),
        slot_pk(Some(nview)) == data.subrange(pos0 + 5, pos0 + 5 + pk_len),
        slot_snd(Some(nview)) == data.subrange(pos0 + 9 + pk_len, pos0 + 9 + pk_len + snd_len),
        (match nview {
            NodeV::Leaf(l) => l.private_key is None && data[pos0] == 1,
            NodeV::Parent(p) => p.private_key is None && data[pos0] == 2,
        }),
        public_nodes(prev),
        forall|j: int| 0 <= j < prev.len() ==> slot_encodable(#[trigger] prev[j]),
    ensures
        data.subrange(0, pos0 + 9 + pk_len + snd_len) == u32_bytes(count) + enc_nodes_from(cur, 0),
        public_nodes(cur),
        forall|j: int| 0 <= j < cur.len() ==> slot_encodable(#[trigger] cur[j]),
{
    let pos2 = pos0 + 5 + pk_len;
    let posn = pos0 + 9 + pk_len + snd_len;
    assert(enc_opt_node(Some(nview)) =~= seq![data[pos0]]
        + (u32_bytes(pk_len) + data.subrange(pos0 + 5, pos0 + 5 + pk_len))
        + (u32_bytes(snd_len) + data.subrange(pos2 + 4, pos2 + 4 + snd_len)));
    assert(data.subrange(0, posn) =~= data.subrange(0, pos0) + seq![data[pos0]]
        + data.subrange(pos0 + 1, pos0 + 5) + data.subrange(pos0 + 5, pos0 + 5 + pk_len)
        + data.subrange(pos2, pos2 + 4) + data.subrange(pos2 + 4, pos2 + 4 + snd_len));
    lemma_enc_push(prev, Some(nview));
    assert(data.subrange(0, posn) =~= u32_bytes(count) + enc_nodes_from(cur, 0));
    assert forall|j: int| 0 <= j < cur.len() implies sk_at(cur, j) is None && slot_encodable(#[trigger] cur[j]) by {
        if j < prev.len() {
            assert(cur[j] == prev[j]);
            assert(sk_at(prev, j) is None);
            assert(slot_encodable(prev[j]));
        } else {
            assert(cur[j] == Some(nview));
        }
    }
}

/// For one sequence the input encodes: the decoded node equals that
/// sequence's slot at the parse position.
#[verifier::rlimit(100)]
#[verifier::spinoff_prover]
proof fn lemma_agree_one(
    data: Seq<u8>,
    ns: Seq<Option<NodeV>>,
    nview: NodeV,
    parsed: int,
    pos0: int,
    pk_len: int,
    snd_len: int,
)
    requires
        data == enc_nodes(ns),
        public_nodes(ns),
        encodable(ns),
        0 <= parsed < ns.len(),
        data.subrange(0, pos0) == u32_bytes(ns.len() as int) + enc_nodes_from(ns.take(parsed), 0),
        4 <= pos0,
        pos0 + 9 + pk_len + snd_len <= data.len(),
        0 <= pk_len < 0x1_0000_0000,
        0 <= snd_len < 0x1_0000_0000,
        u32_bytes(pk_len) == data.subrange(pos0 + 1, pos0 + 5),
        u32_bytes(snd_len) == data.subrange(pos0 + 5 + pk_len, pos0 + 9 + pk_len),
        slot_pk(Some(nview)) == data.subrange(pos0 + 5, pos0 + 5 + pk_len),
        slot_snd(Some(nview)) == data.subrange(pos0 + 9 + pk_len, pos0 + 9 + pk_len + snd_len),
        (match nview {
            NodeV::Leaf(l) => l.private_key is None && data[pos0] == 1,
            NodeV::Parent(p) => p.private_key is None && data[pos0] == 2,
        }),
    ensures
        Some(nview) == ns[parsed],
{
    lemma_present_slot_layout(data, ns, parsed, pos0);
    lemma_u32_bytes_inj(pk_len, slot_pk(ns[parsed]).len() as int);
    lemma_u32_bytes_inj(snd_len, slot_snd(ns[parsed]).len() as int);
    assert(slot_pk(Some(nview)) == slot_pk(ns[parsed]));
    assert(slot_snd(Some(nview)) == slot_snd(ns[parsed]));
    match ns[parsed] {
        Some(NodeV::Leaf(l)) => {
            match nview {
                NodeV::Leaf(d) => {
                    assert(d.public_key == l.public_key);
                    assert(d.identity == l.identity);
                    assert(l.private_key is None);
                },
                NodeV::Parent(_) => {},
            }
        },
        Some(NodeV::Parent(p)) => {
            match nview {
                NodeV::Parent(d) => {
                    assert(d.public_key == p.public_key);
                    assert(d.parent_hash == p.parent_hash);
                    assert(p.private_key is None);
                },
                NodeV::Leaf(_) => {},
            }
        },
        None => {},
    }
}

/// The decoded node agrees with whatever public sequence the whole input
/// encodes: the decoded prefix stays that sequence's prefix.
#[verifier::rlimit(100)]
#[verifier::spinoff_prover]
proof fn lemma_present_agree(
    data: Seq<u8>,
    prev: Seq<Option<NodeV>>,
    cur: Seq<Option<NodeV>>,
    nview: NodeV,
    count: int,
    parsed: int,
    pos0: int,
    pk_len: int,
    snd_len: int,
)
    requires
        cur == prev.push(Some(nview)),
        4 <= pos0,
        pos0 + 9 + pk_len + snd_len <= data.len(),
        0 <= pk_len < 0x1_0000_0000,
        0 <= snd_len < 0x1_0000_0000,
        data.subrange(0, pos0) == u32_bytes(count) + enc_nodes_from(prev, 0),
        prev.len() == parsed,
        0 <= parsed < count,
        data[pos0] == 1 || data[pos0] == 2,
        u32_bytes(pk_len) == data.subrange(pos0 + 1, pos0 + 5),
        u32_bytes(snd_len) == data.subrange(pos0 + 5 + pk_len, pos0 + 9 + pk_len),
        slot_pk(Some(nview)) == data.subrange(pos0 + 5, pos0 + 5 + pk_len),
        slot_snd(Some(nview)) == data.subrange(pos0 + 9 + pk_len, pos0 + 9 + pk_len + snd_len),
        (match nview {
            NodeV::Leaf(l) => l.private_key is None && data[pos0] == 1,
            NodeV::Parent(p) => p.private_key is None && data[pos0] == 2,
        }),
        forall|ns: Seq<Option<NodeV>>| (#[trigger] enc_nodes(ns)) == data && public_nodes(ns) && encodable(ns)
            ==> count == ns.len() && prev == ns.take(parsed),
    ensures
        forall|ns: Seq<Option<NodeV>>| (#[trigger] enc_nodes(ns)) == data && public_nodes(ns) && encodable(ns)
            ==> count == ns.len() && cur == ns.take(parsed + 1),
{
    assert forall|ns: Seq<Option<NodeV>>| (#[trigger] enc_nodes(ns)) == data && public_nodes(ns) && encodable(ns)
        implies count == ns.len() && cur == ns.take(parsed + 1) by {
        assert(enc_nodes_from(prev, 0) == enc_nodes_from(ns.take(parsed), 0));
        lemma_agree_one(data, ns, nview, parsed, pos0, pk_len, snd_len);
        assert(ns.take(parsed + 1) =~= ns.take(parsed).push(ns[parsed]));
        assert(cur =~= ns.take(parsed + 1));
    }
}

/// Appends the four big-endian bytes of a length.
pub fn push_u32(buf: &mut Vec<u8>, x: u32)
    ensures
        final(buf)@ == old(buf)@ + u32_bytes(x as int),
{
    buf.push(((x / 0x100_0000) % 0x100) as u8);
    buf.push(((x / 0x1_0000) % 0x100) as u8);
    buf.push(((x / 0x100) % 0x100) as u8);
    buf.push((x % 0x100) as u8);
    proof {
        assert(buf@ =~= old(buf)@ + u32_bytes(x as int));
    }
}

/// Appends a byte string.
pub fn push_bytes(buf: &mut Vec<u8>, b: &Vec<u8>)
    ensures
        final(buf)@ == old(buf)@ + b@,
{
    let mut i: usize = 0;
    while i < b.len()
        invariant
            i <= b.len(),
            buf@ == old(buf)@ + b@.subrange(0, i as int),
        decreases b.len() - i,
    {
        buf.push(b[i]);
        i = i + 1;
        proof {
            assert(old(buf)@ + b@.subrange(0, i as int) =~= (old(buf)@ + b@.subrange(0, i as int - 1)).push(b@[i as int - 1]));
        }
    }
    proof {
        assert(b@.subrange(0, b@.len() as int) =~= b@);
    }
}

/// Appends a length-prefixed byte string.
pub fn push_prefixed(buf: &mut Vec<u8>, b: &Vec<u8>)
    requires
        b@.len() <= 0xffff_ffff,
    ensures
        final(buf)@ == old(buf)@ + enc_bytes(b@),
{
    push_u32(buf, b.len() as u32);
    push_bytes(buf, b);
    proof {
        assert(buf@ =~= old(buf)@ + enc_bytes(b@));
    }
}

/// A slot fit for the wire: each field short enough for its length prefix.
pub open spec fn slot_encodable(o: Option<NodeV>) -> bool {
    match o {
        Some(NodeV::Leaf(l)) => l.public_key.len() <= 0xffff_ffff && l.identity.len() <= 0xffff_ffff,
        Some(NodeV::Parent(p)) => p.public_key.len() <= 0xffff_ffff && p.parent_hash.len() <= 0xffff_ffff,
        None => true,
    }
}

/// A node sequence fit for the wire.
pub open spec fn encodable(nodes: Seq<Option<NodeV>>) -> bool {
    &&& nodes.len() <= 0xffff_ffff
    &&& forall|i: int| 0 <= i < nodes.len() ==> slot_encodable(#[trigger] nodes[i])
}

/// Encodes a node sequence for the wire, private keys ignored.
pub fn encode_nodes(nodes: &Vec<Option<Node>>) -> (r: Result<Vec<u8>, TreeError>)
    ensures
        encodable(nv(nodes@)) ==> (r matches Ok(buf) && buf@ == enc_nodes(nv(nodes@))),
        r matches Err(e) ==> e == TreeError::ValidationError,
{
    if nodes.len() > 0xffff_ffff {
        return Err(TreeError::ValidationError);
    }
    let mut buf: Vec<u8> = Vec::new();
    push_u32(&mut buf, nodes.len() as u32);
    let mut i: usize = 0;
    while i < nodes.len()
        invariant
            i <= nodes@.len(),
            nodes@.len() <= 0xffff_ffff,
            buf@ == u32_bytes(nodes@.len() as int) + enc_nodes_from(nv(nodes@).subrange(0, i as int), 0),
        decreases nodes.len() - i,
    {
        let ghost pre = nv(nodes@).subrange(0, i as int);
        match &nodes[i] {
            None => {
                buf.push(0u8);
                proof {
                    assert(buf@ =~= u32_bytes(nodes@.len() as int) + (enc_nodes_from(pre, 0) + enc_opt_node(None)));
                }
            },
            Some(Node::Leaf(l)) => {
                if l.public_key.len() > 0xffff_ffff || l.identity.len() > 0xffff_ffff {
                    return Err(TreeError::ValidationError);
                }
                buf.push(1u8);
                push_prefixed(&mut buf, &l.public_key);
                push_prefixed(&mut buf, &l.identity);
                proof {
                    assert(buf@ =~= u32_bytes(nodes@.len() as int) + (enc_nodes_from(pre, 0) + enc_opt_node(nv(nodes@)[i as int])));
                }
            },
            Some(Node::Parent(p)) => {
                if p.public_key.len() > 0xffff_ffff || p.parent_hash.len() > 0xffff_ffff {
                    return Err(TreeError::ValidationError);
                }
                buf.push(2u8);
                push_prefixed(&mut buf, &p.public_key);
                push_prefixed(&mut buf, &p.parent_hash);
                proof {
                    assert(buf@ =~= u32_bytes(nodes@.len() as int) + (enc_nodes_from(pre, 0) + enc_opt_node(nv(nodes@)[i as int])));
                }
            },
        }
        i = i + 1;
        proof {
            lemma_enc_push(pre, nv(nodes@)[i as int - 1]);
            assert(pre.push(nv(nodes@)[i as int - 1]) =~= nv(nodes@).subrange(0, i as int));
        }
    }
    proof {
        assert(nv(nodes@).subrange(0, nodes@.len() as int) =~= nv(nodes@));
    }
    Ok(buf)
}

/// Reads a big-endian length.
pub fn read_u32(data: &Vec<u8>, pos: usize) -> (r: Result<u32, TreeError>)
    requires
        pos + 4 <= data@.len(),
    ensures
        r matches Ok(x) && u32_bytes(x as int) == data@.subrange(pos as int, pos as int + 4),
{
    let dlen = data.len();
    let b0 = data[pos] as u32;
    let b1 = data[pos + 1] as u32;
    let b2 = data[pos + 2] as u32;
    let b3 = data[pos + 3] as u32;
    let x = b0 * 0x100_0000 + b1 * 0x1_0000 + b2 * 0x100 + b3;
    proof {
        let xi = x as int;
        lemma_fundamental_div_mod_converse(xi, 0x100_0000, b0 as int, b1 as int * 0x1_0000 + b2 as int * 0x100 + b3 as int);
        lemma_fundamental_div_mod_converse(b0 as int, 0x100, 0, b0 as int);
        lemma_fundamental_div_mod_converse(xi, 0x1_0000, b0 as int * 0x100 + b1 as int, b2 as int * 0x100 + b3 as int);
        lemma_fundamental_div_mod_converse(b0 as int * 0x100 + b1 as int, 0x100, b0 as int, b1 as int);
        lemma_fundamental_div_mod_converse(xi, 0x100, b0 as int * 0x1_0000 + b1 as int * 0x100 + b2 as int, b3 as int);
        lemma_fundamental_div_mod_converse(b0 as int * 0x1_0000 + b1 as int * 0x100 + b2 as int, 0x100, b0 as int * 0x100 + b1 as int, b2 as int);
        assert((xi / 0x100_0000) % 0x100 == b0 as int);
        assert((xi / 0x1_0000) % 0x100 == b1 as int);
        assert((xi / 0x100) % 0x100 == b2 as int);
        assert(xi % 0x100 == b3 as int);
        assert(u32_bytes(x as int) =~= data@.subrange(pos as int, pos as int + 4));
    }
    Ok(x)
}

/// Reads `n` bytes.
pub fn read_bytes(data: &Vec<u8>, pos: usize, n: usize) -> (r: Vec<u8>)
    requires
        pos + n <= data@.len(),
    ensures
        r@ == data@.subrange(pos as int, pos as int + n as int),
{
    let dlen = data.len();
    let mut v: Vec<u8> = Vec::new();
    let mut i: usize = 0;
    while i < n
        invariant
            i <= n,
            pos + n <= data@.len(),
            data@.len() <= usize::MAX,
            v@ == data@.subrange(pos as int, pos as int + i as int),
        decreases n - i,
    {
        v.push(data[pos + i]);
        i = i + 1;
        proof {
            assert(v@ =~= data@.subrange(pos as int, pos as int + i as int));
        }
    }
    v
}

/// Decodes a wire-format node sequence.  On success the result re-encodes
/// to exactly the input — the byte-exact round trip the protocol demands —
/// and carries no private key material; and every byte string that is a
/// valid encoding of a public node sequence decodes successfully.
#[verifier::rlimit(100)]
#[verifier::spinoff_prover]
pub fn decode_nodes(data: &Vec<u8>) -> (r: Result<Vec<Option<Node>>, TreeError>)
    ensures
        r matches Ok(v) ==> enc_nodes(nv(v@)) == data@ && public_nodes(nv(v@)) && encodable(nv(v@)),
        r matches Err(e) ==> e == TreeError::ValidationError,
        forall|ns: Seq<Option<NodeV>>| (#[trigger] enc_nodes(ns)) == data@ && public_nodes(ns) && encodable(ns)
            ==> r is Ok,
{
    if data.len() < 4 {
        proof {
            assert forall|ns: Seq<Option<NodeV>>| (#[trigger] enc_nodes(ns)) == data@ && public_nodes(ns) && encodable(ns)
                implies false by {
                assert(enc_nodes(ns).len() >= 4);
            }
        }
        return Err(TreeError::ValidationError);
    }
    let count = match read_u32(data, 0) {
        Ok(c) => c,
        Err(e) => {
            return Err(e);
        },
    };
    let mut v: Vec<Option<Node>> = Vec::new();
    let mut pos: usize = 4;
    let mut parsed: u32 = 0;
    proof {
        assert(data@.subrange(0, 4) =~= u32_bytes(count as int) + enc_nodes_from(nv(v@), 0));
        assert forall|ns: Seq<Option<NodeV>>| (#[trigger] enc_nodes(ns)) == data@ && public_nodes(ns) && encodable(ns)
            implies count == ns.len() && nv(v@) == ns.take(0) by {
            assert(u32_bytes(ns.len() as int) =~= data@.subrange(0, 4));
            lemma_u32_bytes_inj(count as int, ns.len() as int);
            assert(nv(v@) =~= ns.take(0));
        }
    }
    while parsed < count
        invariant
            4 <= pos <= data@.len(),
            parsed <= count,
            v@.len() == parsed,
            data@.subrange(0, pos as int) == u32_bytes(count as int) + enc_nodes_from(nv(v@), 0),
            public_nodes(nv(v@)),
            encodable(nv(v@)),
            forall|ns: Seq<Option<NodeV>>| (#[trigger] enc_nodes(ns)) == data@ && public_nodes(ns) && encodable(ns)
                ==> count == ns.len() && nv(v@) == ns.take(parsed as int),
        decreases count - parsed,
    {
        let ghost prev = nv(v@);
        let ghost pos0 = pos as int;
        if pos >= data.len() {
            proof {
                assert forall|ns: Seq<Option<NodeV>>| (#[trigger] enc_nodes(ns)) == data@ && public_nodes(ns) && encodable(ns)
                    implies false by {
                    assert(enc_nodes_from(prev, 0) == enc_nodes_from(ns.take(parsed as int), 0));
                    lemma_decode_step(data@, ns, parsed as int, pos0);
                }
            }
            return Err(TreeError::ValidationError);
        }
        let tag = data[pos];
        if tag == 0 {
            v.push(None);
            pos = pos + 1;
            proof {
                assert(data@.subrange(0, pos as int) =~= data@.subrange(0, pos0).push(data@[pos0]));
                lemma_enc_push(prev, None);
                assert(nv(v@) =~= prev.push(None));
                assert(data@.subrange(0, pos as int) =~= u32_bytes(count as int) + enc_nodes_from(nv(v@), 0));
                assert forall|j: int| 0 <= j < nv(v@).len() implies sk_at(nv(v@), j) is None && slot_encodable(#[trigger] nv(v@)[j]) by {
                    if j < prev.len() {
                        assert(nv(v@)[j] == prev[j]);
                        assert(sk_at(prev, j) is None);
                        assert(slot_encodable(prev[j]));
                    } else {
                        assert(nv(v@)[j] is None);
                    }
                }
                assert forall|ns: Seq<Option<NodeV>>| (#[trigger] enc_nodes(ns)) == data@ && public_nodes(ns) && encodable(ns)
                    implies count == ns.len() && nv(v@) == ns.take(parsed as int + 1) by {
                    assert(enc_nodes_from(prev, 0) == enc_nodes_from(ns.take(parsed as int), 0));
                    lemma_decode_step(data@, ns, parsed as int, pos0);
                    match ns[parsed as int] {
                        None => {},
                        Some(NodeV::Leaf(_)) => {
                            assert(data@[pos0] == 1);
                        },
                        Some(NodeV::Parent(_)) => {
                            assert(data@[pos0] == 2);
                        },
                    }
                    assert(ns.take(parsed as int + 1) =~= ns.take(parsed as int).push(ns[parsed as int]));
                    assert(nv(v@) =~= ns.take(parsed as int + 1));
                }
            }
        } else if tag == 1 || tag == 2 {
            if data.len() - pos < 5 {
                proof {
                    assert forall|ns: Seq<Option<NodeV>>| (#[trigger] enc_nodes(ns)) == data@ && public_nodes(ns) && encodable(ns)
                        implies false by {
                        assert(enc_nodes_from(prev, 0) == enc_nodes_from(ns.take(parsed as int), 0));
                        lemma_present_slot_layout(data@, ns, parsed as int, pos0);
                    }
                }
                return Err(TreeError::ValidationError);
            }
            let pk_len = match read_u32(data, pos + 1) {
                Ok(x) => x,
                Err(e) => {
                    return Err(e);
                },
            };
            if (data.len() - pos - 5) < pk_len as usize {
                proof {
                    assert forall|ns: Seq<Option<NodeV>>| (#[trigger] enc_nodes(ns)) == data@ && public_nodes(ns) && encodable(ns)
                        implies false by {
                        assert(enc_nodes_from(prev, 0) == enc_nodes_from(ns.take(parsed as int), 0));
                        lemma_present_slot_layout(data@, ns, parsed as int, pos0);
                        lemma_u32_bytes_inj(pk_len as int, slot_pk(ns[parsed as int]).len() as int);
                    }
                }
                return Err(TreeError::ValidationError);
            }
            let pk = read_bytes(data, pos + 5, pk_len as usize);
            let ghost pkv = pk@;
            let pos2 = pos + 5 + pk_len as usize;
            if data.len() - pos2 < 4 {
                proof {
                    assert forall|ns: Seq<Option<NodeV>>| (#[trigger] enc_nodes(ns)) == data@ && public_nodes(ns) && encodable(ns)
                        implies false by {
                        assert(enc_nodes_from(prev, 0) == enc_nodes_from(ns.take(parsed as int), 0));
                        lemma_present_slot_layout(data@, ns, parsed as int, pos0);
                        lemma_u32_bytes_inj(pk_len as int, slot_pk(ns[parsed as int]).len() as int);
                    }
                }
                return Err(TreeError::ValidationError);
            }
            let snd_len = match read_u32(data, pos2) {
                Ok(x) => x,
                Err(e) => {
                    return Err(e);
                },
            };
            if (data.len() - pos2 - 4) < snd_len as usize {
                proof {
                    assert forall|ns: Seq<Option<NodeV>>| (#[trigger] enc_nodes(ns)) == data@ && public_nodes(ns) && encodable(ns)
                        implies false by {
                        assert(enc_nodes_from(prev, 0) == enc_nodes_from(ns.take(parsed as int), 0));
                        lemma_present_slot_layout(data@, ns, parsed as int, pos0);
                        lemma_u32_bytes_inj(pk_len as int, slot_pk(ns[parsed as int]).len() as int);
                        lemma_u32_bytes_inj(snd_len as int, slot_snd(ns[parsed as int]).len() as int);
                    }
                }
                return Err(TreeError::ValidationError);
            }
            let snd = read_bytes(data, pos2 + 4, snd_len as usize);
            let ghost sndv = snd@;
            let node = if tag == 1 {
                Node::Leaf(LeafNode { public_key: pk, identity: snd, private_key: None })
            } else {
                Node::Parent(ParentNode { public_key: pk, parent_hash: snd, private_key: None })
            };
            let ghost nview = node@;
            pos = pos2 + 4 + snd_len as usize;
            v.push(Some(node));
            proof {
                assert(nv(v@) =~= prev.push(Some(nview)));
                assert(slot_pk(Some(nview)) == pkv && slot_snd(Some(nview)) == sndv);
                lemma_present_prefix(data@, prev, nv(v@), nview, count as int, pos0, pk_len as int, snd_len as int);
                lemma_present_agree(data@, prev, nv(v@), nview, count as int, parsed as int, pos0, pk_len as int, snd_len as int);
            }
        } else {
            proof {
                assert forall|ns: Seq<Option<NodeV>>| (#[trigger] enc_nodes(ns)) == data@ && public_nodes(ns) && encodable(ns)
                    implies false by {
                    assert(enc_nodes_from(prev, 0) == enc_nodes_from(ns.take(parsed as int), 0));
                    lemma_decode_step(data@, ns, parsed as int, pos0);
                    match ns[parsed as int] {
                        None => {},
                        Some(NodeV::Leaf(_)) => {},
                        Some(NodeV::Parent(_)) => {},
                    }
                }
            }
            return Err(TreeError::ValidationError);
        }
        parsed = parsed + 1;
    }
    if pos != data.len() {
        proof {
            assert forall|ns: Seq<Option<NodeV>>| (#[trigger] enc_nodes(ns)) == data@ && public_nodes(ns) && encodable(ns)
                implies false by {
                assert(enc_nodes_from(nv(v@), 0) == enc_nodes_from(ns.take(parsed as int), 0));
                lemma_decode_step(data@, ns, parsed as int, pos as int);
            }
        }
        return Err(TreeError::ValidationError);
    }
    proof {
        assert(data@.subrange(0, data@.len() as int) =~= data@);
    }
    Ok(v)
}

} // verus!
