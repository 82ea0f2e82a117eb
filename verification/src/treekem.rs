//! TreeKEM path cryptography: producing and consuming update paths.
//!
//! A sender derives a chain of secrets from its leaf up to the root, gives
//! every ancestor a fresh key pair, and seals each level's secret to the
//! resolution of that level's copath child.  A receiver opens the one
//! ciphertext addressed to it, re-derives the chain from there, and checks
//! every derived public key against the asserted one.  Both ends finish
//! with the commit secret: the root secret derived once more under the
//! commit label.

use vstd::prelude::*;

use crate::crypto::{
    clone_bytes, derive_keypair, hpke_open, hpke_pk_of, hpke_seal, hpke_sk_of, kdf, kdf_of,
    open_of, seals_to, HpkeCiphertext,
};
use crate::errors::TreeError;
use crate::index::{LeafIndex, NodeIndex};
use crate::node::{nv, pk_at, sk_at, LeafNode, Node, NodeV, ParentNode};
use crate::treemath::{
    cpath, chain_spec, copath, direct_path, dpath, ixs, lemma_chain, lemma_path_partition,
    level_spec, node_width, root_spec, valid_leaf_count,
};
use crate::treesync::{keys_ok, res_spec, resolution, set_node, tree_size, wf_shape, Diff};

verus! {

/// One secret of the derivation chain, bound to one path node.
pub struct PathSecret(pub Vec<u8>);

/// The root-derived secret handed to the group key schedule.
pub struct CommitSecret(pub Vec<u8>);

/// One ancestor on the wire: its fresh public key and one ciphertext per
/// resolution member of the matching copath child.
pub struct UpdatePathNode {
    pub public_key: Vec<u8>,
    pub ciphertexts: Vec<HpkeCiphertext>,
}

/// The serializable result of a path update.
pub struct UpdatePath {
    pub leaf_public_key: Vec<u8>,
    pub nodes: Vec<UpdatePathNode>,
}

/// The label under which one path secret derives the next.
pub open spec fn path_label() -> Seq<u8> {
    seq![112u8, 97u8, 116u8, 104u8]
}

/// The label under which the root secret derives the commit secret.
pub open spec fn commit_label() -> Seq<u8> {
    seq![99u8, 111u8, 109u8, 109u8, 105u8, 116u8]
}

/// The path-secret chain: the secret after `j` one-way derivations.
pub open spec fn chain_secret(s0: Seq<u8>, j: nat) -> Seq<u8>
    decreases j,
{
    if j == 0 {
        s0
    } else {
        kdf_of(chain_secret(s0, (j - 1) as nat), path_label())
    }
}

/// The commit secret of a chain that starts at `s0` and climbs `k` levels.
pub open spec fn commit_of(s0: Seq<u8>, k: nat) -> Seq<u8> {
    kdf_of(chain_secret(s0, k), commit_label())
}

/// A leaf slot is in the excluded set.
pub open spec fn excluded_slot(p: int, excl: Seq<LeafIndex>) -> bool {
    p % 2 == 0 && exists|e: int| 0 <= e < excl.len() && 2 * ((#[trigger] excl[e]).0 as int) == p
}

/// Drops excluded leaf slots from a resolution.
pub open spec fn filter_excl(s: Seq<int>, excl: Seq<LeafIndex>) -> Seq<int>
    decreases s.len(),
{
    if s.len() == 0 {
        Seq::empty()
    } else if excluded_slot(s[0], excl) {
        filter_excl(s.drop_first(), excl)
    } else {
        seq![s[0]] + filter_excl(s.drop_first(), excl)
    }
}

/// The encryption targets at one copath child: its resolution minus the
/// excluded leaves.
pub open spec fn res_targets(nodes: Seq<Option<NodeV>>, x: int, w: int, excl: Seq<LeafIndex>) -> Seq<int> {
    filter_excl(res_spec(nodes, x, w), excl)
}

/// An update path is an honest encryption of the chain that starts at `s0`,
/// over a tree's public state: each asserted public key derives from the
/// chain, and each ciphertext seals the level's secret to the matching
/// resolution target.
pub open spec fn path_sealed(
    nodes: Seq<Option<NodeV>>,
    sender_leaf: int,
    s0: Seq<u8>,
    aad: Seq<u8>,
    excl: Seq<LeafIndex>,
    up: &UpdatePath,
) -> bool {
    let w = nodes.len() as int;
    let x0 = 2 * sender_leaf;
    let dp = dpath(x0, w);
    let cp = cpath(x0, w);
    &&& up.nodes@.len() == dp.len()
    &&& up.leaf_public_key@ == hpke_pk_of(s0)
    &&& forall|j: int| 0 <= j < dp.len() ==> (#[trigger] up.nodes@[j]).public_key@ == hpke_pk_of(chain_secret(s0, (j + 1) as nat))
    &&& forall|j: int| 0 <= j < dp.len() ==> (#[trigger] up.nodes@[j]).ciphertexts@.len() == res_targets(nodes, cp[j], w, excl).len()
    &&& forall|j: int, m: int| 0 <= j < dp.len() && 0 <= m < up.nodes@[j].ciphertexts@.len() ==> {
            let c = #[trigger] up.nodes@[j].ciphertexts@[m];
            seals_to(
                pk_at(nodes, res_targets(nodes, cp[j], w, excl)[m]),
                c.kem_output@,
                c.ciphertext@,
                aad,
                chain_secret(s0, (j + 1) as nat),
            )
        }
}

/// The sender's own slots after an update: a fresh leaf key pair from `s0`
/// and, on each direct-path node, the key pair of the next chain secret;
/// every other slot untouched.
pub open spec fn path_written(
    old_nodes: Seq<Option<NodeV>>,
    new_nodes: Seq<Option<NodeV>>,
    sender_leaf: int,
    s0: Seq<u8>,
) -> bool {
    let w = old_nodes.len() as int;
    let x0 = 2 * sender_leaf;
    let dp = dpath(x0, w);
    &&& new_nodes.len() == old_nodes.len()
    &&& forall|i: int| 0 <= i < w && i != x0 && !dp.contains(i) ==> old_nodes[i] == #[trigger] new_nodes[i]
    &&& (new_nodes[x0] matches Some(NodeV::Leaf(l)) && l.public_key == hpke_pk_of(s0)
        && l.private_key == Some(hpke_sk_of(s0)))
    &&& forall|j: int| 0 <= j < dp.len() ==> ((#[trigger] new_nodes[dp[j]]) matches Some(NodeV::Parent(p))
        && p.public_key == hpke_pk_of(chain_secret(s0, (j + 1) as nat))
        && p.private_key == Some(hpke_sk_of(chain_secret(s0, (j + 1) as nat))))
}

/// The label bytes for path derivation.
pub fn path_label_bytes() -> (r: Vec<u8>)
    ensures
        r@ == path_label(),
{
    let mut v: Vec<u8> = Vec::new();
    v.push(112u8);
    v.push(97u8);
    v.push(116u8);
    v.push(104u8);
    proof {
        assert(v@ =~= path_label());
    }
    v
}

/// The label bytes for commit derivation.
pub fn commit_label_bytes() -> (r: Vec<u8>)
    ensures
        r@ == commit_label(),
{
    let mut v: Vec<u8> = Vec::new();
    v.push(99u8);
    v.push(111u8);
    v.push(109u8);
    v.push(109u8);
    v.push(105u8);
    v.push(116u8);
    proof {
        assert(v@ =~= commit_label());
    }
    v
}

/// Tests whether a slot belongs to the excluded leaves.
pub fn is_excluded(p: NodeIndex, excluded: &Vec<LeafIndex>) -> (r: bool)
    ensures
        r == excluded_slot(p.0 as int, excluded@),
{
    if p.0 % 2 == 1 {
        return false;
    }
    let mut e: usize = 0;
    while e < excluded.len()
        invariant
            e <= excluded@.len(),
            p.0 % 2 == 0,
            forall|k: int| 0 <= k < e ==> 2 * ((#[trigger] excluded@[k]).0 as int) != p.0 as int,
        decreases excluded@.len() - e,
    {
        if excluded[e].0 == p.0 / 2 {
            proof {
                assert(2 * (excluded@[e as int].0 as int) == p.0 as int);
            }
            return true;
        }
        proof {
            assert(2 * (excluded@[e as int].0 as int) != p.0 as int);
        }
        e = e + 1;
    }
    false
}

/// Every entry of a resolution is a non-blank in-range slot.
pub proof fn lemma_res_nonblank(nodes: Seq<Option<NodeV>>, x: int, w: int)
    ensures
        forall|i: int| 0 <= i < res_spec(nodes, x, w).len() ==> {
            let p = #[trigger] res_spec(nodes, x, w)[i];
            0 <= p < w && nodes[p] is Some
        },
    decreases level_spec(x),
{
    if !(1 <= w && w % 2 == 1 && 0 <= x < w) {
    } else if nodes[x] is Some {
    } else if level_spec(x) == 0 {
    } else {
        crate::treemath::lemma_left(x);
        crate::treemath::lemma_right_child(x, w);
        lemma_res_nonblank(nodes, crate::treemath::left_spec(x), w);
        lemma_res_nonblank(nodes, crate::treemath::right_spec(x, w), w);
        let l = res_spec(nodes, crate::treemath::left_spec(x), w);
        let r = res_spec(nodes, crate::treemath::right_spec(x, w), w);
        assert forall|i: int| 0 <= i < res_spec(nodes, x, w).len() implies {
            let p = #[trigger] res_spec(nodes, x, w)[i];
            0 <= p < w && nodes[p] is Some
        } by {
            if i < l.len() {
                assert(res_spec(nodes, x, w)[i] == l[i]);
            } else {
                assert(res_spec(nodes, x, w)[i] == r[i - l.len()]);
            }
        }
    }
}

/// Filtering keeps only non-excluded entries of the original sequence.
pub proof fn lemma_filter_excl_sub(s: Seq<int>, excl: Seq<LeafIndex>)
    ensures
        forall|i: int| 0 <= i < filter_excl(s, excl).len() ==> {
            let p = #[trigger] filter_excl(s, excl)[i];
            s.contains(p) && !excluded_slot(p, excl)
        },
    decreases s.len(),
{
    if s.len() == 0 {
    } else {
        lemma_filter_excl_sub(s.drop_first(), excl);
        assert forall|i: int| 0 <= i < filter_excl(s, excl).len() implies {
            let p = #[trigger] filter_excl(s, excl)[i];
            s.contains(p) && !excluded_slot(p, excl)
        } by {
            let f = filter_excl(s, excl);
            let fd = filter_excl(s.drop_first(), excl);
            if excluded_slot(s[0], excl) {
                assert(f[i] == fd[i]);
                assert(s.drop_first().contains(f[i]));
                let k = choose|k: int| 0 <= k < s.drop_first().len() && s.drop_first()[k] == f[i];
                assert(s[k + 1] == f[i]);
            } else {
                if i == 0 {
                    assert(f[0] == s[0]);
                    assert(s[0] == s[0]);
                } else {
                    assert(f[i] == fd[i - 1]);
                    assert(s.drop_first().contains(f[i]));
                    let k = choose|k: int| 0 <= k < s.drop_first().len() && s.drop_first()[k] == f[i];
                    assert(s[k + 1] == f[i]);
                }
            }
        }
    }
}

/// Collects the encryption targets at a copath child: its resolution with
/// the excluded leaves dropped.
pub fn filtered_resolution(nodes: &Vec<Option<Node>>, x: NodeIndex, size: LeafIndex, excluded: &Vec<LeafIndex>) -> (r: Vec<NodeIndex>)
    requires
        valid_leaf_count(size.0 as int),
        nodes@.len() == node_width(size.0 as int),
        (x.0 as int) < node_width(size.0 as int),
    ensures
        ixs(r@) == res_targets(nv(nodes@), x.0 as int, node_width(size.0 as int), excluded@),
{
    let ghost wi = node_width(size.0 as int);
    let res = resolution(nodes, x, size);
    let ghost rs = res_spec(nv(nodes@), x.0 as int, wi);
    let mut out: Vec<NodeIndex> = Vec::new();
    let mut i: usize = 0;
    proof {
        assert(rs.skip(0) =~= rs);
        assert(ixs(out@) + filter_excl(rs.skip(0), excluded@) =~= filter_excl(rs, excluded@));
    }
    while i < res.len()
        invariant
            i <= res@.len(),
            ixs(res@) == rs,
            ixs(out@) + filter_excl(rs.skip(i as int), excluded@) == filter_excl(rs, excluded@),
        decreases res@.len() - i,
    {
        let ghost pre = ixs(out@);
        proof {
            assert(rs.skip(i as int).len() > 0);
            assert(rs.skip(i as int)[0] == rs[i as int]);
            assert(rs.skip(i as int).drop_first() =~= rs.skip(i as int + 1));
        }
        if !is_excluded(res[i], excluded) {
            out.push(res[i]);
            proof {
                assert(ixs(out@) =~= pre.push(rs[i as int]));
                assert(filter_excl(rs.skip(i as int), excluded@)
                    =~= seq![rs[i as int]] + filter_excl(rs.skip(i as int + 1), excluded@));
                assert(ixs(out@) + filter_excl(rs.skip(i as int + 1), excluded@)
                    =~= (pre + filter_excl(rs.skip(i as int), excluded@)));
            }
        } else {
            proof {
                assert(filter_excl(rs.skip(i as int), excluded@)
                    == filter_excl(rs.skip(i as int + 1), excluded@));
            }
        }
        i = i + 1;
    }
    proof {
        assert(rs.skip(res@.len() as int).len() == 0);
        assert(filter_excl(rs.skip(res@.len() as int), excluded@) =~= Seq::<int>::empty());
        assert(ixs(out@) =~= ixs(out@) + filter_excl(rs.skip(res@.len() as int), excluded@));
    }
    out
}

/// Direct-path entries are odd in-range positions; copath entries are in
/// range; both sequences have the same length.
pub proof fn lemma_paths_usable(x0: int, w: int)
    requires
        1 <= w,
        w % 2 == 1,
        0 <= x0 < w,
    ensures
        dpath(x0, w).len() == cpath(x0, w).len(),
        forall|j: int| 0 <= j < dpath(x0, w).len() ==> {
            let d = #[trigger] dpath(x0, w)[j];
            0 <= d < w && d % 2 == 1
        },
        forall|j: int| 0 <= j < cpath(x0, w).len() ==> 0 <= #[trigger] cpath(x0, w)[j] < w,
{
    lemma_chain(x0, w);
    let ch = crate::treemath::chain_spec(x0, w);
    let dp = dpath(x0, w);
    let cp = cpath(x0, w);
    assert(forall|j: int| 0 <= j < dp.len() ==> #[trigger] dp[j] == ch[j + 1]);
    assert forall|j: int| 0 <= j < dp.len() implies {
        let d = #[trigger] dp[j];
        0 <= d < w && d % 2 == 1
    } by {
        assert(0 <= ch[j + 1] < w);
        assert(level_spec(ch[j]) < level_spec(ch[j + 1]));
        assert(level_spec(dp[j]) >= 1);
    }
    assert forall|j: int| 0 <= j < cp.len() implies 0 <= #[trigger] cp[j] < w by {
        crate::treemath::lemma_chain_mono(x0, w, j, ch.len() - 1);
        crate::treemath::lemma_root(w);
        crate::treemath::lemma_sibling(ch[j], w);
        assert(cp[j] == crate::treemath::sibling_spec(ch[j], w));
    }
}

impl Diff {
    /// Produces an update path from the local member's leaf: derives the
    /// secret chain from `leaf_secret`, rotates every ancestor's key pair,
    /// and seals each level's secret to the resolution of that level's
    /// copath child, skipping the excluded leaves.  The commit secret is
    /// the root secret derived once more under the commit label.
    ///
    /// On an error the diff may hold a partial update; discard it.
    #[verifier::rlimit(100)]
    #[verifier::spinoff_prover]
    pub fn encrypt_path(&mut self, leaf_secret: Vec<u8>, excluded: &Vec<LeafIndex>, group_context: &Vec<u8>) -> (r: Result<(UpdatePath, CommitSecret), TreeError>)
        requires
            old(self).wf(),
        ensures
            final(self).wf(),
            final(self).own_leaf == old(self).own_leaf,
            final(self)@.len() == old(self)@.len(),
            r matches Ok(pc) ==> {
                &&& path_sealed(old(self)@, old(self).own_leaf.0 as int, leaf_secret@, group_context@, excluded@, &pc.0)
                &&& pc.1.0@ == commit_of(leaf_secret@, dpath(2 * (old(self).own_leaf.0 as int), old(self)@.len() as int).len() as nat)
                &&& path_written(old(self)@, final(self)@, old(self).own_leaf.0 as int, leaf_secret@)
            },
    {
        let ghost orig = old(self)@;
        let ghost s0v = leaf_secret@;
        let size = tree_size(&self.nodes);
        let own = self.own_leaf;
        let ghost wi = self@.len() as int;
        let ghost x0 = 2 * (own.0 as int);
        let ghost dps = dpath(x0, wi);
        let ghost cps = cpath(x0, wi);
        proof {
            lemma_paths_usable(x0, wi);
        }
        let cp = match copath(own, size) {
            Ok(v) => v,
            Err(e) => {
                return Err(e);
            },
        };
        let dp = match direct_path(own, size) {
            Ok(v) => v,
            Err(e) => {
                return Err(e);
            },
        };
        // Collect the encryption targets before any slot changes.
        let mut all_pks: Vec<Vec<Vec<u8>>> = Vec::new();
        let mut j: usize = 0;
        while j < cp.len()
            invariant
                j <= cp@.len(),
                self@ == orig,
                orig == old(self)@,
                self.own_leaf == own,
                own == old(self).own_leaf,
                wi == orig.len() as int,
                valid_leaf_count(size.0 as int),
                node_width(size.0 as int) == wi,
                ixs(cp@) == cps,
                forall|a: int| 0 <= a < cps.len() ==> 0 <= #[trigger] cps[a] < wi,
                all_pks@.len() == j,
                forall|a: int| 0 <= a < j ==> (#[trigger] all_pks@[a])@.len() == res_targets(orig, cps[a], wi, excluded@).len(),
                forall|a: int, m: int| 0 <= a < j && 0 <= m < all_pks@[a]@.len()
                    ==> (#[trigger] all_pks@[a]@[m])@ == pk_at(orig, res_targets(orig, cps[a], wi, excluded@)[m]),
            decreases cp@.len() - j,
        {
            proof {
                assert(cp@[j as int].0 as int == cps[j as int]);
            }
            let tgts = filtered_resolution(&self.nodes, cp[j], size, excluded);
            let ghost rsj = res_spec(orig, cps[j as int], wi);
            let ghost ftj = res_targets(orig, cps[j as int], wi, excluded@);
            proof {
                lemma_res_nonblank(orig, cps[j as int], wi);
                lemma_filter_excl_sub(rsj, excluded@);
            }
            let mut pks: Vec<Vec<u8>> = Vec::new();
            let mut m: usize = 0;
            while m < tgts.len()
                invariant
                    m <= tgts@.len(),
                    self@ == orig,
                    orig == old(self)@,
                    self.own_leaf == own,
                    own == old(self).own_leaf,
                    wi == orig.len() as int,
                    0 <= (j as int) < cps.len(),
                    ixs(tgts@) == ftj,
                    ftj == res_targets(orig, cps[j as int], wi, excluded@),
                    rsj == res_spec(orig, cps[j as int], wi),
                    forall|i: int| 0 <= i < ftj.len() ==> rsj.contains(#[trigger] ftj[i]),
                    forall|i: int| 0 <= i < rsj.len() ==> {
                        let p = #[trigger] rsj[i];
                        0 <= p < wi && orig[p] is Some
                    },
                    pks@.len() == m,
                    forall|mm: int| 0 <= mm < m ==> (#[trigger] pks@[mm])@ == pk_at(orig, ftj[mm]),
                decreases tgts@.len() - m,
            {
                let p = tgts[m];
                proof {
                    assert(rsj.contains(ftj[m as int]));
                    let k = choose|k: int| 0 <= k < rsj.len() && rsj[k] == ftj[m as int];
                    assert(0 <= ftj[m as int] < wi && orig[ftj[m as int]] is Some);
                }
                let pk = match &self.nodes[p.0 as usize] {
                    Some(Node::Leaf(l)) => clone_bytes(&l.public_key),
                    Some(Node::Parent(q)) => clone_bytes(&q.public_key),
                    None => {
                        return Err(TreeError::InvalidResolution);
                    },
                };
                pks.push(pk);
                m = m + 1;
            }
            all_pks.push(pks);
            j = j + 1;
        }
        // Rotate the leaf and walk the chain upward.
        let plabel = path_label_bytes();
        let mut cur = leaf_secret;
        let (lpk, lsk) = match derive_keypair(cur.as_slice()) {
            Ok(kp) => kp,
            Err(e) => {
                return Err(e);
            },
        };
        let lpk2 = clone_bytes(&lpk);
        let identity = match &self.nodes[(2 * own.0) as usize] {
            Some(Node::Leaf(l)) => clone_bytes(&l.identity),
            _ => {
                return Err(TreeError::UnknownMemberRemoval);
            },
        };
        proof {
            assert(crate::codec::slot_encodable(orig[x0]));
        }
        crate::treesync::write_leaf(&mut self.nodes, (2 * own.0) as usize, lpk, identity, Some(lsk));
        let mut upnodes: Vec<UpdatePathNode> = Vec::new();
        let mut j2: usize = 0;
        while j2 < dp.len()
            invariant
                j2 <= dp@.len(),
                self.own_leaf == own,
                own == old(self).own_leaf,
                orig == old(self)@,
                s0v == leaf_secret@,
                cps == cpath(x0, wi),
                self@.len() == wi,
                wi == orig.len() as int,
                valid_leaf_count(size.0 as int),
                node_width(size.0 as int) == wi,
                x0 == 2 * (own.0 as int),
                ixs(dp@) == dps,
                dps == dpath(x0, wi),
                dps.len() == cps.len(),
                forall|a: int| 0 <= a < dps.len() ==> {
                    let d = #[trigger] dps[a];
                    0 <= d < wi && d % 2 == 1
                },
                all_pks@.len() == dps.len(),
                forall|a: int| 0 <= a < dps.len() ==> (#[trigger] all_pks@[a])@.len() == res_targets(orig, cps[a], wi, excluded@).len(),
                forall|a: int, m: int| 0 <= a < dps.len() && 0 <= m < all_pks@[a]@.len()
                    ==> (#[trigger] all_pks@[a]@[m])@ == pk_at(orig, res_targets(orig, cps[a], wi, excluded@)[m]),
                cur@ == chain_secret(s0v, j2 as nat),
                plabel@ == path_label(),
                lpk2@ == hpke_pk_of(s0v),
                wf_shape(self@),
                keys_ok(self@),
                crate::codec::encodable(self@),
                self@[x0] matches Some(NodeV::Leaf(l)) && l.public_key == hpke_pk_of(s0v)
                    && l.private_key == Some(hpke_sk_of(s0v)),
                forall|i: int| 0 <= i < wi && i != x0 && !dps.subrange(0, j2 as int).contains(i) ==> orig[i] == #[trigger] self@[i],
                forall|a: int| 0 <= a < j2 ==> ((#[trigger] self@[dps[a]]) matches Some(NodeV::Parent(p))
                    && p.public_key == hpke_pk_of(chain_secret(s0v, (a + 1) as nat))
                    && p.private_key == Some(hpke_sk_of(chain_secret(s0v, (a + 1) as nat)))),
                upnodes@.len() == j2,
                forall|a: int| 0 <= a < j2 ==> (#[trigger] upnodes@[a]).public_key@ == hpke_pk_of(chain_secret(s0v, (a + 1) as nat)),
                forall|a: int| 0 <= a < j2 ==> (#[trigger] upnodes@[a]).ciphertexts@.len() == res_targets(orig, cps[a], wi, excluded@).len(),
                forall|a: int, m: int| 0 <= a < j2 && 0 <= m < upnodes@[a].ciphertexts@.len() ==> {
                    let c = #[trigger] upnodes@[a].ciphertexts@[m];
                    seals_to(
                        pk_at(orig, res_targets(orig, cps[a], wi, excluded@)[m]),
                        c.kem_output@,
                        c.ciphertext@,
                        group_context@,
                        chain_secret(s0v, (a + 1) as nat),
                    )
                },
            decreases dp@.len() - j2,
        {
            let next = kdf(cur.as_slice(), plabel.as_slice());
            cur = next;
            let (ppk, psk) = match derive_keypair(cur.as_slice()) {
                Ok(kp) => kp,
                Err(e) => {
                    return Err(e);
                },
            };
            let ppk2 = clone_bytes(&ppk);
            let ghost pre_nodes = self@;
            proof {
                assert(dp@[j2 as int].0 as int == dps[j2 as int]);
                assert((j2 + 1) as nat == (j2 as nat) + 1);
                assert(chain_secret(s0v, (j2 as nat) + 1) == kdf_of(chain_secret(s0v, j2 as nat), path_label()));
                assert(cur@ == chain_secret(s0v, (j2 + 1) as nat));
            }
            crate::treesync::write_parent(&mut self.nodes, dp[j2].0 as usize, ppk, Some(psk));
            proof {
                assert forall|i: int| 0 <= i < wi && i != x0 && !dps.subrange(0, j2 as int + 1).contains(i) implies orig[i] == #[trigger] self@[i] by {
                    assert(!dps.subrange(0, j2 as int).contains(i)) by {
                        if dps.subrange(0, j2 as int).contains(i) {
                            let a = choose|a: int| 0 <= a < j2 as int && dps.subrange(0, j2 as int)[a] == i;
                            assert(dps.subrange(0, j2 as int + 1)[a] == i);
                        }
                    }
                    assert(i != dps[j2 as int]) by {
                        if i == dps[j2 as int] {
                            assert(dps.subrange(0, j2 as int + 1)[j2 as int] == i);
                        }
                    }
                    assert(self@[i] == pre_nodes[i]);
                }
                assert forall|a: int| 0 <= a < j2 as int + 1 implies ((#[trigger] self@[dps[a]]) matches Some(NodeV::Parent(p))
                    && p.public_key == hpke_pk_of(chain_secret(s0v, (a + 1) as nat))
                    && p.private_key == Some(hpke_sk_of(chain_secret(s0v, (a + 1) as nat)))) by {
                    if a < j2 as int {
                        crate::treemath::lemma_path_partition(x0, wi);
                        assert(dps[a] != dps[j2 as int]);
                        assert(self@[dps[a]] == pre_nodes[dps[a]]);
                    }
                }
                assert(self@[x0] == pre_nodes[x0]) by {
                    assert(x0 != dps[j2 as int]);
                }
            }
            let mut cts: Vec<HpkeCiphertext> = Vec::new();
            let mut m: usize = 0;
            let pksj = &all_pks[j2];
            while m < pksj.len()
                invariant
                    m <= pksj@.len(),
                    cts@.len() == m,
                    0 <= (j2 as int) < dps.len(),
                    dps.len() == cps.len(),
                    wf_shape(self@),
                    keys_ok(self@),
                    crate::codec::encodable(self@),
                    self.own_leaf == own,
                    own == old(self).own_leaf,
                    orig == old(self)@,
                    self@.len() == wi,
                    wi == orig.len() as int,
                    x0 == 2 * (own.0 as int),
                    0 <= x0 < wi,
                    self@[x0] is Some,
                    pksj@.len() == res_targets(orig, cps[j2 as int], wi, excluded@).len(),
                    forall|mm: int| 0 <= mm < pksj@.len() ==> (#[trigger] pksj@[mm])@ == pk_at(orig, res_targets(orig, cps[j2 as int], wi, excluded@)[mm]),
                    cur@ == chain_secret(s0v, (j2 + 1) as nat),
                    forall|mm: int| 0 <= mm < m ==> {
                        let c = #[trigger] cts@[mm];
                        seals_to(
                            pk_at(orig, res_targets(orig, cps[j2 as int], wi, excluded@)[mm]),
                            c.kem_output@,
                            c.ciphertext@,
                            group_context@,
                            chain_secret(s0v, (j2 + 1) as nat),
                        )
                    },
                decreases pksj@.len() - m,
            {
                let ct = match hpke_seal(pksj[m].as_slice(), group_context.as_slice(), cur.as_slice()) {
                    Ok(c) => c,
                    Err(e) => {
                        return Err(e);
                    },
                };
                cts.push(ct);
                m = m + 1;
            }
            upnodes.push(UpdatePathNode { public_key: ppk2, ciphertexts: cts });
            j2 = j2 + 1;
        }
        let clabel = commit_label_bytes();
        let commit = kdf(cur.as_slice(), clabel.as_slice());
        proof {
            assert(dps.subrange(0, dps.len() as int) =~= dps);
            assert forall|i: int| 0 <= i < wi && i != x0 && !dps.contains(i) implies orig[i] == #[trigger] self@[i] by {
                assert(!dps.subrange(0, dps.len() as int).contains(i));
            }
        }
        Ok((UpdatePath { leaf_public_key: lpk2, nodes: upnodes }, CommitSecret(commit)))
    }
}

/// The receiver's slots after consuming an update path: the sender's leaf
/// and every direct-path node carry the asserted public keys; every other
/// slot is untouched.
pub open spec fn path_received(
    old_nodes: Seq<Option<NodeV>>,
    new_nodes: Seq<Option<NodeV>>,
    sender_leaf: int,
    up: &UpdatePath,
) -> bool {
    let w = old_nodes.len() as int;
    let x0 = 2 * sender_leaf;
    let dp = dpath(x0, w);
    &&& new_nodes.len() == old_nodes.len()
    &&& forall|i: int| 0 <= i < w && i != x0 && !dp.contains(i) ==> old_nodes[i] == #[trigger] new_nodes[i]
    &&& (new_nodes[x0] matches Some(NodeV::Leaf(l)) && l.public_key == up.leaf_public_key@)
    &&& forall|j: int| 0 <= j < dp.len() ==> ((#[trigger] new_nodes[dp[j]]) matches Some(NodeV::Parent(p))
        && p.public_key == up.nodes@[j].public_key@)
}

/// Tests membership of a position in an index list.
pub fn contains_ix(v: &Vec<NodeIndex>, x: NodeIndex) -> (r: bool)
    ensures
        r == ixs(v@).contains(x.0 as int),
{
    let mut i: usize = 0;
    while i < v.len()
        invariant
            i <= v@.len(),
            forall|k: int| 0 <= k < i ==> (#[trigger] v@[k]).0 != x.0,
        decreases v@.len() - i,
    {
        if v[i].0 == x.0 {
            proof {
                assert(ixs(v@)[i as int] == x.0 as int);
            }
            return true;
        }
        i = i + 1;
    }
    proof {
        if ixs(v@).contains(x.0 as int) {
            let k = choose|k: int| 0 <= k < ixs(v@).len() && ixs(v@)[k] == x.0 as int;
            assert(v@[k].0 == x.0);
        }
    }
    false
}

impl Diff {
    /// Consumes a received update path: finds the lowest sender ancestor on
    /// the local member's own chain, opens the single ciphertext addressed
    /// to a resolution node whose private key the member holds, re-derives
    /// the chain upward checking every derived public key against the
    /// asserted one, and installs the new public keys throughout.  Whatever
    /// honest chain the path was sealed from, the commit secret equals that
    /// chain's root secret derived under the commit label.
    ///
    /// On an error the diff may hold a partial update; discard it.
    #[verifier::rlimit(100)]
    #[verifier::spinoff_prover]
    pub fn apply_update_path(&mut self, sender: LeafIndex, update_path: &UpdatePath, excluded: &Vec<LeafIndex>, group_context: &Vec<u8>) -> (r: Result<(Vec<PathSecret>, CommitSecret), TreeError>)
        requires
            old(self).wf(),
        ensures
            final(self).wf(),
            final(self).own_leaf == old(self).own_leaf,
            final(self)@.len() == old(self)@.len(),
            r matches Ok(_) ==> path_received(old(self)@, final(self)@, sender.0 as int, update_path),
            r matches Ok(pc) ==> forall|s0: Seq<u8>|
                path_sealed(old(self)@, sender.0 as int, s0, group_context@, excluded@, update_path)
                    ==> pc.1.0@ == commit_of(s0, dpath(2 * (sender.0 as int), old(self)@.len() as int).len() as nat),
            (r is Err && r->Err_0 == TreeError::InvalidIndex)
                <==> bad_sender(old(self)@, sender.0 as int, old(self).own_leaf.0 as int),
            (r is Err && r->Err_0 == TreeError::UnknownMemberRemoval)
                <==> (!bad_sender(old(self)@, sender.0 as int, old(self).own_leaf.0 as int)
                    && no_reader(old(self)@, sender.0 as int, old(self).own_leaf.0 as int, excluded@)),
            (!bad_sender(old(self)@, sender.0 as int, old(self).own_leaf.0 as int)
                && !no_reader(old(self)@, sender.0 as int, old(self).own_leaf.0 as int, excluded@)
                && update_path.nodes@.len() != dpath(2 * (sender.0 as int), old(self)@.len() as int).len())
                ==> r is Err && r->Err_0 == TreeError::UpdatePathMismatch,
            (!bad_sender(old(self)@, sender.0 as int, old(self).own_leaf.0 as int)
                && !no_reader(old(self)@, sender.0 as int, old(self).own_leaf.0 as int, excluded@)
                && update_path.nodes@.len() == dpath(2 * (sender.0 as int), old(self)@.len() as int).len()
                && update_path.leaf_public_key@.len() <= 0xffff_ffff
                && merge_from(dpath(2 * (sender.0 as int), old(self)@.len() as int), chain_spec(2 * (old(self).own_leaf.0 as int), old(self)@.len() as int), 0)
                    == dpath(2 * (sender.0 as int), old(self)@.len() as int).len())
                ==> r is Err && r->Err_0 == TreeError::UpdatePathMismatch,
            (!bad_sender(old(self)@, sender.0 as int, old(self).own_leaf.0 as int)
                && !no_reader(old(self)@, sender.0 as int, old(self).own_leaf.0 as int, excluded@)
                && update_path.nodes@.len() == dpath(2 * (sender.0 as int), old(self)@.len() as int).len()
                && update_path.leaf_public_key@.len() <= 0xffff_ffff
                && merge_from(dpath(2 * (sender.0 as int), old(self)@.len() as int), chain_spec(2 * (old(self).own_leaf.0 as int), old(self)@.len() as int), 0)
                    < dpath(2 * (sender.0 as int), old(self)@.len() as int).len()
                && no_decryptable(old(self)@, sender.0 as int, old(self).own_leaf.0 as int, excluded@))
                ==> r is Err && r->Err_0 == TreeError::PathCryptoError,
    {
        let ghost orig = old(self)@;
        let ghost wi = self@.len() as int;
        let ghost aadv = group_context@;
        let ghost exclv = excluded@;
        let size = tree_size(&self.nodes);
        let own = self.own_leaf;
        if sender.0 >= size.0 || sender.0 == own.0 {
            return Err(TreeError::InvalidIndex);
        }
        if is_excluded(NodeIndex(2 * own.0), excluded) {
            return Err(TreeError::UnknownMemberRemoval);
        }
        let ghost xs = 2 * (sender.0 as int);
        let ghost xo = 2 * (own.0 as int);
        let ghost dps = dpath(xs, wi);
        let ghost cps = cpath(xs, wi);
        let ghost chs = chain_spec(xo, wi);
        proof {
            lemma_paths_usable(xs, wi);
        }
        let sender_identity = match &self.nodes[(2 * sender.0) as usize] {
            Some(Node::Leaf(l)) => clone_bytes(&l.identity),
            _ => {
                return Err(TreeError::UnknownMemberRemoval);
            },
        };
        let dp = match direct_path(sender, size) {
            Ok(v) => v,
            Err(e) => {
                return Err(e);
            },
        };
        let cp = match copath(sender, size) {
            Ok(v) => v,
            Err(e) => {
                return Err(e);
            },
        };
        if update_path.nodes.len() != dp.len() {
            return Err(TreeError::UpdatePathMismatch);
        }
        if update_path.leaf_public_key.len() > 0xffff_ffff {
            return Err(TreeError::ValidationError);
        }
        // The local member's chain: its leaf and its ancestors.
        let own_dp = match direct_path(own, size) {
            Ok(v) => v,
            Err(e) => {
                return Err(e);
            },
        };
        let mut chv: Vec<NodeIndex> = Vec::new();
        chv.push(NodeIndex(2 * own.0));
        let mut t: usize = 0;
        while t < own_dp.len()
            invariant
                t <= own_dp@.len(),
                chv@.len() == t + 1,
                chv@[0].0 as int == xo,
                xo == 2 * (own.0 as int),
                own.0 <= 0x7fff_ffff,
                ixs(own_dp@) == dpath(xo, wi),
                forall|k: int| 1 <= k < chv@.len() ==> (#[trigger] chv@[k]).0 as int == dpath(xo, wi)[k - 1],
            decreases own_dp@.len() - t,
        {
            chv.push(own_dp[t]);
            t = t + 1;
        }
        proof {
            assert(ixs(chv@) =~= chs);
        }
        // The merge level: the lowest sender ancestor on the own chain.
        let mut i: usize = 0;
        let mut found_level: bool = false;
        while i < dp.len() && !found_level
            invariant
                i <= dp@.len(),
                ixs(dp@) == dps,
                ixs(chv@) == chs,
                merge_from(dps, chs, 0) == merge_from(dps, chs, i as int),
                found_level ==> i < dp@.len() && chs.contains(dps[i as int]),
            decreases dp@.len() - i + (if found_level { 0int } else { 1int }),
        {
            proof {
                assert(dp@[i as int].0 as int == dps[i as int]);
            }
            if contains_ix(&chv, dp[i]) {
                found_level = true;
            } else {
                proof {
                    assert(!chs.contains(dps[i as int]));
                }
                i = i + 1;
            }
        }
        if !found_level {
            proof {
                assert(merge_from(dps, chs, 0) == dps.len());
            }
            return Err(TreeError::UpdatePathMismatch);
        }
        let ghost ii = i as int;
        proof {
            assert(0 <= ii < dps.len());
            assert(merge_from(dps, chs, 0) == ii);
            assert(cp@[ii].0 as int == cps[ii]);
        }
        // The one decryptable ciphertext: a resolution node of the copath
        // child whose private key the local member holds.
        let targets = filtered_resolution(&self.nodes, cp[i], size, excluded);
        let ghost ftj = res_targets(orig, cps[ii], wi, exclv);
        proof {
            lemma_res_nonblank(orig, cps[ii], wi);
            lemma_filter_excl_sub(res_spec(orig, cps[ii], wi), exclv);
        }
        let mut m: usize = 0;
        let mut found_key: bool = false;
        while m < targets.len() && !found_key
            invariant
                m <= targets@.len(),
                ixs(targets@) == ftj,
                ixs(chv@) == chs,
                ftj == res_targets(orig, cps[ii], wi, exclv),
                wi == orig.len() as int,
                0 <= ii < cps.len(),
                self@ == orig,
                forall|q: int| 0 <= q < m
                    ==> !(chs.contains(#[trigger] ftj[q]) && sk_at(orig, ftj[q]) is Some),
                found_key ==> m < targets@.len()
                    && 0 <= (targets@[m as int].0 as int) < wi
                    && chs.contains(targets@[m as int].0 as int)
                    && sk_at(orig, targets@[m as int].0 as int) is Some,
                forall|q: int| 0 <= q < ftj.len() ==> {
                    let p = #[trigger] ftj[q];
                    crate::treesync::res_spec(orig, cps[ii], wi).contains(p)
                },
                forall|q: int| 0 <= q < res_spec(orig, cps[ii], wi).len() ==> {
                    let p = #[trigger] res_spec(orig, cps[ii], wi)[q];
                    0 <= p < wi && orig[p] is Some
                },
            decreases targets@.len() - m + (if found_key { 0int } else { 1int }),
        {
            proof {
                assert(res_spec(orig, cps[ii], wi).contains(ftj[m as int]));
                let k = choose|k: int| 0 <= k < res_spec(orig, cps[ii], wi).len()
                    && res_spec(orig, cps[ii], wi)[k] == ftj[m as int];
            }
            let p = targets[m];
            proof {
                assert(p.0 as int == ftj[m as int]);
            }
            let has_key = if contains_ix(&chv, p) {
                match &self.nodes[p.0 as usize] {
                    Some(Node::Leaf(l)) => l.private_key.is_some(),
                    Some(Node::Parent(q)) => q.private_key.is_some(),
                    None => false,
                }
            } else {
                false
            };
            if has_key {
                found_key = true;
            } else {
                proof {
                    assert(!(chs.contains(ftj[m as int]) && sk_at(orig, ftj[m as int]) is Some));
                }
                m = m + 1;
            }
        }
        if !found_key {
            proof {
                assert(no_decryptable(orig, sender.0 as int, own.0 as int, exclv));
            }
            return Err(TreeError::PathCryptoError);
        }
        proof {
            assert(!no_decryptable(orig, sender.0 as int, own.0 as int, exclv)) by {
                assert(chs.contains(ftj[m as int]) && sk_at(orig, ftj[m as int]) is Some);
            }
        }
        let ghost mm = m as int;
        let ghost pi = targets@[mm].0 as int;
        let own_sk = match &self.nodes[targets[m].0 as usize] {
            Some(Node::Leaf(l)) => match &l.private_key {
                Some(k) => clone_bytes(k),
                None => {
                    return Err(TreeError::PathCryptoError);
                },
            },
            Some(Node::Parent(q)) => match &q.private_key {
                Some(k) => clone_bytes(k),
                None => {
                    return Err(TreeError::PathCryptoError);
                },
            },
            None => {
                return Err(TreeError::PathCryptoError);
            },
        };
        proof {
            assert(own_sk@ == sk_at(orig, pi)->Some_0);
        }
        if m >= update_path.nodes[i].ciphertexts.len() {
            return Err(TreeError::PathCryptoError);
        }
        let ct = &update_path.nodes[i].ciphertexts[m];
        let pt = match hpke_open(own_sk.as_slice(), ct.kem_output.as_slice(), ct.ciphertext.as_slice(), group_context.as_slice()) {
            Ok(v) => v,
            Err(e) => {
                return Err(e);
            },
        };
        proof {
            assert forall|s0: Seq<u8>| path_sealed(orig, sender.0 as int, s0, aadv, exclv, update_path)
                implies pt@ == chain_secret(s0, (ii + 1) as nat) by {
                let c = update_path.nodes@[ii].ciphertexts@[mm];
                assert(seals_to(pk_at(orig, ftj[mm]), c.kem_output@, c.ciphertext@, aadv, chain_secret(s0, (ii + 1) as nat)));
                assert(crate::node::node_keys_ok(orig[pi]->Some_0));
                let ikm = choose|ikmv: Seq<u8>| pk_at(orig, pi) == hpke_pk_of(ikmv) && sk_at(orig, pi)->Some_0 == #[trigger] hpke_sk_of(ikmv);
                assert(open_of(hpke_sk_of(ikm), c.kem_output@, c.ciphertext@, aadv) == Some(chain_secret(s0, (ii + 1) as nat)));
                assert(open_of(own_sk@, ct.kem_output@, ct.ciphertext@, aadv) == Some(pt@));
            }
        }
        // Install the sender's new leaf key and the asserted public keys
        // below the merge level; the member cannot derive those secrets.
        let lpk = clone_bytes(&update_path.leaf_public_key);
        proof {
            assert(crate::codec::slot_encodable(orig[xs]));
        }
        let ghost lpkv = update_path.leaf_public_key@;
        crate::treesync::write_leaf(&mut self.nodes, (2 * sender.0) as usize, lpk, sender_identity, None);
        proof {
            assert forall|q: int| 0 <= q < wi && q != xs && !dps.subrange(0, 0).contains(q) implies orig[q] == #[trigger] self@[q] by {}
        }
        let mut j: usize = 0;
        while j < i
            invariant
                j <= ii,
                ii == i as int,
                ii < dps.len(),
                orig == old(self)@,
                exclv == excluded@,
                sender.0 <= 0x7fff_ffff,
                own == old(self).own_leaf,
                !bad_sender(orig, sender.0 as int, own.0 as int),
                !no_reader(orig, sender.0 as int, own.0 as int, exclv),
                !no_decryptable(orig, sender.0 as int, own.0 as int, exclv),
                merge_from(dps, chain_spec(2 * (own.0 as int), wi), 0) == ii,
                update_path.leaf_public_key@.len() <= 0xffff_ffff,
                xs == 2 * (sender.0 as int),
                0 <= xs < wi,
                lpkv == update_path.leaf_public_key@,
                self@[xs] matches Some(NodeV::Leaf(l)) && l.public_key == lpkv,
                forall|q: int| 0 <= q < wi && q != xs && !dps.subrange(0, j as int).contains(q) ==> orig[q] == #[trigger] self@[q],
                forall|a: int| 0 <= a < j ==> ((#[trigger] self@[dps[a]]) matches Some(NodeV::Parent(p))
                    && p.public_key == update_path.nodes@[a].public_key@),
                dps == dpath(xs, wi),
                forall|a: int| 0 <= a < dps.len() ==> {
                    let d = #[trigger] dps[a];
                    0 <= d < wi && d % 2 == 1
                },
                ixs(dp@) == dps,
                update_path.nodes@.len() == dps.len(),
                wf_shape(self@),
                keys_ok(self@),
                crate::codec::encodable(self@),
                self.own_leaf == own,
                own == old(self).own_leaf,
                self@.len() == wi,
                wi == orig.len() as int,
                0 <= 2 * (own.0 as int) < wi,
                self@[2 * (own.0 as int)] is Some,
            decreases ii - j,
        {
            let apk = clone_bytes(&update_path.nodes[j].public_key);
            if apk.len() > 0xffff_ffff {
                return Err(TreeError::ValidationError);
            }
            proof {
                assert(dp@[j as int].0 as int == dps[j as int]);
            }
            let ghost pre_nodes = self@;
            let ghost apkv = apk@;
            crate::treesync::write_parent(&mut self.nodes, dp[j].0 as usize, apk, None);
            proof {
                assert forall|q: int| 0 <= q < wi && q != xs && !dps.subrange(0, j as int + 1).contains(q) implies orig[q] == #[trigger] self@[q] by {
                    assert(!dps.subrange(0, j as int).contains(q)) by {
                        if dps.subrange(0, j as int).contains(q) {
                            let a = choose|a: int| 0 <= a < j as int && dps.subrange(0, j as int)[a] == q;
                            assert(dps.subrange(0, j as int + 1)[a] == q);
                        }
                    }
                    assert(q != dps[j as int]) by {
                        if q == dps[j as int] {
                            assert(dps.subrange(0, j as int + 1)[j as int] == q);
                        }
                    }
                    assert(self@[q] == pre_nodes[q]);
                }
                assert forall|a: int| 0 <= a < j as int + 1 implies ((#[trigger] self@[dps[a]]) matches Some(NodeV::Parent(p))
                    && p.public_key == update_path.nodes@[a].public_key@) by {
                    if a < j as int {
                        lemma_path_partition(xs, wi);
                        assert(dps[a] != dps[j as int]);
                        assert(self@[dps[a]] == pre_nodes[dps[a]]);
                    } else {
                        assert(apkv == update_path.nodes@[a].public_key@);
                    }
                }
                assert(self@[xs] == pre_nodes[xs]) by {
                    assert(xs != dps[j as int]);
                }
            }
            j = j + 1;
        }
        // Re-derive the chain upward from the merge level, checking each
        // derived public key against the asserted one.
        let plabel = path_label_bytes();
        let mut cur = pt;
        let mut secrets: Vec<PathSecret> = Vec::new();
        let mut j2: usize = i;
        while j2 < dp.len()
            invariant
                ii <= j2 <= dp@.len(),
                ii < dps.len(),
                dps == dpath(xs, wi),
                xs == 2 * (sender.0 as int),
                0 <= xs < wi,
                exclv == excluded@,
                sender.0 <= 0x7fff_ffff,
                !bad_sender(orig, sender.0 as int, own.0 as int),
                !no_reader(orig, sender.0 as int, own.0 as int, exclv),
                !no_decryptable(orig, sender.0 as int, own.0 as int, exclv),
                merge_from(dps, chain_spec(2 * (own.0 as int), wi), 0) == ii,
                update_path.leaf_public_key@.len() <= 0xffff_ffff,
                lpkv == update_path.leaf_public_key@,
                self@[xs] matches Some(NodeV::Leaf(l)) && l.public_key == lpkv,
                forall|q: int| 0 <= q < wi && q != xs && !dps.subrange(0, j2 as int).contains(q) ==> orig[q] == #[trigger] self@[q],
                forall|a: int| 0 <= a < j2 ==> ((#[trigger] self@[dps[a]]) matches Some(NodeV::Parent(p))
                    && p.public_key == update_path.nodes@[a].public_key@),
                orig == old(self)@,
                aadv == group_context@,
                exclv == excluded@,
                plabel@ == path_label(),
                forall|a: int| 0 <= a < dps.len() ==> {
                    let d = #[trigger] dps[a];
                    0 <= d < wi && d % 2 == 1
                },
                ixs(dp@) == dps,
                update_path.nodes@.len() == dps.len(),
                wf_shape(self@),
                keys_ok(self@),
                crate::codec::encodable(self@),
                self.own_leaf == own,
                own == old(self).own_leaf,
                self@.len() == wi,
                wi == orig.len() as int,
                0 <= 2 * (own.0 as int) < wi,
                self@[2 * (own.0 as int)] is Some,
                forall|s0: Seq<u8>| path_sealed(orig, sender.0 as int, s0, aadv, exclv, update_path)
                    ==> cur@ == chain_secret(s0, (if (j2 as int) < dps.len() { j2 as int + 1 } else { dps.len() as int }) as nat),
            decreases dp@.len() - j2,
        {
            secrets.push(PathSecret(clone_bytes(&cur)));
            let (dpk, dsk) = match derive_keypair(cur.as_slice()) {
                Ok(kp) => kp,
                Err(e) => {
                    return Err(e);
                },
            };
            if !crate::treesync::eq_bytes(&dpk, &update_path.nodes[j2].public_key) {
                return Err(TreeError::UpdatePathMismatch);
            }
            let ghost pre_nodes = self@;
            let ghost dpkv = dpk@;
            proof {
                assert(dp@[j2 as int].0 as int == dps[j2 as int]);
                assert(dsk@ == hpke_sk_of(cur@) && dpk@ == hpke_pk_of(cur@));
            }
            crate::treesync::write_parent(&mut self.nodes, dp[j2].0 as usize, dpk, Some(dsk));
            proof {
                assert forall|q: int| 0 <= q < wi && q != xs && !dps.subrange(0, j2 as int + 1).contains(q) implies orig[q] == #[trigger] self@[q] by {
                    assert(!dps.subrange(0, j2 as int).contains(q)) by {
                        if dps.subrange(0, j2 as int).contains(q) {
                            let a = choose|a: int| 0 <= a < j2 as int && dps.subrange(0, j2 as int)[a] == q;
                            assert(dps.subrange(0, j2 as int + 1)[a] == q);
                        }
                    }
                    assert(q != dps[j2 as int]) by {
                        if q == dps[j2 as int] {
                            assert(dps.subrange(0, j2 as int + 1)[j2 as int] == q);
                        }
                    }
                    assert(self@[q] == pre_nodes[q]);
                }
                assert forall|a: int| 0 <= a < j2 as int + 1 implies ((#[trigger] self@[dps[a]]) matches Some(NodeV::Parent(p))
                    && p.public_key == update_path.nodes@[a].public_key@) by {
                    if a < j2 as int {
                        lemma_path_partition(xs, wi);
                        assert(dps[a] != dps[j2 as int]);
                        assert(self@[dps[a]] == pre_nodes[dps[a]]);
                    } else {
                        assert(dpkv == update_path.nodes@[a].public_key@);
                    }
                }
                assert(self@[xs] == pre_nodes[xs]) by {
                    assert(xs != dps[j2 as int]);
                }
            }
            if j2 + 1 < dp.len() {
                let next = kdf(cur.as_slice(), plabel.as_slice());
                cur = next;
                proof {
                    assert forall|s0: Seq<u8>| path_sealed(orig, sender.0 as int, s0, aadv, exclv, update_path)
                        implies cur@ == chain_secret(s0, (j2 + 2) as nat) by {
                        assert(chain_secret(s0, (j2 + 2) as nat) == kdf_of(chain_secret(s0, (j2 + 1) as nat), path_label()));
                    }
                }
            }
            j2 = j2 + 1;
        }
        let clabel = commit_label_bytes();
        let commit = kdf(cur.as_slice(), clabel.as_slice());
        proof {
            assert forall|s0: Seq<u8>| path_sealed(orig, sender.0 as int, s0, aadv, exclv, update_path)
                implies commit@ == commit_of(s0, dps.len() as nat) by {
                assert(cur@ == chain_secret(s0, dps.len() as nat));
            }
            assert(dps.subrange(0, dps.len() as int) =~= dps);
            assert forall|q: int| 0 <= q < wi && q != xs && !dps.contains(q) implies orig[q] == #[trigger] self@[q] by {
                assert(!dps.subrange(0, dps.len() as int).contains(q));
            }
        }
        Ok((secrets, CommitSecret(commit)))
    }
}

/// Path agreement: for one sender-produced update path over one public
/// tree state, every receiver with a non-excluded position derives one and
/// the same commit secret, and it equals the sender's — the chain's root
/// secret derived under the commit label.
///
/// The first hypothesis is what `encrypt_path` ensures of the sender; the
/// other two are what `apply_update_path` ensures of each receiver's
/// commit secret.
pub proof fn lemma_path_agreement(
    nodes: Seq<Option<NodeV>>,
    sender_leaf: int,
    s0: Seq<u8>,
    aad: Seq<u8>,
    excl: Seq<LeafIndex>,
    up: &UpdatePath,
    c1: Seq<u8>,
    c2: Seq<u8>,
)
    requires
        path_sealed(nodes, sender_leaf, s0, aad, excl, up),
        forall|s: Seq<u8>| path_sealed(nodes, sender_leaf, s, aad, excl, up)
            ==> c1 == commit_of(s, dpath(2 * sender_leaf, nodes.len() as int).len() as nat),
        forall|s: Seq<u8>| path_sealed(nodes, sender_leaf, s, aad, excl, up)
            ==> c2 == commit_of(s, dpath(2 * sender_leaf, nodes.len() as int).len() as nat),
    ensures
        c1 == c2,
        c1 == commit_of(s0, dpath(2 * sender_leaf, nodes.len() as int).len() as nat),
{
}

/// The first position of the sender's direct path that lies on the
/// receiver's chain; the path length when the two never meet.
pub open spec fn merge_from(dp: Seq<int>, ch: Seq<int>, j: int) -> int
    decreases dp.len() - j,
{
    if j < 0 || j >= dp.len() {
        dp.len() as int
    } else if ch.contains(dp[j]) {
        j
    } else {
        merge_from(dp, ch, j + 1)
    }
}

/// The merge level lies between its starting point and the path length.
pub proof fn lemma_merge_from_le(dp: Seq<int>, ch: Seq<int>, j: int)
    requires
        0 <= j <= dp.len(),
    ensures
        j <= merge_from(dp, ch, j) <= dp.len(),
    decreases dp.len() - j,
{
    if j < dp.len() && !ch.contains(dp[j]) {
        lemma_merge_from_le(dp, ch, j + 1);
    }
}

/// The sender reference is unusable: out of range, or the local member's
/// own leaf.
pub open spec fn bad_sender(nodes: Seq<Option<NodeV>>, sender_leaf: int, own_leaf: int) -> bool {
    sender_leaf >= crate::treesync::leaf_count(nodes) || sender_leaf == own_leaf
}

/// The path has no reader here: the local leaf is excluded, or the sender's
/// leaf is not a present member.
pub open spec fn no_reader(nodes: Seq<Option<NodeV>>, sender_leaf: int, own_leaf: int, excl: Seq<LeafIndex>) -> bool {
    ||| excluded_slot(2 * own_leaf, excl)
    ||| !(nodes[2 * sender_leaf] matches Some(NodeV::Leaf(_)))
}

/// At the merge level, no resolution target is a node of the local chain
/// holding a private key: the member cannot open any ciphertext.
pub open spec fn no_decryptable(nodes: Seq<Option<NodeV>>, sender_leaf: int, own_leaf: int, excl: Seq<LeafIndex>) -> bool {
    let w = nodes.len() as int;
    let dp = dpath(2 * sender_leaf, w);
    let ch = chain_spec(2 * own_leaf, w);
    let mi = merge_from(dp, ch, 0);
    let tg = res_targets(nodes, cpath(2 * sender_leaf, w)[mi], w, excl);
    forall|q: int| 0 <= q < tg.len()
        ==> !(ch.contains(#[trigger] tg[q]) && sk_at(nodes, tg[q]) is Some)
}

/// Stores a private key beside the public key a parent already holds,
/// leaving the public key and stored parent hash untouched.
pub fn set_parent_secret(nodes: &mut Vec<Option<Node>>, x: usize, private_key: Vec<u8>)
    requires
        x < old(nodes)@.len(),
        x % 2 == 1,
        wf_shape(nv(old(nodes)@)),
        keys_ok(nv(old(nodes)@)),
        crate::codec::encodable(nv(old(nodes)@)),
        nv(old(nodes)@)[x as int] matches Some(NodeV::Parent(_)),
        exists|m: Seq<u8>| pk_at(nv(old(nodes)@), x as int) == hpke_pk_of(m) && private_key@ == #[trigger] hpke_sk_of(m),
    ensures
        nv(final(nodes)@).len() == nv(old(nodes)@).len(),
        wf_shape(nv(final(nodes)@)),
        keys_ok(nv(final(nodes)@)),
        crate::codec::encodable(nv(final(nodes)@)),
        crate::node::strip_nodes(nv(final(nodes)@)) == crate::node::strip_nodes(nv(old(nodes)@)),
        forall|i: int| 0 <= i < nv(old(nodes)@).len() && i != x as int ==> nv(final(nodes)@)[i] == nv(old(nodes)@)[i],
        (nv(final(nodes)@)[x as int] matches Some(NodeV::Parent(p)) && p.private_key == Some(private_key@)
            && p.public_key == pk_at(nv(old(nodes)@), x as int)),
{
    let ghost skv = private_key@;
    let (pk, ph) = match &nodes[x] {
        Some(Node::Parent(p)) => (clone_bytes(&p.public_key), clone_bytes(&p.parent_hash)),
        _ => {
            return;
        },
    };
    set_node(nodes, x, Some(Node::Parent(crate::node::ParentNode { public_key: pk, parent_hash: ph, private_key: Some(private_key) })));
    proof {
        let pre = nv(old(nodes)@);
        let cur = nv(nodes@);
        assert(cur =~= pre.update(x as int, cur[x as int]));
        assert forall|i: int| 0 <= i < cur.len() && i % 2 == 0 implies ((#[trigger] cur[i]) is None || cur[i] matches Some(NodeV::Leaf(_))) by {
            assert(cur[i] == pre[i]);
        }
        assert forall|i: int| 0 <= i < cur.len() && i % 2 == 1 implies ((#[trigger] cur[i]) is None || cur[i] matches Some(NodeV::Parent(_))) by {
            if i != x as int {
                assert(cur[i] == pre[i]);
            }
        }
        assert forall|i: int| 0 <= i < cur.len() implies (match #[trigger] cur[i] {
            Some(n) => crate::node::node_keys_ok(n),
            None => true,
        }) by {
            if i != x as int {
                assert(cur[i] == pre[i]);
            }
        }
        assert forall|i: int| 0 <= i < cur.len() implies crate::codec::slot_encodable(#[trigger] cur[i]) by {
            if i != x as int {
                assert(cur[i] == pre[i]);
            } else {
                assert(crate::codec::slot_encodable(pre[i]));
            }
        }
        assert(crate::node::strip_nodes(cur) =~= crate::node::strip_nodes(pre));
    }
}

/// Checks the shape and field bounds of a received node array.
pub fn validate_shape(nodes: &Vec<Option<Node>>) -> (r: bool)
    ensures
        r == (wf_shape(nv(nodes@)) && crate::codec::encodable(nv(nodes@))),
{
    if nodes.len() % 2 != 1 || nodes.len() < 1 || nodes.len() > 0x7fff_ffff {
        proof {
            assert(node_width(crate::treemath::MAX_LEAVES as int) == 0x7fff_ffff);
        }
        return false;
    }
    let mut i: usize = 0;
    while i < nodes.len()
        invariant
            i <= nodes@.len(),
            forall|k: int| 0 <= k < i && k % 2 == 0 ==> ((#[trigger] nv(nodes@)[k]) is None || nv(nodes@)[k] matches Some(NodeV::Leaf(_))),
            forall|k: int| 0 <= k < i && k % 2 == 1 ==> ((#[trigger] nv(nodes@)[k]) is None || nv(nodes@)[k] matches Some(NodeV::Parent(_))),
            forall|k: int| 0 <= k < i ==> crate::codec::slot_encodable(#[trigger] nv(nodes@)[k]),
        decreases nodes@.len() - i,
    {
        match &nodes[i] {
            None => {},
            Some(Node::Leaf(l)) => {
                if i % 2 != 0 {
                    proof {
                        assert(nv(nodes@)[i as int] matches Some(NodeV::Leaf(_)));
                    }
                    return false;
                }
                if l.public_key.len() > 0xffff_ffff || l.identity.len() > 0xffff_ffff {
                    proof {
                        assert(!crate::codec::slot_encodable(nv(nodes@)[i as int]));
                    }
                    return false;
                }
            },
            Some(Node::Parent(p)) => {
                if i % 2 != 1 {
                    proof {
                        assert(nv(nodes@)[i as int] matches Some(NodeV::Parent(_)));
                    }
                    return false;
                }
                if p.public_key.len() > 0xffff_ffff || p.parent_hash.len() > 0xffff_ffff {
                    proof {
                        assert(!crate::codec::slot_encodable(nv(nodes@)[i as int]));
                    }
                    return false;
                }
            },
        }
        i = i + 1;
    }
    proof {
        assert(nodes@.len() <= node_width(crate::treemath::MAX_LEAVES as int));
    }
    true
}

impl crate::treesync::TreeSync {
    /// Reconstructs a tree from received public nodes and the local
    /// member's own secrets: the join path.  The member's leaf key pair is
    /// re-derived from its init secret and checked against the received
    /// leaf; the path-secret chain from the lowest ancestor shared with
    /// `sender_leaf` is walked to the root, each derived public key checked
    /// against the received one and the derived private keys installed; and
    /// every parent hash of the received public state is validated — the
    /// strongest integrity check a newly joining member performs on
    /// untrusted tree data.
    #[verifier::rlimit(100)]
    #[verifier::spinoff_prover]
    pub fn from_nodes_with_secrets(
        nodes: Vec<Option<Node>>,
        own_leaf: LeafIndex,
        own_init_secret: Vec<u8>,
        sender_leaf: LeafIndex,
        start_secret: Vec<u8>,
    ) -> (r: Result<(crate::treesync::TreeSync, Option<CommitSecret>), TreeError>)
        ensures
            r matches Ok(tc) ==> ({
                let w = nv(nodes@).len() as int;
                let dp = dpath(2 * (sender_leaf.0 as int), w);
                let ch = chain_spec(2 * (own_leaf.0 as int), w);
                let i = merge_from(dp, ch, 0);
                &&& tc.0.wf()
                &&& crate::treesync::all_parent_hashes_ok(tc.0@, tc.0@.len() as int)
                &&& crate::treesync::all_parent_hashes_ok(nv(nodes@), w)
                &&& crate::node::strip_nodes(tc.0@) == crate::node::strip_nodes(nv(nodes@))
                &&& tc.0.own_leaf == own_leaf
                &&& (tc.0@[2 * (own_leaf.0 as int)] matches Some(NodeV::Leaf(l))
                    && l.private_key == Some(hpke_sk_of(own_init_secret@)))
                &&& (i < dp.len() ==> forall|j: int| i <= j < dp.len()
                    ==> ((#[trigger] tc.0@[dp[j]]) matches Some(NodeV::Parent(p))
                        ==> p.private_key == Some(hpke_sk_of(chain_secret(start_secret@, (j - i) as nat)))
                            && p.public_key == hpke_pk_of(chain_secret(start_secret@, (j - i) as nat))))
                &&& (i < dp.len() ==> (tc.1 matches Some(cs) && cs.0@ == commit_of(start_secret@, (dp.len() - 1 - i) as nat)))
                &&& (i == dp.len() ==> tc.1 is None)
            }),
            !(wf_shape(nv(nodes@)) && crate::codec::encodable(nv(nodes@)))
                ==> r is Err && r->Err_0 == TreeError::ValidationError,
            (r is Err && r->Err_0 == TreeError::InvalidIndex)
                <==> (wf_shape(nv(nodes@)) && crate::codec::encodable(nv(nodes@))
                    && (own_leaf.0 as int >= crate::treesync::leaf_count(nv(nodes@))
                        || sender_leaf.0 as int >= crate::treesync::leaf_count(nv(nodes@)))),
            (r is Err && r->Err_0 == TreeError::UnknownMemberRemoval)
                <==> (wf_shape(nv(nodes@)) && crate::codec::encodable(nv(nodes@))
                    && (own_leaf.0 as int) < crate::treesync::leaf_count(nv(nodes@))
                    && (sender_leaf.0 as int) < crate::treesync::leaf_count(nv(nodes@))
                    && !(nv(nodes@)[2 * (own_leaf.0 as int)] matches Some(NodeV::Leaf(_)))),
            (r is Err && r->Err_0 == TreeError::ValidationError)
                ==> (!(wf_shape(nv(nodes@)) && crate::codec::encodable(nv(nodes@)))
                    || (nv(nodes@)[2 * (own_leaf.0 as int)] matches Some(NodeV::Leaf(l))
                        && l.public_key != hpke_pk_of(own_init_secret@))),
            (r is Err && r->Err_0 == TreeError::ParentHashMismatch)
                ==> !crate::treesync::all_parent_hashes_ok(nv(nodes@), nv(nodes@).len() as int),
            (r is Err && r->Err_0 == TreeError::UpdatePathMismatch)
                ==> ({
                    let w = nv(nodes@).len() as int;
                    let dp = dpath(2 * (sender_leaf.0 as int), w);
                    let ch = chain_spec(2 * (own_leaf.0 as int), w);
                    let i = merge_from(dp, ch, 0);
                    exists|j: int| i <= j < dp.len()
                        && ((#[trigger] nv(nodes@)[dp[j]]) matches Some(NodeV::Parent(p))
                            && p.public_key != hpke_pk_of(chain_secret(start_secret@, (j - i) as nat)))
                }),
    {
        let ghost origv = nv(nodes@);
        if !validate_shape(&nodes) {
            return Err(TreeError::ValidationError);
        }
        // Work on a copy stripped of any private keys the sender might have
        // left in.
        let mut work = crate::treesync::export_public(&nodes);
        proof {
            assert(crate::node::strip_nodes(nv(work@)) =~= crate::node::strip_nodes(origv));
            assert(wf_shape(nv(work@))) by {
                assert forall|k: int| 0 <= k < nv(work@).len() implies #[trigger] nv(work@)[k] == crate::node::strip_nodes(origv)[k] by {}
            }
            assert(crate::codec::encodable(nv(work@))) by {
                assert forall|k: int| 0 <= k < nv(work@).len() implies crate::codec::slot_encodable(#[trigger] nv(work@)[k]) by {
                    assert(nv(work@)[k] == crate::node::strip_nodes(origv)[k]);
                    assert(crate::codec::slot_encodable(origv[k]));
                }
            }
            assert(keys_ok(nv(work@))) by {
                assert forall|k: int| 0 <= k < nv(work@).len() implies (match #[trigger] nv(work@)[k] {
                    Some(n) => crate::node::node_keys_ok(n),
                    None => true,
                }) by {
                    assert(nv(work@)[k] == crate::node::strip_nodes(origv)[k]);
                }
            }
        }
        let size = tree_size(&work);
        let ghost wi = nv(work@).len() as int;
        if own_leaf.0 >= size.0 || sender_leaf.0 >= size.0 {
            return Err(TreeError::InvalidIndex);
        }
        let ghost xs = 2 * (sender_leaf.0 as int);
        let ghost xo = 2 * (own_leaf.0 as int);
        proof {
            lemma_paths_usable(xs, wi);
        }
        // The member's own leaf must be present before anything is derived.
        let own_identity = match &work[(2 * own_leaf.0) as usize] {
            Some(Node::Leaf(l)) => clone_bytes(&l.identity),
            _ => {
                proof {
                    assert(nv(work@)[xo] == crate::node::strip_nodes(origv)[xo]);
                    assert(!(origv[xo] matches Some(NodeV::Leaf(_))));
                }
                return Err(TreeError::UnknownMemberRemoval);
            },
        };
        // Re-derive the member's leaf key pair and check it against the
        // received leaf.
        let (opk, osk) = match derive_keypair(own_init_secret.as_slice()) {
            Ok(kp) => kp,
            Err(e) => {
                return Err(e);
            },
        };
        let pk_matches = match &work[(2 * own_leaf.0) as usize] {
            Some(Node::Leaf(l)) => crate::treesync::eq_bytes(&l.public_key, &opk),
            _ => false,
        };
        if !pk_matches {
            proof {
                assert(nv(work@)[xo] == crate::node::strip_nodes(origv)[xo]);
                assert(origv[xo] matches Some(NodeV::Leaf(l)) && l.public_key != hpke_pk_of(own_init_secret@));
            }
            return Err(TreeError::ValidationError);
        }
        proof {
            assert(crate::codec::slot_encodable(nv(work@)[xo]));
            assert(crate::node::strip_nodes(nv(work@)) =~= crate::node::strip_nodes(origv));
        }
        let ghost before_leaf = nv(work@);
        crate::treesync::write_leaf(&mut work, (2 * own_leaf.0) as usize, opk, own_identity, Some(osk));
        proof {
            assert(crate::node::strip_nodes(nv(work@)) =~= crate::node::strip_nodes(before_leaf));
        }
        // The sender's direct path and the member's chain.
        let dp = match direct_path(sender_leaf, size) {
            Ok(v) => v,
            Err(e) => {
                return Err(e);
            },
        };
        let own_dp = match direct_path(own_leaf, size) {
            Ok(v) => v,
            Err(e) => {
                return Err(e);
            },
        };
        let mut chv: Vec<NodeIndex> = Vec::new();
        chv.push(NodeIndex(2 * own_leaf.0));
        let mut t: usize = 0;
        while t < own_dp.len()
            invariant
                t <= own_dp@.len(),
                chv@.len() == t + 1,
                chv@[0].0 as int == xo,
                xo == 2 * (own_leaf.0 as int),
                own_leaf.0 <= 0x7fff_ffff,
                ixs(own_dp@) == dpath(xo, wi),
                forall|k: int| 1 <= k < chv@.len() ==> (#[trigger] chv@[k]).0 as int == dpath(xo, wi)[k - 1],
            decreases own_dp@.len() - t,
        {
            chv.push(own_dp[t]);
            t = t + 1;
        }
        proof {
            assert(ixs(chv@) =~= chain_spec(xo, wi));
        }
        let ghost dps = dpath(xs, wi);
        let ghost chs = chain_spec(xo, wi);
        // The merge level.
        let mut i: usize = 0;
        while i < dp.len() && !contains_ix(&chv, dp[i])
            invariant
                i <= dp@.len(),
                ixs(dp@) == dps,
                ixs(chv@) == chs,
                merge_from(dps, chs, 0) == merge_from(dps, chs, i as int),
            decreases dp@.len() - i,
        {
            proof {
                assert(!chs.contains(dps[i as int]));
            }
            i = i + 1;
        }
        let ghost mi = merge_from(dps, chs, 0);
        proof {
            if i < dp@.len() {
                assert(chs.contains(dps[i as int]));
                assert(mi == i as int);
            } else {
                assert(mi == dps.len());
            }
        }
        // Walk the chain from the shared ancestor to the root.
        let plabel = path_label_bytes();
        let mut commit_out: Option<CommitSecret> = None;
        if i < dp.len() {
            let mut cur = start_secret;
            let mut j: usize = i;
            while j < dp.len()
                invariant
                    i as int <= j <= dp@.len(),
                    (i as int) < dps.len(),
                    mi == i as int,
                    mi == merge_from(dps, chs, 0),
                    chs == chain_spec(xo, wi),
                    dps == dpath(xs, wi),
                    xs == 2 * (sender_leaf.0 as int),
                    origv == nv(nodes@),
                    ixs(dp@) == dps,
                    forall|a: int| 0 <= a < dps.len() ==> {
                        let d = #[trigger] dps[a];
                        0 <= d < wi && d % 2 == 1
                    },
                    plabel@ == path_label(),
                    xo == 2 * (own_leaf.0 as int),
                    cur@ == chain_secret(start_secret@, (if (j as int) < dps.len() { j - i } else { dps.len() - 1 - (i as int) }) as nat),
                    nv(work@).len() == wi,
                    wf_shape(nv(work@)),
                    wf_shape(origv),
                    crate::codec::encodable(origv),
                    (own_leaf.0 as int) < crate::treesync::leaf_count(origv),
                    (sender_leaf.0 as int) < crate::treesync::leaf_count(origv),
                    origv[xo] matches Some(NodeV::Leaf(_)),
                    keys_ok(nv(work@)),
                    crate::codec::encodable(nv(work@)),
                    crate::node::strip_nodes(nv(work@)) == crate::node::strip_nodes(origv),
                    nv(work@)[xo] matches Some(NodeV::Leaf(l)) && l.private_key == Some(hpke_sk_of(own_init_secret@)),
                    forall|a: int| i as int <= a < j ==> ((#[trigger] nv(work@)[dps[a]]) matches Some(NodeV::Parent(p))
                        ==> p.private_key == Some(hpke_sk_of(chain_secret(start_secret@, (a - i) as nat)))
                            && p.public_key == hpke_pk_of(chain_secret(start_secret@, (a - i) as nat))),
                    0 <= xo < wi,
                    wi == origv.len() as int,
                decreases dp@.len() - j,
            {
                let (dpk, dsk) = match derive_keypair(cur.as_slice()) {
                    Ok(kp) => kp,
                    Err(e) => {
                        return Err(e);
                    },
                };
                proof {
                    assert(dp@[j as int].0 as int == dps[j as int]);
                }
                let ghost before = nv(work@);
                match &work[dp[j].0 as usize] {
                    Some(Node::Parent(p)) => {
                        if !crate::treesync::eq_bytes(&p.public_key, &dpk) {
                            proof {
                                let idx = dps[j as int];
                                assert(nv(work@)[idx] matches Some(NodeV::Parent(pp)) && pp.public_key == p.public_key@);
                                assert(crate::node::strip_nodes(nv(work@))[idx] == crate::node::strip_nodes(origv)[idx]);
                                assert(origv[idx] matches Some(NodeV::Parent(q))
                                    && q.public_key != hpke_pk_of(chain_secret(start_secret@, (j - i) as nat)));
                            }
                            return Err(TreeError::UpdatePathMismatch);
                        }
                    },
                    _ => {},
                }
                let is_parent = match &work[dp[j].0 as usize] {
                    Some(Node::Parent(_)) => true,
                    _ => false,
                };
                if is_parent {
                    proof {
                        assert(pk_at(nv(work@), dps[j as int]) == hpke_pk_of(cur@));
                        assert(dsk@ == hpke_sk_of(cur@));
                    }
                    set_parent_secret(&mut work, dp[j].0 as usize, dsk);
                    proof {
                        assert(crate::node::strip_nodes(nv(work@)) =~= crate::node::strip_nodes(before));
                        assert(nv(work@)[xo] == before[xo]) by {
                            assert(xo != dps[j as int]);
                        }
                        assert forall|a: int| i as int <= a < j + 1 implies ((#[trigger] nv(work@)[dps[a]]) matches Some(NodeV::Parent(p))
                            ==> p.private_key == Some(hpke_sk_of(chain_secret(start_secret@, (a - i) as nat)))
                                && p.public_key == hpke_pk_of(chain_secret(start_secret@, (a - i) as nat))) by {
                            if a < j {
                                lemma_path_partition(xs, wi);
                                assert(dps[a] != dps[j as int]);
                                assert(nv(work@)[dps[a]] == before[dps[a]]);
                            }
                        }
                    }
                } else {
                    proof {
                        assert forall|a: int| i as int <= a < j + 1 implies ((#[trigger] nv(work@)[dps[a]]) matches Some(NodeV::Parent(p))
                            ==> p.private_key == Some(hpke_sk_of(chain_secret(start_secret@, (a - i) as nat)))
                                && p.public_key == hpke_pk_of(chain_secret(start_secret@, (a - i) as nat))) by {}
                    }
                }
                if j + 1 < dp.len() {
                    let next = kdf(cur.as_slice(), plabel.as_slice());
                    cur = next;
                }
                j = j + 1;
            }
            let clabel = commit_label_bytes();
            let commit = kdf(cur.as_slice(), clabel.as_slice());
            proof {
                assert(cur@ == chain_secret(start_secret@, (dps.len() - 1 - (i as int)) as nat));
            }
            commit_out = Some(CommitSecret(commit));
        }
        // Cache the tree hash and validate every parent hash of the
        // received public state.
        proof {
            crate::treemath::lemma_root(wi);
        }
        let root_ix = crate::treemath::root(size);
        let tree_hash = crate::treesync::compute_tree_hash(&work, root_ix, size);
        let tree = crate::treesync::TreeSync { nodes: work, tree_hash, own_leaf };
        proof {
            crate::treesync::lemma_all_ph_strip_eq(tree@, origv, wi);
        }
        if !tree.parent_hash_valid() {
            return Err(TreeError::ParentHashMismatch);
        }
        Ok((tree, commit_out))
    }
}

} // verus!
