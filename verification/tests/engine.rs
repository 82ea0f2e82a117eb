use treesync::crypto::derive_keypair;
use treesync::index::{LeafIndex, NodeIndex};
use treesync::kat::{bytes_to_hex, decode_update_path, generate_test_vector, hex_to_bytes, run_test_vector};
use treesync::node::Node;
use treesync::treekem::CommitSecret;
use treesync::treesync::TreeSync;
use treesync::errors::TreeError;

fn seed(tag: u8) -> Vec<u8> {
    vec![tag; 32]
}

/// A tree whose first member is named and the rest added by public key.
fn group_tree(identities: &[&[u8]]) -> TreeSync {
    let mut tree = TreeSync::new(identities[0].to_vec(), seed(1)).expect("Could not create tree");
    let mut diff = tree.empty_diff();
    for (i, id) in identities.iter().enumerate().skip(1) {
        let (pk, _sk) = derive_keypair(&seed((i + 1) as u8)).expect("Could not derive key pair");
        diff.add_leaf(id.to_vec(), pk).expect("Could not add member to group");
    }
    let staged = diff.into_staged_diff().expect("Could not stage diff");
    tree.merge_diff(staged);
    tree
}

fn leaf_identity(tree: &TreeSync, leaf: u32) -> Vec<u8> {
    match &tree.export_nodes()[(2 * leaf) as usize] {
        Some(Node::Leaf(l)) => l.identity.clone(),
        _ => panic!("expected a leaf"),
    }
}

// This tests if the remover is correctly recorded when one member issues a
// removal and another member commits it.
#[test]
fn remover() {
    let group_id = b"Test Group".to_vec();

    // === Alice creates a group and adds Bob and Charly ===
    let mut alice_group = group_tree(&[b"Alice", b"Bob", b"Charly"]);
    assert_eq!(leaf_identity(&alice_group, 0), b"Alice".to_vec());
    assert_eq!(leaf_identity(&alice_group, 1), b"Bob".to_vec());
    assert_eq!(leaf_identity(&alice_group, 2), b"Charly".to_vec());

    // === Alice removes Bob & Charly commits ===
    let remover_leaf = LeafIndex::new(0);
    let leaver_leaf = LeafIndex::new(1);
    let remover_identity = leaf_identity(&alice_group, remover_leaf.as_u32());
    let leaver_identity = leaf_identity(&alice_group, leaver_leaf.as_u32());

    // Charly's commit carries the removal: the leaf is blanked and the tree
    // refreshed under the group's context.
    let mut diff = alice_group.empty_diff();
    diff.blank_leaf(leaver_leaf).expect("Could not propose removal");
    let excluded = vec![leaver_leaf];
    let (_path, _commit) = diff
        .encrypt_path(seed(9), &excluded, &group_id)
        .expect("Could not commit proposal");
    let staged = diff.into_staged_diff().expect("Could not commit proposal");
    alice_group.merge_diff(staged);

    assert_eq!(remover_identity.as_slice(), b"Alice");
    assert_eq!(leaver_identity.as_slice(), b"Bob");
    assert!(alice_group.export_nodes()[2].is_none());
}

// Four leaves; the first sends an update path; the three others recover an
// identical commit secret, and the tree hash changes.
#[test]
fn four_leaf_path_agreement() {
    let ids: [&[u8]; 4] = [b"m0", b"m1", b"m2", b"m3"];
    let mut sender_tree = group_tree(&ids);
    let public = sender_tree.export_nodes();
    let hash_before = sender_tree.tree_hash();

    let ctx = b"ctx".to_vec();
    let excluded: Vec<LeafIndex> = Vec::new();
    let mut diff = sender_tree.empty_diff();
    let (up, sender_commit) = diff
        .encrypt_path(seed(42), &excluded, &ctx)
        .expect("sender update failed");
    let staged = diff.into_staged_diff().expect("staging failed");
    sender_tree.merge_diff(staged);

    let hash_after = sender_tree.tree_hash();
    assert_ne!(hash_before, hash_after);
    assert_eq!(sender_commit.0.len(), 32);
    assert_ne!(sender_commit.0, seed(42));

    for r in 1u32..4 {
        // Each receiver reconstructs its view from the public tree plus its
        // own leaf secret; the all-blank parents make the join path empty.
        let (recv_tree, _c) = TreeSync::from_nodes_with_secrets(
            public.iter().map(|o| o.as_ref().map(clone_node)).collect(),
            LeafIndex::new(r),
            seed((r + 1) as u8),
            LeafIndex::new(r),
            seed(0),
        )
        .expect("receiver could not rebuild the tree");
        let mut rdiff = recv_tree.empty_diff();
        let (_secrets, commit) = rdiff
            .apply_update_path(LeafIndex::new(0), &up, &excluded, &ctx)
            .expect("receiver could not apply the update path");
        assert_eq!(commit.0, sender_commit.0);
    }
}

fn clone_node(n: &Node) -> Node {
    treesync::node::clone_node(n)
}

// Adding a fifth member to a four-leaf tree grows the array from 7 to 9
// slots; a previously blanked slot is reused before the array grows.
#[test]
fn add_grows_and_reuses() {
    let ids: [&[u8]; 4] = [b"m0", b"m1", b"m2", b"m3"];
    let tree = group_tree(&ids);
    assert_eq!(tree.export_nodes().len(), 7);

    // Fifth member: the array grows to the next odd boundary.
    let mut diff = tree.empty_diff();
    let (pk5, _) = derive_keypair(&seed(5)).unwrap();
    let li = diff.add_leaf(b"m4".to_vec(), pk5).expect("add failed");
    assert_eq!(li.as_u32(), 4);
    assert_eq!(diff.nodes.len(), 9);

    // A blanked slot is reused before any growth.
    let mut diff2 = tree.empty_diff();
    diff2.blank_leaf(LeafIndex::new(2)).expect("blank failed");
    let (pk6, _) = derive_keypair(&seed(6)).unwrap();
    let li2 = diff2.add_leaf(b"m5".to_vec(), pk6).expect("add failed");
    assert_eq!(li2.as_u32(), 2);
    assert_eq!(diff2.nodes.len(), 7);
}

// Removing a leaf and excluding it from the next update: the removed
// member's attempt to process the path is rejected, not silently accepted.
#[test]
fn removed_member_rejected() {
    let ids: [&[u8]; 4] = [b"m0", b"m1", b"m2", b"m3"];
    let mut sender_tree = group_tree(&ids);
    let public = sender_tree.export_nodes();

    // The removed member still holds its old view.
    let (removed_tree, _c) = TreeSync::from_nodes_with_secrets(
        public.iter().map(|o| o.as_ref().map(clone_node)).collect(),
        LeafIndex::new(2),
        seed(3),
        LeafIndex::new(2),
        seed(0),
    )
    .expect("member could not rebuild the tree");

    // The group removes leaf 2 and refreshes the tree, excluding it.
    let ctx = b"ctx".to_vec();
    let removed = LeafIndex::new(2);
    let excluded = vec![removed];
    let mut diff = sender_tree.empty_diff();
    diff.blank_leaf(removed).expect("removal failed");
    let (up, _commit) = diff
        .encrypt_path(seed(43), &excluded, &ctx)
        .expect("update failed");
    let staged = diff.into_staged_diff().expect("staging failed");
    sender_tree.merge_diff(staged);

    // The removed member must not obtain the new secret.
    let mut rdiff = removed_tree.empty_diff();
    let outcome = rdiff.apply_update_path(LeafIndex::new(0), &up, &excluded, &ctx);
    assert_eq!(outcome.err(), Some(TreeError::UnknownMemberRemoval));
}

// Deterministic known-answer vectors round-trip through the full engine.
#[test]
fn kat_round_trip() {
    for n in 2u32..7 {
        let tv = generate_test_vector(n).expect("could not build a vector");
        run_test_vector(&tv).expect("error while checking tree kem test vector.");
    }
}

// Flipping a bit in a transmitted parent public key is caught, never
// silently accepted with a different secret.
#[test]
fn tamper_detected() {
    let tv = generate_test_vector(4).expect("could not build a vector");
    run_test_vector(&tv).expect("the untampered vector must pass");

    let mut bytes = hex_to_bytes(&tv.ratchet_tree_before).expect("hex");
    let mut nodes = treesync::codec::decode_nodes(&bytes).expect("decode");
    let mut flipped = false;
    for slot in nodes.iter_mut() {
        if let Some(Node::Parent(p)) = slot {
            p.public_key[0] ^= 1;
            flipped = true;
            break;
        }
    }
    assert!(flipped, "the vector must contain a non-blank parent");
    bytes = treesync::codec::encode_nodes(&nodes).expect("encode");
    let mut tampered = tv;
    tampered.ratchet_tree_before = bytes_to_hex(&bytes);
    let outcome = run_test_vector(&tampered);
    assert!(outcome.is_err());
    assert_ne!(outcome, Ok(()));
}

// The update-path wire form survives a decode.
#[test]
fn update_path_decode() {
    let tv = generate_test_vector(3).expect("could not build a vector");
    let bytes = hex_to_bytes(&tv.update_path).expect("hex");
    let up = decode_update_path(&bytes).expect("decode");
    assert!(up.nodes.len() >= 1);
    assert_eq!(up.leaf_public_key.len(), 32);
}

// Re-validating an unmodified tree always succeeds.
#[test]
fn revalidation_idempotent() {
    let ids: [&[u8]; 3] = [b"m0", b"m1", b"m2"];
    let mut tree = group_tree(&ids);
    let ctx = b"ctx".to_vec();
    let excluded: Vec<LeafIndex> = Vec::new();
    let mut diff = tree.empty_diff();
    diff.encrypt_path(seed(7), &excluded, &ctx).expect("update failed");
    let staged = diff.into_staged_diff().expect("staging failed");
    tree.merge_diff(staged);
    assert!(tree.parent_hash_valid());
    assert!(tree.parent_hash_valid());
    let h1 = tree.tree_hash();
    let h2 = tree.tree_hash();
    assert_eq!(h1, h2);
    assert_eq!(h1.len(), 32);
}

// A commit secret is a fresh 32-byte derivation, never the input echoed.
#[test]
fn commit_secret_shape() {
    let ids: [&[u8]; 2] = [b"m0", b"m1"];
    let tree = group_tree(&ids);
    let ctx: Vec<u8> = Vec::new();
    let excluded: Vec<LeafIndex> = Vec::new();
    let mut diff = tree.empty_diff();
    let (_up, CommitSecret(c)) = diff.encrypt_path(seed(11), &excluded, &ctx).expect("update failed");
    assert_eq!(c.len(), 32);
    assert_ne!(c, seed(11));
}

// Treemath on a four-leaf tree: the direct path and copath of leaf 0
// partition its ancestors and their siblings, ending at the root.
#[test]
fn four_leaf_treemath() {
    let size = LeafIndex::new(4);
    assert_eq!(treesync::treemath::root(size).as_u32(), 3);
    let dp = treesync::treemath::direct_path(LeafIndex::new(0), size).unwrap();
    let cp = treesync::treemath::copath(LeafIndex::new(0), size).unwrap();
    let dp_raw: Vec<u32> = dp.iter().map(|n| n.as_u32()).collect();
    let cp_raw: Vec<u32> = cp.iter().map(|n| n.as_u32()).collect();
    assert_eq!(dp_raw, vec![1, 3]);
    assert_eq!(cp_raw, vec![2, 5]);
    assert_eq!(treesync::treemath::parent(NodeIndex::new(1), size).unwrap().as_u32(), 3);
    assert_eq!(treesync::treemath::left_child(NodeIndex::new(3)).unwrap().as_u32(), 1);
    assert_eq!(treesync::treemath::right_child(NodeIndex::new(3), size).unwrap().as_u32(), 5);
    assert_eq!(treesync::treemath::sibling(NodeIndex::new(4), size).unwrap().as_u32(), 6);
    assert_eq!(
        treesync::treemath::parent(NodeIndex::new(3), size).err(),
        Some(TreeError::InvalidIndex)
    );
    assert_eq!(
        treesync::treemath::parent(NodeIndex::new(9), size).err(),
        Some(TreeError::InvalidIndex)
    );
}

// A five-leaf tree is left-balanced: the last leaf hangs one level up.
#[test]
fn five_leaf_treemath() {
    let size = LeafIndex::new(5);
    assert_eq!(treesync::treemath::root(size).as_u32(), 7);
    let dp = treesync::treemath::direct_path(LeafIndex::new(4), size).unwrap();
    let dp_raw: Vec<u32> = dp.iter().map(|n| n.as_u32()).collect();
    assert_eq!(dp_raw, vec![7]);
    let cp = treesync::treemath::copath(LeafIndex::new(4), size).unwrap();
    let cp_raw: Vec<u32> = cp.iter().map(|n| n.as_u32()).collect();
    assert_eq!(cp_raw, vec![3]);
}

// A truncated or stripped update path is rejected with the matching error.
#[test]
fn malformed_update_path_rejected() {
    let ids: [&[u8]; 4] = [b"m0", b"m1", b"m2", b"m3"];
    let mut sender_tree = group_tree(&ids);
    let public = sender_tree.export_nodes();
    let ctx = b"ctx".to_vec();
    let excluded: Vec<LeafIndex> = Vec::new();
    let mut diff = sender_tree.empty_diff();
    let (up, _commit) = diff
        .encrypt_path(seed(44), &excluded, &ctx)
        .expect("sender update failed");
    let staged = diff.into_staged_diff().expect("staging failed");
    sender_tree.merge_diff(staged);

    let (recv_tree, _c) = TreeSync::from_nodes_with_secrets(
        public.iter().map(|o| o.as_ref().map(clone_node)).collect(),
        LeafIndex::new(1),
        seed(2),
        LeafIndex::new(1),
        seed(0),
    )
    .expect("receiver could not rebuild the tree");

    // Too few path nodes: the path cannot belong to this sender.
    let mut truncated = treesync::treekem::UpdatePath {
        leaf_public_key: up.leaf_public_key.clone(),
        nodes: Vec::new(),
    };
    let mut rdiff = recv_tree.empty_diff();
    assert_eq!(
        rdiff
            .apply_update_path(LeafIndex::new(0), &truncated, &excluded, &ctx)
            .err(),
        Some(TreeError::UpdatePathMismatch)
    );

    // Right shape but no ciphertexts: nothing is addressed to the member.
    for n in up.nodes.iter() {
        truncated.nodes.push(treesync::treekem::UpdatePathNode {
            public_key: n.public_key.clone(),
            ciphertexts: Vec::new(),
        });
    }
    let mut rdiff2 = recv_tree.empty_diff();
    assert_eq!(
        rdiff2
            .apply_update_path(LeafIndex::new(0), &truncated, &excluded, &ctx)
            .err(),
        Some(TreeError::PathCryptoError)
    );
}

// An expected tree hash is accepted exactly when it matches.
#[test]
fn tree_hash_verification() {
    let ids: [&[u8]; 3] = [b"m0", b"m1", b"m2"];
    let tree = group_tree(&ids);
    let good = tree.tree_hash();
    assert!(tree.verify_tree_hash(&good).is_ok());
    let mut bad = good.clone();
    bad[0] ^= 1;
    assert_eq!(tree.verify_tree_hash(&bad).err(), Some(TreeError::TreeHashMismatch));
}

// Blanking an absent member is refused.
#[test]
fn unknown_member_removal() {
    let ids: [&[u8]; 3] = [b"m0", b"m1", b"m2"];
    let tree = group_tree(&ids);
    let mut diff = tree.empty_diff();
    assert_eq!(
        diff.blank_leaf(LeafIndex::new(7)).err(),
        Some(TreeError::UnknownMemberRemoval)
    );
    diff.blank_leaf(LeafIndex::new(1)).expect("first removal works");
    assert_eq!(
        diff.blank_leaf(LeafIndex::new(1)).err(),
        Some(TreeError::UnknownMemberRemoval)
    );
}

// The generated scenario removes a member and adds the joiner in its
// place: the blanked slot is reused, the array does not grow.
#[test]
fn generated_vector_reuses_slot() {
    let tv = generate_test_vector(4).expect("could not build a vector");
    let bytes = hex_to_bytes(&tv.ratchet_tree_before).expect("hex");
    let nodes = treesync::codec::decode_nodes(&bytes).expect("decode");
    assert_eq!(nodes.len(), 7);
    let secret = hex_to_bytes(&tv.my_leaf_secret).expect("hex");
    let (joiner_pk, _) = derive_keypair(&secret).expect("derive");
    let mut at = None;
    for (i, slot) in nodes.iter().enumerate() {
        if let Some(Node::Leaf(l)) = slot {
            if l.public_key == joiner_pk {
                at = Some(i);
            }
        }
    }
    // the member removed before the add sat at leaf 2, slot 4
    assert_eq!(at, Some(4));
}
