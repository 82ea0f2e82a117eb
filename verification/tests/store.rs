use treesync::codec::{decode_nodes, encode_nodes};
use treesync::crypto::derive_keypair;
use treesync::index::{LeafIndex, NodeIndex};
use treesync::kat::{bytes_to_hex, hex_to_bytes};
use treesync::keystore::PersistentKeyStore;
use treesync::node::{LeafNode, Node, ParentNode};

// A derived key pair survives the store: the private key read back under
// the public key equals the one written.
#[test]
fn crypto() {
    let key_pair = derive_keypair(&[7; 32]).unwrap();

    let mut store = PersistentKeyStore::new();
    store.store(&key_pair.0, &key_pair.1).unwrap();

    let private_key = store.read(&key_pair.0).unwrap();
    assert_eq!(private_key, key_pair.1);
}

#[test]
fn store_replaces_and_deletes() {
    let mut store = PersistentKeyStore::new();
    store.store(&vec![1, 2], &vec![10]).unwrap();
    store.store(&vec![3, 4], &vec![20]).unwrap();
    store.store(&vec![1, 2], &vec![30]).unwrap();
    assert_eq!(store.read(&vec![1, 2]), Some(vec![30]));
    assert_eq!(store.read(&vec![3, 4]), Some(vec![20]));
    assert_eq!(store.read(&vec![9, 9]), None);
    store.delete(&vec![1, 2]).unwrap();
    assert_eq!(store.read(&vec![1, 2]), None);
    assert_eq!(store.read(&vec![3, 4]), Some(vec![20]));
}

// The file form is base64 pairs and rebuilds an equivalent store.
#[test]
fn store_file_form_round_trip() {
    let mut store = PersistentKeyStore::new();
    store.store(&vec![0xff], &vec![0x00, 0x10]).unwrap();
    let pairs = store.to_serializable();
    assert_eq!(pairs.len(), 1);
    assert_eq!(pairs[0].0, "/w==");
    assert_eq!(pairs[0].1, "ABA=");
    let rebuilt = PersistentKeyStore::from_serializable(&pairs).unwrap();
    assert_eq!(rebuilt.read(&vec![0xff]), Some(vec![0x00, 0x10]));
}

#[test]
fn node_index_parity() {
    let even = NodeIndex::new(6);
    let odd = NodeIndex::new(5);
    assert_eq!(even.as_u32(), 6);
    assert_eq!(even.as_usize(), 6);
    assert!(even.is_leaf());
    assert!(!even.is_parent());
    assert!(odd.is_parent());
    assert!(!odd.is_leaf());
}

#[test]
fn leaf_index_conversions() {
    let l = LeafIndex::new(3);
    assert_eq!(l.as_u32(), 3);
    assert_eq!(l.as_usize(), 3);
    assert_eq!(l.to_node_index().as_u32(), 6);
    assert_eq!(LeafIndex::try_from(NodeIndex::new(6)).unwrap().as_u32(), 3);
    assert!(LeafIndex::try_from(NodeIndex::new(5)).is_err());
}

// The wire codec: whatever decodes re-encodes to the very same bytes, and
// encoding a node sequence decodes back to it.
#[test]
fn node_codec_round_trip() {
    let nodes: Vec<Option<Node>> = vec![
        Some(Node::Leaf(LeafNode {
            public_key: vec![1, 2, 3],
            identity: vec![4, 5],
            private_key: None,
        })),
        Some(Node::Parent(ParentNode {
            public_key: vec![6],
            parent_hash: vec![7, 8, 9, 10],
            private_key: None,
        })),
        None,
    ];
    let bytes = encode_nodes(&nodes).unwrap();
    let decoded = decode_nodes(&bytes).unwrap();
    let re_encoded = encode_nodes(&decoded).unwrap();
    assert_eq!(bytes, re_encoded);
    assert_eq!(decoded.len(), 3);
    match &decoded[0] {
        Some(Node::Leaf(l)) => {
            assert_eq!(l.public_key, vec![1, 2, 3]);
            assert_eq!(l.identity, vec![4, 5]);
            assert!(l.private_key.is_none());
        },
        _ => panic!("expected a leaf"),
    }
    match &decoded[1] {
        Some(Node::Parent(p)) => {
            assert_eq!(p.public_key, vec![6]);
            assert_eq!(p.parent_hash, vec![7, 8, 9, 10]);
        },
        _ => panic!("expected a parent"),
    }
    assert!(decoded[2].is_none());
}

#[test]
fn node_codec_rejects_garbage() {
    assert!(decode_nodes(&vec![1, 2, 3]).is_err());
    assert!(decode_nodes(&vec![0, 0, 0, 1, 9]).is_err());
    // trailing bytes after the counted nodes are refused
    assert!(decode_nodes(&vec![0, 0, 0, 1, 0, 0]).is_err());
}

#[test]
fn hex_round_trip() {
    let bytes = vec![0x00, 0x0f, 0xa5, 0xff];
    let s = bytes_to_hex(&bytes);
    assert_eq!(s, "000fa5ff");
    assert_eq!(hex_to_bytes(&s).unwrap(), bytes);
    assert!(hex_to_bytes("abc").is_err());
    assert!(hex_to_bytes("zz").is_err());
}

// Rebuilding from the file form: the later binding of a key wins, and an
// entry that is not base64 is refused.
#[test]
fn store_file_form_replay() {
    let pairs = vec![
        ("/w==".to_string(), "AA==".to_string()),
        ("AQ==".to_string(), "Ag==".to_string()),
        ("/w==".to_string(), "Aw==".to_string()),
    ];
    let rebuilt = PersistentKeyStore::from_serializable(&pairs).unwrap();
    assert_eq!(rebuilt.read(&vec![0xff]), Some(vec![3]));
    assert_eq!(rebuilt.read(&vec![1]), Some(vec![2]));

    let bad = vec![("not base64!".to_string(), "AA==".to_string())];
    assert!(PersistentKeyStore::from_serializable(&bad).is_err());
}
