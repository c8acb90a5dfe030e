use merkle_tree::{Digest, MerkleError, MerkleTree, Position};
use sha2::Digest as _;
use sha2::Sha256;

/// SHA-256 of raw bytes, as the library's digest value.
fn h(data: &[u8]) -> Digest {
    let bytes: [u8; 32] = Sha256::digest(data).into();
    Digest { bytes }
}

/// SHA-256 of the concatenation of two digests.
fn h2(a: &Digest, b: &Digest) -> Digest {
    let mut buf = Vec::new();
    buf.extend_from_slice(&a.bytes);
    buf.extend_from_slice(&b.bytes);
    h(&buf)
}

fn items(strs: &[&str]) -> Vec<Vec<u8>> {
    strs.iter().map(|s| s.as_bytes().to_vec()).collect()
}

#[test]
fn small_trees() {
    let ha = h(b"A");
    let hb = h(b"B");
    let hc = h(b"C");
    let hab = h2(&ha, &hb);
    let habc = h2(&hab, &hc);

    // smallest: one-element tree
    let data = items(&["A"]);
    let tree = MerkleTree::build(&data).unwrap();
    assert_eq!(tree.root_hash().unwrap(), ha);

    // smallest with children: two-element tree
    let data = items(&["A", "B"]);
    let tree = MerkleTree::build(&data).unwrap();
    assert_eq!(tree.root_hash().unwrap(), hab);

    // smallest unbalanced: three-element tree
    let data = items(&["A", "B", "C"]);
    let tree = MerkleTree::build(&data).unwrap();
    assert_eq!(tree.root_hash().unwrap(), habc);
}

#[test]
fn it_works() {
    let data = items(&["A", "B", "C", "D", "E"]);
    let tree = MerkleTree::build(&data).unwrap();

    let ha = h(b"A");
    let hb = h(b"B");
    let hc = h(b"C");
    let hd = h(b"D");
    let he = h(b"E");

    let hab = h2(&ha, &hb);
    let hcd = h2(&hc, &hd);
    let habcd = h2(&hab, &hcd);

    let root_hash = h2(&habcd, &he);

    //                                  root_hash = H(habcd + he)
    //                                   /                    \
    //                    habcd = H(hab + hcd)               he = H(E)
    //                     /                \
    //       hab = H(ha + hb)            hcd = H(hc + hd)
    //       /             \             /             \
    //   ha = H("A")    hb = H("B")  hc = H("C")    hd = H("D")
    assert_eq!(tree.root_hash().unwrap(), root_hash);
    if let MerkleTree::NonEmpty(node) = tree {
        if let (MerkleTree::NonEmpty(lnode), MerkleTree::NonEmpty(rnode)) =
            (&node.left, &node.right)
        {
            assert_eq!(lnode.element, habcd);
            assert_eq!(rnode.element, he);
        }
    } else {
        panic!("Tree can't be empty");
    }
}

#[test]
fn leaf_count() {
    let tree = MerkleTree::Empty;
    assert_eq!(tree.leaf_count(), 0);

    let data = items(&["A"]);
    let tree = MerkleTree::build(&data).unwrap();
    assert_eq!(tree.leaf_count(), 1);

    let data = items(&["A", "B", "C", "D", "E"]);
    let tree = MerkleTree::build(&data).unwrap();
    assert_eq!(tree.leaf_count(), 5);
}

#[test]
fn get_proof() {
    let data = items(&["A", "B", "C", "D", "E"]);
    let tree = MerkleTree::build(&data).unwrap();
    let proof = tree.get_proof(2).unwrap();

    let ha = h(b"A");
    let hb = h(b"B");
    let hd = h(b"D");
    let he = h(b"E");
    let hab = h2(&ha, &hb);

    //                root
    //              //    \
    //          habcd      he
    //         /     \\
    //      hab       hcd
    //     /   \     //  \
    //   ha     hb  hc    hd
    //
    // The path to index 2 or "C" is marked with // or \\. To
    // verify, we need the hashes from the siblings of the nodes
    // in the path: hd, hab, and he.
    let mut proof_iter = proof.iter();

    let (pos, hash) = proof_iter.next().unwrap();
    assert_eq!(pos, &Position::Right);
    assert_eq!(*hash, hd);

    let (pos, hash) = proof_iter.next().unwrap();
    assert_eq!(pos, &Position::Left);
    assert_eq!(*hash, hab);

    let (pos, hash) = proof_iter.next().unwrap();
    assert_eq!(pos, &Position::Right);
    assert_eq!(*hash, he);
}

#[test]
fn it_validates() {
    let data = items(&["A", "BC", "DEF"]);

    // Calls all public API functions of MerkleTree
    let tree = MerkleTree::build(&data).unwrap();
    let proof = tree.get_proof(1).unwrap();
    let root = tree.root_hash().unwrap();
    assert!(MerkleTree::validate(b"BC", &proof, &root));
}

#[test]
fn empty_input_is_rejected() {
    let data: Vec<Vec<u8>> = Vec::new();
    assert_eq!(MerkleTree::build(&data).unwrap_err(), MerkleError::EmptyInput);
}

#[test]
fn empty_tree_has_no_root() {
    let tree = MerkleTree::Empty;
    assert_eq!(tree.root_hash(), Err(MerkleError::EmptyTree));
}

#[test]
fn proof_index_out_of_bounds() {
    let data = items(&["A", "B", "C", "D", "E"]);
    let tree = MerkleTree::build(&data).unwrap();
    assert_eq!(
        tree.get_proof(5),
        Err(MerkleError::IndexOutOfBounds { index: 5, leaf_count: 5 })
    );
    assert_eq!(
        tree.get_proof(100),
        Err(MerkleError::IndexOutOfBounds { index: 100, leaf_count: 5 })
    );

    let empty = MerkleTree::Empty;
    assert_eq!(
        empty.get_proof(0),
        Err(MerkleError::IndexOutOfBounds { index: 0, leaf_count: 0 })
    );
}

#[test]
fn leaf_count_matches_input_length() {
    let names = ["A", "B", "C", "D", "E", "F", "G", "H", "I"];
    for n in 1..=names.len() {
        let data = items(&names[..n]);
        let tree = MerkleTree::build(&data).unwrap();
        assert_eq!(tree.leaf_count(), n);
    }
}

#[test]
fn building_twice_is_deterministic() {
    let names = ["A", "B", "C", "D", "E", "F", "G"];
    for n in 1..=names.len() {
        let data = items(&names[..n]);
        let first = MerkleTree::build(&data).unwrap().root_hash().unwrap();
        let second = MerkleTree::build(&data).unwrap().root_hash().unwrap();
        assert_eq!(first, second);
    }
}

#[test]
fn every_leaf_proof_validates() {
    let names = ["A", "B", "C", "D", "E", "F", "G", "H", "I"];
    for n in 1..=names.len() {
        let data = items(&names[..n]);
        let tree = MerkleTree::build(&data).unwrap();
        let root = tree.root_hash().unwrap();
        for i in 0..n {
            let proof = tree.get_proof(i).unwrap();
            assert!(MerkleTree::validate(&data[i], &proof, &root));
        }
    }
}

#[test]
fn tampered_leaf_is_detected() {
    let data = items(&["apple", "banana", "cherry", "damson", "elder"]);
    let tree = MerkleTree::build(&data).unwrap();
    let root = tree.root_hash().unwrap();
    for i in 0..data.len() {
        let proof = tree.get_proof(i).unwrap();
        for byte in 0..data[i].len() {
            for flip in [0x01u8, 0x80u8] {
                let mut tampered = data[i].clone();
                tampered[byte] ^= flip;
                assert!(!MerkleTree::validate(&tampered, &proof, &root));
            }
        }
    }
}

#[test]
fn scenario_proof_for_third_item() {
    let data = items(&["A", "B", "C", "D", "E"]);
    let tree = MerkleTree::build(&data).unwrap();
    let root = tree.root_hash().unwrap();

    let ha = h(b"A");
    let hb = h(b"B");
    let hd = h(b"D");
    let he = h(b"E");
    let hab = h2(&ha, &hb);

    let proof = tree.get_proof(2).unwrap();
    assert_eq!(
        proof,
        vec![(Position::Right, hd), (Position::Left, hab), (Position::Right, he)]
    );
    assert!(MerkleTree::validate(b"C", &proof, &root));
}

#[test]
fn scenario_single_item() {
    let data = items(&["A"]);
    let tree = MerkleTree::build(&data).unwrap();
    assert_eq!(tree.leaf_count(), 1);
    let root = tree.root_hash().unwrap();
    assert_eq!(root, h(b"A"));
    let proof = tree.get_proof(0).unwrap();
    assert!(proof.is_empty());
    assert!(MerkleTree::validate(b"A", &proof, &root));
    assert!(!MerkleTree::validate(b"B", &proof, &root));
}

#[test]
fn scenario_three_items_carry() {
    let data = items(&["A", "B", "C"]);
    let tree = MerkleTree::build(&data).unwrap();
    assert_eq!(tree.leaf_count(), 3);

    let ha = h(b"A");
    let hb = h(b"B");
    let hc = h(b"C");
    let hab = h2(&ha, &hb);
    let root = tree.root_hash().unwrap();
    assert_eq!(root, h2(&hab, &hc));

    // The carried third leaf proves with a single Left step.
    let proof = tree.get_proof(2).unwrap();
    assert_eq!(proof, vec![(Position::Left, hab)]);
    assert!(MerkleTree::validate(b"C", &proof, &root));
}

#[test]
fn mismatched_proof_yields_false() {
    let data = items(&["A", "B", "C", "D", "E"]);
    let tree = MerkleTree::build(&data).unwrap();
    let root = tree.root_hash().unwrap();

    // A proof for one index does not validate another item.
    let proof = tree.get_proof(2).unwrap();
    assert!(!MerkleTree::validate(b"D", &proof, &root));

    // An empty proof claims the leaf digest is the root itself.
    let empty_proof = Vec::new();
    assert!(!MerkleTree::validate(b"C", &empty_proof, &root));
}
