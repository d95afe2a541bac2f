use merkle_avl::Error;
use merkle_avl::MerkleAvlTree;
use merkle_avl::ProofNode;

#[test]
fn empty_tree_has_no_root_hash() {
    let tree = MerkleAvlTree::new();
    assert_eq!(tree.root_hash(), None);
    assert_eq!(tree.lookup(1), Err(Error::NotFound));
}

#[test]
fn scenario_three_inserts_proof_and_delete() {
    // Insert (10, "value10"), (20, "value20"), (5, "value5") in that order:
    // the tree is balanced at every step, no rotation occurs.
    let mut tree = MerkleAvlTree::new();
    tree.insert(10, "value10".to_string());
    tree.insert(20, "value20".to_string());
    tree.insert(5, "value5".to_string());

    assert_eq!(tree.lookup(10).unwrap(), "value10");

    let proof = tree.generate_proof(10).unwrap();
    let root_hash = tree.root_hash().unwrap();
    let (k, v) = MerkleAvlTree::verify_proof(&proof, root_hash).unwrap();
    assert_eq!(*k, 10);
    assert_eq!(v, "value10");

    assert_eq!(
        MerkleAvlTree::verify_proof(&proof, 123456789),
        Err(Error::InvalidProof)
    );

    tree.delete(10).unwrap();
    assert_eq!(tree.lookup(10), Err(Error::NotFound));
}

#[test]
fn proof_for_root_with_children_verifies() {
    // The target of the proof is the root, which has both children: the
    // leaf case must fold their digests in for the proof to verify.
    let mut tree = MerkleAvlTree::new();
    tree.insert(10, "value10".to_string());
    tree.insert(20, "value20".to_string());
    tree.insert(5, "value5".to_string());

    let proof = tree.generate_proof(10).unwrap();
    assert!(matches!(proof, ProofNode::Leaf(10, _, Some(_), Some(_))));
    let root_hash = tree.root_hash().unwrap();
    assert!(MerkleAvlTree::verify_proof(&proof, root_hash).is_ok());
}

#[test]
fn proof_for_deep_key_verifies() {
    let mut tree = MerkleAvlTree::new();
    for k in 1..=20 {
        tree.insert(k, format!("value{}", k));
    }
    let root_hash = tree.root_hash().unwrap();
    for k in 1..=20 {
        let proof = tree.generate_proof(k).unwrap();
        let (pk, pv) = MerkleAvlTree::verify_proof(&proof, root_hash).unwrap();
        assert_eq!(*pk, k);
        assert_eq!(pv, &format!("value{}", k));
    }
}

#[test]
fn proof_for_absent_key_does_not_verify() {
    let mut tree = MerkleAvlTree::new();
    tree.insert(10, "value10".to_string());
    tree.insert(20, "value20".to_string());

    let proof = tree.generate_proof(15).unwrap();
    let root_hash = tree.root_hash().unwrap();
    assert_eq!(
        MerkleAvlTree::verify_proof(&proof, root_hash),
        Err(Error::InvalidProof)
    );
}

#[test]
fn bare_absence_marker_does_not_verify() {
    let mut tree = MerkleAvlTree::new();
    tree.insert(10, "value10".to_string());
    let root_hash = tree.root_hash().unwrap();
    assert_eq!(
        MerkleAvlTree::verify_proof(&ProofNode::Empty, root_hash),
        Err(Error::InvalidProof)
    );
}

#[test]
fn reinsert_overwrites_value_and_moves_root_hash() {
    let mut tree = MerkleAvlTree::new();
    tree.insert(10, "value10".to_string());
    tree.insert(20, "value20".to_string());
    let before = tree.root_hash().unwrap();

    tree.insert(10, "fresh".to_string());
    assert_eq!(tree.lookup(10).unwrap(), "fresh");
    assert_eq!(tree.lookup(20).unwrap(), "value20");
    assert_ne!(tree.root_hash().unwrap(), before);

    tree.insert(10, "value10".to_string());
    assert_eq!(tree.root_hash().unwrap(), before);
}

#[test]
fn delete_absent_key_fails_and_changes_nothing() {
    let mut tree = MerkleAvlTree::new();
    tree.insert(10, "value10".to_string());
    tree.insert(20, "value20".to_string());
    let before = tree.root_hash();

    assert_eq!(tree.delete(15), Err(Error::NotFound));
    assert_eq!(tree.root_hash(), before);
    assert_eq!(tree.lookup(10).unwrap(), "value10");
    assert_eq!(tree.lookup(20).unwrap(), "value20");
}

#[test]
fn delete_node_with_two_children() {
    let mut tree = MerkleAvlTree::new();
    tree.insert(10, "value10".to_string());
    tree.insert(5, "value5".to_string());
    tree.insert(20, "value20".to_string());

    tree.delete(10).unwrap();
    assert_eq!(tree.lookup(10), Err(Error::NotFound));
    assert_eq!(tree.lookup(5).unwrap(), "value5");
    assert_eq!(tree.lookup(20).unwrap(), "value20");

    let root_hash = tree.root_hash().unwrap();
    let proof = tree.generate_proof(20).unwrap();
    assert!(MerkleAvlTree::verify_proof(&proof, root_hash).is_ok());
}

#[test]
fn ascending_and_descending_inserts_stay_consistent() {
    // Ascending and then descending runs force every rotation case.
    let mut tree = MerkleAvlTree::new();
    for k in 1..=64 {
        tree.insert(k, format!("value{}", k));
    }
    for k in (-64..=0).rev() {
        tree.insert(k, format!("value{}", k));
    }
    for k in -64..=64 {
        assert_eq!(tree.lookup(k).unwrap(), &format!("value{}", k));
    }
    for k in 1..=32 {
        tree.delete(k * 2).unwrap();
    }
    for k in 1..=64 {
        if k % 2 == 0 {
            assert_eq!(tree.lookup(k), Err(Error::NotFound));
        } else {
            assert_eq!(tree.lookup(k).unwrap(), &format!("value{}", k));
        }
    }
    let root_hash = tree.root_hash().unwrap();
    let proof = tree.generate_proof(-33).unwrap();
    let (k, v) = MerkleAvlTree::verify_proof(&proof, root_hash).unwrap();
    assert_eq!(*k, -33);
    assert_eq!(v, "value-33");
}

#[test]
fn tampered_proof_value_does_not_verify() {
    let mut tree = MerkleAvlTree::new();
    tree.insert(10, "value10".to_string());
    tree.insert(20, "value20".to_string());
    tree.insert(5, "value5".to_string());
    let root_hash = tree.root_hash().unwrap();

    let proof = tree.generate_proof(5).unwrap();
    let tampered = match proof {
        ProofNode::Left(k, _, dr, rest) => ProofNode::Left(k, "other".to_string(), dr, rest),
        other => other,
    };
    assert_eq!(
        MerkleAvlTree::verify_proof(&tampered, root_hash),
        Err(Error::InvalidProof)
    );
}
