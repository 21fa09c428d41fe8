use num_bigint::BigInt;
use zero_knowledge_proofs::field::FieldElement;
use zero_knowledge_proofs::merkle::MerkleTree;

fn bigs(values: &[i64]) -> Vec<BigInt> {
    values.iter().map(|v| BigInt::from(*v)).collect()
}

fn replay(leaf: &BigInt, path: &[(BigInt, bool)]) -> BigInt {
    let mut node = leaf.clone();
    for (sibling, is_left) in path {
        node = if *is_left {
            MerkleTree::hash(&node, sibling)
        } else {
            MerkleTree::hash(sibling, &node)
        };
    }
    node
}

#[test]
fn root_of_four_leaves() {
    let tree = MerkleTree::new(bigs(&[10, 20, 50, 80]));
    assert_eq!(tree.root, BigInt::from(160));
    assert_eq!(tree.leaves, bigs(&[10, 20, 50, 80]));
    assert_eq!(MerkleTree::compute_root(&bigs(&[10, 20, 50, 80])), BigInt::from(160));
}

#[test]
fn path_of_third_leaf_reaches_root() {
    let leaves = bigs(&[10, 20, 50, 80]);
    let tree = MerkleTree::new(leaves.clone());
    let path = tree.merkle_path(2);
    assert_eq!(path, vec![(BigInt::from(80), true), (BigInt::from(30), false)]);
    assert_eq!(replay(&leaves[2], &path), tree.root);
    assert_eq!(replay(&leaves[2], &path), MerkleTree::compute_root(&leaves));
}

#[test]
fn every_path_reaches_root() {
    for n in 1..9usize {
        let leaves: Vec<BigInt> = (0..n).map(|i| BigInt::from(1000 * i as i64 + 7)).collect();
        let tree = MerkleTree::new(leaves.clone());
        for i in 0..n {
            let path = tree.merkle_path(i);
            assert_eq!(replay(&leaves[i], &path), tree.root);
        }
    }
}

#[test]
fn unpaired_last_node_is_carried_up() {
    let tree = MerkleTree::new(bigs(&[1, 2, 3]));
    assert_eq!(tree.root, BigInt::from(6));
    assert_eq!(tree.merkle_path(2), vec![(BigInt::from(3), false)]);
    assert_eq!(
        tree.merkle_path(0),
        vec![(BigInt::from(2), true), (BigInt::from(3), true)]
    );
}

#[test]
fn single_leaf_is_its_own_root() {
    let tree = MerkleTree::new(bigs(&[42]));
    assert_eq!(tree.root, BigInt::from(42));
    assert!(tree.merkle_path(0).is_empty());
}

#[test]
fn path_of_a_position_outside_the_leaves() {
    let tree = MerkleTree::new(bigs(&[10, 20, 50, 80]));
    // position 4 is even and has no sibling; one level up it is position 2, also without one
    assert!(tree.merkle_path(4).is_empty());
    // position 5 is odd: its sibling would be position 4, which does not exist
    assert!(tree.merkle_path(5).is_empty());
}

#[test]
fn hash_is_a_truncated_remainder() {
    assert_eq!(MerkleTree::hash(&BigInt::from(10), &BigInt::from(20)), BigInt::from(30));
    assert_eq!(
        MerkleTree::hash(&BigInt::from(1_000_000_006), &BigInt::from(3)),
        BigInt::from(2)
    );
    assert_eq!(MerkleTree::hash(&BigInt::from(-5), &BigInt::from(2)), BigInt::from(-3));
    assert_eq!(
        MerkleTree::hash(&BigInt::from(-1_000_000_007), &BigInt::from(-1)),
        BigInt::from(-1)
    );
}

#[test]
fn root_reduces_large_sums() {
    let tree = MerkleTree::new(bigs(&[1_000_000_000, 1_000_000_000]));
    assert_eq!(tree.root, BigInt::from(999_999_993));
}

#[test]
fn apply_hash_adds_in_the_field() {
    let tree = MerkleTree::new(bigs(&[1]));
    let a = FieldElement::new(BigInt::from(1_000_000_000));
    let b = FieldElement::new(BigInt::from(10));
    assert_eq!(tree.apply_hash(&a, &b).get_value(), BigInt::from(3));
}
