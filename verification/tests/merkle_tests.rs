use blake2::{Blake2s256, Digest};
use stark_fri::merkle_tree::Merkle;

fn leaf(tag: u8) -> Vec<u8> {
    vec![tag; 32]
}

#[test]
fn round_trip_verifies_every_leaf() {
    for count in [1usize, 2, 4, 8] {
        let leaves: Vec<Vec<u8>> = (0..count).map(|i| leaf(i as u8)).collect();
        let root = Merkle::commit_(&leaves);
        assert_eq!(root.len(), 32);
        for i in 0..count {
            let path = Merkle::open_(i, &leaves);
            assert!(Merkle::verify_(&root, i, &path, &leaves[i]));
        }
    }
}

#[test]
fn single_leaf_root_is_the_leaf() {
    let leaves = vec![leaf(7)];
    let root = Merkle::commit_(&leaves);
    assert_eq!(root, leaf(7));
    let path = Merkle::open_(0, &leaves);
    assert!(path.is_empty());
    assert!(Merkle::verify_(&root, 0, &path, &leaf(7)));
}

#[test]
fn pair_root_matches_direct_hash() {
    // the tree of two leaves is one digest of their concatenation
    let leaves = vec![leaf(1), leaf(2)];
    let root = Merkle::commit_(&leaves);
    let direct: Vec<u8> = Blake2s256::digest(Merkle::concat(&leaf(1), &leaf(2))).to_vec();
    assert_eq!(root, direct);
}

#[test]
fn tampered_leaf_is_rejected() {
    let leaves: Vec<Vec<u8>> = (0..4).map(|i| leaf(i as u8)).collect();
    let root = Merkle::commit_(&leaves);
    for i in 0..4 {
        let path = Merkle::open_(i, &leaves);
        for byte in 0..32 {
            let mut bad = leaves[i].clone();
            bad[byte] ^= 1;
            assert!(!Merkle::verify_(&root, i, &path, &bad));
        }
    }
}

#[test]
fn tampered_path_is_rejected() {
    let leaves: Vec<Vec<u8>> = (0..4).map(|i| leaf(i as u8)).collect();
    let root = Merkle::commit_(&leaves);
    let path = Merkle::open_(2, &leaves);
    for level in 0..path.len() {
        for byte in 0..32 {
            let mut bad = path.clone();
            bad[level][byte] ^= 1;
            assert!(!Merkle::verify_(&root, 2, &bad, &leaves[2]));
        }
    }
}

#[test]
fn out_of_range_index_is_rejected() {
    let leaves: Vec<Vec<u8>> = (0..4).map(|i| leaf(i as u8)).collect();
    let root = Merkle::commit_(&leaves);
    let path = Merkle::open_(1, &leaves);
    // the path describes a tree of four leaves, so indices beyond it fail
    assert!(!Merkle::verify_(&root, 4, &path, &leaves[1]));
    assert!(!Merkle::verify_(&root, 100, &path, &leaves[1]));
}

#[test]
fn wrong_index_is_rejected() {
    let leaves: Vec<Vec<u8>> = (0..4).map(|i| leaf(i as u8)).collect();
    let root = Merkle::commit_(&leaves);
    let path = Merkle::open_(1, &leaves);
    assert!(!Merkle::verify_(&root, 2, &path, &leaves[1]));
}

#[test]
fn concat_joins_byte_strings() {
    assert_eq!(Merkle::concat(&vec![1, 2], &vec![3]), vec![1, 2, 3]);
    assert_eq!(Merkle::concat(&vec![], &vec![]), Vec::<u8>::new());
}
