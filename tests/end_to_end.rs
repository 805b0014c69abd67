use rand::seq::SliceRandom;
use verkle_tree::{Scalar, VerkleTree, VerkleTreeError};

fn values(n: u64, zero_odds: bool) -> Vec<Scalar> {
    (0..n).map(|v| Scalar::from_u64(if zero_odds && v % 2 == 1 { 0 } else { v })).collect()
}

fn claims(datas: &[Scalar], indices: &[usize]) -> Vec<Scalar> {
    indices.iter().map(|&i| datas[i]).collect()
}

#[test]
fn batch_width_three_odds_zeroed() {
    let datas = values(27, true);
    let tree = VerkleTree::new(&datas, 3).unwrap();
    assert_eq!(tree.depth(), 2);
    let indices: Vec<usize> = vec![1, 2, 6, 12, 15, 16, 25];
    let proof = tree.generate_batch_proof(indices.clone(), &datas).unwrap();
    let root = tree.root_commitment().unwrap();
    let claimed = claims(&datas, &indices);
    assert!(VerkleTree::batch_proof_verify(root.duplicate(), proof.clone(), 3, indices.clone(), 2, claimed.clone()));
    let mut wrong = claimed.clone();
    wrong[1] = Scalar::from_u64(3);
    assert!(!VerkleTree::batch_proof_verify(root, proof, 3, indices, 2, wrong));
}

#[test]
fn batch_width_five_odds_zeroed() {
    let datas = values(3125, true);
    let tree = VerkleTree::new(&datas, 5).unwrap();
    assert_eq!(tree.depth(), 4);
    let indices: Vec<usize> = vec![1, 2, 6, 12, 15, 16, 25, 33, 34, 35];
    let proof = tree.generate_batch_proof(indices.clone(), &datas).unwrap();
    let root = tree.root_commitment().unwrap();
    let claimed = claims(&datas, &indices);
    assert!(VerkleTree::batch_proof_verify(root, proof, 5, indices, 4, claimed));
}

#[test]
fn batch_width_two_random_subset() {
    let datas = values(4096, false);
    let tree = VerkleTree::new(&datas, 2).unwrap();
    assert_eq!(tree.depth(), 11);
    let all: Vec<usize> = (0..4096).collect();
    let indices: Vec<usize> = all.choose_multiple(&mut rand::thread_rng(), 6).cloned().collect();
    let proof = tree.generate_batch_proof(indices.clone(), &datas).unwrap();
    let root = tree.root_commitment().unwrap();
    let claimed = claims(&datas, &indices);
    assert!(VerkleTree::batch_proof_verify(root, proof, 2, indices, 11, claimed));
}

#[test]
fn single_width_four_every_index() {
    let datas = values(16, false);
    let tree = VerkleTree::new(&datas, 4).unwrap();
    let root = tree.root_commitment().unwrap();
    for index in 0..16 {
        let proof = tree.generate_proof(index, &datas[index]).unwrap();
        assert_eq!(proof.proofs.len(), 2);
        assert!(VerkleTree::verify_proof(root.duplicate(), &proof, 4));
        let mut forged = proof.clone();
        forged.proofs[1].point[0].1 = Scalar::from_u64(index as u64 + 100);
        assert!(!VerkleTree::verify_proof(root.duplicate(), &forged, 4));
    }
}

#[test]
fn single_width_eight_first_index() {
    let datas = values(4096, false);
    let tree = VerkleTree::new(&datas, 8).unwrap();
    assert_eq!(tree.depth(), 3);
    let proof = tree.generate_proof(0, &datas[0]).unwrap();
    assert!(VerkleTree::verify_proof(tree.root_commitment().unwrap(), &proof, 8));
}

#[test]
fn empty_values_build_error() {
    let datas: Vec<Scalar> = Vec::new();
    assert!(matches!(VerkleTree::new(&datas, 4), Err(VerkleTreeError::BuildError)));
}
