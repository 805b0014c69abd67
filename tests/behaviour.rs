use verkle_tree::{ProofNode, Scalar, VerkleTree, VerkleTreeError};

fn values(n: u64) -> Vec<Scalar> {
    (0..n).map(|v| Scalar::from_u64(v * v + 3)).collect()
}

fn claims(datas: &[Scalar], indices: &[usize]) -> Vec<Scalar> {
    indices.iter().map(|&i| datas[i]).collect()
}

fn pattern(proof: &[Option<ProofNode>]) -> Vec<Option<Vec<(Scalar, Scalar)>>> {
    proof.iter().map(|s| s.as_ref().map(|n| n.point.clone())).collect()
}

#[test]
fn build_rejects_bad_shapes() {
    assert!(matches!(VerkleTree::new(&values(10), 3), Err(VerkleTreeError::BuildError)));
    assert!(matches!(VerkleTree::new(&values(4), 1), Err(VerkleTreeError::BuildError)));
    assert!(matches!(VerkleTree::new(&values(4), 0), Err(VerkleTreeError::BuildError)));
    assert!(VerkleTree::new(&values(9), 3).is_ok());
    assert!(VerkleTree::new(&values(2), 3).is_ok());
}

#[test]
fn depth_follows_length() {
    assert_eq!(VerkleTree::new(&values(3), 4).unwrap().depth(), 0);
    assert_eq!(VerkleTree::new(&values(4), 4).unwrap().depth(), 0);
    assert_eq!(VerkleTree::new(&values(16), 4).unwrap().depth(), 1);
    assert_eq!(VerkleTree::new(&values(64), 4).unwrap().depth(), 2);
    assert_eq!(VerkleTree::new(&values(8), 2).unwrap().depth(), 2);
}

#[test]
fn root_present_and_value_dependent() {
    let a = VerkleTree::new(&values(9), 3).unwrap();
    let mut other = values(9);
    other[4] = Scalar::from_u64(1000);
    let b = VerkleTree::new(&other, 3).unwrap();
    let ra = a.root_commitment().unwrap();
    let rb = b.root_commitment().unwrap();
    assert!(!ra.same_as(&rb));
    assert!(ra.same_as(&VerkleTree::new(&values(9), 3).unwrap().root_commitment().unwrap()));
}

#[test]
fn single_proof_small_tree() {
    let datas = values(3);
    let tree = VerkleTree::new(&datas, 4).unwrap();
    let proof = tree.generate_proof(2, &datas[2]).unwrap();
    assert_eq!(proof.proofs.len(), 1);
    assert!(VerkleTree::verify_proof(tree.root_commitment().unwrap(), &proof, 4));
}

#[test]
fn single_proof_wrong_value_fails() {
    let datas = values(9);
    let tree = VerkleTree::new(&datas, 3).unwrap();
    assert!(matches!(
        tree.generate_proof(5, &Scalar::from_u64(7)),
        Err(VerkleTreeError::ProofGenerateError)
    ));
    assert!(tree.generate_proof(5, &datas[5]).is_ok());
}

#[test]
fn single_proof_root_and_link_tampering() {
    let datas = values(27);
    let tree = VerkleTree::new(&datas, 3).unwrap();
    let other = VerkleTree::new(&values(9), 3).unwrap();
    let root = tree.root_commitment().unwrap();
    let proof = tree.generate_proof(14, &datas[14]).unwrap();
    assert!(VerkleTree::verify_proof(root.duplicate(), &proof, 3));
    assert!(!VerkleTree::verify_proof(other.root_commitment().unwrap(), &proof, 3));
    let mut linked = proof.clone();
    linked.proofs[0].point[0].1 = Scalar::from_u64(1);
    assert!(!VerkleTree::verify_proof(root.duplicate(), &linked, 3));
    let mut moved = proof.clone();
    moved.proofs[1].point[0].0 = Scalar::from_u64(3);
    assert!(!VerkleTree::verify_proof(root.duplicate(), &moved, 3));
    let empty = verkle_tree::VerkleProof { proofs: Vec::new() };
    assert!(!VerkleTree::verify_proof(root, &empty, 3));
}

#[test]
fn batch_proof_shape() {
    let datas = values(27);
    let tree = VerkleTree::new(&datas, 3).unwrap();
    let proof = tree.generate_batch_proof(vec![4, 22], &datas).unwrap();
    assert_eq!(proof.len(), 13);
    let present: Vec<usize> = (0..13).filter(|&k| proof[k].is_some()).collect();
    assert_eq!(present, vec![0, 1, 3, 5, 11]);
    let leaf = proof[5].as_ref().unwrap();
    assert_eq!(leaf.point, vec![(Scalar::from_u64(1), datas[4])]);
    let root = proof[0].as_ref().unwrap();
    let positions: Vec<Scalar> = root.point.iter().map(|p| p.0).collect();
    assert_eq!(positions, vec![Scalar::from_u64(0), Scalar::from_u64(2)]);
}

#[test]
fn batch_proof_canonical() {
    let datas = values(27);
    let tree = VerkleTree::new(&datas, 3).unwrap();
    let a = tree.generate_batch_proof(vec![16, 2, 25, 2], &datas).unwrap();
    let b = tree.generate_batch_proof(vec![2, 25, 16], &datas).unwrap();
    assert_eq!(pattern(&a), pattern(&b));
    assert_eq!(format!("{:?}", a), format!("{:?}", b));
}

#[test]
fn batch_proof_wrong_data_fails() {
    let datas = values(9);
    let tree = VerkleTree::new(&datas, 3).unwrap();
    let mut wrong = datas.clone();
    wrong[7] = Scalar::from_u64(0);
    assert!(matches!(
        tree.generate_batch_proof(vec![1, 7], &wrong),
        Err(VerkleTreeError::ProofGenerateError)
    ));
    assert!(tree.generate_batch_proof(vec![1, 8], &wrong).is_ok());
}

#[test]
fn batch_verify_rejections() {
    let datas = values(27);
    let tree = VerkleTree::new(&datas, 3).unwrap();
    let indices = vec![5, 9, 26];
    let proof = tree.generate_batch_proof(indices.clone(), &datas).unwrap();
    let root = tree.root_commitment().unwrap();
    let claimed = claims(&datas, &indices);
    assert!(VerkleTree::batch_proof_verify(root.duplicate(), proof.clone(), 3, indices.clone(), 2, claimed.clone()));
    // another root
    let other = VerkleTree::new(&values(9), 3).unwrap().root_commitment().unwrap();
    assert!(!VerkleTree::batch_proof_verify(other, proof.clone(), 3, indices.clone(), 2, claimed.clone()));
    // a tampered link in an internal slot
    let mut linked = proof.clone();
    linked[0].as_mut().unwrap().point[0].1 = Scalar::from_u64(42);
    assert!(!VerkleTree::batch_proof_verify(root.duplicate(), linked, 3, indices.clone(), 2, claimed.clone()));
    // a missing slot
    let mut holed = proof.clone();
    holed[1] = None;
    assert!(!VerkleTree::batch_proof_verify(root.duplicate(), holed, 3, indices.clone(), 2, claimed.clone()));
    // other indices than the proof's
    assert!(!VerkleTree::batch_proof_verify(root.duplicate(), proof.clone(), 3, vec![5, 9, 25], 2, claimed.clone()));
    // claims out of range, or of another length
    assert!(!VerkleTree::batch_proof_verify(root.duplicate(), proof.clone(), 3, vec![5, 9, 27], 2, claimed.clone()));
    assert!(!VerkleTree::batch_proof_verify(root.duplicate(), proof.clone(), 3, indices.clone(), 2, claimed[..2].to_vec()));
    // a wrong shape
    assert!(!VerkleTree::batch_proof_verify(root, proof, 3, indices, 1, claimed));
}

#[test]
fn scalar_construction() {
    assert_eq!(Scalar::from_i64(5), Scalar::from_u64(5));
    assert_ne!(Scalar::from_i64(-1), Scalar::from_u64(1));
    assert!(Scalar::from_u64(3).is_below(4));
    assert!(!Scalar::from_u64(4).is_below(4));
    assert!(!Scalar::from_i64(-1).is_below(u64::MAX));
    assert!(Scalar::from_u64(9).same_value(&Scalar::from_i64(9)));
}

fn scalars(v: &[u64]) -> Vec<Scalar> {
    v.iter().map(|&x| Scalar::from_u64(x)).collect()
}

#[test]
fn build_rejects_cancelling_interpolation() {
    assert!(matches!(VerkleTree::new(&scalars(&[2, 1, 5]), 3), Err(VerkleTreeError::BuildError)));
    assert!(VerkleTree::new(&scalars(&[4, 1, 6]), 3).is_ok());
}

#[test]
fn batch_proof_rejects_cancelling_opening() {
    let datas = scalars(&[1, 1, 1, 1]);
    let tree = VerkleTree::new(&datas, 2).unwrap();
    assert!(matches!(
        tree.generate_batch_proof(vec![0, 1], &datas),
        Err(VerkleTreeError::ProofGenerateError)
    ));
    let mut wide = scalars(&[2, 1, 5, 7]);
    wide.extend(values(12));
    let tree = VerkleTree::new(&wide, 4).unwrap();
    assert!(matches!(
        tree.generate_batch_proof(vec![0, 1, 2], &wide),
        Err(VerkleTreeError::ProofGenerateError)
    ));
    assert!(tree.generate_batch_proof(vec![0, 1], &wide).is_ok());
}

#[test]
fn batch_verify_rejects_cancelling_points() {
    let mut datas = scalars(&[4, 1, 6]);
    datas.extend(values(6));
    let tree = VerkleTree::new(&datas, 3).unwrap();
    let indices = vec![0, 1, 2];
    let proof = tree.generate_batch_proof(indices.clone(), &datas).unwrap();
    let root = tree.root_commitment().unwrap();
    assert!(VerkleTree::batch_proof_verify(root.duplicate(), proof.clone(), 3, indices.clone(), 1, claims(&datas, &indices)));
    let mut forged = proof.clone();
    let leaf = forged[1].as_mut().unwrap();
    leaf.point[0].1 = Scalar::from_u64(2);
    leaf.point[2].1 = Scalar::from_u64(5);
    let forged_claims = scalars(&[2, 1, 5]);
    assert!(!VerkleTree::batch_proof_verify(root, forged, 3, indices, 1, forged_claims));
}
