use rand::Rng;
use verkle_tree::{Scalar, VerkleTree, VerkleTreeError};

fn build_verkle_tree() -> (VerkleTree, Vec<Scalar>, usize) {
    let mut datas: Vec<Scalar> = Vec::new();
    let width: usize = 6;
    for _i in 0..i32::pow(width as i32, 5) {
        datas.push(Scalar::from_u64(rand::thread_rng().gen_range(0..=u32::pow(10, 8)) as u64));
    }
    let tree = VerkleTree::new(&datas, width).unwrap();
    (tree, datas, width)
}

#[test]
fn test_build_tree() {
    let (tree, _, _) = build_verkle_tree();
    assert!(tree.root_commitment().is_some(), "Failed building verkle tree");
}

#[test]
fn test_generate_proof() {
    let (tree, datas, _) = build_verkle_tree();
    let mut rng = rand::thread_rng();
    let ranom_index = rng.gen_range(0..=datas.len() - 1);
    let random_point = datas[ranom_index];
    let proof = tree.generate_proof(ranom_index, &random_point);
    assert!(proof.is_ok(), "Proof Generation failed");
}

#[test]
fn test_generate_invalid_proof() {
    let (tree, datas, _) = build_verkle_tree();
    let mut rng = rand::thread_rng();
    let ranom_index = rng.gen_range(0..=datas.len() - 1);
    let fake_point = Scalar::from_i64(rng.gen_range(-100..=100));
    let proof = tree.generate_proof(ranom_index, &fake_point);
    assert!(proof.is_err(), "Should not be able to generate a valid proof");
}

#[test]
fn test_verify_proof() {
    let (tree, datas, width) = build_verkle_tree();
    let mut rng = rand::thread_rng();
    let ranom_index = rng.gen_range(0..=datas.len() - 1);
    let random_point = datas[ranom_index];
    let proof = tree.generate_proof(ranom_index, &random_point).unwrap();
    let root = VerkleTree::root_commitment(&tree).unwrap();
    let verification = VerkleTree::verify_proof(root, &proof, width);
    assert!(verification, "Given point should generate a valid proof");
}
