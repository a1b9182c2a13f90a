use fri_mmcs::field::Fe;
use fri_mmcs::hash::FieldCompressor;
use fri_mmcs::hash::FieldHasher;
use fri_mmcs::matrix::Dimensions;
use fri_mmcs::matrix::Matrix;
use fri_mmcs::merkle::MerkleError;
use fri_mmcs::merkle::MerkleTreeMMCS;
use fri_mmcs::merkle::MmcsError;

type Mmcs = MerkleTreeMMCS<FieldHasher, FieldCompressor>;

fn mmcs() -> Mmcs {
    MerkleTreeMMCS::new(FieldHasher {}, FieldCompressor {})
}

fn mat(rows: Vec<Vec<u64>>) -> Matrix {
    let width = rows[0].len();
    let rows: Vec<Vec<Fe>> = rows
        .into_iter()
        .map(|r| r.into_iter().map(Fe::new).collect())
        .collect();
    Matrix::new(rows, width).unwrap()
}

/// A mixed batch: one 8x2 matrix and one 4x3 matrix with distinct entries.
fn sample_batch() -> Vec<Matrix> {
    let a = mat((0..8).map(|i| vec![10 + i, 100 + i]).collect());
    let b = mat((0..4).map(|i| vec![1000 + i, 2000 + i, 3000 + i]).collect());
    vec![a, b]
}

fn sample_dims() -> Vec<Dimensions> {
    vec![
        Dimensions { width: 2, height: 8 },
        Dimensions { width: 3, height: 4 },
    ]
}

#[test]
fn build_is_deterministic() {
    let m = mmcs();
    let (root1, _) = m.commit(sample_batch()).unwrap();
    let (root2, _) = m.commit(sample_batch()).unwrap();
    assert_eq!(root1, root2);
}

#[test]
fn open_then_verify_accepts_every_index() {
    let m = mmcs();
    let (root, tree) = m.commit(sample_batch()).unwrap();
    let dims = sample_dims();
    for r in 0..8usize {
        let (values, siblings) = m.open_batch(r, &tree);
        assert_eq!(values.len(), 2);
        assert_eq!(values[0].len(), 2);
        assert_eq!(values[1].len(), 3);
        // The shorter matrix is opened at the reduced index.
        assert_eq!(values[1][0], Fe::new(1000 + (r / 2) as u64));
        let res = m.verify_batch(&root, &dims, r, &values, &siblings);
        assert!(res.is_ok());
    }
}

#[test]
fn tampering_rejects() {
    let m = mmcs();
    let (root, tree) = m.commit(sample_batch()).unwrap();
    let dims = sample_dims();
    let index = 5usize;
    let (values, siblings) = m.open_batch(index, &tree);

    // Flipping any single opened value must be caught.
    for mi in 0..values.len() {
        for col in 0..values[mi].len() {
            let mut bad = values.clone();
            bad[mi][col] = Fe::new(bad[mi][col].value ^ 1);
            let res = m.verify_batch(&root, &dims, index, &bad, &siblings);
            assert!(res.is_err());
        }
    }
    // Flipping any single sibling digest must be caught.
    for k in 0..siblings.len() {
        let mut bad = siblings.clone();
        bad[k].value ^= 1;
        let res = m.verify_batch(&root, &dims, index, &values, &bad);
        assert!(res.is_err());
    }
    // Claiming a different index must be caught.
    let res = m.verify_batch(&root, &dims, index ^ 1, &values, &siblings);
    assert!(res.is_err());
}

#[test]
fn mixed_height_batching() {
    let m = mmcs();
    let (root, tree) = m.commit(sample_batch()).unwrap();

    // Changing either matrix's content changes the root.
    let mut batch_a = sample_batch();
    batch_a[0].rows[3][1] = Fe::new(999_999);
    let (root_a, _) = m.commit(batch_a).unwrap();
    assert_ne!(root, root_a);

    let mut batch_b = sample_batch();
    batch_b[1].rows[2][0] = Fe::new(777_777);
    let (root_b, tree_b) = m.commit(batch_b).unwrap();
    assert_ne!(root, root_b);

    // Opening the first matrix's row is unaffected by edits to the second
    // matrix's unrelated rows: index 0 reduces to row 0 of the short matrix,
    // and only its row 2 was edited.
    let (values1, _) = m.open_batch(0, &tree);
    let (values2, _) = m.open_batch(0, &tree_b);
    assert_eq!(values1[0], values2[0]);
    assert_eq!(values1[1], values2[1]);
}

#[test]
fn construction_errors() {
    let m = mmcs();
    let empty: Vec<Matrix> = Vec::new();
    match m.commit(empty) {
        Err(e) => assert_eq!(e, MerkleError::EmptyBatch),
        Ok(_) => panic!("an empty batch must be rejected"),
    }

    let odd = vec![mat((0..3).map(|i| vec![i]).collect())];
    match m.commit(odd) {
        Err(e) => assert_eq!(e, MerkleError::HeightNotPowerOfTwo),
        Ok(_) => panic!("a non-power-of-two height must be rejected"),
    }
}

#[test]
fn verification_errors_are_typed() {
    let m = mmcs();
    let (root, tree) = m.commit(sample_batch()).unwrap();
    let dims = sample_dims();
    let (values, siblings) = m.open_batch(2, &tree);

    // A truncated sibling path is a malformed proof.
    let mut short = siblings.clone();
    short.pop();
    assert_eq!(
        m.verify_batch(&root, &dims, 2, &values, &short).unwrap_err(),
        MmcsError::MalformedProof
    );

    // An out-of-range index is a malformed proof.
    assert_eq!(
        m.verify_batch(&root, &dims, 8, &values, &siblings).unwrap_err(),
        MmcsError::MalformedProof
    );

    // A wrong commitment is a digest mismatch.
    let mut bad_root = root;
    bad_root.value ^= 1;
    assert_eq!(
        m.verify_batch(&bad_root, &dims, 2, &values, &siblings).unwrap_err(),
        MmcsError::CommitmentMismatch
    );
}

#[test]
fn get_matrices_returns_inputs() {
    let m = mmcs();
    let (_, tree) = m.commit(sample_batch()).unwrap();
    let mats = m.get_matrices(&tree);
    assert_eq!(mats.len(), 2);
    assert_eq!(mats[0].height(), 8);
    assert_eq!(mats[1].height(), 4);
    assert_eq!(mats[0].rows[7][0], Fe::new(17));
}
