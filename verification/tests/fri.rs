use fri_mmcs::field::Fe;
use fri_mmcs::field::FP;
use fri_mmcs::fri::domain_generator;
use fri_mmcs::fri::fold_even_odd;
use fri_mmcs::fri::prove;
use fri_mmcs::fri::verify;
use fri_mmcs::fri::FriConfig;
use fri_mmcs::hash::FieldCompressor;
use fri_mmcs::hash::FieldHasher;
use fri_mmcs::matrix::Dimensions;
use fri_mmcs::matrix::Matrix;
use fri_mmcs::merkle::MerkleTreeMMCS;
use fri_mmcs::transcript::Transcript;

type Mmcs = MerkleTreeMMCS<FieldHasher, FieldCompressor>;

fn mmcs() -> Mmcs {
    MerkleTreeMMCS::new(FieldHasher {}, FieldCompressor {})
}

/// Evaluates a polynomial given by its coefficients (lowest degree first).
fn eval(coeffs: &[Fe], x: Fe) -> Fe {
    let mut acc = Fe::zero();
    for c in coeffs.iter().rev() {
        acc = acc.mul(x).add(*c);
    }
    acc
}

/// Reverses the low `k` bits of `i`.
fn bitrev(k: u32, i: usize) -> usize {
    let mut r = 0usize;
    let mut m = i;
    for _ in 0..k {
        r = r * 2 + (m % 2);
        m /= 2;
    }
    r
}

/// The evaluations of a polynomial over the size-`2^k` domain, in the
/// bit-reversed generator-power order the codewords use.
fn evals_bitrev(coeffs: &[Fe], k: u32) -> Vec<Fe> {
    let g = domain_generator(k as usize);
    (0..(1usize << k))
        .map(|i| eval(coeffs, g.pow(bitrev(k, i) as u64)))
        .collect()
}

fn mat_from_evals(evals: &[Fe]) -> Matrix {
    let rows: Vec<Vec<Fe>> = evals.iter().map(|v| vec![*v]).collect();
    Matrix::new(rows, 1).unwrap()
}

#[test]
fn domain_generator_orders() {
    // The size-8 domain generator has order exactly 8, with g^4 == -1.
    let g = domain_generator(3);
    assert_eq!(g.pow(8), Fe::one());
    assert_ne!(g.pow(4), Fe::one());
    assert_eq!(g.pow(4), Fe::new(FP - 1));
    assert_eq!(g.mul(g.inv()), Fe::one());
    // Squaring steps down one domain size.
    assert_eq!(g.mul(g), domain_generator(2));
}

#[test]
fn fold_matches_folded_polynomial() {
    // p(x) = 3 + 5x + 7x^2 + 11x^3 evaluated over the size-8 domain.
    let c = [Fe::new(3), Fe::new(5), Fe::new(7), Fe::new(11)];
    let cw = evals_bitrev(&c, 3);
    let beta = Fe::new(987654321);
    let g8 = domain_generator(3);
    let folded = fold_even_odd(&cw, beta, g8.inv(), 2);

    // One fold equals direct evaluation of q(y) = (c0 + beta*c1) + (c2 + beta*c3) y
    // over the halved (squared) domain, in the same arrangement.
    let q = [c[0].add(beta.mul(c[1])), c[2].add(beta.mul(c[3]))];
    let expected = evals_bitrev(&q, 2);
    assert_eq!(folded.len(), 4);
    for j in 0..4 {
        assert_eq!(folded[j], expected[j]);
    }

    // Folding down to length 1 matches the fully folded polynomial.
    let g4 = domain_generator(2);
    let beta2 = Fe::new(5550123);
    let folded2 = fold_even_odd(&folded, beta2, g4.inv(), 1);
    let r0 = q[0].add(beta2.mul(q[1]));
    assert_eq!(folded2.len(), 2);
    assert_eq!(folded2[0], r0);
    assert_eq!(folded2[1], r0);

    let g2 = domain_generator(1);
    let beta3 = Fe::new(31337);
    let folded3 = fold_even_odd(&folded2, beta3, g2.inv(), 0);
    assert_eq!(folded3.len(), 1);
    assert_eq!(folded3[0], r0);
}

/// Commits a mixed batch (heights 16 and 4), runs the commit and query
/// phases, and returns everything the verifier needs.
fn setup() -> (Mmcs, fri_mmcs::hash::Digest, Vec<Vec<Dimensions>>, Vec<fri_mmcs::merkle::MerkleTree>) {
    let m = mmcs();
    let c = [Fe::new(2), Fe::new(9), Fe::new(4), Fe::new(6)];
    let tall = mat_from_evals(&evals_bitrev(&c, 4));
    let short = Matrix::new(
        (0..4).map(|i| vec![Fe::new(50 + i), Fe::new(90 + i)]).collect(),
        2,
    )
    .unwrap();
    let (com, tree) = m.commit(vec![tall, short]).unwrap();
    let dims = vec![vec![
        Dimensions { width: 1, height: 16 },
        Dimensions { width: 2, height: 4 },
    ]];
    (m, com, dims, vec![tree])
}

#[test]
fn end_to_end_accepts_then_rejects_corruption() {
    let (m, com, dims, trees) = setup();
    let config = FriConfig { num_queries: 8 };
    let mut t = Transcript::new(42);
    t.absorb(com.value);
    let mut proof = prove(&m, &trees, &config, &mut t);
    assert_eq!(proof.commit_phase_commits.len(), 4);
    assert_eq!(proof.query_proofs.len(), 8);

    let mut tv = Transcript::new(42);
    tv.absorb(com.value);
    assert!(verify(&m, &vec![com], &dims, &proof, &config, &mut tv).is_ok());

    // Corrupting one opened value of one query must be caught.
    proof.query_proofs[0].input_openings[0].opened_rows[0][0].value ^= 1;
    let mut tv2 = Transcript::new(42);
    tv2.absorb(com.value);
    assert!(verify(&m, &vec![com], &dims, &proof, &config, &mut tv2).is_err());
    proof.query_proofs[0].input_openings[0].opened_rows[0][0].value ^= 1;

    // Corrupting one sibling digest of one round opening must be caught.
    proof.query_proofs[3].round_openings[1].siblings[0].value ^= 1;
    let mut tv3 = Transcript::new(42);
    tv3.absorb(com.value);
    assert!(verify(&m, &vec![com], &dims, &proof, &config, &mut tv3).is_err());
    proof.query_proofs[3].round_openings[1].siblings[0].value ^= 1;

    // Corrupting the terminal scalar must be caught.
    proof.final_value.value ^= 1;
    let mut tv4 = Transcript::new(42);
    tv4.absorb(com.value);
    assert!(verify(&m, &vec![com], &dims, &proof, &config, &mut tv4).is_err());
    proof.final_value.value ^= 1;

    // The restored proof still verifies.
    let mut tv5 = Transcript::new(42);
    tv5.absorb(com.value);
    assert!(verify(&m, &vec![com], &dims, &proof, &config, &mut tv5).is_ok());
}

#[test]
fn proving_is_deterministic() {
    let (m, com, _dims, trees) = setup();
    let config = FriConfig { num_queries: 4 };
    let mut t1 = Transcript::new(7);
    t1.absorb(com.value);
    let p1 = prove(&m, &trees, &config, &mut t1);
    let mut t2 = Transcript::new(7);
    t2.absorb(com.value);
    let p2 = prove(&m, &trees, &config, &mut t2);
    assert_eq!(p1.commit_phase_commits, p2.commit_phase_commits);
    assert_eq!(p1.final_value, p2.final_value);
}

/// Replays the index draws of a finished proof, as the verifier does.
fn replay_indices(
    seed: u64,
    com: fri_mmcs::hash::Digest,
    proof: &fri_mmcs::fri::FriProof,
    num_queries: usize,
    max_height: u64,
) -> Vec<u64> {
    let mut t = Transcript::new(seed);
    t.absorb(com.value);
    let _alpha = t.draw();
    for c in proof.commit_phase_commits.iter() {
        t.absorb(c.value);
        let _beta = t.draw();
    }
    t.absorb(proof.final_value.value);
    (0..num_queries).map(|_| t.draw().value % max_height).collect()
}

#[test]
fn query_independence_across_seeds() {
    let (m, com, dims, trees) = setup();
    let config = FriConfig { num_queries: 8 };

    let mut t1 = Transcript::new(1);
    t1.absorb(com.value);
    let p1 = prove(&m, &trees, &config, &mut t1);
    let mut t2 = Transcript::new(2);
    t2.absorb(com.value);
    let p2 = prove(&m, &trees, &config, &mut t2);

    // Both proofs verify against the same commitment, each under its own
    // transcript seed.
    let mut v1 = Transcript::new(1);
    v1.absorb(com.value);
    assert!(verify(&m, &vec![com], &dims, &p1, &config, &mut v1).is_ok());
    let mut v2 = Transcript::new(2);
    v2.absorb(com.value);
    assert!(verify(&m, &vec![com], &dims, &p2, &config, &mut v2).is_ok());

    // The two transcripts draw different query indices.
    let i1 = replay_indices(1, com, &p1, 8, 16);
    let i2 = replay_indices(2, com, &p2, 8, 16);
    assert_ne!(i1, i2);

    // Swapping the proofs across seeds fails: the replayed challenges differ.
    let mut vx = Transcript::new(2);
    vx.absorb(com.value);
    assert!(verify(&m, &vec![com], &dims, &p1, &config, &mut vx).is_err());
}
