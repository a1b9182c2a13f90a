use fri_mmcs::field::Fe;
use fri_mmcs::field::FP;
use fri_mmcs::hash::FieldCompressor;
use fri_mmcs::hash::FieldHasher;
use fri_mmcs::hash::Compressor;
use fri_mmcs::hash::Digest;
use fri_mmcs::hash::Hasher;
use fri_mmcs::transcript::Transcript;

#[test]
fn field_arithmetic_exact_values() {
    assert_eq!(Fe::new(3).add(Fe::new(5)), Fe::new(8));
    assert_eq!(Fe::new(2).sub(Fe::new(5)), Fe::new(FP - 3));
    assert_eq!(Fe::new(6).mul(Fe::new(7)), Fe::new(42));
    // Wrap-around: (FP - 1) + 2 == 1.
    assert_eq!(Fe::new(FP - 1).add(Fe::new(2)), Fe::one());
    // (FP - 1)^2 == 1, since FP - 1 is -1.
    assert_eq!(Fe::new(FP - 1).mul(Fe::new(FP - 1)), Fe::one());
    assert_eq!(Fe::new(2).pow(10), Fe::new(1024));
    assert_eq!(Fe::new(2).pow(0), Fe::one());
    // Fermat inversion really inverts.
    let x = Fe::new(123456789);
    assert_eq!(x.mul(x.inv()), Fe::one());
    // Reduction of an unreduced representative.
    assert_eq!(Fe::new(FP), Fe::zero());
}

#[test]
fn transcript_is_deterministic() {
    let mut a = Transcript::new(99);
    let mut b = Transcript::new(99);
    a.absorb(5);
    b.absorb(5);
    assert_eq!(a.draw(), b.draw());
    assert_eq!(a.draw(), b.draw());
    // A different absorbed history diverges.
    let mut c = Transcript::new(99);
    c.absorb(6);
    let mut d = Transcript::new(99);
    d.absorb(5);
    assert_ne!(c.draw(), d.draw());
}

/// One absorption step of the concrete hash, recomputed independently.
fn mix(st: u64, x: u64) -> u64 {
    ((st as u128 * 1099511628211u128 + x as u128 + 1) % (FP as u128)) as u64
}

#[test]
fn hash_and_compress_exact_values() {
    let h = FieldHasher {};
    // The empty batch leaves the initial state untouched.
    let empty: Vec<Vec<Fe>> = Vec::new();
    assert_eq!(h.hash_rows(&empty).value, 3);
    // One row of two elements absorbs them in order from state 3.
    let rows = vec![vec![Fe::new(17), Fe::new(29)]];
    assert_eq!(h.hash_rows(&rows).value, mix(mix(3, 17), 29));

    let c = FieldCompressor {};
    let l = Digest { value: 11 };
    let r = Digest { value: 22 };
    assert_eq!(c.compress(l, r).value, mix(mix(13, 11), 22));
}

#[test]
fn hashing_is_deterministic_and_order_sensitive() {
    let h = FieldHasher {};
    let rows1 = vec![vec![Fe::new(1), Fe::new(2)], vec![Fe::new(3)]];
    let rows2 = vec![vec![Fe::new(1), Fe::new(2)], vec![Fe::new(3)]];
    assert_eq!(h.hash_rows(&rows1), h.hash_rows(&rows2));
    let swapped = vec![vec![Fe::new(2), Fe::new(1)], vec![Fe::new(3)]];
    assert_ne!(h.hash_rows(&rows1), h.hash_rows(&swapped));

    let c = FieldCompressor {};
    let l = Digest { value: 11 };
    let r = Digest { value: 22 };
    assert_eq!(c.compress(l, r), c.compress(l, r));
    assert_ne!(c.compress(l, r), c.compress(r, l));
}
