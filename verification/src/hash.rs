//! The hash and compression capabilities the Merkle tree is parameterized
//! over: a leaf hasher (many field elements to one digest) and a 2-to-1
//! digest compressor. Both are traits whose executable methods are pinned to
//! a per-implementation specification function, so the tree's contracts hold
//! for any deterministic instantiation; `FieldHasher` and `FieldCompressor`
//! are the concrete instances the tests run with.

use vstd::prelude::*;
use crate::field::Fe;
use crate::field::FP;

verus! {

/// A fixed-size, equality-comparable commitment digest.
#[derive(Clone, Copy, PartialEq, Eq, Structural, Debug)]
pub struct Digest {
    pub value: u64,
}

/// The sequence of row views carried by a vector of rows.
pub open spec fn rows_view(rows: Seq<Vec<Fe>>) -> Seq<Seq<Fe>> {
    rows.map_values(|r: Vec<Fe>| r@)
}

/// A deterministic, order-sensitive leaf hasher: many field elements in, one
/// digest out. The executable method must agree with the implementation's own
/// specification function on every input.
pub trait Hasher: Sized {
    /// What the hasher returns on a given ordered batch of rows.
    spec fn hash_spec(&self, rows: Seq<Seq<Fe>>) -> Digest;

    /// Hashes the concatenation of the given rows, in order.
    fn hash_rows(&self, rows: &Vec<Vec<Fe>>) -> (d: Digest)
        ensures
            d == self.hash_spec(rows_view(rows@)),
    ;
}

/// A deterministic 2-to-1 digest compression function.
pub trait Compressor: Sized {
    /// What the compressor returns on a given ordered pair.
    spec fn compress_spec(&self, left: Digest, right: Digest) -> Digest;

    /// Compresses two digests into one.
    fn compress(&self, left: Digest, right: Digest) -> (d: Digest)
        ensures
            d == self.compress_spec(left, right),
    ;
}

/// One absorption step of the concrete hash: multiply the running state by an
/// odd constant, add the new word plus one, and reduce modulo the field prime.
pub open spec fn mix_spec(st: u64, x: u64) -> u64 {
    ((st * 1099511628211 + x + 1) % (FP as int)) as u64
}

/// The state after absorbing every element of one row, left to right.
pub open spec fn mix_row_spec(st: u64, row: Seq<Fe>) -> u64
    decreases row.len(),
{
    if row.len() == 0 {
        st
    } else {
        mix_row_spec(mix_spec(st, row[0].value), row.drop_first())
    }
}

/// The state after absorbing every row in order.
pub open spec fn mix_rows_spec(st: u64, rows: Seq<Seq<Fe>>) -> u64
    decreases rows.len(),
{
    if rows.len() == 0 {
        st
    } else {
        mix_rows_spec(mix_row_spec(st, rows[0]), rows.drop_first())
    }
}

/// One absorption step, executable.
pub fn mix(st: u64, x: u64) -> (r: u64)
    ensures
        r == mix_spec(st, x),
        r < FP,
{
    proof {
        assert(st as int * 1099511628211int <= (u64::MAX as int) * 1099511628211int)
            by (nonlinear_arith)
            requires st <= u64::MAX,
        ;
    }
    let acc: u128 = st as u128 * 1099511628211u128 + x as u128 + 1;
    (acc % (FP as u128)) as u64
}

/// The concrete leaf hasher: sequential absorption of all row elements
/// starting from a fixed state.
pub struct FieldHasher {}

impl Hasher for FieldHasher {
    open spec fn hash_spec(&self, rows: Seq<Seq<Fe>>) -> Digest {
        Digest { value: mix_rows_spec(3, rows) }
    }

    fn hash_rows(&self, rows: &Vec<Vec<Fe>>) -> (d: Digest)
        ensures
            d == self.hash_spec(rows_view(rows@)),
    {
        let mut st: u64 = 3;
        let ghost all = rows_view(rows@);
        proof {
            assert(all.skip(0) =~= all);
        }
        let mut i: usize = 0;
        while i < rows.len()
            invariant
                i <= rows@.len(),
                all == rows_view(rows@),
                all.len() == rows@.len(),
                forall|t: int| 0 <= t < all.len() ==> all[t] == rows@[t]@,
                mix_rows_spec(3, all) == mix_rows_spec(st, all.skip(i as int)),
            decreases rows@.len() - i,
        {
            proof {
                assert(all.skip(i as int)[0] == all[i as int]);
                assert(all.skip(i as int).drop_first() =~= all.skip(i as int + 1));
                assert(mix_rows_spec(st, all.skip(i as int)) == mix_rows_spec(
                    mix_row_spec(st, all[i as int]),
                    all.skip(i as int + 1),
                ));
            }
            let row = &rows[i];
            let ghost rv = row@;
            proof {
                assert(rv.skip(0) =~= rv);
            }
            let mut j: usize = 0;
            while j < row.len()
                invariant
                    j <= rv.len(),
                    rv == row@,
                    i < all.len(),
                    all == rows_view(rows@),
                    rv == all[i as int],
                    mix_rows_spec(3, all) == mix_rows_spec(
                        mix_row_spec(st, rv.skip(j as int)),
                        all.skip(i as int + 1),
                    ),
                decreases rv.len() - j,
            {
                proof {
                    assert(rv.skip(j as int)[0] == rv[j as int]);
                    assert(rv.skip(j as int).drop_first() =~= rv.skip(j as int + 1));
                }
                st = mix(st, row[j].value);
                j = j + 1;
            }
            proof {
                assert(rv.skip(j as int) =~= Seq::<Fe>::empty());
                assert(mix_row_spec(st, rv.skip(j as int)) == st);
            }
            i = i + 1;
        }
        proof {
            assert(all.skip(i as int) =~= Seq::<Seq<Fe>>::empty());
        }
        Digest { value: st }
    }
}

/// The concrete 2-to-1 compressor: absorb both digests into a fixed state.
pub struct FieldCompressor {}

impl Compressor for FieldCompressor {
    open spec fn compress_spec(&self, left: Digest, right: Digest) -> Digest {
        Digest { value: mix_spec(mix_spec(13, left.value), right.value) }
    }

    fn compress(&self, left: Digest, right: Digest) -> (d: Digest)
        ensures
            d == self.compress_spec(left, right),
    {
        Digest { value: mix(mix(13, left.value), right.value) }
    }
}

} // verus!
