//! The batched Merkle-tree vector commitment (MMCS). One tree commits to many
//! matrices whose power-of-two heights may differ: layer 0 hashes the rows of
//! the tallest matrices, every later layer halves the previous one by 2-to-1
//! compression, and a matrix group of height `h` is absorbed ("injected") into
//! the layer whose length is exactly `h`. The canonical matrix order is by
//! descending height, stable on ties by input order; the specification below
//! realizes that order by filtering the input per height group, which yields
//! the same sequence without sorting.

use vstd::prelude::*;
use vstd::arithmetic::power2::pow2;
use crate::bits::checked_log2;
use crate::bits::is_power_of_two;
use crate::bits::lemma_div_pow2_bound;
use crate::bits::lemma_div_pow2_step;
use crate::bits::lemma_log2_pow2;
use crate::bits::lemma_pow2_log2;
use crate::bits::log2;
use crate::field::Fe;
use crate::hash::Compressor;
use crate::hash::Digest;
use crate::hash::Hasher;
use crate::hash::rows_view;
use crate::matrix::Dimensions;
use crate::matrix::Matrix;
use crate::matrix::copy_row;

verus! {

/// A construction error: the batch itself is malformed.
#[derive(Clone, Copy, PartialEq, Eq, Structural, Debug)]
pub enum MerkleError {
    /// No matrices were given.
    EmptyBatch,
    /// Some matrix height is not a power of two.
    HeightNotPowerOfTwo,
}

/// A verification failure: the opening does not authenticate.
#[derive(Clone, Copy, PartialEq, Eq, Structural, Debug)]
pub enum MmcsError {
    /// The claimed values, dimensions, index, or proof have the wrong shape.
    MalformedProof,
    /// The recomputed root differs from the commitment.
    CommitmentMismatch,
}

/// The views of a batch of matrices.
pub open spec fn views_of(mats: Seq<Matrix>) -> Seq<Seq<Seq<Fe>>> {
    mats.map_values(|m: Matrix| m@)
}

/// The tallest height in a batch of matrix views.
pub open spec fn max_height_of(vs: Seq<Seq<Seq<Fe>>>) -> nat
    decreases vs.len(),
{
    if vs.len() == 0 {
        0
    } else {
        let rest = max_height_of(vs.drop_last());
        if vs.last().len() > rest {
            vs.last().len()
        } else {
            rest
        }
    }
}

/// A batch the tree builder accepts: non-empty, every height a power of two.
pub open spec fn batch_ok(vs: Seq<Seq<Seq<Fe>>>) -> bool {
    vs.len() > 0 && forall|t: int| 0 <= t < vs.len() ==> is_power_of_two((#[trigger] vs[t]).len())
}

/// Row `i` of every matrix of height `hh`, in canonical order (input order
/// within the height group).
pub open spec fn group_rows_at(vs: Seq<Seq<Seq<Fe>>>, hh: nat, i: int) -> Seq<Seq<Fe>>
    decreases vs.len(),
{
    if vs.len() == 0 {
        Seq::empty()
    } else {
        let rest = group_rows_at(vs.drop_last(), hh, i);
        if vs.last().len() == hh {
            rest.push(vs.last()[i])
        } else {
            rest
        }
    }
}

/// Layer 0: one leaf digest per row of the tallest height group.
pub open spec fn leaf_layer_spec<H: Hasher>(h: &H, vs: Seq<Seq<Seq<Fe>>>, max_h: nat) -> Seq<
    Digest,
> {
    Seq::new(max_h, |i: int| h.hash_spec(group_rows_at(vs, max_h, i)))
}

/// One node of the next layer: compress the two children, then absorb the
/// leaf hash of any matrix group injected at this layer's length.
pub open spec fn node_spec<H: Hasher, C: Compressor>(
    h: &H,
    c: &C,
    vs: Seq<Seq<Seq<Fe>>>,
    prev: Seq<Digest>,
    i: int,
) -> Digest {
    let base = c.compress_spec(prev[2 * i], prev[2 * i + 1]);
    let grp = group_rows_at(vs, prev.len() / 2, i);
    if grp.len() > 0 {
        c.compress_spec(base, h.hash_spec(grp))
    } else {
        base
    }
}

/// The layer above `prev`: half as long, one `node_spec` per index.
pub open spec fn next_layer_spec<H: Hasher, C: Compressor>(
    h: &H,
    c: &C,
    vs: Seq<Seq<Seq<Fe>>>,
    prev: Seq<Digest>,
) -> Seq<Digest> {
    Seq::new(prev.len() / 2, |i: int| node_spec(h, c, vs, prev, i))
}

/// The `k`-th digest layer of the tree over a batch whose tallest height is
/// `pow2(max_log)`.
pub open spec fn layer_spec<H: Hasher, C: Compressor>(
    h: &H,
    c: &C,
    vs: Seq<Seq<Seq<Fe>>>,
    max_log: nat,
    k: nat,
) -> Seq<Digest>
    decreases k,
{
    if k == 0 {
        leaf_layer_spec(h, vs, pow2(max_log))
    } else {
        next_layer_spec(h, c, vs, layer_spec(h, c, vs, max_log, (k - 1) as nat))
    }
}

/// The root commitment of a batch: the sole digest of the last layer.
pub open spec fn root_spec<H: Hasher, C: Compressor>(
    h: &H,
    c: &C,
    vs: Seq<Seq<Seq<Fe>>>,
) -> Digest {
    let ml = log2(max_height_of(vs));
    layer_spec(h, c, vs, ml, ml)[0]
}

/// Layer `k` has length `pow2(max_log - k)`.
pub proof fn lemma_layer_len<H: Hasher, C: Compressor>(
    h: &H,
    c: &C,
    vs: Seq<Seq<Seq<Fe>>>,
    max_log: nat,
    k: nat,
)
    requires
        k <= max_log,
    ensures
        layer_spec(h, c, vs, max_log, k).len() == pow2((max_log - k) as nat),
    decreases k,
{
    if k == 0 {
    } else {
        lemma_layer_len(h, c, vs, max_log, (k - 1) as nat);
        vstd::arithmetic::power2::lemma_pow2_unfold((max_log - k + 1) as nat);
    }
}

/// A group's length does not depend on the row index queried.
pub proof fn lemma_group_len(vs: Seq<Seq<Seq<Fe>>>, hh: nat, i: int, j: int)
    ensures
        group_rows_at(vs, hh, i).len() == group_rows_at(vs, hh, j).len(),
    decreases vs.len(),
{
    if vs.len() > 0 {
        lemma_group_len(vs.drop_last(), hh, i, j);
    }
}

/// A binary Merkle tree over a batch of matrices. Built once by `new`,
/// immutable afterwards; `digest_layers` runs from the leaf layer to the
/// single-digest root layer.
pub struct MerkleTree {
    pub leaves: Vec<Matrix>,
    pub digest_layers: Vec<Vec<Digest>>,
}

impl MerkleTree {
    /// The views of the committed matrices, in input order.
    pub open spec fn views(self) -> Seq<Seq<Seq<Fe>>> {
        views_of(self.leaves@)
    }

    /// The logarithm of the tallest committed height.
    pub open spec fn max_log(self) -> nat {
        log2(max_height_of(self.views()))
    }

    /// The batch is acceptable and every matrix has a consistent shape.
    pub open spec fn shape_wf(self) -> bool {
        &&& batch_ok(self.views())
        &&& forall|t: int|
            0 <= t < self.leaves@.len() ==> (#[trigger] self.leaves@[t]).well_formed()
    }

    /// The tree is exactly what building with `h` and `c` produces: the
    /// digest layers agree with `layer_spec` level by level.
    pub open spec fn built_by<H: Hasher, C: Compressor>(self, h: &H, c: &C) -> bool {
        &&& self.shape_wf()
        &&& self.digest_layers@.len() == self.max_log() + 1
        &&& forall|k: int|
            0 <= k < self.digest_layers@.len() ==> (#[trigger] self.digest_layers@[k])@
                == layer_spec(h, c, self.views(), self.max_log(), k as nat)
    }

    /// Builds the tree: rejects an empty batch or a non-power-of-two height,
    /// otherwise produces digest layers that match `layer_spec` exactly.
    pub fn new<H: Hasher, C: Compressor>(h: &H, c: &C, leaves: Vec<Matrix>) -> (r: Result<
        MerkleTree,
        MerkleError,
    >)
        requires
            forall|t: int| 0 <= t < leaves@.len() ==> (#[trigger] leaves@[t]).well_formed(),
        ensures
            match r {
                Ok(t) => {
                    &&& batch_ok(views_of(leaves@))
                    &&& t.leaves == leaves
                    &&& t.built_by(h, c)
                },
                Err(e) => {
                    &&& !batch_ok(views_of(leaves@))
                    &&& (e == MerkleError::EmptyBatch <==> leaves@.len() == 0)
                    &&& (e == MerkleError::HeightNotPowerOfTwo <==> leaves@.len() > 0)
                },
            },
    {
        let ghost vs = views_of(leaves@);
        proof {
            assert(vs.len() == leaves@.len());
        }
        if leaves.len() == 0 {
            return Err(MerkleError::EmptyBatch);
        }
        // Check every height and locate the tallest group.
        let mut max_h: usize = 0;
        let mut t: usize = 0;
        while t < leaves.len()
            invariant
                t <= leaves@.len(),
                vs == views_of(leaves@),
                vs.len() == leaves@.len(),
                forall|u: int| 0 <= u < vs.len() ==> vs[u] == leaves@[u]@,
                max_h as nat == max_height_of(vs.take(t as int)),
                forall|u: int| 0 <= u < t ==> is_power_of_two((#[trigger] vs[u]).len()),
                max_h == 0 ==> t == 0,
                t > 0 ==> exists|u: int| 0 <= u < t && (#[trigger] vs[u]).len() == max_h as nat,
            decreases leaves@.len() - t,
        {
            proof {
                assert(vs.take(t as int + 1).drop_last() =~= vs.take(t as int));
                assert(vs.take(t as int + 1).last() == vs[t as int]);
            }
            let ht = leaves[t].height();
            if checked_log2(ht).is_none() {
                return Err(MerkleError::HeightNotPowerOfTwo);
            }
            if ht > max_h {
                max_h = ht;
            }
            t = t + 1;
        }
        proof {
            assert(vs.take(vs.len() as int) =~= vs);
        }
        let max_log = match checked_log2(max_h) {
            Some(k) => k,
            None => {
                proof {
                    let u = choose|u: int| 0 <= u < vs.len() && (#[trigger] vs[u]).len()
                        == max_h as nat;
                    assert(is_power_of_two(vs[u].len()));
                    assert(false);
                }
                0
            },
        };
        // Leaf layer: hash row i of the tallest matrices.
        let mut layer0: Vec<Digest> = Vec::new();
        let mut i: usize = 0;
        while i < max_h
            invariant
                i <= max_h,
                vs == views_of(leaves@),
                max_h as nat == pow2(max_log as nat),
                max_h as nat == max_height_of(vs),
                forall|u: int| 0 <= u < leaves@.len() ==> (#[trigger] leaves@[u]).well_formed(),
                forall|u: int| 0 <= u < vs.len() ==> vs[u] == leaves@[u]@,
                layer0@.len() == i as nat,
                forall|u: int|
                    0 <= u < i ==> layer0@[u] == h.hash_spec(
                        group_rows_at(vs, max_h as nat, u),
                    ),
            decreases max_h - i,
        {
            let grp = gather_rows(&leaves, max_h, i);
            layer0.push(h.hash_rows(&grp));
            i = i + 1;
        }
        proof {
            assert(layer0@ =~= leaf_layer_spec(h, vs, max_h as nat));
            assert(layer_spec(h, c, vs, max_log as nat, 0) == leaf_layer_spec(
                h,
                vs,
                pow2(max_log as nat),
            ));
        }
        let mut layers: Vec<Vec<Digest>> = Vec::new();
        layers.push(layer0);
        let mut k: usize = 0;
        while k < max_log
            invariant
                k <= max_log,
                vs == views_of(leaves@),
                max_h as nat == pow2(max_log as nat),
                max_h as nat == max_height_of(vs),
                forall|u: int| 0 <= u < leaves@.len() ==> (#[trigger] leaves@[u]).well_formed(),
                forall|u: int| 0 <= u < vs.len() ==> vs[u] == leaves@[u]@,
                layers@.len() == k as nat + 1,
                forall|j: int|
                    0 <= j <= k ==> (#[trigger] layers@[j])@ == layer_spec(
                        h,
                        c,
                        vs,
                        max_log as nat,
                        j as nat,
                    ),
            decreases max_log - k,
        {
            proof {
                lemma_layer_len(h, c, vs, max_log as nat, k as nat);
                vstd::arithmetic::power2::lemma_pow2_unfold((max_log - k) as nat);
                vstd::arithmetic::power2::lemma_pow2_pos((max_log - k - 1) as nat);
                vstd::arithmetic::power2::lemma_pow2_strictly_increases(
                    (max_log - k - 1) as nat,
                    (max_log as nat - k as nat) as nat,
                );
                if k > 0 {
                    vstd::arithmetic::power2::lemma_pow2_strictly_increases(
                        (max_log - k) as nat,
                        max_log as nat,
                    );
                }
            }
            let ghost prev = layer_spec(h, c, vs, max_log as nat, k as nat);
            let prev_len = layers[k].len();
            let next_len = prev_len / 2;
            let mut next: Vec<Digest> = Vec::new();
            let mut i2: usize = 0;
            while i2 < next_len
                invariant
                    i2 <= next_len,
                    vs == views_of(leaves@),
                    forall|u: int| 0 <= u < leaves@.len() ==> (#[trigger] leaves@[u]).well_formed(),
                    forall|u: int| 0 <= u < vs.len() ==> vs[u] == leaves@[u]@,
                    k < layers@.len(),
                    layers@[k as int]@ == prev,
                    prev_len == prev.len(),
                    next_len == prev_len / 2,
                    prev_len == 2 * next_len,
                    next_len >= 1,
                    next@.len() == i2 as nat,
                    forall|u: int| 0 <= u < i2 ==> next@[u] == node_spec(h, c, vs, prev, u),
                decreases next_len - i2,
            {
                let left = layers[k][2 * i2];
                let right = layers[k][2 * i2 + 1];
                let mut d = c.compress(left, right);
                let grp = gather_rows(&leaves, next_len, i2);
                proof {
                    lemma_group_len(vs, next_len as nat, i2 as int, 0);
                }
                if grp.len() > 0 {
                    d = c.compress(d, h.hash_rows(&grp));
                }
                next.push(d);
                i2 = i2 + 1;
            }
            proof {
                assert(next@ =~= next_layer_spec(h, c, vs, prev));
            }
            layers.push(next);
            k = k + 1;
        }
        proof {
            lemma_log2_pow2(max_log as nat);
            assert(log2(max_height_of(vs)) == max_log as nat);
        }
        Ok(MerkleTree { leaves, digest_layers: layers })
    }

    /// The digest layers end in a non-empty root layer.
    pub open spec fn layers_shaped(self) -> bool {
        self.digest_layers@.len() >= 1 && self.digest_layers@.last()@.len() >= 1
    }

    /// A built tree is shaped, and its last layer holds exactly the root
    /// commitment of its batch.
    pub proof fn lemma_built_root<H: Hasher, C: Compressor>(self, h: &H, c: &C)
        requires
            self.built_by(h, c),
        ensures
            self.layers_shaped(),
            self.digest_layers@.last()@.len() == 1,
            self.digest_layers@.last()@[0] == root_spec(h, c, self.views()),
    {
        lemma_layer_len(h, c, self.views(), self.max_log(), self.max_log());
        vstd::arithmetic::power2::lemma2_to64();
    }

    /// The tallest committed height, recomputed from the stored matrices.
    pub fn leaves_max_height(&self) -> (r: usize)
        ensures
            r as nat == max_height_of(self.views()),
    {
        let ghost vs = self.views();
        let mut max_h: usize = 0;
        let mut t: usize = 0;
        while t < self.leaves.len()
            invariant
                t <= self.leaves@.len(),
                vs == self.views(),
                vs.len() == self.leaves@.len(),
                forall|u: int| 0 <= u < vs.len() ==> vs[u] == self.leaves@[u]@,
                max_h as nat == max_height_of(vs.take(t as int)),
            decreases self.leaves@.len() - t,
        {
            proof {
                assert(vs.take(t as int + 1).drop_last() =~= vs.take(t as int));
                assert(vs.take(t as int + 1).last() == vs[t as int]);
            }
            let ht = self.leaves[t].height();
            if ht > max_h {
                max_h = ht;
            }
            t = t + 1;
        }
        proof {
            assert(vs.take(vs.len() as int) =~= vs);
        }
        max_h
    }

    /// The root commitment: the sole digest of the final layer.
    pub fn root(&self) -> (r: Digest)
        requires
            self.layers_shaped(),
        ensures
            r == self.digest_layers@.last()@[0],
    {
        let last = self.digest_layers.len() - 1;
        self.digest_layers[last][0]
    }
}

/// The row of a height-`hh` matrix that a batch opening at `index` reveals:
/// the overall index reduced to that matrix's height.
pub open spec fn opened_row_index(max_log: nat, hh: nat, index: nat) -> nat {
    index / pow2((max_log - log2(hh)) as nat)
}

/// The rows a batch opening at `index` reveals, one per matrix, input order.
pub open spec fn opened_rows_spec(vs: Seq<Seq<Seq<Fe>>>, index: nat) -> Seq<Seq<Fe>> {
    let ml = log2(max_height_of(vs));
    Seq::new(vs.len(), |m: int| vs[m][opened_row_index(ml, vs[m].len(), index) as int])
}

/// The sibling position at layer `k` on the path from leaf `index`.
pub open spec fn sibling_index(index: nat, k: nat) -> nat {
    let i = index / pow2(k);
    if i % 2 == 0 {
        i + 1
    } else {
        (i - 1) as nat
    }
}

/// The sibling digests a batch opening at `index` carries, leaf layer first.
pub open spec fn proof_spec<H: Hasher, C: Compressor>(
    h: &H,
    c: &C,
    vs: Seq<Seq<Seq<Fe>>>,
    index: nat,
) -> Seq<Digest> {
    let ml = log2(max_height_of(vs));
    Seq::new(ml, |k: int| layer_spec(h, c, vs, ml, k as nat)[sibling_index(index, k as nat) as int])
}

/// A non-empty batch attains its tallest height at some matrix.
pub proof fn lemma_max_height_attained(vs: Seq<Seq<Seq<Fe>>>)
    requires
        vs.len() > 0,
    ensures
        exists|t: int| 0 <= t < vs.len() && (#[trigger] vs[t]).len() == max_height_of(vs),
    decreases vs.len(),
{
    if vs.len() == 1 {
        assert(vs.drop_last().len() == 0);
        assert(max_height_of(vs.drop_last()) == 0);
        assert(vs.last() == vs[0]);
        assert(vs[0].len() >= max_height_of(vs.drop_last()));
        if vs[0].len() == 0 {
            assert(max_height_of(vs) == 0);
        }
        assert(vs[0].len() == max_height_of(vs));
    } else {
        lemma_max_height_attained(vs.drop_last());
        if vs.last().len() > max_height_of(vs.drop_last()) {
            assert(vs[vs.len() - 1].len() == max_height_of(vs));
        } else {
            let t = choose|t: int|
                0 <= t < vs.drop_last().len() && (#[trigger] vs.drop_last()[t]).len()
                    == max_height_of(vs.drop_last());
            assert(vs[t].len() == max_height_of(vs));
        }
    }
}

/// No height in a batch exceeds the batch's tallest height.
pub proof fn lemma_max_height_ge(vs: Seq<Seq<Seq<Fe>>>, t: int)
    requires
        0 <= t < vs.len(),
    ensures
        vs[t].len() <= max_height_of(vs),
    decreases vs.len(),
{
    if t + 1 < vs.len() {
        lemma_max_height_ge(vs.drop_last(), t);
    }
}

/// Two batches whose heights agree pointwise have the same tallest height.
pub proof fn lemma_max_height_congruent(vs1: Seq<Seq<Seq<Fe>>>, vs2: Seq<Seq<Seq<Fe>>>)
    requires
        vs1.len() == vs2.len(),
        forall|t: int| 0 <= t < vs1.len() ==> (#[trigger] vs1[t]).len() == vs2[t].len(),
    ensures
        max_height_of(vs1) == max_height_of(vs2),
    decreases vs1.len(),
{
    if vs1.len() > 0 {
        lemma_max_height_congruent(vs1.drop_last(), vs2.drop_last());
    }
}

/// The tallest height in the dimension metadata the verifier receives.
pub open spec fn max_dim_height(ds: Seq<Dimensions>) -> nat
    decreases ds.len(),
{
    if ds.len() == 0 {
        0
    } else {
        let rest = max_dim_height(ds.drop_last());
        if ds.last().height as nat > rest {
            ds.last().height as nat
        } else {
            rest
        }
    }
}

/// The claimed rows of matrices whose stated height is `hh`, input order.
pub open spec fn opened_group(ds: Seq<Dimensions>, opened: Seq<Seq<Fe>>, hh: nat) -> Seq<Seq<Fe>>
    decreases ds.len(),
{
    if ds.len() == 0 {
        Seq::empty()
    } else {
        let rest = opened_group(ds.drop_last(), opened.drop_last(), hh);
        if ds.last().height as nat == hh {
            rest.push(opened.last())
        } else {
            rest
        }
    }
}

/// The shape a batch opening must have before any digest is recomputed.
pub open spec fn opening_shape_ok(
    ds: Seq<Dimensions>,
    opened: Seq<Seq<Fe>>,
    index: nat,
    proof_len: nat,
) -> bool {
    &&& ds.len() > 0
    &&& forall|t: int| 0 <= t < ds.len() ==> is_power_of_two((#[trigger] ds[t]).height as nat)
    &&& opened.len() == ds.len()
    &&& forall|t: int| 0 <= t < ds.len() ==> (#[trigger] opened[t]).len() == ds[t].width as nat
    &&& index < max_dim_height(ds)
    &&& proof_len == log2(max_dim_height(ds))
}

/// The digest the verifier holds after replaying `k` levels of the path:
/// level 0 re-hashes the tallest claimed rows, each later level compresses
/// with the sibling (ordered by the path's parity) and re-absorbs the leaf
/// hash of any group injected at that level's length.
pub open spec fn chain_spec<H: Hasher, C: Compressor>(
    h: &H,
    c: &C,
    ds: Seq<Dimensions>,
    opened: Seq<Seq<Fe>>,
    index: nat,
    pf: Seq<Digest>,
    max_log: nat,
    k: nat,
) -> Digest
    decreases k,
{
    if k == 0 {
        h.hash_spec(opened_group(ds, opened, pow2(max_log)))
    } else {
        let prev = chain_spec(h, c, ds, opened, index, pf, max_log, (k - 1) as nat);
        let i_prev = index / pow2((k - 1) as nat);
        let base = if i_prev % 2 == 0 {
            c.compress_spec(prev, pf[k - 1])
        } else {
            c.compress_spec(pf[k - 1], prev)
        };
        let grp = opened_group(ds, opened, pow2((max_log - k) as nat));
        if grp.len() > 0 {
            c.compress_spec(base, h.hash_spec(grp))
        } else {
            base
        }
    }
}

/// Acceptance of a batch opening: the shape is right and the replayed path
/// ends in the commitment.
pub open spec fn batch_verify_spec<H: Hasher, C: Compressor>(
    h: &H,
    c: &C,
    commit: Digest,
    ds: Seq<Dimensions>,
    opened: Seq<Seq<Fe>>,
    index: nat,
    pf: Seq<Digest>,
) -> bool {
    let ml = log2(max_dim_height(ds));
    &&& opening_shape_ok(ds, opened, index, pf.len())
    &&& chain_spec(h, c, ds, opened, index, pf, ml, ml) == commit
}

/// A vector commitment scheme backed by the batched Merkle tree: `commit`
/// builds a tree, `open_batch` reveals one row of every matrix with its
/// sibling path, and `verify_batch` replays the path against a commitment.
pub struct MerkleTreeMMCS<H, C> {
    pub hash: H,
    pub compress: C,
}

impl<H: Hasher, C: Compressor> MerkleTreeMMCS<H, C> {
    /// Wraps a hasher and a compressor into a commitment scheme.
    pub fn new(hash: H, compress: C) -> (r: Self)
        ensures
            r.hash == hash,
            r.compress == compress,
    {
        MerkleTreeMMCS { hash, compress }
    }

    /// Commits to a batch: the root digest plus the tree as prover data.
    pub fn commit(&self, inputs: Vec<Matrix>) -> (r: Result<(Digest, MerkleTree), MerkleError>)
        requires
            forall|t: int| 0 <= t < inputs@.len() ==> (#[trigger] inputs@[t]).well_formed(),
        ensures
            match r {
                Ok(p) => {
                    &&& batch_ok(views_of(inputs@))
                    &&& p.1.leaves == inputs
                    &&& p.1.built_by(&self.hash, &self.compress)
                    &&& p.0 == root_spec(&self.hash, &self.compress, views_of(inputs@))
                },
                Err(e) => {
                    &&& !batch_ok(views_of(inputs@))
                    &&& (e == MerkleError::EmptyBatch <==> inputs@.len() == 0)
                },
            },
    {
        let tree = match MerkleTree::new(&self.hash, &self.compress, inputs) {
            Ok(tree) => tree,
            Err(e) => {
                return Err(e);
            },
        };
        proof {
            tree.lemma_built_root(&self.hash, &self.compress);
        }
        let root = tree.root();
        Ok((root, tree))
    }

    /// The matrices a tree commits to, in input order.
    pub fn get_matrices<'a>(&self, prover_data: &'a MerkleTree) -> (r: &'a Vec<Matrix>)
        ensures
            r@ == prover_data.leaves@,
    {
        &prover_data.leaves
    }

    /// Opens row `row` of every committed matrix (each taller matrix at the
    /// overall index, each shorter one at the index reduced to its height)
    /// together with the sibling digests of the path to the root.
    pub fn open_batch(&self, row: usize, prover_data: &MerkleTree) -> (r: (Vec<Vec<Fe>>, Vec<
        Digest,
    >))
        requires
            prover_data.built_by(&self.hash, &self.compress),
            (row as nat) < max_height_of(prover_data.views()),
        ensures
            rows_view(r.0@) == opened_rows_spec(prover_data.views(), row as nat),
            r.1@ == proof_spec(&self.hash, &self.compress, prover_data.views(), row as nat),
    {
        let ghost vs = prover_data.views();
        let ghost ml = prover_data.max_log();
        let max_h = prover_data.leaves_max_height();
        proof {
            lemma_max_height_attained(vs);
            let w = choose|t: int|
                0 <= t < vs.len() && (#[trigger] vs[t]).len() == max_height_of(vs);
            assert(is_power_of_two(vs[w].len()));
            lemma_pow2_log2(max_height_of(vs));
        }
        let mut values: Vec<Vec<Fe>> = Vec::new();
        let mut m: usize = 0;
        while m < prover_data.leaves.len()
            invariant
                m <= prover_data.leaves@.len(),
                vs == prover_data.views(),
                ml == prover_data.max_log(),
                vs.len() == prover_data.leaves@.len(),
                forall|u: int| 0 <= u < vs.len() ==> vs[u] == prover_data.leaves@[u]@,
                prover_data.shape_wf(),
                max_h as nat == max_height_of(vs),
                max_h as nat == pow2(ml),
                row < max_h,
                values@.len() == m as nat,
                forall|u: int|
                    0 <= u < m ==> (#[trigger] values@[u])@ == vs[u][opened_row_index(
                        ml,
                        vs[u].len(),
                        row as nat,
                    ) as int],
            decreases prover_data.leaves@.len() - m,
        {
            let hm = prover_data.leaves[m].height();
            proof {
                lemma_max_height_ge(vs, m as int);
                lemma_pow2_log2(vs[m as int].len());
                let lm = log2(vs[m as int].len());
                if lm > ml {
                    vstd::arithmetic::power2::lemma_pow2_strictly_increases(ml, lm);
                }
                vstd::arithmetic::power2::lemma_pow2_subtracts(lm, ml);
                vstd::arithmetic::power2::lemma_pow2_pos(lm);
                vstd::arithmetic::power2::lemma_pow2_pos((ml - lm) as nat);
                vstd::arithmetic::power2::lemma_pow2_adds((ml - lm) as nat, lm);
                vstd::arithmetic::div_mod::lemma_multiply_divide_lt(
                    row as int,
                    pow2((ml - lm) as nat) as int,
                    pow2(lm) as int,
                );
            }
            let divisor = max_h / hm;
            let reduced = row / divisor;
            let out_row = copy_row(&prover_data.leaves[m].rows[reduced]);
            values.push(out_row);
            m = m + 1;
        }
        proof {
            assert(rows_view(values@) =~= opened_rows_spec(vs, row as nat));
        }
        // Sibling digests, leaf layer upward.
        let mut siblings: Vec<Digest> = Vec::new();
        let levels = prover_data.digest_layers.len() - 1;
        let mut idx: usize = row;
        let mut k: usize = 0;
        proof {
            vstd::arithmetic::power2::lemma2_to64();
            lemma_layer_len(&self.hash, &self.compress, vs, ml, 0);
        }
        while k < levels
            invariant
                k <= levels,
                vs == prover_data.views(),
                ml == prover_data.max_log(),
                levels as nat == ml,
                prover_data.built_by(&self.hash, &self.compress),
                (row as nat) < pow2(ml),
                idx as nat == row as nat / pow2(k as nat),
                siblings@.len() == k as nat,
                forall|j: int|
                    0 <= j < k ==> siblings@[j] == layer_spec(
                        &self.hash,
                        &self.compress,
                        vs,
                        ml,
                        j as nat,
                    )[sibling_index(row as nat, j as nat) as int],
            decreases levels - k,
        {
            proof {
                lemma_layer_len(&self.hash, &self.compress, vs, ml, k as nat);
                lemma_div_pow2_bound(row as nat, ml, k as nat);
                vstd::arithmetic::power2::lemma_pow2_unfold((ml - k) as nat);
                lemma_div_pow2_step(row as nat, k as nat);
            }
            let sib = if idx % 2 == 0 {
                idx + 1
            } else {
                idx - 1
            };
            siblings.push(prover_data.digest_layers[k][sib]);
            idx = idx / 2;
            k = k + 1;
        }
        proof {
            assert(siblings@ =~= proof_spec(&self.hash, &self.compress, vs, row as nat));
        }
        (values, siblings)
    }

    /// Verifies a batch opening against a commitment: recomputes the leaf
    /// hash of the tallest claimed rows, replays the path with the sibling
    /// digests (re-absorbing injected groups per the dimensions), and compares
    /// the result to the commitment. Rejects malformed shapes and mismatching
    /// digests as distinct errors; never panics.
    pub fn verify_batch(
        &self,
        commit: &Digest,
        dimensions: &Vec<Dimensions>,
        index: usize,
        opened_values: &Vec<Vec<Fe>>,
        proof: &Vec<Digest>,
    ) -> (r: Result<(), MmcsError>)
        ensures
            r is Ok <==> batch_verify_spec(
                &self.hash,
                &self.compress,
                *commit,
                dimensions@,
                rows_view(opened_values@),
                index as nat,
                proof@,
            ),
            r == Err::<(), MmcsError>(MmcsError::MalformedProof) <==> !opening_shape_ok(
                dimensions@,
                rows_view(opened_values@),
                index as nat,
                proof@.len(),
            ),
    {
        let ghost ds = dimensions@;
        let ghost op = rows_view(opened_values@);
        if dimensions.len() == 0 {
            return Err(MmcsError::MalformedProof);
        }
        if opened_values.len() != dimensions.len() {
            return Err(MmcsError::MalformedProof);
        }
        let mut max_dh: usize = 0;
        let mut t: usize = 0;
        while t < dimensions.len()
            invariant
                t <= ds.len(),
                ds == dimensions@,
                op == rows_view(opened_values@),
                op.len() == ds.len(),
                max_dh as nat == max_dim_height(ds.take(t as int)),
                forall|u: int|
                    0 <= u < t ==> is_power_of_two((#[trigger] ds[u]).height as nat),
                forall|u: int| 0 <= u < t ==> (#[trigger] op[u]).len() == ds[u].width as nat,
                max_dh == 0 ==> t == 0,
                t > 0 ==> exists|u: int|
                    0 <= u < t && (#[trigger] ds[u]).height as nat == max_dh as nat,
            decreases ds.len() - t,
        {
            proof {
                assert(ds.take(t as int + 1).drop_last() =~= ds.take(t as int));
                assert(ds.take(t as int + 1).last() == ds[t as int]);
            }
            let d = dimensions[t];
            if checked_log2(d.height).is_none() {
                proof {
                    assert(!is_power_of_two(ds[t as int].height as nat));
                }
                return Err(MmcsError::MalformedProof);
            }
            if opened_values[t].len() != d.width {
                proof {
                    assert(op[t as int].len() != ds[t as int].width as nat);
                }
                return Err(MmcsError::MalformedProof);
            }
            if d.height > max_dh {
                max_dh = d.height;
            }
            t = t + 1;
        }
        proof {
            assert(ds.take(ds.len() as int) =~= ds);
        }
        if index >= max_dh {
            return Err(MmcsError::MalformedProof);
        }
        let ml = match checked_log2(max_dh) {
            Some(k) => k,
            None => {
                proof {
                    let u = choose|u: int|
                        0 <= u < ds.len() && (#[trigger] ds[u]).height as nat == max_dh as nat;
                    assert(is_power_of_two(ds[u].height as nat));
                    assert(false);
                }
                0
            },
        };
        if proof.len() != ml {
            return Err(MmcsError::MalformedProof);
        }
        proof {
            assert(opening_shape_ok(ds, op, index as nat, proof@.len()));
        }
        // Replay the path.
        let grp0 = gather_opened(dimensions, opened_values, max_dh);
        let mut cur = self.hash.hash_rows(&grp0);
        let mut idx: usize = index;
        let mut level_h: usize = max_dh;
        let mut k: usize = 0;
        proof {
            vstd::arithmetic::power2::lemma2_to64();
        }
        while k < ml
            invariant
                k <= ml,
                ds == dimensions@,
                op == rows_view(opened_values@),
                op.len() == ds.len(),
                proof@.len() == ml as nat,
                max_dh as nat == max_dim_height(ds),
                max_dh as nat == pow2(ml as nat),
                index < max_dh,
                idx as nat == index as nat / pow2(k as nat),
                level_h as nat == pow2((ml - k) as nat),
                cur == chain_spec(
                    &self.hash,
                    &self.compress,
                    ds,
                    op,
                    index as nat,
                    proof@,
                    ml as nat,
                    k as nat,
                ),
            decreases ml - k,
        {
            proof {
                vstd::arithmetic::power2::lemma_pow2_unfold((ml - k) as nat);
                lemma_div_pow2_step(index as nat, k as nat);
            }
            let base = if idx % 2 == 0 {
                self.compress.compress(cur, proof[k])
            } else {
                self.compress.compress(proof[k], cur)
            };
            let next_h = level_h / 2;
            let grp = gather_opened(dimensions, opened_values, next_h);
            if grp.len() > 0 {
                cur = self.compress.compress(base, self.hash.hash_rows(&grp));
            } else {
                cur = base;
            }
            idx = idx / 2;
            level_h = next_h;
            k = k + 1;
        }
        if cur == *commit {
            Ok(())
        } else {
            Err(MmcsError::CommitmentMismatch)
        }
    }
}

/// The row index a batch opening reveals for a height-`hh` matrix is within
/// that matrix's height.
pub proof fn lemma_opened_row_in_range(ml: nat, hh: nat, index: nat)
    requires
        is_power_of_two(hh),
        hh <= pow2(ml),
        index < pow2(ml),
    ensures
        opened_row_index(ml, hh, index) < hh,
{
    lemma_pow2_log2(hh);
    let lh = log2(hh);
    if lh > ml {
        vstd::arithmetic::power2::lemma_pow2_strictly_increases(ml, lh);
    }
    vstd::arithmetic::power2::lemma_pow2_pos(lh);
    vstd::arithmetic::power2::lemma_pow2_pos((ml - lh) as nat);
    vstd::arithmetic::power2::lemma_pow2_adds((ml - lh) as nat, lh);
    vstd::arithmetic::div_mod::lemma_multiply_divide_lt(
        index as int,
        pow2((ml - lh) as nat) as int,
        pow2(lh) as int,
    );
}

/// Dimension metadata that mirrors a batch pointwise has the same tallest
/// height as the batch.
pub proof fn lemma_max_dim_matches(vs: Seq<Seq<Seq<Fe>>>, ds: Seq<Dimensions>)
    requires
        ds.len() == vs.len(),
        forall|t: int| 0 <= t < ds.len() ==> (#[trigger] ds[t]).height as nat == vs[t].len(),
    ensures
        max_dim_height(ds) == max_height_of(vs),
    decreases vs.len(),
{
    if vs.len() > 0 {
        lemma_max_dim_matches(vs.drop_last(), ds.drop_last());
    }
}

/// On an honestly opened batch, the claimed rows of height `hh` are exactly
/// the committed rows of that height group at the reduced index.
proof fn lemma_opened_group_matches(
    vs: Seq<Seq<Seq<Fe>>>,
    ds: Seq<Dimensions>,
    opened: Seq<Seq<Fe>>,
    index: nat,
    ml: nat,
    hh: nat,
    n: int,
)
    requires
        0 <= n <= vs.len(),
        ds.len() == vs.len(),
        opened.len() == vs.len(),
        forall|t: int| 0 <= t < ds.len() ==> (#[trigger] ds[t]).height as nat == vs[t].len(),
        forall|t: int|
            0 <= t < vs.len() ==> (#[trigger] opened[t]) == vs[t][opened_row_index(
                ml,
                vs[t].len(),
                index,
            ) as int],
    ensures
        opened_group(ds.take(n), opened.take(n), hh) == group_rows_at(
            vs.take(n),
            hh,
            opened_row_index(ml, hh, index) as int,
        ),
    decreases n,
{
    if n > 0 {
        lemma_opened_group_matches(vs, ds, opened, index, ml, hh, n - 1);
        assert(ds.take(n).drop_last() =~= ds.take(n - 1));
        assert(opened.take(n).drop_last() =~= opened.take(n - 1));
        assert(vs.take(n).drop_last() =~= vs.take(n - 1));
        assert(ds.take(n).last() == ds[n - 1]);
        assert(opened.take(n).last() == opened[n - 1]);
        assert(vs.take(n).last() == vs[n - 1]);
    }
}

/// The verifier's path replay over an honest opening reproduces the digest
/// of layer `k` at the path position `index / pow2(k)`.
proof fn lemma_chain_equals_layer<H: Hasher, C: Compressor>(
    h: &H,
    c: &C,
    vs: Seq<Seq<Seq<Fe>>>,
    ds: Seq<Dimensions>,
    index: nat,
    ml: nat,
    k: nat,
)
    requires
        batch_ok(vs),
        ml == log2(max_height_of(vs)),
        max_height_of(vs) == pow2(ml),
        index < pow2(ml),
        k <= ml,
        ds.len() == vs.len(),
        forall|t: int| 0 <= t < ds.len() ==> (#[trigger] ds[t]).height as nat == vs[t].len(),
    ensures
        chain_spec(
            h,
            c,
            ds,
            opened_rows_spec(vs, index),
            index,
            proof_spec(h, c, vs, index),
            ml,
            k,
        ) == layer_spec(h, c, vs, ml, k)[(index / pow2(k)) as int],
    decreases k,
{
    let opened = opened_rows_spec(vs, index);
    let pf = proof_spec(h, c, vs, index);
    assert(vs.take(vs.len() as int) =~= vs);
    assert(ds.take(ds.len() as int) =~= ds);
    assert(opened.take(opened.len() as int) =~= opened);
    if k == 0 {
        lemma_opened_group_matches(vs, ds, opened, index, ml, pow2(ml), vs.len() as int);
        lemma_log2_pow2(ml);
        vstd::arithmetic::power2::lemma2_to64();
        assert(opened_row_index(ml, pow2(ml), index) == index / pow2(0));
        assert(index / pow2(0) == index);
    } else {
        lemma_chain_equals_layer(h, c, vs, ds, index, ml, (k - 1) as nat);
        let prev = layer_spec(h, c, vs, ml, (k - 1) as nat);
        lemma_layer_len(h, c, vs, ml, (k - 1) as nat);
        lemma_layer_len(h, c, vs, ml, k);
        vstd::arithmetic::power2::lemma_pow2_unfold((ml - k + 1) as nat);
        let ip = index / pow2((k - 1) as nat);
        let ik = index / pow2(k);
        lemma_div_pow2_step(index, (k - 1) as nat);
        assert(ik == ip / 2);
        lemma_div_pow2_bound(index, ml, (k - 1) as nat);
        lemma_div_pow2_bound(index, ml, k);
        // The sibling digest recorded in the proof.
        assert(pf[k - 1] == prev[sibling_index(index, (k - 1) as nat) as int]);
        // The group injected at this layer.
        lemma_log2_pow2((ml - k) as nat);
        lemma_opened_group_matches(
            vs,
            ds,
            opened,
            index,
            ml,
            pow2((ml - k) as nat),
            vs.len() as int,
        );
        assert(opened_row_index(ml, pow2((ml - k) as nat), index) == ik);
        assert(layer_spec(h, c, vs, ml, k) == next_layer_spec(h, c, vs, prev));
        assert(layer_spec(h, c, vs, ml, k)[ik as int] == node_spec(h, c, vs, prev, ik as int));
        assert(ip == 2 * ik + ip % 2);
    }
}

/// Soundness of openings: for every batch the tree builder accepts and every
/// row index within the tallest height, the values and siblings produced by
/// `open_batch` are accepted by `verify_batch` against the tree's root and
/// the batch's dimensions.
pub proof fn lemma_open_then_verify<H: Hasher, C: Compressor>(
    h: &H,
    c: &C,
    mats: Seq<Matrix>,
    ds: Seq<Dimensions>,
    index: nat,
)
    requires
        batch_ok(views_of(mats)),
        forall|t: int| 0 <= t < mats.len() ==> (#[trigger] mats[t]).well_formed(),
        index < max_height_of(views_of(mats)),
        ds.len() == mats.len(),
        forall|t: int|
            0 <= t < ds.len() ==> (#[trigger] ds[t]).height as nat == views_of(mats)[t].len()
                && ds[t].width == mats[t].width,
    ensures
        batch_verify_spec(
            h,
            c,
            root_spec(h, c, views_of(mats)),
            ds,
            opened_rows_spec(views_of(mats), index),
            index,
            proof_spec(h, c, views_of(mats), index),
        ),
{
    let vs = views_of(mats);
    let opened = opened_rows_spec(vs, index);
    let pf = proof_spec(h, c, vs, index);
    lemma_max_height_attained(vs);
    let w = choose|t: int| 0 <= t < vs.len() && (#[trigger] vs[t]).len() == max_height_of(vs);
    assert(is_power_of_two(vs[w].len()));
    lemma_pow2_log2(max_height_of(vs));
    let ml = log2(max_height_of(vs));
    lemma_max_dim_matches(vs, ds);
    // Shape: every claimed row has its matrix's width.
    assert forall|t: int| 0 <= t < ds.len() implies (#[trigger] opened[t]).len()
        == ds[t].width as nat by {
        lemma_max_height_ge(vs, t);
        lemma_opened_row_in_range(ml, vs[t].len(), index);
        let ri = opened_row_index(ml, vs[t].len(), index);
        assert(mats[t].rows@[ri as int]@.len() == mats[t].width as nat);
        assert(vs[t][ri as int] == mats[t].rows@[ri as int]@);
    }
    assert(opening_shape_ok(ds, opened, index, pf.len()));
    // The replayed chain ends at the root digest.
    lemma_chain_equals_layer(h, c, vs, ds, index, ml, ml);
    vstd::arithmetic::power2::lemma_pow2_pos(ml);
    vstd::arithmetic::div_mod::lemma_basic_div(index as int, pow2(ml) as int);
}

/// Determinism: two trees built by the same hasher and compressor over
/// batches with equal views carry identical digest layers, so in particular
/// identical roots.
pub proof fn lemma_root_deterministic<H: Hasher, C: Compressor>(
    h: &H,
    c: &C,
    t1: MerkleTree,
    t2: MerkleTree,
)
    requires
        t1.built_by(h, c),
        t2.built_by(h, c),
        t1.views() == t2.views(),
    ensures
        t1.digest_layers@.len() == t2.digest_layers@.len(),
        forall|k: int|
            0 <= k < t1.digest_layers@.len() ==> (#[trigger] t1.digest_layers@[k])@
                == t2.digest_layers@[k]@,
        t1.digest_layers@.last()@[0] == t2.digest_layers@.last()@[0],
{
    assert(t1.max_log() == t2.max_log());
    assert forall|k: int| 0 <= k < t1.digest_layers@.len() implies (
    #[trigger] t1.digest_layers@[k])@ == t2.digest_layers@[k]@ by {
        assert(t1.digest_layers@[k]@ == layer_spec(h, c, t1.views(), t1.max_log(), k as nat));
        assert(t2.digest_layers@[k]@ == layer_spec(h, c, t2.views(), t2.max_log(), k as nat));
    }
    t1.lemma_built_root(h, c);
    t2.lemma_built_root(h, c);
}

/// Openings are independent across matrices: what an opening reveals for
/// matrix `m` depends only on that matrix's own view and the batch's height
/// profile, not on any other matrix's contents.
pub proof fn lemma_opening_independent(
    vs1: Seq<Seq<Seq<Fe>>>,
    vs2: Seq<Seq<Seq<Fe>>>,
    index: nat,
    m: int,
)
    requires
        vs1.len() == vs2.len(),
        forall|t: int| 0 <= t < vs1.len() ==> (#[trigger] vs1[t]).len() == vs2[t].len(),
        0 <= m < vs1.len(),
        vs1[m] == vs2[m],
    ensures
        opened_rows_spec(vs1, index)[m] == opened_rows_spec(vs2, index)[m],
{
    lemma_max_height_congruent(vs1, vs2);
}

/// Collects the claimed rows whose stated height is `hh`, in input order;
/// the executable counterpart of `opened_group`.
pub(crate) fn gather_opened(ds: &Vec<Dimensions>, opened: &Vec<Vec<Fe>>, hh: usize) -> (out: Vec<Vec<Fe>>)
    requires
        opened@.len() == ds@.len(),
    ensures
        rows_view(out@) == opened_group(ds@, rows_view(opened@), hh as nat),
        out@.len() == opened_group(ds@, rows_view(opened@), hh as nat).len(),
{
    let ghost dv = ds@;
    let ghost op = rows_view(opened@);
    let mut out: Vec<Vec<Fe>> = Vec::new();
    let mut t: usize = 0;
    while t < ds.len()
        invariant
            t <= dv.len(),
            dv == ds@,
            op == rows_view(opened@),
            op.len() == dv.len(),
            rows_view(out@) =~= opened_group(dv.take(t as int), op.take(t as int), hh as nat),
        decreases dv.len() - t,
    {
        proof {
            assert(dv.take(t as int + 1).drop_last() =~= dv.take(t as int));
            assert(op.take(t as int + 1).drop_last() =~= op.take(t as int));
            assert(dv.take(t as int + 1).last() == dv[t as int]);
            assert(op.take(t as int + 1).last() == op[t as int]);
        }
        if ds[t].height == hh {
            out.push(copy_row(&opened[t]));
        }
        t = t + 1;
    }
    proof {
        assert(dv.take(dv.len() as int) =~= dv);
        assert(op.take(op.len() as int) =~= op);
    }
    out
}

/// Collects row `i` of every matrix of height `hh`, in input order; this is
/// the executable counterpart of `group_rows_at`.
pub fn gather_rows(leaves: &Vec<Matrix>, hh: usize, i: usize) -> (out: Vec<Vec<Fe>>)
    requires
        i < hh,
        forall|t: int| 0 <= t < leaves@.len() ==> (#[trigger] leaves@[t]).well_formed(),
    ensures
        rows_view(out@) == group_rows_at(views_of(leaves@), hh as nat, i as int),
        out@.len() == group_rows_at(views_of(leaves@), hh as nat, i as int).len(),
{
    let ghost vs = views_of(leaves@);
    let mut out: Vec<Vec<Fe>> = Vec::new();
    let mut m: usize = 0;
    while m < leaves.len()
        invariant
            m <= leaves@.len(),
            i < hh,
            vs == views_of(leaves@),
            vs.len() == leaves@.len(),
            forall|u: int| 0 <= u < vs.len() ==> vs[u] == leaves@[u]@,
            forall|t: int| 0 <= t < leaves@.len() ==> (#[trigger] leaves@[t]).well_formed(),
            rows_view(out@) =~= group_rows_at(vs.take(m as int), hh as nat, i as int),
        decreases leaves@.len() - m,
    {
        proof {
            assert(vs.take(m as int + 1).drop_last() =~= vs.take(m as int));
            assert(vs.take(m as int + 1).last() == vs[m as int]);
        }
        if leaves[m].height() == hh {
            let row = copy_row(&leaves[m].rows[i]);
            out.push(row);
            proof {
                assert(rows_view(out@) =~= group_rows_at(
                    vs.take(m as int + 1),
                    hh as nat,
                    i as int,
                ));
            }
        }
        m = m + 1;
    }
    proof {
        assert(vs.take(vs.len() as int) =~= vs);
    }
    out
}

} // verus!
