//! The FRI low-degree-test protocol over the batched Merkle-tree commitment:
//! the commit phase folds a batched codeword in half round by round with
//! fresh transcript challenges and re-commits each round; the query phase
//! opens every round at transcript-drawn indices; the verifier replays the
//! transcript, checks every Merkle opening, and recomputes every fold.
//!
//! Codeword convention: a codeword of length `2^k` holds the evaluations of a
//! polynomial over the order-`2^k` multiplicative subgroup generated by
//! `g = gen_spec(k)`, in bit-reversed generator-power order: position `i`
//! holds `p(g^bit_reverse(k, i))`. Adjacent positions `2j` and `2j + 1` then
//! hold `p(x)` and `p(-x)` for `x = g^bit_reverse(k-1, j)`, so one fold step
//! pairs adjacent positions, and a query's position reduces by halving, in
//! step with the Merkle paths of the committed rows. One fold with challenge
//! `beta` yields the evaluations of `p_even + beta * p_odd` over the squared
//! domain, in the same order: `fold_point` computes
//! `(p(x) + p(-x))/2 + beta * (p(x) - p(-x))/(2x)`.

use vstd::prelude::*;
use vstd::arithmetic::power2::pow2;
use crate::bits::bit_reverse;
use crate::bits::bit_reverse_u64;
use crate::bits::is_power_of_two;
use crate::bits::log2;
use crate::bits::pow2_u64;
use crate::field::Fe;
use crate::field::FP;
use crate::field::fe_add;
use crate::field::fe_mul;
use crate::field::fe_pow;
use crate::field::fe_sub;
use crate::field::fe_zero;
use crate::hash::Compressor;
use crate::hash::Digest;
use crate::hash::Hasher;
use crate::hash::rows_view;
use crate::matrix::Dimensions;
use crate::matrix::Matrix;
use crate::matrix::copy_matrix;
use crate::matrix::copy_row;
use crate::merkle::MerkleTree;
use crate::merkle::group_rows_at;
use crate::merkle::views_of;

verus! {

/// FRI configuration: the number of independent query index draws. The fold
/// arity is fixed at two (even/odd decomposition per round).
pub struct FriConfig {
    pub num_queries: usize,
}

/// One batch opening carried inside a FRI proof: the claimed rows plus the
/// sibling digests of the Merkle path.
pub struct BatchOpening {
    pub opened_rows: Vec<Vec<Fe>>,
    pub siblings: Vec<Digest>,
}

/// The openings for one query index: one batch opening per committed input
/// tree, then one per commit-phase round.
pub struct QueryProof {
    pub input_openings: Vec<BatchOpening>,
    pub round_openings: Vec<BatchOpening>,
}

/// The artifact of the FRI prover: the round commitments (largest height
/// first), the terminal folded scalar, and one `QueryProof` per query.
pub struct FriProof {
    pub commit_phase_commits: Vec<Digest>,
    pub final_value: Fe,
    pub query_proofs: Vec<QueryProof>,
}

/// A verifier rejection: the proof does not check out against the
/// commitments and the transcript. Malformed shapes and failed digest or
/// fold checks are all rejections, never panics.
#[derive(Clone, Copy, PartialEq, Eq, Structural, Debug)]
pub enum FriError {
    InvalidProof,
}

/// The inverse of two in the field, `(FP + 1) / 2`.
pub open spec fn fe_half() -> Fe {
    Fe { value: 9223372034707292161 }
}

/// Every arithmetic specification result is a reduced field element.
pub proof fn lemma_fe_ops_wf(a: Fe, b: Fe)
    ensures
        fe_add(a, b).wf(),
        fe_sub(a, b).wf(),
        fe_mul(a, b).wf(),
{
}

/// Horner combination of one row into an accumulator: for each column value
/// `v`, left to right, `acc := acc * alpha + v`.
pub open spec fn horner_row(acc: Fe, row: Seq<Fe>, alpha: Fe) -> Fe
    decreases row.len(),
{
    if row.len() == 0 {
        acc
    } else {
        horner_row(fe_add(fe_mul(acc, alpha), row[0]), row.drop_first(), alpha)
    }
}

/// Horner combination of several rows in order.
pub open spec fn horner_rows(acc: Fe, rows: Seq<Seq<Fe>>, alpha: Fe) -> Fe
    decreases rows.len(),
{
    if rows.len() == 0 {
        acc
    } else {
        horner_rows(horner_row(acc, rows[0], alpha), rows.drop_first(), alpha)
    }
}

/// One folded position: `(a + b)/2 + beta * ((a - b)/2) * g^(-j)`, where `a`
/// and `b` are the evaluations at `x` and `-x` and `ginv_j` is `x^(-1)`.
pub open spec fn fold_point(a: Fe, b: Fe, beta: Fe, ginv_j: Fe) -> Fe {
    let even = fe_mul(fe_add(a, b), fe_half());
    let odd = fe_mul(fe_mul(fe_sub(a, b), fe_half()), ginv_j);
    fe_add(even, fe_mul(beta, odd))
}

/// The fold of a whole codeword: position `j` of the output pairs the
/// adjacent input positions `2j` and `2j + 1`, which hold the evaluations at
/// `x` and `-x` for `x = g^bit_reverse(log2(n), j)`.
pub open spec fn fold_spec(cw: Seq<Fe>, beta: Fe, ginv: Fe) -> Seq<Fe> {
    Seq::new(
        cw.len() / 2,
        |j: int|
            fold_point(
                cw[2 * j],
                cw[2 * j + 1],
                beta,
                fe_pow(ginv, bit_reverse(log2(cw.len() / 2), j as nat)),
            ),
    )
}

/// Every element of a folded codeword is reduced.
pub proof fn lemma_fold_spec_wf(cw: Seq<Fe>, beta: Fe, ginv: Fe)
    ensures
        forall|j: int| 0 <= j < fold_spec(cw, beta, ginv).len() ==> (#[trigger] fold_spec(
            cw,
            beta,
            ginv,
        )[j]).wf(),
{
    assert forall|j: int| 0 <= j < fold_spec(cw, beta, ginv).len() implies (#[trigger] fold_spec(
        cw,
        beta,
        ginv,
    )[j]).wf() by {
        let gp = fe_pow(ginv, bit_reverse(log2(cw.len() / 2), j as nat));
        lemma_fe_ops_wf(
            fe_mul(fe_add(cw[2 * j], cw[2 * j + 1]), fe_half()),
            fe_mul(beta, fe_mul(fe_mul(fe_sub(cw[2 * j], cw[2 * j + 1]), fe_half()), gp)),
        );
    }
}

/// The generator of the order-`pow2(log_h)` multiplicative subgroup:
/// `7 ^ ((FP - 1) / pow2(log_h))`. Seven generates the whole multiplicative
/// group of the field, whose order `FP - 1` is divisible by `2^32`.
pub open spec fn gen_spec(log_h: nat) -> Fe {
    fe_pow(Fe { value: 7 }, (FP - 1) as nat / pow2(log_h))
}

/// The inverse of the domain generator, computed by Fermat exponentiation.
pub open spec fn ginv_spec(log_h: nat) -> Fe {
    fe_pow(gen_spec(log_h), (FP - 2) as nat)
}

/// Computes the domain generator for a domain of size `pow2(log_h)`.
pub fn domain_generator(log_h: usize) -> (r: Fe)
    requires
        log_h <= 32,
    ensures
        r == gen_spec(log_h as nat),
        r.wf(),
{
    let p2 = pow2_u64(log_h as u64);
    let e = (FP - 1) / p2;
    proof {
        vstd::arithmetic::power2::lemma_pow2_pos(log_h as nat);
    }
    let g = Fe { value: 7 };
    g.pow(e)
}

/// The inverse of two, as an executable constant.
pub fn half_exec() -> (r: Fe)
    ensures
        r == fe_half(),
        r.wf(),
{
    Fe { value: 9223372034707292161 }
}

/// Folds a codeword of length `2n = 2 * pow2(log_half)` into one of length
/// `n` with the challenge `beta`, pairing adjacent positions and walking the
/// inverse domain generator in bit-reversed order.
pub fn fold_even_odd(cw: &Vec<Fe>, beta: Fe, ginv: Fe, log_half: usize) -> (r: Vec<Fe>)
    requires
        beta.wf(),
        ginv.wf(),
        log_half <= 63,
        cw@.len() == 2 * pow2(log_half as nat),
        forall|j: int| 0 <= j < cw@.len() ==> (#[trigger] cw@[j]).wf(),
    ensures
        r@ == fold_spec(cw@, beta, ginv),
        r@.len() == cw@.len() / 2,
        forall|j: int| 0 <= j < r@.len() ==> (#[trigger] r@[j]).wf(),
{
    let len = cw.len();
    let n = len / 2;
    proof {
        crate::bits::lemma_log2_pow2(log_half as nat);
        vstd::arithmetic::power2::lemma_pow2_pos(log_half as nat);
        assert(log2((cw@.len() / 2) as nat) == log_half as nat);
    }
    let half = half_exec();
    let mut out: Vec<Fe> = Vec::new();
    let mut j: usize = 0;
    while j < n
        invariant
            j <= n,
            len == cw@.len(),
            n == len / 2,
            2 * n == len,
            n as nat == pow2(log_half as nat),
            log_half <= 63,
            log2(n as nat) == log_half as nat,
            beta.wf(),
            ginv.wf(),
            half == fe_half(),
            forall|u: int| 0 <= u < cw@.len() ==> (#[trigger] cw@[u]).wf(),
            out@.len() == j as nat,
            forall|u: int|
                0 <= u < j ==> out@[u] == fold_point(
                    cw@[2 * u],
                    cw@[2 * u + 1],
                    beta,
                    fe_pow(ginv, bit_reverse(log2((cw@.len() / 2) as nat), u as nat)),
                ),
        decreases n - j,
    {
        let a = cw[2 * j];
        let b = cw[2 * j + 1];
        let rev = bit_reverse_u64(log_half as u64, j as u64);
        let gp = ginv.pow(rev);
        let even = a.add(b).mul(half);
        let odd = a.sub(b).mul(half).mul(gp);
        out.push(even.add(beta.mul(odd)));
        j = j + 1;
    }
    proof {
        assert(out@ =~= fold_spec(cw@, beta, ginv));
        lemma_fold_spec_wf(cw@, beta, ginv);
    }
    out
}

/// Every entry of a batch of views is a reduced field element.
pub open spec fn views_elements_wf(vs: Seq<Seq<Seq<Fe>>>) -> bool {
    forall|t: int, i: int, j: int|
        0 <= t < vs.len() && 0 <= i < vs[t].len() && 0 <= j < vs[t][i].len() ==> (#[trigger] vs[t][i][j]).wf()
}

/// Rows gathered from a batch with reduced entries have reduced entries.
pub proof fn lemma_group_rows_wf(vs: Seq<Seq<Seq<Fe>>>, hh: nat, i: int)
    requires
        views_elements_wf(vs),
        0 <= i < hh,
    ensures
        forall|u: int, j: int|
            0 <= u < group_rows_at(vs, hh, i).len() && 0 <= j < group_rows_at(vs, hh, i)[u].len()
                ==> (#[trigger] group_rows_at(vs, hh, i)[u][j]).wf(),
    decreases vs.len(),
{
    if vs.len() > 0 {
        assert(views_elements_wf(vs.drop_last())) by {
            assert forall|t: int, i2: int, j2: int|
                0 <= t < vs.drop_last().len() && 0 <= i2 < vs.drop_last()[t].len() && 0 <= j2
                    < vs.drop_last()[t][i2].len() implies (#[trigger] vs.drop_last()[t][i2][j2]).wf() by {
                assert(vs.drop_last()[t] == vs[t]);
            }
        }
        lemma_group_rows_wf(vs.drop_last(), hh, i);
        let grp = group_rows_at(vs, hh, i);
        let rest = group_rows_at(vs.drop_last(), hh, i);
        if vs.last().len() == hh {
            assert forall|u: int, j: int|
                0 <= u < grp.len() && 0 <= j < grp[u].len() implies (#[trigger] grp[u][j]).wf() by {
                if u < rest.len() {
                    assert(grp[u] == rest[u]);
                } else {
                    assert(grp[u] == vs.last()[i]);
                    assert(vs[vs.len() - 1][i][j].wf());
                }
            }
        }
    }
}

/// The Horner reduction of a height group into a running codeword, one
/// combined value per row: `reduce_spec(...)[r]` continues `init[r]` through
/// every column of every height-`hh` matrix at row `r`.
pub open spec fn reduce_spec(
    vs: Seq<Seq<Seq<Fe>>>,
    hh: nat,
    init: Seq<Fe>,
    alpha: Fe,
) -> Seq<Fe> {
    Seq::new(hh, |r: int| horner_rows(init[r], group_rows_at(vs, hh, r), alpha))
}

/// Horner-combines the given rows into the accumulator, left to right.
pub fn horner_reduce(init: Fe, rows: &Vec<Vec<Fe>>, alpha: Fe) -> (r: Fe)
    requires
        init.wf(),
        alpha.wf(),
        forall|u: int, j: int|
            0 <= u < rows@.len() && 0 <= j < rows@[u]@.len() ==> (#[trigger] rows@[u]@[j]).wf(),
    ensures
        r == horner_rows(init, rows_view(rows@), alpha),
        r.wf(),
{
    let ghost all = rows_view(rows@);
    let mut acc = init;
    proof {
        assert(all.skip(0) =~= all);
    }
    let mut i: usize = 0;
    while i < rows.len()
        invariant
            i <= rows@.len(),
            acc.wf(),
            alpha.wf(),
            all == rows_view(rows@),
            all.len() == rows@.len(),
            forall|t: int| 0 <= t < all.len() ==> all[t] == rows@[t]@,
            forall|u: int, j: int|
                0 <= u < rows@.len() && 0 <= j < rows@[u]@.len() ==> (#[trigger] rows@[u]@[j]).wf(),
            horner_rows(init, all, alpha) == horner_rows(acc, all.skip(i as int), alpha),
        decreases rows@.len() - i,
    {
        proof {
            assert(all.skip(i as int)[0] == all[i as int]);
            assert(all.skip(i as int).drop_first() =~= all.skip(i as int + 1));
            assert(horner_rows(acc, all.skip(i as int), alpha) == horner_rows(
                horner_row(acc, all[i as int], alpha),
                all.skip(i as int + 1),
                alpha,
            ));
        }
        let row = &rows[i];
        let ghost rv = row@;
        proof {
            assert(rv.skip(0) =~= rv);
        }
        let mut j: usize = 0;
        while j < row.len()
            invariant
                j <= rv.len(),
                rv == row@,
                i < all.len(),
                acc.wf(),
                alpha.wf(),
                all == rows_view(rows@),
                rv == all[i as int],
                forall|u: int| 0 <= u < rv.len() ==> (#[trigger] rv[u]).wf(),
                horner_rows(init, all, alpha) == horner_rows(
                    horner_row(acc, rv.skip(j as int), alpha),
                    all.skip(i as int + 1),
                    alpha,
                ),
            decreases rv.len() - j,
        {
            proof {
                assert(rv.skip(j as int)[0] == rv[j as int]);
                assert(rv.skip(j as int).drop_first() =~= rv.skip(j as int + 1));
            }
            acc = acc.mul(alpha).add(row[j]);
            j = j + 1;
        }
        proof {
            assert(rv.skip(j as int) =~= Seq::<Fe>::empty());
            assert(horner_row(acc, rv.skip(j as int), alpha) == acc);
        }
        i = i + 1;
    }
    proof {
        assert(all.skip(i as int) =~= Seq::<Seq<Fe>>::empty());
    }
    acc
}

/// Reduces the height-`hh` group of the batch into the running codeword
/// `init`, row by row, with the batching challenge `alpha`.
pub fn reduce_matrices(mats: &Vec<Matrix>, height: usize, init: &Vec<Fe>, alpha: Fe) -> (r: Vec<
    Fe,
>)
    requires
        init@.len() == height as nat,
        height > 0,
        alpha.wf(),
        forall|u: int| 0 <= u < init@.len() ==> (#[trigger] init@[u]).wf(),
        forall|t: int| 0 <= t < mats@.len() ==> (#[trigger] mats@[t]).well_formed(),
        views_elements_wf(views_of(mats@)),
    ensures
        r@ == reduce_spec(views_of(mats@), height as nat, init@, alpha),
        r@.len() == height as nat,
        forall|u: int| 0 <= u < r@.len() ==> (#[trigger] r@[u]).wf(),
{
    let ghost vs = views_of(mats@);
    let mut out: Vec<Fe> = Vec::new();
    let mut ri: usize = 0;
    while ri < height
        invariant
            ri <= height,
            vs == views_of(mats@),
            init@.len() == height as nat,
            alpha.wf(),
            forall|u: int| 0 <= u < init@.len() ==> (#[trigger] init@[u]).wf(),
            forall|t: int| 0 <= t < mats@.len() ==> (#[trigger] mats@[t]).well_formed(),
            views_elements_wf(vs),
            out@.len() == ri as nat,
            forall|u: int|
                0 <= u < ri ==> out@[u] == horner_rows(
                    init@[u],
                    group_rows_at(vs, height as nat, u),
                    alpha,
                ),
            forall|u: int| 0 <= u < out@.len() ==> (#[trigger] out@[u]).wf(),
        decreases height - ri,
    {
        let grp = crate::merkle::gather_rows(mats, height, ri);
        proof {
            lemma_group_rows_wf(vs, height as nat, ri as int);
            assert forall|u: int, j: int|
                0 <= u < grp@.len() && 0 <= j < grp@[u]@.len() implies (
            #[trigger] grp@[u]@[j]).wf() by {
                assert(grp@[u]@ == rows_view(grp@)[u]);
                assert(rows_view(grp@)[u][j] == group_rows_at(vs, height as nat, ri as int)[u][j]);
            }
        }
        let v = horner_reduce(init[ri], &grp, alpha);
        out.push(v);
        ri = ri + 1;
    }
    proof {
        assert(out@ =~= reduce_spec(vs, height as nat, init@, alpha));
    }
    out
}

/// The width-2 matrix a codeword of length `2n` is committed as: row `j`
/// holds the paired evaluations at the adjacent positions `2j` and `2j + 1`.
pub open spec fn pair_view(cw: Seq<Fe>) -> Seq<Seq<Fe>> {
    Seq::new(cw.len() / 2, |j: int| seq![cw[2 * j], cw[2 * j + 1]])
}

/// The views of a sequence of committed input trees.
pub open spec fn tree_views(inputs: Seq<MerkleTree>) -> Seq<Seq<Seq<Seq<Fe>>>> {
    inputs.map_values(|t: MerkleTree| t.views())
}

/// All matrices of all input trees, flattened in tree order.
pub open spec fn flatten_views(tvs: Seq<Seq<Seq<Seq<Fe>>>>) -> Seq<Seq<Seq<Fe>>>
    decreases tvs.len(),
{
    if tvs.len() == 0 {
        Seq::empty()
    } else {
        flatten_views(tvs.drop_last()) + tvs.last()
    }
}

/// The tallest height of a concatenation is the taller of the two parts'.
pub proof fn lemma_max_concat(a: Seq<Seq<Seq<Fe>>>, b: Seq<Seq<Seq<Fe>>>)
    ensures
        crate::merkle::max_height_of(a + b) == if crate::merkle::max_height_of(a)
            > crate::merkle::max_height_of(b) {
            crate::merkle::max_height_of(a)
        } else {
            crate::merkle::max_height_of(b)
        },
    decreases b.len(),
{
    if b.len() == 0 {
        assert(a + b =~= a);
    } else {
        lemma_max_concat(a, b.drop_last());
        assert((a + b).drop_last() =~= a + b.drop_last());
        assert((a + b).last() == b.last());
    }
}

/// No input tree's tallest height exceeds the flattened batch's.
pub proof fn lemma_flatten_tree_max(tvs: Seq<Seq<Seq<Seq<Fe>>>>, t: int)
    requires
        0 <= t < tvs.len(),
    ensures
        crate::merkle::max_height_of(tvs[t]) <= crate::merkle::max_height_of(flatten_views(tvs)),
    decreases tvs.len(),
{
    lemma_max_concat(flatten_views(tvs.drop_last()), tvs.last());
    if t + 1 < tvs.len() {
        lemma_flatten_tree_max(tvs.drop_last(), t);
    }
}

/// Flattening batches that are each acceptable yields an acceptable batch.
pub proof fn lemma_flatten_batch_ok(tvs: Seq<Seq<Seq<Seq<Fe>>>>)
    requires
        tvs.len() > 0,
        forall|t: int| 0 <= t < tvs.len() ==> crate::merkle::batch_ok(#[trigger] tvs[t]),
    ensures
        crate::merkle::batch_ok(flatten_views(tvs)),
    decreases tvs.len(),
{
    let pre = flatten_views(tvs.drop_last());
    let all = flatten_views(tvs);
    if tvs.len() == 1 {
        assert(pre =~= Seq::<Seq<Seq<Fe>>>::empty());
        assert(all =~= tvs[0]);
    } else {
        lemma_flatten_batch_ok(tvs.drop_last());
        assert forall|j: int| 0 <= j < all.len() implies is_power_of_two(
            (#[trigger] all[j]).len(),
        ) by {
            if j < pre.len() {
                assert(all[j] == pre[j]);
            } else {
                assert(all[j] == tvs.last()[j - pre.len()]);
            }
        }
    }
}

/// The all-zero codeword the tallest height group is combined into.
pub open spec fn zero_codeword(n: nat) -> Seq<Fe> {
    Seq::new(n, |i: int| fe_zero())
}

/// The commit phase from a given codeword down to a single value: each round
/// commits the codeword as a paired matrix, absorbs the commitment, draws a
/// fresh fold challenge from the transcript, folds, and combines any height
/// group whose height now matches. Returns the per-round codewords, the round
/// commitments, the final transcript state, and the terminal scalar.
#[verifier::opaque]
pub open spec fn commit_rounds_spec<H: Hasher, C: Compressor>(
    h: &H,
    c: &C,
    vs: Seq<Seq<Seq<Fe>>>,
    alpha: Fe,
    st: u64,
    cw: Seq<Fe>,
) -> (Seq<Seq<Fe>>, Seq<Digest>, u64, Fe)
    decreases cw.len(),
{
    if cw.len() <= 1 {
        (
            Seq::empty(),
            Seq::empty(),
            st,
            if cw.len() == 1 {
                cw[0]
            } else {
                fe_zero()
            },
        )
    } else {
        let com = crate::merkle::root_spec(h, c, seq![pair_view(cw)]);
        let st1 = crate::transcript::absorb_spec(st, com.value);
        let beta = crate::transcript::draw_value_spec(st1);
        let st2 = crate::transcript::draw_state_spec(st1);
        let folded = fold_spec(cw, beta, ginv_spec(log2(cw.len())));
        let next = if group_rows_at(vs, folded.len(), 0).len() > 0 {
            reduce_spec(vs, folded.len(), folded, alpha)
        } else {
            folded
        };
        let rest = commit_rounds_spec(h, c, vs, alpha, st2, next);
        (seq![cw] + rest.0, seq![com] + rest.1, rest.2, rest.3)
    }
}

/// The round recursion on a terminal codeword: no rounds, the scalar is the
/// codeword's sole entry.
pub proof fn lemma_commit_rounds_base<H: Hasher, C: Compressor>(
    h: &H,
    c: &C,
    vs: Seq<Seq<Seq<Fe>>>,
    alpha: Fe,
    st: u64,
    cw: Seq<Fe>,
)
    requires
        cw.len() == 1,
    ensures
        commit_rounds_spec(h, c, vs, alpha, st, cw) == (Seq::<Seq<Fe>>::empty(), Seq::<
            Digest,
        >::empty(), st, cw[0]),
{
    reveal(commit_rounds_spec);
}

/// One unfolding of the round recursion: the values computed by one round of
/// the executable commit phase step the specification forward.
pub proof fn lemma_commit_rounds_step<H: Hasher, C: Compressor>(
    h: &H,
    c: &C,
    vs: Seq<Seq<Seq<Fe>>>,
    alpha: Fe,
    st: u64,
    cw: Seq<Fe>,
    com: Digest,
    st2: u64,
    beta: Fe,
    ginv: Fe,
    next: Seq<Fe>,
)
    requires
        cw.len() > 1,
        com == crate::merkle::root_spec(h, c, seq![pair_view(cw)]),
        beta == crate::transcript::draw_value_spec(
            crate::transcript::absorb_spec(st, com.value),
        ),
        st2 == crate::transcript::draw_state_spec(crate::transcript::absorb_spec(st, com.value)),
        ginv == ginv_spec(log2(cw.len())),
        next == ({
            let folded = fold_spec(cw, beta, ginv);
            if group_rows_at(vs, folded.len(), 0).len() > 0 {
                reduce_spec(vs, folded.len(), folded, alpha)
            } else {
                folded
            }
        }),
    ensures
        commit_rounds_spec(h, c, vs, alpha, st, cw) == ({
            let rest = commit_rounds_spec(h, c, vs, alpha, st2, next);
            (seq![cw] + rest.0, seq![com] + rest.1, rest.2, rest.3)
        }),
{
    reveal(commit_rounds_spec);
}

/// The whole commit phase of the prover: draw the batching challenge, combine
/// the tallest height group into a fresh codeword, then run the rounds.
pub open spec fn fri_commit_result<H: Hasher, C: Compressor>(
    h: &H,
    c: &C,
    vs: Seq<Seq<Seq<Fe>>>,
    st0: u64,
) -> (Seq<Seq<Fe>>, Seq<Digest>, u64, Fe) {
    let alpha = crate::transcript::draw_value_spec(st0);
    let st1 = crate::transcript::draw_state_spec(st0);
    let maxh = crate::merkle::max_height_of(vs);
    let cw0 = reduce_spec(vs, maxh, zero_codeword(maxh), alpha);
    commit_rounds_spec(h, c, vs, alpha, st1, cw0)
}

/// The query index drawn for query `q`, reduced into the first round's
/// domain of size `maxh`.
pub open spec fn query_index_spec(stq: u64, q: nat, maxh: nat) -> nat {
    (crate::transcript::draw_value_spec(crate::transcript::draws_state_spec(stq, q)).value as nat)
        % maxh
}

/// One batch opening inside a query proof is exactly what `open_batch`
/// returns on the given batch at the given index.
pub open spec fn batch_opening_matches<H: Hasher, C: Compressor>(
    h: &H,
    c: &C,
    bo: BatchOpening,
    vs: Seq<Seq<Seq<Fe>>>,
    index: nat,
) -> bool {
    &&& rows_view(bo.opened_rows@) == crate::merkle::opened_rows_spec(vs, index)
    &&& bo.siblings@ == crate::merkle::proof_spec(h, c, vs, index)
}

/// One query proof opens every input tree and every round codeword at the
/// positions derived from the query index.
pub open spec fn query_proof_matches<H: Hasher, C: Compressor>(
    h: &H,
    c: &C,
    qp: QueryProof,
    tvs: Seq<Seq<Seq<Seq<Fe>>>>,
    cws: Seq<Seq<Fe>>,
    gml: nat,
    idx: nat,
) -> bool {
    &&& qp.input_openings@.len() == tvs.len()
    &&& forall|t: int|
        0 <= t < tvs.len() ==> batch_opening_matches(
            h,
            c,
            #[trigger] qp.input_openings@[t],
            tvs[t],
            idx / pow2((gml - log2(crate::merkle::max_height_of(tvs[t]))) as nat),
        )
    &&& qp.round_openings@.len() == cws.len()
    &&& forall|rr: int|
        0 <= rr < cws.len() ==> batch_opening_matches(
            h,
            c,
            #[trigger] qp.round_openings@[rr],
            seq![pair_view(cws[rr])],
            idx / pow2((rr + 1) as nat),
        )
}

/// Arranges a codeword of even length as its paired width-2 matrix.
fn make_pair_matrix(cw: &Vec<Fe>) -> (pm: Matrix)
    requires
        cw@.len() % 2 == 0,
        cw@.len() >= 2,
    ensures
        pm@ == pair_view(cw@),
        pm.well_formed(),
        pm.width == 2,
        pm.rows@.len() == cw@.len() / 2,
{
    let len = cw.len();
    let n = len / 2;
    let mut prows: Vec<Vec<Fe>> = Vec::new();
    let mut j: usize = 0;
    while j < n
        invariant
            j <= n,
            len == cw@.len(),
            n == len / 2,
            2 * n == len,
            prows@.len() == j as nat,
            forall|u: int|
                0 <= u < j ==> (#[trigger] prows@[u])@ =~= seq![
                    cw@[2 * u],
                    cw@[2 * u + 1],
                ],
        decreases n - j,
    {
        let mut prow: Vec<Fe> = Vec::new();
        prow.push(cw[2 * j]);
        prow.push(cw[2 * j + 1]);
        prows.push(prow);
        j = j + 1;
    }
    let pm = Matrix { rows: prows, width: 2 };
    proof {
        assert(pm@ =~= pair_view(cw@));
        assert(pm.well_formed()) by {
            assert(forall|u: int| 0 <= u < pm.rows@.len() ==> (#[trigger] pm.rows@[u])@.len() == 2);
        }
    }
    pm
}

/// The commit phase: folds the batched codeword in half round by round, with
/// one fresh challenge per fold, committing each round's codeword as a paired
/// matrix. Returns the round commitments, the round trees (prover data for
/// the query phase), the terminal scalar, and (ghost) the round codewords.
#[verifier::rlimit(100)]
pub fn commit_phase<H: Hasher, C: Compressor>(
    mmcs: &crate::merkle::MerkleTreeMMCS<H, C>,
    all_mats: &Vec<Matrix>,
    max_h: usize,
    max_log: usize,
    challenger: &mut crate::transcript::Transcript,
) -> (r: (Vec<Digest>, Vec<MerkleTree>, Fe, Ghost<Seq<Seq<Fe>>>))
    requires
        crate::merkle::batch_ok(views_of(all_mats@)),
        forall|t: int| 0 <= t < all_mats@.len() ==> (#[trigger] all_mats@[t]).well_formed(),
        views_elements_wf(views_of(all_mats@)),
        max_h as nat == crate::merkle::max_height_of(views_of(all_mats@)),
        max_h as nat == pow2(max_log as nat),
        max_log <= 32,
    ensures
        ({
            let vs = views_of(all_mats@);
            let res = fri_commit_result(&mmcs.hash, &mmcs.compress, vs, old(challenger).state);
            &&& r.0@ == res.1
            &&& r.3@ == res.0
            &&& r.2 == res.3
            &&& r.2.wf()
            &&& final(challenger).state == res.2
            &&& r.0@.len() == max_log as nat
            &&& r.1@.len() == max_log as nat
            &&& r.3@.len() == max_log as nat
            &&& forall|rr: int|
                0 <= rr < max_log ==> {
                    &&& (#[trigger] r.1@[rr]).built_by(&mmcs.hash, &mmcs.compress)
                    &&& r.1@[rr].views() == seq![pair_view(r.3@[rr])]
                    &&& r.3@[rr].len() == pow2((max_log - rr) as nat)
                }
        }),
{
    let ghost vs = views_of(all_mats@);
    let alpha = challenger.draw();
    let mut zeros: Vec<Fe> = Vec::new();
    let mut zi: usize = 0;
    while zi < max_h
        invariant
            zi <= max_h,
            zeros@.len() == zi as nat,
            forall|u: int| 0 <= u < zi ==> zeros@[u] == fe_zero(),
        decreases max_h - zi,
    {
        zeros.push(Fe::zero());
        zi = zi + 1;
    }
    proof {
        assert(zeros@ =~= zero_codeword(max_h as nat));
        vstd::arithmetic::power2::lemma_pow2_pos(max_log as nat);
    }
    let mut current = reduce_matrices(all_mats, max_h, &zeros, alpha);
    let ghost full = commit_rounds_spec(
        &mmcs.hash,
        &mmcs.compress,
        vs,
        alpha,
        challenger.state,
        current@,
    );
    let mut commits: Vec<Digest> = Vec::new();
    let mut round_trees: Vec<MerkleTree> = Vec::new();
    let ghost mut done_cws: Seq<Seq<Fe>> = Seq::empty();
    let mut cur_log: usize = max_log;
    proof {
        assert(done_cws + commit_rounds_spec(
            &mmcs.hash,
            &mmcs.compress,
            vs,
            alpha,
            challenger.state,
            current@,
        ).0 =~= full.0);
        assert(commits@ + commit_rounds_spec(
            &mmcs.hash,
            &mmcs.compress,
            vs,
            alpha,
            challenger.state,
            current@,
        ).1 =~= full.1);
    }
    while current.len() > 1
        invariant
            vs == views_of(all_mats@),
            crate::merkle::batch_ok(vs),
            forall|t: int| 0 <= t < all_mats@.len() ==> (#[trigger] all_mats@[t]).well_formed(),
            views_elements_wf(vs),
            alpha.wf(),
            cur_log <= max_log,
            max_log <= 32,
            current@.len() == pow2(cur_log as nat),
            forall|u: int| 0 <= u < current@.len() ==> (#[trigger] current@[u]).wf(),
            commits@.len() == done_cws.len(),
            round_trees@.len() == done_cws.len(),
            done_cws.len() == (max_log - cur_log) as nat,
            forall|rr: int|
                0 <= rr < done_cws.len() ==> {
                    &&& (#[trigger] round_trees@[rr]).built_by(&mmcs.hash, &mmcs.compress)
                    &&& round_trees@[rr].views() == seq![pair_view(done_cws[rr])]
                    &&& done_cws[rr].len() == pow2((max_log - rr) as nat)
                },
            ({
                let rest = commit_rounds_spec(
                    &mmcs.hash,
                    &mmcs.compress,
                    vs,
                    alpha,
                    challenger.state,
                    current@,
                );
                &&& full.0 == done_cws + rest.0
                &&& full.1 == commits@ + rest.1
                &&& full.2 == rest.2
                &&& full.3 == rest.3
            }),
        decreases current@.len(),
    {
        let ghost pre_cw = current@;
        let ghost pre_state = challenger.state;
        proof {
            vstd::arithmetic::power2::lemma2_to64();
            if cur_log == 0 {
                assert(current@.len() == 1);
            }
            vstd::arithmetic::power2::lemma_pow2_unfold(cur_log as nat);
        }
        let l = current.len();
        let n = l / 2;
        let pm = make_pair_matrix(&current);
        let mut batch: Vec<Matrix> = Vec::new();
        batch.push(pm);
        proof {
            assert(views_of(batch@) =~= seq![pair_view(pre_cw)]);
            crate::bits::lemma_pow2_is_power_of_two((cur_log - 1) as nat);
            vstd::arithmetic::power2::lemma_pow2_pos((cur_log - 1) as nat);
            assert(crate::merkle::batch_ok(views_of(batch@)));
        }
        let (com, rtree) = match mmcs.commit(batch) {
            Ok(p) => p,
            Err(_) => {
                proof {
                    assert(false);
                }
                vstd::pervasive::unreached()
            },
        };
        challenger.absorb(com.value);
        let beta = challenger.draw();
        let g = domain_generator(cur_log);
        let ginv = g.inv();
        proof {
            crate::bits::lemma_log2_pow2(cur_log as nat);
        }
        let folded = fold_even_odd(&current, beta, ginv, cur_log - 1);
        let grp0 = crate::merkle::gather_rows(all_mats, n, 0);
        let next = if grp0.len() > 0 {
            reduce_matrices(all_mats, n, &folded, alpha)
        } else {
            folded
        };
        commits.push(com);
        round_trees.push(rtree);
        proof {
            let old_done = done_cws;
            let old_commits = commits@.drop_last();
            assert(commits@ =~= old_commits + seq![com]);
            done_cws = done_cws + seq![pre_cw];
            // One unfolding of the round recursion matches this iteration.
            lemma_commit_rounds_step(
                &mmcs.hash,
                &mmcs.compress,
                vs,
                alpha,
                pre_state,
                pre_cw,
                com,
                challenger.state,
                beta,
                ginv,
                next@,
            );
            let rest_post = commit_rounds_spec(
                &mmcs.hash,
                &mmcs.compress,
                vs,
                alpha,
                challenger.state,
                next@,
            );
            assert(full.0 == old_done + (seq![pre_cw] + rest_post.0));
            assert(old_done + (seq![pre_cw] + rest_post.0) =~= done_cws + rest_post.0);
            assert(full.1 == old_commits + (seq![com] + rest_post.1));
            assert(old_commits + (seq![com] + rest_post.1) =~= commits@ + rest_post.1);
        }
        current = next;
        cur_log = cur_log - 1;
    }
    proof {
        vstd::arithmetic::power2::lemma_pow2_pos(cur_log as nat);
        assert(current@.len() == 1);
        if cur_log > 0 {
            vstd::arithmetic::power2::lemma_pow2_strictly_increases(0, cur_log as nat);
            vstd::arithmetic::power2::lemma2_to64();
            assert(false);
        }
        lemma_commit_rounds_base(&mmcs.hash, &mmcs.compress, vs, alpha, challenger.state, current@);
        let rest = commit_rounds_spec(
            &mmcs.hash,
            &mmcs.compress,
            vs,
            alpha,
            challenger.state,
            current@,
        );
        assert(done_cws + rest.0 =~= done_cws);
        assert(commits@ + rest.1 =~= commits@);
        assert(full.0 == done_cws);
        assert(full.1 == commits@);
    }
    let final_value = current[0];
    (commits, round_trees, final_value, Ghost(done_cws))
}

/// Opens every input tree and every round tree at the positions the query
/// index determines: each input tree at the index reduced to its own tallest
/// height, each round codeword at the paired row of the query's position.
#[verifier::rlimit(100)]
fn open_query<H: Hasher, C: Compressor>(
    mmcs: &crate::merkle::MerkleTreeMMCS<H, C>,
    inputs: &Vec<MerkleTree>,
    round_trees: &Vec<MerkleTree>,
    max_h: usize,
    max_log: usize,
    idx: usize,
    Ghost(cws): Ghost<Seq<Seq<Fe>>>,
) -> (qp: QueryProof)
    requires
        forall|t: int|
            0 <= t < inputs@.len() ==> (#[trigger] inputs@[t]).built_by(
                &mmcs.hash,
                &mmcs.compress,
            ),
        max_h as nat == crate::merkle::max_height_of(flatten_views(tree_views(inputs@))),
        max_h as nat == pow2(max_log as nat),
        idx < max_h,
        cws.len() == max_log as nat,
        round_trees@.len() == max_log as nat,
        forall|rr: int|
            0 <= rr < max_log ==> {
                &&& (#[trigger] round_trees@[rr]).built_by(&mmcs.hash, &mmcs.compress)
                &&& round_trees@[rr].views() == seq![pair_view(cws[rr])]
                &&& cws[rr].len() == pow2((max_log - rr) as nat)
            },
    ensures
        query_proof_matches(
            &mmcs.hash,
            &mmcs.compress,
            qp,
            tree_views(inputs@),
            cws,
            max_log as nat,
            idx as nat,
        ),
{
    let ghost tvs = tree_views(inputs@);
    let mut input_openings: Vec<BatchOpening> = Vec::new();
    let mut t2: usize = 0;
    while t2 < inputs.len()
        invariant
            t2 <= inputs@.len(),
            tvs == tree_views(inputs@),
            tvs.len() == inputs@.len(),
            forall|u: int| 0 <= u < tvs.len() ==> tvs[u] == inputs@[u].views(),
            forall|t: int|
                0 <= t < inputs@.len() ==> (#[trigger] inputs@[t]).built_by(
                    &mmcs.hash,
                    &mmcs.compress,
                ),
            max_h as nat == crate::merkle::max_height_of(flatten_views(tvs)),
            max_h as nat == pow2(max_log as nat),
            idx < max_h,
            input_openings@.len() == t2 as nat,
            forall|u: int|
                0 <= u < t2 ==> batch_opening_matches(
                    &mmcs.hash,
                    &mmcs.compress,
                    #[trigger] input_openings@[u],
                    tvs[u],
                    idx as nat / pow2(
                        (max_log - log2(crate::merkle::max_height_of(tvs[u]))) as nat,
                    ),
                ),
        decreases inputs@.len() - t2,
    {
        let tree = &inputs[t2];
        let tmax = tree.leaves_max_height();
        proof {
            crate::merkle::lemma_max_height_attained(tvs[t2 as int]);
            let w = choose|u: int|
                0 <= u < tvs[t2 as int].len() && (#[trigger] tvs[t2 as int][u]).len()
                    == crate::merkle::max_height_of(tvs[t2 as int]);
            assert(is_power_of_two(tvs[t2 as int][w].len()));
            crate::bits::lemma_pow2_log2(tmax as nat);
            let tl = log2(tmax as nat);
            lemma_flatten_tree_max(tvs, t2 as int);
            if tl > max_log as nat {
                vstd::arithmetic::power2::lemma_pow2_strictly_increases(max_log as nat, tl);
            }
            vstd::arithmetic::power2::lemma_pow2_subtracts(tl, max_log as nat);
            vstd::arithmetic::power2::lemma_pow2_pos(tl);
            vstd::arithmetic::power2::lemma_pow2_pos((max_log as nat - tl) as nat);
            vstd::arithmetic::power2::lemma_pow2_adds((max_log as nat - tl) as nat, tl);
            vstd::arithmetic::div_mod::lemma_multiply_divide_lt(
                idx as int,
                pow2((max_log as nat - tl) as nat) as int,
                pow2(tl) as int,
            );
        }
        let divisor = max_h / tmax;
        let tidx = idx / divisor;
        let (vals, sibs) = mmcs.open_batch(tidx, tree);
        input_openings.push(BatchOpening { opened_rows: vals, siblings: sibs });
        t2 = t2 + 1;
    }
    let mut round_openings: Vec<BatchOpening> = Vec::new();
    let mut l2: usize = max_h;
    let mut cur: usize = idx;
    let mut rr: usize = 0;
    proof {
        vstd::arithmetic::power2::lemma2_to64();
        assert(idx as nat / pow2(0) == idx as nat);
    }
    while rr < round_trees.len()
        invariant
            rr <= max_log,
            round_trees@.len() == max_log as nat,
            cws.len() == max_log as nat,
            l2 as nat == pow2((max_log - rr) as nat),
            idx < max_h,
            max_h as nat == pow2(max_log as nat),
            cur as nat == idx as nat / pow2(rr as nat),
            forall|u: int|
                0 <= u < max_log ==> {
                    &&& (#[trigger] round_trees@[u]).built_by(&mmcs.hash, &mmcs.compress)
                    &&& round_trees@[u].views() == seq![pair_view(cws[u])]
                    &&& cws[u].len() == pow2((max_log - u) as nat)
                },
            round_openings@.len() == rr as nat,
            forall|u: int|
                0 <= u < rr ==> batch_opening_matches(
                    &mmcs.hash,
                    &mmcs.compress,
                    #[trigger] round_openings@[u],
                    seq![pair_view(cws[u])],
                    idx as nat / pow2((u + 1) as nat),
                ),
        decreases round_trees@.len() - rr,
    {
        proof {
            vstd::arithmetic::power2::lemma_pow2_unfold((max_log - rr) as nat);
            vstd::arithmetic::power2::lemma_pow2_pos((max_log - rr - 1) as nat);
            crate::bits::lemma_div_pow2_step(idx as nat, rr as nat);
            crate::bits::lemma_div_pow2_bound(idx as nat, max_log as nat, (rr + 1) as nat);
        }
        let n2 = l2 / 2;
        let row = cur / 2;
        proof {
            let rtv = round_trees@[rr as int].views();
            assert(rtv.drop_last() =~= Seq::<Seq<Seq<Fe>>>::empty());
            assert(crate::merkle::max_height_of(Seq::<Seq<Seq<Fe>>>::empty()) == 0);
            assert(rtv.len() == 1);
            assert(rtv.last() == pair_view(cws[rr as int]));
            assert(pair_view(cws[rr as int]).len() == n2 as nat);
            assert(crate::merkle::max_height_of(rtv) == pair_view(cws[rr as int]).len());
        }
        let (vals, sibs) = mmcs.open_batch(row, &round_trees[rr]);
        round_openings.push(BatchOpening { opened_rows: vals, siblings: sibs });
        l2 = n2;
        cur = row;
        rr = rr + 1;
    }
    QueryProof { input_openings, round_openings }
}

/// The FRI prover: runs the commit phase over all matrices of all committed
/// input trees (the caller has already absorbed the input commitments into
/// the transcript), absorbs the terminal scalar, then draws `num_queries`
/// independent index challenges and opens every round at each of them.
#[verifier::rlimit(100)]
pub fn prove<H: Hasher, C: Compressor>(
    mmcs: &crate::merkle::MerkleTreeMMCS<H, C>,
    inputs: &Vec<MerkleTree>,
    config: &FriConfig,
    challenger: &mut crate::transcript::Transcript,
) -> (r: FriProof)
    requires
        inputs@.len() > 0,
        forall|t: int|
            0 <= t < inputs@.len() ==> (#[trigger] inputs@[t]).built_by(
                &mmcs.hash,
                &mmcs.compress,
            ),
        views_elements_wf(flatten_views(tree_views(inputs@))),
        log2(crate::merkle::max_height_of(flatten_views(tree_views(inputs@)))) <= 32,
    ensures
        ({
            let vs = flatten_views(tree_views(inputs@));
            let res = fri_commit_result(&mmcs.hash, &mmcs.compress, vs, old(challenger).state);
            let stq = crate::transcript::absorb_spec(res.2, res.3.value);
            let gml = log2(crate::merkle::max_height_of(vs));
            &&& r.commit_phase_commits@ == res.1
            &&& r.commit_phase_commits@.len() == gml
            &&& r.final_value == res.3
            &&& r.query_proofs@.len() == config.num_queries as nat
            &&& forall|q: int|
                0 <= q < config.num_queries ==> query_proof_matches(
                    &mmcs.hash,
                    &mmcs.compress,
                    #[trigger] r.query_proofs@[q],
                    tree_views(inputs@),
                    res.0,
                    gml,
                    query_index_spec(stq, q as nat, pow2(gml)),
                )
            &&& final(challenger).state == crate::transcript::draws_state_spec(
                stq,
                config.num_queries as nat,
            )
        }),
{
    let ghost tvs = tree_views(inputs@);
    let ghost vs = flatten_views(tvs);
    // Flatten all committed matrices, in tree order.
    let mut all_mats: Vec<Matrix> = Vec::new();
    let mut ti: usize = 0;
    while ti < inputs.len()
        invariant
            ti <= inputs@.len(),
            tvs == tree_views(inputs@),
            tvs.len() == inputs@.len(),
            forall|u: int| 0 <= u < tvs.len() ==> tvs[u] == inputs@[u].views(),
            forall|t: int|
                0 <= t < inputs@.len() ==> (#[trigger] inputs@[t]).built_by(
                    &mmcs.hash,
                    &mmcs.compress,
                ),
            views_of(all_mats@) == flatten_views(tvs.take(ti as int)),
            forall|t: int| 0 <= t < all_mats@.len() ==> (#[trigger] all_mats@[t]).well_formed(),
        decreases inputs@.len() - ti,
    {
        let tree = &inputs[ti];
        let mut mi: usize = 0;
        while mi < tree.leaves.len()
            invariant
                mi <= tree.leaves@.len(),
                ti < inputs@.len(),
                tvs == tree_views(inputs@),
                tvs.len() == inputs@.len(),
                forall|u: int| 0 <= u < tvs.len() ==> tvs[u] == inputs@[u].views(),
                forall|t: int|
                    0 <= t < inputs@.len() ==> (#[trigger] inputs@[t]).built_by(
                        &mmcs.hash,
                        &mmcs.compress,
                    ),
                tree == &inputs[ti as int],
                views_of(all_mats@) == flatten_views(tvs.take(ti as int)) + views_of(
                    tree.leaves@.take(mi as int),
                ),
                forall|t: int| 0 <= t < all_mats@.len() ==> (#[trigger] all_mats@[t]).well_formed(),
            decreases tree.leaves@.len() - mi,
        {
            let ghost old_views = views_of(all_mats@);
            let m = copy_matrix(&tree.leaves[mi]);
            proof {
                assert(m@ == tree.leaves@[mi as int]@);
            }
            all_mats.push(m);
            proof {
                assert(views_of(all_mats@) =~= old_views.push(tree.leaves@[mi as int]@));
                assert(tree.leaves@.take(mi as int + 1).drop_last() =~= tree.leaves@.take(
                    mi as int,
                ));
                assert(views_of(tree.leaves@.take(mi as int + 1)) =~= views_of(
                    tree.leaves@.take(mi as int),
                ).push(tree.leaves@[mi as int]@));
                assert(old_views.push(tree.leaves@[mi as int]@) =~= flatten_views(
                    tvs.take(ti as int),
                ) + views_of(tree.leaves@.take(mi as int + 1)));
            }
            mi = mi + 1;
        }
        proof {
            assert(tree.leaves@.take(tree.leaves@.len() as int) =~= tree.leaves@);
            assert(tvs.take(ti as int + 1).drop_last() =~= tvs.take(ti as int));
            assert(tvs.take(ti as int + 1).last() == tvs[ti as int]);
            assert(views_of(tree.leaves@) == inputs@[ti as int].views());
            assert(views_of(all_mats@) =~= flatten_views(tvs.take(ti as int + 1)));
        }
        ti = ti + 1;
    }
    proof {
        assert(tvs.take(tvs.len() as int) =~= tvs);
        assert(views_of(all_mats@) == vs);
        assert forall|t: int| 0 <= t < tvs.len() implies crate::merkle::batch_ok(
            #[trigger] tvs[t],
        ) by {
            assert(inputs@[t].built_by(&mmcs.hash, &mmcs.compress));
        }
        lemma_flatten_batch_ok(tvs);
    }
    // The tallest height across all trees, and its logarithm.
    let mut max_h: usize = 0;
    let mut t: usize = 0;
    while t < all_mats.len()
        invariant
            t <= all_mats@.len(),
            vs == views_of(all_mats@),
            vs.len() == all_mats@.len(),
            forall|u: int| 0 <= u < vs.len() ==> vs[u] == all_mats@[u]@,
            max_h as nat == crate::merkle::max_height_of(vs.take(t as int)),
        decreases all_mats@.len() - t,
    {
        proof {
            assert(vs.take(t as int + 1).drop_last() =~= vs.take(t as int));
            assert(vs.take(t as int + 1).last() == vs[t as int]);
        }
        let ht = all_mats[t].height();
        if ht > max_h {
            max_h = ht;
        }
        t = t + 1;
    }
    proof {
        assert(vs.take(vs.len() as int) =~= vs);
        crate::merkle::lemma_max_height_attained(vs);
        let w = choose|u: int|
            0 <= u < vs.len() && (#[trigger] vs[u]).len() == crate::merkle::max_height_of(vs);
        assert(is_power_of_two(vs[w].len()));
    }
    let max_log = match crate::bits::checked_log2(max_h) {
        Some(k) => k,
        None => {
            proof {
                assert(false);
            }
            vstd::pervasive::unreached()
        },
    };
    // Commit phase, then the terminal scalar enters the transcript.
    let (commits, round_trees, final_value, Ghost(cws)) = commit_phase(
        mmcs,
        &all_mats,
        max_h,
        max_log,
        challenger,
    );
    challenger.absorb(final_value.value);
    let ghost stq = challenger.state;
    // Query phase: independent index draws, same challenges throughout.
    let mut query_proofs: Vec<QueryProof> = Vec::new();
    let mut q: usize = 0;
    while q < config.num_queries
        invariant
            q <= config.num_queries,
            tvs == tree_views(inputs@),
            tvs.len() == inputs@.len(),
            vs == views_of(all_mats@),
            forall|t2: int|
                0 <= t2 < inputs@.len() ==> (#[trigger] inputs@[t2]).built_by(
                    &mmcs.hash,
                    &mmcs.compress,
                ),
            max_h as nat == crate::merkle::max_height_of(vs),
            max_h as nat == pow2(max_log as nat),
            vs == flatten_views(tvs),
            max_h >= 1,
            cws.len() == max_log as nat,
            round_trees@.len() == max_log as nat,
            forall|rr: int|
                0 <= rr < max_log ==> {
                    &&& (#[trigger] round_trees@[rr]).built_by(&mmcs.hash, &mmcs.compress)
                    &&& round_trees@[rr].views() == seq![pair_view(cws[rr])]
                    &&& cws[rr].len() == pow2((max_log - rr) as nat)
                },
            challenger.state == crate::transcript::draws_state_spec(stq, q as nat),
            query_proofs@.len() == q as nat,
            forall|qq: int|
                0 <= qq < q ==> query_proof_matches(
                    &mmcs.hash,
                    &mmcs.compress,
                    #[trigger] query_proofs@[qq],
                    tvs,
                    cws,
                    max_log as nat,
                    query_index_spec(stq, qq as nat, pow2(max_log as nat)),
                ),
        decreases config.num_queries - q,
    {
        let dv = challenger.draw();
        let idx = (dv.value % (max_h as u64)) as usize;
        proof {
            assert(crate::transcript::draws_state_spec(stq, q as nat + 1)
                == crate::transcript::draw_state_spec(
                crate::transcript::draws_state_spec(stq, q as nat),
            ));
            assert(idx as nat == query_index_spec(stq, q as nat, pow2(max_log as nat)));
        }
        let qp = open_query(mmcs, inputs, &round_trees, max_h, max_log, idx, Ghost(cws));
        query_proofs.push(qp);
        q = q + 1;
    }
    FriProof { commit_phase_commits: commits, final_value, query_proofs }
}

/// The views of the per-tree dimension metadata.
pub open spec fn dims_views(dd: Seq<Vec<Dimensions>>) -> Seq<Seq<Dimensions>> {
    dd.map_values(|v: Vec<Dimensions>| v@)
}

/// All dimension entries of all input trees, flattened in tree order.
pub open spec fn flatten_dims(dd: Seq<Seq<Dimensions>>) -> Seq<Dimensions>
    decreases dd.len(),
{
    if dd.len() == 0 {
        Seq::empty()
    } else {
        flatten_dims(dd.drop_last()) + dd.last()
    }
}

/// All claimed rows of all input openings, flattened in tree order.
pub open spec fn flatten_opened(bos: Seq<BatchOpening>) -> Seq<Seq<Fe>>
    decreases bos.len(),
{
    if bos.len() == 0 {
        Seq::empty()
    } else {
        flatten_opened(bos.drop_last()) + rows_view(bos.last().opened_rows@)
    }
}

/// The tallest stated height of a concatenation is the taller of the parts'.
pub proof fn lemma_max_dim_concat(a: Seq<Dimensions>, b: Seq<Dimensions>)
    ensures
        crate::merkle::max_dim_height(a + b) == if crate::merkle::max_dim_height(a)
            > crate::merkle::max_dim_height(b) {
            crate::merkle::max_dim_height(a)
        } else {
            crate::merkle::max_dim_height(b)
        },
    decreases b.len(),
{
    if b.len() == 0 {
        assert(a + b =~= a);
    } else {
        lemma_max_dim_concat(a, b.drop_last());
        assert((a + b).drop_last() =~= a + b.drop_last());
        assert((a + b).last() == b.last());
    }
}

/// No tree's tallest stated height exceeds the flattened metadata's.
pub proof fn lemma_flatten_dims_tree_max(dd: Seq<Seq<Dimensions>>, t: int)
    requires
        0 <= t < dd.len(),
    ensures
        crate::merkle::max_dim_height(dd[t]) <= crate::merkle::max_dim_height(flatten_dims(dd)),
    decreases dd.len(),
{
    lemma_max_dim_concat(flatten_dims(dd.drop_last()), dd.last());
    if t + 1 < dd.len() {
        lemma_flatten_dims_tree_max(dd.drop_last(), t);
    }
}

/// Flattening preserves "every stated height is a power of two".
pub proof fn lemma_flatten_dims_all(dd: Seq<Seq<Dimensions>>)
    requires
        forall|t: int, u: int|
            0 <= t < dd.len() && 0 <= u < dd[t].len() ==> is_power_of_two(
                (#[trigger] dd[t][u]).height as nat,
            ),
    ensures
        forall|j: int|
            0 <= j < flatten_dims(dd).len() ==> is_power_of_two(
                (#[trigger] flatten_dims(dd)[j]).height as nat,
            ),
    decreases dd.len(),
{
    if dd.len() > 0 {
        assert forall|t: int, u: int|
            0 <= t < dd.drop_last().len() && 0 <= u < dd.drop_last()[t].len() implies is_power_of_two(
            (#[trigger] dd.drop_last()[t][u]).height as nat,
        ) by {
            assert(dd.drop_last()[t] == dd[t]);
        }
        lemma_flatten_dims_all(dd.drop_last());
        let pre = flatten_dims(dd.drop_last());
        let all = flatten_dims(dd);
        assert forall|j: int| 0 <= j < all.len() implies is_power_of_two(
            (#[trigger] all[j]).height as nat,
        ) by {
            if j < pre.len() {
                assert(all[j] == pre[j]);
            } else {
                assert(all[j] == dd.last()[j - pre.len()]);
                assert(dd[dd.len() - 1][j - pre.len()] == dd.last()[j - pre.len()]);
            }
        }
    }
}

/// A non-empty dimension list attains its tallest stated height.
pub proof fn lemma_max_dim_attained(ds: Seq<Dimensions>)
    requires
        ds.len() > 0,
    ensures
        exists|u: int|
            0 <= u < ds.len() && (#[trigger] ds[u]).height as nat == crate::merkle::max_dim_height(
                ds,
            ),
    decreases ds.len(),
{
    if ds.len() == 1 {
        assert(ds.drop_last().len() == 0);
        assert(crate::merkle::max_dim_height(ds.drop_last()) == 0);
        assert(ds.last() == ds[0]);
        if ds[0].height as nat == 0 {
            assert(crate::merkle::max_dim_height(ds) == 0);
        }
        assert(ds[0].height as nat == crate::merkle::max_dim_height(ds));
    } else {
        lemma_max_dim_attained(ds.drop_last());
        if ds.last().height as nat > crate::merkle::max_dim_height(ds.drop_last()) {
            assert(ds[ds.len() - 1].height as nat == crate::merkle::max_dim_height(ds));
        } else {
            let u = choose|u: int|
                0 <= u < ds.drop_last().len() && (#[trigger] ds.drop_last()[u]).height as nat
                    == crate::merkle::max_dim_height(ds.drop_last());
            assert(ds[u].height as nat == crate::merkle::max_dim_height(ds));
        }
    }
}

/// When every tree's opening claims one row per stated matrix, the flattened
/// claimed rows and the flattened metadata have equal lengths.
pub proof fn lemma_flatten_lens(dims: Seq<Seq<Dimensions>>, bos: Seq<BatchOpening>)
    requires
        dims.len() == bos.len(),
        forall|t: int|
            0 <= t < bos.len() ==> rows_view((#[trigger] bos[t]).opened_rows@).len()
                == dims[t].len(),
    ensures
        flatten_opened(bos).len() == flatten_dims(dims).len(),
    decreases bos.len(),
{
    if bos.len() > 0 {
        assert forall|t: int|
            0 <= t < bos.drop_last().len() implies rows_view(
            (#[trigger] bos.drop_last()[t]).opened_rows@,
        ).len() == dims.drop_last()[t].len() by {
            assert(bos.drop_last()[t] == bos[t]);
            assert(dims.drop_last()[t] == dims[t]);
        }
        lemma_flatten_lens(dims.drop_last(), bos.drop_last());
        assert(rows_view(bos[bos.len() - 1].opened_rows@).len() == dims[dims.len() - 1].len());
    }
}

/// Every claimed row value is a reduced field element.
pub open spec fn opened_wf(rows: Seq<Seq<Fe>>) -> bool {
    forall|u: int, j: int|
        0 <= u < rows.len() && 0 <= j < rows[u].len() ==> (#[trigger] rows[u][j]).wf()
}

/// Claimed rows gathered by height from reduced rows stay reduced.
pub proof fn lemma_opened_group_wf(ds: Seq<Dimensions>, opened: Seq<Seq<Fe>>, hh: nat)
    requires
        opened_wf(opened),
        ds.len() == opened.len(),
    ensures
        opened_wf(crate::merkle::opened_group(ds, opened, hh)),
    decreases ds.len(),
{
    if ds.len() > 0 {
        assert(opened_wf(opened.drop_last())) by {
            assert forall|u: int, j: int|
                0 <= u < opened.drop_last().len() && 0 <= j < opened.drop_last()[u].len() implies (
            #[trigger] opened.drop_last()[u][j]).wf() by {
                assert(opened.drop_last()[u] == opened[u]);
            }
        }
        lemma_opened_group_wf(ds.drop_last(), opened.drop_last(), hh);
        let grp = crate::merkle::opened_group(ds, opened, hh);
        let rest = crate::merkle::opened_group(ds.drop_last(), opened.drop_last(), hh);
        if ds.last().height as nat == hh {
            assert forall|u: int, j: int|
                0 <= u < grp.len() && 0 <= j < grp[u].len() implies (#[trigger] grp[u][j]).wf() by {
                if u < rest.len() {
                    assert(grp[u] == rest[u]);
                } else {
                    assert(grp[u] == opened.last());
                    assert(opened[opened.len() - 1][j].wf());
                }
            }
        }
    }
}

/// The transcript state after absorbing each commitment and drawing one fold
/// challenge after each, in order.
pub open spec fn replay_state(st: u64, coms: Seq<Digest>) -> u64
    decreases coms.len(),
{
    if coms.len() == 0 {
        st
    } else {
        crate::transcript::draw_state_spec(
            crate::transcript::absorb_spec(
                replay_state(st, coms.drop_last()),
                coms.last().value,
            ),
        )
    }
}

/// The fold challenges the replay draws, one per commitment.
pub open spec fn replay_betas(st: u64, coms: Seq<Digest>) -> Seq<Fe>
    decreases coms.len(),
{
    if coms.len() == 0 {
        Seq::empty()
    } else {
        replay_betas(st, coms.drop_last()).push(
            crate::transcript::draw_value_spec(
                crate::transcript::absorb_spec(
                    replay_state(st, coms.drop_last()),
                    coms.last().value,
                ),
            ),
        )
    }
}

/// The replayed challenges are reduced field elements, one per commitment.
pub proof fn lemma_replay_betas_wf(st: u64, coms: Seq<Digest>)
    ensures
        replay_betas(st, coms).len() == coms.len(),
        forall|u: int| 0 <= u < coms.len() ==> (#[trigger] replay_betas(st, coms)[u]).wf(),
    decreases coms.len(),
{
    if coms.len() > 0 {
        lemma_replay_betas_wf(st, coms.drop_last());
        assert forall|u: int| 0 <= u < coms.len() implies (#[trigger] replay_betas(
            st,
            coms,
        )[u]).wf() by {
            if u < coms.len() - 1 {
                assert(replay_betas(st, coms)[u] == replay_betas(st, coms.drop_last())[u]);
            }
        }
    }
}

/// One query's fold replay from round `r` on: the claimed pair must contain
/// the running value at the right position, the pair must authenticate
/// against the round's commitment, and the fold of the pair (continued by any
/// height group injected at the halved length) must carry to the next round;
/// past the last round the running value must equal the terminal scalar.
pub open spec fn rounds_ok<H: Hasher, C: Compressor>(
    h: &H,
    c: &C,
    coms: Seq<Digest>,
    betas: Seq<Fe>,
    alpha: Fe,
    fdims: Seq<Dimensions>,
    fopened: Seq<Seq<Fe>>,
    final_value: Fe,
    ros: Seq<BatchOpening>,
    r: nat,
    cur_val: Fe,
    cur_idx: nat,
    l: nat,
) -> bool
    decreases coms.len() - r,
{
    if r >= coms.len() {
        cur_val == final_value
    } else {
        let n = l / 2;
        let row = cur_idx / 2;
        let bo = ros[r as int];
        &&& bo.opened_rows@.len() == 1
        &&& bo.opened_rows@[0]@.len() == 2
        &&& bo.opened_rows@[0]@[0].wf()
        &&& bo.opened_rows@[0]@[1].wf()
        &&& {
            let a = bo.opened_rows@[0]@[0];
            let b = bo.opened_rows@[0]@[1];
            &&& (if cur_idx % 2 == 0 {
                a
            } else {
                b
            }) == cur_val
            &&& crate::merkle::batch_verify_spec(
                h,
                c,
                coms[r as int],
                seq![Dimensions { width: 2, height: n as usize }],
                rows_view(bo.opened_rows@),
                row,
                bo.siblings@,
            )
            &&& {
                let folded = fold_point(
                    a,
                    b,
                    betas[r as int],
                    fe_pow(ginv_spec(log2(l)), bit_reverse(log2(l / 2), row)),
                );
                let grp = crate::merkle::opened_group(fdims, fopened, n);
                let next_val = if grp.len() > 0 {
                    horner_rows(folded, grp, alpha)
                } else {
                    folded
                };
                rounds_ok(
                    h,
                    c,
                    coms,
                    betas,
                    alpha,
                    fdims,
                    fopened,
                    final_value,
                    ros,
                    r + 1,
                    next_val,
                    row,
                    n,
                )
            }
        }
    }
}

/// One query checks out: every input tree's opening authenticates at the
/// reduced index, the claimed values are reduced field elements, and the fold
/// replay from the recombined first-round value reaches the terminal scalar.
#[verifier::opaque]
pub open spec fn query_ok<H: Hasher, C: Compressor>(
    h: &H,
    c: &C,
    input_commits: Seq<Digest>,
    dims: Seq<Seq<Dimensions>>,
    coms: Seq<Digest>,
    betas: Seq<Fe>,
    alpha: Fe,
    final_value: Fe,
    gml: nat,
    idx: nat,
    qp: QueryProof,
) -> bool {
    let fdims = flatten_dims(dims);
    let fopened = flatten_opened(qp.input_openings@);
    &&& qp.input_openings@.len() == dims.len()
    &&& forall|t: int|
        0 <= t < dims.len() ==> crate::merkle::batch_verify_spec(
            h,
            c,
            input_commits[t],
            dims[t],
            rows_view((#[trigger] qp.input_openings@[t]).opened_rows@),
            idx / pow2((gml - log2(crate::merkle::max_dim_height(dims[t]))) as nat),
            qp.input_openings@[t].siblings@,
        )
    &&& opened_wf(fopened)
    &&& qp.round_openings@.len() == coms.len()
    &&& rounds_ok(
        h,
        c,
        coms,
        betas,
        alpha,
        fdims,
        fopened,
        final_value,
        qp.round_openings@,
        0,
        horner_rows(
            fe_zero(),
            crate::merkle::opened_group(fdims, fopened, pow2(gml)),
            alpha,
        ),
        idx,
        pow2(gml),
    )
}

/// Flattens the per-tree dimension metadata in tree order.
fn flatten_dims_exec(input_dims: &Vec<Vec<Dimensions>>) -> (out: Vec<Dimensions>)
    ensures
        out@ == flatten_dims(dims_views(input_dims@)),
{
    let ghost dv = dims_views(input_dims@);
    let mut out: Vec<Dimensions> = Vec::new();
    let mut t: usize = 0;
    while t < input_dims.len()
        invariant
            t <= input_dims@.len(),
            dv == dims_views(input_dims@),
            dv.len() == input_dims@.len(),
            forall|u: int| 0 <= u < dv.len() ==> dv[u] == input_dims@[u]@,
            out@ == flatten_dims(dv.take(t as int)),
        decreases input_dims@.len() - t,
    {
        let inner = &input_dims[t];
        let mut u: usize = 0;
        while u < inner.len()
            invariant
                u <= inner@.len(),
                t < input_dims@.len(),
                dv == dims_views(input_dims@),
                dv.len() == input_dims@.len(),
                forall|w: int| 0 <= w < dv.len() ==> dv[w] == input_dims@[w]@,
                inner == &input_dims[t as int],
                out@ == flatten_dims(dv.take(t as int)) + inner@.take(u as int),
            decreases inner@.len() - u,
        {
            out.push(inner[u]);
            proof {
                assert(inner@.take(u as int + 1) =~= inner@.take(u as int).push(
                    inner@[u as int],
                ));
                assert(out@ =~= flatten_dims(dv.take(t as int)) + inner@.take(u as int + 1));
            }
            u = u + 1;
        }
        proof {
            assert(inner@.take(inner@.len() as int) =~= inner@);
            assert(dv.take(t as int + 1).drop_last() =~= dv.take(t as int));
            assert(dv.take(t as int + 1).last() == dv[t as int]);
            assert(out@ =~= flatten_dims(dv.take(t as int + 1)));
        }
        t = t + 1;
    }
    proof {
        assert(dv.take(dv.len() as int) =~= dv);
    }
    out
}

/// Flattens the claimed rows of all input openings in tree order.
fn flatten_opened_exec(bos: &Vec<BatchOpening>) -> (out: Vec<Vec<Fe>>)
    ensures
        rows_view(out@) == flatten_opened(bos@),
        out@.len() == flatten_opened(bos@).len(),
{
    let mut out: Vec<Vec<Fe>> = Vec::new();
    let mut t: usize = 0;
    while t < bos.len()
        invariant
            t <= bos@.len(),
            rows_view(out@) == flatten_opened(bos@.take(t as int)),
        decreases bos@.len() - t,
    {
        let rows = &bos[t].opened_rows;
        let mut u: usize = 0;
        while u < rows.len()
            invariant
                u <= rows@.len(),
                t < bos@.len(),
                rows == &bos[t as int].opened_rows,
                rows_view(out@) == flatten_opened(bos@.take(t as int)) + rows_view(
                    rows@.take(u as int),
                ),
            decreases rows@.len() - u,
        {
            let ghost old_v = rows_view(out@);
            let cr = copy_row(&rows[u]);
            proof {
                assert(cr@ == rows@[u as int]@);
            }
            out.push(cr);
            proof {
                assert(rows_view(out@) =~= old_v.push(rows@[u as int]@));
                assert(rows@.take(u as int + 1) =~= rows@.take(u as int).push(rows@[u as int]));
                assert(rows_view(rows@.take(u as int + 1)) =~= rows_view(
                    rows@.take(u as int),
                ).push(rows@[u as int]@));
                assert(old_v.push(rows@[u as int]@) =~= flatten_opened(bos@.take(t as int))
                    + rows_view(rows@.take(u as int + 1)));
            }
            u = u + 1;
        }
        proof {
            assert(rows@.take(rows@.len() as int) =~= rows@);
            assert(bos@.take(t as int + 1).drop_last() =~= bos@.take(t as int));
            assert(bos@.take(t as int + 1).last() == bos@[t as int]);
            assert(rows_view(out@) =~= flatten_opened(bos@.take(t as int + 1)));
        }
        t = t + 1;
    }
    proof {
        assert(bos@.take(bos@.len() as int) =~= bos@);
    }
    out
}

/// The tallest stated height in a dimension list.
fn max_dims(ds: &Vec<Dimensions>) -> (m: usize)
    ensures
        m as nat == crate::merkle::max_dim_height(ds@),
{
    let mut m: usize = 0;
    let mut t: usize = 0;
    while t < ds.len()
        invariant
            t <= ds@.len(),
            m as nat == crate::merkle::max_dim_height(ds@.take(t as int)),
        decreases ds@.len() - t,
    {
        proof {
            assert(ds@.take(t as int + 1).drop_last() =~= ds@.take(t as int));
            assert(ds@.take(t as int + 1).last() == ds@[t as int]);
        }
        if ds[t].height > m {
            m = ds[t].height;
        }
        t = t + 1;
    }
    proof {
        assert(ds@.take(ds@.len() as int) =~= ds@);
    }
    m
}

/// Checks that every claimed row value is a reduced field element.
fn check_opened_wf(rows: &Vec<Vec<Fe>>) -> (ok: bool)
    ensures
        ok == opened_wf(rows_view(rows@)),
{
    let mut t: usize = 0;
    while t < rows.len()
        invariant
            t <= rows@.len(),
            forall|u: int, j: int|
                0 <= u < t && 0 <= j < rows_view(rows@)[u].len() ==> (#[trigger] rows_view(
                    rows@,
                )[u][j]).wf(),
        decreases rows@.len() - t,
    {
        let row = &rows[t];
        let mut j: usize = 0;
        while j < row.len()
            invariant
                j <= row@.len(),
                t < rows@.len(),
                row == &rows[t as int],
                forall|u: int|
                    0 <= u < j ==> (#[trigger] row@[u]).wf(),
            decreases row@.len() - j,
        {
            if row[j].value >= crate::field::FP {
                proof {
                    assert(rows_view(rows@)[t as int][j as int] == row@[j as int]);
                    assert(!opened_wf(rows_view(rows@)));
                }
                return false;
            }
            j = j + 1;
        }
        proof {
            assert forall|u: int, j2: int|
                0 <= u < t + 1 && 0 <= j2 < rows_view(rows@)[u].len() implies (#[trigger] rows_view(
                rows@,
            )[u][j2]).wf() by {
                if u == t {
                    assert(rows_view(rows@)[u][j2] == row@[j2]);
                }
            }
        }
        t = t + 1;
    }
    true
}

/// Acceptance of a whole FRI proof from a given transcript state: the replay
/// draws the batching challenge, absorbs each round commitment and draws its
/// fold challenge, absorbs the terminal scalar, then draws one index per
/// query; the proof must have one commitment per halving of the tallest
/// stated height and every query must check out.
#[verifier::opaque]
pub open spec fn fri_verify_spec<H: Hasher, C: Compressor>(
    h: &H,
    c: &C,
    input_commits: Seq<Digest>,
    dims: Seq<Seq<Dimensions>>,
    num_queries: nat,
    p: FriProof,
    st0: u64,
) -> bool {
    let alpha = crate::transcript::draw_value_spec(st0);
    let st1 = crate::transcript::draw_state_spec(st0);
    let coms = p.commit_phase_commits@;
    let betas = replay_betas(st1, coms);
    let st2 = replay_state(st1, coms);
    let stq = crate::transcript::absorb_spec(st2, p.final_value.value);
    let gml = log2(crate::merkle::max_dim_height(flatten_dims(dims)));
    &&& coms.len() == gml
    &&& p.query_proofs@.len() == num_queries
    &&& forall|q: int|
        0 <= q < num_queries ==> query_ok(
            h,
            c,
            input_commits,
            dims,
            coms,
            betas,
            alpha,
            p.final_value,
            gml,
            query_index_spec(stq, q as nat, pow2(gml)),
            #[trigger] p.query_proofs@[q],
        )
}

/// Replays one query: verifies every input opening, recombines the claimed
/// rows into the first round's expected value, and replays every fold round
/// down to the terminal scalar. Returns exactly whether `query_ok` holds.
#[verifier::rlimit(100)]
fn check_query<H: Hasher, C: Compressor>(
    mmcs: &crate::merkle::MerkleTreeMMCS<H, C>,
    input_commits: &Vec<Digest>,
    input_dims: &Vec<Vec<Dimensions>>,
    fdims: &Vec<Dimensions>,
    coms: &Vec<Digest>,
    betas: &Vec<Fe>,
    alpha: Fe,
    final_value: Fe,
    gmax: usize,
    gml: usize,
    idx: usize,
    qp: &QueryProof,
) -> (ok: bool)
    requires
        fdims@ == flatten_dims(dims_views(input_dims@)),
        input_commits@.len() == input_dims@.len(),
        gmax as nat == crate::merkle::max_dim_height(fdims@),
        gmax as nat == pow2(gml as nat),
        gml <= 32,
        idx < gmax,
        betas@.len() == coms@.len(),
        coms@.len() == gml as nat,
        alpha.wf(),
        forall|u: int| 0 <= u < betas@.len() ==> (#[trigger] betas@[u]).wf(),
        forall|t: int, u: int|
            0 <= t < input_dims@.len() && 0 <= u < input_dims@[t]@.len() ==> is_power_of_two(
                (#[trigger] input_dims@[t]@[u]).height as nat,
            ),
    ensures
        ok == query_ok(
            &mmcs.hash,
            &mmcs.compress,
            input_commits@,
            dims_views(input_dims@),
            coms@,
            betas@,
            alpha,
            final_value,
            gml as nat,
            idx as nat,
            *qp,
        ),
{
    proof {
        reveal(query_ok);
    }
    let ghost dims = dims_views(input_dims@);
    if qp.input_openings.len() != input_dims.len() {
        return false;
    }
    // Every input tree's opening must authenticate at the reduced index.
    let mut t: usize = 0;
    while t < input_dims.len()
        invariant
            t <= input_dims@.len(),
            dims == dims_views(input_dims@),
            dims.len() == input_dims@.len(),
            forall|u: int| 0 <= u < dims.len() ==> dims[u] == input_dims@[u]@,
            qp.input_openings@.len() == input_dims@.len(),
            input_commits@.len() == input_dims@.len(),
            fdims@ == flatten_dims(dims),
            gmax as nat == crate::merkle::max_dim_height(fdims@),
            gmax as nat == pow2(gml as nat),
            idx < gmax,
            forall|t2: int, u: int|
                0 <= t2 < input_dims@.len() && 0 <= u < input_dims@[t2]@.len() ==> is_power_of_two(
                    (#[trigger] input_dims@[t2]@[u]).height as nat,
                ),
            forall|t2: int|
                0 <= t2 < t ==> crate::merkle::batch_verify_spec(
                    &mmcs.hash,
                    &mmcs.compress,
                    input_commits@[t2],
                    dims[t2],
                    rows_view((#[trigger] qp.input_openings@[t2]).opened_rows@),
                    idx as nat / pow2(
                        (gml - log2(crate::merkle::max_dim_height(dims[t2]))) as nat,
                    ),
                    qp.input_openings@[t2].siblings@,
                ),
        decreases input_dims@.len() - t,
    {
        proof {
            reveal(query_ok);
        }
        let tmax = max_dims(&input_dims[t]);
        let ghost tml = log2(tmax as nat);
        if tmax == 0 {
            // An empty or zero-height dimension list can never authenticate.
            let bo = &qp.input_openings[t];
            let rc = mmcs.verify_batch(
                &input_commits[t],
                &input_dims[t],
                idx,
                &bo.opened_rows,
                &bo.siblings,
            );
            proof {
                if dims[t as int].len() > 0 {
                    lemma_max_dim_attained(dims[t as int]);
                    let w = choose|u: int|
                        0 <= u < dims[t as int].len() && (#[trigger] dims[t as int][u]).height
                            as nat == crate::merkle::max_dim_height(dims[t as int]);
                    assert(is_power_of_two(dims[t as int][w].height as nat));
                    assert(false);
                }
            }
            if rc.is_err() {
                proof {
                    assert(!crate::merkle::opening_shape_ok(
                        dims[t as int],
                        rows_view(bo.opened_rows@),
                        idx as nat / pow2((gml - log2(0)) as nat),
                        bo.siblings@.len(),
                    ));
                }
                return false;
            }
            proof {
                assert(false);
            }
        }
        proof {
            lemma_max_dim_attained(dims[t as int]);
            let w = choose|u: int|
                0 <= u < dims[t as int].len() && (#[trigger] dims[t as int][u]).height as nat
                    == crate::merkle::max_dim_height(dims[t as int]);
            assert(is_power_of_two(dims[t as int][w].height as nat));
            crate::bits::lemma_pow2_log2(tmax as nat);
            lemma_flatten_dims_tree_max(dims, t as int);
            if tml > gml as nat {
                vstd::arithmetic::power2::lemma_pow2_strictly_increases(gml as nat, tml);
            }
            vstd::arithmetic::power2::lemma_pow2_subtracts(tml, gml as nat);
            vstd::arithmetic::power2::lemma_pow2_pos(tml);
            vstd::arithmetic::power2::lemma_pow2_pos((gml as nat - tml) as nat);
            vstd::arithmetic::power2::lemma_pow2_adds((gml as nat - tml) as nat, tml);
            vstd::arithmetic::div_mod::lemma_multiply_divide_lt(
                idx as int,
                pow2((gml as nat - tml) as nat) as int,
                pow2(tml) as int,
            );
        }
        let divisor = gmax / tmax;
        let tidx = idx / divisor;
        let bo = &qp.input_openings[t];
        let rc = mmcs.verify_batch(
            &input_commits[t],
            &input_dims[t],
            tidx,
            &bo.opened_rows,
            &bo.siblings,
        );
        if rc.is_err() {
            return false;
        }
        t = t + 1;
    }
    // All claimed values must be reduced field elements.
    let fopened = flatten_opened_exec(&qp.input_openings);
    if !check_opened_wf(&fopened) {
        return false;
    }
    if qp.round_openings.len() != coms.len() {
        return false;
    }
    // The expected value entering round 0.
    let ghost fo = flatten_opened(qp.input_openings@);
    proof {
        assert forall|t2: int|
            0 <= t2 < qp.input_openings@.len() implies rows_view(
            (#[trigger] qp.input_openings@[t2]).opened_rows@,
        ).len() == dims[t2].len() by {
            assert(crate::merkle::batch_verify_spec(
                &mmcs.hash,
                &mmcs.compress,
                input_commits@[t2],
                dims[t2],
                rows_view(qp.input_openings@[t2].opened_rows@),
                idx as nat / pow2((gml - log2(crate::merkle::max_dim_height(dims[t2]))) as nat),
                qp.input_openings@[t2].siblings@,
            ));
        }
        lemma_flatten_lens(dims, qp.input_openings@);
        lemma_opened_group_wf(fdims@, fo, gmax as nat);
        let grp = crate::merkle::opened_group(fdims@, fo, gmax as nat);
        assert forall|u: int, j: int|
            0 <= u < grp.len() && 0 <= j < grp[u].len() implies (#[trigger] grp[u][j]).wf() by {}
    }
    let grp0 = crate::merkle::gather_opened(fdims, &fopened, gmax);
    proof {
        assert forall|u: int, j: int|
            0 <= u < grp0@.len() && 0 <= j < grp0@[u]@.len() implies (#[trigger] grp0@[u]@[j]).wf() by {
            assert(grp0@[u]@[j] == rows_view(grp0@)[u][j]);
            assert(rows_view(grp0@)[u][j] == crate::merkle::opened_group(
                fdims@,
                fo,
                gmax as nat,
            )[u][j]);
        }
    }
    let mut cur_val = horner_reduce(Fe::zero(), &grp0, alpha);
    let mut cur_idx: usize = idx;
    let mut l: usize = gmax;
    let mut r: usize = 0;
    let half = half_exec();
    while r < coms.len()
        invariant
            r <= coms@.len(),
            dims == dims_views(input_dims@),
            fdims@ == flatten_dims(dims),
            fo == flatten_opened(qp.input_openings@),
            rows_view(fopened@) == fo,
            fopened@.len() == fo.len(),
            fdims@.len() == fo.len(),
            qp.round_openings@.len() == coms@.len(),
            opened_wf(fo),
            betas@.len() == coms@.len(),
            coms@.len() == gml as nat,
            alpha.wf(),
            cur_val.wf(),
            half == fe_half(),
            forall|u: int| 0 <= u < betas@.len() ==> (#[trigger] betas@[u]).wf(),
            gmax as nat == pow2(gml as nat),
            gml <= 32,
            l as nat == pow2((gml - r) as nat),
            cur_idx < l,
            rounds_ok(
                &mmcs.hash,
                &mmcs.compress,
                coms@,
                betas@,
                alpha,
                fdims@,
                fo,
                final_value,
                qp.round_openings@,
                0,
                horner_rows(
                    fe_zero(),
                    crate::merkle::opened_group(fdims@, fo, pow2(gml as nat)),
                    alpha,
                ),
                idx as nat,
                pow2(gml as nat),
            ) == rounds_ok(
                &mmcs.hash,
                &mmcs.compress,
                coms@,
                betas@,
                alpha,
                fdims@,
                fo,
                final_value,
                qp.round_openings@,
                r as nat,
                cur_val,
                cur_idx as nat,
                l as nat,
            ),
        decreases coms@.len() - r,
    {
        proof {
            reveal(query_ok);
            vstd::arithmetic::power2::lemma_pow2_unfold((gml - r) as nat);
            vstd::arithmetic::power2::lemma_pow2_pos((gml - r - 1) as nat);
        }
        let n = l / 2;
        let row = cur_idx / 2;
        let bo = &qp.round_openings[r];
        if bo.opened_rows.len() != 1 {
            return false;
        }
        if bo.opened_rows[0].len() != 2 {
            return false;
        }
        let a = bo.opened_rows[0][0];
        let b = bo.opened_rows[0][1];
        proof {
            assert(rows_view(bo.opened_rows@)[0] == bo.opened_rows@[0]@);
        }
        if a.value >= crate::field::FP {
            return false;
        }
        if b.value >= crate::field::FP {
            return false;
        }
        let claimed = if cur_idx % 2 == 0 {
            a
        } else {
            b
        };
        if !(claimed == cur_val) {
            return false;
        }
        let mut dims_one: Vec<Dimensions> = Vec::new();
        dims_one.push(Dimensions { width: 2, height: n });
        proof {
            assert(dims_one@ =~= seq![Dimensions { width: 2, height: n }]);
        }
        let rc = mmcs.verify_batch(&coms[r], &dims_one, row, &bo.opened_rows, &bo.siblings);
        if rc.is_err() {
            return false;
        }
        // Recompute the fold of the claimed pair.
        let g = domain_generator(gml - r);
        let ginv = g.inv();
        proof {
            crate::bits::lemma_log2_pow2((gml - r) as nat);
            crate::bits::lemma_log2_pow2((gml - r - 1) as nat);
        }
        let rev = bit_reverse_u64((gml - r - 1) as u64, row as u64);
        let gp = ginv.pow(rev);
        let even = a.add(b).mul(half);
        let odd = a.sub(b).mul(half).mul(gp);
        let folded = even.add(betas[r].mul(odd));
        let grp = crate::merkle::gather_opened(fdims, &fopened, n);
        proof {
            lemma_opened_group_wf(fdims@, fo, n as nat);
            assert forall|u: int, j: int|
                0 <= u < grp@.len() && 0 <= j < grp@[u]@.len() implies (
            #[trigger] grp@[u]@[j]).wf() by {
                assert(grp@[u]@[j] == rows_view(grp@)[u][j]);
                assert(rows_view(grp@)[u][j] == crate::merkle::opened_group(
                    fdims@,
                    fo,
                    n as nat,
                )[u][j]);
            }
        }
        let next_val = if grp.len() > 0 {
            horner_reduce(folded, &grp, alpha)
        } else {
            folded
        };
        cur_val = next_val;
        cur_idx = row;
        l = n;
        r = r + 1;
    }
    proof {
        reveal(query_ok);
    }
    cur_val == final_value
}

/// The FRI verifier: replays the transcript draws in the prover's exact
/// order (the batching challenge, one fold challenge per round commitment,
/// then the query indices), verifies every Merkle opening, recomputes every
/// fold identity, and compares the terminal value. Returns accept exactly
/// when `fri_verify_spec` holds of the proof; any single failing check
/// rejects, and no well-typed proof makes it panic.
#[verifier::rlimit(100)]
pub fn verify<H: Hasher, C: Compressor>(
    mmcs: &crate::merkle::MerkleTreeMMCS<H, C>,
    input_commits: &Vec<Digest>,
    input_dims: &Vec<Vec<Dimensions>>,
    proof: &FriProof,
    config: &FriConfig,
    challenger: &mut crate::transcript::Transcript,
) -> (r: Result<(), FriError>)
    requires
        input_dims@.len() == input_commits@.len(),
        input_dims@.len() > 0,
        forall|t: int, u: int|
            0 <= t < input_dims@.len() && 0 <= u < input_dims@[t]@.len() ==> is_power_of_two(
                (#[trigger] input_dims@[t]@[u]).height as nat,
            ),
        flatten_dims(dims_views(input_dims@)).len() > 0,
        log2(crate::merkle::max_dim_height(flatten_dims(dims_views(input_dims@)))) <= 32,
    ensures
        (r is Ok) == fri_verify_spec(
            &mmcs.hash,
            &mmcs.compress,
            input_commits@,
            dims_views(input_dims@),
            config.num_queries as nat,
            *proof,
            old(challenger).state,
        ),
        r is Err ==> r == Err::<(), FriError>(FriError::InvalidProof),
{
    proof {
        reveal(fri_verify_spec);
    }
    let ghost dims = dims_views(input_dims@);
    let ghost st0 = challenger.state;
    let alpha = challenger.draw();
    let ghost st1 = challenger.state;
    // Replay the round commitments: absorb each, draw its fold challenge.
    let mut betas: Vec<Fe> = Vec::new();
    let mut rr: usize = 0;
    while rr < proof.commit_phase_commits.len()
        invariant
            rr <= proof.commit_phase_commits@.len(),
            betas@.len() == rr as nat,
            betas@ == replay_betas(st1, proof.commit_phase_commits@.take(rr as int)),
            challenger.state == replay_state(st1, proof.commit_phase_commits@.take(rr as int)),
            forall|u: int| 0 <= u < betas@.len() ==> (#[trigger] betas@[u]).wf(),
        decreases proof.commit_phase_commits@.len() - rr,
    {
        let ghost coms = proof.commit_phase_commits@;
        challenger.absorb(proof.commit_phase_commits[rr].value);
        let beta = challenger.draw();
        betas.push(beta);
        proof {
            assert(coms.take(rr as int + 1).drop_last() =~= coms.take(rr as int));
            assert(coms.take(rr as int + 1).last() == coms[rr as int]);
            assert(betas@ =~= replay_betas(st1, coms.take(rr as int + 1)));
        }
        rr = rr + 1;
    }
    proof {
        assert(proof.commit_phase_commits@.take(proof.commit_phase_commits@.len() as int)
            =~= proof.commit_phase_commits@);
    }
    challenger.absorb(proof.final_value.value);
    let ghost stq = challenger.state;
    // The tallest stated height across all trees fixes the round count.
    let fdims = flatten_dims_exec(input_dims);
    let gmax = max_dims(&fdims);
    proof {
        lemma_max_dim_attained(fdims@);
        lemma_flatten_dims_all(dims);
        let w = choose|u: int|
            0 <= u < fdims@.len() && (#[trigger] fdims@[u]).height as nat
                == crate::merkle::max_dim_height(fdims@);
        assert(is_power_of_two(fdims@[w].height as nat));
    }
    let gml = match crate::bits::checked_log2(gmax) {
        Some(k) => k,
        None => {
            proof {
                assert(false);
            }
            vstd::pervasive::unreached()
        },
    };
    if proof.commit_phase_commits.len() != gml {
        return Err(FriError::InvalidProof);
    }
    if proof.query_proofs.len() != config.num_queries {
        return Err(FriError::InvalidProof);
    }
    // Check each query at its replayed index.
    let mut q: usize = 0;
    let mut all_ok = true;
    let ghost mut bad: int = 0;
    while q < config.num_queries
        invariant
            all_ok ==> forall|qq: int|
                0 <= qq < q ==> query_ok(
                    &mmcs.hash,
                    &mmcs.compress,
                    input_commits@,
                    dims,
                    proof.commit_phase_commits@,
                    betas@,
                    alpha,
                    proof.final_value,
                    gml as nat,
                    query_index_spec(stq, qq as nat, pow2(gml as nat)),
                    #[trigger] proof.query_proofs@[qq],
                ),
            !all_ok ==> 0 <= bad < q && !query_ok(
                &mmcs.hash,
                &mmcs.compress,
                input_commits@,
                dims,
                proof.commit_phase_commits@,
                betas@,
                alpha,
                proof.final_value,
                gml as nat,
                query_index_spec(stq, bad as nat, pow2(gml as nat)),
                proof.query_proofs@[bad],
            ),
            q <= config.num_queries,
            dims == dims_views(input_dims@),
            fdims@ == flatten_dims(dims),
            input_dims@.len() == input_commits@.len(),
            forall|t: int, u: int|
                0 <= t < input_dims@.len() && 0 <= u < input_dims@[t]@.len() ==> is_power_of_two(
                    (#[trigger] input_dims@[t]@[u]).height as nat,
                ),
            gmax as nat == crate::merkle::max_dim_height(fdims@),
            gmax as nat == pow2(gml as nat),
            gml <= 32,
            gmax >= 1,
            betas@.len() == proof.commit_phase_commits@.len(),
            proof.commit_phase_commits@.len() == gml as nat,
            proof.query_proofs@.len() == config.num_queries as nat,
            alpha.wf(),
            forall|u: int| 0 <= u < betas@.len() ==> (#[trigger] betas@[u]).wf(),
            alpha == crate::transcript::draw_value_spec(st0),
            st1 == crate::transcript::draw_state_spec(st0),
            betas@ == replay_betas(st1, proof.commit_phase_commits@),
            stq == crate::transcript::absorb_spec(
                replay_state(st1, proof.commit_phase_commits@),
                proof.final_value.value,
            ),
            challenger.state == crate::transcript::draws_state_spec(stq, q as nat),
        decreases config.num_queries - q,
    {
        let dv = challenger.draw();
        let idx = (dv.value % (gmax as u64)) as usize;
        proof {
            assert(crate::transcript::draws_state_spec(stq, q as nat + 1)
                == crate::transcript::draw_state_spec(
                crate::transcript::draws_state_spec(stq, q as nat),
            ));
            assert(idx as nat == query_index_spec(stq, q as nat, pow2(gml as nat)));
        }
        let ok = check_query(
            mmcs,
            input_commits,
            input_dims,
            &fdims,
            &proof.commit_phase_commits,
            &betas,
            alpha,
            proof.final_value,
            gmax,
            gml,
            idx,
            &proof.query_proofs[q],
        );
        if !ok && all_ok {
            all_ok = false;
            proof {
                bad = q as int;
            }
        }
        q = q + 1;
    }
    proof {
        reveal(fri_verify_spec);
    }
    if all_ok {
        Ok(())
    } else {
        Err(FriError::InvalidProof)
    }
}

} // verus!
