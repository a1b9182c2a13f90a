//! Powers of two: the specification predicate used for matrix heights, the
//! floor base-two logarithm, and the executable checks the tree builder needs.

use vstd::prelude::*;
use vstd::arithmetic::power2::pow2;
use vstd::arithmetic::power2::lemma_pow2_unfold;
use vstd::arithmetic::power2::lemma_pow2_pos;
use vstd::arithmetic::power2::lemma_pow2_strictly_increases;
use vstd::arithmetic::power2::lemma2_to64;
use vstd::arithmetic::div_mod::lemma_div_denominator;

verus! {

/// True when `n` is a power of two (so in particular `n >= 1`).
pub open spec fn is_power_of_two(n: nat) -> bool
    decreases n,
{
    if n == 0 {
        false
    } else if n == 1 {
        true
    } else {
        n % 2 == 0 && is_power_of_two(n / 2)
    }
}

/// Floor of the base-two logarithm; `log2(0)` and `log2(1)` are both `0`.
pub open spec fn log2(n: nat) -> nat
    decreases n,
{
    if n <= 1 {
        0
    } else {
        1 + log2(n / 2)
    }
}

/// A power of two is two to its own logarithm.
pub proof fn lemma_pow2_log2(n: nat)
    requires
        is_power_of_two(n),
    ensures
        n == pow2(log2(n)),
    decreases n,
{
    lemma2_to64();
    if n > 1 {
        lemma_pow2_log2(n / 2);
        lemma_pow2_unfold(log2(n));
    }
}

/// Two to any exponent satisfies the recursive power-of-two predicate.
pub proof fn lemma_pow2_is_power_of_two(k: nat)
    ensures
        is_power_of_two(pow2(k)),
    decreases k,
{
    lemma2_to64();
    if k > 0 {
        lemma_pow2_is_power_of_two((k - 1) as nat);
        lemma_pow2_unfold(k);
        lemma_pow2_pos((k - 1) as nat);
    }
}

/// The logarithm of `pow2(k)` is `k` itself.
pub proof fn lemma_log2_pow2(k: nat)
    ensures
        log2(pow2(k)) == k,
    decreases k,
{
    lemma2_to64();
    if k > 0 {
        lemma_log2_pow2((k - 1) as nat);
        lemma_pow2_unfold(k);
        lemma_pow2_pos((k - 1) as nat);
    }
}

/// Dividing twice by powers of two telescopes: `x / 2^k / 2 == x / 2^(k+1)`.
pub proof fn lemma_div_pow2_step(x: nat, k: nat)
    ensures
        x / pow2(k) / 2 == x / pow2(k + 1),
{
    lemma_pow2_pos(k);
    lemma_div_denominator(x as int, pow2(k) as int, 2);
    lemma_pow2_unfold(k + 1);
    assert(pow2(k + 1) == 2 * pow2(k));
}

/// A value below `2^a` divided by `2^b` stays below `2^(a-b)`.
pub proof fn lemma_div_pow2_bound(x: nat, a: nat, b: nat)
    requires
        b <= a,
        x < pow2(a),
    ensures
        x / pow2(b) < pow2((a - b) as nat),
{
    lemma_pow2_pos(b);
    lemma_pow2_pos((a - b) as nat);
    vstd::arithmetic::power2::lemma_pow2_adds(b, (a - b) as nat);
    assert(pow2(a) == pow2(b) * pow2((a - b) as nat));
    vstd::arithmetic::div_mod::lemma_multiply_divide_lt(
        x as int,
        pow2(b) as int,
        pow2((a - b) as nat) as int,
    );
}

/// Checks whether `n` is a power of two; on success it returns the exact
/// logarithm, so callers learn both `n == pow2(k)` and `k == log2(n)`.
pub fn checked_log2(n: usize) -> (r: Option<usize>)
    ensures
        match r {
            Some(k) => is_power_of_two(n as nat) && k == log2(n as nat) && n == pow2(k as nat),
            None => !is_power_of_two(n as nat),
        },
{
    if n == 0 {
        return None;
    }
    let mut m: usize = n;
    let mut k: usize = 0;
    proof {
        lemma2_to64();
    }
    while m > 1
        invariant
            1 <= m <= n,
            is_power_of_two(n as nat) == is_power_of_two(m as nat),
            log2(n as nat) == log2(m as nat) + k,
            n as nat == m as nat * pow2(k as nat),
        decreases m,
    {
        if m % 2 == 1 {
            assert(!is_power_of_two(m as nat));
            return None;
        }
        proof {
            lemma_pow2_unfold(k as nat + 1);
            assert(m as nat == 2 * ((m / 2) as nat));
            assert(m as nat * pow2(k as nat) == ((m / 2) as nat) * (2 * pow2(k as nat)))
                by (nonlinear_arith)
                requires m as nat == 2 * ((m / 2) as nat),
            ;
        }
        m = m / 2;
        proof {
            lemma_pow2_pos(k as nat + 1);
            assert(pow2(k as nat + 1) <= n as nat) by (nonlinear_arith)
                requires
                    n as nat == m as nat * pow2(k as nat + 1),
                    m as nat >= 1,
            ;
            if k as nat + 1 > 64 {
                lemma_pow2_strictly_increases(64, k as nat + 1);
                lemma2_to64();
                assert(false);
            }
        }
        k = k + 1;
    }
    proof {
        lemma2_to64();
    }
    Some(k)
}

/// The reversal of the low `k` bits of `i`: the low bit moves to position
/// `k - 1`, and so on. Bits of `i` above the low `k` are discarded.
pub open spec fn bit_reverse(k: nat, i: nat) -> nat
    decreases k,
{
    if k == 0 {
        0
    } else {
        (i % 2) * pow2((k - 1) as nat) + bit_reverse((k - 1) as nat, i / 2)
    }
}

/// Reverses the low `k` bits of `i`.
pub fn bit_reverse_u64(k: u64, i: u64) -> (r: u64)
    requires
        k <= 63,
    ensures
        r as nat == bit_reverse(k as nat, i as nat),
{
    let mut r: u64 = 0;
    let mut m: u64 = i;
    let mut t: u64 = 0;
    proof {
        lemma2_to64();
    }
    while t < k
        invariant
            t <= k,
            k <= 63,
            (r as nat) < pow2(t as nat),
            bit_reverse(k as nat, i as nat) == r as nat * pow2((k - t) as nat) + bit_reverse(
                (k - t) as nat,
                m as nat,
            ),
        decreases k - t,
    {
        proof {
            lemma_pow2_unfold((k - t) as nat);
            lemma_pow2_unfold(t as nat + 1);
            if t as nat + 1 < 64 {
                lemma_pow2_strictly_increases(t as nat + 1, 64);
            }
            lemma2_to64();
            vstd::arithmetic::power2::lemma2_to64_rest();
            assert(r as nat * pow2((k - t) as nat) + (m as nat % 2) * pow2((k - t - 1) as nat)
                == (2 * r as nat + m as nat % 2) * pow2((k - t - 1) as nat)) by (nonlinear_arith)
                requires pow2((k - t) as nat) == 2 * pow2((k - t - 1) as nat),
            ;
        }
        r = r * 2 + m % 2;
        m = m / 2;
        t = t + 1;
    }
    proof {
        lemma2_to64();
        assert(t == k);
        assert(bit_reverse(0, m as nat) == 0);
        assert(bit_reverse(k as nat, i as nat) == r as nat * pow2(0) + bit_reverse(0, m as nat));
        assert(r as nat * pow2(0) == r as nat) by (nonlinear_arith)
            requires pow2(0) == 1,
        ;
    }
    r
}

/// Computes `pow2(k)` as a 64-bit integer.
pub fn pow2_u64(k: u64) -> (r: u64)
    requires
        k <= 63,
    ensures
        r as nat == pow2(k as nat),
        r >= 1,
{
    let mut i: u64 = 0;
    let mut r: u64 = 1;
    proof {
        lemma2_to64();
    }
    while i < k
        invariant
            i <= k,
            k <= 63,
            r as nat == pow2(i as nat),
            r >= 1,
        decreases k - i,
    {
        proof {
            if i as nat + 1 < 64 {
                lemma_pow2_strictly_increases(i as nat + 1, 64);
            }
            lemma2_to64();
            vstd::arithmetic::power2::lemma2_to64_rest();
            lemma_pow2_unfold(i as nat + 1);
        }
        r = r * 2;
        i = i + 1;
    }
    r
}

} // verus!
