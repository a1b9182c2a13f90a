//! The concrete prime field the commitment scheme and the folding protocol
//! compute in: integers modulo `FP = 2^64 - 2^32 + 1`. The multiplicative
//! group of this field has order `FP - 1`, which is divisible by `2^32`, so
//! every domain size up to `2^32` has a generator (see `fri::domain_generator`).
//!
//! All combination arithmetic of the protocol runs through the operations
//! here; every executable operation carries an exact `ensures` against the
//! corresponding specification function.

use vstd::prelude::*;
use vstd::arithmetic::div_mod::lemma_mod_add_multiples_vanish;
use vstd::arithmetic::div_mod::lemma_small_mod;
use vstd::arithmetic::div_mod::lemma_mul_mod_noop_general;
use vstd::arithmetic::mul::lemma_mul_is_associative;

verus! {

/// The field's prime modulus, `2^64 - 2^32 + 1`.
pub const FP: u64 = 18446744069414584321;

/// A field element: a residue modulo `FP`. Well-formed values satisfy
/// `value < FP`; every operation below returns a well-formed result.
#[derive(Clone, Copy, PartialEq, Eq, Structural, Debug)]
pub struct Fe {
    pub value: u64,
}

/// The additive identity.
pub open spec fn fe_zero() -> Fe {
    Fe { value: 0 }
}

/// The multiplicative identity.
pub open spec fn fe_one() -> Fe {
    Fe { value: 1 }
}

/// The residue of an arbitrary machine integer.
pub open spec fn fe_from(v: u64) -> Fe {
    Fe { value: ((v as int) % (FP as int)) as u64 }
}

/// Field addition: `(a + b) mod FP`.
pub open spec fn fe_add(a: Fe, b: Fe) -> Fe {
    Fe { value: ((a.value + b.value) % (FP as int)) as u64 }
}

/// Field subtraction: `(a - b) mod FP` (Euclidean remainder, so the result
/// is the canonical non-negative residue).
pub open spec fn fe_sub(a: Fe, b: Fe) -> Fe {
    Fe { value: ((a.value - b.value) % (FP as int)) as u64 }
}

/// Field multiplication: `(a * b) mod FP`.
pub open spec fn fe_mul(a: Fe, b: Fe) -> Fe {
    Fe { value: ((a.value * b.value) % (FP as int)) as u64 }
}

/// Field exponentiation by repeated multiplication.
pub open spec fn fe_pow(b: Fe, e: nat) -> Fe
    decreases e,
{
    if e == 0 {
        fe_one()
    } else {
        fe_mul(fe_pow(b, (e - 1) as nat), b)
    }
}

impl Fe {
    /// Well-formedness: the representative is already reduced.
    pub open spec fn wf(self) -> bool {
        self.value < FP
    }

    /// Reduces an arbitrary machine integer into the field.
    pub fn new(value: u64) -> (r: Fe)
        ensures
            r == fe_from(value),
            r.wf(),
    {
        Fe { value: value % FP }
    }

    /// The additive identity.
    pub fn zero() -> (r: Fe)
        ensures
            r == fe_zero(),
            r.wf(),
    {
        Fe { value: 0 }
    }

    /// The multiplicative identity.
    pub fn one() -> (r: Fe)
        ensures
            r == fe_one(),
            r.wf(),
    {
        Fe { value: 1 }
    }

    /// Field addition.
    pub fn add(self, other: Fe) -> (r: Fe)
        requires
            self.wf(),
            other.wf(),
        ensures
            r == fe_add(self, other),
            r.wf(),
    {
        let s: u128 = self.value as u128 + other.value as u128;
        let m: u128 = s % (FP as u128);
        Fe { value: m as u64 }
    }

    /// Field subtraction.
    pub fn sub(self, other: Fe) -> (r: Fe)
        requires
            self.wf(),
            other.wf(),
        ensures
            r == fe_sub(self, other),
            r.wf(),
    {
        let s: u128 = self.value as u128 + FP as u128 - other.value as u128;
        let m: u128 = s % (FP as u128);
        proof {
            lemma_mod_add_multiples_vanish(self.value - other.value, FP as int);
        }
        Fe { value: m as u64 }
    }

    /// Field multiplication.
    pub fn mul(self, other: Fe) -> (r: Fe)
        requires
            self.wf(),
            other.wf(),
        ensures
            r == fe_mul(self, other),
            r.wf(),
    {
        proof {
            assert(self.value as int * other.value as int <= (u64::MAX as int) * (u64::MAX as int))
                by (nonlinear_arith)
                requires self.value <= u64::MAX, other.value <= u64::MAX,
            ;
        }
        let p: u128 = self.value as u128 * other.value as u128;
        let m: u128 = p % (FP as u128);
        Fe { value: m as u64 }
    }

    /// Field exponentiation by square and multiply.
    pub fn pow(self, e: u64) -> (r: Fe)
        requires
            self.wf(),
        ensures
            r == fe_pow(self, e as nat),
            r.wf(),
    {
        let mut base = self;
        let mut exp: u64 = e;
        let mut acc = Fe { value: 1 };
        proof {
            lemma_fe_mul_one(fe_pow(self, e as nat));
            lemma_fe_pow_wf(self, e as nat);
        }
        while exp > 0
            invariant
                base.wf(),
                acc.wf(),
                fe_pow(self, e as nat) == fe_mul(acc, fe_pow(base, exp as nat)),
            decreases exp,
        {
            let ghost pre_acc = acc;
            let ghost pre_base = base;
            let ghost pre_exp = exp as nat;
            if exp % 2 == 1 {
                acc = acc.mul(base);
            }
            base = base.mul(base);
            exp = exp / 2;
            proof {
                lemma_fe_pow_square_step(self, e as nat, pre_acc, pre_base, pre_exp);
            }
        }
        proof {
            lemma_fe_pow_wf(base, 0);
            lemma_fe_mul_one(acc);
        }
        acc
    }

    /// The multiplicative inverse computed as `self^(FP - 2)` (Fermat); for
    /// the zero element the result is zero.
    pub fn inv(self) -> (r: Fe)
        requires
            self.wf(),
        ensures
            r == fe_pow(self, (FP - 2) as nat),
            r.wf(),
    {
        self.pow(FP - 2)
    }
}

/// Multiplying by one is the identity.
pub proof fn lemma_fe_mul_one(a: Fe)
    requires
        a.wf(),
    ensures
        fe_mul(a, fe_one()) == a,
        fe_mul(fe_one(), a) == a,
{
    lemma_small_mod(a.value as nat, FP as nat);
}

/// Field multiplication commutes.
pub proof fn lemma_fe_mul_comm(a: Fe, b: Fe)
    ensures
        fe_mul(a, b) == fe_mul(b, a),
{
    assert(a.value * b.value == b.value * a.value) by (nonlinear_arith);
}

/// Field multiplication is associative.
pub proof fn lemma_fe_mul_assoc(a: Fe, b: Fe, c: Fe)
    ensures
        fe_mul(fe_mul(a, b), c) == fe_mul(a, fe_mul(b, c)),
{
    let m = FP as int;
    let x = a.value as int;
    let y = b.value as int;
    let z = c.value as int;
    lemma_mul_mod_noop_general(x * y, z, m);
    lemma_mul_mod_noop_general(x, y * z, m);
    lemma_mul_is_associative(x, y, z);
}

/// Powers are always well-formed field elements.
pub proof fn lemma_fe_pow_wf(b: Fe, e: nat)
    ensures
        fe_pow(b, e).wf(),
    decreases e,
{
    if e > 0 {
        lemma_fe_pow_wf(b, (e - 1) as nat);
    }
}

/// Squaring the base halves the exponent: `(b*b)^q == b^(2q)`.
pub proof fn lemma_fe_pow_square(b: Fe, q: nat)
    ensures
        fe_pow(fe_mul(b, b), q) == fe_pow(b, 2 * q),
    decreases q,
{
    if q > 0 {
        lemma_fe_pow_square(b, (q - 1) as nat);
        lemma_fe_mul_assoc(fe_pow(b, (2 * q - 2) as nat), b, b);
        assert(fe_pow(b, (2 * q - 1) as nat) == fe_mul(fe_pow(b, (2 * q - 2) as nat), b));
        assert(fe_pow(b, 2 * q) == fe_mul(fe_pow(b, (2 * q - 1) as nat), b));
    }
}

/// One square-and-multiply step preserves the running product invariant.
proof fn lemma_fe_pow_square_step(s: Fe, e: nat, acc: Fe, base: Fe, exp: nat)
    requires
        fe_pow(s, e) == fe_mul(acc, fe_pow(base, exp)),
    ensures
        exp % 2 == 1 ==> fe_pow(s, e) == fe_mul(fe_mul(acc, base), fe_pow(fe_mul(base, base), exp / 2)),
        exp % 2 == 0 ==> fe_pow(s, e) == fe_mul(acc, fe_pow(fe_mul(base, base), exp / 2)),
{
    lemma_fe_pow_square(base, exp / 2);
    if exp % 2 == 1 {
        assert(exp == 2 * (exp / 2) + 1);
        let h = 2 * (exp / 2);
        assert(fe_pow(base, (h + 1) as nat) == fe_mul(fe_pow(base, h as nat), base));
        lemma_fe_mul_assoc(acc, fe_pow(base, h as nat), base);
        lemma_fe_mul_comm(fe_pow(base, h as nat), base);
        lemma_fe_mul_assoc(acc, base, fe_pow(base, h as nat));
    } else {
        assert(exp == 2 * (exp / 2));
    }
}

} // verus!
