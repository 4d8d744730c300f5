//! The prime field the trace and the constraints are evaluated over.
//!
//! The modulus is the 31-bit prime `2^31 - 2^27 + 1`, the base field of the
//! proving engine's canonical configuration. Elements are kept reduced, so
//! every value of [`Fp`] views to an integer in `[0, FIELD_PRIME)`.

use vstd::prelude::*;

verus! {

use vstd::arithmetic::div_mod::lemma_add_mod_noop;
use vstd::arithmetic::div_mod::lemma_sub_mod_noop;
use vstd::arithmetic::div_mod::lemma_mul_mod_noop;
use vstd::arithmetic::div_mod::lemma_mod_twice;

/// The field modulus: `2^31 - 2^27 + 1`.
pub const FIELD_PRIME: u64 = 2013265921;

/// The field modulus as a mathematical integer, for specifications.
pub open spec fn p() -> int {
    FIELD_PRIME as int
}

/// Field addition on integer representatives.
pub open spec fn fadd(a: int, b: int) -> int {
    (a + b) % p()
}

/// Field subtraction on integer representatives.
pub open spec fn fsub(a: int, b: int) -> int {
    (a - b) % p()
}

/// Field multiplication on integer representatives.
pub open spec fn fmul(a: int, b: int) -> int {
    (a * b) % p()
}

/// Reducing twice modulo the field prime is the same as reducing once.
pub proof fn lemma_fmod_idem(a: int)
    ensures
        a % p() % p() == a % p(),
{
    lemma_mod_twice(a, p());
}

/// Congruent arguments give congruent sums modulo the field prime.
pub proof fn lemma_fadd_congruent(a1: int, a2: int, b1: int, b2: int)
    requires
        a1 % p() == a2 % p(),
        b1 % p() == b2 % p(),
    ensures
        (a1 + b1) % p() == (a2 + b2) % p(),
{
    lemma_add_mod_noop(a1, b1, p());
    lemma_add_mod_noop(a2, b2, p());
}

/// Congruent arguments give congruent differences modulo the field prime.
pub proof fn lemma_fsub_congruent(a1: int, a2: int, b1: int, b2: int)
    requires
        a1 % p() == a2 % p(),
        b1 % p() == b2 % p(),
    ensures
        (a1 - b1) % p() == (a2 - b2) % p(),
{
    lemma_sub_mod_noop(a1, b1, p());
    lemma_sub_mod_noop(a2, b2, p());
}

/// Congruent arguments give congruent products modulo the field prime.
pub proof fn lemma_fmul_congruent(a1: int, a2: int, b1: int, b2: int)
    requires
        a1 % p() == a2 % p(),
        b1 % p() == b2 % p(),
    ensures
        (a1 * b1) % p() == (a2 * b2) % p(),
{
    lemma_mul_mod_noop(a1, b1, p());
    lemma_mul_mod_noop(a2, b2, p());
}

/// An integer strictly between `-p` and `p` that reduces to zero is zero.
pub proof fn lemma_small_residue_zero(d: int)
    requires
        -p() < d < p(),
        d % p() == 0,
    ensures
        d == 0,
{
    if 0 <= d {
        vstd::arithmetic::div_mod::lemma_small_mod(d as nat, FIELD_PRIME as nat);
    } else {
        vstd::arithmetic::div_mod::lemma_mod_add_multiples_vanish(d, p());
        vstd::arithmetic::div_mod::lemma_small_mod((p() + d) as nat, FIELD_PRIME as nat);
    }
}

/// A nonzero integer of magnitude below `p` does not reduce to zero.
pub proof fn lemma_small_residue_nonzero(d: int)
    requires
        -p() < d < p(),
        d != 0,
    ensures
        d % p() != 0,
{
    if 0 < d {
        vstd::arithmetic::div_mod::lemma_small_mod(d as nat, FIELD_PRIME as nat);
    } else {
        vstd::arithmetic::div_mod::lemma_mod_add_multiples_vanish(d, p());
        vstd::arithmetic::div_mod::lemma_small_mod((p() + d) as nat, FIELD_PRIME as nat);
    }
}

/// An element of the prime field, always reduced modulo [`FIELD_PRIME`].
#[derive(Clone, Copy, Debug, PartialEq, Eq, Structural)]
pub struct Fp {
    value: u64,
}

impl View for Fp {
    type V = int;

    closed spec fn view(&self) -> int {
        self.value as int
    }
}

impl Fp {
    #[verifier::type_invariant]
    closed spec fn type_inv(self) -> bool {
        self.value < FIELD_PRIME
    }

    /// The element represented by `x`, reduced modulo the field prime.
    pub fn new(x: u64) -> (r: Fp)
        ensures
            r@ == x as int % p(),
    {
        Fp { value: x % FIELD_PRIME }
    }

    /// The additive identity.
    pub fn zero() -> (r: Fp)
        ensures
            r@ == 0,
    {
        Fp { value: 0 }
    }

    /// The multiplicative identity.
    pub fn one() -> (r: Fp)
        ensures
            r@ == 1,
    {
        Fp { value: 1 }
    }

    /// The canonical representative, in `[0, FIELD_PRIME)`.
    pub fn val(self) -> (r: u64)
        ensures
            r as int == self@,
            r < FIELD_PRIME,
    {
        proof {
            use_type_invariant(self);
        }
        self.value
    }

    /// Field addition. Also reports the canonical range of its arguments, so
    /// that callers can identify representatives with their residues.
    pub fn add(self, other: Fp) -> (r: Fp)
        ensures
            r@ == fadd(self@, other@),
            0 <= self@ < p(),
            0 <= other@ < p(),
    {
        proof {
            use_type_invariant(self);
            use_type_invariant(other);
        }
        let s: u64 = self.value + other.value;
        let v: u64 = if s >= FIELD_PRIME {
            s - FIELD_PRIME
        } else {
            s
        };
        proof {
            vstd::arithmetic::div_mod::lemma_mod_add_multiples_vanish(
                s as int - FIELD_PRIME as int,
                p(),
            );
            vstd::arithmetic::div_mod::lemma_small_mod(v as nat, FIELD_PRIME as nat);
        }
        Fp { value: v }
    }

    /// Field subtraction. Also reports the canonical range of its arguments.
    pub fn sub(self, other: Fp) -> (r: Fp)
        ensures
            r@ == fsub(self@, other@),
            0 <= self@ < p(),
            0 <= other@ < p(),
    {
        proof {
            use_type_invariant(self);
            use_type_invariant(other);
        }
        let s: u64 = self.value + FIELD_PRIME - other.value;
        let v: u64 = s % FIELD_PRIME;
        proof {
            vstd::arithmetic::div_mod::lemma_mod_add_multiples_vanish(
                self.value as int - other.value as int,
                p(),
            );
        }
        Fp { value: v }
    }

    /// Field multiplication. Also reports the canonical range of its arguments.
    pub fn mul(self, other: Fp) -> (r: Fp)
        ensures
            r@ == fmul(self@, other@),
            0 <= self@ < p(),
            0 <= other@ < p(),
    {
        proof {
            use_type_invariant(self);
            use_type_invariant(other);
            assert(self.value * other.value < 0x4000_0000_0000_0000) by (nonlinear_arith)
                requires
                    self.value < FIELD_PRIME,
                    other.value < FIELD_PRIME,
            ;
        }
        let prod: u64 = self.value * other.value;
        Fp { value: prod % FIELD_PRIME }
    }
}

} // verus!
