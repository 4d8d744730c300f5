//! Little-endian bit decomposition and the weighted sum that reconstructs a
//! row value from its bit columns.

use vstd::prelude::*;

use crate::field::Fp;
use crate::field::FIELD_PRIME;

verus! {

use vstd::arithmetic::power2::pow2;
use vstd::arithmetic::power2::lemma_pow2_pos;
use vstd::arithmetic::power2::lemma_pow2_unfold;
use vstd::arithmetic::power2::lemma_pow2_adds;
use vstd::arithmetic::power2::lemma_pow2_strictly_increases;
use vstd::arithmetic::power2::lemma2_to64;
use vstd::arithmetic::div_mod::lemma_small_mod;
use vstd::arithmetic::div_mod::lemma_mod_breakdown;
use vstd::arithmetic::div_mod::lemma_div_denominator;
use vstd::arithmetic::div_mod::lemma_mod_bound;
use vstd::arithmetic::div_mod::lemma_div_pos_is_pos;

/// Bit `j` of the nonnegative integer `v`, little-endian.
pub open spec fn bit_of(v: int, j: nat) -> int {
    (v / pow2(j) as int) % 2
}

/// The integer reconstructed from the first `n` entries of a row:
/// `sum over j < n of row[j] * 2^j`.
pub open spec fn weighted_sum(row: Seq<int>, n: nat) -> int
    decreases n,
{
    if n == 0 {
        0
    } else {
        weighted_sum(row, (n - 1) as nat) + row[n - 1] * pow2((n - 1) as nat)
    }
}

/// Whether the first `n` entries of a row are bits.
pub open spec fn all_bits(row: Seq<int>, n: nat) -> bool {
    forall|j: int| 0 <= j < n ==> row[j] == 0 || row[j] == 1
}

/// A weighted sum of `n` bits lies in `[0, 2^n)`.
pub proof fn lemma_weighted_sum_bound(row: Seq<int>, n: nat)
    requires
        all_bits(row, n),
    ensures
        0 <= weighted_sum(row, n) < pow2(n),
    decreases n,
{
    if n == 0 {
        lemma2_to64();
    } else {
        lemma_weighted_sum_bound(row, (n - 1) as nat);
        lemma_pow2_unfold(n);
        lemma_pow2_pos((n - 1) as nat);
        assert(row[n - 1] == 0 || row[n - 1] == 1);
        if row[n - 1] == 0 {
            assert(row[n - 1] * pow2((n - 1) as nat) == 0);
        } else {
            assert(row[n - 1] * pow2((n - 1) as nat) == pow2((n - 1) as nat));
        }
    }
}

/// A row holding the bit decomposition of `v` reconstructs to `v % 2^n`.
pub proof fn lemma_weighted_sum_of_bits(row: Seq<int>, v: int, n: nat)
    requires
        v >= 0,
        forall|j: int| 0 <= j < n ==> row[j] == bit_of(v, j as nat),
    ensures
        weighted_sum(row, n) == v % pow2(n) as int,
    decreases n,
{
    if n == 0 {
        lemma2_to64();
        assert(v % 1 == 0) by {
            vstd::arithmetic::div_mod::lemma_mod_multiples_vanish(v, 0, 1);
            lemma_small_mod(0, 1);
        }
    } else {
        let m: nat = (n - 1) as nat;
        lemma_weighted_sum_of_bits(row, v, m);
        lemma_pow2_pos(m);
        lemma_pow2_adds(m, 1);
        lemma2_to64();
        lemma_mod_breakdown(v, pow2(m) as int, 2);
        assert(v % (pow2(m) * 2) as int == pow2(m) * ((v / pow2(m) as int) % 2) + v % pow2(
            m,
        ) as int);
        assert(row[n - 1] == bit_of(v, m));
        assert(weighted_sum(row, n) == v % pow2(m) as int + ((v / pow2(m) as int) % 2) * pow2(
            m,
        ) as int);
        assert(pow2(n) == pow2(m) * 2);
    }
}

/// Two rows that agree on their first `n` entries have the same weighted sum.
pub proof fn lemma_weighted_sum_prefix_eq(r1: Seq<int>, r2: Seq<int>, n: nat)
    requires
        forall|j: int| 0 <= j < n ==> r1[j] == r2[j],
    ensures
        weighted_sum(r1, n) == weighted_sum(r2, n),
    decreases n,
{
    if n > 0 {
        lemma_weighted_sum_prefix_eq(r1, r2, (n - 1) as nat);
    }
}

/// Changing exactly one of the first `n` entries of a row shifts its
/// weighted sum by the change times that entry's weight.
pub proof fn lemma_weighted_sum_single_change(r1: Seq<int>, r2: Seq<int>, n: nat, j: int)
    requires
        0 <= j < n,
        forall|l: int| 0 <= l < n && l != j ==> r1[l] == r2[l],
    ensures
        weighted_sum(r2, n) == weighted_sum(r1, n) + (r2[j] - r1[j]) * pow2(j as nat),
    decreases n,
{
    if j == n - 1 {
        lemma_weighted_sum_prefix_eq(r1, r2, (n - 1) as nat);
        assert(r2[j] * pow2(j as nat) - r1[j] * pow2(j as nat) == (r2[j] - r1[j]) * pow2(
            j as nat,
        )) by (nonlinear_arith);
    } else {
        lemma_weighted_sum_single_change(r1, r2, (n - 1) as nat, j);
    }
}

/// Every bit of a nonnegative integer is 0 or 1.
pub proof fn lemma_bit_of_is_bit(v: int, j: nat)
    requires
        v >= 0,
    ensures
        bit_of(v, j) == 0 || bit_of(v, j) == 1,
{
    lemma_pow2_pos(j);
    lemma_div_pos_is_pos(v, pow2(j) as int);
    lemma_mod_bound(v / pow2(j) as int, 2);
}

/// Two rows of bits with the same weighted sum agree on those bits.
pub proof fn lemma_weighted_sum_injective(r1: Seq<int>, r2: Seq<int>, n: nat)
    requires
        all_bits(r1, n),
        all_bits(r2, n),
        weighted_sum(r1, n) == weighted_sum(r2, n),
    ensures
        forall|j: int| 0 <= j < n ==> r1[j] == r2[j],
    decreases n,
{
    if n > 0 {
        let m: nat = (n - 1) as nat;
        lemma_weighted_sum_bound(r1, m);
        lemma_weighted_sum_bound(r2, m);
        lemma_pow2_pos(m);
        assert(r1[n - 1] == r2[n - 1]) by {
            if r1[n - 1] == 0 && r2[n - 1] == 1 {
                assert(weighted_sum(r2, n) == weighted_sum(r2, m) + pow2(m));
                assert(weighted_sum(r1, n) == weighted_sum(r1, m));
            }
            if r1[n - 1] == 1 && r2[n - 1] == 0 {
                assert(weighted_sum(r1, n) == weighted_sum(r1, m) + pow2(m));
                assert(weighted_sum(r2, n) == weighted_sum(r2, m));
            }
        }
        assert(weighted_sum(r1, m) == weighted_sum(r2, m));
        lemma_weighted_sum_injective(r1, r2, m);
        assert(forall|j: int| 0 <= j < n - 1 ==> r1[j] == r2[j]);
    }
}

/// The bits of a row are the binary digits of its weighted sum.
pub proof fn lemma_bits_of_weighted_sum(row: Seq<int>, n: nat)
    requires
        all_bits(row, n),
    ensures
        forall|j: int| 0 <= j < n ==> row[j] == bit_of(weighted_sum(row, n), j as nat),
{
    let w = weighted_sum(row, n);
    lemma_weighted_sum_bound(row, n);
    let digits = Seq::new(n, |j: int| bit_of(w, j as nat));
    assert(all_bits(digits, n)) by {
        assert forall|j: int| 0 <= j < n implies digits[j] == 0 || digits[j] == 1 by {
            lemma_bit_of_is_bit(w, j as nat);
        }
    }
    lemma_weighted_sum_of_bits(digits, w, n);
    lemma_pow2_pos(n);
    lemma_small_mod(w as nat, pow2(n));
    lemma_weighted_sum_injective(row, digits, n);
}

/// `2^e` as a machine integer.
pub fn pow2_u64(e: usize) -> (r: u64)
    requires
        e <= 63,
    ensures
        r as int == pow2(e as nat),
        r >= 1,
{
    let mut r: u64 = 1;
    let mut k: usize = 0;
    proof {
        lemma2_to64();
        vstd::arithmetic::power2::lemma2_to64_rest();
    }
    while k < e
        invariant
            k <= e,
            e <= 63,
            r as int == pow2(k as nat),
            pow2(64) == 0x10000000000000000,
        decreases e - k,
    {
        proof {
            lemma_pow2_unfold((k + 1) as nat);
            lemma_pow2_strictly_increases((k + 1) as nat, 64);
        }
        r = r * 2;
        k = k + 1;
    }
    r
}

/// The number of bits needed to represent the largest of the values: the
/// smallest width with every value below two to that width.
pub fn required_bit_width(values: &Vec<u32>) -> (r: usize)
    ensures
        r <= 32,
        forall|k: int| 0 <= k < values@.len() ==> (#[trigger] values@[k]) < pow2(r as nat),
        r >= 1 ==> exists|k: int|
            0 <= k < values@.len() && (#[trigger] values@[k]) >= pow2((r - 1) as nat),
{
    let mut max: u32 = 0;
    let mut i: usize = 0;
    while i < values.len()
        invariant
            i <= values@.len(),
            forall|k: int| 0 <= k < i ==> (#[trigger] values@[k]) <= max,
            max == 0 || exists|k: int| 0 <= k < i && (#[trigger] values@[k]) == max,
        decreases values@.len() - i,
    {
        if values[i] > max {
            max = values[i];
        }
        i = i + 1;
    }
    let mut n: usize = 0;
    let mut cur: u32 = max;
    proof {
        lemma2_to64();
    }
    while cur > 0
        invariant
            n <= 32,
            cur as int == max as int / pow2(n as nat) as int,
            n >= 1 ==> max as int >= pow2((n - 1) as nat),
            max == 0 || exists|k: int|
                0 <= k < values@.len() && (#[trigger] values@[k]) == max,
            forall|k: int| 0 <= k < values@.len() ==> (#[trigger] values@[k]) <= max,
        decreases cur,
    {
        proof {
            lemma_pow2_pos(n as nat);
            lemma_pow2_adds(n as nat, 1);
            lemma2_to64();
            lemma_div_denominator(max as int, pow2(n as nat) as int, 2);
            // cur >= 1 means max has at least n + 1 bits
            assert(max as int >= pow2(n as nat)) by {
                vstd::arithmetic::div_mod::lemma_fundamental_div_mod(
                    max as int,
                    pow2(n as nat) as int,
                );
                assert(cur as int >= 1);
                assert(pow2(n as nat) as int * (cur as int) >= pow2(n as nat) as int) by (
                nonlinear_arith)
                    requires
                        cur as int >= 1,
                        pow2(n as nat) as int >= 1,
                ;
            }
            // so the loop cannot pass 32 rounds
            assert(n < 32) by {
                if n >= 32 {
                    lemma2_to64();
                    assert(max as int >= pow2(32));
                }
            }
        }
        cur = cur / 2;
        n = n + 1;
    }
    proof {
        lemma_pow2_pos(n as nat);
        vstd::arithmetic::div_mod::lemma_fundamental_div_mod(max as int, pow2(n as nat) as int);
        vstd::arithmetic::div_mod::lemma_mod_bound(max as int, pow2(n as nat) as int);
        assert((max as int) < pow2(n as nat)) by {
            assert(max as int == pow2(n as nat) as int * 0 + max as int % pow2(
                n as nat,
            ) as int);
        }
    }
    n
}

/// The little-endian bit decomposition of `v` into `n` field elements.
pub fn bit_decompose(v: u64, n: usize) -> (r: Vec<Fp>)
    ensures
        r@.len() == n,
        forall|j: int| 0 <= j < n ==> #[trigger] r@[j]@ == bit_of(v as int, j as nat),
        forall|j: int| 0 <= j < n ==> #[trigger] r@[j]@ == 0 || r@[j]@ == 1,
{
    let mut bits: Vec<Fp> = Vec::new();
    let mut cur: u64 = v;
    let mut j: usize = 0;
    proof {
        lemma2_to64();
    }
    while j < n
        invariant
            j <= n,
            bits@.len() == j,
            cur as int == v as int / pow2(j as nat) as int,
            forall|k: int| 0 <= k < j ==> #[trigger] bits@[k]@ == bit_of(v as int, k as nat),
            forall|k: int| 0 <= k < j ==> #[trigger] bits@[k]@ == 0 || bits@[k]@ == 1,
        decreases n - j,
    {
        let b: u64 = cur % 2;
        proof {
            lemma_small_mod(b as nat, FIELD_PRIME as nat);
            assert(b as int == bit_of(v as int, j as nat));
            lemma_pow2_pos(j as nat);
            lemma_pow2_adds(j as nat, 1);
            lemma2_to64();
            lemma_div_denominator(v as int, pow2(j as nat) as int, 2);
            assert(cur as int / 2 == v as int / pow2((j + 1) as nat) as int);
        }
        bits.push(Fp::new(b));
        cur = cur / 2;
        j = j + 1;
    }
    bits
}

} // verus!
