//! The trace encoder: maps a Collatz trajectory into a fixed-width,
//! power-of-two-length matrix of field elements.
//!
//! Each row holds the little-endian bit decomposition of one trajectory
//! element in its first `n_bits` columns, followed by a step counter column
//! and a transition flag column. The trace is padded to the next power of two
//! by repeating the terminal value 1 with the flag cleared and the counter
//! pinned at the step count.

use vstd::prelude::*;

use crate::bits::bit_decompose;
use crate::bits::pow2_u64;
use crate::errors::CollatzError;
use crate::field::Fp;
use crate::field::FIELD_PRIME;
use crate::sequence::as_ints;
use crate::sequence::collatz_step;
use crate::sequence::compute_collatz_sequence;
use crate::sequence::is_collatz_seq;
use crate::sequence::lemma_collatz_seq_unique;
use crate::sequence::trajectory_exceeds_limits;
use crate::sequence::MAX_STEPS;

verus! {

use vstd::arithmetic::power2::pow2;
use vstd::arithmetic::power2::is_pow2;
use vstd::arithmetic::power2::lemma_pow2_pos;
use vstd::arithmetic::power2::lemma2_to64;
use vstd::arithmetic::div_mod::lemma_small_mod;
use crate::bits::all_bits;
use crate::bits::weighted_sum;
use crate::bits::lemma_weighted_sum_injective;
use crate::bits::lemma_weighted_sum_of_bits;
use crate::bits::lemma_weighted_sum_prefix_eq;

/// The widest bit decomposition the encoder accepts. Keeping every row value
/// below `2^28` leaves the constraint polynomials, whose intermediate terms
/// reach `6 * value + 2`, short of the field modulus, so that weighted sums
/// are recovered exactly and never wrap.
pub const MAX_BITS: usize = 28;

/// A row of field elements viewed as integers.
pub open spec fn fp_ints(s: Seq<Fp>) -> Seq<int> {
    s.map_values(|f: Fp| f@)
}

/// The execution trace of one Collatz computation.
#[derive(Debug)]
pub struct CollatzTrace {
    /// Number of bit columns; the full width is `n_bits + 2`.
    pub n_bits: usize,
    /// Number of genuine Collatz steps (sequence length minus one).
    pub steps_count: usize,
    /// `padded_length` rows, each of `n_bits + 2` field elements.
    pub rows: Vec<Vec<Fp>>,
}

impl CollatzTrace {
    /// Row `i` as a sequence of integer representatives.
    pub open spec fn row(self, i: int) -> Seq<int> {
        fp_ints(self.rows@[i]@)
    }

    /// The integer reconstructed from row `i`'s bit columns.
    pub open spec fn row_value(self, i: int) -> int {
        weighted_sum(self.row(i), self.n_bits as nat)
    }

    /// The step counter entry of row `i`.
    pub open spec fn counter(self, i: int) -> int {
        self.row(i)[self.n_bits as int]
    }

    /// The transition flag entry of row `i`.
    pub open spec fn flag(self, i: int) -> int {
        self.row(i)[self.n_bits + 1]
    }
}

/// What the encoder guarantees of a generated trace: the shape of the matrix,
/// bit columns that are genuine bits, row values that walk the Collatz
/// trajectory from `start` down to 1 and then repeat 1 over the padding, and
/// counter and flag columns that count exactly the genuine steps.
pub open spec fn trace_valid(t: CollatzTrace, start: int) -> bool {
    let len = t.rows@.len() as int;
    let steps = t.steps_count as int;
    &&& 1 <= t.n_bits <= MAX_BITS
    &&& steps <= MAX_STEPS
    &&& steps + 1 <= len
    &&& len < 2 * (steps + 1)
    &&& is_pow2(len)
    &&& forall|i: int| 0 <= i < len ==> (#[trigger] t.rows@[i]@).len() == t.n_bits + 2
    &&& forall|i: int| 0 <= i < len ==> all_bits(#[trigger] t.row(i), t.n_bits as nat)
    &&& t.row_value(0) == start
    &&& forall|i: int|
        1 <= i <= steps ==> t.row_value(i - 1) != 1 && #[trigger] t.row_value(i) == collatz_step(
            t.row_value(i - 1),
        )
    &&& t.row_value(steps) == 1
    &&& forall|i: int| steps < i < len ==> #[trigger] t.row_value(i) == 1
    &&& forall|i: int|
        0 <= i < len ==> #[trigger] t.counter(i) == (if i <= steps {
            i
        } else {
            steps
        })
    &&& forall|i: int|
        0 <= i < len ==> #[trigger] t.flag(i) == (if 1 <= i <= steps {
            1int
        } else {
            0int
        })
}

/// The smallest power of two that is at least `x`.
pub fn next_power_of_two(x: usize) -> (r: usize)
    requires
        1 <= x <= 0x4000,
    ensures
        is_pow2(r as int),
        x <= r < 2 * x,
{
    proof {
        reveal(is_pow2);
    }
    let mut p: usize = 1;
    while p < x
        invariant
            x <= 0x4000,
            1 <= p,
            p < 2 * x,
            is_pow2(p as int),
        decreases 2 * x - p,
    {
        proof {
            reveal(is_pow2);
        }
        p = p * 2;
    }
    p
}

/// Encodes the Collatz trajectory of `starting_value` as an execution trace
/// with `n_bits` bit columns, a step counter column and a transition flag
/// column.
///
/// Fails with `InvalidInput` when the starting value is 0 or the bit width is
/// outside `[1, MAX_BITS]`, with `Divergence` when the trajectory overruns
/// the generator's fuses, and with `ColumnWidthOverflow` when some trajectory
/// value does not fit in `n_bits` bits.
pub fn generate_collatz_trace(starting_value: u32, n_bits: usize) -> (result: Result<
    CollatzTrace,
    CollatzError,
>)
    ensures
        match result {
            Ok(t) => {
                &&& starting_value >= 1
                &&& t.n_bits == n_bits
                &&& trace_valid(t, starting_value as int)
            },
            Err(CollatzError::InvalidInput) => starting_value == 0 || n_bits < 1 || n_bits
                > MAX_BITS,
            Err(CollatzError::Divergence) => starting_value >= 1 && 1 <= n_bits <= MAX_BITS
                && trajectory_exceeds_limits(starting_value as int),
            Err(CollatzError::ColumnWidthOverflow) => {
                &&& 1 <= n_bits <= MAX_BITS
                &&& exists|s: Seq<int>|
                    is_collatz_seq(s, starting_value as int) && (exists|i: int|
                        0 <= i < s.len() && #[trigger] s[i] >= pow2(n_bits as nat))
            },
            Err(_) => false,
        },
{
    if n_bits < 1 || n_bits > MAX_BITS {
        return Err(CollatzError::InvalidInput);
    }
    let seq_values: Vec<u32> = match compute_collatz_sequence(starting_value) {
        Ok(s) => s,
        Err(e) => {
            return Err(e);
        },
    };
    let limit: u64 = pow2_u64(n_bits);
    let mut idx: usize = 0;
    while idx < seq_values.len()
        invariant
            idx <= seq_values@.len(),
            limit as int == pow2(n_bits as nat),
            is_collatz_seq(as_ints(seq_values@), starting_value as int),
            1 <= n_bits <= MAX_BITS,
            forall|k: int| 0 <= k < idx ==> (#[trigger] seq_values@[k]) < limit,
        decreases seq_values@.len() - idx,
    {
        if seq_values[idx] as u64 >= limit {
            proof {
                let s = as_ints(seq_values@);
                assert(0 <= idx < s.len() && s[idx as int] >= pow2(n_bits as nat));
            }
            return Err(CollatzError::ColumnWidthOverflow);
        }
        idx = idx + 1;
    }
    let steps: usize = seq_values.len() - 1;
    let padded: usize = next_power_of_two(seq_values.len());
    let ghost sq = as_ints(seq_values@);
    let mut rows: Vec<Vec<Fp>> = Vec::new();
    let mut i: usize = 0;
    while i < padded
        invariant
            i <= padded,
            rows@.len() == i,
            1 <= n_bits <= MAX_BITS,
            steps + 1 == seq_values@.len(),
            steps <= MAX_STEPS,
            seq_values@.len() <= padded < 2 * seq_values@.len(),
            sq == as_ints(seq_values@),
            is_collatz_seq(sq, starting_value as int),
            forall|k: int| 0 <= k < seq_values@.len() ==> (#[trigger] seq_values@[k] as int)
                < pow2(n_bits as nat),
            forall|k: int| 0 <= k < i ==> (#[trigger] rows@[k]@).len() == n_bits + 2,
            forall|k: int| 0 <= k < i ==> all_bits(#[trigger] fp_ints(rows@[k]@), n_bits as nat),
            forall|k: int|
                0 <= k < i ==> weighted_sum(#[trigger] fp_ints(rows@[k]@), n_bits as nat) == (
                if k <= steps {
                    sq[k]
                } else {
                    1int
                }),
            forall|k: int|
                0 <= k < i ==> #[trigger] fp_ints(rows@[k]@)[n_bits as int] == (if k <= steps {
                    k
                } else {
                    steps as int
                }),
            forall|k: int|
                0 <= k < i ==> #[trigger] fp_ints(rows@[k]@)[n_bits + 1] == (if 1 <= k <= steps {
                    1int
                } else {
                    0int
                }),
        decreases padded - i,
    {
        let value: u32 = if i < seq_values.len() {
            seq_values[i]
        } else {
            1
        };
        proof {
            lemma_pow2_pos(n_bits as nat);
            if i >= seq_values@.len() {
                assert(pow2(n_bits as nat) >= 2) by {
                    lemma2_to64();
                    vstd::arithmetic::power2::lemma_pow2_strictly_increases(0, n_bits as nat);
                }
            }
        }
        let mut row: Vec<Fp> = bit_decompose(value as u64, n_bits);
        let ghost bits_only = fp_ints(row@);
        proof {
            lemma_weighted_sum_of_bits(bits_only, value as int, n_bits as nat);
            lemma_small_mod(value as nat, pow2(n_bits as nat));
        }
        let counter: u64 = if i <= steps {
            i as u64
        } else {
            steps as u64
        };
        let flag: u64 = if 1 <= i && i <= steps {
            1
        } else {
            0
        };
        proof {
            lemma_small_mod(counter as nat, FIELD_PRIME as nat);
            lemma_small_mod(flag as nat, FIELD_PRIME as nat);
        }
        row.push(Fp::new(counter));
        row.push(Fp::new(flag));
        proof {
            let full = fp_ints(row@);
            assert(full.len() == n_bits + 2);
            assert(forall|j: int| 0 <= j < n_bits ==> full[j] == bits_only[j]);
            assert(weighted_sum(full, n_bits as nat) == weighted_sum(bits_only, n_bits as nat))
                by {
                lemma_weighted_sum_prefix_eq(full, bits_only, n_bits as nat);
            }
            assert(full[n_bits as int] == counter as int);
            assert(full[n_bits + 1] == flag as int);
        }
        rows.push(row);
        i = i + 1;
    }
    let t = CollatzTrace { n_bits, steps_count: steps, rows };
    proof {
        assert forall|k: int| 1 <= k <= steps implies t.row_value(k - 1) != 1
            && #[trigger] t.row_value(k) == collatz_step(t.row_value(k - 1)) by {
            assert(sq[(k - 1) + 1] == collatz_step(sq[k - 1]));
        }
        assert(t.row_value(0) == sq[0]);
        assert(t.row_value(steps as int) == sq[steps as int]);
        assert(sq[steps as int] == sq[sq.len() - 1]);
        assert(trace_valid(t, starting_value as int));
    }
    Ok(t)
}

/// Two powers of two in the same window `[k, 2k)` coincide.
proof fn lemma_pow2_unique_in_window(a: int, b: int, k: int)
    requires
        is_pow2(a),
        is_pow2(b),
        k >= 1,
        k <= a < 2 * k,
        k <= b < 2 * k,
    ensures
        a == b,
{
    vstd::arithmetic::power2::is_pow2_equiv(a);
    vstd::arithmetic::power2::is_pow2_equiv(b);
    let ea = choose|e: nat| vstd::arithmetic::power::pow(2, e) == a;
    let eb = choose|e: nat| vstd::arithmetic::power::pow(2, e) == b;
    assert(pow2(ea) == a && pow2(eb) == b);
    if ea < eb {
        vstd::arithmetic::power2::lemma_pow2_unfold((ea + 1) as nat);
        if ea + 1 < eb {
            vstd::arithmetic::power2::lemma_pow2_strictly_increases((ea + 1) as nat, eb);
        }
        assert(b >= 2 * a);
        assert(false);
    }
    if eb < ea {
        vstd::arithmetic::power2::lemma_pow2_unfold((eb + 1) as nat);
        if eb + 1 < ea {
            vstd::arithmetic::power2::lemma_pow2_strictly_increases((eb + 1) as nat, ea);
        }
        assert(a >= 2 * b);
        assert(false);
    }
}

/// DETERMINISM of the encoding: two valid traces for the same starting
/// value and the same bit width are identical — same step count, same
/// number of rows, and the same field element in every cell.
pub proof fn lemma_trace_deterministic(t1: CollatzTrace, t2: CollatzTrace, start: int)
    requires
        trace_valid(t1, start),
        trace_valid(t2, start),
        t1.n_bits == t2.n_bits,
    ensures
        t1.steps_count == t2.steps_count,
        t1.rows@.len() == t2.rows@.len(),
        forall|i: int| 0 <= i < t1.rows@.len() ==> #[trigger] t1.row(i) == t2.row(i),
{
    let n = t1.n_bits as nat;
    let steps1 = t1.steps_count as int;
    let steps2 = t2.steps_count as int;
    let s1 = Seq::new((t1.steps_count + 1) as nat, |i: int| t1.row_value(i));
    let s2 = Seq::new((t2.steps_count + 1) as nat, |i: int| t2.row_value(i));
    assert(is_collatz_seq(s1, start)) by {
        assert(s1[0] == t1.row_value(0));
        assert(s1[s1.len() - 1] == t1.row_value(steps1));
        assert forall|i: int| 0 <= i < s1.len() - 1 implies #[trigger] s1[i] != 1 && s1[i + 1]
            == collatz_step(s1[i]) by {
            assert(t1.row_value(i + 1) == collatz_step(t1.row_value(i)));
        }
    }
    assert(is_collatz_seq(s2, start)) by {
        assert(s2[0] == t2.row_value(0));
        assert(s2[s2.len() - 1] == t2.row_value(steps2));
        assert forall|i: int| 0 <= i < s2.len() - 1 implies #[trigger] s2[i] != 1 && s2[i + 1]
            == collatz_step(s2[i]) by {
            assert(t2.row_value(i + 1) == collatz_step(t2.row_value(i)));
        }
    }
    lemma_collatz_seq_unique(s1, s2, start);
    assert(s1.len() == s2.len());
    assert(t1.steps_count == t2.steps_count);
    lemma_pow2_unique_in_window(t1.rows@.len() as int, t2.rows@.len() as int, steps1 + 1);
    assert forall|i: int| 0 <= i < t1.rows@.len() implies #[trigger] t1.row(i) == t2.row(i) by {
        let r1 = t1.row(i);
        let r2 = t2.row(i);
        if i <= steps1 {
            assert(s1[i] == s2[i]);
            assert(t1.row_value(i) == t2.row_value(i));
        } else {
            assert(t1.row_value(i) == 1 && t2.row_value(i) == 1);
        }
        lemma_weighted_sum_injective(r1, r2, n);
        assert(t1.counter(i) == t2.counter(i));
        assert(t1.flag(i) == t2.flag(i));
        assert(r1.len() == n + 2 && r2.len() == n + 2);
        assert(r1 =~= r2);
    }
}

} // verus!
