//! What the constraint system guarantees on traces: a validly generated
//! trace satisfies every boundary and transition constraint, the constraints
//! force every accepted transition to be a repeat or a genuine Collatz step,
//! and flipping any single bit of a non-padding row is caught.

use vstd::prelude::*;

use crate::air::binary_constraint;
use crate::air::CollatzAir;
use crate::air::counter_constraint;
use crate::air::main_constraint;
use crate::air::minimal_constraint;
use crate::air::step_ideal;
use crate::bits::all_bits;
use crate::bits::bit_of;
use crate::bits::lemma_bits_of_weighted_sum;
use crate::bits::lemma_weighted_sum_bound;
use crate::bits::lemma_weighted_sum_single_change;
use crate::bits::weighted_sum;
use crate::field::lemma_small_residue_nonzero;
use crate::field::lemma_small_residue_zero;
use crate::field::p;
use crate::field::FIELD_PRIME;
use crate::sequence::collatz_step;
use crate::trace::trace_valid;
use crate::trace::CollatzTrace;
use crate::trace::MAX_BITS;

verus! {

use vstd::arithmetic::power2::pow2;
use vstd::arithmetic::power2::lemma2_to64;
use vstd::arithmetic::power2::lemma_pow2_pos;
use vstd::arithmetic::power2::lemma_pow2_strictly_increases;
use vstd::arithmetic::div_mod::lemma_small_mod;
use vstd::arithmetic::div_mod::lemma_fundamental_div_mod;
use vstd::arithmetic::div_mod::lemma_basic_div;
use vstd::arithmetic::div_mod::lemma_div_basics;

/// Whether every transition constraint vanishes between rows `c` and `x` of
/// a trace with `n` bit columns.
pub open spec fn transition_zero(c: Seq<int>, x: Seq<int>, n: nat) -> bool {
    &&& forall|j: int| 0 <= j < n ==> binary_constraint(#[trigger] x[j]) == 0
    &&& binary_constraint(x[n as int + 1]) == 0
    &&& main_constraint(weighted_sum(c, n), c[0], weighted_sum(x, n), x[n as int + 1]) == 0
    &&& counter_constraint(c[n as int], x[n as int], x[n as int + 1]) == 0
}

/// Whether the boundary constraints hold of a trace for the public inputs
/// `start` and `steps`: row 0 holds the bit decomposition of `start` with
/// counter and flag 0, the last row encodes the value 1 with counter
/// `steps`.
pub open spec fn boundary_satisfied(t: CollatzTrace, start: int, steps: int) -> bool {
    let n = t.n_bits as int;
    let last = t.rows@.len() - 1;
    &&& forall|j: int| 0 <= j < n ==> t.row(0)[j] == bit_of(start, j as nat)
    &&& t.counter(0) == 0
    &&& t.flag(0) == 0
    &&& t.row(last)[0] == 1
    &&& forall|j: int| 1 <= j < n ==> t.row(last)[j] == 0
    &&& t.counter(last) == steps
}

/// Whether the whole constraint system accepts the trace for the public
/// inputs `start` and `steps`.
pub open spec fn constraints_satisfied(t: CollatzTrace, start: int, steps: int) -> bool {
    &&& boundary_satisfied(t, start, steps)
    &&& forall|i: int|
        0 <= i < t.rows@.len() - 1 ==> transition_zero(
            #[trigger] t.row(i),
            t.row(i + 1),
            t.n_bits as nat,
        )
}

/// Evaluates the whole constraint system on a trace, exactly as the
/// external verifier would on the canonical rows: every boundary constraint
/// against its cell, and every transition constraint between adjacent rows.
/// Returns true exactly when the system accepts the trace for the
/// instance's public inputs.
pub fn accepts_trace(air: &CollatzAir, t: &CollatzTrace) -> (r: bool)
    requires
        air.wf(),
        t.n_bits == air.n_bits,
        t.rows@.len() == air.trace_length,
        forall|i: int| 0 <= i < t.rows@.len() ==> (#[trigger] t.rows@[i]@).len() == t.n_bits + 2,
    ensures
        r == constraints_satisfied(*t, air.starting_value as int, air.steps_count as int),
{
    let n = air.n_bits;
    let len = t.rows.len();
    let last = len - 1;
    let ghost start = air.starting_value as int;
    let ghost steps = air.steps_count as int;

    // Boundary: row 0 holds the bits of the starting value.
    let start_bits = crate::bits::bit_decompose(air.starting_value as u64, n);
    let mut j: usize = 0;
    while j < n
        invariant
            j <= n,
            n == t.n_bits,
            t.rows@.len() >= 1,
            start == air.starting_value as int,
            forall|i: int| 0 <= i < t.rows@.len() ==> (#[trigger] t.rows@[i]@).len() == n + 2,
            start_bits@.len() == n,
            forall|k: int|
                0 <= k < n ==> #[trigger] start_bits@[k]@ == bit_of(start, k as nat),
            forall|k: int| 0 <= k < j ==> #[trigger] t.row(0)[k] == bit_of(start, k as nat),
        decreases n - j,
    {
        if t.rows[0][j].val() != start_bits[j].val() {
            assert(t.row(0)[j as int] != bit_of(start, j as nat));
            return false;
        }
        j = j + 1;
    }
    // Boundary: counter and flag are 0 at row 0, the last row encodes 1 and
    // carries the claimed step count.
    if t.rows[0][n].val() != 0 {
        return false;
    }
    if t.rows[0][n + 1].val() != 0 {
        return false;
    }
    if t.rows[last][0].val() != 1 {
        return false;
    }
    let mut j2: usize = 1;
    while j2 < n
        invariant
            1 <= j2 <= n || (n == 0 && j2 == 1),
            n == t.n_bits,
            t.rows@.len() >= 1,
            last == t.rows@.len() - 1,
            forall|i: int| 0 <= i < t.rows@.len() ==> (#[trigger] t.rows@[i]@).len() == n + 2,
            forall|k: int| 1 <= k < j2 ==> #[trigger] t.row(last as int)[k] == 0,
        decreases n - j2,
    {
        if t.rows[last][j2].val() != 0 {
            assert(t.row(last as int)[j2 as int] != 0);
            return false;
        }
        j2 = j2 + 1;
    }
    proof {
        lemma_small_mod(air.steps_count as nat, FIELD_PRIME as nat);
    }
    if t.rows[last][n].val() != air.steps_count as u64 {
        assert(t.counter(last as int) != steps);
        return false;
    }
    assert(boundary_satisfied(*t, start, steps));

    // Transitions: every constraint must evaluate to zero between every
    // adjacent row pair.
    let mut i: usize = 0;
    while i < len - 1
        invariant
            1 <= len,
            i <= len - 1,
            len == t.rows@.len(),
            n == t.n_bits,
            air.wf(),
            n == air.n_bits,
            boundary_satisfied(*t, start, steps),
            start == air.starting_value as int,
            steps == air.steps_count as int,
            forall|i2: int| 0 <= i2 < t.rows@.len() ==> (#[trigger] t.rows@[i2]@).len() == n + 2,
            forall|k: int|
                0 <= k < i ==> transition_zero(#[trigger] t.row(k), t.row(k + 1), n as nat),
        decreases len - i,
    {
        let constraints = air.evaluate_transition(&t.rows[i], &t.rows[i + 1]);
        let ghost c = t.row(i as int);
        let ghost x = t.row(i as int + 1);
        let mut k: usize = 0;
        while k < n + 3
            invariant
                k <= n + 3,
                n <= MAX_BITS,
                n == t.n_bits,
                constraints@.len() == n + 3,
                i < t.rows@.len() - 1,
                c == t.row(i as int),
                x == t.row(i as int + 1),
                forall|m: int|
                    0 <= m < n ==> #[trigger] constraints@[m]@ == binary_constraint(x[m]),
                constraints@[n as int]@ == binary_constraint(x[n as int + 1]),
                constraints@[n + 1]@ == main_constraint(
                    weighted_sum(c, n as nat),
                    c[0],
                    weighted_sum(x, n as nat),
                    x[n as int + 1],
                ),
                constraints@[n + 2]@ == counter_constraint(c[n as int], x[n as int], x[n as int
                    + 1]),
                forall|m: int| 0 <= m < k ==> #[trigger] constraints@[m]@ == 0,
            decreases n + 3 - k,
        {
            if constraints[k].val() != 0 {
                assert(!transition_zero(c, x, n as nat));
                return false;
            }
            k = k + 1;
        }
        proof {
            assert forall|m: int| 0 <= m < n implies binary_constraint(#[trigger] x[m]) == 0 by {
                assert(constraints@[m]@ == binary_constraint(x[m]));
                assert(constraints@[m]@ == 0);
            }
            assert(constraints@[n as int]@ == 0);
            assert(constraints@[n + 1]@ == 0);
            assert(constraints@[n + 2]@ == 0);
            assert(transition_zero(c, x, n as nat));
        }
        i = i + 1;
    }
    true
}

/// The binary-ness constraint vanishes on 0 and 1.
proof fn lemma_binary_constraint_zero(v: int)
    requires
        v == 0 || v == 1,
    ensures
        binary_constraint(v) == 0,
{
    lemma_small_mod(0nat, FIELD_PRIME as nat);
}

/// Bit 0 of a nonnegative integer is its parity.
proof fn lemma_bit0_is_parity(v: int)
    requires
        v >= 0,
    ensures
        bit_of(v, 0) == v % 2,
{
    lemma2_to64();
    lemma_div_basics(v);
}

/// Bits beyond the lowest are zero for the value 1.
proof fn lemma_bits_of_one(j: nat)
    requires
        j >= 1,
    ensures
        bit_of(1, j) == 0,
{
    lemma_pow2_pos(j);
    lemma_pow2_strictly_increases(0, j);
    lemma2_to64();
    lemma_basic_div(1, pow2(j) as int);
}

/// After one genuine Collatz step the doubled next value matches the ideal
/// of the core constraint.
proof fn lemma_step_matches_ideal(wc: int, wx: int)
    requires
        wc >= 0,
        wx == collatz_step(wc),
    ensures
        2 * wx == step_ideal(wc, wc % 2),
{
    if wc % 2 == 0 {
        lemma_fundamental_div_mod(wc, 2);
        assert(step_ideal(wc, 0) == wc) by (nonlinear_arith);
        assert(2 * wx == wc);
    } else {
        assert(wc % 2 == 1);
        assert(step_ideal(wc, 1) == 6 * wc + 2) by (nonlinear_arith);
        assert(2 * wx == 6 * wc + 2);
    }
}

/// COMPLETENESS of the constraint system: a validly generated trace
/// satisfies every boundary constraint and every transition constraint, for
/// the public inputs it was generated from.
pub proof fn lemma_valid_trace_satisfies_constraints(t: CollatzTrace, start: int)
    requires
        trace_valid(t, start),
    ensures
        constraints_satisfied(t, start, t.steps_count as int),
{
    let n = t.n_bits as nat;
    let len = t.rows@.len() as int;
    let steps = t.steps_count as int;
    lemma_small_mod(0nat, FIELD_PRIME as nat);

    // Boundary: row 0 holds the bits of `start`, the last row the bits of 1.
    assert(t.row_value(0) == start);
    lemma_bits_of_weighted_sum(t.row(0), n);
    assert(t.row_value(len - 1) == 1);
    lemma_bits_of_weighted_sum(t.row(len - 1), n);
    assert(t.row(len - 1)[0] == bit_of(1, 0));
    assert(bit_of(1, 0) == 1) by {
        lemma_bit0_is_parity(1);
    }
    assert forall|j: int| 1 <= j < n implies #[trigger] t.row(len - 1)[j] == 0 by {
        lemma_bits_of_one(j as nat);
    }

    // Transitions.
    assert forall|i: int| 0 <= i < len - 1 implies transition_zero(
        #[trigger] t.row(i),
        t.row(i + 1),
        n,
    ) by {
        let c = t.row(i);
        let x = t.row(i + 1);
        let wc = t.row_value(i);
        let wx = t.row_value(i + 1);
        let flg = t.flag(i + 1);
        let odd = c[0];
        assert forall|j: int| 0 <= j < n implies binary_constraint(#[trigger] x[j]) == 0 by {
            lemma_binary_constraint_zero(x[j]);
        }
        lemma_binary_constraint_zero(x[n as int + 1]);
        lemma_bits_of_weighted_sum(c, n);
        lemma_weighted_sum_bound(c, n);
        assert(odd == bit_of(wc, 0));
        lemma_bit0_is_parity(wc);
        if i + 1 <= steps {
            assert(flg == 1);
            assert(wx == collatz_step(wc));
            lemma_step_matches_ideal(wc, wx);
            assert(flg * (2 * wx - step_ideal(wc, odd)) + (1 - flg) * (wc - wx) == 0);
            assert(main_constraint(wc, odd, wx, flg) == 0);
            assert(t.counter(i) == i);
            assert(t.counter(i + 1) == i + 1);
            assert(flg * (t.counter(i + 1) - t.counter(i) - 1) + (1 - flg) * (t.counter(i)
                - t.counter(i + 1)) == 0);
            assert(counter_constraint(c[n as int], x[n as int], flg) == 0);
        } else {
            assert(flg == 0);
            assert(wc == 1);
            assert(wx == 1);
            assert(flg * (2 * wx - step_ideal(wc, odd)) + (1 - flg) * (wc - wx) == 0);
            assert(main_constraint(wc, odd, wx, flg) == 0);
            assert(t.counter(i) == steps);
            assert(t.counter(i + 1) == steps);
            assert(counter_constraint(c[n as int], x[n as int], flg) == 0);
        }
    }
}

/// A validly generated trace also satisfies the minimal (flagless) layout's
/// core constraint at every transition: genuine steps zero the applied
/// factor, padding rows zero the repeat factor.
pub proof fn lemma_valid_trace_satisfies_minimal_constraint(t: CollatzTrace, start: int)
    requires
        trace_valid(t, start),
    ensures
        forall|i: int|
            0 <= i < t.rows@.len() - 1 ==> #[trigger] minimal_constraint(
                weighted_sum(t.row(i), t.n_bits as nat),
                t.row(i)[0],
                weighted_sum(t.row(i + 1), t.n_bits as nat),
            ) == 0,
{
    let n = t.n_bits as nat;
    let len = t.rows@.len() as int;
    let steps = t.steps_count as int;
    lemma_small_mod(0nat, FIELD_PRIME as nat);
    assert forall|i: int| 0 <= i < len - 1 implies #[trigger] minimal_constraint(
        weighted_sum(t.row(i), n),
        t.row(i)[0],
        weighted_sum(t.row(i + 1), n),
    ) == 0 by {
        let c = t.row(i);
        let wc = t.row_value(i);
        let wx = t.row_value(i + 1);
        let odd = c[0];
        lemma_bits_of_weighted_sum(c, n);
        lemma_weighted_sum_bound(c, n);
        lemma_bit0_is_parity(wc);
        if i + 1 <= steps {
            lemma_step_matches_ideal(wc, wx);
            assert((wx - wc) * (2 * wx - step_ideal(wc, odd)) == 0) by (nonlinear_arith)
                requires
                    2 * wx == step_ideal(wc, odd),
            ;
        } else {
            assert(wc == 1 && wx == 1);
            assert((wx - wc) * (2 * wx - step_ideal(wc, odd)) == 0) by (nonlinear_arith)
                requires
                    wx == wc,
            ;
        }
    }
}

/// The padding of the minimal layout relies on the repeat branch and the
/// apply branch staying distinguishable at the terminal value: repeating 1
/// keeps the sum at 1, while the Collatz rule maps 1 to 4. In this field the
/// two branch equations never hold of the same next sum, because their
/// simultaneous solution would need the characteristic to divide 6.
pub proof fn lemma_minimal_branches_disjoint_at_terminal(next_sum: int)
    requires
        0 <= next_sum < p(),
    ensures
        !((next_sum - 1) % p() == 0 && (2 * next_sum - step_ideal(1, 1)) % p() == 0),
{
    assert(step_ideal(1, 1) == 8) by (nonlinear_arith);
    if (next_sum - 1) % p() == 0 {
        lemma_small_residue_zero(next_sum - 1);
        assert(next_sum == 1);
        lemma_small_residue_nonzero(2 * next_sum - 8);
    }
}

/// The core constraint with the flag set reduces to the applied branch.
proof fn lemma_main_constraint_flag1(cs: int, odd: int, ns: int)
    ensures
        main_constraint(cs, odd, ns, 1) == (2 * ns - step_ideal(cs, odd)) % p(),
{
    assert(1 * (2 * ns - step_ideal(cs, odd)) + (1 - 1) * (cs - ns) == 2 * ns - step_ideal(
        cs,
        odd,
    )) by (nonlinear_arith);
}

/// The core constraint with the flag clear reduces to the repeat branch.
proof fn lemma_main_constraint_flag0(cs: int, odd: int, ns: int)
    ensures
        main_constraint(cs, odd, ns, 0) == (cs - ns) % p(),
{
    assert(0 * (2 * ns - step_ideal(cs, odd)) + (1 - 0) * (cs - ns) == cs - ns) by (
    nonlinear_arith);
}

/// The counter constraint with the flag set reduces to the increment branch.
proof fn lemma_counter_constraint_flag1(cc: int, nc: int)
    ensures
        counter_constraint(cc, nc, 1) == (nc - cc - 1) % p(),
{
    assert(1 * (nc - cc - 1) + (1 - 1) * (cc - nc) == nc - cc - 1) by (nonlinear_arith);
}

/// The counter constraint with the flag clear reduces to the hold branch.
proof fn lemma_counter_constraint_flag0(cc: int, nc: int)
    ensures
        counter_constraint(cc, nc, 0) == (cc - nc) % p(),
{
    assert(0 * (nc - cc - 1) + (1 - 0) * (cc - nc) == cc - nc) by (nonlinear_arith);
}

/// SOUNDNESS of the transition constraints: between two rows whose bit
/// columns hold bits and whose flag is binary, vanishing constraints force
/// the next weighted sum to either repeat the current one (flag 0) or
/// perform one genuine Collatz step (flag 1), and force the counter to step
/// exactly with the flag — never anything else.
///
/// That the bit columns and the flag hold bits in the first place is what
/// the binary-ness constraints enforce; turning their vanishing into
/// binariness of the cells is a fact about the primality of the modulus, so
/// here it stands as a hypothesis.
pub proof fn lemma_transition_sound(c: Seq<int>, x: Seq<int>, n: nat)
    requires
        1 <= n <= MAX_BITS,
        all_bits(c, n),
        all_bits(x, n),
        x[n as int + 1] == 0 || x[n as int + 1] == 1,
        0 <= c[n as int] < p(),
        0 <= x[n as int] < p(),
        main_constraint(weighted_sum(c, n), c[0], weighted_sum(x, n), x[n as int + 1]) == 0,
        counter_constraint(c[n as int], x[n as int], x[n as int + 1]) == 0,
    ensures
        x[n as int + 1] == 1 ==> weighted_sum(x, n) == collatz_step(weighted_sum(c, n)),
        x[n as int + 1] == 0 ==> weighted_sum(x, n) == weighted_sum(c, n),
        x[n as int + 1] == 1 ==> x[n as int] == (c[n as int] + 1) % p(),
        x[n as int + 1] == 0 ==> x[n as int] == c[n as int],
{
    let wc = weighted_sum(c, n);
    let wx = weighted_sum(x, n);
    let odd = c[0];
    let flg = x[n as int + 1];
    let cc = c[n as int];
    let nc = x[n as int];
    lemma_weighted_sum_bound(c, n);
    lemma_weighted_sum_bound(x, n);
    assert(pow2(n) <= pow2(28)) by {
        if n < 28 {
            lemma_pow2_strictly_increases(n, 28);
        }
    }
    lemma2_to64();
    lemma_bits_of_weighted_sum(c, n);
    lemma_bit0_is_parity(wc);
    if flg == 1 {
        lemma_main_constraint_flag1(wc, odd, wx);
        if odd == 1 {
            assert(step_ideal(wc, 1) == 6 * wc + 2) by (nonlinear_arith);
            lemma_small_residue_zero(2 * wx - (6 * wc + 2));
            assert(wx == 3 * wc + 1);
            assert(wc % 2 == 1);
        } else {
            assert(odd == 0);
            assert(step_ideal(wc, 0) == wc) by (nonlinear_arith);
            lemma_small_residue_zero(2 * wx - wc);
            assert(wc == 2 * wx);
            assert(wc % 2 == 0);
            vstd::arithmetic::div_mod::lemma_fundamental_div_mod_converse(wc, 2, wx, 0);
            assert(wc / 2 == wx);
        }
        lemma_counter_constraint_flag1(cc, nc);
        let dc = nc - cc - 1;
        if dc == -p() {
            assert(cc == p() - 1 && nc == 0);
            vstd::arithmetic::div_mod::lemma_mod_self_0(p());
            assert((cc + 1) % p() == 0);
        } else {
            lemma_small_residue_zero(dc);
            assert(nc == cc + 1);
            lemma_small_mod(nc as nat, FIELD_PRIME as nat);
        }
    } else {
        assert(flg == 0);
        lemma_main_constraint_flag0(wc, odd, wx);
        lemma_small_residue_zero(wc - wx);
        lemma_counter_constraint_flag0(cc, nc);
        lemma_small_residue_zero(cc - nc);
    }
}

/// Flipping one bit of the next row of a genuine Collatz step makes the
/// core constraint evaluate to a nonzero field element.
proof fn lemma_flipped_step_rejected(c: Seq<int>, x: Seq<int>, x2: Seq<int>, n: nat, j: int)
    requires
        1 <= n <= MAX_BITS,
        all_bits(c, n),
        all_bits(x, n),
        0 <= j < n,
        weighted_sum(x, n) == collatz_step(weighted_sum(c, n)),
        forall|l: int| 0 <= l < n && l != j ==> x2[l] == x[l],
        x2[j] == 1 - x[j],
    ensures
        main_constraint(weighted_sum(c, n), c[0], weighted_sum(x2, n), 1) != 0,
{
    let wc = weighted_sum(c, n);
    let wx = weighted_sum(x, n);
    let wx2 = weighted_sum(x2, n);
    let odd = c[0];
    let b = x[j];
    assert(b == 0 || b == 1);
    lemma_weighted_sum_single_change(x, x2, n, j);
    let d = x2[j] - x[j];
    let shift = d * pow2(j as nat);
    assert(wx2 == wx + shift);
    lemma_weighted_sum_bound(c, n);
    lemma_bits_of_weighted_sum(c, n);
    lemma_bit0_is_parity(wc);
    lemma_step_matches_ideal(wc, wx);
    assert(2 * wx == step_ideal(wc, odd));
    lemma_pow2_pos(j as nat);
    assert(pow2(j as nat) <= pow2(27)) by {
        if j < 27 {
            lemma_pow2_strictly_increases(j as nat, 27);
        }
    }
    lemma2_to64();
    if b == 0 {
        assert(shift == pow2(j as nat)) by (nonlinear_arith)
            requires
                d == 1,
                shift == d * pow2(j as nat),
        ;
    } else {
        assert(shift == -(pow2(j as nat) as int)) by (nonlinear_arith)
            requires
                d == -1,
                shift == d * pow2(j as nat),
        ;
    }
    let delta = 2 * wx2 - step_ideal(wc, odd);
    assert(delta == 2 * shift);
    assert(delta != 0);
    assert(-p() < delta < p());
    lemma_small_residue_nonzero(delta);
    lemma_main_constraint_flag1(wc, odd, wx2);
}

/// What acceptance means: any trace of the right shape, with bits in its
/// bit and flag columns and counters below the modulus, that satisfies the
/// whole constraint system walks from the starting value to 1 — row 0
/// reconstructs to `start`, the last row to exactly 1, every adjacent row
/// pair either repeats its weighted sum or performs one genuine Collatz
/// step exactly as its flag says, the counter steps exactly with the flag,
/// and the final counter equals the claimed step count.
pub proof fn lemma_constraints_enforce_invariants(t: CollatzTrace, start: int, steps: int)
    requires
        1 <= t.n_bits <= MAX_BITS,
        t.rows@.len() >= 1,
        0 <= start < pow2(t.n_bits as nat),
        forall|i: int| 0 <= i < t.rows@.len() ==> (#[trigger] t.rows@[i]@).len() == t.n_bits + 2,
        forall|i: int| 0 <= i < t.rows@.len() ==> all_bits(#[trigger] t.row(i), t.n_bits as nat),
        forall|i: int| 0 <= i < t.rows@.len() ==> #[trigger] t.flag(i) == 0 || t.flag(i) == 1,
        forall|i: int| 0 <= i < t.rows@.len() ==> 0 <= #[trigger] t.counter(i) < p(),
        constraints_satisfied(t, start, steps),
    ensures
        t.row_value(0) == start,
        t.row_value(t.rows@.len() - 1) == 1,
        forall|i: int|
            0 <= i < t.rows@.len() - 1 ==> #[trigger] t.row_value(i + 1) == t.row_value(i)
                || t.row_value(i + 1) == collatz_step(t.row_value(i)),
        forall|i: int|
            0 <= i < t.rows@.len() - 1 && #[trigger] t.flag(i + 1) == 1 ==> t.row_value(i + 1)
                == collatz_step(t.row_value(i)),
        forall|i: int|
            0 <= i < t.rows@.len() - 1 && #[trigger] t.flag(i + 1) == 0 ==> t.row_value(i + 1)
                == t.row_value(i),
        forall|i: int|
            0 <= i < t.rows@.len() - 1 ==> #[trigger] t.counter(i + 1) == (if t.flag(i + 1) == 1 {
                (t.counter(i) + 1) % p()
            } else {
                t.counter(i)
            }),
        t.counter(t.rows@.len() - 1) == steps,
{
    let n = t.n_bits as nat;
    let len = t.rows@.len() as int;
    let last = len - 1;

    // Row 0 reconstructs to the starting value.
    let digits = Seq::new(n, |j: int| bit_of(start, j as nat));
    assert(t.row_value(0) == start) by {
        assert(forall|j: int| 0 <= j < n ==> t.row(0)[j] == #[trigger] digits[j]);
        crate::bits::lemma_weighted_sum_prefix_eq(t.row(0), digits, n);
        crate::bits::lemma_weighted_sum_of_bits(digits, start, n);
        lemma_pow2_pos(n);
        lemma_small_mod(start as nat, pow2(n));
    }

    // The last row reconstructs to exactly 1.
    let one_digits = Seq::new(n, |j: int| bit_of(1, j as nat));
    assert(t.row_value(last) == 1) by {
        assert(bit_of(1, 0) == 1) by {
            lemma_bit0_is_parity(1);
        }
        assert forall|j: int| 0 <= j < n implies t.row(last)[j] == #[trigger] one_digits[j] by {
            if j >= 1 {
                lemma_bits_of_one(j as nat);
            }
        }
        crate::bits::lemma_weighted_sum_prefix_eq(t.row(last), one_digits, n);
        crate::bits::lemma_weighted_sum_of_bits(one_digits, 1, n);
        lemma_pow2_pos(n);
        assert(pow2(n) >= 2) by {
            lemma_pow2_strictly_increases(0, n);
            lemma2_to64();
        }
        lemma_small_mod(1nat, pow2(n));
    }

    // Every transition is a repeat or a genuine step, as its flag says, and
    // the counter moves exactly with the flag.
    assert forall|i: int| 0 <= i < len - 1 implies {
        &&& (#[trigger] t.flag(i + 1) == 1 ==> t.row_value(i + 1) == collatz_step(t.row_value(i)))
        &&& (t.flag(i + 1) == 0 ==> t.row_value(i + 1) == t.row_value(i))
        &&& (t.row_value(i + 1) == t.row_value(i) || t.row_value(i + 1) == collatz_step(
            t.row_value(i),
        ))
        &&& t.counter(i + 1) == (if t.flag(i + 1) == 1 {
            (t.counter(i) + 1) % p()
        } else {
            t.counter(i)
        })
    } by {
        assert(transition_zero(t.row(i), t.row(i + 1), n));
        assert(t.flag(i + 1) == 0 || t.flag(i + 1) == 1);
        assert(t.flag(i + 1) == t.row(i + 1)[n as int + 1]);
        assert(0 <= t.counter(i) < p());
        assert(0 <= t.counter(i + 1) < p());
        lemma_transition_sound(t.row(i), t.row(i + 1), n);
    }
    assert forall|i: int|
        0 <= i < t.rows@.len() - 1 implies #[trigger] t.row_value(i + 1) == t.row_value(i)
        || t.row_value(i + 1) == collatz_step(t.row_value(i)) by {
        assert(t.flag(i + 1) == 0 || t.flag(i + 1) == 1);
    }
}

/// TAMPER DETECTION: flipping any single bit column entry of any
/// non-padding row of a validly generated trace makes the constraint system
/// reject the trace. The flipped trace `t2` agrees with `t` everywhere
/// except that bit `j` of row `i` is inverted.
#[verifier::rlimit(60)]
pub proof fn lemma_bit_flip_detected(t: CollatzTrace, t2: CollatzTrace, start: int, i: int, j: int)
    requires
        trace_valid(t, start),
        0 <= i <= t.steps_count as int,
        0 <= j < t.n_bits,
        t2.n_bits == t.n_bits,
        t2.rows@.len() == t.rows@.len(),
        forall|k: int| 0 <= k < t.rows@.len() && k != i ==> #[trigger] t2.row(k) == t.row(k),
        t2.row(i).len() == t.n_bits + 2,
        forall|l: int| 0 <= l < t.n_bits + 2 && l != j ==> #[trigger] t2.row(i)[l] == t.row(i)[l],
        t2.row(i)[j] == 1 - t.row(i)[j],
    ensures
        !constraints_satisfied(t2, start, t.steps_count as int),
{
    let n = t.n_bits as nat;
    let steps = t.steps_count as int;
    let len = t.rows@.len() as int;
    let b = t.row(i)[j];
    assert(b == 0 || b == 1);
    if i == 0 {
        lemma_bits_of_weighted_sum(t.row(0), n);
        assert(t.row(0)[j] == bit_of(start, j as nat));
        assert(t2.row(0)[j] != bit_of(start, j as nat));
        if constraints_satisfied(t2, start, steps) {
            assert(t2.row(0)[j] == bit_of(start, j as nat));
            assert(false);
        }
    } else {
        let c = t.row(i - 1);
        let x = t.row(i);
        let x2 = t2.row(i);
        assert(x2[n as int + 1] == x[n as int + 1]);
        assert(t.flag(i) == 1);
        assert(t.row_value(i) == collatz_step(t.row_value(i - 1)));
        lemma_flipped_step_rejected(c, x, x2, n, j);
        if constraints_satisfied(t2, start, steps) {
            assert(transition_zero(t2.row(i - 1), t2.row(i), n));
            assert(t2.row(i - 1) == c);
            assert(main_constraint(
                weighted_sum(c, n),
                c[0],
                weighted_sum(x2, n),
                x2[n as int + 1],
            ) == 0);
            assert(false);
        }
    }
}

} // verus!
