//! The constraint system (AIR) over the trace columns.
//!
//! For a trace of width `n_bits + 2` the system consists of:
//! boundary constraints pinning row 0 to the starting value's bits (with
//! counter and flag 0) and the last row to the value 1 (with counter equal to
//! the claimed step count); and transition constraints between every adjacent
//! row pair: every next-row bit column and the next-row flag are binary, the
//! weighted sums either repeat (flag 0) or perform one Collatz step (flag 1),
//! and the counter increments exactly when the flag is set.
//!
//! All evaluators are pure functions of the row values handed in; the
//! external engine re-invokes them at arbitrary evaluation points, not just
//! on the canonical trace.

use vstd::prelude::*;

use crate::bits::bit_decompose;
use crate::bits::bit_of;
use crate::bits::weighted_sum;
use crate::field::lemma_fadd_congruent;
use crate::field::lemma_fmod_idem;
use crate::field::lemma_fmul_congruent;
use crate::field::lemma_fsub_congruent;
use crate::field::p;
use crate::field::Fp;
use crate::field::FIELD_PRIME;
use crate::trace::fp_ints;
use crate::trace::MAX_BITS;

verus! {

use vstd::arithmetic::power2::pow2;
use vstd::arithmetic::div_mod::lemma_small_mod;

/// The binary-ness constraint `v * (v - 1)`, evaluated modulo the field
/// prime: zero exactly when `v` is 0 or 1 in the field.
pub open spec fn binary_constraint(v: int) -> int {
    (v * (v - 1)) % p()
}

/// The value `2 * next` ought to take after one Collatz step from `cur`,
/// scaled by 2 to avoid field division: `2 * (3 * cur + 1)` when the current
/// row is odd, `cur` when it is even.
pub open spec fn step_ideal(cur_sum: int, is_odd: int) -> int {
    is_odd * 2 * (3 * cur_sum + 1) + (1 - is_odd) * cur_sum
}

/// The core transition constraint, evaluated modulo the field prime:
/// `flag * (2 * next_sum - ideal) + (1 - flag) * (cur_sum - next_sum)`.
/// With a binary flag it vanishes exactly when the row either repeats
/// (flag 0) or performs one Collatz step (flag 1).
pub open spec fn main_constraint(cur_sum: int, is_odd: int, next_sum: int, flag: int) -> int {
    (flag * (2 * next_sum - step_ideal(cur_sum, is_odd)) + (1 - flag) * (cur_sum - next_sum)) % p()
}

/// The core transition constraint of the minimal (flagless) layout,
/// evaluated modulo the field prime:
/// `(next_sum - cur_sum) * (2 * next_sum - ideal)`.
/// The first factor vanishes exactly on a repeated row, the second exactly
/// on a genuine Collatz step; the product permits either outcome and, with
/// a prime modulus, forbids any third.
pub open spec fn minimal_constraint(cur_sum: int, is_odd: int, next_sum: int) -> int {
    ((next_sum - cur_sum) * (2 * next_sum - step_ideal(cur_sum, is_odd))) % p()
}

/// The step-counter constraint, evaluated modulo the field prime:
/// `flag * (next_counter - cur_counter - 1) + (1 - flag) * (cur_counter - next_counter)`.
pub open spec fn counter_constraint(cur_counter: int, next_counter: int, flag: int) -> int {
    (flag * (next_counter - cur_counter - 1) + (1 - flag) * (cur_counter - next_counter)) % p()
}

/// Returns zero only when `a` is zero or one.
pub fn is_binary(a: Fp) -> (r: Fp)
    ensures
        r@ == binary_constraint(a@),
{
    let r = a.mul(a).sub(a);
    proof {
        lemma_fmod_idem(a@ * a@);
        lemma_small_mod(a@ as nat, FIELD_PRIME as nat);
        lemma_fsub_congruent((a@ * a@) % p(), a@ * a@, a@, a@);
        assert(a@ * a@ - a@ == a@ * (a@ - 1)) by (nonlinear_arith);
    }
    r
}

/// The weighted sum of the first `n` entries of a row, as a field element.
pub fn weighted_sum_fp(row: &Vec<Fp>, n: usize) -> (r: Fp)
    requires
        n <= row@.len(),
    ensures
        r@ == weighted_sum(fp_ints(row@), n as nat) % p(),
{
    let ghost ints = fp_ints(row@);
    let mut acc: Fp = Fp::zero();
    let mut pw: Fp = Fp::one();
    let mut j: usize = 0;
    proof {
        vstd::arithmetic::power2::lemma2_to64();
        lemma_small_mod(0nat, FIELD_PRIME as nat);
        lemma_small_mod(1nat, FIELD_PRIME as nat);
    }
    while j < n
        invariant
            j <= n,
            n <= row@.len(),
            ints == fp_ints(row@),
            acc@ == weighted_sum(ints, j as nat) % p(),
            pw@ == pow2(j as nat) as int % p(),
        decreases n - j,
    {
        let term = pw.mul(row[j]);
        let new_acc = acc.add(term);
        proof {
            let w = weighted_sum(ints, j as nat);
            let e = ints[j as int];
            assert(row@[j as int]@ == e);
            // term == (pow2(j) * e) % p
            lemma_fmod_idem(pow2(j as nat) as int);
            lemma_small_mod(e as nat, FIELD_PRIME as nat);
            lemma_fmul_congruent(pw@, pow2(j as nat) as int, e, e);
            // new_acc == (w + pow2(j) * e) % p == weighted_sum(ints, j + 1) % p
            lemma_fmod_idem(w);
            lemma_fmod_idem(pow2(j as nat) as int * e);
            lemma_fadd_congruent(acc@, w, term@, pow2(j as nat) as int * e);
            assert(weighted_sum(ints, (j + 1) as nat) == w + e * pow2(j as nat));
            assert(pow2(j as nat) as int * e == e * pow2(j as nat) as int) by (nonlinear_arith);
        }
        acc = new_acc;
        let new_pw = pw.add(pw);
        proof {
            lemma_fmod_idem(pow2(j as nat) as int);
            lemma_fadd_congruent(pw@, pow2(j as nat) as int, pw@, pow2(j as nat) as int);
            vstd::arithmetic::power2::lemma_pow2_unfold((j + 1) as nat);
        }
        pw = new_pw;
        j = j + 1;
    }
    acc
}

/// One boundary constraint: the trace cell at `(column, step)` must equal
/// `value`.
pub struct Assertion {
    pub column: usize,
    pub step: usize,
    pub value: Fp,
}

/// The AIR instance for one Collatz computation: `n_bits` bit columns, a
/// step counter column and a transition flag column, with the starting value
/// and the claimed step count as public parameters.
pub struct CollatzAir {
    /// Number of bit columns.
    pub n_bits: usize,
    /// The public starting value of the trajectory.
    pub starting_value: u32,
    /// The claimed number of genuine Collatz steps.
    pub steps_count: u32,
    /// Number of rows of the trace the instance is stated over.
    pub trace_length: usize,
}

impl CollatzAir {
    /// The instance parameters the constraint evaluators rely on.
    pub open spec fn wf(self) -> bool {
        &&& 1 <= self.n_bits <= MAX_BITS
        &&& self.trace_length >= 1
        &&& self.steps_count < FIELD_PRIME
    }

    /// A new AIR instance for the given parameters.
    pub fn new(n_bits: usize, starting_value: u32, steps_count: u32, trace_length: usize) -> (r:
        CollatzAir)
        requires
            1 <= n_bits <= MAX_BITS,
            trace_length >= 1,
            steps_count < FIELD_PRIME,
        ensures
            r.n_bits == n_bits,
            r.starting_value == starting_value,
            r.steps_count == steps_count,
            r.trace_length == trace_length,
            r.wf(),
    {
        CollatzAir { n_bits, starting_value, steps_count, trace_length }
    }

    /// The trace width: the bit columns plus the counter and flag columns.
    pub fn width(&self) -> (r: usize)
        requires
            self.wf(),
        ensures
            r == self.n_bits + 2,
    {
        self.n_bits + 2
    }

    /// The algebraic degree of each transition constraint, in evaluation
    /// order: degree 2 for each binary-ness constraint (bits, then flag),
    /// degree 3 for the core Collatz relation, degree 2 for step counting.
    /// The external engine sizes its constraint composition from these.
    pub fn transition_constraint_degrees(&self) -> (r: Vec<u64>)
        requires
            self.wf(),
        ensures
            r@.len() == self.n_bits + 3,
            forall|j: int| 0 <= j <= self.n_bits ==> #[trigger] r@[j] == 2,
            r@[self.n_bits + 1] == 3,
            r@[self.n_bits + 2] == 2,
    {
        let n = self.n_bits;
        let mut r: Vec<u64> = Vec::new();
        let mut j: usize = 0;
        while j < n + 1
            invariant
                j <= n + 1,
                n <= MAX_BITS,
                r@.len() == j,
                forall|k: int| 0 <= k < j ==> #[trigger] r@[k] == 2,
            decreases n + 1 - j,
        {
            r.push(2);
            j = j + 1;
        }
        r.push(3);
        r.push(2);
        r
    }

    /// Evaluates every transition constraint between one row and the next.
    ///
    /// The result has one entry per constraint: the `n_bits` binary-ness
    /// constraints of the next row's bit columns, the binary-ness constraint
    /// of the next row's flag, the core Collatz relation, and the step
    /// counter constraint. A transition is accepted by the system exactly
    /// when every entry is zero.
    pub fn evaluate_transition(&self, current: &Vec<Fp>, next: &Vec<Fp>) -> (r: Vec<Fp>)
        requires
            self.wf(),
            current@.len() == self.n_bits + 2,
            next@.len() == self.n_bits + 2,
        ensures
            r@.len() == self.n_bits + 3,
            forall|j: int|
                0 <= j < self.n_bits ==> #[trigger] r@[j]@ == binary_constraint(fp_ints(next@)[j]),
            r@[self.n_bits as int]@ == binary_constraint(fp_ints(next@)[self.n_bits + 1]),
            r@[self.n_bits + 1]@ == main_constraint(
                weighted_sum(fp_ints(current@), self.n_bits as nat),
                fp_ints(current@)[0],
                weighted_sum(fp_ints(next@), self.n_bits as nat),
                fp_ints(next@)[self.n_bits + 1],
            ),
            r@[self.n_bits + 2]@ == counter_constraint(
                fp_ints(current@)[self.n_bits as int],
                fp_ints(next@)[self.n_bits as int],
                fp_ints(next@)[self.n_bits + 1],
            ),
    {
        let n = self.n_bits;
        let ghost c = fp_ints(current@);
        let ghost x = fp_ints(next@);
        let ghost wc = weighted_sum(c, n as nat);
        let ghost wx = weighted_sum(x, n as nat);
        let mut r: Vec<Fp> = Vec::new();
        let mut j: usize = 0;
        while j < n
            invariant
                j <= n,
                n + 2 == next@.len(),
                x == fp_ints(next@),
                r@.len() == j,
                forall|k: int| 0 <= k < j ==> #[trigger] r@[k]@ == binary_constraint(x[k]),
            decreases n - j,
        {
            r.push(is_binary(next[j]));
            j = j + 1;
        }
        let flag = next[n + 1];
        r.push(is_binary(flag));

        let cur_sum = weighted_sum_fp(current, n);
        let next_sum = weighted_sum_fp(next, n);
        let is_odd = current[0];
        let one = Fp::one();
        let two = Fp::new(2);
        let three = Fp::new(3);
        proof {
            lemma_small_mod(2nat, FIELD_PRIME as nat);
            lemma_small_mod(3nat, FIELD_PRIME as nat);
            assert(one@ == 1);
            assert(two@ == 2);
            assert(three@ == 3);
        }

        let t_odd2 = is_odd.mul(two);
        let t_3c1 = cur_sum.mul(three).add(one);
        let t_apply = t_odd2.mul(t_3c1);
        let t_repeat = one.sub(is_odd).mul(cur_sum);
        let ideal = t_apply.add(t_repeat);
        let m_left = flag.mul(two.mul(next_sum).sub(ideal));
        let m_right = one.sub(flag).mul(cur_sum.sub(next_sum));
        let main_val = m_left.add(m_right);
        proof {
            let odd = c[0];
            let flg = x[n + 1];
            assert(is_odd@ == odd);
            assert(flag@ == flg);
            lemma_small_mod(odd as nat, FIELD_PRIME as nat);
            lemma_small_mod(flg as nat, FIELD_PRIME as nat);
            lemma_fmod_idem(wc);
            lemma_fmod_idem(wx);
            // t_odd2 == (odd * 2) % p
            assert(t_odd2@ == (odd * 2) % p());
            lemma_fmod_idem(odd * 2);
            // t_3c1 == (3 * wc + 1) % p
            lemma_fmul_congruent(cur_sum@, wc, 3, 3);
            lemma_fmod_idem(cur_sum@ * 3);
            lemma_fadd_congruent((cur_sum@ * 3) % p(), wc * 3, 1, 1);
            assert(t_3c1@ == (wc * 3 + 1) % p());
            lemma_fmod_idem(wc * 3 + 1);
            // t_apply == (odd * 2 * (3 * wc + 1)) % p
            lemma_fmul_congruent(t_odd2@, odd * 2, t_3c1@, wc * 3 + 1);
            assert(t_apply@ == ((odd * 2) * (3 * wc + 1)) % p());
            lemma_fmod_idem((odd * 2) * (3 * wc + 1));
            // t_repeat == ((1 - odd) * wc) % p
            lemma_fmod_idem(1 - odd);
            lemma_fmul_congruent((1 - odd) % p(), 1 - odd, cur_sum@, wc);
            assert(t_repeat@ == ((1 - odd) * wc) % p());
            lemma_fmod_idem((1 - odd) * wc);
            // ideal == step_ideal(wc, odd) % p
            lemma_fadd_congruent(
                t_apply@,
                (odd * 2) * (3 * wc + 1),
                t_repeat@,
                (1 - odd) * wc,
            );
            assert(ideal@ == step_ideal(wc, odd) % p());
            lemma_fmod_idem(step_ideal(wc, odd));
            // two.mul(next_sum) == (2 * wx) % p
            lemma_fmul_congruent(2, 2, next_sum@, wx);
            lemma_fmod_idem(2 * wx);
            // the applied branch: (2 * wx - step_ideal(wc, odd)) % p
            lemma_fsub_congruent((2 * wx) % p(), 2 * wx, ideal@, step_ideal(wc, odd));
            lemma_fmod_idem(2 * wx - step_ideal(wc, odd));
            // m_left == (flg * (2 * wx - step_ideal(wc, odd))) % p
            lemma_fmul_congruent(
                flg,
                flg,
                (2 * wx - step_ideal(wc, odd)) % p(),
                2 * wx - step_ideal(wc, odd),
            );
            assert(m_left@ == (flg * (2 * wx - step_ideal(wc, odd))) % p());
            lemma_fmod_idem(flg * (2 * wx - step_ideal(wc, odd)));
            // the repeated branch: (wc - wx) % p and (1 - flg) % p
            lemma_fsub_congruent(cur_sum@, wc, next_sum@, wx);
            lemma_fmod_idem(wc - wx);
            lemma_fmod_idem(1 - flg);
            lemma_fmul_congruent((1 - flg) % p(), 1 - flg, (wc - wx) % p(), wc - wx);
            assert(m_right@ == ((1 - flg) * (wc - wx)) % p());
            lemma_fmod_idem((1 - flg) * (wc - wx));
            // the whole core constraint
            lemma_fadd_congruent(
                m_left@,
                flg * (2 * wx - step_ideal(wc, odd)),
                m_right@,
                (1 - flg) * (wc - wx),
            );
            assert(main_val@ == main_constraint(wc, odd, wx, flg));
        }
        r.push(main_val);

        let ctr = current[n];
        let nctr = next[n];
        let c_left = flag.mul(nctr.sub(ctr).sub(one));
        let c_right = one.sub(flag).mul(ctr.sub(nctr));
        let counter_val = c_left.add(c_right);
        proof {
            let flg = x[n + 1];
            let cc = c[n as int];
            let nc = x[n as int];
            assert(ctr@ == cc);
            assert(nctr@ == nc);
            lemma_small_mod(flg as nat, FIELD_PRIME as nat);
            // nctr - ctr - 1, one reduction at a time
            lemma_fmod_idem(nc - cc);
            lemma_fsub_congruent((nc - cc) % p(), nc - cc, 1, 1);
            lemma_fmod_idem(nc - cc - 1);
            lemma_fmul_congruent(flg, flg, (nc - cc - 1) % p(), nc - cc - 1);
            assert(c_left@ == (flg * (nc - cc - 1)) % p());
            lemma_fmod_idem(flg * (nc - cc - 1));
            lemma_fmod_idem(1 - flg);
            lemma_fmod_idem(cc - nc);
            lemma_fmul_congruent((1 - flg) % p(), 1 - flg, (cc - nc) % p(), cc - nc);
            assert(c_right@ == ((1 - flg) * (cc - nc)) % p());
            lemma_fmod_idem((1 - flg) * (cc - nc));
            lemma_fadd_congruent(
                c_left@,
                flg * (nc - cc - 1),
                c_right@,
                (1 - flg) * (cc - nc),
            );
            assert(counter_val@ == counter_constraint(cc, nc, flg));
        }
        r.push(counter_val);
        r
    }

    /// The boundary constraints of the instance: row 0 must hold the bit
    /// decomposition of the starting value with counter and flag 0; the last
    /// row must encode the value 1, with its counter equal to the claimed
    /// step count.
    pub fn get_assertions(&self) -> (r: Vec<Assertion>)
        requires
            self.wf(),
        ensures
            r@.len() == 2 * self.n_bits + 3,
            forall|j: int|
                0 <= j < self.n_bits ==> (#[trigger] r@[j]).column == j && r@[j].step == 0
                    && r@[j].value@ == bit_of(self.starting_value as int, j as nat),
            r@[self.n_bits as int].column == self.n_bits && r@[self.n_bits as int].step == 0
                && r@[self.n_bits as int].value@ == 0,
            r@[self.n_bits + 1].column == self.n_bits + 1 && r@[self.n_bits + 1].step == 0
                && r@[self.n_bits + 1].value@ == 0,
            r@[self.n_bits + 2].column == 0 && r@[self.n_bits + 2].step == self.trace_length - 1
                && r@[self.n_bits + 2].value@ == 1,
            forall|j: int|
                1 <= j < self.n_bits ==> (#[trigger] r@[self.n_bits + 2 + j]).column == j
                    && r@[self.n_bits + 2 + j].step == self.trace_length - 1 && r@[self.n_bits + 2
                    + j].value@ == 0,
            r@[2 * self.n_bits + 2].column == self.n_bits && r@[2 * self.n_bits + 2].step
                == self.trace_length - 1 && r@[2 * self.n_bits + 2].value@
                == self.steps_count as int,
    {
        let n = self.n_bits;
        let last = self.trace_length - 1;
        let bits = bit_decompose(self.starting_value as u64, n);
        let mut r: Vec<Assertion> = Vec::new();
        let mut j: usize = 0;
        while j < n
            invariant
                j <= n,
                n <= MAX_BITS,
                bits@.len() == n,
                forall|k: int|
                    0 <= k < n ==> #[trigger] bits@[k]@ == bit_of(
                        self.starting_value as int,
                        k as nat,
                    ),
                r@.len() == j,
                forall|k: int|
                    0 <= k < j ==> (#[trigger] r@[k]).column == k && r@[k].step == 0
                        && r@[k].value@ == bit_of(self.starting_value as int, k as nat),
            decreases n - j,
        {
            r.push(Assertion { column: j, step: 0, value: bits[j] });
            j = j + 1;
        }
        r.push(Assertion { column: n, step: 0, value: Fp::zero() });
        r.push(Assertion { column: n + 1, step: 0, value: Fp::zero() });
        r.push(Assertion { column: 0, step: last, value: Fp::one() });
        let mut k: usize = 1;
        while k < n
            invariant
                1 <= k <= n || (n == 0 && k == 1),
                n <= MAX_BITS,
                r@.len() == n + 2 + k,
                forall|i: int|
                    0 <= i < n ==> (#[trigger] r@[i]).column == i && r@[i].step == 0
                        && r@[i].value@ == bit_of(self.starting_value as int, i as nat),
                r@[n as int].column == n && r@[n as int].step == 0 && r@[n as int].value@ == 0,
                r@[n + 1].column == n + 1 && r@[n + 1].step == 0 && r@[n + 1].value@ == 0,
                r@[n + 2].column == 0 && r@[n + 2].step == last && r@[n + 2].value@ == 1,
                forall|i: int|
                    1 <= i < k ==> (#[trigger] r@[n + 2 + i]).column == i && r@[n + 2 + i].step
                        == last && r@[n + 2 + i].value@ == 0,
            decreases n - k,
        {
            r.push(Assertion { column: k, step: last, value: Fp::zero() });
            k = k + 1;
        }
        proof {
            lemma_small_mod(self.steps_count as nat, FIELD_PRIME as nat);
        }
        r.push(Assertion { column: n, step: last, value: Fp::new(self.steps_count as u64) });
        r
    }
}

} // verus!
