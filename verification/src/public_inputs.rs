//! The public-input adapter: packages the starting value's bit decomposition
//! and the claimed step count as field elements, in the exact shape the
//! boundary constraints expect for row 0 and the last row.

use vstd::prelude::*;

use crate::bits::bit_decompose;
use crate::bits::bit_of;
use crate::bits::lemma_bits_of_weighted_sum;
use crate::errors::CollatzError;
use crate::field::Fp;
use crate::field::FIELD_PRIME;
use crate::trace::fp_ints;
use crate::trace::trace_valid;
use crate::trace::CollatzTrace;

verus! {

use vstd::arithmetic::div_mod::lemma_small_mod;

/// The public inputs handed to the external engine: the starting value's
/// little-endian bit decomposition and the claimed step count.
pub struct PublicInputs {
    /// One field element per bit column of row 0.
    pub values: Vec<Fp>,
    /// The claimed number of genuine Collatz steps.
    pub steps_count: Fp,
}

/// Whether packed public inputs agree with a trace's boundary rows: the
/// packed bits with row 0's bit columns, and the packed step count with the
/// last row's counter.
pub open spec fn public_inputs_match(pi: PublicInputs, t: CollatzTrace) -> bool {
    &&& pi.values@.len() == t.n_bits
    &&& forall|j: int| 0 <= j < t.n_bits ==> fp_ints(pi.values@)[j] == #[trigger] t.row(0)[j]
    &&& pi.steps_count@ == t.counter(t.rows@.len() - 1)
}

impl PublicInputs {
    /// Packs the bit decomposition of `starting_value` over `n_bits` columns
    /// and the claimed `steps_count`.
    pub fn new(starting_value: u32, steps_count: u32, n_bits: usize) -> (r: PublicInputs)
        requires
            steps_count < FIELD_PRIME,
        ensures
            r.values@.len() == n_bits,
            forall|j: int|
                0 <= j < n_bits ==> #[trigger] r.values@[j]@ == bit_of(
                    starting_value as int,
                    j as nat,
                ),
            r.steps_count@ == steps_count as int,
    {
        let values = bit_decompose(starting_value as u64, n_bits);
        proof {
            lemma_small_mod(steps_count as nat, FIELD_PRIME as nat);
        }
        PublicInputs { values, steps_count: Fp::new(steps_count as u64) }
    }

    /// The packed elements in order: the bit columns, then the step count.
    pub fn to_elements(&self) -> (r: Vec<Fp>)
        ensures
            r@.len() == self.values@.len() + 1,
            forall|j: int| 0 <= j < self.values@.len() ==> #[trigger] r@[j] == self.values@[j],
            r@[r@.len() - 1] == self.steps_count,
    {
        let mut r: Vec<Fp> = Vec::new();
        let mut j: usize = 0;
        while j < self.values.len()
            invariant
                j <= self.values@.len(),
                r@.len() == j,
                forall|k: int| 0 <= k < j ==> #[trigger] r@[k] == self.values@[k],
            decreases self.values@.len() - j,
        {
            r.push(self.values[j]);
            j = j + 1;
        }
        r.push(self.steps_count);
        r
    }

    /// Checks the packed inputs against the trace's boundary rows, before
    /// anything is handed to the external engine.
    ///
    /// Returns `Ok` exactly when the packed bits equal row 0's bit columns
    /// and the packed step count equals the last row's counter; any
    /// disagreement is `PublicInputMismatch`.
    pub fn validate_against_trace(&self, t: &CollatzTrace) -> (r: Result<(), CollatzError>)
        requires
            t.rows@.len() >= 1,
            t.rows@[0]@.len() >= t.n_bits,
            t.rows@[t.rows@.len() - 1]@.len() >= t.n_bits + 1,
        ensures
            r is Ok <==> public_inputs_match(*self, *t),
            r is Err ==> r == Result::<(), CollatzError>::Err(CollatzError::PublicInputMismatch),
    {
        if self.values.len() != t.n_bits {
            return Err(CollatzError::PublicInputMismatch);
        }
        let row0 = &t.rows[0];
        let mut j: usize = 0;
        while j < t.n_bits
            invariant
                j <= t.n_bits,
                self.values@.len() == t.n_bits,
                t.rows@.len() >= 1,
                t.rows@[0]@.len() >= t.n_bits,
                row0 == t.rows@[0],
                forall|k: int| 0 <= k < j ==> fp_ints(self.values@)[k] == #[trigger] t.row(0)[k],
            decreases t.n_bits - j,
        {
            if self.values[j].val() != row0[j].val() {
                assert(fp_ints(self.values@)[j as int] != t.row(0)[j as int]);
                return Err(CollatzError::PublicInputMismatch);
            }
            j = j + 1;
        }
        let last = t.rows.len() - 1;
        let counter_cell = t.rows[last][t.n_bits];
        if self.steps_count.val() != counter_cell.val() {
            assert(self.steps_count@ != t.counter(t.rows@.len() - 1));
            return Err(CollatzError::PublicInputMismatch);
        }
        assert(self.steps_count@ == t.counter(t.rows@.len() - 1));
        Ok(())
    }
}

/// Public inputs packed from the same parameters a valid trace was generated
/// from always match that trace: what `PublicInputs::new` packs is exactly
/// what the boundary constraints expect.
pub proof fn lemma_public_inputs_consistent(pi: PublicInputs, t: CollatzTrace, start: int)
    requires
        trace_valid(t, start),
        pi.values@.len() == t.n_bits,
        forall|j: int|
            0 <= j < t.n_bits ==> #[trigger] pi.values@[j]@ == bit_of(start, j as nat),
        pi.steps_count@ == t.steps_count as int,
    ensures
        public_inputs_match(pi, t),
{
    let n = t.n_bits as nat;
    assert(t.row_value(0) == start);
    lemma_bits_of_weighted_sum(t.row(0), n);
    assert forall|j: int| 0 <= j < t.n_bits implies fp_ints(pi.values@)[j] == #[trigger] t.row(
        0,
    )[j] by {
        assert(t.row(0)[j] == bit_of(start, j as nat));
    }
    assert(t.counter(t.rows@.len() - 1) == t.steps_count as int);
}

} // verus!
