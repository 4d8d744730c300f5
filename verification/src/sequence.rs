//! The Collatz sequence generator: the raw integer trajectory from a starting
//! value down to 1, with safety fuses that keep the computation bounded.

use vstd::prelude::*;

use crate::errors::CollatzError;

verus! {

/// Hard cap on the number of Collatz steps the generator will take before it
/// gives up with `Divergence`.
pub const MAX_STEPS: u32 = 10000;

/// Largest value for which the odd step `3v + 1` still fits in a `u32`. An odd
/// trajectory value above this cap also fails with `Divergence`.
pub const VALUE_CAP: u32 = 1431655764;

/// One application of the Collatz step function.
pub open spec fn collatz_step(v: int) -> int {
    if v % 2 == 0 {
        v / 2
    } else {
        3 * v + 1
    }
}

/// A sequence of `u32` values viewed as mathematical integers.
pub open spec fn as_ints(s: Seq<u32>) -> Seq<int> {
    s.map_values(|x: u32| x as int)
}

/// The Collatz trajectory from `start` down to the first 1: consecutive
/// elements obey the step rule, no element before the last is 1, and the last
/// element is exactly 1. For a given `start` at most one sequence satisfies
/// this.
pub open spec fn is_collatz_seq(s: Seq<int>, start: int) -> bool {
    &&& s.len() >= 1
    &&& s[0] == start
    &&& s[s.len() - 1] == 1
    &&& forall|i: int|
        0 <= i < s.len() - 1 ==> #[trigger] s[i] != 1 && s[i + 1] == collatz_step(s[i])
}

/// A partial trajectory: a chain of Collatz steps from `start` none of which
/// has reached 1, with `cur` the value that follows the chain.
pub open spec fn is_partial_chain(t: Seq<int>, start: int, cur: int) -> bool {
    &&& (if t.len() == 0 {
        cur == start
    } else {
        t[0] == start && cur == collatz_step(t[t.len() - 1])
    })
    &&& forall|i: int| 0 <= i < t.len() ==> #[trigger] t[i] != 1
    &&& forall|i: int| 0 <= i < t.len() - 1 ==> #[trigger] t[i + 1] == collatz_step(t[i])
}

/// Whether every trajectory from `start` overruns the generator's fuses:
/// either it takes more than `MAX_STEPS` steps to reach 1, or it passes
/// through an odd value above `VALUE_CAP`.
pub open spec fn trajectory_exceeds_limits(start: int) -> bool {
    forall|s: Seq<int>|
        #[trigger] is_collatz_seq(s, start) ==> s.len() > MAX_STEPS + 1 || (exists|i: int|
            0 <= i < s.len() && (#[trigger] s[i]) % 2 == 1 && s[i] > VALUE_CAP)
}

/// A partial chain is a strict prefix of every full trajectory with the same
/// start, and the value after the chain appears right after the prefix.
pub proof fn lemma_chain_is_prefix(s: Seq<int>, t: Seq<int>, start: int, cur: int)
    requires
        is_collatz_seq(s, start),
        is_partial_chain(t, start, cur),
    ensures
        t.len() < s.len(),
        forall|i: int| 0 <= i < t.len() ==> #[trigger] s[i] == t[i],
        s[t.len() as int] == cur,
        cur != 1 ==> t.len() < s.len() - 1,
    decreases t.len(),
{
    if t.len() == 0 {
        if cur != 1 {
            assert(s[s.len() - 1] == 1);
            assert(s[0] != 1);
        }
    } else {
        let t2 = t.drop_last();
        let cur2: int = if t2.len() == 0 {
            start
        } else {
            collatz_step(t2[t2.len() - 1])
        };
        assert(forall|i: int| 0 <= i < t2.len() ==> #[trigger] t2[i] == t[i]);
        assert(is_partial_chain(t2, start, cur2));
        assert(cur2 == t[t.len() - 1]) by {
            if t2.len() > 0 {
                assert(t[(t.len() - 2) + 1] == collatz_step(t[t.len() - 2]));
            }
        }
        assert(cur2 != 1);
        lemma_chain_is_prefix(s, t2, start, cur2);
        assert(s[t.len() - 1] == t[t.len() - 1]);
        assert(t.len() - 1 < s.len() - 1);
        assert(s[(t.len() - 1) + 1] == collatz_step(s[t.len() - 1]));
        assert(s[t.len() as int] == cur);
        if cur != 1 {
            assert(s[s.len() - 1] == 1);
            assert(t.len() != s.len() - 1);
        }
    }
}

/// For a given starting value the Collatz trajectory is unique.
pub proof fn lemma_collatz_seq_unique(s1: Seq<int>, s2: Seq<int>, start: int)
    requires
        is_collatz_seq(s1, start),
        is_collatz_seq(s2, start),
    ensures
        s1 == s2,
{
    let t = s1.drop_last();
    assert(forall|i: int| 0 <= i < t.len() ==> #[trigger] t[i] == s1[i]);
    assert(is_partial_chain(t, start, 1)) by {
        if t.len() > 0 {
            assert(s1[(s1.len() - 2) + 1] == collatz_step(s1[s1.len() - 2]));
        }
    }
    lemma_chain_is_prefix(s2, t, start, 1);
    assert(s2[t.len() as int] == 1);
    if t.len() < s2.len() - 1 {
        assert(s2[t.len() as int] != 1);
    }
    assert(s1.len() == s2.len());
    assert(s1 =~= s2);
}

/// If the chain has already taken `MAX_STEPS` steps without reaching 1, every
/// trajectory from the same start overruns the fuses.
proof fn lemma_steps_fuse(t: Seq<int>, start: int, cur: int)
    requires
        is_partial_chain(t, start, cur),
        t.len() >= MAX_STEPS,
        cur != 1,
    ensures
        trajectory_exceeds_limits(start),
{
    assert forall|s: Seq<int>| #[trigger] is_collatz_seq(s, start) implies s.len() > MAX_STEPS + 1
        || (exists|i: int| 0 <= i < s.len() && (#[trigger] s[i]) % 2 == 1 && s[i] > VALUE_CAP) by {
        lemma_chain_is_prefix(s, t, start, cur);
    }
}

/// If the value after the chain is odd and above `VALUE_CAP`, every trajectory
/// from the same start overruns the fuses.
proof fn lemma_value_fuse(t: Seq<int>, start: int, cur: int)
    requires
        is_partial_chain(t, start, cur),
        cur % 2 == 1,
        cur > VALUE_CAP,
    ensures
        trajectory_exceeds_limits(start),
{
    assert forall|s: Seq<int>| #[trigger] is_collatz_seq(s, start) implies s.len() > MAX_STEPS + 1
        || (exists|i: int| 0 <= i < s.len() && (#[trigger] s[i]) % 2 == 1 && s[i] > VALUE_CAP) by {
        lemma_chain_is_prefix(s, t, start, cur);
        assert(0 <= t.len() < s.len() && (s[t.len() as int]) % 2 == 1 && s[t.len() as int]
            > VALUE_CAP);
    }
}

/// Computes the Collatz trajectory from `n` until it reaches 1, 1 included;
/// the step count of the trajectory is the returned length minus one.
///
/// Fails with `InvalidInput` exactly when `n` is 0, and with `Divergence`
/// exactly when the trajectory overruns the step or value fuse.
pub fn compute_collatz_sequence(n: u32) -> (result: Result<Vec<u32>, CollatzError>)
    ensures
        match result {
            Ok(s) => {
                &&& n >= 1
                &&& is_collatz_seq(as_ints(s@), n as int)
                &&& s@.len() <= MAX_STEPS + 1
                &&& forall|i: int|
                    0 <= i < s@.len() && (#[trigger] s@[i]) % 2 == 1 ==> s@[i] <= VALUE_CAP
            },
            Err(CollatzError::InvalidInput) => n == 0,
            Err(CollatzError::Divergence) => n >= 1 && trajectory_exceeds_limits(n as int),
            Err(_) => false,
        },
{
    if n == 0 {
        return Err(CollatzError::InvalidInput);
    }
    let mut values: Vec<u32> = Vec::new();
    let mut current: u32 = n;
    while current != 1
        invariant
            n >= 1,
            current >= 1,
            values@.len() <= MAX_STEPS,
            is_partial_chain(as_ints(values@), n as int, current as int),
            forall|i: int|
                0 <= i < values@.len() && (#[trigger] values@[i]) % 2 == 1 ==> values@[i]
                    <= VALUE_CAP,
        decreases MAX_STEPS - values@.len(),
    {
        if values.len() >= MAX_STEPS as usize {
            proof {
                lemma_steps_fuse(as_ints(values@), n as int, current as int);
            }
            return Err(CollatzError::Divergence);
        }
        let ghost old_chain = as_ints(values@);
        let ghost old_current = current as int;
        if current % 2 == 0 {
            values.push(current);
            current = current / 2;
        } else {
            if current > VALUE_CAP {
                proof {
                    lemma_value_fuse(as_ints(values@), n as int, current as int);
                }
                return Err(CollatzError::Divergence);
            }
            values.push(current);
            current = 3 * current + 1;
        }
        proof {
            let new_chain = as_ints(values@);
            assert(new_chain.len() == old_chain.len() + 1);
            assert(forall|i: int| 0 <= i < old_chain.len() ==> #[trigger] new_chain[i]
                == old_chain[i]);
            assert(new_chain[new_chain.len() - 1] == old_current);
            assert(current as int == collatz_step(old_current));
            assert(is_partial_chain(new_chain, n as int, current as int));
        }
    }
    let ghost chain = as_ints(values@);
    values.push(1);
    proof {
        let s = as_ints(values@);
        assert(s.len() == chain.len() + 1);
        assert(forall|i: int| 0 <= i < chain.len() ==> #[trigger] s[i] == chain[i]);
        assert(s[s.len() - 1] == 1);
        assert forall|i: int| 0 <= i < s.len() - 1 implies #[trigger] s[i] != 1 && s[i + 1]
            == collatz_step(s[i]) by {
            assert(s[i] == chain[i]);
            assert(chain[i] != 1);
            if i < chain.len() - 1 {
                assert(chain[i + 1] == collatz_step(chain[i]));
                assert(s[i + 1] == chain[i + 1]);
            } else {
                assert(s[i + 1] == 1);
                assert(1 == collatz_step(chain[chain.len() - 1]));
            }
        }
        assert(is_collatz_seq(s, n as int));
    }
    Ok(values)
}

} // verus!
