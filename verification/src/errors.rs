use vstd::prelude::*;

verus! {

/// The ways the arithmetization can fail. All of them are local and
/// deterministic: retrying with the same inputs cannot succeed.
#[derive(Clone, Copy, Debug, PartialEq, Eq, Structural)]
pub enum CollatzError {
    /// The starting value or the requested bit width is outside the domain.
    InvalidInput,
    /// The trajectory exceeded the safety caps without reaching 1. This is a
    /// generator-level fuse, not a refutation of the Collatz conjecture.
    Divergence,
    /// The requested bit width is too small for some trajectory value; the
    /// encoder fails fast instead of truncating bits.
    ColumnWidthOverflow,
    /// Packed public inputs disagree with the trace's boundary rows.
    PublicInputMismatch,
}

} // verus!
