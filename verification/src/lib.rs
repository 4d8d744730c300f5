//! Arithmetization of Collatz trajectories for a STARK-style proof system.
//!
//! The crate turns the Collatz trajectory of a starting value into an
//! execution trace over a prime field (a matrix whose rows hold the
//! little-endian bit decomposition of each trajectory element plus a step
//! counter and a transition flag) and defines the boundary and transition
//! constraints that an external proving engine evaluates over that trace.

pub mod air;
pub mod air_laws;
pub mod bits;
pub mod errors;
pub mod field;
pub mod public_inputs;
pub mod sequence;
pub mod trace;

pub use air::CollatzAir;
pub use errors::CollatzError;
pub use field::Fp;
pub use field::FIELD_PRIME;
pub use public_inputs::PublicInputs;
pub use sequence::compute_collatz_sequence;
pub use trace::generate_collatz_trace;
pub use trace::CollatzTrace;
