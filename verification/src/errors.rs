use vstd::prelude::*;

verus! {

/// The failure conditions the library reports. Every validation happens at
/// the entry of an operation, before any expensive loop begins; no partial
/// result is ever returned alongside one of these.
#[derive(Clone, Copy, Debug, PartialEq, Eq, Structural)]
pub enum HamiltonianError {
    /// The lattice cell area is too close to zero for the reciprocal
    /// lattice vectors to exist.
    DegenerateLattice,
    /// A supplied grid extent or coefficient vector does not match the
    /// sizes that the basis resolution demands.
    DimensionMismatch,
    /// A factorial or a Hermite coefficient would leave the fixed-width
    /// integer range.
    NumericPrecisionLimit,
    /// A negative reciprocal-lattice radius or a zero count of oscillator
    /// orders.
    InvalidBasisResolution,
}

} // verus!
