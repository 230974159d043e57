//! Basis functions and coupling-matrix structure for a crystal-surface
//! Hamiltonian in a mixed basis: a two-dimensional reciprocal-lattice
//! expansion combined with one-dimensional harmonic-oscillator orders along
//! the surface normal.
//!
//! The library proves the integer core of that computation: the Hermite
//! coefficient recurrence, factorials, the canonical enumeration of the
//! three-dimensional basis-index lattice, and the modular key structure that
//! lets the off-diagonal coupling matrix be assembled from one value per
//! distinct index-difference key. Floating-point sampling of the oscillator
//! eigenfunctions and of the potential quadrature sits outside the library
//! and feeds its results back in as plain values.

pub mod basis;
pub mod energy;
pub mod errors;
pub mod hermite;
