//! Structural invariants of matroids on ground sets of at most 64 elements.
//!
//! Subsets are bit patterns ([`set::BitSet`]), enumerated in ascending order
//! by [`set::SetIterator`]. A matroid is anything that supplies a ground-set
//! size, a nominal rank and a rank oracle ([`matroid::Matroid`]); every other
//! query is a generic algorithm over that oracle. The combinatorial derived
//! matroid ([`matroid::CombinatorialDerived`]) is built on the circuits of a
//! source matroid. [`matrix::DynMatrix`] holds the matrices that represent
//! matroids over a field.

pub mod bits;
pub mod matrix;
pub mod matroid;
pub mod set;
