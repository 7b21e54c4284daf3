//! A PLONKish constraint system with a region layouter and a mock verifier.
//!
//! A circuit is declared once as a [`circuit::ConstraintSystem`]: columns,
//! selectors, gates (polynomials that must vanish on every row), lookups
//! (tuples that must appear in a table) and the columns that may take part in
//! copy constraints. A witness is laid out into an [`layout::Assignment`] region
//! by region, and [`prover::verify`] checks every declared constraint against
//! it, collecting every violation.
//!
//! Values live in the scalar field of BN256 ([`field::Fe`]). A cell that was
//! never written is unknown, and so is every expression that reads it: an
//! unknown gate value or lookup tuple is not checked, and a copy constraint
//! holds when both cells are unknown or both hold the same value.
//! [`laws`] states and proves what the verifier's report means.
//!
//! The remaining modules are example circuits built on the library: a
//! Fibonacci stepper, a counter, a multiplication chain with copy constraints,
//! a cell held equal to a constant, a PLONK gate with public inputs, a byte
//! decomposition with a range lookup and a XOR gate, and an automaton for a
//! regular expression checked by a transition lookup.
use vstd::prelude::*;

pub mod bit_operations;
pub mod circuit;
pub mod constants;
pub mod counter;
pub mod fibonacci;
pub mod field;
pub mod laws;
pub mod layout;
pub mod mul_chain;
pub mod plonk;
pub mod prover;
pub mod regex;

verus! {

} // verus!
