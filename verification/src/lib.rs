//! A small interpreter for the untyped lambda calculus in the de Bruijn
//! index representation, together with a separate evaluator for a first-order
//! language of booleans and naturals.
//!
//! Terms carry no variable names that matter for evaluation: a variable is a
//! pair of a de Bruijn index and the length of the binding context it was
//! built under.  Index shifting and capture-avoiding substitution are the
//! heart of the library; a call-by-value small-step evaluator and a printer
//! that recovers display names from a context are built on top of them.

pub mod arith;
pub mod untyped;
