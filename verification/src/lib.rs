//! Parses a flat sequence of arithmetic tokens — numeric literals,
//! variables, the operators for addition, multiplication, division and
//! exponentiation, and grouping markers — into a binary expression tree
//! ordered by operator precedence, then applies one pass of local algebraic
//! rewriting: constant folding, identity elimination, and the exponent and
//! coefficient laws.  Subtraction never appears: the tokenizer rewrites a
//! minus as multiplication by negative one.
//!
//! Numeric values are IEEE-754 binary32 and are carried everywhere as their
//! 32-bit encodings; see `num32`.  Constant exponents fold only when they
//! encode an integer whose magnitude fits 32 bits, and then by repeated
//! round-to-nearest multiplication rather than a correctly rounded real
//! power; any other constant exponent leaves its node unfolded.

use vstd::prelude::*;

pub mod num32;
pub mod tree;

verus! {

/// The failure conditions of parsing and simplification.
///
/// `MalformedGroups`: the token sequence holds an unbalanced set of grouping
/// markers.  `DivisionByZero`: constant folding met a division whose right
/// operand encodes zero.  `InternalInconsistency`: an internal invariant of
/// the pipeline was violated (a multi-token span without an eligible root
/// operator, or an iteration budget ran out on input no well-formed run
/// can produce).
#[derive(Debug, Clone, Copy, PartialEq, Eq, Structural)]
pub enum TreeError {
    MalformedGroups,
    DivisionByZero,
    InternalInconsistency,
}

} // verus!
