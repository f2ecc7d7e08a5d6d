//! The error taxonomy of the interpreter.
//!
//! Every stage surfaces a `Result` up to its caller; there is no local
//! recovery.  A fatal condition at any stage aborts evaluation of the whole
//! line.

use vstd::prelude::*;

verus! {

/// A diagnostic produced by the tokenizer, the parser or the evaluator.
#[derive(Debug, Clone, Copy, PartialEq, Eq)]
pub enum Error {
    /// An unexpected character, reported with its position in the source text.
    Lexical { index: usize, glyph: char },
    /// A number does not fit the machine representation: more than
    /// [`crate::num::MAX_SCALE`] decimal places, or a magnitude beyond what a
    /// 64-bit mantissa holds.
    Limit,
    /// A malformed token sequence: a missing operand, an unmatched
    /// parenthesis, or leftover tokens after a complete statement list.
    Syntax,
    /// A function glyph that is not recognized, or a token in function
    /// position that names no function at the requested valence.
    Resolution,
    /// A runtime value-shape mismatch: vectors of different lengths in a
    /// dyadic application, reduce or each applied to a non-vector, reduce
    /// applied to a vector of fewer than two elements, or the direction of
    /// zero.
    Domain,
    /// A syntactically valid operator glyph with no evaluation case.
    NotImplemented { glyph: char },
    /// Assignment and variable references are parsed but deliberately not
    /// evaluated: the core keeps no environment.
    Unsupported,
}

} // verus!
