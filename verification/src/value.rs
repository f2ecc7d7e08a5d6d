//! Runtime values.
//!
//! A value is a number, a flat numeric vector, a resolved function waiting
//! for its operands, or the empty result of a statement list.  Values are
//! produced only by the evaluator and never mutated.

use vstd::prelude::*;
use crate::node::{Node, NodeV};
use crate::num::Num;

verus! {

/// A primitive function applied to one operand.
#[derive(Debug, Clone, Copy, PartialEq, Eq)]
pub enum MonadicPrimitive {
    /// `+`: the conjugate, the identity on this real-only core.
    Conjugate,
    /// `×`: the direction, `x / |x|`; zero has none.
    Direction,
    /// `⌈`: the ceiling.
    Ceiling,
    /// `⌊`: the floor.
    Floor,
}

/// A primitive function applied to two operands.
#[derive(Debug, Clone, Copy, PartialEq, Eq)]
pub enum DyadicPrimitive {
    /// `+`: addition.
    Plus,
    /// `×`: multiplication.
    Times,
    /// `⌈`: the larger of the two.
    Maximum,
    /// `⌊`: the smaller of the two.
    Minimum,
}

/// A resolved monadic function, with the node it came from for diagnostics.
#[derive(Debug, PartialEq)]
pub struct MonadicFunctionHolder {
    pub function: MonadicPrimitive,
    pub node: Node,
}

/// A resolved dyadic function, with the node it came from for diagnostics.
#[derive(Debug, PartialEq)]
pub struct DyadicFunctionHolder {
    pub function: DyadicPrimitive,
    pub node: Node,
}

/// A runtime value.
#[derive(Debug, PartialEq)]
pub enum Value {
    /// A single number.
    Number(Num),
    /// A flat vector of numbers; this core nests no arrays.
    Array(Vec<Num>),
    /// A function of one operand.
    MonadicFunction(MonadicFunctionHolder),
    /// A function of two operands.
    DyadicFunction(DyadicFunctionHolder),
    /// The result of a statement list, not meant to be consumed.
    Empty,
}

/// The mathematical image of a value: numbers stand as their scaled views.
pub enum ValueV {
    Number(int),
    Array(Seq<int>),
    MonadicFunction { function: MonadicPrimitive, node: NodeV },
    DyadicFunction { function: DyadicPrimitive, node: NodeV },
    Empty,
}

/// The views of a vector of numbers.
pub open spec fn nums_view(s: Seq<Num>) -> Seq<int> {
    s.map_values(|n: Num| n@)
}

impl View for Value {
    type V = ValueV;

    open spec fn view(&self) -> ValueV {
        match self {
            Value::Number(n) => ValueV::Number(n@),
            Value::Array(v) => ValueV::Array(nums_view(v@)),
            Value::MonadicFunction(h) => ValueV::MonadicFunction {
                function: h.function,
                node: h.node@,
            },
            Value::DyadicFunction(h) => ValueV::DyadicFunction {
                function: h.function,
                node: h.node@,
            },
            Value::Empty => ValueV::Empty,
        }
    }
}

/// The views of a sequence of values.
pub open spec fn values_view(s: Seq<Value>) -> Seq<ValueV> {
    s.map_values(|v: Value| v@)
}

/// The view of an evaluation outcome.
pub open spec fn res_view(r: Result<Value, crate::error::Error>) -> Result<
    ValueV,
    crate::error::Error,
> {
    match r {
        Ok(v) => Ok(v@),
        Err(e) => Err(e),
    }
}

} // verus!
