//! The abstract syntax tree.
//!
//! A closed set of node kinds; the evaluator dispatches on them by an
//! exhaustive match.  The parser builds every node complete: operand slots
//! are never empty.

use vstd::prelude::*;
use crate::token::{Token, TokenV};

verus! {

/// One node of the syntax tree.
#[derive(Debug, PartialEq)]
pub enum Node {
    /// A leaf numeric literal.
    Scalar { token: Token },
    /// Juxtaposed operands forming a vector; never empty, never a single
    /// element (a single element collapses to the element itself).
    Array { values: Vec<Node> },
    /// An operator applied to the function it decorates.
    MonadicOperator { operator: Token, child: Box<Node> },
    /// A function applied to two operands.
    Dyad { left: Box<Node>, operator: Box<Node>, right: Box<Node> },
    /// A bare function token, valence-agnostic until resolved.
    F { token: Token },
    /// A function applied to one operand.
    Monad { operator: Box<Node>, right: Box<Node> },
    /// A binding of a value to a name; parsed but not evaluated.
    Assignment { varname: Box<Node>, value: Box<Node> },
    /// A name reference; parsed but not evaluated.
    Var { token: Token },
    /// One or more statements, evaluated left to right.
    Statement { children: Vec<Node> },
}

/// The mathematical image of a node.
pub enum NodeV {
    Scalar { token: TokenV },
    Array { values: Seq<NodeV> },
    MonadicOperator { operator: TokenV, child: Box<NodeV> },
    Dyad { left: Box<NodeV>, operator: Box<NodeV>, right: Box<NodeV> },
    F { token: TokenV },
    Monad { operator: Box<NodeV>, right: Box<NodeV> },
    Assignment { varname: Box<NodeV>, value: Box<NodeV> },
    Var { token: TokenV },
    Statement { children: Seq<NodeV> },
}

/// The views of a sequence of nodes.
pub open spec fn nodes_view(s: Seq<Node>) -> Seq<NodeV>
    decreases s,
{
    if s.len() == 0 {
        Seq::empty()
    } else {
        nodes_view(s.drop_last()).push(s.last()@)
    }
}

impl View for Node {
    type V = NodeV;

    open spec fn view(&self) -> NodeV
        decreases self,
    {
        match self {
            Node::Scalar { token } => NodeV::Scalar { token: token@ },
            Node::Array { values } => NodeV::Array { values: nodes_view(values@) },
            Node::MonadicOperator { operator, child } => NodeV::MonadicOperator {
                operator: operator@,
                child: Box::new((**child)@),
            },
            Node::Dyad { left, operator, right } => NodeV::Dyad {
                left: Box::new((**left)@),
                operator: Box::new((**operator)@),
                right: Box::new((**right)@),
            },
            Node::F { token } => NodeV::F { token: token@ },
            Node::Monad { operator, right } => NodeV::Monad {
                operator: Box::new((**operator)@),
                right: Box::new((**right)@),
            },
            Node::Assignment { varname, value } => NodeV::Assignment {
                varname: Box::new((**varname)@),
                value: Box::new((**value)@),
            },
            Node::Var { token } => NodeV::Var { token: token@ },
            Node::Statement { children } => NodeV::Statement { children: nodes_view(children@) },
        }
    }
}

/// `nodes_view` maps the sequence pointwise.
pub proof fn lemma_nodes_view(s: Seq<Node>)
    ensures
        nodes_view(s).len() == s.len(),
        forall|i: int| 0 <= i < s.len() ==> #[trigger] nodes_view(s)[i] == s[i]@,
    decreases s.len(),
{
    if s.len() == 0 {
        assert(nodes_view(s) == Seq::<NodeV>::empty());
    } else {
        lemma_nodes_view(s.drop_last());
        assert(nodes_view(s) == nodes_view(s.drop_last()).push(s.last()@));
        assert(forall|i: int| 0 <= i < s.len() - 1 ==> #[trigger] s.drop_last()[i] == s[i]);
    }
}

} // verus!
