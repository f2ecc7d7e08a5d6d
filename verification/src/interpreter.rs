//! The evaluator.
//!
//! [`Interpreter::interpret`] walks the syntax tree by an exhaustive match
//! over the closed node set.  A bare function token is resolved to a
//! primitive by glyph and valence; valence defaults to one when no hint is
//! given and is set to two by a dyad.  The operators commute (`⍨`), reduce
//! (`/`) and each (`¨`) transform the function they decorate.
//!
//! The whole evaluation is specified by [`spec_eval`]; the executable walk is
//! proved to return exactly its result.  Assignment and variable references
//! are parsed but deliberately not evaluated — the core keeps no environment
//! — and report [`Error::Unsupported`].

use vstd::prelude::*;
use crate::error::Error;
use crate::functions::{
    apply_dyadic, apply_monadic, fold_dyadic, map_monadic_vec, spec_apply_dyadic,
    spec_apply_monadic, spec_fold, spec_map_monadic, spec_monadic_num,
};
use crate::node::{lemma_nodes_view, nodes_view, Node, NodeV};
use crate::num::Num;
use crate::token::{clone_token, Token, TokenV};
use crate::value::{
    nums_view, res_view, DyadicFunctionHolder, DyadicPrimitive, MonadicFunctionHolder,
    MonadicPrimitive, Value, ValueV,
};

verus! {

/// A scalar node evaluates to its number; any other token in scalar position
/// is a value-shape error.
pub open spec fn spec_eval_scalar(token: TokenV) -> Result<ValueV, Error> {
    match token {
        TokenV::Number(x) => Ok(ValueV::Number(x)),
        _ => Err(Error::Domain),
    }
}

/// A bare function token resolved by glyph and valence.  An unrecognized
/// glyph, a non-function token in function position, or a valence other than
/// one or two is a resolution error.
pub open spec fn spec_resolve(token: TokenV, valence: i32) -> Result<ValueV, Error> {
    match token {
        TokenV::Function(c) => if valence == 1 {
            if c == '+' {
                Ok(
                    ValueV::MonadicFunction {
                        function: MonadicPrimitive::Conjugate,
                        node: NodeV::F { token },
                    },
                )
            } else if c == '×' {
                Ok(
                    ValueV::MonadicFunction {
                        function: MonadicPrimitive::Direction,
                        node: NodeV::F { token },
                    },
                )
            } else if c == '⌈' {
                Ok(
                    ValueV::MonadicFunction {
                        function: MonadicPrimitive::Ceiling,
                        node: NodeV::F { token },
                    },
                )
            } else if c == '⌊' {
                Ok(
                    ValueV::MonadicFunction {
                        function: MonadicPrimitive::Floor,
                        node: NodeV::F { token },
                    },
                )
            } else {
                Err(Error::Resolution)
            }
        } else if valence == 2 {
            if c == '+' {
                Ok(
                    ValueV::DyadicFunction {
                        function: DyadicPrimitive::Plus,
                        node: NodeV::F { token },
                    },
                )
            } else if c == '×' {
                Ok(
                    ValueV::DyadicFunction {
                        function: DyadicPrimitive::Times,
                        node: NodeV::F { token },
                    },
                )
            } else if c == '⌈' {
                Ok(
                    ValueV::DyadicFunction {
                        function: DyadicPrimitive::Maximum,
                        node: NodeV::F { token },
                    },
                )
            } else if c == '⌊' {
                Ok(
                    ValueV::DyadicFunction {
                        function: DyadicPrimitive::Minimum,
                        node: NodeV::F { token },
                    },
                )
            } else {
                Err(Error::Resolution)
            }
        } else {
            Err(Error::Resolution)
        },
        _ => Err(Error::Resolution),
    }
}

/// Reduce: the left fold of a dyadic function over a vector of at least two
/// elements.  A non-vector operand, or a vector of fewer than two elements,
/// is a domain error.
pub open spec fn spec_reduce(p: DyadicPrimitive, v: ValueV) -> Result<ValueV, Error> {
    match v {
        ValueV::Array(s) => if s.len() < 2 {
            Err(Error::Domain)
        } else {
            match spec_fold(p, s[0], s, 1) {
                Err(e) => Err(e),
                Ok(x) => Ok(ValueV::Number(x)),
            }
        },
        _ => Err(Error::Domain),
    }
}

/// Each: a monadic function applied independently to every element of a
/// vector, positionally.  A non-vector operand is a domain error.
pub open spec fn spec_each(p: MonadicPrimitive, v: ValueV) -> Result<ValueV, Error> {
    match v {
        ValueV::Array(s) => match spec_map_monadic(p, s, 0) {
            Err(e) => Err(e),
            Ok(t) => Ok(ValueV::Array(t)),
        },
        _ => Err(Error::Domain),
    }
}

/// The elements of an array node from position `i` on: each child must
/// evaluate to a number; the first failure aborts, and a child evaluating to
/// anything but a number is a domain error, since this core nests no arrays.
pub open spec fn spec_eval_elements(s: Seq<NodeV>, i: int) -> Result<Seq<int>, Error>
    decreases s, s.len() - i,
{
    if i < 0 || i >= s.len() {
        Ok(Seq::empty())
    } else {
        match spec_eval(s[i], None) {
            Err(e) => Err(e),
            Ok(v) => match v {
                ValueV::Number(x) => match spec_eval_elements(s, i + 1) {
                    Err(e) => Err(e),
                    Ok(rest) => Ok(seq![x] + rest),
                },
                _ => Err(Error::Domain),
            },
        }
    }
}

/// The statements of a list from position `i` on, each evaluated for its
/// effect and discarded; the first failure aborts the whole list, whose own
/// result is `Empty`.
pub open spec fn spec_eval_statements(s: Seq<NodeV>, i: int) -> Result<ValueV, Error>
    decreases s, s.len() - i,
{
    if i < 0 || i >= s.len() {
        Ok(ValueV::Empty)
    } else {
        match spec_eval(s[i], None) {
            Err(e) => Err(e),
            Ok(_) => spec_eval_statements(s, i + 1),
        }
    }
}

/// The values of the statements of a list from position `i` on, in order;
/// the first failure aborts the whole list.
pub open spec fn spec_statement_values(s: Seq<NodeV>, i: int) -> Result<Seq<ValueV>, Error>
    decreases s, s.len() - i,
{
    if i < 0 || i >= s.len() {
        Ok(Seq::empty())
    } else {
        match spec_eval(s[i], None) {
            Err(e) => Err(e),
            Ok(v) => match spec_statement_values(s, i + 1) {
                Err(e) => Err(e),
                Ok(rest) => Ok(seq![v] + rest),
            },
        }
    }
}

/// The value of a node, under an optional valence hint for bare function
/// tokens.  This is the semantics of the notation; the executable evaluator
/// returns exactly this.
pub open spec fn spec_eval(n: NodeV, valence: Option<i32>) -> Result<ValueV, Error>
    decreases n, 0int,
{
    match n {
        NodeV::Scalar { token } => spec_eval_scalar(token),
        NodeV::Array { values } => match spec_eval_elements(values, 0) {
            Err(e) => Err(e),
            Ok(xs) => Ok(ValueV::Array(xs)),
        },
        NodeV::MonadicOperator { .. } => Err(Error::Resolution),
        NodeV::Dyad { left, operator, right } => match spec_eval(*operator, Some(2)) {
            Err(e) => Err(e),
            Ok(f) => match f {
                ValueV::DyadicFunction { function, .. } => match spec_eval(*left, None) {
                    Err(e) => Err(e),
                    Ok(a) => match spec_eval(*right, None) {
                        Err(e) => Err(e),
                        Ok(b) => spec_apply_dyadic(function, a, b),
                    },
                },
                _ => Err(Error::Domain),
            },
        },
        NodeV::F { token } => spec_resolve(
            token,
            match valence {
                Some(v) => v,
                None => 1,
            },
        ),
        NodeV::Monad { operator, right } => match *operator {
            NodeV::MonadicOperator { operator: op_token, child } => match op_token {
                TokenV::MonadicOperator(c) => if c == '⍨' {
                    // Commute: x f x.
                    match spec_eval(*child, Some(2)) {
                        Err(e) => Err(e),
                        Ok(f) => match f {
                            ValueV::DyadicFunction { function, .. } => match spec_eval(
                                *right,
                                None,
                            ) {
                                Err(e) => Err(e),
                                Ok(v) => spec_apply_dyadic(function, v, v),
                            },
                            _ => Err(Error::Domain),
                        },
                    }
                } else if c == '/' {
                    match spec_eval(*child, Some(2)) {
                        Err(e) => Err(e),
                        Ok(f) => match f {
                            ValueV::DyadicFunction { function, .. } => match spec_eval(
                                *right,
                                None,
                            ) {
                                Err(e) => Err(e),
                                Ok(v) => spec_reduce(function, v),
                            },
                            _ => Err(Error::Domain),
                        },
                    }
                } else if c == '¨' {
                    match spec_eval(*child, Some(1)) {
                        Err(e) => Err(e),
                        Ok(f) => match f {
                            ValueV::MonadicFunction { function, .. } => match spec_eval(
                                *right,
                                None,
                            ) {
                                Err(e) => Err(e),
                                Ok(v) => spec_each(function, v),
                            },
                            _ => Err(Error::Domain),
                        },
                    }
                } else {
                    Err(Error::NotImplemented { glyph: c })
                },
                _ => Err(Error::Resolution),
            },
            _ => match spec_eval(*operator, Some(1)) {
                Err(e) => Err(e),
                Ok(f) => match f {
                    ValueV::MonadicFunction { function, .. } => match spec_eval(*right, None) {
                        Err(e) => Err(e),
                        Ok(v) => spec_apply_monadic(function, v),
                    },
                    _ => Err(Error::Domain),
                },
            },
        },
        NodeV::Assignment { .. } => Err(Error::Unsupported),
        NodeV::Var { .. } => Err(Error::Unsupported),
        NodeV::Statement { children } => spec_eval_statements(children, 0),
    }
}

/// Each distributes: where the function succeeds on every element, the
/// result is a vector of the same length whose position `k` holds the
/// function's value on element `k` — order and length are preserved.
pub proof fn lemma_each_distributes(p: MonadicPrimitive, s: Seq<int>)
    requires
        forall|k: int| 0 <= k < s.len() ==> #[trigger] spec_monadic_num(p, s[k]) is Ok,
    ensures
        spec_each(p, ValueV::Array(s)) matches Ok(u) && u matches ValueV::Array(t) && t.len()
            == s.len() && forall|k: int| 0 <= k < s.len() ==> t[k] == spec_monadic_num(
            p,
            s[k],
        )->Ok_0,
{
    crate::functions::lemma_map_monadic_shape(p, s, 0);
}

/// Commute duplicates the operand: `f⍨` applied to `x` evaluates exactly as
/// the dyad `x f x`, for every function node `f` and operand node `x`.
pub proof fn lemma_commute(f: NodeV, x: NodeV)
    ensures
        spec_eval(
            NodeV::Monad {
                operator: Box::new(
                    NodeV::MonadicOperator {
                        operator: TokenV::MonadicOperator('⍨'),
                        child: Box::new(f),
                    },
                ),
                right: Box::new(x),
            },
            None::<i32>,
        ) == spec_eval(
            NodeV::Dyad { left: Box::new(x), operator: Box::new(f), right: Box::new(x) },
            None::<i32>,
        ),
{
    // Both sides resolve `f` at valence two and evaluate `x`; evaluation is
    // pure, so the dyad's two operand positions carry the same value.
}

fn visit_scalar(token: &Token) -> (r: Result<Value, Error>)
    ensures
        res_view(r) == spec_eval_scalar(token@),
{
    match token {
        Token::Number(x) => Ok(Value::Number(*x)),
        _ => Err(Error::Domain),
    }
}

fn visit_f(token: &Token, valence: i32) -> (r: Result<Value, Error>)
    ensures
        res_view(r) == spec_resolve(token@, valence),
{
    match token {
        Token::Function(c) => {
            if valence == 1 {
                let prim = if *c == '+' {
                    Some(MonadicPrimitive::Conjugate)
                } else if *c == '×' {
                    Some(MonadicPrimitive::Direction)
                } else if *c == '⌈' {
                    Some(MonadicPrimitive::Ceiling)
                } else if *c == '⌊' {
                    Some(MonadicPrimitive::Floor)
                } else {
                    None
                };
                match prim {
                    Some(p) => Ok(
                        Value::MonadicFunction(
                            MonadicFunctionHolder {
                                function: p,
                                node: Node::F { token: clone_token(token) },
                            },
                        ),
                    ),
                    None => Err(Error::Resolution),
                }
            } else if valence == 2 {
                let prim = if *c == '+' {
                    Some(DyadicPrimitive::Plus)
                } else if *c == '×' {
                    Some(DyadicPrimitive::Times)
                } else if *c == '⌈' {
                    Some(DyadicPrimitive::Maximum)
                } else if *c == '⌊' {
                    Some(DyadicPrimitive::Minimum)
                } else {
                    None
                };
                match prim {
                    Some(p) => Ok(
                        Value::DyadicFunction(
                            DyadicFunctionHolder {
                                function: p,
                                node: Node::F { token: clone_token(token) },
                            },
                        ),
                    ),
                    None => Err(Error::Resolution),
                }
            } else {
                Err(Error::Resolution)
            }
        },
        _ => Err(Error::Resolution),
    }
}

fn visit_array(values: &Vec<Node>) -> (r: Result<Value, Error>)
    ensures
        res_view(r) == (match spec_eval_elements(nodes_view(values@), 0) {
            Err(e) => Err::<ValueV, Error>(e),
            Ok(xs) => Ok::<ValueV, Error>(ValueV::Array(xs)),
        }),
    decreases values, 1int,
{
    let ghost sv = nodes_view(values@);
    proof {
        lemma_nodes_view(values@);
    }
    let mut out: Vec<Num> = Vec::new();
    let mut i: usize = 0;
    while i < values.len()
        invariant
            sv == nodes_view(values@),
            sv.len() == values@.len(),
            forall|k: int| 0 <= k < sv.len() ==> #[trigger] sv[k] == values@[k]@,
            i <= values@.len(),
            match spec_eval_elements(sv, i as int) {
                Ok(rest) => spec_eval_elements(sv, 0) == Ok::<Seq<int>, Error>(
                    nums_view(out@) + rest,
                ),
                Err(e) => spec_eval_elements(sv, 0) == Err::<Seq<int>, Error>(e),
            },
        decreases values@.len() - i,
    {
        match visit_node(&values[i], None) {
            Err(e) => {
                return Err(e);
            },
            Ok(v) => match v {
                Value::Number(x) => {
                    let ghost before = out@;
                    out.push(x);
                    proof {
                        assert(nums_view(out@) =~= nums_view(before).push(x@));
                        if spec_eval_elements(sv, i + 1) is Ok {
                            let rest = spec_eval_elements(sv, i + 1)->Ok_0;
                            assert(nums_view(before) + (seq![x@] + rest) =~= nums_view(out@)
                                + rest);
                        }
                    }
                },
                _ => {
                    return Err(Error::Domain);
                },
            },
        }
        i = i + 1;
    }
    proof {
        assert(nums_view(out@) + Seq::<int>::empty() =~= nums_view(out@));
    }
    Ok(Value::Array(out))
}

fn visit_stmt(children: &Vec<Node>) -> (r: Result<Value, Error>)
    ensures
        res_view(r) == spec_eval_statements(nodes_view(children@), 0),
    decreases children, 1int,
{
    let ghost sv = nodes_view(children@);
    proof {
        lemma_nodes_view(children@);
    }
    let mut i: usize = 0;
    while i < children.len()
        invariant
            sv == nodes_view(children@),
            sv.len() == children@.len(),
            forall|k: int| 0 <= k < sv.len() ==> #[trigger] sv[k] == children@[k]@,
            i <= children@.len(),
            spec_eval_statements(sv, 0) == spec_eval_statements(sv, i as int),
        decreases children@.len() - i,
    {
        match visit_node(&children[i], None) {
            Err(e) => {
                return Err(e);
            },
            Ok(_) => {},
        }
        i = i + 1;
    }
    Ok(Value::Empty)
}

/// Evaluates one node.  Structural dispatch over the closed node set.
fn visit_node(node: &Node, valence: Option<i32>) -> (r: Result<Value, Error>)
    ensures
        res_view(r) == spec_eval(node@, valence),
    decreases node, 2int,
{
    match node {
        Node::Scalar { token } => {
            proof {
                assert(spec_eval(node@, valence) == spec_eval_scalar(token@));
            }
            visit_scalar(token)
        },
        Node::Array { values } => {
            proof {
                assert(spec_eval(node@, valence) == (match spec_eval_elements(
                    nodes_view(values@),
                    0,
                ) {
                    Err(e) => Err::<ValueV, Error>(e),
                    Ok(xs) => Ok::<ValueV, Error>(ValueV::Array(xs)),
                }));
            }
            visit_array(values)
        },
        Node::MonadicOperator { .. } => Err(Error::Resolution),
        Node::Dyad { left, operator, right } => {
            proof {
                assert(node@ == NodeV::Dyad {
                    left: Box::new((**left)@),
                    operator: Box::new((**operator)@),
                    right: Box::new((**right)@),
                });
            }
            match visit_node(&**operator, Some(2)) {
                Err(e) => Err(e),
                Ok(f) => match f {
                    Value::DyadicFunction(h) => {
                        match visit_node(&**left, None) {
                            Err(e) => Err(e),
                            Ok(a) => match visit_node(&**right, None) {
                                Err(e) => Err(e),
                                Ok(b) => apply_dyadic(h.function, &a, &b),
                            },
                        }
                    },
                    _ => Err(Error::Domain),
                },
            }
        },
        Node::F { token } => visit_f(
            token,
            match valence {
                Some(v) => v,
                None => 1,
            },
        ),
        Node::Monad { operator, right } => {
            proof {
                assert(node@ == NodeV::Monad {
                    operator: Box::new((**operator)@),
                    right: Box::new((**right)@),
                });
            }
            match &**operator {
                Node::MonadicOperator { operator: op_token, child } => {
                    proof {
                        assert((**operator)@ == NodeV::MonadicOperator {
                            operator: op_token@,
                            child: Box::new((**child)@),
                        });
                    }
                    let glyph: Option<char> = match op_token {
                        Token::MonadicOperator(c) => Some(*c),
                        _ => None,
                    };
                    match glyph {
                        Some(c) => {
                            if c == '⍨' {
                                match visit_node(&**child, Some(2)) {
                                    Err(e) => Err(e),
                                    Ok(f) => match f {
                                        Value::DyadicFunction(h) => {
                                            match visit_node(&**right, None) {
                                                Err(e) => Err(e),
                                                Ok(v) => apply_dyadic(h.function, &v, &v),
                                            }
                                        },
                                        _ => Err(Error::Domain),
                                    },
                                }
                            } else if c == '/' {
                                match visit_node(&**child, Some(2)) {
                                    Err(e) => Err(e),
                                    Ok(f) => match f {
                                        Value::DyadicFunction(h) => {
                                            match visit_node(&**right, None) {
                                                Err(e) => Err(e),
                                                Ok(v) => reduce_value(h.function, &v),
                                            }
                                        },
                                        _ => Err(Error::Domain),
                                    },
                                }
                            } else if c == '¨' {
                                match visit_node(&**child, Some(1)) {
                                    Err(e) => Err(e),
                                    Ok(f) => match f {
                                        Value::MonadicFunction(h) => {
                                            match visit_node(&**right, None) {
                                                Err(e) => Err(e),
                                                Ok(v) => each_value(h.function, &v),
                                            }
                                        },
                                        _ => Err(Error::Domain),
                                    },
                                }
                            } else {
                                Err(Error::NotImplemented { glyph: c })
                            }
                        },
                        None => Err(Error::Resolution),
                    }
                },
                _ => {
                    match visit_node(&**operator, Some(1)) {
                        Err(e) => Err(e),
                        Ok(f) => match f {
                            Value::MonadicFunction(h) => {
                                match visit_node(&**right, None) {
                                    Err(e) => Err(e),
                                    Ok(v) => apply_monadic(h.function, &v),
                                }
                            },
                            _ => Err(Error::Domain),
                        },
                    }
                },
            }
        },
        Node::Assignment { .. } => Err(Error::Unsupported),
        Node::Var { .. } => Err(Error::Unsupported),
        Node::Statement { children } => visit_stmt(children),
    }
}

/// Reduce on a runtime value.
fn reduce_value(p: DyadicPrimitive, v: &Value) -> (r: Result<Value, Error>)
    ensures
        res_view(r) == spec_reduce(p, v@),
{
    match v {
        Value::Array(s) => {
            if s.len() < 2 {
                Err(Error::Domain)
            } else {
                match fold_dyadic(p, s) {
                    Err(e) => Err(e),
                    Ok(n) => Ok(Value::Number(n)),
                }
            }
        },
        _ => Err(Error::Domain),
    }
}

/// Each on a runtime value.
fn each_value(p: MonadicPrimitive, v: &Value) -> (r: Result<Value, Error>)
    ensures
        res_view(r) == spec_each(p, v@),
{
    match v {
        Value::Array(s) => match map_monadic_vec(p, s) {
            Err(e) => Err(e),
            Ok(out) => Ok(Value::Array(out)),
        },
        _ => Err(Error::Domain),
    }
}

/// The evaluator.  It keeps no state: each evaluation is independent.
pub struct Interpreter {}

impl Interpreter {
    pub fn new() -> (r: Interpreter) {
        Interpreter {}
    }

    /// Evaluates a syntax tree to a value or a diagnostic, exactly as
    /// [`spec_eval`] with no valence hint says.
    pub fn interpret(&mut self, node: &Node) -> (r: Result<Value, Error>)
        ensures
            res_view(r) == spec_eval(node@, None::<i32>),
    {
        visit_node(node, None)
    }
}

} // verus!
