//! The parser.
//!
//! Recursive descent over the reversed token buffer: the source is evaluated
//! right to left, so the caller hands the tokens reversed and ordinary
//! left-to-right descent reproduces the source's order.  The end-of-input
//! marker sits at the end of the reversed buffer and stops every loop.
//!
//! Valence is inferred structurally: after a function glyph, a closing
//! parenthesis, a number or an identifier announces a left operand, so a
//! dyad is built; anything else leaves a monad.
//!
//! Every entry point is specified by a `spec_parse_*` function over the
//! token views and proved to return exactly its result, with the index
//! strictly advancing on every successful production.

use vstd::prelude::*;
use crate::error::Error;
use crate::node::{lemma_nodes_view, nodes_view, Node, NodeV};
use crate::token::{clone_token, tokens_view, Token, TokenV};

verus! {

/// The shape the parser expects of its input: a single end-of-input marker,
/// standing last — the tokenizer puts it first, the caller's reversal moves
/// it to the end.
pub open spec fn wf_tokens(t: Seq<TokenV>) -> bool {
    &&& t.len() >= 1
    &&& t[t.len() - 1] is Eof
    &&& forall|k: int| 0 <= k < t.len() - 1 ==> !(#[trigger] t[k] is Eof)
}

/// Zero or more array items collapse: none is a syntax error, one stands for
/// itself, several form an `Array` node.  The items were collected in buffer
/// order, which is reversed source order.
pub open spec fn spec_array_finalize(acc: Seq<NodeV>, i: int) -> Result<(NodeV, int), Error> {
    if acc.len() == 0 {
        Err(Error::Syntax)
    } else if acc.len() == 1 {
        Ok((acc[0], i))
    } else {
        Ok((NodeV::Array { values: acc.reverse() }, i))
    }
}

/// A bare function token: anything but the end marker, wrapped unresolved.
pub open spec fn spec_parse_f(t: Seq<TokenV>, i: int) -> Result<(NodeV, int), Error> {
    if 0 <= i < t.len() && !(t[i] is Eof) {
        Ok((NodeV::F { token: t[i] }, i + 1))
    } else {
        Err(Error::Syntax)
    }
}

/// A function, possibly decorated by operators: each leading
/// monadic-operator glyph wraps the function parsed after it.
pub open spec fn spec_parse_function(t: Seq<TokenV>, i: int) -> Result<(NodeV, int), Error>
    decreases t.len() - i, 1int,
{
    if !(0 <= i < t.len()) {
        Err(Error::Syntax)
    } else if t[i] is MonadicOperator {
        match spec_parse_function(t, i + 1) {
            Err(e) => Err(e),
            Ok((func, j)) => Ok(
                (NodeV::MonadicOperator { operator: t[i], child: Box::new(func) }, j),
            ),
        }
    } else {
        spec_parse_f(t, i)
    }
}

/// The items of an array: number literals, and parenthesized sub-statements
/// — seen closing parenthesis first, since the buffer is reversed — each
/// terminated by its matching opening parenthesis.
pub open spec fn spec_parse_array_items(t: Seq<TokenV>, acc: Seq<NodeV>, i: int) -> Result<
    (NodeV, int),
    Error,
>
    decreases t.len() - i, 2int,
{
    if !(0 <= i < t.len()) {
        spec_array_finalize(acc, i)
    } else if t[i] matches TokenV::Paren(')') {
        match spec_parse_statement(t, i + 1) {
            Err(e) => Err(e),
            Ok((stmt, j)) => if j <= i + 1 || j >= t.len() {
                Err(Error::Syntax)
            } else if t[j] matches TokenV::Paren('(') {
                spec_parse_array_items(t, acc.push(stmt), j + 1)
            } else {
                Err(Error::Syntax)
            },
        }
    } else if t[i] is Number {
        spec_parse_array_items(t, acc.push(NodeV::Scalar { token: t[i] }), i + 1)
    } else {
        spec_array_finalize(acc, i)
    }
}

/// An array of adjacent operands, collapsed as [`spec_array_finalize`] says.
pub open spec fn spec_parse_array(t: Seq<TokenV>, i: int) -> Result<(NodeV, int), Error>
    decreases t.len() - i, 3int,
{
    spec_parse_array_items(t, Seq::empty(), i)
}

/// What follows a parsed operand: assignment glyphs bind it to the following
/// identifier; function or operator glyphs extend it into a monad or — when
/// the lookahead shows a further operand — a dyad; anything else ends the
/// statement.
pub open spec fn spec_parse_statement_rest(t: Seq<TokenV>, stmt: NodeV, i: int) -> Result<
    (NodeV, int),
    Error,
>
    decreases t.len() - i, 4int,
{
    if !(0 <= i < t.len()) {
        Err(Error::Syntax)
    } else {
        match t[i] {
            TokenV::Assign => {
                if i + 1 < t.len() && t[i + 1] is Id {
                    spec_parse_statement_rest(
                        t,
                        NodeV::Assignment {
                            varname: Box::new(NodeV::Var { token: t[i + 1] }),
                            value: Box::new(stmt),
                        },
                        i + 2,
                    )
                } else {
                    Err(Error::Syntax)
                }
            },
            TokenV::Function(_) => spec_parse_statement_glyph(t, stmt, i),
            TokenV::MonadicOperator(_) => spec_parse_statement_glyph(t, stmt, i),
            _ => Ok((stmt, i)),
        }
    }
}

/// A function or operator glyph after an operand: parse the (possibly
/// decorated) function, then decide dyadic against monadic by lookahead.
pub open spec fn spec_parse_statement_glyph(t: Seq<TokenV>, stmt: NodeV, i: int) -> Result<
    (NodeV, int),
    Error,
>
    decreases t.len() - i, 3int,
{
    match spec_parse_function(t, i) {
        Err(e) => Err(e),
        Ok((func, j)) => if j <= i || j >= t.len() {
            Err(Error::Syntax)
        } else if t[j] matches TokenV::Paren(')') || t[j] is Number || t[j] is Id {
            match spec_parse_array(t, j) {
                Err(e) => Err(e),
                Ok((arr, m)) => if m <= j || m >= t.len() {
                    Err(Error::Syntax)
                } else {
                    spec_parse_statement_rest(
                        t,
                        NodeV::Dyad {
                            left: Box::new(arr),
                            operator: Box::new(func),
                            right: Box::new(stmt),
                        },
                        m,
                    )
                },
            }
        } else {
            spec_parse_statement_rest(
                t,
                NodeV::Monad { operator: Box::new(func), right: Box::new(stmt) },
                j,
            )
        },
    }
}

/// One statement: its trailing operand first — right-to-left order — then
/// whatever extends it.
pub open spec fn spec_parse_statement(t: Seq<TokenV>, i: int) -> Result<(NodeV, int), Error>
    decreases t.len() - i, 5int,
{
    match spec_parse_array(t, i) {
        Err(e) => Err(e),
        Ok((arr, j)) => if j <= i || j >= t.len() {
            Err(Error::Syntax)
        } else {
            spec_parse_statement_rest(t, arr, j)
        },
    }
}

/// The statements already parsed, extended while a separator follows.
pub open spec fn spec_parse_list_rest(t: Seq<TokenV>, acc: Seq<NodeV>, i: int) -> Result<
    (NodeV, int),
    Error,
>
    decreases t.len() - i, 6int,
{
    if 0 <= i < t.len() && t[i] is Diamond {
        match spec_parse_statement(t, i + 1) {
            Err(e) => Err(e),
            Ok((stmt, j)) => if j <= i + 1 || j >= t.len() {
                Err(Error::Syntax)
            } else {
                spec_parse_list_rest(t, acc.push(stmt), j)
            },
        }
    } else {
        // The buffer is reversed, so statements were met in reverse source
        // order; the list evaluates left to right.
        Ok((NodeV::Statement { children: acc.reverse() }, i))
    }
}

/// One statement, then further statements while separators follow, wrapped
/// in a `Statement` node.
pub open spec fn spec_parse_statement_list(t: Seq<TokenV>, i: int) -> Result<(NodeV, int), Error>
    decreases t.len() - i, 7int,
{
    match spec_parse_statement(t, i) {
        Err(e) => Err(e),
        Ok((stmt, j)) => if j <= i || j >= t.len() {
            Err(Error::Syntax)
        } else {
            spec_parse_list_rest(t, seq![stmt], j)
        },
    }
}

/// A whole line: a statement list that must consume everything up to the
/// end-of-input marker.  Leftover tokens — an unmatched parenthesis among
/// them — are a syntax error.
pub open spec fn spec_parse(t: Seq<TokenV>) -> Result<NodeV, Error> {
    match spec_parse_statement_list(t, 0) {
        Err(e) => Err(e),
        Ok((node, j)) => if 0 <= j < t.len() && t[j] is Eof {
            Ok(node)
        } else {
            Err(Error::Syntax)
        },
    }
}

/// Whatever a statement list parses to is a `Statement` node.
pub proof fn lemma_list_rest_statement(t: Seq<TokenV>, acc: Seq<NodeV>, i: int)
    ensures
        spec_parse_list_rest(t, acc, i) matches Ok(p) ==> p.0 is Statement,
    decreases t.len() - i,
{
    if 0 <= i < t.len() && t[i] is Diamond {
        match spec_parse_statement(t, i + 1) {
            Err(_) => {},
            Ok((stmt, j)) => {
                if !(j <= i + 1 || j >= t.len()) {
                    lemma_list_rest_statement(t, acc.push(stmt), j);
                }
            },
        }
    }
}

/// A successful parse of a whole line yields a `Statement` node.
pub proof fn lemma_parse_statement_root(t: Seq<TokenV>)
    ensures
        spec_parse(t) matches Ok(n) ==> n is Statement,
{
    match spec_parse_statement(t, 0) {
        Err(_) => {},
        Ok((stmt, j)) => {
            if !(j <= 0 || j >= t.len()) {
                lemma_list_rest_statement(t, seq![stmt], j);
            }
        },
    }
}

/// In a well-formed buffer, a position holding no end marker lies strictly
/// before the last position.
proof fn lemma_not_eof_bound(t: Seq<TokenV>, i: int)
    requires
        wf_tokens(t),
        0 <= i < t.len(),
        !(t[i] is Eof),
    ensures
        i + 1 < t.len(),
{
    if i == t.len() - 1 {
        assert(t[i] is Eof);
    }
}

fn parse_f(tokens: &Vec<Token>, index: usize) -> (r: Result<(Node, usize), Error>)
    requires
        wf_tokens(tokens_view(tokens@)),
        index < tokens@.len(),
    ensures
        match r {
            Ok(p) => spec_parse_f(tokens_view(tokens@), index as int) == Ok::<
                (NodeV, int),
                Error,
            >((p.0@, p.1 as int)) && index < p.1 < tokens@.len(),
            Err(e) => spec_parse_f(tokens_view(tokens@), index as int) == Err::<
                (NodeV, int),
                Error,
            >(e),
        },
{
    let ghost t = tokens_view(tokens@);
    let _n = tokens.len();
    match &tokens[index] {
        Token::Eof => Err(Error::Syntax),
        _ => {
            proof {
                lemma_not_eof_bound(t, index as int);
                assert(index + 1 < _n);
            }
            Ok((Node::F { token: clone_token(&tokens[index]) }, index + 1))
        },
    }
}

fn parse_function(tokens: &Vec<Token>, index: usize) -> (r: Result<(Node, usize), Error>)
    requires
        wf_tokens(tokens_view(tokens@)),
        index < tokens@.len(),
    ensures
        match r {
            Ok(p) => spec_parse_function(tokens_view(tokens@), index as int) == Ok::<
                (NodeV, int),
                Error,
            >((p.0@, p.1 as int)) && index < p.1 < tokens@.len(),
            Err(e) => spec_parse_function(tokens_view(tokens@), index as int) == Err::<
                (NodeV, int),
                Error,
            >(e),
        },
    decreases tokens@.len() - index, 1int,
{
    let ghost t = tokens_view(tokens@);
    let _n = tokens.len();
    match &tokens[index] {
        Token::MonadicOperator(c) => {
            proof {
                lemma_not_eof_bound(t, index as int);
                assert(index + 1 < _n);
            }
            match parse_function(tokens, index + 1) {
                Err(e) => Err(e),
                Ok(p) => {
                    let (func, j) = p;
                    let node = Node::MonadicOperator {
                        operator: Token::MonadicOperator(*c),
                        child: Box::new(func),
                    };
                    Ok((node, j))
                },
            }
        },
        _ => parse_f(tokens, index),
    }
}

fn parse_array_items(tokens: &Vec<Token>, acc: Vec<Node>, index: usize) -> (r: Result<
    (Node, usize),
    Error,
>)
    requires
        wf_tokens(tokens_view(tokens@)),
        index < tokens@.len(),
    ensures
        match r {
            Ok(p) => spec_parse_array_items(tokens_view(tokens@), nodes_view(acc@), index as int)
                == Ok::<(NodeV, int), Error>((p.0@, p.1 as int)) && index <= p.1
                < tokens@.len() && (acc@.len() > 0 || index < p.1),
            Err(e) => spec_parse_array_items(tokens_view(tokens@), nodes_view(acc@), index as int)
                == Err::<(NodeV, int), Error>(e),
        },
    decreases tokens@.len() - index, 2int,
{
    let ghost t = tokens_view(tokens@);
    let ghost accv = nodes_view(acc@);
    let _n = tokens.len();
    proof {
        lemma_nodes_view(acc@);
    }
    let is_close = matches!(&tokens[index], Token::Paren(c) if *c == ')');
    let is_number = matches!(&tokens[index], Token::Number(_));
    if is_close {
        proof {
            lemma_not_eof_bound(t, index as int);
            assert(index + 1 < _n);
        }
        match parse_statement(tokens, index + 1) {
            Err(e) => Err(e),
            Ok(p) => {
                let (stmt, j) = p;
                let is_open = matches!(&tokens[j], Token::Paren(c) if *c == '(');
                if is_open {
                    proof {
                        lemma_not_eof_bound(t, j as int);
                        assert(j + 1 < _n);
                        lemma_nodes_view(acc@.push(stmt));
                        assert(nodes_view(acc@.push(stmt)) =~= accv.push(stmt@));
                    }
                    let mut acc2 = acc;
                    acc2.push(stmt);
                    parse_array_items(tokens, acc2, j + 1)
                } else {
                    Err(Error::Syntax)
                }
            },
        }
    } else if is_number {
        proof {
            lemma_not_eof_bound(t, index as int);
            assert(index + 1 < _n);
        }
        let item = Node::Scalar { token: clone_token(&tokens[index]) };
        proof {
            lemma_nodes_view(acc@.push(item));
            assert(nodes_view(acc@.push(item)) =~= accv.push(item@));
        }
        let mut acc2 = acc;
        acc2.push(item);
        parse_array_items(tokens, acc2, index + 1)
    } else {
        if acc.len() == 0 {
            Err(Error::Syntax)
        } else if acc.len() == 1 {
            let mut acc2 = acc;
            match acc2.pop() {
                Some(node) => Ok((node, index)),
                None => {
                    proof {
                        assert(false);
                    }
                    Err(Error::Syntax)
                },
            }
        } else {
            let node = Node::Array { values: reversed_nodes(acc) };
            proof {
                assert(node@ == NodeV::Array { values: accv.reverse() });
            }
            Ok((node, index))
        }
    }
}

/// The elements in reverse order: the parser collects array items in buffer
/// order, which is reversed source order.  Popping from the end and pushing
/// reverses without copying.
fn reversed_nodes(v: Vec<Node>) -> (r: Vec<Node>)
    ensures
        nodes_view(r@) == nodes_view(v@).reverse(),
        r@.len() == v@.len(),
{
    let ghost v0 = v@;
    let n = v.len();
    let mut src = v;
    let mut r: Vec<Node> = Vec::new();
    while src.len() > 0
        invariant
            v0.len() == n,
            src@ == v0.subrange(0, src@.len() as int),
            r@.len() + src@.len() == n,
            forall|k: int| 0 <= k < r@.len() ==> #[trigger] r@[k] == v0[n - 1 - k],
        decreases src@.len(),
    {
        let ghost before = src@;
        match src.pop() {
            Some(x) => {
                proof {
                    assert(x == before[before.len() - 1]);
                    assert(src@ =~= v0.subrange(0, src@.len() as int));
                }
                r.push(x);
            },
            None => {
                proof {
                    assert(false);
                }
            },
        }
    }
    proof {
        lemma_nodes_view(r@);
        lemma_nodes_view(v0);
        assert(nodes_view(r@) =~= nodes_view(v0).reverse());
    }
    r
}

fn parse_statement_glyph(tokens: &Vec<Token>, stmt: Node, index: usize) -> (r: Result<
    (Node, usize),
    Error,
>)
    requires
        wf_tokens(tokens_view(tokens@)),
        index < tokens@.len(),
    ensures
        match r {
            Ok(p) => spec_parse_statement_glyph(tokens_view(tokens@), stmt@, index as int) == Ok::<
                (NodeV, int),
                Error,
            >((p.0@, p.1 as int)) && index <= p.1 < tokens@.len(),
            Err(e) => spec_parse_statement_glyph(tokens_view(tokens@), stmt@, index as int)
                == Err::<(NodeV, int), Error>(e),
        },
    decreases tokens@.len() - index, 3int,
{
    let ghost t = tokens_view(tokens@);
    match parse_function(tokens, index) {
        Err(e) => Err(e),
        Ok(p) => {
            let (func, j) = p;
            let dyadic = match &tokens[j] {
                Token::Paren(c) => *c == ')',
                Token::Number(_) => true,
                Token::Id(_) => true,
                _ => false,
            };
            if dyadic {
                match parse_array(tokens, j) {
                    Err(e) => Err(e),
                    Ok(q) => {
                        let (arr, m) = q;
                        let node = Node::Dyad {
                            left: Box::new(arr),
                            operator: Box::new(func),
                            right: Box::new(stmt),
                        };
                        parse_statement_rest(tokens, node, m)
                    },
                }
            } else {
                let node = Node::Monad { operator: Box::new(func), right: Box::new(stmt) };
                parse_statement_rest(tokens, node, j)
            }
        },
    }
}

fn parse_statement_rest(tokens: &Vec<Token>, stmt: Node, index: usize) -> (r: Result<
    (Node, usize),
    Error,
>)
    requires
        wf_tokens(tokens_view(tokens@)),
        index < tokens@.len(),
    ensures
        match r {
            Ok(p) => spec_parse_statement_rest(tokens_view(tokens@), stmt@, index as int) == Ok::<
                (NodeV, int),
                Error,
            >((p.0@, p.1 as int)) && index <= p.1 < tokens@.len(),
            Err(e) => spec_parse_statement_rest(tokens_view(tokens@), stmt@, index as int) == Err::<
                (NodeV, int),
                Error,
            >(e),
        },
    decreases tokens@.len() - index, 4int,
{
    let ghost t = tokens_view(tokens@);
    let _n = tokens.len();
    let is_assign = matches!(&tokens[index], Token::Assign);
    let is_glyph = matches!(&tokens[index], Token::Function(_) | Token::MonadicOperator(_));
    if is_assign {
        proof {
            lemma_not_eof_bound(t, index as int);
            assert(index + 1 < _n);
        }
        let has_id = matches!(&tokens[index + 1], Token::Id(_));
        if has_id {
            proof {
                lemma_not_eof_bound(t, index as int + 1);
                assert(index + 2 < _n);
            }
            let var = Node::Var { token: clone_token(&tokens[index + 1]) };
            let node = Node::Assignment { varname: Box::new(var), value: Box::new(stmt) };
            proof {
                assert(t[index as int + 1] == tokens@[index as int + 1]@);
                assert(var@ == NodeV::Var { token: t[index as int + 1] });
                assert(node@ == NodeV::Assignment {
                    varname: Box::new(NodeV::Var { token: t[index as int + 1] }),
                    value: Box::new(stmt@),
                });
                assert(spec_parse_statement_rest(t, stmt@, index as int)
                    == spec_parse_statement_rest(t, node@, index as int + 2));
            }
            parse_statement_rest(tokens, node, index + 2)
        } else {
            proof {
                assert(spec_parse_statement_rest(t, stmt@, index as int) == Err::<
                    (NodeV, int),
                    Error,
                >(Error::Syntax));
            }
            Err(Error::Syntax)
        }
    } else if is_glyph {
        proof {
            assert(spec_parse_statement_rest(t, stmt@, index as int)
                == spec_parse_statement_glyph(t, stmt@, index as int));
        }
        parse_statement_glyph(tokens, stmt, index)
    } else {
        proof {
            assert(spec_parse_statement_rest(t, stmt@, index as int) == Ok::<
                (NodeV, int),
                Error,
            >((stmt@, index as int)));
        }
        Ok((stmt, index))
    }
}

fn parse_statement(tokens: &Vec<Token>, index: usize) -> (r: Result<(Node, usize), Error>)
    requires
        wf_tokens(tokens_view(tokens@)),
        index < tokens@.len(),
    ensures
        match r {
            Ok(p) => spec_parse_statement(tokens_view(tokens@), index as int) == Ok::<
                (NodeV, int),
                Error,
            >((p.0@, p.1 as int)) && index < p.1 < tokens@.len(),
            Err(e) => spec_parse_statement(tokens_view(tokens@), index as int) == Err::<
                (NodeV, int),
                Error,
            >(e),
        },
    decreases tokens@.len() - index, 5int,
{
    match parse_array(tokens, index) {
        Err(e) => Err(e),
        Ok(p) => {
            let (arr, j) = p;
            parse_statement_rest(tokens, arr, j)
        },
    }
}

/// An array of adjacent operands.  Exposed because a driver may parse a bare
/// operand; the grammar's entry point is [`parse`].
pub fn parse_array(tokens: &Vec<Token>, index: usize) -> (r: Result<(Node, usize), Error>)
    requires
        wf_tokens(tokens_view(tokens@)),
        index < tokens@.len(),
    ensures
        match r {
            Ok(p) => spec_parse_array(tokens_view(tokens@), index as int) == Ok::<
                (NodeV, int),
                Error,
            >((p.0@, p.1 as int)) && index < p.1 < tokens@.len(),
            Err(e) => spec_parse_array(tokens_view(tokens@), index as int) == Err::<
                (NodeV, int),
                Error,
            >(e),
        },
    decreases tokens@.len() - index, 3int,
{
    proof {
        assert(nodes_view(Seq::<Node>::empty()) =~= Seq::<NodeV>::empty());
    }
    parse_array_items(tokens, Vec::new(), index)
}

fn parse_list_rest(tokens: &Vec<Token>, acc: Vec<Node>, index: usize) -> (r: Result<
    (Node, usize),
    Error,
>)
    requires
        wf_tokens(tokens_view(tokens@)),
        index < tokens@.len(),
    ensures
        match r {
            Ok(p) => spec_parse_list_rest(tokens_view(tokens@), nodes_view(acc@), index as int)
                == Ok::<(NodeV, int), Error>((p.0@, p.1 as int)) && index <= p.1 < tokens@.len(),
            Err(e) => spec_parse_list_rest(tokens_view(tokens@), nodes_view(acc@), index as int)
                == Err::<(NodeV, int), Error>(e),
        },
    decreases tokens@.len() - index, 7int,
{
    let ghost t = tokens_view(tokens@);
    let ghost accv = nodes_view(acc@);
    let _n = tokens.len();
    let is_diamond = matches!(&tokens[index], Token::Diamond);
    if is_diamond {
        proof {
            lemma_not_eof_bound(t, index as int);
            assert(index + 1 < _n);
        }
        match parse_statement(tokens, index + 1) {
            Err(e) => Err(e),
            Ok(p) => {
                let (stmt, j) = p;
                proof {
                    lemma_nodes_view(acc@);
                    lemma_nodes_view(acc@.push(stmt));
                    assert(nodes_view(acc@.push(stmt)) =~= accv.push(stmt@));
                }
                let mut acc2 = acc;
                acc2.push(stmt);
                parse_list_rest(tokens, acc2, j)
            },
        }
    } else {
        let node = Node::Statement { children: reversed_nodes(acc) };
        proof {
            assert(node@ == NodeV::Statement { children: accv.reverse() });
        }
        Ok((node, index))
    }
}

fn parse_statement_list(tokens: &Vec<Token>, index: usize) -> (r: Result<(Node, usize), Error>)
    requires
        wf_tokens(tokens_view(tokens@)),
        index < tokens@.len(),
    ensures
        match r {
            Ok(p) => spec_parse_statement_list(tokens_view(tokens@), index as int) == Ok::<
                (NodeV, int),
                Error,
            >((p.0@, p.1 as int)) && index < p.1 < tokens@.len(),
            Err(e) => spec_parse_statement_list(tokens_view(tokens@), index as int) == Err::<
                (NodeV, int),
                Error,
            >(e),
        },
    decreases tokens@.len() - index, 8int,
{
    match parse_statement(tokens, index) {
        Err(e) => Err(e),
        Ok(p) => {
            let (stmt, j) = p;
            let mut acc: Vec<Node> = Vec::new();
            proof {
                lemma_nodes_view(acc@.push(stmt));
                lemma_nodes_view(acc@);
                assert(nodes_view(acc@.push(stmt)) =~= seq![stmt@]);
            }
            acc.push(stmt);
            parse_list_rest(tokens, acc, j)
        },
    }
}

/// Parses the reversed token buffer into one statement list, requiring that
/// nothing but the end-of-input marker is left over.
pub fn parse(tokens: &Vec<Token>) -> (r: Result<Node, Error>)
    requires
        wf_tokens(tokens_view(tokens@)),
    ensures
        match r {
            Ok(node) => spec_parse(tokens_view(tokens@)) == Ok::<NodeV, Error>(node@),
            Err(e) => spec_parse(tokens_view(tokens@)) == Err::<NodeV, Error>(e),
        },
{
    match parse_statement_list(tokens, 0) {
        Err(e) => Err(e),
        Ok(p) => {
            let (node, j) = p;
            let is_eof = matches!(&tokens[j], Token::Eof);
            if is_eof {
                Ok(node)
            } else {
                Err(Error::Syntax)
            }
        },
    }
}

} // verus!
