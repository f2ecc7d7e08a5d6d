//! An interpreter for a small array-oriented notation: scalars and flat
//! numeric vectors, a fixed set of primitive functions (`+ × ⌈ ⌊`, each with a
//! monadic and a dyadic meaning), and the operators commute (`⍨`), reduce
//! (`/`) and each (`¨`).
//!
//! A line of source text flows strictly forward: text is tokenized
//! ([`lexer::scan_tokens`]), the token buffer is reversed so that ordinary
//! recursive descent reproduces the notation's right-to-left evaluation order
//! ([`parser::parse`]), and the resulting tree is evaluated
//! ([`interpreter::Interpreter`]).  Every stage is specified against a
//! mathematical model and its result is pinned exactly by its contract.

use vstd::prelude::*;

pub mod error;
pub mod functions;
pub mod interpreter;
pub mod lexer;
pub mod node;
pub mod num;
pub mod parser;
pub mod token;
pub mod value;

use crate::error::Error;
use crate::interpreter::{spec_statement_values, Interpreter};
use crate::lexer::{lemma_scan_shape, scan_tokens, spec_scan};
use crate::node::{lemma_nodes_view, nodes_view, Node, NodeV};
use crate::parser::{lemma_parse_statement_root, parse, spec_parse, wf_tokens};
use crate::token::{tokens_view, Token, TokenV};
use crate::value::{values_view, Value, ValueV};

verus! {

/// The meaning of one line of source text: the values of its statements, in
/// order, or the first diagnostic on the way there.  The text is tokenized,
/// the token buffer reversed, the result parsed, and each statement of the
/// line evaluated.
pub open spec fn spec_line(s: Seq<char>) -> Result<Seq<ValueV>, Error> {
    match spec_scan(s, 0, seq![TokenV::Eof]) {
        Err(e) => Err(e),
        Ok(ts) => match spec_parse(ts.reverse()) {
            Err(e) => Err(e),
            Ok(root) => match root {
                NodeV::Statement { children } => spec_statement_values(children, 0),
                _ => Err(Error::Syntax),
            },
        },
    }
}

/// The tokens in reverse order: the boundary contract between tokenizer and
/// parser.
fn reversed_tokens(v: Vec<Token>) -> (r: Vec<Token>)
    ensures
        tokens_view(r@) == tokens_view(v@).reverse(),
        r@.len() == v@.len(),
{
    let ghost v0 = v@;
    let n = v.len();
    let mut src = v;
    let mut r: Vec<Token> = Vec::new();
    while src.len() > 0
        invariant
            v0.len() == n,
            src@ == v0.subrange(0, src@.len() as int),
            r@.len() + src@.len() == n,
            forall|k: int| 0 <= k < r@.len() ==> #[trigger] r@[k] == v0[n - 1 - k],
        decreases src@.len(),
    {
        let ghost before = src@;
        match src.pop() {
            Some(x) => {
                proof {
                    assert(x == before[before.len() - 1]);
                    assert(src@ =~= v0.subrange(0, src@.len() as int));
                }
                r.push(x);
            },
            None => {
                proof {
                    assert(false);
                }
            },
        }
    }
    proof {
        assert(tokens_view(r@) =~= tokens_view(v0).reverse());
    }
    r
}

/// Evaluates one line of source text to the values of its statements, in
/// order — exactly what [`spec_line`] says.  Tokenizing, parsing and
/// evaluation abort at the first fatal diagnostic; nothing is recovered.
pub fn evaluate_line(src: &String) -> (r: Result<Vec<Value>, Error>)
    ensures
        match r {
            Ok(vs) => spec_line(src@) == Ok::<Seq<ValueV>, Error>(values_view(vs@)),
            Err(e) => spec_line(src@) == Err::<Seq<ValueV>, Error>(e),
        },
{
    let tokens = match scan_tokens(src) {
        Ok(ts) => ts,
        Err(e) => {
            return Err(e);
        },
    };
    let ghost tv0 = tokens_view(tokens@);
    proof {
        lemma_scan_shape(src@, 0, seq![TokenV::Eof]);
        assert(spec_scan(src@, 0, seq![TokenV::Eof]) == Ok::<Seq<TokenV>, Error>(tv0));
    }
    let rev = reversed_tokens(tokens);
    proof {
        let tv = tokens_view(rev@);
        assert(tv == tv0.reverse());
        assert(tv[tv.len() - 1] is Eof);
        assert(forall|k: int| 0 <= k < tv.len() - 1 ==> !(#[trigger] tv[k] is Eof));
        assert(wf_tokens(tv));
        lemma_parse_statement_root(tv);
    }
    let ast = match parse(&rev) {
        Ok(node) => node,
        Err(e) => {
            proof {
                assert(spec_parse(tokens_view(rev@)) == Err::<NodeV, Error>(e));
                assert(spec_line(src@) == Err::<Seq<ValueV>, Error>(e));
            }
            return Err(e);
        },
    };
    match ast {
        Node::Statement { children } => {
            let ghost sv = nodes_view(children@);
            proof {
                lemma_nodes_view(children@);
                assert(spec_line(src@) == spec_statement_values(sv, 0));
            }
            let mut interp = Interpreter::new();
            let mut out: Vec<Value> = Vec::new();
            let mut i: usize = 0;
            while i < children.len()
                invariant
                    spec_line(src@) == spec_statement_values(sv, 0),
                    sv == nodes_view(children@),
                    sv.len() == children@.len(),
                    forall|k: int| 0 <= k < sv.len() ==> #[trigger] sv[k] == children@[k]@,
                    i <= children@.len(),
                    match spec_statement_values(sv, i as int) {
                        Ok(rest) => spec_statement_values(sv, 0) == Ok::<Seq<ValueV>, Error>(
                            values_view(out@) + rest,
                        ),
                        Err(e) => spec_statement_values(sv, 0) == Err::<Seq<ValueV>, Error>(e),
                    },
                decreases children@.len() - i,
            {
                match interp.interpret(&children[i]) {
                    Err(e) => {
                        return Err(e);
                    },
                    Ok(v) => {
                        let ghost before = out@;
                        out.push(v);
                        proof {
                            assert(values_view(out@) =~= values_view(before).push(out@[
                            out@.len() - 1]@));
                            if spec_statement_values(sv, i + 1) is Ok {
                                let rest = spec_statement_values(sv, i + 1)->Ok_0;
                                assert(values_view(before) + (seq![out@[out@.len() - 1]@] + rest)
                                    =~= values_view(out@) + rest);
                            }
                        }
                    },
                }
                i = i + 1;
            }
            proof {
                assert(values_view(out@) + Seq::<ValueV>::empty() =~= values_view(out@));
            }
            Ok(out)
        },
        _ => {
            proof {
                assert(false);
            }
            Err(Error::Syntax)
        },
    }
}

} // verus!
