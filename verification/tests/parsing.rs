use apl_core::error::Error;
use apl_core::lexer::scan_tokens;
use apl_core::node::Node;
use apl_core::num::Num;
use apl_core::parser::{parse, parse_array};
use apl_core::token::Token;

fn parse_line(src: &str) -> Result<Node, Error> {
    let mut tokens = scan_tokens(&String::from(src)).expect("scan should succeed");
    tokens.reverse();
    parse(&tokens)
}

fn statement_of(src: &str) -> Node {
    match parse_line(src).expect("parse should succeed") {
        Node::Statement { mut children } => {
            assert_eq!(children.len(), 1);
            children.pop().unwrap()
        }
        other => panic!("root should be a statement list, got {:?}", other),
    }
}

fn scalar(x: i64) -> Node {
    Node::Scalar {
        token: Token::Number(Num::from_int(x)),
    }
}

#[test]
fn single_scalar_collapses() {
    assert_eq!(statement_of("3"), scalar(3));
}

#[test]
fn juxtaposed_scalars_form_array_in_source_order() {
    assert_eq!(
        statement_of("1 2 3"),
        Node::Array {
            values: vec![scalar(1), scalar(2), scalar(3)],
        }
    );
}

#[test]
fn function_without_left_operand_is_monad() {
    assert_eq!(
        statement_of("×3"),
        Node::Monad {
            operator: Box::new(Node::F {
                token: Token::Function('×'),
            }),
            right: Box::new(scalar(3)),
        }
    );
}

#[test]
fn function_with_left_operand_is_dyad() {
    assert_eq!(
        statement_of("1×3"),
        Node::Dyad {
            left: Box::new(scalar(1)),
            operator: Box::new(Node::F {
                token: Token::Function('×'),
            }),
            right: Box::new(scalar(3)),
        }
    );
}

#[test]
fn operator_decorates_function() {
    assert_eq!(
        statement_of("+/1 2"),
        Node::Monad {
            operator: Box::new(Node::MonadicOperator {
                operator: Token::MonadicOperator('/'),
                child: Box::new(Node::F {
                    token: Token::Function('+'),
                }),
            }),
            right: Box::new(Node::Array {
                values: vec![scalar(1), scalar(2)],
            }),
        }
    );
}

#[test]
fn assignment_binds_following_identifier() {
    assert_eq!(
        statement_of("a←3"),
        Node::Assignment {
            varname: Box::new(Node::Var {
                token: Token::Id(String::from("a")),
            }),
            value: Box::new(scalar(3)),
        }
    );
}

#[test]
fn statements_split_on_separator() {
    match parse_line("1 ⋄ 2").expect("parse should succeed") {
        Node::Statement { children } => {
            assert_eq!(children, vec![scalar(1), scalar(2)]);
        }
        other => panic!("root should be a statement list, got {:?}", other),
    }
}

#[test]
fn unmatched_parenthesis_is_syntax_error() {
    assert_eq!(parse_line("(1 2"), Err(Error::Syntax));
}

#[test]
fn empty_operand_is_syntax_error() {
    assert_eq!(parse_line("×"), Err(Error::Syntax));
}

#[test]
fn parenthesized_group_nests() {
    assert_eq!(
        statement_of("(1 2) 3"),
        Node::Array {
            values: vec![
                Node::Array {
                    values: vec![scalar(1), scalar(2)],
                },
                scalar(3),
            ],
        }
    );
}

#[test]
fn parse_array_reads_leading_operand() {
    let mut tokens = scan_tokens(&String::from("1 2×3")).expect("scan should succeed");
    tokens.reverse();
    // Reversed buffer: 3 × 2 1 Eof; the array at position 0 is the scalar 3.
    let (node, next) = parse_array(&tokens, 0).expect("array should parse");
    assert_eq!(node, scalar(3));
    assert_eq!(next, 1);
}
