use apl_core::error::Error;
use apl_core::evaluate_line;
use apl_core::functions::{maximum, minimum, plus, times};
use apl_core::interpreter::Interpreter;
use apl_core::node::Node;
use apl_core::num::Num;
use apl_core::token::Token;
use apl_core::value::Value;

fn eval(src: &str) -> Result<Vec<Value>, Error> {
    evaluate_line(&String::from(src))
}

fn one(src: &str) -> Value {
    let mut values = eval(src).expect("evaluation should succeed");
    assert_eq!(values.len(), 1);
    values.pop().unwrap()
}

fn number(x: i64) -> Value {
    Value::Number(Num::from_int(x))
}

fn array(xs: &[i64]) -> Value {
    Value::Array(xs.iter().map(|x| Num::from_int(*x)).collect())
}

#[test]
fn addition_of_numbers() {
    assert_eq!(one("1+2"), number(3));
}

#[test]
fn addition_broadcasts_scalar_over_vector() {
    assert_eq!(one("1 2 3+10"), array(&[11, 12, 13]));
    assert_eq!(one("10+1 2 3"), array(&[11, 12, 13]));
}

#[test]
fn addition_of_unequal_vectors_is_domain_error() {
    assert_eq!(eval("1 2+1 2 3"), Err(Error::Domain));
}

#[test]
fn elementwise_addition() {
    assert_eq!(one("1 2+10 20"), array(&[11, 22]));
}

#[test]
fn direction_of_numbers() {
    assert_eq!(one("×3"), number(1));
    assert_eq!(one("\u{d7}\u{af}3"), number(-1));
    assert_eq!(one("× 4 ¯5 6"), array(&[1, -1, 1]));
}

#[test]
fn direction_of_zero_is_domain_error() {
    assert_eq!(eval("×0"), Err(Error::Domain));
}

#[test]
fn conjugate_is_identity() {
    assert_eq!(one("+3"), number(3));
    assert_eq!(one("+1.5"), Value::Number(Num::new(15, 1)));
}

#[test]
fn floor_and_ceiling_round() {
    assert_eq!(one("⌊1.2"), number(1));
    assert_eq!(one("⌈1.2"), number(2));
    assert_eq!(one("⌊¯1.5"), number(-2));
    assert_eq!(one("⌈¯1.5"), number(-1));
    assert_eq!(one("⌊3"), number(3));
}

#[test]
fn multiplication_is_exact_on_decimals() {
    assert_eq!(one("1.5×1.5"), Value::Number(Num::new(225, 2)));
}

#[test]
fn reduce_folds_left_to_right() {
    assert_eq!(one("+/1 2 3 10"), number(16));
}

#[test]
fn reduce_of_single_element_vector_is_domain_error() {
    // The grammar collapses a one-element array, so the tree is built by
    // hand: reduce demands at least two elements.
    let node = Node::Statement {
        children: vec![Node::Monad {
            operator: Box::new(Node::MonadicOperator {
                operator: Token::MonadicOperator('/'),
                child: Box::new(Node::F {
                    token: Token::Function('+'),
                }),
            }),
            right: Box::new(Node::Array {
                values: vec![Node::Scalar {
                    token: Token::Number(Num::from_int(5)),
                }],
            }),
        }],
    };
    let mut interp = Interpreter::new();
    assert_eq!(interp.interpret(&node), Err(Error::Domain));
}

#[test]
fn reduce_of_scalar_is_domain_error() {
    assert_eq!(eval("+/5"), Err(Error::Domain));
}

#[test]
fn each_distributes_floor_over_vector() {
    assert_eq!(one("⌊¨ 1.2 2.7 3.0"), array(&[1, 2, 3]));
}

#[test]
fn each_over_scalar_is_domain_error() {
    assert_eq!(eval("⌊¨ 1.2"), Err(Error::Domain));
}

#[test]
fn commute_duplicates_scalar_operand() {
    assert_eq!(one("×⍨ 4"), number(16));
}

#[test]
fn commute_duplicates_vector_operand() {
    assert_eq!(one("+⍨ 1 2"), array(&[2, 4]));
}

#[test]
fn commute_applied_to_vector_squares_elementwise() {
    assert_eq!(one("×⍨ 4 3 56"), array(&[16, 9, 3136]));
}

#[test]
fn elementwise_maximum_scenario() {
    // 1 3 4 0 9 ⌈ 1.2 2 3 4 5, element-wise maximum.
    let expected = Value::Array(vec![
        Num::new(12, 1),
        Num::from_int(3),
        Num::from_int(4),
        Num::from_int(4),
        Num::from_int(9),
    ]);
    assert_eq!(one("1 3 4 0 9 ⌈ 1.2 2 3 4 5"), expected);
}

#[test]
fn elementwise_minimum() {
    assert_eq!(one("1 5 ⌊ 3 2"), array(&[1, 2]));
}

#[test]
fn parenthesized_group_evaluates_first() {
    assert_eq!(one("2×(1+2)"), number(6));
}

#[test]
fn statements_evaluate_in_order() {
    assert_eq!(eval("1+1 ⋄ 2+2"), Ok(vec![number(2), number(4)]));
}

#[test]
fn statement_list_aborts_at_first_failure() {
    assert_eq!(eval("×0 ⋄ 1+1"), Err(Error::Domain));
}

#[test]
fn unmatched_parenthesis_fails_with_syntax_error() {
    assert_eq!(eval("(1 2"), Err(Error::Syntax));
}

#[test]
fn empty_line_is_syntax_error() {
    assert_eq!(eval(""), Err(Error::Syntax));
    assert_eq!(eval("   "), Err(Error::Syntax));
}

#[test]
fn unknown_function_glyph_is_resolution_error() {
    assert_eq!(eval("-3"), Err(Error::Resolution));
    assert_eq!(eval("÷3"), Err(Error::Resolution));
}

#[test]
fn assignment_is_not_supported() {
    assert_eq!(eval("a←3"), Err(Error::Unsupported));
}

#[test]
fn nested_array_is_domain_error() {
    assert_eq!(eval("(1 2) 3"), Err(Error::Domain));
}

#[test]
fn addition_overflow_is_limit_error() {
    assert_eq!(eval("9223372036854775807+1"), Err(Error::Limit));
}

#[test]
fn unimplemented_operator_glyph_reports_it() {
    let node = Node::Monad {
        operator: Box::new(Node::MonadicOperator {
            operator: Token::MonadicOperator('?'),
            child: Box::new(Node::F {
                token: Token::Function('+'),
            }),
        }),
        right: Box::new(Node::Scalar {
            token: Token::Number(Num::from_int(1)),
        }),
    };
    let mut interp = Interpreter::new();
    assert_eq!(
        interp.interpret(&node),
        Err(Error::NotImplemented { glyph: '?' })
    );
}

#[test]
fn primitive_functions_broadcast_directly() {
    let two = Value::Number(Num::from_int(2));
    let vec34 = Value::Array(vec![Num::from_int(3), Num::from_int(4)]);
    assert_eq!(
        plus(&two, &vec34),
        Ok(Value::Array(vec![Num::from_int(5), Num::from_int(6)]))
    );
    assert_eq!(
        times(&vec34, &two),
        Ok(Value::Array(vec![Num::from_int(6), Num::from_int(8)]))
    );
    assert_eq!(
        maximum(&two, &vec34),
        Ok(Value::Array(vec![Num::from_int(3), Num::from_int(4)]))
    );
    assert_eq!(
        minimum(&two, &vec34),
        Ok(Value::Array(vec![Num::from_int(2), Num::from_int(2)]))
    );
}
