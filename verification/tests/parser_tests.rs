use calculator::ast::BinOp;
use calculator::ast::Expr;
use calculator::lexer::Token;
use calculator::lexer::tokenize;
use calculator::parser::ParseError;
use calculator::parser::Parser;
use calculator::parser::parse;

/// Evaluates an expression tree with floating-point arithmetic, each node
/// from its children, left child first.
fn eval(e: &Expr) -> f64 {
    match e {
        Expr::Leaf(lit) => {
            let text: String = lit.text.iter().collect();
            text.parse::<f64>().unwrap()
        },
        Expr::BinaryOp { op, left, right } => {
            let l = eval(left);
            let r = eval(right);
            match op {
                BinOp::Add => l + r,
                BinOp::Subtract => l - r,
                BinOp::Multiply => l * r,
                BinOp::Divide => l / r,
            }
        },
    }
}

fn run(input: &str) -> Result<Expr, ParseError> {
    parse(tokenize(input).unwrap())
}

fn evaluate(input: &str) -> f64 {
    eval(&run(input).unwrap())
}

#[test]
fn multiplication_binds_tighter_than_addition() {
    assert_eq!(evaluate("2 + 3 * 4"), 14.0);
}

#[test]
fn grouping_overrides_precedence() {
    assert_eq!(evaluate("(2 + 3) * 4"), 20.0);
}

#[test]
fn subtraction_is_left_associative() {
    assert_eq!(evaluate("10 - 2 - 3"), 5.0);
}

#[test]
fn division_is_left_associative() {
    assert_eq!(evaluate("8 / 2 / 2"), 2.0);
}

#[test]
fn left_associative_tree_shape() {
    let e = run("10 - 2 - 3").unwrap();
    match e {
        Expr::BinaryOp { op: BinOp::Subtract, left, right } => {
            assert!(matches!(*left, Expr::BinaryOp { op: BinOp::Subtract, .. }));
            assert_eq!(eval(&right), 3.0);
        },
        _ => panic!("expected a subtraction at the root"),
    }
}

#[test]
fn division_by_zero_yields_infinity() {
    let v = evaluate("1 / 0");
    assert_eq!(v, f64::INFINITY);
}

#[test]
fn unmatched_brace() {
    assert_eq!(run("(1 + 2").unwrap_err(), ParseError::UnmatchedBrace);
}

#[test]
fn missing_operand_after_operator() {
    assert_eq!(run("1 +").unwrap_err(), ParseError::MissingOperand);
    assert_eq!(run("2 * ").unwrap_err(), ParseError::MissingOperand);
}

#[test]
fn leading_operator_has_no_operand() {
    assert_eq!(run("-5").unwrap_err(), ParseError::MissingOperand);
}

#[test]
fn empty_input_is_an_empty_expression() {
    assert_eq!(run("").unwrap_err(), ParseError::EmptyExpression);
    assert_eq!(run("   ").unwrap_err(), ParseError::EmptyExpression);
}

#[test]
fn bracket_styles_are_interchangeable() {
    assert_eq!(evaluate("{2 + 3] * [4)"), 20.0);
}

#[test]
fn leading_dot_number_in_a_larger_expression() {
    assert_eq!(evaluate(".5 * 4"), 2.0);
}

#[test]
fn mixed_precedence_and_decimals() {
    assert_eq!(evaluate("1.5 + 2.5 * 2"), 6.5);
}

#[test]
fn tokens_after_the_expression_are_left_unconsumed() {
    assert_eq!(eval(&run("2 3").unwrap()), 2.0);
}

#[test]
fn evaluating_the_same_tree_twice_is_bit_identical() {
    let e = run("565.788 / 2.5 * (1.1 + 2) - .7").unwrap();
    let first = eval(&e);
    let second = eval(&e);
    assert_eq!(first.to_bits(), second.to_bits());
}

#[test]
fn nested_brackets_evaluate_inside_out() {
    assert_eq!(evaluate("((1 + 2) * (3 + 4))"), 21.0);
}

#[test]
fn cursor_walks_the_tokens_one_by_one() {
    let tokens = tokenize("1 + 2").unwrap();
    let mut p = Parser::new(tokens);
    assert!(matches!(p.current_token(), Some(Token::Number(_))));
    p.next();
    assert!(matches!(p.current_token(), Some(Token::Plus)));
    p.next();
    assert!(matches!(p.current_token(), Some(Token::Number(_))));
    p.next();
    assert!(matches!(p.current_token(), Some(Token::EndOfInput)));
}

#[test]
fn term_and_factor_yield_no_node_on_an_operator() {
    let tokens = tokenize("+ 1").unwrap();
    let mut p = Parser::new(tokens);
    assert!(matches!(p.term(), Ok(None)));
    assert!(matches!(p.factor(), Ok(None)));
}

#[test]
fn factor_parses_a_multiplication_chain_and_stops_at_plus() {
    let tokens = tokenize("2 * 3 + 1").unwrap();
    let mut p = Parser::new(tokens);
    let e = p.factor().unwrap().unwrap();
    assert_eq!(eval(&e), 6.0);
    assert!(matches!(p.current_token(), Some(Token::Plus)));
}

#[test]
fn parse_expr_consumes_up_to_end_of_input() {
    let tokens = tokenize("2 * 3 + 1").unwrap();
    let mut p = Parser::new(tokens);
    let e = p.parse_expr().unwrap();
    assert_eq!(eval(&e), 7.0);
    assert!(matches!(p.current_token(), Some(Token::EndOfInput)));
}
