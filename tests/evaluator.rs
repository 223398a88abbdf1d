use calc::evaluator::eval;
use calc::lexer::{Lexer, OperatorType};
use calc::parser::{Node, Parser};

fn tree(text: &str) -> Node {
    let lexer = Lexer::new(text).unwrap();
    let mut parser = Parser::new(lexer);
    parser.parse().unwrap()
}

fn num(n: i32) -> Box<Node> {
    Box::new(Node::Number(n))
}

#[test]
fn evaluation_is_repeatable() {
    let ast = tree("(7+5)*3-10/4");
    let first = eval(&ast);
    let second = eval(&ast);
    assert_eq!(first, 34);
    assert_eq!(first, second);
}

#[test]
fn operators_by_hand() {
    let add = Node::BinaryExpr { op: OperatorType::Plus, lhs: num(4), rhs: num(9) };
    let sub = Node::BinaryExpr { op: OperatorType::Sub, lhs: num(4), rhs: num(9) };
    let mul = Node::BinaryExpr { op: OperatorType::Mul, lhs: num(4), rhs: num(9) };
    let div = Node::BinaryExpr { op: OperatorType::Div, lhs: num(40), rhs: num(9) };
    assert_eq!(eval(&add), 13);
    assert_eq!(eval(&sub), -5);
    assert_eq!(eval(&mul), 36);
    assert_eq!(eval(&div), 4);
}

#[test]
fn unary_operators_by_hand() {
    let plus = Node::UnaryExpr { op: OperatorType::Plus, child: num(6) };
    let minus = Node::UnaryExpr { op: OperatorType::Sub, child: num(6) };
    let other = Node::UnaryExpr { op: OperatorType::Mul, child: num(6) };
    assert_eq!(eval(&plus), 6);
    assert_eq!(eval(&minus), -6);
    assert_eq!(eval(&other), 6);
}

#[test]
fn division_truncates_toward_zero() {
    let a = Node::BinaryExpr { op: OperatorType::Div, lhs: num(-7), rhs: num(2) };
    let b = Node::BinaryExpr { op: OperatorType::Div, lhs: num(7), rhs: num(-2) };
    assert_eq!(eval(&a), -3);
    assert_eq!(eval(&b), -3);
}

#[test]
fn division_by_zero_node() {
    let d = Node::BinaryExpr { op: OperatorType::Div, lhs: num(i32::MAX), rhs: num(0) };
    assert_eq!(eval(&d), 0);
}

#[test]
fn overflow_wraps() {
    let add = Node::BinaryExpr { op: OperatorType::Plus, lhs: num(i32::MAX), rhs: num(1) };
    let mul = Node::BinaryExpr { op: OperatorType::Mul, lhs: num(65536), rhs: num(65536) };
    let neg = Node::UnaryExpr { op: OperatorType::Sub, child: num(i32::MIN) };
    let div = Node::BinaryExpr { op: OperatorType::Div, lhs: num(i32::MIN), rhs: num(-1) };
    assert_eq!(eval(&add), i32::MIN);
    assert_eq!(eval(&mul), 0);
    assert_eq!(eval(&neg), i32::MIN);
    assert_eq!(eval(&div), i32::MIN);
}

#[test]
fn negative_number_round_trip() {
    for n in [-1i32, -45, -2147483647] {
        assert_eq!(eval(&tree(&n.to_string())), n);
    }
}
