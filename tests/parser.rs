use calc::evaluator::eval;
use calc::lexer::{Lexer, OperatorType};
use calc::parser::{Node, ParseError, Parser};

fn parse_text(text: &str) -> Result<Node, ParseError> {
    let lexer = Lexer::new(text).unwrap();
    let mut parser = Parser::new(lexer);
    parser.parse()
}

fn eval_text(text: &str) -> i32 {
    eval(&parse_text(text).unwrap())
}

#[test]
fn test_parser() {
    let lexer = Lexer::new("1+2*3").unwrap();
    let mut parser = Parser::new(lexer);
    let node = parser.parse();
    println!("{:?}", node);
    assert!(node.is_ok());
}

#[test]
fn test_failed_parse() {
    let lexer = Lexer::new("1+2*").unwrap();
    let mut parser = Parser::new(lexer);
    let node = parser.parse();
    println!("{:?}", node);
    assert!(node.is_err());
}

#[test]
fn test_unary() {
    let lexer = Lexer::new("-1+2").unwrap();
    let mut parser = Parser::new(lexer);
    let node = parser.parse();
    println!("{:?}", node);
    assert!(node.is_ok());
}

#[test]
fn test_failed_unary() {
    let lexer = Lexer::new("--1+2").unwrap();
    let mut parser = Parser::new(lexer);
    let node = parser.parse();
    println!("{:?}", node);
    assert!(node.is_err());
}

#[test]
fn precedence_tree_shape() {
    let expected = Node::BinaryExpr {
        op: OperatorType::Plus,
        lhs: Box::new(Node::Number(1)),
        rhs: Box::new(Node::BinaryExpr {
            op: OperatorType::Mul,
            lhs: Box::new(Node::Number(2)),
            rhs: Box::new(Node::Number(3)),
        }),
    };
    assert_eq!(parse_text("1+2*3").unwrap(), expected);
}

#[test]
fn left_associative_tree_shape() {
    let expected = Node::BinaryExpr {
        op: OperatorType::Sub,
        lhs: Box::new(Node::BinaryExpr {
            op: OperatorType::Sub,
            lhs: Box::new(Node::Number(8)),
            rhs: Box::new(Node::Number(3)),
        }),
        rhs: Box::new(Node::Number(2)),
    };
    assert_eq!(parse_text("8-3-2").unwrap(), expected);
}

#[test]
fn unary_minus_tree_shape() {
    let expected = Node::BinaryExpr {
        op: OperatorType::Plus,
        lhs: Box::new(Node::UnaryExpr {
            op: OperatorType::Sub,
            child: Box::new(Node::Number(1)),
        }),
        rhs: Box::new(Node::Number(2)),
    };
    assert_eq!(parse_text("-1+2").unwrap(), expected);
}

#[test]
fn precedence_value() {
    assert_eq!(eval_text("1+2*3"), 7);
}

#[test]
fn left_associative_value() {
    assert_eq!(eval_text("8-3-2"), 3);
    assert_eq!(eval_text("64/4/2"), 8);
}

#[test]
fn grouping_value() {
    assert_eq!(eval_text("(1+2)*3+4/2"), 11);
}

#[test]
fn unary_minus_value() {
    assert_eq!(eval_text("-1+2"), 1);
    assert_eq!(eval_text("2*-3"), -6);
    assert_eq!(eval_text("-(1+2)"), -3);
}

#[test]
fn double_unary_minus_rejected() {
    assert_eq!(parse_text("--1+2"), Err(ParseError::Unmatch));
}

#[test]
fn unary_plus_rejected() {
    assert_eq!(parse_text("+1"), Err(ParseError::Unmatch));
}

#[test]
fn division_by_zero_is_zero() {
    assert_eq!(eval_text("5/0"), 0);
    assert_eq!(eval_text("5/(3-3)"), 0);
}

#[test]
fn missing_bracket() {
    assert_eq!(parse_text("(1+2"), Err(ParseError::MissingBracket));
    assert_eq!(parse_text("((1)"), Err(ParseError::MissingBracket));
}

#[test]
fn stray_closing_bracket_ends_expression() {
    assert_eq!(eval_text("1+2)"), 3);
    assert_eq!(eval_text("2*3)+4"), 6);
    assert_eq!(eval_text("1+2)3 4 ("), 3);
}

#[test]
fn error_inside_group_comes_first() {
    assert_eq!(parse_text("(1+"), Err(ParseError::Unmatch));
}

#[test]
fn incomplete_expression() {
    assert_eq!(parse_text("1+2*"), Err(ParseError::Unmatch));
}

#[test]
fn empty_and_malformed_input() {
    assert_eq!(parse_text(""), Err(ParseError::Unmatch));
    assert_eq!(parse_text("1 2"), Err(ParseError::Unmatch));
    assert_eq!(parse_text("()"), Err(ParseError::Unmatch));
    assert_eq!(parse_text("*2"), Err(ParseError::Unmatch));
}

#[test]
fn lexer_debug_shows_cursor_past_end() {
    let mut lexer = Lexer::new("1").unwrap();
    assert!(lexer.next().is_some());
    assert!(lexer.next().is_none());
    let shown = format!("{:?}", lexer);
    assert!(shown.contains("pos: 2"));
}
