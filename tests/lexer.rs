use calc::lexer::{BracketType, Lexer, LexerError, OperatorType, Token};

#[test]
fn test_lexer() {
    let mut lexer = Lexer::new("1+23 -4*( 567/8)").unwrap();
    assert_eq!(lexer.next(), Some(&Token::Number(1)));
    assert_eq!(lexer.next(), Some(&Token::Operator(OperatorType::Plus)));
    assert_eq!(lexer.next(), Some(&Token::Number(23)));
    assert_eq!(lexer.next(), Some(&Token::Operator(OperatorType::Sub)));
    assert_eq!(lexer.next(), Some(&Token::Number(4)));
    assert_eq!(lexer.next(), Some(&Token::Operator(OperatorType::Mul)));
    assert_eq!(lexer.next(), Some(&Token::Bracket(BracketType::Left)));
    assert_eq!(lexer.next(), Some(&Token::Number(567)));
    assert_eq!(lexer.next(), Some(&Token::Operator(OperatorType::Div)));
    assert_eq!(lexer.next(), Some(&Token::Number(8)));
    assert_eq!(lexer.next(), Some(&Token::Bracket(BracketType::Right)));
}

#[test]
fn lexer_end_of_stream() {
    let mut lexer = Lexer::new(" 7 ").unwrap();
    assert_eq!(lexer.peek(), Some(&Token::Number(7)));
    assert_eq!(lexer.next(), Some(&Token::Number(7)));
    assert_eq!(lexer.peek(), None);
    assert_eq!(lexer.next(), None);
    assert_eq!(lexer.next(), None);
}

#[test]
fn lexer_empty_and_blank_input() {
    let mut empty = Lexer::new("").unwrap();
    assert_eq!(empty.next(), None);
    let mut blank = Lexer::new("   ").unwrap();
    assert_eq!(blank.peek(), None);
}

#[test]
fn lexer_unknown_char() {
    assert!(matches!(Lexer::new("1+a"), Err(LexerError::UnknownChar)));
    assert!(matches!(Lexer::new("3.5"), Err(LexerError::UnknownChar)));
    assert!(matches!(Lexer::new("1\t2"), Err(LexerError::UnknownChar)));
}

#[test]
fn lexer_number_out_of_range() {
    assert!(matches!(Lexer::new("2147483648"), Err(LexerError::NumberFormatError)));
    assert!(matches!(Lexer::new("1+99999999999"), Err(LexerError::NumberFormatError)));
}

#[test]
fn lexer_first_error_wins() {
    assert!(matches!(Lexer::new("99999999999 x"), Err(LexerError::NumberFormatError)));
    assert!(matches!(Lexer::new("x 99999999999"), Err(LexerError::UnknownChar)));
}

#[test]
fn lexer_largest_number() {
    let mut lexer = Lexer::new("2147483647").unwrap();
    assert_eq!(lexer.next(), Some(&Token::Number(i32::MAX)));
    assert_eq!(lexer.next(), None);
}

#[test]
fn lexer_number_round_trip() {
    for n in [0i32, 5, 10, 123, 4096, 65535, 1000000007, i32::MAX] {
        let text = n.to_string();
        let mut lexer = Lexer::new(&text).unwrap();
        assert_eq!(lexer.next(), Some(&Token::Number(n)));
        assert_eq!(lexer.next(), None);
    }
    let mut lexer = Lexer::new("007").unwrap();
    assert_eq!(lexer.next(), Some(&Token::Number(7)));
}

#[test]
fn lexer_arith_text_token_count() {
    let mut lexer = Lexer::new("( 12 + 3 ) * 4 / 5 - 6").unwrap();
    let mut count = 0;
    while lexer.next().is_some() {
        count += 1;
    }
    assert_eq!(count, 11);
}
