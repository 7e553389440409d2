use teeny::{BinaryOp, Token, UnaryOp};

#[test]
fn token_text_of_operators_and_literals() {
    assert_eq!(Token::EQ.text(), "=");
    assert_eq!(Token::GTEQ.text(), ">=");
    assert_eq!(Token::AND.text(), "&&");
    assert_eq!(Token::NUMBER("4.5".to_string()).text(), "4.5");
    assert_eq!(Token::IDENT("X".to_string()).text(), "X");
    assert_eq!(Token::STRING("hi".to_string()).text(), "hi");
}

#[test]
fn token_operators() {
    assert_eq!(Token::PLUS.binary_op(), Some(BinaryOp::Plus));
    assert_eq!(Token::LTEQ.binary_op(), Some(BinaryOp::LtEq));
    assert_eq!(Token::NOT.binary_op(), None);
    assert_eq!(Token::MINUS.unary_op(), Some(UnaryOp::Minus));
    assert_eq!(Token::NOT.unary_op(), Some(UnaryOp::Not));
    assert_eq!(Token::ASTERISK.unary_op(), None);
    assert!(Token::NOTEQ.is_comparator());
    assert!(!Token::EQ.is_comparator());
    assert!(Token::EOF.is_eof());
    assert!(!Token::NEWLINE.is_eof());
}

#[test]
fn token_comparators_are_binary_operators() {
    let comparators = [Token::EQEQ, Token::NOTEQ, Token::LT, Token::LTEQ, Token::GT, Token::GTEQ];
    for t in comparators {
        assert!(t.is_comparator());
        assert!(t.binary_op().is_some());
    }
}

#[test]
fn token_operator_text_is_c_text() {
    let ops = [
        Token::PLUS,
        Token::MINUS,
        Token::SLASH,
        Token::ASTERISK,
        Token::AND,
        Token::OR,
        Token::GT,
        Token::LT,
        Token::GTEQ,
        Token::LTEQ,
        Token::EQEQ,
        Token::NOTEQ,
    ];
    for t in ops {
        assert_eq!(t.text(), t.binary_op().unwrap().text());
    }
    assert_eq!(Token::NOT.text(), UnaryOp::Not.text());
    assert_eq!(Token::MINUS.text(), UnaryOp::Minus.text());
}

#[test]
fn token_keywords() {
    assert_eq!(Token::try_keyword("WHILE"), Some(Token::WHILE));
    assert_eq!(Token::try_keyword("while"), None);
    assert_eq!(Token::try_keyword_or_ident("ENDIF".to_string()), Token::ENDIF);
    assert_eq!(
        Token::try_keyword_or_ident("ENDIFS".to_string()),
        Token::IDENT("ENDIFS".to_string())
    );
}
