use teeny::{BinaryOp, Error, Expr, Parser, Stmt, UnaryOp};

fn parse_error(input: &str) -> String {
    match Parser::from_str(input).program() {
        Err(Error::Parse(m)) => m,
        other => panic!("expected a parse error, found {:?}", other),
    }
}

#[test]
fn parse_error_messages() {
    assert_eq!(parse_error("LET X = 1 2\n"), "Expected newline");
    assert_eq!(parse_error("LET X = *\n"), "Expected number or identifier");
    assert_eq!(parse_error("LET X = (1 + 2\n"), "Missing close paren after expression");
    assert_eq!(parse_error("IF 1 PRINT 2\n"), "Expected THEN");
    assert_eq!(parse_error("IF 1 THEN PRINT 2\n"), "Expected newline");
    assert_eq!(
        parse_error("IF 1 THEN\nPRINT 2\n"),
        "Expected start of statement but reached end of file"
    );
    assert_eq!(parse_error("WHILE 1 THEN\n"), "Expected REPEAT");
    assert_eq!(parse_error("LABEL 1\n"), "Expected identifier");
    assert_eq!(parse_error("GOTO\n"), "Expected identifier");
    assert_eq!(parse_error("INPUT \"X\"\n"), "Expected identifier");
    assert_eq!(parse_error("LET X 1\n"), "Expected `=`");
    assert_eq!(parse_error("THEN\n"), "Expected start of statement");
    assert_eq!(parse_error("WHILE 1 REPEAT\nELSE\nENDWHILE\n"), "Expected start of statement");
}

#[test]
fn parse_lexer_error_comes_through() {
    match Parser::from_str("LET X = 1\nLET Y = 2.2.2\n").program() {
        Err(Error::Lexer(m)) => assert_eq!(m, "Already have seen period in numeric"),
        other => panic!("expected a lexer error, found {:?}", other),
    }
}

#[test]
fn parse_statement_at_a_time() {
    let mut parser = Parser::from_str("\n\nLET X = 1\nPRINT X\n");
    assert!(matches!(parser.statement().unwrap(), Stmt::Let(_, _)));
    assert!(matches!(parser.statement().unwrap(), Stmt::Print(_)));
    assert!(parser.statement().is_err());
}

#[test]
fn parse_not_binds_looser_than_comparison_but_tighter_than_and() {
    let ast = Parser::from_str("LET X = ! A < B && C\n").program().unwrap();
    let expected = Stmt::Let(
        "X".to_string(),
        Expr::Binary(
            BinaryOp::And,
            Box::new(Expr::Unary(
                UnaryOp::Not,
                Box::new(Expr::Binary(
                    BinaryOp::Lt,
                    Box::new(Expr::Identifier("A".to_string())),
                    Box::new(Expr::Identifier("B".to_string())),
                )),
            )),
            Box::new(Expr::Identifier("C".to_string())),
        ),
    );
    assert_eq!(ast[0], expected);
}
