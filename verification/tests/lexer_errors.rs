use teeny::{Error, Lexer, Token};

fn lex_error(input: &str) -> String {
    match Lexer::new(input).tokens() {
        Err(Error::Lexer(m)) => m,
        other => panic!("expected a lexer error, found {:?}", other),
    }
}

#[test]
fn lexer_unknown_start() {
    assert_eq!(lex_error("LET 👍 = 3"), "Unknown start to token: 👍");
    assert_eq!(lex_error("LET X = .3"), "Unknown start to token: .");
    assert_eq!(lex_error("LET X = 1 & 2"), "Unknown start to token: &");
    assert_eq!(lex_error("LET X = 1 | 2"), "Unknown start to token: |");
}

#[test]
fn lexer_open_quote() {
    assert_eq!(lex_error("PRINT \"no end"), "File finished with open quote");
}

#[test]
fn lexer_double_period() {
    assert_eq!(lex_error("LET X = 4.3.2"), "Already have seen period in numeric");
}

#[test]
fn lexer_letter_in_number() {
    assert_eq!(lex_error("LET X = 3.23A"), "Invalid character in numeric token: A");
}

#[test]
fn lexer_invalid_word_char() {
    assert_eq!(
        lex_error("LET MY_👍 = 1"),
        "Invalid character in keyword or identifier token: 👍"
    );
    assert_eq!(
        lex_error("LET Z = X!=Y"),
        "Invalid character in keyword or identifier token: !"
    );
    assert_eq!(
        lex_error("PRINT(X)"),
        "Invalid character in keyword or identifier token: ("
    );
    assert_eq!(
        lex_error("IF A&&B THEN"),
        "Invalid character in keyword or identifier token: &"
    );
}

#[test]
fn lexer_parentheses_and_logic() {
    let tokens = Lexer::new("(A)&&!B ||C != D").tokens().unwrap();
    assert_eq!(
        tokens,
        vec![
            Token::OPENPAREN,
            Token::IDENT("A".to_string()),
            Token::CLOSEPAREN,
            Token::AND,
            Token::NOT,
            Token::IDENT("B".to_string()),
            Token::OR,
            Token::IDENT("C".to_string()),
            Token::NOTEQ,
            Token::IDENT("D".to_string()),
            Token::NEWLINE,
            Token::EOF,
        ]
    );
}

#[test]
fn lexer_peek_then_next() {
    let mut lexer = Lexer::new("PRINT 12.5");
    assert_eq!(lexer.peek_token().unwrap(), Token::PRINT);
    assert_eq!(lexer.peek_token().unwrap(), Token::PRINT);
    assert_eq!(lexer.next_token().unwrap(), Token::PRINT);
    assert_eq!(lexer.next_token().unwrap(), Token::NUMBER("12.5".to_string()));
    assert_eq!(lexer.next_token().unwrap(), Token::NEWLINE);
    assert_eq!(lexer.next_token().unwrap(), Token::EOF);
    assert_eq!(lexer.next_token().unwrap(), Token::EOF);
}

#[test]
fn lexer_error_is_sticky() {
    let mut lexer = Lexer::new("X ?");
    assert_eq!(lexer.next_token().unwrap(), Token::IDENT("X".to_string()));
    assert!(lexer.peek_token().is_err());
    assert!(lexer.next_token().is_err());
    assert!(lexer.next_token().is_err());
}

#[test]
fn lexer_strings_keep_inner_text() {
    let tokens = Lexer::new("PRINT \"\"\nPRINT \"a b = 3\"").tokens().unwrap();
    assert_eq!(tokens[1], Token::STRING(String::new()));
    assert_eq!(tokens[4], Token::STRING("a b = 3".to_string()));
}

#[test]
fn lexer_tokens_end_with_one_eof() {
    let tokens = Lexer::new("\t LET X = 1 \r\n\n").tokens().unwrap();
    assert_eq!(tokens.last(), Some(&Token::EOF));
    assert_eq!(tokens.iter().filter(|t| **t == Token::EOF).count(), 1);
    assert_eq!(tokens.len(), 8);
}

#[test]
fn lexer_keywords_and_identifiers() {
    let tokens = Lexer::new("ELSEIF ELSEIFX else_1 REPEAT").tokens().unwrap();
    assert_eq!(tokens[0], Token::ELSEIF);
    assert_eq!(tokens[1], Token::IDENT("ELSEIFX".to_string()));
    assert_eq!(tokens[2], Token::IDENT("else_1".to_string()));
    assert_eq!(tokens[3], Token::REPEAT);
}

#[test]
fn lexer_empty_input_ends_with_newline_then_eof() {
    assert_eq!(Lexer::new("").tokens().unwrap(), vec![Token::NEWLINE, Token::EOF]);
}

#[test]
fn lexer_newline_comes_before_eof() {
    let tokens = Lexer::new("PRINT 1").tokens().unwrap();
    assert_eq!(
        tokens,
        vec![Token::PRINT, Token::NUMBER("1".to_string()), Token::NEWLINE, Token::EOF]
    );
    let tokens = Lexer::new("LET X = Y\n  \t").tokens().unwrap();
    let n = tokens.len();
    assert_eq!(tokens[n - 3], Token::NEWLINE);
    assert_eq!(tokens[n - 2], Token::NEWLINE);
    assert_eq!(tokens[n - 1], Token::EOF);
}

#[test]
fn lexer_eof_repeats() {
    let mut lexer = Lexer::new("X");
    assert_eq!(lexer.next_token().unwrap(), Token::IDENT("X".to_string()));
    assert_eq!(lexer.next_token().unwrap(), Token::NEWLINE);
    for _ in 0..3 {
        assert_eq!(lexer.peek_token().unwrap(), Token::EOF);
        assert_eq!(lexer.next_token().unwrap(), Token::EOF);
    }
}

#[test]
fn lexer_word_ends_at_operator_paren_or_space() {
    let tokens = Lexer::new("(A+B)*C").tokens().unwrap();
    assert_eq!(
        tokens,
        vec![
            Token::OPENPAREN,
            Token::IDENT("A".to_string()),
            Token::PLUS,
            Token::IDENT("B".to_string()),
            Token::CLOSEPAREN,
            Token::ASTERISK,
            Token::IDENT("C".to_string()),
            Token::NEWLINE,
            Token::EOF,
        ]
    );
}
