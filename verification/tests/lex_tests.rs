use teeny::Lexer;
use teeny::Token::{
    ENDIF, EOF, EQ, GTEQ, IDENT, IF, LET, MINUS, NEWLINE, NUMBER, PLUS, PRINT, STRING, THEN,
};

#[test]
#[should_panic]
fn test_invalid_char_in_alpha_token() {
    let input = r#"LET MY_FUN_👍_VAR = 3.23"#;
    let _ = Lexer::new(input).tokens().unwrap();
}

#[test]
#[should_panic]
fn test_invalid_alpha_in_number() {
    let input = r#"LET X = 3.23A"#;
    let _ = Lexer::new(input).tokens().unwrap();
}

#[test]
#[should_panic]
fn test_invalid_period_start_token() {
    let input = r#"LET X = .3"#;
    let _ = Lexer::new(input).tokens().unwrap();
}

#[test]
#[should_panic]
fn test_double_period_in_number() {
    let input = r#"LET X = 4.3.2"#;
    let _ = Lexer::new(input).tokens().unwrap();
}

#[test]
#[should_panic]
fn test_missing_string_end() {
    let input = r#"LET S = "this does not end"#;
    let _ = Lexer::new(input).tokens().unwrap();
}

#[test]
#[should_panic]
fn test_unknown_token_start() {
    let input = r#"LET 👍 = 3"#;
    let _ = Lexer::new(input).tokens().unwrap();
}

#[test]
fn test_edge_case_operator_delimited_things() {
    let inputs = vec![r#"LET X = 3+4"#, r#"LET X=Y>=3"#];

    let answers = {
        vec![
            vec![
                LET,
                IDENT("X".to_string()),
                EQ,
                NUMBER("3".to_string()),
                PLUS,
                NUMBER("4".to_string()),
                NEWLINE,
                EOF,
            ],
            vec![
                LET,
                IDENT("X".to_string()),
                EQ,
                IDENT("Y".to_string()),
                GTEQ,
                NUMBER("3".to_string()),
                NEWLINE,
                EOF,
            ],
        ]
    };

    for (input, expected) in std::iter::zip(inputs, answers) {
        let tokens: Vec<_> = Lexer::new(input).tokens().unwrap();
        assert_eq!(tokens, expected);
    }
}

#[test]
fn test_lexing_success() {
    let inputs = vec![
        r#"LET XΔ = 6"#,
        r#"LET X = -4.6
LET Y2 = 3.2
LET X_PLUS_Y = X + Y
IF X_PLUS_Y >= 3 THEN
    PRINT "WORKED"
ENDIF"#,
    ];

    let answers = {
        vec![
            vec![
                LET,
                IDENT("XΔ".to_string()),
                EQ,
                NUMBER("6".to_string()),
                NEWLINE,
                EOF,
            ],
            vec![
                LET,
                IDENT("X".to_string()),
                EQ,
                MINUS,
                NUMBER("4.6".to_string()),
                NEWLINE,
                LET,
                IDENT("Y2".to_string()),
                EQ,
                NUMBER("3.2".to_string()),
                NEWLINE,
                LET,
                IDENT("X_PLUS_Y".to_string()),
                EQ,
                IDENT("X".to_string()),
                PLUS,
                IDENT("Y".to_string()),
                NEWLINE,
                IF,
                IDENT("X_PLUS_Y".to_string()),
                GTEQ,
                NUMBER("3".to_string()),
                THEN,
                NEWLINE,
                PRINT,
                STRING("WORKED".to_string()),
                NEWLINE,
                ENDIF,
                NEWLINE,
                EOF,
            ],
        ]
    };

    for (input, expected) in std::iter::zip(inputs, answers) {
        let tokens: Vec<_> = Lexer::new(input).tokens().unwrap();
        assert_eq!(tokens, expected);
    }
}
