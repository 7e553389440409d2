use teeny::driver::{compile, parse_and_check};
use teeny::Error;

#[test]
fn compile_counting_loop() {
    let source = "LET X = 4\nLET Y = 0\nWHILE X > 0 REPEAT\n    LET Y = Y + 1\n    LET X = X - 1\nENDWHILE\nPRINT Y\n";
    let expected = "#include <stdio.h>\n\nint main(void) {\nfloat X = (4);\nfloat Y = (0);\nwhile (((X)>(0))) {\nY = ((Y)+(1));\nX = ((X)-(1));\n}\nprintf(\"%.2f\\n\", (float)(Y));\nreturn 0;\n}\n\n";
    assert_eq!(compile(source).unwrap(), expected);
}

#[test]
fn compile_refuses_undeclared_identifier() {
    match compile("PRINT 1\nLET X = Y\n") {
        Err(Error::Lexer(m)) => assert_eq!(m, "Identifier `Y` used before declared"),
        other => panic!("expected a lexer error, found {:?}", other),
    }
}

#[test]
fn compile_refuses_syntax_error() {
    match compile("LET X = \n") {
        Err(Error::Parse(m)) => assert_eq!(m, "Expected number or identifier"),
        other => panic!("expected a parse error, found {:?}", other),
    }
}

#[test]
fn parse_and_check_gives_statements() {
    let ast = parse_and_check("LABEL TOP\nINPUT N\nGOTO TOP\n").unwrap();
    assert_eq!(ast.len(), 3);
    assert!(parse_and_check("GOTO NOWHERE\n").is_err());
}
