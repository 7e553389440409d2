use teeny::verify::walk_tree;
use teeny::{Error, Parser};

fn walk(input: &str) -> Result<(), Error> {
    let ast = Parser::from_str(input).program().unwrap();
    walk_tree(&ast)
}

fn lexer_message(r: Result<(), Error>) -> String {
    match r {
        Err(Error::Lexer(m)) => m,
        other => panic!("expected a lexer error, found {:?}", other),
    }
}

#[test]
fn walk_accepts_declared_identifiers() {
    assert!(walk("LET X = 1\nINPUT Y\nLET Z = X + Y\nPRINT Z\n").is_ok());
}

#[test]
fn walk_rejects_undeclared_identifier() {
    let m = lexer_message(walk("LET X = 1\nLET Z = X + Y\n"));
    assert_eq!(m, "Identifier `Y` used before declared");
}

#[test]
fn walk_reports_leftmost_undeclared_identifier() {
    let m = lexer_message(walk("IF A + B THEN\nPRINT 1\nENDIF\n"));
    assert_eq!(m, "Identifier `A` used before declared");
}

#[test]
fn walk_let_declares_before_its_expression() {
    assert!(walk("LET X = X + 1\n").is_ok());
}

#[test]
fn walk_does_not_look_into_print() {
    assert!(walk("PRINT Q\n").is_ok());
}

#[test]
fn walk_checks_while_condition_and_body() {
    let m = lexer_message(walk("LET X = 1\nWHILE X REPEAT\nLET Y = W\nENDWHILE\n"));
    assert_eq!(m, "Identifier `W` used before declared");
}

#[test]
fn walk_rejects_goto_without_label() {
    let m = lexer_message(walk("LABEL A\nGOTO A\nGOTO B\nGOTO C\n"));
    assert_eq!(m, "Label gotoed `B` does not exist");
}

#[test]
fn walk_accepts_goto_before_label() {
    assert!(walk("GOTO A\nLABEL A\n").is_ok());
}

#[test]
fn walk_branches_declare_in_order() {
    assert!(walk("IF 1 THEN\nLET X = 1\nELSEIF X THEN\nLET Y = X\nELSE\nLET Z = Y\nENDIF\n").is_ok());
}
