use teeny::{Emitter, Parser, Stmt};

#[test]
fn cloned_program_equals_original() {
    let ast = Parser::from_str(
        "LET X = -(1 + 2)\nIF X > 0 THEN\nPRINT \"pos\"\nELSEIF X < 0 THEN\nINPUT Y\nELSE\nLABEL L\nENDIF\nWHILE X REPEAT\nGOTO L\nENDWHILE\n",
    )
    .program()
    .unwrap();
    let copy: Vec<Stmt> = ast.iter().map(|s| s.clone()).collect();
    assert_eq!(copy, ast);
    assert_eq!(format!("{:?}", copy), format!("{:?}", ast));
}

#[test]
fn cloned_emitter_goes_on_alone() {
    let ast = Parser::from_str("LET X = 1\n").program().unwrap();
    let mut first = Emitter::new();
    first.emit_tree(&ast);
    let mut second = first.clone();
    assert_eq!(format!("{:?}", first), format!("{:?}", second));
    second.emit_tree(&ast);
    assert_eq!(
        first.write_out(),
        "#include <stdio.h>\n\nint main(void) {\nfloat X = (1);\nreturn 0;\n}\n\n"
    );
    assert_eq!(
        second.write_out(),
        "#include <stdio.h>\n\nint main(void) {\nfloat X = (1);\nX = (1);\nreturn 0;\n}\n\n"
    );
}
