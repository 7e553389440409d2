use teeny::{Emitter, Parser};

fn compile(input: &str) -> String {
    let ast = Parser::from_str(input).program().unwrap();
    let mut emitter = Emitter::new();
    emitter.emit_tree(&ast);
    emitter.write_out()
}

#[test]
fn emit_empty_program() {
    assert_eq!(
        compile(""),
        "#include <stdio.h>\n\nint main(void) {\nreturn 0;\n}\n\n"
    );
}

#[test]
fn emit_let_declares_once() {
    let got = compile("LET X = 1\nLET X = X + 2\n");
    assert_eq!(
        got,
        "#include <stdio.h>\n\nint main(void) {\nfloat X = (1);\nX = ((X)+(2));\nreturn 0;\n}\n\n"
    );
}

#[test]
fn emit_while_loop_program() {
    let got = compile("LET X = 0\nWHILE X < 3 REPEAT\nLET X = X + 1\nENDWHILE\nPRINT X\n");
    let expected = "#include <stdio.h>\n\nint main(void) {\nfloat X = (0);\nwhile (((X)<(3))) {\nX = ((X)+(1));\n}\nprintf(\"%.2f\\n\", (float)(X));\nreturn 0;\n}\n\n";
    assert_eq!(got, expected);
}

#[test]
fn emit_print_string_input_label_goto() {
    let got = compile("PRINT \"hi\"\nINPUT Y\nINPUT Y\nLABEL L\nGOTO L\n");
    let expected = "#include <stdio.h>\n\nint main(void) {\nprintf(\"hi\\n\");\nfloat Y;\nif(0 == scanf(\"%f\", &Y)) {\nY = 0;\nscanf(\"%*s\");\n}\nif(0 == scanf(\"%f\", &Y)) {\nY = 0;\nscanf(\"%*s\");\n}\nL:\ngoto L;\nreturn 0;\n}\n\n";
    assert_eq!(got, expected);
}

#[test]
fn emit_if_elseif_else() {
    let got = compile("LET X = 1\nIF X THEN\nLET Z = 1\nELSEIF ! X THEN\nLET Z = 2\nELSE\nLET Z = -3\nENDIF\n");
    let expected = "#include <stdio.h>\n\nint main(void) {\nfloat X = (1);\nif ((X)) {\nfloat Z = (1);\n} else if ((!(X))) {\nZ = (2);\n} else {\nZ = (-(3));\n}\nreturn 0;\n}\n\n";
    assert_eq!(got, expected);
}

#[test]
fn emit_operators_as_written() {
    let got = compile("LET X = 1 && 2 || 3 != 4 <= 5\n");
    let expected = "#include <stdio.h>\n\nint main(void) {\nfloat X = (((1)&&(2))||(((3)!=(4))<=(5)));\nreturn 0;\n}\n\n";
    assert_eq!(got, expected);
}
