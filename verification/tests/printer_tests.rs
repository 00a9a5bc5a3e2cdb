use pascal_rust::lexer::Lexer;
use pascal_rust::parser::{lexes_without_fault, Parser};

#[test]
fn tree_text_of_a_small_program() {
    let source = "program p;\nbegin\n  x := 1\nend.";
    let tree = Parser::new(Lexer::new(source)).unwrap().parse().unwrap();
    assert_eq!(tree.to_string(), "Program p\n\nBegin\n  Assign\n    Var(x)\n    LitInt(1)");
}

#[test]
fn tree_text_of_declarations_and_control_flow() {
    let source = "program p;\nvar a: integer;\nbegin\n  if a > 1 then a := 0 else a := 1;\n  while true do break\nend.";
    let tree = Parser::new(Lexer::new(source)).unwrap().parse().unwrap();
    let expected = [
        "Program p",
        "Var",
        "  Var(a)",
        "    Type(Integer)",
        "Begin",
        "  If",
        "    BinOp",
        "      Var(a)",
        "      GreaterThen",
        "      LitInt(1)",
        "  Then",
        "    Assign",
        "      Var(a)",
        "      LitInt(0)",
        "  Else",
        "    Assign",
        "      Var(a)",
        "      LitInt(1)",
        "  While",
        "    LitBool(true)",
        "  Do",
        "    Break",
    ];
    assert_eq!(tree.to_string(), expected.join("\n"));
}

#[test]
fn lexing_faults_are_found_before_parsing() {
    assert!(lexes_without_fault("program p; begin end."));
    assert!(lexes_without_fault("program p; begin x := ? end."));
    assert!(!lexes_without_fault(""));
    assert!(!lexes_without_fault("x := '"));
    assert!(!lexes_without_fault("x := 99999999999999999999"));
}
