use pascal_rust::error::Error;
use pascal_rust::front_end::front_end;
use pascal_rust::parser::Stmt;
use pascal_rust::semantic_analyzer::check_shapes;

#[test]
fn front_end_gives_a_well_shaped_analysed_tree() {
    let source = "program p;\nvar a: integer;\nbegin\n  a := 1 + 2;\n  writeln(a)\nend.";
    let (tree, md) = front_end(source).expect("the program is accepted");
    assert!(check_shapes(&tree));
    assert!(matches!(tree.stmt_pool.get(tree.program), Stmt::Program { .. }));
    for id in tree.expr_pool.ids() {
        assert!(md.get_expr_type(&id).is_some());
    }
}

#[test]
fn front_end_stops_at_the_parser() {
    match front_end("begin end.") {
        Err(Error::ParserError { .. }) => {},
        other => panic!("expected a parser error, got {:?}", other.err()),
    }
}

#[test]
fn front_end_stops_at_the_analysis() {
    match front_end("program p;\nbegin\n  x := 1\nend.") {
        Err(Error::SemanticError { .. }) | Err(Error::Errors(_)) => {},
        other => panic!("expected a semantic error, got {:?}", other.err()),
    }
}
