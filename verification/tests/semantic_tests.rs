use pascal_rust::error::{Error, ErrorCode, Errors};
use pascal_rust::lexer::Lexer;
use pascal_rust::parser::{Expr, Parser, Tree};
use pascal_rust::semantic_analyzer::{analyze_function, check_shapes, SemanticAnalyzer, SemanticMetadata};
use pascal_rust::symbols::TypeSymbol;

fn tree_of(source: &str) -> Tree<'_> {
    let tree = Parser::new(Lexer::new(source)).unwrap().parse().unwrap();
    assert!(check_shapes(&tree));
    tree
}

fn analyze(tree: &Tree) -> Result<SemanticMetadata, Error> {
    SemanticAnalyzer::new().analyze(tree)
}

fn codes(err: Error) -> Vec<ErrorCode> {
    let errs = Errors::from_error(err);
    let mut out = Vec::new();
    for i in 0..errs.len() {
        match errs.get(i) {
            Error::SemanticError { error_code, .. } => out.push(*error_code),
            other => panic!("not a semantic error: {:?}", other),
        }
    }
    out
}

fn fails_with(source: &str, expected: &[ErrorCode]) {
    let tree = tree_of(source);
    let result = analyze(&tree);
    assert!(result.is_err(), "expected errors for {source}");
    assert_eq!(codes(result.err().unwrap()), expected.to_vec());
}

fn expr_type<'m>(md: &'m SemanticMetadata, tree: &Tree, pred: impl Fn(&Expr) -> bool) -> &'m TypeSymbol {
    for id in tree.expr_pool.ids() {
        if pred(tree.expr_pool.get(id)) {
            return md.get_expr_type(&id).expect("expression has a type");
        }
    }
    panic!("no such expression");
}

#[test]
fn well_typed_program_gives_every_expression_a_type() {
    let source = "program p;\nvar a: integer; r: real; s: string;\nfunction f(x: integer): integer;\nbegin\n  f := x * 2\nend;\nbegin\n  a := f(3) + 1;\n  r := a / 2;\n  s := 'ab' + 'c';\n  if a > 1 then a := 0 else a := 1;\n  while a < 10 do a := a + 1;\n  writeln(a, s)\nend.";
    let tree = tree_of(source);
    let md = analyze(&tree).expect("program is well typed");
    for id in tree.expr_pool.ids() {
        assert!(md.get_expr_type(&id).is_some(), "untyped {:?}", tree.expr_pool.get(id));
    }
    let call = expr_type(&md, &tree, |e| matches!(e, Expr::Call { .. }));
    assert!(matches!(call, TypeSymbol::Integer));
    let real_div = expr_type(&md, &tree, |e| matches!(e, Expr::BinOp { op, .. } if format!("{:?}", op) == "IntegerDiv"));
    assert!(matches!(real_div, TypeSymbol::Integer));
    let concat = expr_type(&md, &tree, |e| matches!(e, Expr::BinOp { op, .. } if format!("{:?}", op) == "Plus") );
    assert!(matches!(concat, TypeSymbol::Integer | TypeSymbol::String));
}

#[test]
fn arrays_ranges_and_enums_get_their_type_symbols() {
    let source = "program p;\ntype color = (red, green, blue);\nvar a: array [1..3] of integer; d: array of char; c: color;\nbegin\n  a[2] := 5;\n  d[1] := 'x';\n  c := green\nend.";
    let tree = tree_of(source);
    let md = analyze(&tree).expect("program is well typed");
    let index = expr_type(&md, &tree, |e| matches!(e, Expr::Index { .. }));
    assert!(matches!(index, TypeSymbol::Integer | TypeSymbol::Char));
    let mut found_array = false;
    let mut found_dynamic = false;
    for i in 0..md.types.len() {
        match md.types.get(i.into()) {
            TypeSymbol::Array { start_ord_index, end_ord_index, .. } => {
                assert_eq!((*start_ord_index, *end_ord_index), (1, 3));
                found_array = true;
            },
            TypeSymbol::DynamicArray(_) => found_dynamic = true,
            _ => {},
        }
    }
    assert!(found_array && found_dynamic);
}

#[test]
fn break_and_continue_outside_loops() {
    fails_with(
        "program p; begin break; continue; while true do break end.",
        &[ErrorCode::BreakOutsideLoop, ErrorCode::ContinueOutsideLoop],
    );
}

#[test]
fn assignment_errors() {
    fails_with(
        "program p;\nconst c = 1;\nvar a: integer;\nbegin\n  a := 'xy';\n  c := 2\nend.",
        &[ErrorCode::AssignmentError, ErrorCode::AssignmentError],
    );
}

#[test]
fn conditions_must_be_boolean() {
    fails_with(
        "program p; var a: integer; begin while a do a := 1; if 1 then a := 2 end.",
        &[ErrorCode::ConditionNotBoolean, ErrorCode::ConditionNotBoolean],
    );
}

#[test]
fn for_loop_checks() {
    fails_with(
        "program p; const k = 1; var i: integer; begin for x := 1 to 2 do i := 1; for k := 1 to 2 do i := 1; for i := 1 to 'a' do i := 1 end.",
        &[ErrorCode::UnkownVariable, ErrorCode::ExpectedVar, ErrorCode::IncompatibleTypes],
    );
}

#[test]
fn unknown_variable() {
    fails_with("program p; begin a := 1 end.", &[ErrorCode::UnkownVariable]);
}

#[test]
fn operator_errors() {
    fails_with(
        "program p; var a: integer; b: boolean; begin a := 'a' - 1; b := true + 1; a := -true; b := not 1 end.",
        &[
            ErrorCode::UnsupportedBinaryOperation,
            ErrorCode::UnsupportedBinaryOperation,
            ErrorCode::UnsupportedUnaryOperator,
            ErrorCode::UnsupportedUnaryOperator,
        ],
    );
}

#[test]
fn procedure_used_as_value() {
    fails_with(
        "program p; var a: integer; procedure q; begin end; begin a := q() end.",
        &[ErrorCode::IncorrectUseOfProcedure],
    );
}

#[test]
fn index_errors() {
    fails_with(
        "program p; var a: array [1..3] of integer; d: array of integer; i: integer; begin i := a['x']; i := d['y']; i := i[1] end.",
        &[ErrorCode::IncorrectIndexType, ErrorCode::IncorrectIndexType, ErrorCode::IncorrectBaseType],
    );
}

#[test]
fn type_errors() {
    fails_with("program p; var a: missing; begin end.", &[ErrorCode::UnkownType]);
    fails_with("program p; type r = 1..'c'; begin end.", &[ErrorCode::IncompatibleTypes]);
    fails_with("program p; type r = 1.5..2.5; begin end.", &[ErrorCode::RangeLimitsNotOrdinal]);
}

#[test]
fn range_bound_that_is_not_a_literal() {
    fails_with("program p; const n = 3; type r = 1..n; begin end.", &[ErrorCode::ExpectedLiteral]);
}

#[test]
fn function_that_may_not_return() {
    fails_with(
        "program p;\nfunction f: integer; begin end;\nfunction g(x: integer): integer; begin if x > 1 then g := 1 end;\nbegin end.",
        &[ErrorCode::FunctionMayNotReturn, ErrorCode::FunctionMayNotReturn],
    );
}

#[test]
fn exit_without_value_before_result() {
    fails_with(
        "program p; function f: integer; begin exit end; begin end.",
        &[ErrorCode::FunctionMayNotReturn],
    );
}

#[test]
fn duplicate_definitions() {
    fails_with(
        "program p; type t = integer; t = real; var a: integer; a: real; begin end.",
        &[ErrorCode::DuplicateTypeDefinition, ErrorCode::DuplicateVarDefinition],
    );
}

#[test]
fn default_value_of_wrong_type() {
    fails_with("program p; var a: integer = 'x'; begin end.", &[ErrorCode::IncorrectType]);
}

#[test]
fn call_errors() {
    fails_with(
        "program p; var s: string; procedure q(x: integer); begin end; begin nope(1); q(1, 2); readln(s, s); q('a') end.",
        &[
            ErrorCode::UnkownCallable,
            ErrorCode::IncorrectNumberOfArguments,
            ErrorCode::IncorrectNumberOfArguments,
            ErrorCode::IncorrectType,
        ],
    );
}

#[test]
fn out_parameters_need_the_same_type() {
    fails_with("program p; var a: integer; begin readln(a) end.", &[ErrorCode::IncorrectType]);
}

#[test]
fn write_takes_any_number_of_values() {
    let tree = tree_of("program p; begin write(1, 'a', true); write() end.");
    assert!(analyze(&tree).is_ok());
}

#[test]
fn result_assigned_in_every_branch() {
    let source = "program p; function f(x: integer): integer; begin if x > 1 then result := 1 else f := 2 end; begin end.";
    let tree = tree_of(source);
    assert!(analyze(&tree).is_ok());
}

#[test]
fn analysis_of_a_function_body() {
    let source = "program p; function f: integer; begin if true then exit(1); f := 2 end; begin end.";
    let tree = tree_of(source);
    let mut body = None;
    for id in tree.stmt_pool.ids() {
        if let pascal_rust::parser::Stmt::Compound(v) = tree.stmt_pool.get(id) {
            if v.len() == 2 && body.is_none() {
                body = Some(id);
            }
        }
    }
    let r = analyze_function(&tree, "f", body.unwrap(), false).unwrap();
    assert_eq!(r, (true, true));
    let r = analyze_function(&tree, "g", body.unwrap(), false).unwrap();
    assert_eq!(r, (false, true));
}

#[test]
fn typed_expressions_follow_the_operator_table() {
    let source = "program p;\nvar a: integer; b: boolean; c: char;\nbegin\n  a := 1 + 2 * 3;\n  b := (a < 4) and not (a = 5);\n  c := 'x'\nend.";
    let tree = tree_of(source);
    let md = analyze(&tree).expect("program is well typed");
    for id in tree.expr_pool.ids() {
        let t = md.get_expr_type(&id).expect("every expression has a type");
        match tree.expr_pool.get(id) {
            Expr::LiteralInteger(_) => assert!(matches!(t, TypeSymbol::Integer)),
            Expr::LiteralChar(_) => assert!(matches!(t, TypeSymbol::Char)),
            Expr::BinOp { op, .. } => {
                let name = format!("{:?}", op);
                if name == "LessThen" || name == "Equal" || name == "And" {
                    assert!(matches!(t, TypeSymbol::Boolean), "{name}");
                }
                if name == "Plus" || name == "Mul" {
                    assert!(matches!(t, TypeSymbol::Integer), "{name}");
                }
            },
            Expr::UnaryOp { .. } => assert!(matches!(t, TypeSymbol::Boolean)),
            _ => {},
        }
    }
}

#[test]
fn names_are_looked_up_without_regard_to_case() {
    let tree = tree_of("program p;\nvar Count: integer;\nbegin\n  COUNT := 1;\n  count := Count + 1\nend.");
    assert!(analyze(&tree).is_ok());
}

#[test]
fn integer_programs_over_declared_variables_are_accepted() {
    let tree = tree_of(
        "program p;\nvar i: integer; total: integer;\nbegin\n  i := 0;\n  total := 0;\n  while i < 10 do\n  begin\n    i := i + 1;\n    if i = 5 then total := total * 2 else total := total + i div 2\n  end\nend.",
    );
    let md = analyze(&tree).expect("the program is accepted");
    for id in tree.expr_pool.ids() {
        assert!(md.get_expr_type(&id).is_some());
    }
}

#[test]
fn operator_messages_name_the_operand_types() {
    let tree = tree_of("program p; var b: boolean; begin b := true + 1 end.");
    match analyze(&tree) {
        Err(Error::SemanticError { msg, .. }) => assert_eq!(msg, "+ is not supported for Boolean and Integer"),
        other => panic!("expected one semantic error, got {:?}", other.err()),
    }
}

#[test]
fn operator_type_follows_operand_types() {
    let source = "program p;\nvar a: integer; r: real; b: boolean;\nbegin\n  r := a * 2.5;\n  b := a = 1;\n  a := a - 1\nend.";
    let tree = tree_of(source);
    let md = analyze(&tree).expect("program is well typed");
    let mul = expr_type(&md, &tree, |e| matches!(e, Expr::BinOp { op, .. } if format!("{:?}", op) == "Mul"));
    assert!(matches!(mul, TypeSymbol::Real));
    let eq = expr_type(&md, &tree, |e| matches!(e, Expr::BinOp { op, .. } if format!("{:?}", op) == "Equal"));
    assert!(matches!(eq, TypeSymbol::Boolean));
    let minus = expr_type(&md, &tree, |e| matches!(e, Expr::BinOp { op, .. } if format!("{:?}", op) == "Minus"));
    assert!(matches!(minus, TypeSymbol::Integer));
}

#[test]
fn break_and_continue_in_a_block_are_reported_in_order() {
    fails_with(
        "program p;\nbegin\n  continue;\n  break;\n  continue\nend.",
        &[ErrorCode::ContinueOutsideLoop, ErrorCode::BreakOutsideLoop, ErrorCode::ContinueOutsideLoop],
    );
}

#[test]
fn break_after_a_failed_loop_body_is_not_reported() {
    fails_with(
        "program p;\nvar a: integer;\nbegin\n  while true do a := 'x';\n  break\nend.",
        &[ErrorCode::AssignmentError],
    );
}

#[test]
fn a_declared_procedure_has_its_parameters_in_order() {
    let source = "program p;\nvar a: integer;\nprocedure q(x: integer; out y: integer);\nbegin\n  y := x\nend;\nbegin\n  q(1, a)\nend.";
    let tree = tree_of(source);
    let md = analyze(&tree).expect("program is well typed");
    let mut found = false;
    for id in tree.expr_pool.ids() {
        if let Expr::Call { .. } = tree.expr_pool.get(id) {
            let c = md.get_callable_symbol(&id).expect("call is resolved");
            assert_eq!(c.params.len(), 2);
            let first = md.vars.get(c.params[0]);
            let second = md.vars.get(c.params[1]);
            assert!(format!("{:?}", first).contains("Val"), "{:?}", first);
            assert!(format!("{:?}", second).contains("Ref"), "{:?}", second);
            found = true;
        }
    }
    assert!(found);
}
