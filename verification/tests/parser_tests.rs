use pascal_rust::error::{Error, ErrorCode};
use pascal_rust::lexer::Lexer;
use pascal_rust::parser::{Decl, Expr, NodeRef, Parser, Stmt, Type};
use pascal_rust::utils::Pos;

fn parse_error(source: &str) -> Error {
    let lexer = Lexer::new(source);
    let parser = Parser::new(lexer);
    assert!(parser.is_ok());
    let tree = parser.unwrap().parse();
    assert!(tree.is_err());
    tree.unwrap_err()
}

fn assert_parser_error(err: Error, code: ErrorCode, row: u32, col: u32) {
    match err {
        Error::ParserError { error_code, pos: Pos { row: r, col: c }, .. } => {
            assert_eq!(error_code, code);
            assert_eq!((r, c), (row, col));
        },
        other => panic!("expected a parser error, got {:?}", other),
    }
}

#[test]
fn test_unexpected_id() {
    assert_parser_error(parse_error("."), ErrorCode::UnexpectedToken, 1, 2);
}

#[test]
fn test_expected_id_got() {
    assert_parser_error(parse_error("PROGRAM 3 BEGIN END."), ErrorCode::UnexpectedToken, 1, 9);
}

#[test]
fn test_unexpected_factor() {
    assert_parser_error(parse_error("PROGRAM n; BEGIN a := 10 + IF; END."), ErrorCode::UnexpectedToken, 1, 28);
}

#[test]
fn test_unkown_literal() {
    assert_parser_error(
        parse_error("PROGRAM n; var a: integer = for; BEGIN END."),
        ErrorCode::UnkownLiteral,
        1,
        29,
    );
}

#[test]
fn empty_program_parses_to_program_block_compound() {
    let source = "PROGRAM empty; BEGIN END.";
    let tree = Parser::new(Lexer::new(source)).unwrap().parse().unwrap();
    match tree.stmt_pool.get(tree.program) {
        Stmt::Program { name, block } => {
            assert_eq!(name.lexem(source), "empty");
            match tree.stmt_pool.get(*block) {
                Stmt::Block { declarations, statements } => {
                    assert!(declarations.is_empty());
                    match tree.stmt_pool.get(*statements) {
                        Stmt::Compound(stmts) => {
                            assert_eq!(stmts.len(), 1);
                            assert!(matches!(tree.stmt_pool.get(stmts[0]), Stmt::NoOp));
                        },
                        other => panic!("unexpected {:?}", other),
                    }
                },
                other => panic!("unexpected {:?}", other),
            }
        },
        other => panic!("unexpected {:?}", other),
    }
    let p = tree.node_pos(NodeRef::StmtRef(tree.program));
    assert_eq!((p.row, p.col), (1, 1));
}

#[test]
fn binary_operators_follow_precedence() {
    let source = "PROGRAM p; BEGIN a := 1 + 2 * 3 END.";
    let tree = Parser::new(Lexer::new(source)).unwrap().parse().unwrap();
    let mut found = false;
    for id in tree.stmt_pool.ids() {
        if let Stmt::Assign { right, .. } = tree.stmt_pool.get(id) {
            found = true;
            match tree.expr_pool.get(*right) {
                Expr::BinOp { op, left, right } => {
                    assert_eq!(format!("{:?}", op), "Plus");
                    assert!(matches!(tree.expr_pool.get(*left), Expr::LiteralInteger(1)));
                    assert!(matches!(tree.expr_pool.get(*right), Expr::BinOp { .. }));
                },
                other => panic!("unexpected {:?}", other),
            }
        }
    }
    assert!(found);
}

#[test]
fn declarations_are_collected_in_order() {
    let source = "PROGRAM p;\nconst c = 3;\ntype t = integer;\nvar a, b: integer = 5;\nprocedure q(x: integer); begin end;\nBEGIN END.";
    let tree = Parser::new(Lexer::new(source)).unwrap().parse().unwrap();
    let block = match tree.stmt_pool.get(tree.program) {
        Stmt::Program { block, .. } => *block,
        _ => panic!("no program"),
    };
    match tree.stmt_pool.get(block) {
        Stmt::Block { declarations, .. } => {
            assert_eq!(declarations.len(), 5);
            assert!(matches!(declarations[0], Decl::ConstDecl { .. }));
            assert!(matches!(declarations[1], Decl::TypeDecl { .. }));
            assert!(matches!(declarations[2], Decl::VarDecl { default_value: Some(_), .. }));
            assert!(matches!(declarations[3], Decl::VarDecl { .. }));
            match &declarations[4] {
                Decl::Callable { name, params, return_type, .. } => {
                    assert_eq!(name.lexem(source), "q");
                    assert_eq!(params.len(), 1);
                    assert!(return_type.is_none());
                },
                other => panic!("unexpected {:?}", other),
            }
            if let Decl::TypeDecl { type_node, .. } = &declarations[1] {
                assert!(matches!(tree.type_pool.get(*type_node), Type::Integer));
            }
        },
        other => panic!("unexpected {:?}", other),
    }
}

#[test]
fn node_position_counts_rows_and_columns() {
    let source = "PROGRAM p;\nBEGIN\n  x := 1\nEND.";
    let tree = Parser::new(Lexer::new(source)).unwrap().parse().unwrap();
    for id in tree.stmt_pool.ids() {
        if let Stmt::Assign { .. } = tree.stmt_pool.get(id) {
            let p = tree.node_pos(NodeRef::StmtRef(id));
            assert_eq!((p.row, p.col), (3, 3));
        }
    }
}

#[test]
fn missing_program_keyword_is_reported_at_first_token() {
    assert_parser_error(parse_error("BEGIN END."), ErrorCode::UnexpectedToken, 1, 1);
}

fn message(err: Error) -> String {
    match err {
        Error::ParserError { msg, .. } => msg,
        other => panic!("expected a parser error, got {:?}", other),
    }
}

#[test]
fn messages_name_the_offending_token() {
    let m = message(parse_error("BEGIN END."));
    assert!(m.starts_with("expected token Program, got Token {"), "{m}");
    assert!(m.contains("Begin"), "{m}");
    let m = message(parse_error("PROGRAM 3 BEGIN END."));
    assert!(m.starts_with("expected id, got Token {"), "{m}");
    let m = message(parse_error("PROGRAM n; BEGIN a := 10 + IF; END."));
    assert!(m.starts_with("unexpected factor Token {"), "{m}");
    let m = message(parse_error("PROGRAM n; var a: integer = for; BEGIN END."));
    assert!(m.starts_with("unkown literal Token {"), "{m}");
}
