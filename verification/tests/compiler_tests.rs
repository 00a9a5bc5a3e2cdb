use pascal_rust::asm_text::asm_text;
use pascal_rust::compiler::{optimize_commands, AsmLine, Command, Compiler, Operand, Register};
use pascal_rust::error::Error;
use pascal_rust::lexer::Lexer;
use pascal_rust::parser::{Parser, Tree};
use pascal_rust::semantic_analyzer::{check_shapes, SemanticAnalyzer, SemanticMetadata};

fn tree_of(source: &str) -> Tree<'_> {
    let tree = Parser::new(Lexer::new(source)).unwrap().parse().unwrap();
    assert!(check_shapes(&tree));
    tree
}

fn metadata(tree: &Tree) -> SemanticMetadata {
    SemanticAnalyzer::new().analyze(tree).expect("program is well typed")
}

fn compile_text(source: &str) -> Result<String, Error> {
    let tree = tree_of(source);
    let md = metadata(&tree);
    let lines = Compiler::new()?.compile(&tree, &md)?;
    Ok(asm_text(&lines).expect("every line has a text"))
}

#[test]
fn compiles_an_assignment_and_a_call() {
    let text = compile_text("program p;\nvar a: integer;\nbegin\n  a := 1 + 2;\n  writeln(a)\nend.").unwrap();
    let expected = [
        "section .data",
        "",
        "section .bss",
        "a resd 1",
        "",
        "section .text",
        "global main",
        "extern std.error.div0_error",
        "extern std.error.index_out_of_bounds_error",
        "extern std.io.write",
        "extern std.io.writeln",
        "",
        "; main entry point",
        "main:",
        "; block",
        "push rbp",
        "mov rbp, rsp",
        "sub rsp, 32",
        "mov rax, 1",
        "push rax",
        "mov rax, 2",
        "mov rbx, rax",
        "pop rax",
        "movsx eax, eax",
        "add eax, ebx",
        "mov dword [rel a], eax",
        "mov eax, dword [rel a]",
        "mov rcx, rax",
        "movsx rcx, ecx",
        "call std.io.writeln",
        "xor eax, eax",
        "add rsp, 32",
        "leave",
        "ret",
        "; end block",
    ];
    assert_eq!(text, expected.join("\n") + "\n");
}

#[test]
fn initialised_globals_go_to_the_data_section() {
    let text = compile_text("program p;\nvar a: integer = -5; b: boolean = true;\nbegin\nend.").unwrap();
    let lines: Vec<&str> = text.lines().collect();
    assert_eq!(lines[0], "section .data");
    assert_eq!(lines[1], "a dd -5");
    assert_eq!(lines[2], "b db 1");
    assert_eq!(lines[3], "");
    assert_eq!(lines[4], "section .bss");
}

#[test]
fn loops_get_fresh_labels() {
    let text = compile_text(
        "program p;\nvar i: integer;\nbegin\n  i := 0;\n  while i < 3 do i := i + 1;\n  while i > 0 do i := i - 1\nend.",
    )
    .unwrap();
    let labels: Vec<&str> = text.lines().filter(|l| l.ends_with(':')).collect();
    assert_eq!(labels, vec!["main:", ".L0_while:", ".L1_endwhile:", ".L2_while:", ".L3_endwhile:"]);
    assert!(text.contains("jmp .L0_while\n"));
    assert!(text.contains("je .L3_endwhile\n"));
}

#[test]
fn functions_get_their_own_frame() {
    let text = compile_text(
        "program p;\nvar r: integer;\nfunction twice(x: integer): integer;\nbegin\n  result := x * 2\nend;\nbegin\n  r := twice(4)\nend.",
    )
    .unwrap();
    assert!(text.contains("; twice function entry point\ntwice:\n; block\npush rbp\nmov rbp, rsp\nsub rsp, 48\n"));
    assert!(text.contains("mov dword [rbp - 8], ecx\n"));
    assert!(text.contains("call twice\n"));
    assert!(text.contains("mov eax, dword [rbp - 4]\nleave\nret\n; end block\n"));
}

#[test]
fn division_checks_for_zero() {
    let text = compile_text("program p;\nvar a: integer;\nbegin\n  a := 7 / 2\nend.").unwrap();
    assert!(text.contains("cdq\ntest rbx, rbx\njz std.error.div0_error\nidiv ebx\n"));
}

#[test]
fn comparison_sets_al() {
    let text = compile_text("program p;\nvar b: boolean;\nbegin\n  b := 1 < 2\nend.").unwrap();
    assert!(text.contains("cmp eax, ebx\nsetl al\n"));
}

#[test]
fn real_literals_are_not_compiled() {
    let tree = tree_of("program p;\nvar r: real;\nbegin\n  r := 1.5\nend.");
    let md = metadata(&tree);
    let result = Compiler::new().unwrap().compile(&tree, &md);
    assert!(matches!(result, Err(Error::CompileError { .. })));
}

#[test]
fn peephole_turns_push_pop_into_mov() {
    let commands = vec![
        Command::Push(Operand::Register(Register::Rax)),
        Command::Pop(Operand::Register(Register::Rbx)),
        Command::Push(Operand::Register(Register::Rcx)),
        Command::Pop(Operand::Register(Register::Rcx)),
        Command::Ret,
    ];
    let out = optimize_commands(&commands);
    assert_eq!(out.len(), 2);
    assert!(matches!(
        &out[0],
        Command::Mov { dst: Operand::Register(Register::Rbx), src: Operand::Register(Register::Rax) }
    ));
    assert!(matches!(&out[1], Command::Ret));
}

#[test]
fn lines_render_in_nasm_syntax() {
    let lines = vec![
        AsmLine::Directive("section .text".to_string()),
        AsmLine::External("f".to_string()),
        AsmLine::Label("main".to_string()),
        AsmLine::Comment("hi".to_string()),
        AsmLine::Newline,
        AsmLine::Command(Command::Mov {
            dst: Operand::Register(Register::Rax),
            src: Operand::Register(Register::Integer(-3)),
        }),
    ];
    assert_eq!(asm_text(&lines).unwrap(), "section .text\nextern f\nmain:\n; hi\n\nmov rax, -3\n");
}

#[test]
fn peephole_keeps_the_stack_balance() {
    let commands = vec![
        Command::Push(Operand::Register(Register::Rax)),
        Command::Push(Operand::Register(Register::Rbx)),
        Command::Pop(Operand::Register(Register::Rcx)),
        Command::Pop(Operand::Register(Register::Rdx)),
        Command::Push(Operand::Register(Register::Rax)),
        Command::Ret,
    ];
    let balance = |cs: &Vec<Command>| -> i32 {
        cs.iter()
            .map(|c| match c {
                Command::Push(_) => 1,
                Command::Pop(_) => -1,
                _ => 0,
            })
            .sum()
    };
    let out = optimize_commands(&commands);
    assert_eq!(balance(&out), balance(&commands));
    assert_eq!(out.len(), 4);
}

#[test]
fn straight_line_integer_programs_compile() {
    let text = compile_text("program p;\nvar a: integer; b: integer;\nbegin\n  a := 6;\n  b := a * 2 - 3;\n  a := b / a\nend.")
        .unwrap();
    assert!(text.starts_with("section .data\n\nsection .bss\na resd 1\nb resd 1\n"));
    assert!(text.contains("mov dword [rel b], eax\n"));
    assert!(text.contains("imul eax, ebx\n"));
    assert!(text.ends_with("xor eax, eax\nadd rsp, 32\nleave\nret\n; end block\n"));
}

#[test]
fn integer_loops_and_conditionals_compile() {
    let text = compile_text(
        "program p;\nvar a: integer; b: integer;\nbegin\n  a := 0;\n  b := 1;\n  while a < 10 do\n  begin\n    a := a + 1;\n    if a = 5 then b := b * 2 else b := b + 1\n  end\nend.",
    )
    .unwrap();
    assert!(text.contains(".L0_while:\n"));
    assert!(text.contains("jmp .L0_while\n"));
    assert!(text.contains(".L1_endwhile:\n"));
    assert!(text.contains("setl al\n"));
    assert!(text.contains("sete al\n"));
    assert!(text.contains(".L2_else:\n"));
    assert!(text.contains(".L3_endif:\n"));
    assert!(text.ends_with("xor eax, eax\nadd rsp, 32\nleave\nret\n; end block\n"));
}

#[test]
fn subtraction_takes_the_right_operand_from_the_left() {
    let text = compile_text("program p;\nvar a: integer;\nbegin\n  a := 7 - 2\nend.").unwrap();
    assert!(text.contains("sub eax, ebx\n"), "{text}");
    assert!(!text.contains("sub ebx, eax"), "{text}");
}

#[test]
fn array_indexing_checks_the_bounds() {
    let text = compile_text("program p;\nvar v: array [2..5] of integer; a: integer;\nbegin\n  a := v[3]\nend.").unwrap();
    assert!(text.contains("jl std.error.index_out_of_bounds_error\n"), "{text}");
    assert!(text.contains("jg std.error.index_out_of_bounds_error\n"), "{text}");
    assert!(text.contains(", 2\njl std.error.index_out_of_bounds_error\n"), "{text}");
    assert!(text.contains(", 5\njg std.error.index_out_of_bounds_error\n"), "{text}");
}
