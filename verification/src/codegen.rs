use vstd::prelude::*;
use crate::compiler::{
    cmd_stack_effect, command_lines, lines_extend, law_peephole_keeps_code_without_push, offset_of, peephole, lemma_stack_effect_push, lemma_vars_fit_push, stack_effect,
    spec_to_size, vars_fit, vars_bytes, ActivationRecord, AsmLine,
    Assambler, CallStack, Command, GlobalMemory, IndexMemory, Memory, Operand, Register, StackMemory,
};
use crate::error::{decimal, digit_char, push_decimal, Error};
use crate::parser::{expr_node_ok, stmt_node_ok, decl_ok, param_ok, cond_ok, Condition, Decl, Expr, Param, Stmt, Tree};
use crate::refs::{ExprRef, StmtRef, TypeSymbolRef, VarSymbolRef};
use crate::semantic_analyzer::{callable_ok, size_of, SemanticMetadata};
use crate::symbols::{type_refs_below, ConstValue, TypeSymbol, VarLocality, VarPassMode, VarSymbol};
use crate::tokens::{Token, TokenType};
use crate::utils::{str_equal, PoolRef, Size};

verus! {

/// Routine that reports a division by zero at run time.
pub const STD_DIV0_ERROR: &'static str = "std.error.div0_error";

/// Routine that reports an array index out of its bounds at run time.
pub const STD_ARR_INDEX_OUT_OF_BOUNDS_ERROR: &'static str = "std.error.index_out_of_bounds_error";

// ---------------------------------------------------------------------------
// Stack discipline of the generated code
// ---------------------------------------------------------------------------

/// `new` is `old` followed by commands that leave `e` more values on the
/// stack, counted from any point of `old`.
pub open spec fn adds_effect<'a>(new: Seq<Command<'a>>, old: Seq<Command<'a>>, e: int) -> bool {
    &&& old.len() <= new.len()
    &&& forall|i: int| 0 <= i < old.len() ==> #[trigger] new[i] == old[i]
    &&& forall|k: int| 0 <= k <= old.len() ==> #[trigger] stack_effect(new.skip(k)) == stack_effect(old.skip(k)) + e
}

broadcast use {vstd::std_specs::hash::group_hash_axioms, lemma_stack_effect_push};

// ---------------------------------------------------------------------------
// Small helpers
// ---------------------------------------------------------------------------

fn codegen_error(msg: &str) -> (e: Error)
    ensures
        e is CompileError,
{
    Error::CompileError { msg: String::from_str(msg) }
}

/// The part of `r` that holds a value of `size`, where there is one.
fn try_to_size<'a>(r: Register<'a>, size: &Size) -> (res: Option<Register<'a>>)
    ensures
        res == spec_to_size(r, *size),
{
    match (r, size) {
        (Register::Integer(i), _) => Some(Register::Integer(i)),
        (Register::Variable(v), _) => Some(Register::Variable(v)),
        (Register::Rax, Size::S64bit) => Some(Register::Rax),
        (Register::Rax, Size::S8bit) => Some(Register::Al),
        (Register::Rax, Size::S32bit) => Some(Register::Eax),
        (Register::Rbx, Size::S64bit) => Some(Register::Rbx),
        (Register::Rbx, Size::S8bit) => Some(Register::Bl),
        (Register::Rbx, Size::S32bit) => Some(Register::Ebx),
        (Register::Rcx, Size::S32bit) => Some(Register::Ecx),
        (Register::Rdx, Size::S32bit) => Some(Register::Edx),
        (Register::Rcx, Size::S64bit) => Some(Register::Rcx),
        (Register::Rdx, Size::S64bit) => Some(Register::Rdx),
        (Register::Rdx, Size::S8bit) => Some(Register::Dl),
        (Register::R8, Size::S32bit) => Some(Register::R8d),
        (Register::Rcx, Size::S8bit) => Some(Register::Cl),
        (Register::R9, Size::S32bit) => Some(Register::R9d),
        _ => None,
    }
}

/// The part of `r` for `size`, or a compile error where the generator has none.
fn sized<'a>(r: Register<'a>, size: &Size) -> (res: Result<Register<'a>, Error>)
    ensures
        res matches Ok(x) ==> spec_to_size(r, *size) == Some(x),
        res matches Err(e) ==> e is CompileError && spec_to_size(r, *size) is None,
{
    match try_to_size(r, size) {
        Some(x) => Ok(x),
        None => Err(codegen_error("no register part of this size")),
    }
}

/// The bytes of `s`, or a compile error where they do not fit a `usize`.
fn size_bytes(s: &Size) -> (r: Result<usize, Error>)
    ensures
        r matches Ok(b) ==> s.bytes_fit() && b == s.spec_bytes(),
        r matches Err(e) ==> e is CompileError && !s.bytes_fit(),
{
    match s.try_bytes() {
        Some(b) => Ok(b),
        None => Err(codegen_error("size does not fit")),
    }
}

/// Sizes are ordered by their bytes: whether `a` is the larger.
fn size_gt(a: &Size, b: &Size) -> (r: Result<bool, Error>)
    ensures
        r matches Ok(x) ==> x == (a.spec_bytes() > b.spec_bytes()),
        r matches Err(e) ==> e is CompileError,
        a.bytes_fit() && b.bytes_fit() ==> r is Ok,
{
    let x = size_bytes(a)?;
    let y = size_bytes(b)?;
    Ok(x > y)
}

/// The larger of two sizes by bytes, `left` where they take the same.
fn size_max(right: &Size, left: &Size) -> (r: Result<Size, Error>)
    ensures
        r matches Ok(z) ==> z == (if right.spec_bytes() > left.spec_bytes() { *right } else { *left }),
        r matches Err(e) ==> e is CompileError,
        right.bytes_fit() && left.bytes_fit() ==> r is Ok,
{
    if size_gt(right, left)? {
        Ok(right.clone())
    } else {
        Ok(left.clone())
    }
}

proof fn lemma_type_in_pool(md: &SemanticMetadata, i: int)
    requires
        md.wf(),
        0 <= i < md.types.nodes().len(),
    ensures
        type_refs_below(md.types.nodes()[i], md.types.nodes().len() as int),
{
    assert(type_refs_below(md.types.nodes()[i], i));
}

/// Storage size of the type symbol `t` of the pool.
fn type_ref_size(md: &SemanticMetadata, t: TypeSymbolRef) -> (r: Result<Size, Error>)
    requires
        md.wf(),
        t.index_of() < md.types.nodes().len(),
    ensures
        r matches Ok(z) ==> size_of(md.types.nodes(), md.types.nodes()[t.index_of() as int]) == Some(z),
        r matches Err(e) ==> e is CompileError,
        size_of(md.types.nodes(), md.types.nodes()[t.index_of() as int]) is Some ==> r is Ok,
{
    proof {
        lemma_type_in_pool(md, t.index_of() as int);
    }
    match md.types.get(t).get_size(md) {
        Some(z) => Ok(z),
        None => Err(codegen_error("size is expected")),
    }
}

/// Storage size of the type of expression `e`.
fn expr_size(md: &SemanticMetadata, e: ExprRef) -> (r: Result<Size, Error>)
    requires
        md.wf(),
    ensures
        r matches Ok(z) ==> md.expr_type_map@.contains_key(e.index_of() as usize) && size_of(
            md.types.nodes(),
            md.types.nodes()[md.expr_type_map@[e.index_of() as usize].index_of() as int],
        ) == Some(z),
        r matches Err(e) ==> e is CompileError,
        expr_is_integer(md, e.index_of() as int) ==> r == Ok::<Size, Error>(Size::S32bit),
{
    match md.expr_type_map.get(&e.to_index()) {
        Some(t) => type_ref_size(md, *t),
        None => Err(codegen_error("expression has no type")),
    }
}

/// Name of the variable expression `e`.
fn var_name<'a>(tree: &Tree<'a>, e: ExprRef) -> (r: Result<&'a str, Error>)
    requires
        tree.wf(),
        e.index_of() < tree.expr_pool.nodes().len(),
    ensures
        r matches Ok(s) ==> tree.expr_pool.nodes()[e.index_of() as int] matches Expr::Var { name } && s@
            == tree.source_code@.subrange(
            name.spec_span().spec_start() as int,
            name.spec_span().spec_end(),
        ),
        r matches Err(e) ==> e is CompileError,
        tree.expr_pool.nodes()[e.index_of() as int] is Var ==> r is Ok,
{
    match tree.expr_pool.get(e) {
        Expr::Var { name } => Ok(token_text(tree, name)),
        _ => Err(codegen_error("a variable is expected")),
    }
}

fn token_text<'a>(tree: &Tree<'a>, t: &Token) -> (r: &'a str)
    requires
        t.spec_span().spec_end() <= tree.source_code@.len(),
        tree.source_code@.len() <= 0x7fff_fff0,
    ensures
        r@ == tree.source_code@.subrange(t.spec_span().spec_start() as int, t.spec_span().spec_end()),
{
    t.lexem(tree.source_code)
}

/// Appends the decimal text of `i`, with a minus sign if it is negative.
pub(crate) fn push_int(s: &mut String, i: i64)
    ensures
        final(s)@ == old(s)@ + (if i < 0 { seq!['-'] + decimal((-i) as nat) } else { decimal(i as nat) }),
{
    if i < 0 {
        proof {
            reveal_strlit("-");
        }
        s.append("-");
        let m: u64 = if i == i64::MIN {
            0x8000_0000_0000_0000u64
        } else {
            (-i) as u64
        };
        push_decimal(s, m);
    } else {
        push_decimal(s, i as u64);
    }
}

/// The data-section value of a literal: an integer in decimal, a boolean as
/// one or zero, a character as its code.
fn literal_text(tree: &Tree, e: ExprRef) -> (r: Result<String, Error>)
    requires
        tree.wf(),
        e.index_of() < tree.expr_pool.nodes().len(),
    ensures
        r matches Ok(s) ==> match tree.expr_pool.nodes()[e.index_of() as int] {
            Expr::LiteralInteger(i) => s@ == (if i < 0 { seq!['-'] + decimal((-i) as nat) } else { decimal(i as nat) }),
            Expr::LiteralBool(b) => s@ == (if b { decimal(1) } else { decimal(0) }),
            Expr::LiteralChar(c) => s@ == decimal(c as nat),
            _ => false,
        },
        r matches Err(e) ==> e is CompileError,
{
    let mut s = String::new();
    match tree.expr_pool.get(e) {
        Expr::LiteralInteger(i) => {
            push_int(&mut s, *i as i64);
            Ok(s)
        },
        Expr::LiteralBool(b) => {
            push_decimal(&mut s, if *b { 1 } else { 0 });
            Ok(s)
        },
        Expr::LiteralChar(c) => {
            push_decimal(&mut s, *c as u64);
            Ok(s)
        },
        _ => Err(codegen_error("a literal value is expected")),
    }
}

// ---------------------------------------------------------------------------
// Labels
// ---------------------------------------------------------------------------

proof fn lemma_decimal_digits(n: nat)
    ensures
        decimal(n).len() >= 1,
        n < 10 ==> decimal(n).len() == 1,
        n >= 10 ==> decimal(n).len() >= 2,
        forall|i: int| 0 <= i < decimal(n).len() ==> '0' <= #[trigger] decimal(n)[i] <= '9',
    decreases n,
{
    if n >= 10 {
        lemma_decimal_digits(n / 10);
        assert forall|i: int| 0 <= i < decimal(n).len() implies '0' <= #[trigger] decimal(n)[i] <= '9' by {
            if i < decimal(n / 10).len() {
                assert(decimal(n)[i] == decimal(n / 10)[i]);
            }
        }
    }
}

proof fn lemma_digit_char_injective(x: nat, y: nat)
    requires
        x < 10,
        y < 10,
        digit_char(x) == digit_char(y),
    ensures
        x == y,
{
}

proof fn lemma_decimal_injective(a: nat, b: nat)
    requires
        decimal(a) == decimal(b),
    ensures
        a == b,
    decreases a,
{
    lemma_decimal_digits(a);
    lemma_decimal_digits(b);
    if a >= 10 && b >= 10 {
        assert(decimal(a).drop_last() == decimal(a / 10));
        assert(decimal(b).drop_last() == decimal(b / 10));
        lemma_decimal_injective(a / 10, b / 10);
        assert(decimal(a).last() == digit_char(a % 10));
        assert(decimal(b).last() == digit_char(b % 10));
        lemma_digit_char_injective(a % 10, b % 10);
    } else {
        assert(a < 10 && b < 10);
        assert(decimal(a)[0] == digit_char(a));
        assert(decimal(b)[0] == digit_char(b));
        lemma_digit_char_injective(a, b);
    }
}

/// Labels made from different counts differ, whatever their slugs: each
/// label the generator hands out is fresh.
pub proof fn law_labels_distinct(n1: nat, n2: nat, slug1: Seq<char>, slug2: Seq<char>)
    requires
        n1 != n2,
    ensures
        ".L"@ + decimal(n1) + "_"@ + slug1 != ".L"@ + decimal(n2) + "_"@ + slug2,
{
    reveal_strlit(".L");
    reveal_strlit("_");
    let x = ".L"@ + decimal(n1) + "_"@ + slug1;
    let y = ".L"@ + decimal(n2) + "_"@ + slug2;
    lemma_decimal_digits(n1);
    lemma_decimal_digits(n2);
    if x == y {
        let l1 = decimal(n1).len() as int;
        let l2 = decimal(n2).len() as int;
        assert(x[2 + l1] == '_');
        assert(y[2 + l2] == '_');
        if l1 < l2 {
            assert(y[2 + l1] == decimal(n2)[l1]);
        } else if l2 < l1 {
            assert(x[2 + l2] == decimal(n1)[l2]);
        } else {
            assert(decimal(n1) =~= x.subrange(2, 2 + l1));
            assert(decimal(n2) =~= y.subrange(2, 2 + l2));
            lemma_decimal_injective(n1, n2);
        }
    }
}

/// A statement with no program or block inside it: the statements of the
/// body of a routine or of the main program.
pub open spec fn plain_stmt(tree: &Tree, s: int) -> bool
    decreases s,
{
    &&& 0 <= s < tree.stmt_pool.nodes().len()
    &&& match tree.stmt_pool.nodes()[s] {
        Stmt::Program { .. } => false,
        Stmt::Block { .. } => false,
        Stmt::Compound(v) => forall|k: int|
            0 <= k < v@.len() ==> (#[trigger] v@[k]).index_of() < s && plain_stmt(tree, v@[k].index_of() as int),
        Stmt::If { cond, elifs, else_statement } => {
            &&& cond.expr.index_of() < s
            &&& plain_stmt(tree, cond.expr.index_of() as int)
            &&& forall|k: int|
                0 <= k < elifs@.len() ==> (#[trigger] elifs@[k]).expr.index_of() < s && plain_stmt(
                    tree,
                    elifs@[k].expr.index_of() as int,
                )
            &&& match else_statement {
                Some(e) => e.index_of() < s && plain_stmt(tree, e.index_of() as int),
                None => true,
            }
        },
        Stmt::While { body, .. } => body.index_of() < s && plain_stmt(tree, body.index_of() as int),
        Stmt::For { body, .. } => body.index_of() < s && plain_stmt(tree, body.index_of() as int),
        _ => true,
    }
}

// ---------------------------------------------------------------------------
// A fragment the generator always compiles: straight-line integer code
// ---------------------------------------------------------------------------

/// Expression `e` has the type `integer`.
pub open spec fn expr_is_integer(md: &SemanticMetadata, e: int) -> bool {
    &&& md.expr_type_map@.contains_key(e as usize)
    &&& md.types.nodes()[md.expr_type_map@[e as usize].index_of() as int] is Integer
}

/// Name expression `e` stands for a global `integer` variable passed by value.
pub open spec fn global_int_var(md: &SemanticMetadata, e: int) -> bool {
    &&& md.var_symbols@.contains_key(e as usize)
    &&& md.vars.nodes()[md.var_symbols@[e as usize].index_of() as int] matches VarSymbol::Var {
        pass_mode: VarPassMode::Val,
        type_symbol,
        ..
    } && md.types.nodes()[type_symbol.index_of() as int] is Integer
    &&& md.var_types@.contains_key(e as usize)
    &&& md.var_types@[e as usize] == VarLocality::Global
}

/// An integer expression made of integer literals, global integer
/// variables and `+ - * /`.
pub open spec fn int_fragment_expr(tree: &Tree, md: &SemanticMetadata, e: int) -> bool
    decreases e,
{
    &&& 0 <= e < tree.expr_pool.nodes().len()
    &&& expr_is_integer(md, e)
    &&& match tree.expr_pool.nodes()[e] {
        Expr::LiteralInteger(_) => true,
        Expr::Var { .. } => global_int_var(md, e),
        Expr::BinOp { op, left, right } => {
            &&& (op is Plus || op is Minus || op is Mul || op is IntegerDiv)
            &&& left.index_of() < e
            &&& right.index_of() < e
            &&& int_fragment_expr(tree, md, left.index_of() as int)
            &&& int_fragment_expr(tree, md, right.index_of() as int)
        },
        _ => false,
    }
}

/// `w[k..k + 6]` is the head of a counting loop: the label `body_label`, the
/// counter loaded into a register, incremented and stored back, compared
/// with the end value on top of the machine stack, and a jump to
/// `exit_label` when it is greater: the body runs for every counter value up
/// to and including the end value.
pub open spec fn for_loop_head<'a>(w: Seq<AsmLine<'a>>, k: int, body_label: Seq<char>, exit_label: Seq<char>) -> bool {
    &&& 0 <= k
    &&& k + 6 <= w.len()
    &&& w[k] matches AsmLine::Label(l) && l@ == body_label
    &&& w[k + 1] matches AsmLine::Command(Command::Mov { dst: Operand::Register(r), src: m })
    &&& w[k + 2] == AsmLine::Command(Command::Inc(r))
    &&& w[k + 3] == AsmLine::Command(Command::Mov { dst: m, src: Operand::Register(r) })
    &&& w[k + 4] matches AsmLine::Command(Command::Cmp { op1: Operand::Register(r2), op2: Operand::Memory(Memory::StackMemory(top)) })
    &&& r2 == r
    &&& top.base == Register::Rsp
    &&& top.offset == 0
    &&& w[k + 5] matches AsmLine::Command(Command::Jg(e)) && e@ == exit_label
}

/// The command that loads the global integer variable the name expression
/// `e` stands for into `eax`.
pub open spec fn global_int_load<'a>(md: &SemanticMetadata, e: int, c: Command<'a>) -> bool {
    &&& md.vars.nodes()[md.var_symbols@[e as usize].index_of() as int] matches VarSymbol::Var { name, .. }
    &&& c matches Command::Mov { dst: Operand::Register(Register::Eax), src: Operand::Memory(Memory::GlobalMemory(g)) }
    &&& g.name@ == name@
    &&& g.size == Size::S32bit
}

/// The code of an operator at the end of a command list stays at the end
/// of any suffix that holds it.
proof fn lemma_bin_op_tail_skip<'a>(cmds: Seq<Command<'a>>, n: int, op: TokenType, ls: Size, rs: Size)
    requires
        bin_op_tail(cmds, op, ls, rs),
        0 <= n <= cmds.len() - bin_op_width(op) - 3,
    ensures
        bin_op_tail(cmds.skip(n), op, ls, rs),
{
    let t = cmds.skip(n);
    let k = cmds.len() - bin_op_width(op) - 3;
    assert(t[k - n] == cmds[k]);
    assert(t[k - n + 1] == cmds[k + 1]);
    assert(t[k - n + 2] == cmds[k + 2]);
    assert(t.subrange(k - n + 3, t.len() as int) =~= cmds.subrange(k + 3, cmds.len() as int));
}

/// How many commands the code of the integer expression `e` takes.
pub open spec fn int_expr_len(tree: &Tree, e: int) -> int
    decreases e,
{
    if !(0 <= e < tree.expr_pool.nodes().len()) {
        0
    } else {
        match tree.expr_pool.nodes()[e] {
            Expr::BinOp { op, left, right } => if left.index_of() < e && right.index_of() < e {
                int_expr_len(tree, left.index_of() as int) + int_expr_len(tree, right.index_of() as int) + bin_op_width(op) + 4
            } else {
                0
            },
            _ => 2,
        }
    }
}

/// `t` is the code of the integer expression `e`: it leaves the value on the
/// stack. A literal is moved into `rax`, a variable loaded from its label; an
/// operator application is the code of its left operand, then of its right
/// operand, then the operator's commands; each ends pushing `rax`.
pub open spec fn int_expr_code<'a>(tree: &Tree, md: &SemanticMetadata, e: int, t: Seq<Command<'a>>) -> bool
    decreases e,
{
    &&& 0 <= e < tree.expr_pool.nodes().len()
    &&& t.len() == int_expr_len(tree, e)
    &&& t.len() >= 1
    &&& t.last() == Command::Push(Operand::Register(Register::Rax))
    &&& match tree.expr_pool.nodes()[e] {
        Expr::LiteralInteger(i) => t[0] == (Command::Mov {
            dst: Operand::Register(Register::Rax),
            src: Operand::Register(Register::Integer(i)),
        }),
        Expr::Var { .. } => global_int_load(md, e, t[0]),
        Expr::BinOp { op, left, right } => {
            let ll = int_expr_len(tree, left.index_of() as int);
            let lr = int_expr_len(tree, right.index_of() as int);
            &&& left.index_of() < e
            &&& right.index_of() < e
            &&& int_expr_code(tree, md, left.index_of() as int, t.subrange(0, ll))
            &&& int_expr_code(tree, md, right.index_of() as int, t.subrange(ll, ll + lr))
            &&& bin_op_tail(t.drop_last(), op, Size::S32bit, Size::S32bit)
        },
        _ => false,
    }
}

/// `t` is the code of the assignment of the integer expression `right` to
/// the global integer variable named by `left`: the code of `right`, its
/// value popped into `rax`, and `eax` stored at the variable's label.
pub open spec fn int_assign_code<'a>(tree: &Tree, md: &SemanticMetadata, left: int, right: int, t: Seq<Command<'a>>) -> bool {
    let lr = int_expr_len(tree, right);
    &&& t.len() == lr + 2
    &&& int_expr_code(tree, md, right, t.subrange(0, lr))
    &&& t[lr] == Command::Pop(Operand::Register(Register::Rax))
    &&& tree.expr_pool.nodes()[left] matches Expr::Var { name }
    &&& t[lr + 1] matches Command::Mov {
        dst: Operand::Memory(Memory::GlobalMemory(g)),
        src: Operand::Register(Register::Eax),
    }
    &&& g.name@ == tree.source_code@.subrange(name.spec_span().spec_start() as int, name.spec_span().spec_end())
    &&& g.size == Size::S32bit
}

/// A comparison operator.
pub open spec fn is_comparison(op: TokenType) -> bool {
    op is Equal || op is NotEqual || op is GreaterThen || op is GreaterEqual || op is LessThen || op is LessEqual
}

/// A condition that compares two integer expressions of the fragment.
pub open spec fn int_fragment_cond(tree: &Tree, md: &SemanticMetadata, e: int) -> bool {
    &&& 0 <= e < tree.expr_pool.nodes().len()
    &&& match tree.expr_pool.nodes()[e] {
        Expr::BinOp { op, left, right } => {
            &&& is_comparison(op)
            &&& left.index_of() < e
            &&& right.index_of() < e
            &&& int_fragment_expr(tree, md, left.index_of() as int)
            &&& int_fragment_expr(tree, md, right.index_of() as int)
        },
        _ => false,
    }
}

/// A statement made of assignments of such expressions to global integer
/// variables, `while` loops and `if` statements (without `else if`) on such
/// conditions, compound statements and empty ones.
pub open spec fn int_fragment_stmt(tree: &Tree, md: &SemanticMetadata, s: int) -> bool
    decreases s,
{
    &&& 0 <= s < tree.stmt_pool.nodes().len()
    &&& match tree.stmt_pool.nodes()[s] {
        Stmt::NoOp => true,
        Stmt::Compound(v) => forall|k: int|
            0 <= k < v@.len() ==> (#[trigger] v@[k]).index_of() < s && int_fragment_stmt(tree, md, v@[k].index_of() as int),
        Stmt::Assign { left, right } => {
            &&& tree.expr_pool.nodes()[left.index_of() as int] is Var
            &&& int_fragment_expr(tree, md, left.index_of() as int)
            &&& int_fragment_expr(tree, md, right.index_of() as int)
        },
        Stmt::While { cond, body } => {
            &&& int_fragment_cond(tree, md, cond.index_of() as int)
            &&& body.index_of() < s
            &&& int_fragment_stmt(tree, md, body.index_of() as int)
        },
        Stmt::If { cond, elifs, else_statement } => {
            &&& elifs@.len() == 0
            &&& int_fragment_cond(tree, md, cond.cond.index_of() as int)
            &&& cond.expr.index_of() < s
            &&& int_fragment_stmt(tree, md, cond.expr.index_of() as int)
            &&& match else_statement {
                Some(e) => e.index_of() < s && int_fragment_stmt(tree, md, e.index_of() as int),
                None => true,
            }
        },
        _ => false,
    }
}

/// How many labels the code of statement `s` takes: two for each `while`
/// and each `if`, one more for each `else if`.
pub open spec fn labels_needed(tree: &Tree, s: int) -> nat
    decreases s, 1int, 0int,
{
    if 0 <= s < tree.stmt_pool.nodes().len() {
        match tree.stmt_pool.nodes()[s] {
            Stmt::Program { block, .. } => if block.index_of() < s {
                labels_needed(tree, block.index_of() as int)
            } else {
                0
            },
            Stmt::Block { statements, .. } => if statements.index_of() < s {
                labels_needed(tree, statements.index_of() as int)
            } else {
                0
            },
            Stmt::Compound(v) => labels_of(tree, v@, s, v@.len() as int),
            Stmt::While { body, .. } => 2 + if body.index_of() < s {
                labels_needed(tree, body.index_of() as int)
            } else {
                0
            },
            Stmt::If { cond, elifs, else_statement } => 2 + elifs@.len() + (if cond.expr.index_of() < s {
                labels_needed(tree, cond.expr.index_of() as int)
            } else {
                0
            }) + match else_statement {
                Some(e) => if e.index_of() < s {
                    labels_needed(tree, e.index_of() as int)
                } else {
                    0
                },
                None => 0,
            },
            _ => 0,
        }
    } else {
        0
    }
}

/// The labels the first `k` of the statements `v` of statement `parent` take.
pub open spec fn labels_of(tree: &Tree, v: Seq<StmtRef>, parent: int, k: int) -> nat
    decreases parent, 0int, k,
{
    if k <= 0 || k > v.len() {
        0
    } else {
        labels_of(tree, v, parent, k - 1) + if v[k - 1].index_of() < parent {
            labels_needed(tree, v[k - 1].index_of() as int)
        } else {
            0
        }
    }
}

/// The labels the `else` branch of an `if` takes.
pub open spec fn else_labels(tree: &Tree, else_statement: Option<StmtRef>) -> nat {
    match else_statement {
        Some(e) => labels_needed(tree, e.index_of() as int),
        None => 0,
    }
}

proof fn lemma_labels_of_mono(tree: &Tree, v: Seq<StmtRef>, parent: int, k: int, m: int)
    requires
        0 <= k <= m <= v.len(),
    ensures
        labels_of(tree, v, parent, k) <= labels_of(tree, v, parent, m),
    decreases m - k,
{
    if k < m {
        lemma_labels_of_mono(tree, v, parent, k, m - 1);
    }
}

/// A block that declares global integer variables without initial values
/// and runs a statement of the fragment.
pub open spec fn int_fragment_block(tree: &Tree, md: &SemanticMetadata, b: int) -> bool {
    &&& 0 <= b < tree.stmt_pool.nodes().len()
    &&& match tree.stmt_pool.nodes()[b] {
        Stmt::Block { declarations, statements } => {
            &&& forall|k: int| 0 <= k < declarations@.len() ==> (#[trigger] declarations@[k] matches Decl::VarDecl {
                var,
                default_value: None,
                ..
            } && tree.expr_pool.nodes()[var.index_of() as int] is Var && expr_is_integer(md, var.index_of() as int))
            &&& int_fragment_stmt(tree, md, statements.index_of() as int)
        },
        _ => false,
    }
}

/// A program whose block is of the fragment.
pub open spec fn int_fragment_program(tree: &Tree, md: &SemanticMetadata) -> bool {
    match tree.stmt_pool.nodes()[tree.program.index_of() as int] {
        Stmt::Program { block, .. } => int_fragment_block(tree, md, block.index_of() as int),
        _ => false,
    }
}

// ---------------------------------------------------------------------------
// The code generator
// ---------------------------------------------------------------------------

/// Turns an analysed program into x86-64 assembly (Windows calling
/// convention): globals in the data and bss sections, a routine per
/// callable, then `main`.
pub struct Compiler<'a> {
    assembler: Assambler<'a>,
    call_stack: CallStack<'a>,
    current_l_num: u64,
    loop_exit_labels: Vec<String>,
    loop_start_labels: Vec<String>,
}

/// The frames of a call stack stay addressable.
pub open spec fn frames_fit<'a>(frames: Seq<ActivationRecord<'a>>) -> bool {
    forall|i: int| 0 <= i < frames.len() ==> vars_fit(#[trigger] frames[i].vars())
}

impl<'a> Compiler<'a> {
    /// The call stack is consistent and has the global frame, every frame can
    /// be addressed, and each loop has a start and an exit label.
    pub closed spec fn wf(&self) -> bool {
        &&& self.call_stack.wf()
        &&& self.call_stack.depth() >= 1
        &&& frames_fit(self.call_stack.frames())
        &&& self.loop_exit_labels@.len() == self.loop_start_labels@.len()
    }

    /// Commands generated and not yet written out.
    pub closed spec fn pending(&self) -> Seq<Command<'a>> {
        self.assembler.pending()
    }

    /// Lines written out.
    pub closed spec fn written(&self) -> Seq<AsmLine<'a>> {
        self.assembler.written()
    }

    /// Labels handed out so far.
    pub closed spec fn label_count(&self) -> nat {
        self.current_l_num as nat
    }

    /// The start and exit labels of the loops the generator is in,
    /// innermost last.
    pub closed spec fn loops(&self) -> Seq<(Seq<char>, Seq<char>)> {
        Seq::new(
            self.loop_start_labels@.len(),
            |i: int| (self.loop_start_labels@[i]@, self.loop_exit_labels@[i]@),
        )
    }

    /// Frames of the scopes the generator is in.
    pub closed spec fn scopes(&self) -> Seq<ActivationRecord<'a>> {
        self.call_stack.frames()
    }

    /// `self` is well formed and in the same scopes and loops as `old`, and
    /// has handed out no label twice.
    pub closed spec fn keeps(&self, old: &Self) -> bool {
        &&& self.wf()
        &&& self.call_stack.frames() == old.call_stack.frames()
        &&& self.loop_exit_labels@ == old.loop_exit_labels@
        &&& self.loop_start_labels@ == old.loop_start_labels@
        &&& self.assembler.spec_peephole() == old.assembler.spec_peephole()
        &&& old.current_l_num <= self.current_l_num
        &&& lines_extend(self.assembler.written(), old.assembler.written())
    }

    /// `self` only added commands to `old`, leaving `e` more values on the
    /// machine stack.
    pub closed spec fn added(&self, old: &Self, e: int) -> bool {
        &&& self.assembler.written() == old.assembler.written()
        &&& adds_effect(self.assembler.pending(), old.assembler.pending(), e)
    }

    /// The generator stands in the global scope, which holds no variable.
    pub closed spec fn at_start(&self) -> bool {
        self.call_stack.top().vars().len() == 0
    }

    /// A fresh generator: peephole optimisation on, the global frame, no
    /// loop, no label handed out.
    pub fn new() -> (r: Result<Self, Error>)
        ensures
            r is Ok,
            r matches Ok(c) ==> {
                &&& c.wf()
                &&& c.at_start()
                &&& c.pending() == Seq::<Command<'a>>::empty()
                &&& c.written() == Seq::<AsmLine<'a>>::empty()
                &&& c.label_count() == 0
                &&& c.loops() == Seq::<(Seq<char>, Seq<char>)>::empty()
                &&& c.scopes().len() == 1
            },
    {
        let c = Compiler {
            assembler: Assambler::new(true),
            call_stack: CallStack::new(),
            current_l_num: 0,
            loop_exit_labels: Vec::new(),
            loop_start_labels: Vec::new(),
        };
        proof {
            assert(c.call_stack.frames()[0] == c.call_stack.top());
            assert(c.loops() =~= Seq::<(Seq<char>, Seq<char>)>::empty());
        }
        Ok(c)
    }

    /// A fresh label `.L<n>_<slug>`, `n` counting the labels handed out.
    fn next_l(&mut self, slug: &str) -> (r: Result<String, Error>)
        ensures
            final(self).assembler == old(self).assembler,
            final(self).call_stack == old(self).call_stack,
            final(self).loop_exit_labels == old(self).loop_exit_labels,
            final(self).loop_start_labels == old(self).loop_start_labels,
            r matches Ok(l) ==> {
                &&& l@ == ".L"@ + decimal(old(self).current_l_num as nat) + "_"@ + slug@
                &&& final(self).current_l_num == old(self).current_l_num + 1
            },
            r matches Err(e) ==> e is CompileError && final(self).current_l_num == old(self).current_l_num,
            old(self).current_l_num < u64::MAX ==> r is Ok,
    {
        if self.current_l_num == u64::MAX {
            return Err(codegen_error("too many labels"));
        }
        let n = self.current_l_num;
        self.current_l_num = n + 1;
        proof {
            reveal_strlit(".L");
            reveal_strlit("_");
        }
        let mut l = String::new();
        l.append(".L");
        push_decimal(&mut l, n);
        l.append("_");
        l.append(slug);
        Ok(l)
    }

    fn enter_loop(&mut self, start_label: &str, end_label: &str)
        ensures
            final(self).assembler == old(self).assembler,
            final(self).call_stack == old(self).call_stack,
            final(self).current_l_num == old(self).current_l_num,
            final(self).loop_start_labels@.len() == old(self).loop_start_labels@.len() + 1,
            final(self).loop_start_labels@.drop_last() == old(self).loop_start_labels@,
            final(self).loop_start_labels@.last()@ == start_label@,
            final(self).loop_exit_labels@.len() == old(self).loop_exit_labels@.len() + 1,
            final(self).loop_exit_labels@.drop_last() == old(self).loop_exit_labels@,
            final(self).loop_exit_labels@.last()@ == end_label@,
    {
        self.loop_start_labels.push(String::from_str(start_label));
        self.loop_exit_labels.push(String::from_str(end_label));
        proof {
            assert(self.loop_start_labels@.drop_last() =~= old(self).loop_start_labels@);
            assert(self.loop_exit_labels@.drop_last() =~= old(self).loop_exit_labels@);
        }
    }

    fn exit_loop(&mut self)
        ensures
            final(self).assembler == old(self).assembler,
            final(self).call_stack == old(self).call_stack,
            final(self).current_l_num == old(self).current_l_num,
            old(self).loop_start_labels@.len() > 0 ==> final(self).loop_start_labels@
                == old(self).loop_start_labels@.drop_last(),
            old(self).loop_exit_labels@.len() > 0 ==> final(self).loop_exit_labels@
                == old(self).loop_exit_labels@.drop_last(),
            old(self).loop_start_labels@.len() == 0 ==> final(self).loop_start_labels@ == old(
                self,
            ).loop_start_labels@,
            old(self).loop_exit_labels@.len() == 0 ==> final(self).loop_exit_labels@ == old(
                self,
            ).loop_exit_labels@,
    {
        self.loop_exit_labels.pop();
        self.loop_start_labels.pop();
    }

    /// Function prologue: save the caller's base pointer, set up this
    /// frame and reserve `aligned_size` bytes below it.
    fn enter_func(&mut self, aligned_size: usize)
        ensures
            final(self).call_stack == old(self).call_stack,
            final(self).current_l_num == old(self).current_l_num,
            final(self).loop_exit_labels == old(self).loop_exit_labels,
            final(self).loop_start_labels == old(self).loop_start_labels,
            final(self).assembler.spec_peephole() == old(self).assembler.spec_peephole(),
            final(self).assembler.written() == old(self).assembler.written(),
            final(self).assembler.effect() == old(self).assembler.effect() + 1,
            final(self).assembler.pending() == old(self).assembler.pending() + seq![
                Command::Push(Operand::Register(Register::Rbp)),
                Command::Mov { dst: Operand::Register(Register::Rbp), src: Operand::Register(Register::Rsp) },
            ] + if aligned_size > 0 {
                seq![Command::Sub { dst: Register::Rsp, src: Register::Integer(aligned_size as i32) }]
            } else {
                Seq::<Command<'a>>::empty()
            },
    {
        self.assembler.push_cmd(Command::Push(Operand::Register(Register::Rbp)));
        self.assembler.push_cmd(Command::Mov { dst: Operand::Register(Register::Rbp), src: Operand::Register(Register::Rsp) });
        if aligned_size > 0 {
            let n = #[verifier::truncate] (aligned_size as i32);
            self.assembler.push_cmd(Command::Sub { dst: Register::Rsp, src: Register::Integer(n) });
        }
        proof {
            let p = old(self).assembler.pending();
            let a = Command::Push(Operand::Register(Register::Rbp));
            let b = Command::Mov { dst: Operand::Register(Register::Rbp), src: Operand::Register(Register::Rsp) };
            if aligned_size > 0 {
                assert(self.assembler.pending() =~= p + seq![a, b] + seq![
                    Command::Sub { dst: Register::Rsp, src: Register::Integer(aligned_size as i32) },
                ]);
            } else {
                assert(self.assembler.pending() =~= p + seq![a, b] + Seq::<Command<'a>>::empty());
            }
        }
    }

    /// Jumps to the exit of the innermost loop.
    fn visit_break(&mut self) -> (r: Result<(), Error>)
        requires
            old(self).wf(),
        ensures
            r is Ok <==> old(self).loop_exit_labels@.len() > 0,
            r is Ok ==> final(self).keeps(old(self)) && final(self).assembler.written() == old(self).assembler.written()
                && final(self).assembler.pending() == old(self).assembler.pending().push(
                Command::Jmp(old(self).loop_exit_labels@.last()),
            ) && final(self).assembler.effect() == old(self).assembler.effect(),
            r matches Err(e) ==> e is CompileError,
    {
        let target = match self.loop_exit_labels.last() {
            Some(l) => l.clone(),
            None => return Err(codegen_error("break should not be outside of the loop")),
        };
        self.assembler.push_cmd(Command::Jmp(target));
        Ok(())
    }

    /// Jumps to the start of the innermost loop.
    fn visit_continue(&mut self) -> (r: Result<(), Error>)
        requires
            old(self).wf(),
        ensures
            r is Ok <==> old(self).loop_start_labels@.len() > 0,
            r is Ok ==> final(self).keeps(old(self)) && final(self).assembler.written() == old(self).assembler.written()
                && final(self).assembler.pending() == old(self).assembler.pending().push(
                Command::Jmp(old(self).loop_start_labels@.last()),
            ) && final(self).assembler.effect() == old(self).assembler.effect(),
            r matches Err(e) ==> e is CompileError,
    {
        let target = match self.loop_start_labels.last() {
            Some(l) => l.clone(),
            None => return Err(codegen_error("continue should be within a loop")),
        };
        self.assembler.push_cmd(Command::Jmp(target));
        Ok(())
    }

    /// Loads an integer literal into `rax`.
    fn visit_literal_integer(&mut self, i: i32)
        ensures
            final(self).call_stack == old(self).call_stack,
            final(self).current_l_num == old(self).current_l_num,
            final(self).loop_exit_labels == old(self).loop_exit_labels,
            final(self).loop_start_labels == old(self).loop_start_labels,
            final(self).assembler.spec_peephole() == old(self).assembler.spec_peephole(),
            final(self).assembler.written() == old(self).assembler.written(),
            final(self).assembler.effect() == old(self).assembler.effect() + 0,
            final(self).assembler.pending() == old(self).assembler.pending().push(
                Command::Mov { dst: Operand::Register(Register::Rax), src: Operand::Register(Register::Integer(i)) },
            ),
    {
        self.assembler.push_cmd(Command::Mov { dst: Operand::Register(Register::Rax), src: Operand::Register(Register::Integer(i)) });
    }

    /// Loads a boolean literal into `rax`: one for true, zero for false.
    fn visit_literal_bool(&mut self, b: bool)
        ensures
            final(self).call_stack == old(self).call_stack,
            final(self).current_l_num == old(self).current_l_num,
            final(self).loop_exit_labels == old(self).loop_exit_labels,
            final(self).loop_start_labels == old(self).loop_start_labels,
            final(self).assembler.spec_peephole() == old(self).assembler.spec_peephole(),
            final(self).assembler.written() == old(self).assembler.written(),
            final(self).assembler.effect() == old(self).assembler.effect() + 0,
            final(self).assembler.pending() == old(self).assembler.pending().push(
                Command::Mov {
                    dst: Operand::Register(Register::Rax),
                    src: Operand::Register(Register::Integer(if b { 1 } else { 0 })),
                },
            ),
    {
        let val: i32 = if b { 1 } else { 0 };
        self.assembler.push_cmd(Command::Mov { dst: Operand::Register(Register::Rax), src: Operand::Register(Register::Integer(val)) });
    }

    /// Compares `rax` with `rbx` at `expr_size` and sets `al` to the outcome
    /// of `op`.
    fn visit_comparison(&mut self, op: &TokenType, expr_size: &Size) -> (r: Result<(), Error>)
        ensures
            final(self).call_stack == old(self).call_stack,
            final(self).current_l_num == old(self).current_l_num,
            final(self).loop_exit_labels == old(self).loop_exit_labels,
            final(self).loop_start_labels == old(self).loop_start_labels,
            final(self).assembler.spec_peephole() == old(self).assembler.spec_peephole(),
            final(self).assembler.written() == old(self).assembler.written(),
            final(self).assembler.effect() == old(self).assembler.effect() + 0,
            r is Ok ==> adds_effect(final(self).assembler.pending(), old(self).assembler.pending(), 0),
            r is Ok ==> {
                let set = match *op {
                    TokenType::Equal => Command::Sete(Register::Al),
                    TokenType::NotEqual => Command::Setne(Register::Al),
                    TokenType::GreaterThen => Command::Setg(Register::Al),
                    TokenType::GreaterEqual => Command::Setge(Register::Al),
                    TokenType::LessThen => Command::Setl(Register::Al),
                    _ => Command::Setle(Register::Al),
                };
                &&& (*op is Equal || *op is NotEqual || *op is GreaterThen || *op is GreaterEqual || *op is LessThen
                    || *op is LessEqual)
                &&& spec_to_size(Register::Rax, *expr_size) is Some
                &&& spec_to_size(Register::Rbx, *expr_size) is Some
                &&& final(self).assembler.pending() == old(self).assembler.pending() + seq![
                    Command::Cmp {
                        op1: Operand::Register(spec_to_size(Register::Rax, *expr_size)->0),
                        op2: Operand::Register(spec_to_size(Register::Rbx, *expr_size)->0),
                    },
                    set,
                ]
            },
            r matches Err(e) ==> e is CompileError,
            is_comparison(*op) && spec_to_size(Register::Rax, *expr_size) is Some && spec_to_size(
                Register::Rbx,
                *expr_size,
            ) is Some ==> r is Ok,
    {
        let a = sized(Register::Rax, expr_size)?;
        let b = sized(Register::Rbx, expr_size)?;
        let set = match op {
            TokenType::Equal => Command::Sete(Register::Al),
            TokenType::NotEqual => Command::Setne(Register::Al),
            TokenType::GreaterThen => Command::Setg(Register::Al),
            TokenType::GreaterEqual => Command::Setge(Register::Al),
            TokenType::LessThen => Command::Setl(Register::Al),
            TokenType::LessEqual => Command::Setle(Register::Al),
            _ => return Err(codegen_error("not a comparison")),
        };
        let ghost set_copy = set;
        self.assembler.push_cmd(Command::Cmp { op1: Operand::Register(a), op2: Operand::Register(b) });
        self.assembler.push_cmd(set);
        proof {
            assert(self.assembler.pending() =~= old(self).assembler.pending() + seq![
                Command::Cmp { op1: Operand::Register(a), op2: Operand::Register(b) },
                set_copy,
            ]);
        }
        Ok(())
    }
}

/// The command that ends the code of the binary operator `op`: its
/// arithmetic or logical instruction, or the `set` of a comparison.
pub open spec fn bin_op_command<'a>(op: TokenType, c: Command<'a>) -> bool {
    match op {
        TokenType::Plus => c is Add,
        TokenType::Minus => c is Sub,
        TokenType::Mul => c is Imul,
        TokenType::IntegerDiv => c is IDiv,
        TokenType::And => c == (Command::And { dst: Register::Al, src: Register::Bl }),
        TokenType::Or => c == (Command::Or { dst: Register::Al, src: Register::Bl }),
        TokenType::Equal => c == Command::Sete(Register::Al),
        TokenType::NotEqual => c == Command::Setne(Register::Al),
        TokenType::GreaterThen => c == Command::Setg(Register::Al),
        TokenType::GreaterEqual => c == Command::Setge(Register::Al),
        TokenType::LessThen => c == Command::Setl(Register::Al),
        TokenType::LessEqual => c == Command::Setle(Register::Al),
        _ => false,
    }
}

/// The size of the type the analysis gave the expression `e`.
pub open spec fn spec_expr_size(md: &SemanticMetadata, e: ExprRef) -> Option<Size> {
    if md.expr_type_map@.contains_key(e.index_of() as usize) {
        size_of(md.types.nodes(), md.types.nodes()[md.expr_type_map@[e.index_of() as usize].index_of() as int])
    } else {
        None
    }
}

/// How many commands the operator `op` itself takes once its operands are
/// in `rax` and `rbx`.
pub open spec fn bin_op_width(op: TokenType) -> int {
    match op {
        TokenType::IntegerDiv => 4,
        TokenType::Equal | TokenType::NotEqual | TokenType::GreaterThen | TokenType::GreaterEqual
        | TokenType::LessThen | TokenType::LessEqual => 2,
        _ => 1,
    }
}

/// The commands of the operator `op` at `size`, the left operand in `rax`
/// and the right one in `rbx`: the instruction that keeps its result in
/// `rax`; for `div` the sign extension, a jump to the division-by-zero
/// handler when `rbx` is zero, and `idiv`; for a comparison `cmp` and `set`.
pub open spec fn bin_op_finish<'a>(t: Seq<Command<'a>>, op: TokenType, size: Size) -> bool {
    let rax = spec_to_size(Register::Rax, size)->0;
    let rbx = spec_to_size(Register::Rbx, size)->0;
    let cmp = Command::Cmp { op1: Operand::Register(rax), op2: Operand::Register(rbx) };
    match op {
        TokenType::Plus => t == seq![Command::Add { dst: rax, src: rbx }],
        TokenType::Minus => t == seq![Command::Sub { dst: rax, src: rbx }],
        TokenType::Mul => t == seq![Command::Imul { dst: rax, src: rbx }],
        TokenType::IntegerDiv => {
            &&& t.len() == 4
            &&& crate::compiler::spec_sign_extention::<'a>(size) == Some(t[0])
            &&& t[1] == (Command::Test {
                op1: Operand::Register(Register::Rbx),
                op2: Operand::Register(Register::Rbx),
            })
            &&& t[2] matches Command::Jz(l) && l@ == STD_DIV0_ERROR@
            &&& t[3] == Command::IDiv(rbx)
        },
        TokenType::And => t == seq![Command::And { dst: Register::Al, src: Register::Bl }],
        TokenType::Or => t == seq![Command::Or { dst: Register::Al, src: Register::Bl }],
        TokenType::Equal => t == seq![cmp, Command::Sete(Register::Al)],
        TokenType::NotEqual => t == seq![cmp, Command::Setne(Register::Al)],
        TokenType::GreaterThen => t == seq![cmp, Command::Setg(Register::Al)],
        TokenType::GreaterEqual => t == seq![cmp, Command::Setge(Register::Al)],
        TokenType::LessThen => t == seq![cmp, Command::Setl(Register::Al)],
        TokenType::LessEqual => t == seq![cmp, Command::Setle(Register::Al)],
        _ => false,
    }
}

/// `cmds` ends with the code that combines the two operand values on the
/// stack for `op`, the left operand of size `ls` and the right of size `rs`:
/// the right value popped into `rbx`, the left into `rax`, the narrower one
/// sign-extended to the wider size, then the operator's own commands.
pub open spec fn bin_op_tail<'a>(cmds: Seq<Command<'a>>, op: TokenType, ls: Size, rs: Size) -> bool {
    let size = if rs.spec_bytes() > ls.spec_bytes() { rs } else { ls };
    let k = cmds.len() - bin_op_width(op) - 3;
    let rax = spec_to_size(Register::Rax, size);
    let rbx = spec_to_size(Register::Rbx, size);
    &&& k >= 0
    &&& rax is Some
    &&& rbx is Some
    &&& cmds[k] == Command::Pop(Operand::Register(Register::Rbx))
    &&& cmds[k + 1] == Command::Pop(Operand::Register(Register::Rax))
    &&& cmds[k + 2] == (if ls.spec_bytes() > rs.spec_bytes() {
        Command::Movsx { dst: rbx->0, src: Operand::Register(spec_to_size(Register::Rbx, rs)->0) }
    } else {
        Command::Movsx { dst: rax->0, src: Operand::Register(spec_to_size(Register::Rax, ls)->0) }
    })
    &&& bin_op_finish(cmds.subrange(k + 3, cmds.len() as int), op, size)
}

/// `t` is the code that turns the index value on the stack into an offset
/// into an array whose indices run from `lo` to `hi`: the value popped into
/// `register`, sign-extended to 64 bits where `index_size` is narrower, a
/// jump to the out-of-bounds handler when it is below `lo` or above `hi`,
/// and `lo` subtracted where it is not zero.
pub open spec fn index_check_code<'a>(
    t: Seq<Command<'a>>,
    register: Register<'a>,
    index_size: Size,
    lo: i32,
    hi: i32,
) -> bool {
    let idx = spec_to_size(register, index_size)->0;
    let m = if index_size.spec_bytes() < 8 { 1int } else { 0int };
    &&& t.len() == 5 + m + (if lo != 0 { 1int } else { 0int })
    &&& t[0] == Command::Pop(Operand::Register(register))
    &&& index_size.spec_bytes() < 8 ==> t[1] == (Command::Movsx { dst: register, src: Operand::Register(idx) })
    &&& t[1 + m] == (Command::Cmp { op1: Operand::Register(idx), op2: Operand::Register(Register::Integer(lo)) })
    &&& t[2 + m] matches Command::Jl(l) && l@ == STD_ARR_INDEX_OUT_OF_BOUNDS_ERROR@
    &&& t[3 + m] == (Command::Cmp { op1: Operand::Register(idx), op2: Operand::Register(Register::Integer(hi)) })
    &&& t[4 + m] matches Command::Jg(l) && l@ == STD_ARR_INDEX_OUT_OF_BOUNDS_ERROR@
    &&& lo != 0 ==> t[5 + m] == (Command::Sub { dst: idx, src: Register::Integer(lo) })
}

/// The routine a call of the callable named `name` calls: the runtime's
/// `write` and `writeln` for those names, the callable's own label otherwise.
pub open spec fn call_target(name: Seq<char>) -> Seq<char> {
    if name == "writeln"@ {
        "std.io.writeln"@
    } else if name == "write"@ {
        "std.io.write"@
    } else {
        name
    }
}

/// The text of the label numbered `n` with the slug `slug`.
pub open spec fn label_text(n: nat, slug: Seq<char>) -> Seq<char> {
    ".L"@ + decimal(n) + "_"@ + slug
}

/// The parameter symbol `v` is a variable passed by value.
pub open spec fn param_is_val(md: &SemanticMetadata, v: VarSymbolRef) -> bool {
    md.vars.nodes()[v.index_of() as int] matches VarSymbol::Var { pass_mode: VarPassMode::Val, .. }
}

/// How many of the first `k` arguments of a call go to by-value parameters,
/// the parameter list repeated as often as needed.
pub open spec fn val_count(md: &SemanticMetadata, params: Seq<VarSymbolRef>, k: int) -> int
    decreases k,
{
    if k <= 0 || params.len() == 0 {
        0
    } else {
        val_count(md, params, k - 1) + if param_is_val(md, params[(k - 1) % (params.len() as int)]) {
            1int
        } else {
            0int
        }
    }
}

impl<'a> Compiler<'a> {
    /// `m` is where the name expression `var` lives: a slot of the innermost
    /// frame for a local, the variable's own label, sized by its type, for
    /// a global.
    pub closed spec fn var_memory(&self, tree: &Tree<'a>, md: &SemanticMetadata, var: ExprRef, m: Memory<'a>) -> bool {
        &&& tree.expr_pool.nodes()[var.index_of() as int] matches Expr::Var { name }
        &&& md.var_types@.contains_key(var.index_of() as usize)
        &&& md.expr_type_map@.contains_key(var.index_of() as usize)
        &&& {
            let text = tree.source_code@.subrange(name.spec_span().spec_start() as int, name.spec_span().spec_end());
            match md.var_types@[var.index_of() as usize] {
                VarLocality::Local => m matches Memory::StackMemory(sm) && offset_of(self.call_stack.top().vars(), text)
                    matches Some((o, z)) && sm == (StackMemory::<'a> {
                    base: Register::Rbp,
                    offset: (o + z.spec_bytes()) as usize,
                    size: z,
                }),
                VarLocality::Global => m matches Memory::GlobalMemory(g) && g.name@ == text && size_of(
                    md.types.nodes(),
                    md.types.nodes()[md.expr_type_map@[var.index_of() as usize].index_of() as int],
                ) == Some(g.size),
            }
        }
    }

    /// Nothing is pending and the last line written is the comment that
    /// closes a block.
    pub closed spec fn ends_block(&self) -> bool {
        &&& self.assembler.pending() == Seq::<Command<'a>>::empty()
        &&& self.assembler.written().len() > 0
        &&& self.assembler.written().last() matches AsmLine::Comment(c) && c@ == "end block"@
    }

    /// Nothing is pending and the last line written is the label `l`.
    pub closed spec fn ends_at_label(&self, l: Seq<char>) -> bool {
        &&& self.assembler.pending() == Seq::<Command<'a>>::empty()
        &&& self.assembler.written().len() > 0
        &&& self.assembler.written().last() matches AsmLine::Label(d) && d@ == l
    }

    /// Memory of the innermost frame's variable `name`.
    fn lookup_local(&self, name: &'a str) -> (r: Result<StackMemory<'a>, Error>)
        requires
            self.wf(),
        ensures
            r matches Err(e) ==> e is CompileError,
            r is Ok <==> offset_of(self.call_stack.top().vars(), name@) is Some,
            r matches Ok(m) ==> ({
                let (o, z) = offset_of(self.call_stack.top().vars(), name@)->0;
                m == StackMemory::<'a> { base: Register::Rbp, offset: (o + z.spec_bytes()) as usize, size: z }
            }),
    {
        proof {
            assert(self.call_stack.frames()[self.call_stack.depth() - 1] == self.call_stack.top());
        }
        if self.call_stack.has_var(name) {
            Ok(self.call_stack.lookup_var_mem(name))
        } else {
            Err(codegen_error("unknown local variable"))
        }
    }

    /// Memory holding the address of the innermost frame's by-reference
    /// variable `name`.
    fn lookup_addr(&self, name: &'a str) -> (r: Result<StackMemory<'a>, Error>)
        requires
            self.wf(),
        ensures
            r matches Err(e) ==> e is CompileError,
            r is Ok <==> offset_of(self.call_stack.top().vars(), name@) is Some,
            r matches Ok(m) ==> ({
                let (o, z) = offset_of(self.call_stack.top().vars(), name@)->0;
                m == StackMemory::<'a> { base: Register::Rbp, offset: (o + 8) as usize, size: z }
            }),
    {
        proof {
            assert(self.call_stack.frames()[self.call_stack.depth() - 1] == self.call_stack.top());
        }
        if self.call_stack.has_var(name) {
            Ok(self.call_stack.lookup_var_addr(name))
        } else {
            Err(codegen_error("unknown local variable"))
        }
    }

    /// Where the variable expression `var` lives: in the innermost frame or
    /// in the data section.
    fn get_variable_memory_address(&self, var: ExprRef, tree: &Tree<'a>, md: &'a SemanticMetadata) -> (r: Result<
        Memory<'a>,
        Error,
    >)
        requires
            self.wf(),
            tree.wf(),
            md.wf(),
            var.index_of() < tree.expr_pool.nodes().len(),
        ensures
            r matches Err(e) ==> e is CompileError,
            r matches Ok(m) ==> self.var_memory(tree, md, var, m),
    {
        let name = var_name(tree, var)?;
        let size = expr_size(md, var)?;
        match md.var_types.get(&var.to_index()) {
            Some(VarLocality::Local) => Ok(Memory::StackMemory(self.lookup_local(name)?)),
            Some(VarLocality::Global) => Ok(Memory::GlobalMemory(GlobalMemory::new(name, size))),
            None => Err(codegen_error("variable has no locality")),
        }
    }

    /// Pops an index into `register`, checks it against the bounds of
    /// `base_type` and makes it count from zero.
    fn setup_array_index(&mut self, base_type: &TypeSymbol, index_size: &Size, register: Register<'a>) -> (r: Result<
        (),
        Error,
    >)
        requires
            old(self).wf(),
        ensures
            final(self).current_l_num == old(self).current_l_num,
            r is Ok ==> final(self).keeps(old(self)) && final(self).added(old(self), -1) && final(self).assembler.effect() == old(self).assembler.effect() + -1,
            r is Ok ==> (base_type.spec_limits() matches Some((lo, hi)) && index_check_code(
                final(self).assembler.pending().skip(old(self).assembler.pending().len() as int),
                register,
                *index_size,
                lo,
                hi,
            )),
            r matches Err(e) ==> e is CompileError,
            base_type.spec_limits() is Some && spec_to_size(register, *index_size) is Some && index_size.bytes_fit()
                ==> r is Ok,
    {
        let ghost p0 = self.assembler.pending();
        let (start_ord_index, end_ord_index) = match base_type.get_limits() {
            Some(l) => l,
            None => return Err(codegen_error("the type has no bounds")),
        };
        let idx = sized(register, index_size)?;
        let narrow = size_gt(&Size::S64bit, index_size)?;
        self.assembler.push_cmd(Command::Pop(Operand::Register(register)));
        if narrow {
            self.assembler.push_cmd(Command::Movsx { dst: register, src: Operand::Register(idx) });
        }
        let ghost m: int = if narrow { 1 } else { 0 };
        self.assembler.push_cmd(Command::Cmp { op1: Operand::Register(idx), op2: Operand::Register(Register::Integer(start_ord_index)) });
        let below = String::from_str(STD_ARR_INDEX_OUT_OF_BOUNDS_ERROR);
        let ghost below_view = below@;
        self.assembler.push_cmd(Command::Jl(below));
        self.assembler.push_cmd(Command::Cmp { op1: Operand::Register(idx), op2: Operand::Register(Register::Integer(end_ord_index)) });
        let above = String::from_str(STD_ARR_INDEX_OUT_OF_BOUNDS_ERROR);
        let ghost above_view = above@;
        self.assembler.push_cmd(Command::Jg(above));
        if start_ord_index != 0 {
            self.assembler.push_cmd(Command::Sub { dst: idx, src: Register::Integer(start_ord_index) });
        }
        proof {
            let t = self.assembler.pending().skip(p0.len() as int);
            assert(t[2 + m] matches Command::Jl(l) && l@ == below_view);
            assert(t[4 + m] matches Command::Jg(l) && l@ == above_view);
        }
        Ok(())
    }

    /// Evaluates an expression and pushes its value.
    fn visit_expr(&mut self, expr: ExprRef, tree: &Tree<'a>, md: &'a SemanticMetadata) -> (r: Result<(), Error>)
        requires
            old(self).wf(),
            tree.wf(),
            md.wf(),
            expr.index_of() < tree.expr_pool.nodes().len(),
        ensures
            final(self).current_l_num == old(self).current_l_num,
            r is Ok ==> final(self).keeps(old(self)) && final(self).added(old(self), 1) && final(self).assembler.effect() == old(self).assembler.effect() + 1
                && final(self).assembler.pending().last() == Command::Push(Operand::Register(Register::Rax)),
            r matches Err(e) ==> e is CompileError,
            int_fragment_expr(tree, md, expr.index_of() as int) || int_fragment_cond(tree, md, expr.index_of() as int)
                ==> r is Ok,
            int_fragment_expr(tree, md, expr.index_of() as int) ==> int_expr_code(
                tree,
                md,
                expr.index_of() as int,
                final(self).assembler.pending().skip(old(self).assembler.pending().len() as int),
            ),
        decreases expr.index_of(), 1nat,
    {
        let ghost n = expr.index_of();
        let ghost p0 = self.assembler.pending();
        match tree.expr_pool.get(expr) {
            Expr::LiteralInteger(i) => self.visit_literal_integer(*i),
            Expr::LiteralBool(b) => self.visit_literal_bool(*b),
            Expr::Var { .. } => self.visit_var(expr, md)?,
            Expr::UnaryOp { op, expr: inner } => self.visit_unary_op(op, *inner, Ghost(n), tree, md)?,
            Expr::BinOp { op, left, right } => self.visit_bin_op(op, *left, *right, Ghost(n), tree, md)?,
            Expr::Call { .. } => self.visit_call(expr, tree, md)?,
            Expr::Index { base, index_value, .. } => self.visit_index(*base, *index_value, Ghost(n), tree, md)?,
            _ => return Err(codegen_error("expression is not supported by the compiler")),
        }
        let ghost p1 = self.assembler.pending();
        self.assembler.push_cmd(Command::Push(Operand::Register(Register::Rax)));
        proof {
            if int_fragment_expr(tree, md, n as int) {
                let u = p1.skip(p0.len() as int);
                let t = self.assembler.pending().skip(p0.len() as int);
                assert(t =~= u.push(Command::Push(Operand::Register(Register::Rax))));
                assert(t.drop_last() =~= u);
                if let Expr::BinOp { left, right, .. } = tree.expr_pool.nodes()[n as int] {
                    let ll = int_expr_len(tree, left.index_of() as int);
                    let lr = int_expr_len(tree, right.index_of() as int);
                    assert(t.subrange(0, ll) =~= u.subrange(0, ll));
                    assert(t.subrange(ll, ll + lr) =~= u.subrange(ll, ll + lr));
                }
            }
        }
        Ok(())
    }

    /// Loads a variable or a constant into `rax`.
    fn visit_var(&mut self, expr: ExprRef, md: &'a SemanticMetadata) -> (r: Result<(), Error>)
        requires
            old(self).wf(),
            md.wf(),
        ensures
            r is Ok ==> final(self).assembler.pending().len() > old(self).assembler.pending().len() && final(self).assembler.pending().last() matches Command::Mov {
                dst: Operand::Register(_),
                ..
            },
            r is Ok && md.var_symbols@.contains_key(expr.index_of() as usize) ==> (md.vars.nodes()[md.var_symbols@[expr.index_of() as usize].index_of() as int] matches VarSymbol::Const {
                value: ConstValue::Integer(i),
                ..
            } ==> final(self).assembler.pending() == old(self).assembler.pending().push(
                Command::Mov { dst: Operand::Register(Register::Rax), src: Operand::Register(Register::Integer(i)) },
            )),
            final(self).current_l_num == old(self).current_l_num,
            r is Ok ==> final(self).keeps(old(self)) && final(self).added(old(self), 0) && final(self).assembler.effect() == old(self).assembler.effect() + 0,
            r matches Err(e) ==> e is CompileError,
            global_int_var(md, expr.index_of() as int) ==> r is Ok,
            global_int_var(md, expr.index_of() as int) ==> final(self).assembler.pending().len() == old(self).assembler.pending().len() + 1
                && final(self).assembler.pending().drop_last() == old(self).assembler.pending() && global_int_load(
                md,
                expr.index_of() as int,
                final(self).assembler.pending().last(),
            ),
    {
        match md.get_var_symbol(&expr) {
            Some(VarSymbol::Var { name, pass_mode, type_symbol }) => {
                let var_size = type_ref_size(md, *type_symbol)?;
                let dst = sized(Register::Rax, &var_size)?;
                match pass_mode {
                    VarPassMode::Val => {
                        let source_op = match md.var_types.get(&expr.to_index()) {
                            Some(VarLocality::Local) => Operand::Memory(Memory::StackMemory(self.lookup_local(name.as_str())?)),
                            Some(VarLocality::Global) => Operand::Memory(
                                Memory::GlobalMemory(GlobalMemory::new(name.as_str(), var_size.clone())),
                            ),
                            None => return Err(codegen_error("variable has no locality")),
                        };
                        self.assembler.push_cmd(Command::Mov { dst: Operand::Register(dst), src: source_op });
                    },
                    VarPassMode::Ref => {
                        let var_mem = self.lookup_addr(name.as_str())?;
                        self.assembler.push_cmd(Command::Mov {
                            dst: Operand::Register(Register::Rax),
                            src: Operand::Memory(Memory::StackMemory(var_mem)),
                        });
                        self.assembler.push_cmd(Command::Mov {
                            dst: Operand::Register(dst),
                            src: Operand::Memory(Memory::StackMemory(Register::Rax.as_addr(var_size.clone()))),
                        });
                    },
                }
            },
            Some(VarSymbol::Const { value, .. }) => match value {
                ConstValue::Integer(i) => {
                    self.assembler.push_cmd(Command::Mov {
                        dst: Operand::Register(Register::Rax),
                        src: Operand::Register(Register::Integer(*i)),
                    });
                },
                ConstValue::Boolean(b) => {
                    let val: i32 = if *b { 1 } else { 0 };
                    self.assembler.push_cmd(Command::Mov {
                        dst: Operand::Register(Register::Al),
                        src: Operand::Register(Register::Integer(val)),
                    });
                },
                _ => return Err(codegen_error("constant kind is not supported by the compiler")),
            },
            None => return Err(codegen_error("name has no symbol")),
        }
        Ok(())
    }

    /// Applies a unary operator to the value of `inner`, leaving it in `rax`.
    fn visit_unary_op(&mut self, op: &TokenType, inner: ExprRef, Ghost(parent): Ghost<nat>, tree: &Tree<'a>, md: &'a SemanticMetadata) -> (r:
        Result<(), Error>)
        requires
            old(self).wf(),
            tree.wf(),
            md.wf(),
            inner.index_of() < parent,
            parent < tree.expr_pool.nodes().len(),
        ensures
            r is Ok ==> *op is Plus || *op is Minus || *op is Not,
            r is Ok && *op is Plus ==> final(self).assembler.pending().last() == Command::Pop(Operand::Register(Register::Rax)),
            r is Ok && *op is Minus ==> final(self).assembler.pending().len() >= 2 && final(self).assembler.pending()[final(self).assembler.pending().len() - 2] == Command::Pop(
                Operand::Register(Register::Rax),
            ) && final(self).assembler.pending().last() is Neg,
            r is Ok && *op is Not ==> final(self).assembler.pending().len() >= 3 && final(self).assembler.pending()[final(self).assembler.pending().len() - 3] == Command::Pop(
                Operand::Register(Register::Rax),
            ) && final(self).assembler.pending()[final(self).assembler.pending().len() - 2] == (Command::Xor { dst: Register::Al, src: Register::Integer(1) }) && final(self).assembler.pending().last() == (
            Command::Movzx { dst: Register::Rax, src: Operand::Register(Register::Al) }),
            final(self).current_l_num == old(self).current_l_num,
            r is Ok ==> final(self).keeps(old(self)) && final(self).added(old(self), 0) && final(self).assembler.effect() == old(self).assembler.effect() + 0,
            r matches Err(e) ==> e is CompileError,
        decreases parent, 0nat,
    {
        self.visit_expr(inner, tree, md)?;
        let var_size = expr_size(md, inner)?;
        self.assembler.push_cmd(Command::Pop(Operand::Register(Register::Rax)));
        match op {
            TokenType::Plus => {},
            TokenType::Minus => {
                let reg = sized(Register::Rax, &var_size)?;
                self.assembler.push_cmd(Command::Neg(reg));
            },
            TokenType::Not => {
                self.assembler.push_cmd(Command::Xor { dst: Register::Al, src: Register::Integer(1) });
                self.assembler.push_cmd(Command::Movzx { dst: Register::Rax, src: Operand::Register(Register::Al) });
            },
            _ => return Err(codegen_error("unary operator is not supported by the compiler")),
        }
        Ok(())
    }

    /// The commands of the operator `op` itself, its operands in `rax` and
    /// `rbx` at `expr_size`.
    fn finish_bin_op(&mut self, op: &TokenType, expr_size: &Size, rax: Register<'a>, rbx: Register<'a>) -> (r: Result<
        (),
        Error,
    >)
        requires
            spec_to_size(Register::Rax, *expr_size) == Some(rax),
            spec_to_size(Register::Rbx, *expr_size) == Some(rbx),
        ensures
            final(self).call_stack == old(self).call_stack,
            final(self).current_l_num == old(self).current_l_num,
            final(self).loop_exit_labels == old(self).loop_exit_labels,
            final(self).loop_start_labels == old(self).loop_start_labels,
            final(self).assembler.spec_peephole() == old(self).assembler.spec_peephole(),
            final(self).assembler.written() == old(self).assembler.written(),
            final(self).assembler.effect() == old(self).assembler.effect() + 0,
            r is Ok ==> adds_effect(final(self).assembler.pending(), old(self).assembler.pending(), 0),
            r is Ok ==> final(self).assembler.pending().len() == old(self).assembler.pending().len() + bin_op_width(*op),
            r is Ok ==> bin_op_finish(
                final(self).assembler.pending().subrange(
                    old(self).assembler.pending().len() as int,
                    final(self).assembler.pending().len() as int,
                ),
                *op,
                *expr_size,
            ),
            r is Ok ==> bin_op_command(*op, final(self).assembler.pending().last()),
            r matches Err(e) ==> e is CompileError,
            *op is Plus || *op is Minus || *op is Mul || *op is And || *op is Or || is_comparison(*op) || (
            *op is IntegerDiv && crate::compiler::spec_sign_extention::<'a>(*expr_size) is Some) ==> r is Ok,
    {
        let ghost p0 = self.assembler.pending();
        match op {
            TokenType::Plus => {
                self.assembler.push_cmd(Command::Add { dst: rax, src: rbx });
                proof {
                    let q = self.assembler.pending();
                    assert(q.subrange(p0.len() as int, q.len() as int) =~= seq![Command::Add { dst: rax, src: rbx }]);
                }
            },
            TokenType::Minus => {
                self.assembler.push_cmd(Command::Sub { dst: rax, src: rbx });
                proof {
                    let q = self.assembler.pending();
                    assert(q.subrange(p0.len() as int, q.len() as int) =~= seq![Command::Sub { dst: rax, src: rbx }]);
                }
            },
            TokenType::Mul => {
                self.assembler.push_cmd(Command::Imul { dst: rax, src: rbx });
                proof {
                    let q = self.assembler.pending();
                    assert(q.subrange(p0.len() as int, q.len() as int) =~= seq![Command::Imul { dst: rax, src: rbx }]);
                }
            },
            TokenType::IntegerDiv => {
                let ext = match expr_size.sign_extention() {
                    Some(c) => c,
                    None => return Err(codegen_error("no sign extension for this size")),
                };
                proof {
                    assert(cmd_stack_effect(ext) == 0);
                }
                self.assembler.push_cmd(ext);
                self.assembler.push_cmd(Command::Test {
                    op1: Operand::Register(Register::Rbx),
                    op2: Operand::Register(Register::Rbx),
                });
                let div0 = String::from_str(STD_DIV0_ERROR);
                let ghost div0_view = div0@;
                self.assembler.push_cmd(Command::Jz(div0));
                self.assembler.push_cmd(Command::IDiv(rbx));
                proof {
                    let q = self.assembler.pending();
                    let t = q.subrange(p0.len() as int, q.len() as int);
                    assert(t.len() == 4);
                    assert(t[0] == ext);
                    assert(t[2] matches Command::Jz(l) && l@ == div0_view);
                    assert(t[3] == Command::IDiv(rbx));
                    assert(bin_op_finish(t, *op, *expr_size));
                }
            },
            TokenType::And => {
                self.assembler.push_cmd(Command::And { dst: Register::Al, src: Register::Bl });
                proof {
                    let q = self.assembler.pending();
                    assert(q.subrange(p0.len() as int, q.len() as int) =~= seq![Command::And { dst: Register::Al, src: Register::Bl }]);
                }
            },
            TokenType::Or => {
                self.assembler.push_cmd(Command::Or { dst: Register::Al, src: Register::Bl });
                proof {
                    let q = self.assembler.pending();
                    assert(q.subrange(p0.len() as int, q.len() as int) =~= seq![Command::Or { dst: Register::Al, src: Register::Bl }]);
                }
            },
            TokenType::Equal | TokenType::NotEqual | TokenType::GreaterEqual | TokenType::GreaterThen
            | TokenType::LessThen | TokenType::LessEqual => {
                self.visit_comparison(op, expr_size)?;
                proof {
                    let q = self.assembler.pending();
                    assert(q.subrange(p0.len() as int, q.len() as int) =~= q.skip(p0.len() as int));
                    assert(q.subrange(p0.len() as int, q.len() as int) =~= seq![
                        Command::Cmp { op1: Operand::Register(rax), op2: Operand::Register(rbx) },
                        q.last(),
                    ]);
                }
            },
            _ => return Err(codegen_error("binary operator is not supported by the compiler")),
        }
        proof {
            let q = self.assembler.pending();
            assert(q.subrange(p0.len() as int, q.len() as int) =~= q.skip(p0.len() as int));
        }
        Ok(())
    }

    /// Applies a binary operator to the values of `left` and `right`,
    /// leaving the result in `rax`.
    #[verifier::rlimit(40)]
    fn visit_bin_op(
        &mut self,
        op: &TokenType,
        left: ExprRef,
        right: ExprRef,
        Ghost(parent): Ghost<nat>,
        tree: &Tree<'a>,
        md: &'a SemanticMetadata,
    ) -> (r: Result<(), Error>)
        requires
            old(self).wf(),
            tree.wf(),
            md.wf(),
            left.index_of() < parent,
            right.index_of() < parent,
            parent < tree.expr_pool.nodes().len(),
        ensures
            r is Ok ==> final(self).assembler.pending().len() > old(self).assembler.pending().len() && bin_op_command(*op, final(self).assembler.pending().last()),
            r is Ok ==> final(self).assembler.pending().len() >= old(self).assembler.pending().len() + bin_op_width(*op) + 3,
            r is Ok ==> (spec_expr_size(md, left) matches Some(ls) && spec_expr_size(md, right) matches Some(rs)
                && bin_op_tail(final(self).assembler.pending(), *op, ls, rs)),
            final(self).current_l_num == old(self).current_l_num,
            r is Ok ==> final(self).keeps(old(self)) && final(self).added(old(self), 0) && final(self).assembler.effect() == old(self).assembler.effect() + 0,
            r matches Err(e) ==> e is CompileError,
            (*op is Plus || *op is Minus || *op is Mul || *op is IntegerDiv || is_comparison(*op)) && int_fragment_expr(
                tree,
                md,
                left.index_of() as int,
            ) && int_fragment_expr(tree, md, right.index_of() as int) ==> r is Ok,
            (*op is Plus || *op is Minus || *op is Mul || *op is IntegerDiv) && int_fragment_expr(
                tree,
                md,
                left.index_of() as int,
            ) && int_fragment_expr(tree, md, right.index_of() as int) ==> {
                let t = final(self).assembler.pending().skip(old(self).assembler.pending().len() as int);
                let ll = int_expr_len(tree, left.index_of() as int);
                let lr = int_expr_len(tree, right.index_of() as int);
                &&& t.len() == ll + lr + bin_op_width(*op) + 3
                &&& int_expr_code(tree, md, left.index_of() as int, t.subrange(0, ll))
                &&& int_expr_code(tree, md, right.index_of() as int, t.subrange(ll, ll + lr))
                &&& bin_op_tail(t, *op, Size::S32bit, Size::S32bit)
            },
        decreases parent, 0nat,
    {
        let left_size = expr_size(md, left)?;
        let right_size = expr_size(md, right)?;
        let expr_size = size_max(&right_size, &left_size)?;
        let ghost ps = self.assembler.pending();
        self.visit_expr(left, tree, md)?;
        let ghost pa = self.assembler.pending();
        self.visit_expr(right, tree, md)?;
        let ghost pb = self.assembler.pending();
        let rax = sized(Register::Rax, &expr_size)?;
        let rbx = sized(Register::Rbx, &expr_size)?;
        let ghost p0 = self.assembler.pending();
        self.assembler.push_cmd(Command::Pop(Operand::Register(Register::Rbx)));
        self.assembler.push_cmd(Command::Pop(Operand::Register(Register::Rax)));
        if size_gt(&left_size, &right_size)? {
            let src = sized(Register::Rbx, &right_size)?;
            self.assembler.push_cmd(Command::Movsx { dst: rbx, src: Operand::Register(src) });
        } else {
            let src = sized(Register::Rax, &left_size)?;
            self.assembler.push_cmd(Command::Movsx { dst: rax, src: Operand::Register(src) });
        }
        let ghost p1 = self.assembler.pending();
        proof {
            assert(p1.len() == p0.len() + 3);
            assert(p1.subrange(0, p0.len() as int) =~= p0);
        }
        self.finish_bin_op(op, &expr_size, rax, rbx)?;
        proof {
            let q = self.assembler.pending();
            assert(q.subrange(0, p1.len() as int) =~= p1);
            if (*op is Plus || *op is Minus || *op is Mul || *op is IntegerDiv) && int_fragment_expr(
                tree,
                md,
                left.index_of() as int,
            ) && int_fragment_expr(tree, md, right.index_of() as int) {
                let t = q.skip(ps.len() as int);
                let ll = int_expr_len(tree, left.index_of() as int);
                let lr = int_expr_len(tree, right.index_of() as int);
                assert(pa.skip(ps.len() as int).len() == ll);
                assert(pb.skip(pa.len() as int).len() == lr);
                assert(p0 == pb);
                assert(t.subrange(0, ll) =~= pa.skip(ps.len() as int));
                assert(t.subrange(ll, ll + lr) =~= pb.skip(pa.len() as int));
                lemma_bin_op_tail_skip(q, ps.len() as int, *op, Size::S32bit, Size::S32bit);
            }
        }
        Ok(())
    }

    /// Loads an element of an array held in the data section into `rax`.
    fn visit_index(
        &mut self,
        base: ExprRef,
        index_value: ExprRef,
        Ghost(parent): Ghost<nat>,
        tree: &Tree<'a>,
        md: &'a SemanticMetadata,
    ) -> (r: Result<(), Error>)
        requires
            old(self).wf(),
            tree.wf(),
            md.wf(),
            base.index_of() < parent,
            index_value.index_of() < parent,
            parent < tree.expr_pool.nodes().len(),
        ensures
            r is Ok ==> final(self).assembler.pending().len() >= old(self).assembler.pending().len() + 2 && (final(self).assembler.pending()[final(self).assembler.pending().len() - 2] matches Command::Lea {
                dst: Register::Rbx,
                src: Memory::GlobalMemory(_),
            }) && final(self).assembler.pending().last() matches Command::Mov {
                dst: Operand::Register(_),
                src: Operand::Memory(Memory::IndexMemory(IndexMemory { register: Register::Rbx, index: Register::Rax, .. })),
            },
            final(self).current_l_num == old(self).current_l_num,
            r is Ok ==> final(self).keeps(old(self)) && final(self).added(old(self), 0) && final(self).assembler.effect() == old(self).assembler.effect() + 0,
            r matches Err(e) ==> e is CompileError,
        decreases parent, 0nat,
    {
        let arr_kind = match md.get_var_pass_mode(&base) {
            Some(m) => *m,
            None => return Err(codegen_error("array has no pass mode")),
        };
        match arr_kind {
            VarPassMode::Val => {
                let arr_name = var_name(tree, base)?;
                let arr_type = match md.get_expr_type(&base) {
                    Some(t) => t,
                    None => return Err(codegen_error("array has no type")),
                };
                proof {
                    lemma_type_in_pool(md, md.expr_type_map@[base.index_of() as usize].index_of() as int);
                }
                let arr_size = match arr_type.get_size(md) {
                    Some(z) => z,
                    None => return Err(codegen_error("size is expected")),
                };
                let arr_element_size = match arr_size.get_element_size() {
                    Some(z) => z.clone(),
                    None => return Err(codegen_error("an array is expected")),
                };
                let right_size = expr_size(md, index_value)?;
                let dst = sized(Register::Rax, &arr_element_size)?;
                self.visit_expr(index_value, tree, md)?;
                self.setup_array_index(arr_type, &right_size, Register::Rax)?;
                self.assembler.push_cmd(Command::Lea {
                    dst: Register::Rbx,
                    src: Memory::GlobalMemory(GlobalMemory::new(arr_name, Size::S64bit)),
                });
                self.assembler.push_cmd(Command::Mov {
                    dst: Operand::Register(dst),
                    src: Operand::Memory(
                        Memory::IndexMemory(
                            IndexMemory { register: Register::Rbx, index: Register::Rax, size: arr_element_size },
                        ),
                    ),
                });
                Ok(())
            },
            VarPassMode::Ref => Err(codegen_error("arrays passed by reference are not supported by the compiler")),
        }
    }

    /// Calls a callable: arguments for by-value parameters are evaluated and
    /// popped into the argument registers, by-reference ones get the address
    /// of the variable.
    fn visit_call(&mut self, call: ExprRef, tree: &Tree<'a>, md: &'a SemanticMetadata) -> (r: Result<(), Error>)
        requires
            old(self).wf(),
            tree.wf(),
            md.wf(),
            call.index_of() < tree.expr_pool.nodes().len(),
        ensures
            r is Ok ==> (final(self).assembler.pending().len() > old(self).assembler.pending().len() && (tree.expr_pool.nodes()[call.index_of() as int] matches Expr::Call {
                name,
                ..
            } && (final(self).assembler.pending().last() matches Command::Call { name: callee } && callee@ == call_target(
                tree.source_code@.subrange(name.spec_span().spec_start() as int, name.spec_span().spec_end()),
            )))),
            final(self).current_l_num == old(self).current_l_num,
            r is Ok ==> final(self).keeps(old(self)) && final(self).added(old(self), 0) && final(self).assembler.effect() == old(self).assembler.effect() + 0,
            r matches Err(e) ==> e is CompileError,
        decreases call.index_of(), 0nat,
    {
        let (name, args) = match tree.expr_pool.get(call) {
            Expr::Call { name, args } => (name, args),
            _ => return Err(codegen_error("a call is expected")),
        };
        proof {
            assert(tree.expr_pool.nodes()[call.index_of() as int] == tree.expr_pool.nodes()[call.index_of() as int]);
        }
        let mut func_name: &'a str = token_text(tree, name);
        if str_equal(func_name, "writeln") {
            func_name = "std.io.writeln";
        } else if str_equal(func_name, "write") {
            func_name = "std.io.write";
        }
        let callable_symbol = match md.get_callable_symbol(&call) {
            Some(c) => c,
            None => return Err(codegen_error("call has no callable")),
        };
        let params = &callable_symbol.params;
        let np = params.len();
        let count: usize = if np == 0 {
            0
        } else {
            args.len()
        };
        proof {
            let c = md.callable_symbols@[call.index_of() as usize].index_of() as int;
            assert(callable_ok(md.callables.nodes()[c], md.vars.nodes(), md.types.nodes().len() as int));
            assert(expr_node_ok(tree.expr_pool.nodes()[call.index_of() as int], call.index_of() as int, tree.source_code@.len() as int));
        }
        let mut i: usize = 0;
        while i < count
            invariant
                self.current_l_num == old(self).current_l_num,
                forall|k: int| 0 <= k < params@.len() ==> (#[trigger] params@[k]).index_of() < md.vars.nodes().len()
                    && md.vars.nodes()[params@[k].index_of() as int] is Var,
                forall|k: int| 0 <= k < args@.len() ==> (#[trigger] args@[k]).index_of() < call.index_of(),
                self.keeps(old(self)),
                self.added(old(self), val_count(md, params@, i as int)),
                self.assembler.effect() == old(self).assembler.effect() + val_count(md, params@, i as int),
                tree.wf(),
                md.wf(),
                i <= count,
                count == 0 || (np == params@.len() && np > 0 && count == args@.len()),
                tree.expr_pool.nodes()[call.index_of() as int] == (Expr::Call { name: *name, args: *args }),
                call.index_of() < tree.expr_pool.nodes().len(),
                *callable_symbol == md.callables.nodes()[md.callable_symbols@[call.index_of() as usize].index_of() as int],
                md.callable_symbols@.contains_key(call.index_of() as usize),
            decreases count - i,
        {
            let v = params[i % np];
            let symbol = md.vars.get(v);
            let mode = match symbol.pass_mode() {
                Some(m) => *m,
                None => return Err(codegen_error("a parameter is expected")),
            };
            if mode == VarPassMode::Val {
                self.visit_expr(args[i], tree, md)?;
            }
            i = i + 1;
        }
        let mut j: usize = count;
        while j > 0
            invariant
                self.current_l_num == old(self).current_l_num,
                forall|k: int| 0 <= k < params@.len() ==> (#[trigger] params@[k]).index_of() < md.vars.nodes().len()
                    && md.vars.nodes()[params@[k].index_of() as int] is Var,
                forall|k: int| 0 <= k < args@.len() ==> (#[trigger] args@[k]).index_of() < call.index_of(),
                self.keeps(old(self)),
                self.added(old(self), val_count(md, params@, j as int)),
                self.assembler.effect() == old(self).assembler.effect() + val_count(md, params@, j as int),
                tree.wf(),
                md.wf(),
                j <= count,
                count == 0 || (np == params@.len() && np > 0 && count == args@.len()),
                tree.expr_pool.nodes()[call.index_of() as int] == (Expr::Call { name: *name, args: *args }),
                call.index_of() < tree.expr_pool.nodes().len(),
                *callable_symbol == md.callables.nodes()[md.callable_symbols@[call.index_of() as usize].index_of() as int],
                md.callable_symbols@.contains_key(call.index_of() as usize),
            decreases j,
        {
            j = j - 1;
            let v = params[j % np];
            let symbol = md.vars.get(v);
            let reg = if j < 4 {
                Register::from_param_index64(j)
            } else {
                return Err(codegen_error("more input variables are not implemented yet"));
            };
            let param_mode = match symbol.pass_mode() {
                Some(m) => *m,
                None => return Err(codegen_error("a parameter is expected")),
            };
            let arg = args[j];
            match param_mode {
                VarPassMode::Val => {
                    proof {
                        assert(md.vars.nodes()[v.index_of() as int].spec_type_symbol().index_of() < md.types.nodes().len());
                    }
                    let left_size = type_ref_size(md, symbol.type_symbol())?;
                    let right_size = expr_size(md, arg)?;
                    self.assembler.push_cmd(Command::Pop(Operand::Register(reg)));
                    if size_gt(&left_size, &right_size)? {
                        let src = sized(reg, &right_size)?;
                        self.assembler.push_cmd(Command::Movsx { dst: reg, src: Operand::Register(src) });
                    }
                },
                VarPassMode::Ref => {
                    let var_pass_mode = match md.get_var_pass_mode(&arg) {
                        Some(m) => *m,
                        None => return Err(codegen_error("a variable is expected")),
                    };
                    let mem = self.get_variable_memory_address(arg, tree, md)?;
                    match var_pass_mode {
                        VarPassMode::Val => {
                            self.assembler.push_cmd(Command::Lea { dst: reg, src: mem });
                        },
                        VarPassMode::Ref => {
                            self.assembler.push_cmd(Command::Mov { dst: Operand::Register(reg), src: Operand::Memory(mem) });
                        },
                    }
                },
            }
        }
        self.assembler.push_cmd(Command::Call { name: func_name });
        Ok(())
    }
}

proof fn lemma_frames_fit_top<'a>(old: Seq<ActivationRecord<'a>>, new: Seq<ActivationRecord<'a>>)
    requires
        frames_fit(old),
        old.len() == new.len(),
        new.len() > 0,
        new.drop_last() == old.drop_last(),
        vars_fit(new.last().vars()),
    ensures
        frames_fit(new),
{
    assert forall|i: int| 0 <= i < new.len() implies vars_fit(#[trigger] new[i].vars()) by {
        if i < new.len() - 1 {
            assert(new[i] == new.drop_last()[i]);
            assert(old[i] == old.drop_last()[i]);
        }
    }
}

proof fn lemma_frames_fit_push<'a>(old: Seq<ActivationRecord<'a>>, new: Seq<ActivationRecord<'a>>)
    requires
        frames_fit(old),
        new.len() == old.len() + 1,
        new.drop_last() == old,
        vars_fit(new.last().vars()),
    ensures
        frames_fit(new),
{
    assert forall|i: int| 0 <= i < new.len() implies vars_fit(#[trigger] new[i].vars()) by {
        if i < new.len() - 1 {
            assert(new[i] == new.drop_last()[i]);
        }
    }
}

proof fn lemma_frames_fit_pop<'a>(frames: Seq<ActivationRecord<'a>>)
    requires
        frames_fit(frames),
        frames.len() > 0,
    ensures
        frames_fit(frames.drop_last()),
{
    assert forall|i: int| 0 <= i < frames.drop_last().len() implies vars_fit(#[trigger] frames.drop_last()[i].vars()) by {
        assert(frames.drop_last()[i] == frames[i]);
    }
}

impl<'a> Compiler<'a> {
    /// Adds a variable of `size` to the innermost frame, if the frame can
    /// still be addressed with it.
    fn push_local_checked(&mut self, name: &str, size: Size) -> (r: Result<(), Error>)
        requires
            old(self).wf(),
        ensures
            final(self).assembler == old(self).assembler,
            final(self).current_l_num == old(self).current_l_num,
            final(self).loop_exit_labels == old(self).loop_exit_labels,
            final(self).loop_start_labels == old(self).loop_start_labels,
            r is Ok ==> {
                &&& final(self).wf()
                &&& final(self).call_stack.depth() == old(self).call_stack.depth()
                &&& final(self).call_stack.frames().drop_last() == old(self).call_stack.frames().drop_last()
                &&& final(self).call_stack.top().vars() == old(self).call_stack.top().vars().push((name@, size))
            },
            r matches Err(e) ==> e is CompileError,
    {
        proof {
            assert(self.call_stack.frames()[self.call_stack.depth() - 1] == self.call_stack.top());
        }
        let b = size_bytes(&size)?;
        if !self.call_stack.has_room(b) {
            return Err(codegen_error("the frame is too large"));
        }
        let ghost before = self.call_stack.top().vars();
        let ghost frames0 = self.call_stack.frames();
        self.call_stack.push_var(name, size);
        proof {
            lemma_vars_fit_push(before, name@, size);
            lemma_frames_fit_top(frames0, self.call_stack.frames());
        }
        Ok(())
    }

    /// Adds a pointer-sized variable to the innermost frame, if the frame
    /// can still be addressed with it.
    fn push_ptr_checked(&mut self, name: &str) -> (r: Result<(), Error>)
        requires
            old(self).wf(),
        ensures
            final(self).assembler == old(self).assembler,
            final(self).current_l_num == old(self).current_l_num,
            final(self).loop_exit_labels == old(self).loop_exit_labels,
            final(self).loop_start_labels == old(self).loop_start_labels,
            r is Ok ==> {
                &&& final(self).wf()
                &&& final(self).call_stack.depth() == old(self).call_stack.depth()
                &&& final(self).call_stack.frames().drop_last() == old(self).call_stack.frames().drop_last()
                &&& final(self).call_stack.top().vars() == old(self).call_stack.top().vars().push((name@, Size::S64bit))
            },
            r matches Err(e) ==> e is CompileError,
    {
        proof {
            assert(self.call_stack.frames()[self.call_stack.depth() - 1] == self.call_stack.top());
        }
        if !self.call_stack.has_room(8) {
            return Err(codegen_error("the frame is too large"));
        }
        let ghost before = self.call_stack.top().vars();
        let ghost frames0 = self.call_stack.frames();
        self.call_stack.push_ptr(name);
        proof {
            lemma_vars_fit_push(before, name@, Size::S64bit);
            lemma_frames_fit_top(frames0, self.call_stack.frames());
        }
        Ok(())
    }

    /// Reserves a local variable of a routine; hands back its initial value,
    /// if the declaration gives one.
    fn visit_var_decl_local(
        &mut self,
        default_value: Option<ExprRef>,
        var: ExprRef,
        tree: &Tree<'a>,
        md: &'a SemanticMetadata,
    ) -> (r: Result<Option<(&'a str, Size, ExprRef)>, Error>)
        requires
            old(self).wf(),
            tree.wf(),
            md.wf(),
            var.index_of() < tree.expr_pool.nodes().len(),
        ensures
            final(self).assembler == old(self).assembler,
            final(self).current_l_num == old(self).current_l_num,
            final(self).loop_exit_labels == old(self).loop_exit_labels,
            final(self).loop_start_labels == old(self).loop_start_labels,
            r is Ok ==> {
                &&& final(self).wf()
                &&& final(self).call_stack.depth() == old(self).call_stack.depth()
                &&& final(self).call_stack.frames().drop_last() == old(self).call_stack.frames().drop_last()
            },
            r matches Ok(Some(d)) ==> default_value == Some(d.2),
            r matches Ok(None) ==> default_value is None,
            r matches Err(e) ==> e is CompileError,
    {
        let var_name = var_name(tree, var)?;
        let var_size = expr_size(md, var)?;
        self.push_local_checked(var_name, var_size.clone())?;
        match default_value {
            Some(v) => Ok(Some((var_name, var_size, v))),
            None => Ok(None),
        }
    }

    /// Generates a statement.
    fn visit_stmt(&mut self, stmt: StmtRef, tree: &Tree<'a>, md: &'a SemanticMetadata) -> (r: Result<(), Error>)
        requires
            old(self).wf(),
            tree.wf(),
            md.wf(),
            stmt.index_of() < tree.stmt_pool.nodes().len(),
        ensures
            r is Ok ==> match tree.stmt_pool.nodes()[stmt.index_of() as int] {
                Stmt::NoOp => *final(self) == *old(self),
                Stmt::Block { .. } => final(self).ends_block(),
                Stmt::Program { block, .. } => tree.stmt_pool.nodes()[block.index_of() as int] is Block ==> final(self).ends_block(),
                Stmt::While { .. } => final(self).ends_at_label(label_text(old(self).current_l_num as nat + 1, "endwhile"@)),
                Stmt::If { elifs, else_statement, .. } => final(self).ends_at_label(
                    if elifs@.len() == 0 && else_statement is None {
                        label_text(old(self).current_l_num as nat, "else"@)
                    } else {
                        label_text(old(self).current_l_num as nat + 1, "endif"@)
                    },
                ),
                Stmt::For { .. } => final(self).assembler.pending() == seq![Command::Pop(Operand::Register(Register::Rdx))]
                    && final(self).assembler.written().len() > 0 && (final(self).assembler.written().last() matches AsmLine::Label(
                    d,
                ) && d@ == label_text(old(self).current_l_num as nat + 1, "endfor"@)) && exists|k: int| #[trigger] for_loop_head(
                    final(self).assembler.written(),
                    k,
                    label_text(old(self).current_l_num as nat, "for_body"@),
                    label_text(old(self).current_l_num as nat + 1, "endfor"@),
                ),
                Stmt::Assign { .. } => final(self).assembler.pending().len() > old(self).assembler.pending().len() && (final(self).assembler.pending().last() matches Command::Mov { dst: Operand::Memory(_), src: Operand::Register(_) }),
                Stmt::Call { .. } => final(self).assembler.pending().len() > old(self).assembler.pending().len() && (final(self).assembler.pending().last() is Call),
                Stmt::Break => final(self).assembler.pending() == old(self).assembler.pending().push(
                    Command::Jmp(old(self).loop_exit_labels@.last()),
                ),
                Stmt::Continue => final(self).assembler.pending() == old(self).assembler.pending().push(
                    Command::Jmp(old(self).loop_start_labels@.last()),
                ),
                Stmt::Exit(_) => final(self).assembler.pending().len() >= 2 && final(self).assembler.pending()[final(self).assembler.pending().len() - 2] == Command::Leave && final(self).assembler.pending().last() == Command::Ret,
                Stmt::Compound(_) => true,
            },
            r is Ok ==> final(self).keeps(old(self)),
            r matches Err(e) ==> e is CompileError,
            int_fragment_stmt(tree, md, stmt.index_of() as int) && old(self).current_l_num + labels_needed(
                tree,
                stmt.index_of() as int,
            ) <= u64::MAX ==> r is Ok && final(self).current_l_num <= old(self).current_l_num + labels_needed(
                tree,
                stmt.index_of() as int,
            ),
            r is Ok && plain_stmt(tree, stmt.index_of() as int) ==> final(self).assembler.effect() == old(
                self,
            ).assembler.effect(),
            tree.stmt_pool.nodes()[stmt.index_of() as int] matches Stmt::Assign { left, right } ==> (int_fragment_stmt(
                tree,
                md,
                stmt.index_of() as int,
            ) ==> int_assign_code(
                tree,
                md,
                left.index_of() as int,
                right.index_of() as int,
                final(self).assembler.pending().skip(old(self).assembler.pending().len() as int),
            )),
            old(self).call_stack.top().vars().len() == 0 && (int_fragment_block(tree, md, stmt.index_of() as int)
                || (tree.stmt_pool.nodes()[stmt.index_of() as int] matches Stmt::Program { block, .. }
                && int_fragment_block(tree, md, block.index_of() as int))) && old(self).current_l_num + labels_needed(
                tree,
                stmt.index_of() as int,
            ) <= u64::MAX ==> r is Ok,
        decreases stmt.index_of(), 3nat,
    {
        let ghost n = stmt.index_of();
        proof {
            assert(stmt_node_ok(
                tree.stmt_pool.nodes()[n as int],
                n as int,
                tree.expr_pool.nodes().len() as int,
                tree.type_pool.nodes().len() as int,
                tree.source_code@.len() as int,
            ));
        }
        match tree.stmt_pool.get(stmt) {
            Stmt::Program { block, .. } => self.visit_stmt(*block, tree, md),
            Stmt::Block { .. } => self.enter_global_scope(stmt, tree, md),
            Stmt::Compound(stmts) => {
                let mut i: usize = 0;
                while i < stmts.len()
                    invariant
                        self.keeps(old(self)),
                        tree.wf(),
                        md.wf(),
                        i <= stmts@.len(),
                        forall|k: int| 0 <= k < stmts@.len() ==> (#[trigger] stmts@[k]).index_of() < n,
                        n < tree.stmt_pool.nodes().len(),
                        n == stmt.index_of(),
                        tree.stmt_pool.nodes()[n as int] == Stmt::Compound(*stmts),
                        plain_stmt(tree, n as int) ==> self.assembler.effect() == old(self).assembler.effect(),
                        int_fragment_stmt(tree, md, n as int) && old(self).current_l_num + labels_needed(tree, n as int)
                            <= u64::MAX ==> self.current_l_num <= old(self).current_l_num + labels_of(
                            tree,
                            stmts@,
                            n as int,
                            i as int,
                        ),
                    decreases stmts@.len() - i,
                {
                    proof {
                        lemma_labels_of_mono(tree, stmts@, n as int, i as int + 1, stmts@.len() as int);
                        assert(labels_needed(tree, n as int) == labels_of(tree, stmts@, n as int, stmts@.len() as int));
                    }
                    self.visit_stmt(stmts[i], tree, md)?;
                    i = i + 1;
                }
                Ok(())
            },
            Stmt::NoOp => Ok(()),
            Stmt::Call { call } => self.visit_call(*call, tree, md),
            Stmt::Assign { left, right } => self.visit_assign(*left, *right, tree, md),
            Stmt::If { cond, elifs, else_statement } => self.visit_if(cond, elifs, *else_statement, Ghost(n), tree, md),
            Stmt::While { cond, body } => self.visit_while(*cond, *body, Ghost(n), tree, md),
            Stmt::For { var, init, end, body } => self.visit_for(stmt, var, *init, *end, *body, tree, md),
            Stmt::Break => self.visit_break(),
            Stmt::Continue => self.visit_continue(),
            Stmt::Exit(val) => self.visit_exit(*val, tree, md),
        }
    }

    /// Assigns to a variable or to an element of an array.
    fn visit_assign(&mut self, left: ExprRef, right: ExprRef, tree: &Tree<'a>, md: &'a SemanticMetadata) -> (r:
        Result<(), Error>)
        requires
            old(self).wf(),
            tree.wf(),
            md.wf(),
            left.index_of() < tree.expr_pool.nodes().len(),
            right.index_of() < tree.expr_pool.nodes().len(),
        ensures
            r is Ok ==> final(self).assembler.pending().len() > old(self).assembler.pending().len() && final(self).assembler.pending().last() matches Command::Mov {
                dst: Operand::Memory(_),
                src: Operand::Register(_),
            },
            final(self).current_l_num == old(self).current_l_num,
            r is Ok ==> final(self).keeps(old(self)) && final(self).added(old(self), 0) && final(self).assembler.effect() == old(self).assembler.effect() + 0,
            r matches Err(e) ==> e is CompileError,
            tree.expr_pool.nodes()[left.index_of() as int] is Var && int_fragment_expr(tree, md, left.index_of() as int)
                && int_fragment_expr(tree, md, right.index_of() as int) ==> r is Ok,
            tree.expr_pool.nodes()[left.index_of() as int] is Var && int_fragment_expr(tree, md, left.index_of() as int)
                && int_fragment_expr(tree, md, right.index_of() as int) ==> int_assign_code(
                tree,
                md,
                left.index_of() as int,
                right.index_of() as int,
                final(self).assembler.pending().skip(old(self).assembler.pending().len() as int),
            ),
    {
        proof {
            assert(expr_node_ok(
                tree.expr_pool.nodes()[left.index_of() as int],
                left.index_of() as int,
                tree.source_code@.len() as int,
            ));
        }
        match tree.expr_pool.get(left) {
            Expr::Var { .. } => self.visit_assign_var(left, right, tree, md),
            Expr::Index { base, index_value, .. } => self.visit_assign_index(*base, *index_value, right, tree, md),
            _ => Err(codegen_error("assign should only be for variable or index")),
        }
    }

    /// Stores the value of `right` into the variable `left`, sign-extended
    /// where the variable is wider.
    fn visit_assign_var(&mut self, left: ExprRef, right: ExprRef, tree: &Tree<'a>, md: &'a SemanticMetadata) -> (r:
        Result<(), Error>)
        requires
            old(self).wf(),
            tree.wf(),
            md.wf(),
            left.index_of() < tree.expr_pool.nodes().len(),
            right.index_of() < tree.expr_pool.nodes().len(),
        ensures
            r is Ok ==> final(self).assembler.pending().len() > old(self).assembler.pending().len() && final(self).assembler.pending().last() matches Command::Mov {
                dst: Operand::Memory(_),
                src: Operand::Register(_),
            },
            final(self).current_l_num == old(self).current_l_num,
            r is Ok ==> final(self).keeps(old(self)) && final(self).added(old(self), 0) && final(self).assembler.effect() == old(self).assembler.effect() + 0,
            r matches Err(e) ==> e is CompileError,
            tree.expr_pool.nodes()[left.index_of() as int] is Var && int_fragment_expr(tree, md, left.index_of() as int)
                && int_fragment_expr(tree, md, right.index_of() as int) ==> r is Ok,
            tree.expr_pool.nodes()[left.index_of() as int] is Var && int_fragment_expr(tree, md, left.index_of() as int)
                && int_fragment_expr(tree, md, right.index_of() as int) ==> int_assign_code(
                tree,
                md,
                left.index_of() as int,
                right.index_of() as int,
                final(self).assembler.pending().skip(old(self).assembler.pending().len() as int),
            ),
    {
        let var_name = var_name(tree, left)?;
        let left_size = expr_size(md, left)?;
        let right_size = expr_size(md, right)?;
        let pass_mode = match md.get_var_pass_mode(&left) {
            Some(m) => *m,
            None => return Err(codegen_error("a variable is expected")),
        };
        let wider = size_gt(&left_size, &right_size)?;
        let ghost p0 = self.assembler.pending();
        self.visit_expr(right, tree, md)?;
        let ghost pr = self.assembler.pending();
        self.assembler.push_cmd(Command::Pop(Operand::Register(Register::Rax)));
        match pass_mode {
            VarPassMode::Val => {
                let source_op = match md.var_types.get(&left.to_index()) {
                    Some(VarLocality::Local) => Operand::Memory(Memory::StackMemory(self.lookup_local(var_name)?)),
                    Some(VarLocality::Global) => Operand::Memory(
                        Memory::GlobalMemory(GlobalMemory::new(var_name, left_size.clone())),
                    ),
                    None => return Err(codegen_error("variable has no locality")),
                };
                let rax_left = sized(Register::Rax, &left_size)?;
                if wider {
                    let rax_right = sized(Register::Rax, &right_size)?;
                    self.assembler.push_cmd(Command::Movsx { dst: rax_left, src: Operand::Register(rax_right) });
                }
                self.assembler.push_cmd(Command::Mov { dst: source_op, src: Operand::Register(rax_left) });
            },
            VarPassMode::Ref => {
                let var_addr = self.lookup_addr(var_name)?;
                self.assembler.push_cmd(Command::Mov {
                    dst: Operand::Register(Register::Rbx),
                    src: Operand::Memory(Memory::StackMemory(var_addr)),
                });
                let target = Operand::Memory(Memory::StackMemory(Register::Rbx.as_addr(left_size.clone())));
                if wider {
                    let rdx_left = sized(Register::Rdx, &left_size)?;
                    let rax_right = sized(Register::Rax, &right_size)?;
                    self.assembler.push_cmd(Command::Movsx { dst: rdx_left, src: Operand::Register(rax_right) });
                    self.assembler.push_cmd(Command::Mov { dst: target, src: Operand::Register(rdx_left) });
                } else {
                    let rax_left = sized(Register::Rax, &left_size)?;
                    self.assembler.push_cmd(Command::Mov { dst: target, src: Operand::Register(rax_left) });
                }
            },
        }
        proof {
            if tree.expr_pool.nodes()[left.index_of() as int] is Var && int_fragment_expr(tree, md, left.index_of() as int)
                && int_fragment_expr(tree, md, right.index_of() as int) {
                let t = self.assembler.pending().skip(p0.len() as int);
                let lr = int_expr_len(tree, right.index_of() as int);
                assert(pr.skip(p0.len() as int).len() == lr);
                assert(t.subrange(0, lr) =~= pr.skip(p0.len() as int));
            }
        }
        Ok(())
    }

    /// Stores the value of `right` into an element of a global array,
    /// checking the index against the array's bounds.
    fn visit_assign_index(
        &mut self,
        base: ExprRef,
        index_value: ExprRef,
        right: ExprRef,
        tree: &Tree<'a>,
        md: &'a SemanticMetadata,
    ) -> (r: Result<(), Error>)
        requires
            old(self).wf(),
            tree.wf(),
            md.wf(),
            base.index_of() < tree.expr_pool.nodes().len(),
            index_value.index_of() < tree.expr_pool.nodes().len(),
            right.index_of() < tree.expr_pool.nodes().len(),
        ensures
            r is Ok ==> final(self).assembler.pending().len() > old(self).assembler.pending().len() && final(self).assembler.pending().last() matches Command::Mov {
                dst: Operand::Memory(Memory::IndexMemory(_)),
                src: Operand::Register(_),
            },
            final(self).current_l_num == old(self).current_l_num,
            r is Ok ==> final(self).keeps(old(self)) && final(self).added(old(self), 0) && final(self).assembler.effect() == old(self).assembler.effect() + 0,
            r matches Err(e) ==> e is CompileError,
    {
        let var_name = var_name(tree, base)?;
        let left_type = match md.get_expr_type(&base) {
            Some(t) => t,
            None => return Err(codegen_error("array has no type")),
        };
        proof {
            lemma_type_in_pool(md, md.expr_type_map@[base.index_of() as usize].index_of() as int);
        }
        let whole_size = match left_type.get_size(md) {
            Some(z) => z,
            None => return Err(codegen_error("size is expected")),
        };
        let left_size = match whole_size.get_element_size() {
            Some(z) => z.clone(),
            None => return Err(codegen_error("an array is expected")),
        };
        let right_size = expr_size(md, right)?;
        let pass_mode = match md.get_var_pass_mode(&base) {
            Some(m) => *m,
            None => return Err(codegen_error("a variable is expected")),
        };
        if pass_mode == VarPassMode::Ref {
            return Err(codegen_error("arrays passed by reference are not supported by the compiler"));
        }
        let locality = match md.var_types.get(&base.to_index()) {
            Some(l) => *l,
            None => return Err(codegen_error("variable has no locality")),
        };
        if locality == VarLocality::Local {
            return Err(codegen_error("local arrays are not supported by the compiler"));
        }
        let wider = size_gt(&left_size, &right_size)?;
        let rax_left = sized(Register::Rax, &left_size)?;
        self.visit_expr(index_value, tree, md)?;
        self.visit_expr(right, tree, md)?;
        self.assembler.push_cmd(Command::Pop(Operand::Register(Register::Rax)));
        self.setup_array_index(left_type, &right_size, Register::Rcx)?;
        self.assembler.push_cmd(Command::Lea {
            dst: Register::Rbx,
            src: Memory::GlobalMemory(GlobalMemory::new(var_name, Size::S64bit)),
        });
        let source_op = Operand::Memory(
            Memory::IndexMemory(IndexMemory { register: Register::Rbx, index: Register::Rcx, size: left_size }),
        );
        if wider {
            let rax_right = sized(Register::Rax, &right_size)?;
            self.assembler.push_cmd(Command::Movsx { dst: rax_left, src: Operand::Register(rax_right) });
        }
        self.assembler.push_cmd(Command::Mov { dst: source_op, src: Operand::Register(rax_left) });
        Ok(())
    }

    /// Leaves the routine, with the value of `val` in `rax` if there is one,
    /// else zero.
    fn visit_exit(&mut self, val: Option<ExprRef>, tree: &Tree<'a>, md: &'a SemanticMetadata) -> (r: Result<(), Error>)
        requires
            old(self).wf(),
            tree.wf(),
            md.wf(),
            val matches Some(v) ==> v.index_of() < tree.expr_pool.nodes().len(),
        ensures
            val is None ==> r is Ok && final(self).assembler.pending() == old(self).assembler.pending() + seq![
                Command::Xor { dst: Register::Eax, src: Register::Eax },
                Command::Leave,
                Command::Ret,
            ],
            r is Ok && val is Some ==> final(self).assembler.pending().len() >= old(self).assembler.pending().len() + 3 && final(self).assembler.pending()[final(self).assembler.pending().len() - 3]
                == Command::Pop(Operand::Register(Register::Rax)) && final(self).assembler.pending()[final(self).assembler.pending().len() - 2] == Command::Leave && final(self).assembler.pending().last()
                == Command::Ret,
            r is Ok ==> final(self).keeps(old(self)) && final(self).added(old(self), 0) && final(self).assembler.effect() == old(self).assembler.effect() + 0,
            r matches Err(e) ==> e is CompileError,
    {
        match val {
            Some(expr) => {
                self.visit_expr(expr, tree, md)?;
                self.assembler.push_cmd(Command::Pop(Operand::Register(Register::Rax)));
            },
            None => {
                self.assembler.push_cmd(Command::Xor { dst: Register::Eax, src: Register::Eax });
            },
        }
        self.assembler.push_cmd(Command::Leave);
        self.assembler.push_cmd(Command::Ret);
        Ok(())
    }

    /// Evaluates a condition and jumps to `target` when it is false.
    fn branch_unless(&mut self, cond: ExprRef, target: &String, tree: &Tree<'a>, md: &'a SemanticMetadata) -> (r: Result<
        (),
        Error,
    >)
        requires
            old(self).wf(),
            tree.wf(),
            md.wf(),
            cond.index_of() < tree.expr_pool.nodes().len(),
        ensures
            r is Ok ==> final(self).assembler.pending().len() >= old(self).assembler.pending().len() + 3 && final(self).assembler.pending()[final(self).assembler.pending().len() - 3]
                == Command::Pop(Operand::Register(Register::Rax)) && final(self).assembler.pending()[final(self).assembler.pending().len() - 2] == (Command::Cmp {
                op1: Operand::Register(Register::Al),
                op2: Operand::Register(Register::Integer(0)),
            }) && final(self).assembler.pending().last() == Command::Je(*target),
            final(self).current_l_num == old(self).current_l_num,
            r is Ok ==> final(self).keeps(old(self)) && final(self).added(old(self), 0) && final(self).assembler.effect() == old(self).assembler.effect() + 0,
            r matches Err(e) ==> e is CompileError,
            int_fragment_cond(tree, md, cond.index_of() as int) ==> r is Ok,
    {
        self.visit_expr(cond, tree, md)?;
        self.assembler.push_cmd(Command::Pop(Operand::Register(Register::Rax)));
        self.assembler.push_cmd(Command::Cmp {
            op1: Operand::Register(Register::Al),
            op2: Operand::Register(Register::Integer(0)),
        });
        self.assembler.push_cmd(Command::Je(target.clone()));
        Ok(())
    }

    /// `if` with its `else if` branches and its `else`: each condition false
    /// jumps to the next test, each branch taken jumps to the end.
    fn visit_if(
        &mut self,
        cond: &Condition,
        elifs: &Vec<Condition>,
        else_statement: Option<StmtRef>,
        Ghost(parent): Ghost<nat>,
        tree: &Tree<'a>,
        md: &'a SemanticMetadata,
    ) -> (r: Result<(), Error>)
        requires
            old(self).wf(),
            tree.wf(),
            md.wf(),
            parent < tree.stmt_pool.nodes().len(),
            cond_ok(*cond, parent as int, tree.expr_pool.nodes().len() as int),
            forall|k: int| 0 <= k < elifs@.len() ==> cond_ok(#[trigger] elifs@[k], parent as int, tree.expr_pool.nodes().len() as int),
            else_statement matches Some(e) ==> e.index_of() < parent,
        ensures
            r is Ok ==> final(self).ends_at_label(
                if elifs@.len() == 0 && else_statement is None {
                    label_text(old(self).current_l_num as nat, "else"@)
                } else {
                    label_text(old(self).current_l_num as nat + 1, "endif"@)
                },
            ),
            r is Ok ==> final(self).keeps(old(self)),
            r matches Err(e) ==> e is CompileError,
            r is Ok && plain_stmt(tree, cond.expr.index_of() as int) && (forall|k: int|
                0 <= k < elifs@.len() ==> plain_stmt(tree, (#[trigger] elifs@[k]).expr.index_of() as int)) && (
            match else_statement {
                Some(e) => plain_stmt(tree, e.index_of() as int),
                None => true,
            }) ==> final(self).assembler.effect() == old(self).assembler.effect(),
            elifs@.len() == 0 && int_fragment_cond(tree, md, cond.cond.index_of() as int) && int_fragment_stmt(
                tree,
                md,
                cond.expr.index_of() as int,
            ) && (match else_statement {
                Some(e) => int_fragment_stmt(tree, md, e.index_of() as int),
                None => true,
            }) && old(self).current_l_num + 2 + labels_needed(tree, cond.expr.index_of() as int) + else_labels(
                tree,
                else_statement,
            ) <= u64::MAX ==> r is Ok && final(self).current_l_num <= old(self).current_l_num + 2 + labels_needed(
                tree,
                cond.expr.index_of() as int,
            ) + else_labels(tree, else_statement),
        decreases parent, 2nat,
    {
        let mut else_l = self.next_l("else")?;
        let end_l = self.next_l("endif")?;
        self.branch_unless(cond.cond, &else_l, tree, md)?;
        self.visit_stmt(cond.expr, tree, md)?;
        let ghost l_then = self.current_l_num;
        let mut i: usize = 0;
        while i < elifs.len()
            invariant
                elifs@.len() == 0 ==> self.current_l_num == l_then,
                end_l@ == label_text(old(self).current_l_num as nat + 1, "endif"@),
                elifs@.len() == 0 ==> else_l@ == label_text(old(self).current_l_num as nat, "else"@),
                self.keeps(old(self)),
                tree.wf(),
                md.wf(),
                i <= elifs@.len(),
                parent < tree.stmt_pool.nodes().len(),
                forall|k: int| 0 <= k < elifs@.len() ==> cond_ok(#[trigger] elifs@[k], parent as int, tree.expr_pool.nodes().len() as int),
                (plain_stmt(tree, cond.expr.index_of() as int) && (forall|k: int|
                    0 <= k < elifs@.len() ==> plain_stmt(tree, (#[trigger] elifs@[k]).expr.index_of() as int))) ==> self.assembler.effect()
                    == old(self).assembler.effect(),
            decreases elifs@.len() - i,
        {
            let elif = &elifs[i];
            self.assembler.push_cmd(Command::Jmp(end_l.clone()));
            self.assembler.label(else_l.as_str());
            else_l = self.next_l("else")?;
            if i + 1 < elifs.len() || else_statement.is_some() {
                self.branch_unless(elif.cond, &else_l, tree, md)?;
            } else {
                self.branch_unless(elif.cond, &end_l, tree, md)?;
            }
            self.visit_stmt(elif.expr, tree, md)?;
            i = i + 1;
        }
        match else_statement {
            Some(else_stmt) => {
                self.assembler.push_cmd(Command::Jmp(end_l.clone()));
                self.assembler.label(else_l.as_str());
                self.visit_stmt(else_stmt, tree, md)?;
                self.assembler.label(end_l.as_str());
            },
            None => {
                if elifs.len() > 0 {
                    self.assembler.label(end_l.as_str());
                } else {
                    self.assembler.label(else_l.as_str());
                }
            },
        }
        Ok(())
    }

    /// `while`: test at the start label, leave through the end label.
    fn visit_while(
        &mut self,
        cond: ExprRef,
        body: StmtRef,
        Ghost(parent): Ghost<nat>,
        tree: &Tree<'a>,
        md: &'a SemanticMetadata,
    ) -> (r: Result<(), Error>)
        requires
            old(self).wf(),
            tree.wf(),
            md.wf(),
            parent < tree.stmt_pool.nodes().len(),
            cond.index_of() < tree.expr_pool.nodes().len(),
            body.index_of() < parent,
        ensures
            r is Ok ==> final(self).ends_at_label(label_text(old(self).current_l_num as nat + 1, "endwhile"@)),
            r is Ok ==> final(self).keeps(old(self)),
            r matches Err(e) ==> e is CompileError,
            r is Ok && plain_stmt(tree, body.index_of() as int) ==> final(self).assembler.effect() == old(
                self,
            ).assembler.effect(),
            int_fragment_cond(tree, md, cond.index_of() as int) && int_fragment_stmt(tree, md, body.index_of() as int)
                && old(self).current_l_num + 2 + labels_needed(tree, body.index_of() as int) <= u64::MAX ==> r is Ok
                && final(self).current_l_num <= old(self).current_l_num + 2 + labels_needed(tree, body.index_of() as int),
        decreases parent, 2nat,
    {
        let loop_l = self.next_l("while")?;
        let loop_end_l = self.next_l("endwhile")?;
        self.enter_loop(loop_l.as_str(), loop_end_l.as_str());
        self.assembler.label(loop_l.as_str());
        self.branch_unless(cond, &loop_end_l, tree, md)?;
        self.visit_stmt(body, tree, md)?;
        self.assembler.push_cmd(Command::Jmp(loop_l));
        self.assembler.label(loop_end_l.as_str());
        self.exit_loop();
        proof {
            assert(self.loop_start_labels@ =~= old(self).loop_start_labels@);
            assert(self.loop_exit_labels@ =~= old(self).loop_exit_labels@);
        }
        Ok(())
    }

    /// Memory and size of the loop variable of the `for` statement `stmt`.
    fn loop_var_memory(&self, stmt: StmtRef, var: &Token, tree: &Tree<'a>, md: &'a SemanticMetadata) -> (r: Result<
        (Operand<'a>, Size),
        Error,
    >)
        requires
            self.wf(),
            tree.wf(),
            md.wf(),
            var.spec_span().spec_end() <= tree.source_code@.len(),
        ensures
            r matches Err(e) ==> e is CompileError,
            r matches Ok((op, z)) ==> {
                let text = tree.source_code@.subrange(var.spec_span().spec_start() as int, var.spec_span().spec_end());
                &&& md.loop_var_symbols@.contains_key(stmt.index_of() as usize)
                &&& md.loop_var_types@.contains_key(stmt.index_of() as usize)
                &&& size_of(
                    md.types.nodes(),
                    md.types.nodes()[md.vars.nodes()[md.loop_var_symbols@[stmt.index_of() as usize].index_of() as int].spec_type_symbol().index_of() as int],
                ) == Some(z)
                &&& match md.loop_var_types@[stmt.index_of() as usize] {
                    VarLocality::Local => op matches Operand::Memory(Memory::StackMemory(sm)) && offset_of(
                        self.call_stack.top().vars(),
                        text,
                    ) matches Some((o, w)) && sm == (StackMemory::<'a> {
                        base: Register::Rbp,
                        offset: (o + w.spec_bytes()) as usize,
                        size: w,
                    }),
                    VarLocality::Global => op matches Operand::Memory(Memory::GlobalMemory(g)) && g.name@ == text && g.size == z,
                }
            },
    {
        let name = token_text(tree, var);
        let v = match md.loop_var_symbols.get(&stmt.to_index()) {
            Some(v) => *v,
            None => return Err(codegen_error("loop variable has no symbol")),
        };
        proof {
            assert(md.vars.nodes()[v.index_of() as int].spec_type_symbol().index_of() < md.types.nodes().len());
        }
        let symbol = md.vars.get(v);
        let size = type_ref_size(md, symbol.type_symbol())?;
        match md.loop_var_types.get(&stmt.to_index()) {
            Some(VarLocality::Local) => Ok((Operand::Memory(Memory::StackMemory(self.lookup_local(name)?)), size)),
            Some(VarLocality::Global) => {
                let mem = GlobalMemory::new(name, size.clone());
                Ok((Operand::Memory(Memory::GlobalMemory(mem)), size))
            },
            None => Err(codegen_error("loop variable has no locality")),
        }
    }

    /// `for var := init to end do body`: the bound is kept on the machine
    /// stack while the loop runs and dropped after it.
    fn visit_for(
        &mut self,
        stmt: StmtRef,
        var: &Token,
        init: ExprRef,
        end: ExprRef,
        body: StmtRef,
        tree: &Tree<'a>,
        md: &'a SemanticMetadata,
    ) -> (r: Result<(), Error>)
        requires
            old(self).wf(),
            tree.wf(),
            md.wf(),
            stmt.index_of() < tree.stmt_pool.nodes().len(),
            var.spec_span().spec_end() <= tree.source_code@.len(),
            init.index_of() < tree.expr_pool.nodes().len(),
            end.index_of() < tree.expr_pool.nodes().len(),
            body.index_of() < stmt.index_of(),
        ensures
            r is Ok ==> final(self).assembler.pending() == seq![Command::Pop(Operand::Register(Register::Rdx))]
                && final(self).assembler.written().len() > 0 && (final(self).assembler.written().last() matches AsmLine::Label(
                d,
            ) && d@ == label_text(old(self).current_l_num as nat + 1, "endfor"@)),
            r is Ok ==> final(self).keeps(old(self)),
            r matches Err(e) ==> e is CompileError,
            r is Ok && plain_stmt(tree, body.index_of() as int) ==> final(self).assembler.effect() == old(
                self,
            ).assembler.effect(),
            r is Ok ==> exists|k: int| #[trigger] for_loop_head(
                final(self).assembler.written(),
                k,
                label_text(old(self).current_l_num as nat, "for_body"@),
                label_text(old(self).current_l_num as nat + 1, "endfor"@),
            ),
        decreases stmt.index_of(), 2nat,
    {
        let (var_mem, var_size) = self.loop_var_memory(stmt, var, tree, md)?;
        let rax = sized(Register::Rax, &var_size)?;
        self.visit_expr(init, tree, md)?;
        self.assembler.push_cmd(Command::Pop(Operand::Register(Register::Rax)));
        self.assembler.push_cmd(Command::Dec(rax));
        self.assembler.push_cmd(Command::Mov { dst: var_mem.clone(), src: Operand::Register(rax) });
        self.visit_expr(end, tree, md)?;
        self.assembler.push_cmd(Command::Pop(Operand::Register(Register::Rax)));
        self.assembler.push_cmd(Command::Push(Operand::Register(Register::Rax)));
        let l1 = self.next_l("for_body")?;
        let l2 = self.next_l("endfor")?;
        self.enter_loop(l1.as_str(), l2.as_str());
        self.assembler.label(l1.as_str());
        let ghost k = self.assembler.written().len() - 1;
        self.assembler.push_cmd(Command::Mov { dst: Operand::Register(rax), src: var_mem.clone() });
        self.assembler.push_cmd(Command::Inc(rax));
        self.assembler.push_cmd(Command::Mov { dst: var_mem, src: Operand::Register(rax) });
        self.assembler.push_cmd(Command::Cmp {
            op1: Operand::Register(rax),
            op2: Operand::Memory(Memory::StackMemory(StackMemory::new(Register::Rsp, var_size))),
        });
        self.assembler.push_cmd(Command::Jg(l2.clone()));
        proof {
            let p = self.assembler.pending();
            assert forall|i: int| 0 <= i < p.len() implies !(#[trigger] p[i] is Push) by {}
            law_peephole_keeps_code_without_push(p);
        }
        self.assembler.flush();
        let ghost head = self.assembler.written();
        proof {
            assert(for_loop_head(head, k, l1@, l2@));
        }
        self.visit_stmt(body, tree, md)?;
        self.assembler.push_cmd(Command::Jmp(l1.clone()));
        self.assembler.label(l2.as_str());
        self.assembler.push_cmd(Command::Pop(Operand::Register(Register::Rdx)));
        self.exit_loop();
        proof {
            assert(self.loop_start_labels@ =~= old(self).loop_start_labels@);
            assert(self.loop_exit_labels@ =~= old(self).loop_exit_labels@);
            let w = self.assembler.written();
            assert(w[k] == head[k]);
            assert(w[k + 1] == head[k + 1]);
            assert(w[k + 2] == head[k + 2]);
            assert(w[k + 3] == head[k + 3]);
            assert(w[k + 4] == head[k + 4]);
            assert(w[k + 5] == head[k + 5]);
            assert(for_loop_head(w, k, l1@, l2@));
            assert(l1@ == label_text(old(self).current_l_num as nat, "for_body"@));
            assert(l2@ == label_text(old(self).current_l_num as nat + 1, "endfor"@));
        }
        Ok(())
    }
}

impl<'a> Compiler<'a> {
    /// The whole program: its globals, its routines, then `main` with the
    /// program's statements.
    fn enter_global_scope(&mut self, stmt: StmtRef, tree: &Tree<'a>, md: &'a SemanticMetadata) -> (r: Result<(), Error>)
        requires
            old(self).wf(),
            tree.wf(),
            md.wf(),
            stmt.index_of() < tree.stmt_pool.nodes().len(),
        ensures
            r is Ok ==> final(self).ends_block(),
            r is Ok ==> final(self).keeps(old(self)),
            r matches Err(e) ==> e is CompileError,
            old(self).call_stack.top().vars().len() == 0 && int_fragment_block(tree, md, stmt.index_of() as int)
                && old(self).current_l_num + labels_needed(tree, stmt.index_of() as int) <= u64::MAX ==> r is Ok,
        decreases stmt.index_of(), 2nat,
    {
        let ghost n = stmt.index_of();
        let ghost simple = old(self).call_stack.top().vars().len() == 0 && int_fragment_block(
            tree,
            md,
            stmt.index_of() as int,
        );
        let ghost elen = tree.expr_pool.nodes().len() as int;
        let ghost tlen = tree.type_pool.nodes().len() as int;
        let ghost src_len = tree.source_code@.len() as int;
        proof {
            assert(stmt_node_ok(tree.stmt_pool.nodes()[n as int], n as int, elen, tlen, src_len));
        }
        let (declarations, statements) = match tree.stmt_pool.get(stmt) {
            Stmt::Block { declarations, statements } => (declarations, *statements),
            _ => return Err(codegen_error("a block is expected")),
        };
        proof {
            reveal_strlit(" ");
        }
        self.assembler.directive("section .data");
        proof {
            if simple {
                assert(tree.stmt_pool.nodes()[n as int] == Stmt::Block { declarations: *declarations, statements });
            }
        }
        let mut global_vars: Vec<(&'a str, Size, Option<ExprRef>)> = Vec::new();
        let mut k: usize = 0;
        while k < declarations.len()
            invariant
                self.current_l_num == old(self).current_l_num,
                simple == (old(self).call_stack.top().vars().len() == 0 && int_fragment_block(tree, md, stmt.index_of() as int)),
                simple ==> forall|j: int| 0 <= j < declarations@.len() ==> (#[trigger] declarations@[j] matches Decl::VarDecl {
                    var,
                    default_value: None,
                    ..
                } && tree.expr_pool.nodes()[var.index_of() as int] is Var && expr_is_integer(md, var.index_of() as int)),
                simple ==> forall|j: int| 0 <= j < global_vars@.len() ==> (#[trigger] global_vars@[j]).2 is None,
                self.keeps(old(self)),
                tree.wf(),
                md.wf(),
                k <= declarations@.len(),
                forall|j: int| 0 <= j < declarations@.len() ==> decl_ok(#[trigger] declarations@[j], n as int, elen, tlen, src_len),
                elen == tree.expr_pool.nodes().len(),
                forall|j: int| 0 <= j < global_vars@.len() ==> ((#[trigger] global_vars@[j]).2 matches Some(v) ==> v.index_of() < elen),
            decreases declarations@.len() - k,
        {
            match &declarations[k] {
                Decl::VarDecl { default_value, var, .. } => {
                    let name = var_name(tree, *var)?;
                    let size = expr_size(md, *var)?;
                    global_vars.push((name, size, *default_value));
                },
                _ => {},
            }
            k = k + 1;
        }
        let mut k: usize = 0;
        while k < global_vars.len()
            invariant
                self.current_l_num == old(self).current_l_num,
                simple == (old(self).call_stack.top().vars().len() == 0 && int_fragment_block(tree, md, stmt.index_of() as int)),
                simple ==> forall|j: int| 0 <= j < global_vars@.len() ==> (#[trigger] global_vars@[j]).2 is None,
                self.keeps(old(self)),
                tree.wf(),
                md.wf(),
                k <= global_vars@.len(),
                elen == tree.expr_pool.nodes().len(),
                forall|j: int| 0 <= j < global_vars@.len() ==> ((#[trigger] global_vars@[j]).2 matches Some(v) ==> v.index_of() < elen),
            decreases global_vars@.len() - k,
        {
            let (name, size, default_value) = &global_vars[k];
            match default_value {
                Some(v) => {
                    let value = literal_text(tree, *v)?;
                    let d = match size.d() {
                        Some(d) => d,
                        None => return Err(codegen_error("no data directive for this size")),
                    };
                    let mut text = String::from_str(name);
                    text.append(" ");
                    text.append(d);
                    text.append(" ");
                    text.append(value.as_str());
                    self.assembler.directive(text.as_str());
                },
                None => {},
            }
            k = k + 1;
        }
        self.assembler.newline();
        self.assembler.directive("section .bss");
        let mut k: usize = 0;
        while k < global_vars.len()
            invariant
                self.current_l_num == old(self).current_l_num,
                self.keeps(old(self)),
                k <= global_vars@.len(),
            decreases global_vars@.len() - k,
        {
            let (name, size, default_value) = &global_vars[k];
            if default_value.is_none() {
                let (res, l) = size.res();
                let mut text = String::from_str(name);
                text.append(" ");
                text.append(res);
                text.append(" ");
                push_decimal(&mut text, l as u64);
                self.assembler.directive(text.as_str());
            }
            k = k + 1;
        }
        self.assembler.newline();
        self.assembler.directive("section .text");
        self.assembler.directive("global main");
        self.assembler.external(STD_DIV0_ERROR);
        self.assembler.external(STD_ARR_INDEX_OUT_OF_BOUNDS_ERROR);
        self.assembler.external("std.io.write");
        self.assembler.external("std.io.writeln");
        self.assembler.newline();
        let mut k: usize = 0;
        while k < declarations.len()
            invariant
                simple ==> self.current_l_num == old(self).current_l_num,
                simple == (old(self).call_stack.top().vars().len() == 0 && int_fragment_block(tree, md, stmt.index_of() as int)),
                simple ==> forall|j: int| 0 <= j < declarations@.len() ==> (#[trigger] declarations@[j] is VarDecl),
                self.keeps(old(self)),
                tree.wf(),
                md.wf(),
                k <= declarations@.len(),
                n < tree.stmt_pool.nodes().len(),
                n == stmt.index_of(),
                forall|j: int| 0 <= j < declarations@.len() ==> decl_ok(#[trigger] declarations@[j], n as int, elen, tlen, src_len),
                elen == tree.expr_pool.nodes().len(),
                tlen == tree.type_pool.nodes().len(),
                src_len == tree.source_code@.len(),
            decreases declarations@.len() - k,
        {
            if let Decl::Callable { .. } = &declarations[k] {
                self.visit_callable_decl(&declarations[k], Ghost(n), tree, md)?;
            }
            k = k + 1;
        }
        self.assembler.comment("main entry point");
        self.assembler.label("main");
        self.assembler.comment("block");
        proof {
            assert(self.call_stack.frames()[self.call_stack.depth() - 1] == self.call_stack.top());
        }
        let local_size = match self.call_stack.aligned_size() {
            Some(z) => z,
            None => return Err(codegen_error("no frame")),
        };
        if local_size > usize::MAX - 32 {
            return Err(codegen_error("the frame is too large"));
        }
        let frame = 32 + local_size;
        self.enter_func(frame);
        self.visit_stmt(statements, tree, md)?;
        let frame_i32 = #[verifier::truncate] (frame as i32);
        self.assembler.push_cmd(Command::Xor { dst: Register::Eax, src: Register::Eax });
        self.assembler.push_cmd(Command::Add { dst: Register::Rsp, src: Register::Integer(frame_i32) });
        self.assembler.push_cmd(Command::Leave);
        self.assembler.push_cmd(Command::Ret);
        self.assembler.comment("end block");
        Ok(())
    }

    /// A routine for a procedure or function declaration.
    fn visit_callable_decl(&mut self, callable: &Decl, Ghost(parent): Ghost<nat>, tree: &Tree<'a>, md: &'a SemanticMetadata) -> (r:
        Result<(), Error>)
        requires
            old(self).wf(),
            tree.wf(),
            md.wf(),
            parent < tree.stmt_pool.nodes().len(),
            decl_ok(
                *callable,
                parent as int,
                tree.expr_pool.nodes().len() as int,
                tree.type_pool.nodes().len() as int,
                tree.source_code@.len() as int,
            ),
        ensures
            r is Ok ==> final(self).ends_block(),
            r is Ok ==> final(self).keeps(old(self)),
            r matches Err(e) ==> e is CompileError,
        decreases parent, 1nat,
    {
        match callable {
            Decl::Callable { params, name, return_type, block } => {
                let func_name = token_text(tree, name);
                let rt = match return_type {
                    Some(t) => match md.type_type_map.get(&t.to_index()) {
                        Some(x) => Some(*x),
                        None => return Err(codegen_error("return type has no symbol")),
                    },
                    None => None,
                };
                self.enter_scope(func_name, params, *block, rt, tree, md)
            },
            _ => Err(codegen_error("a callable is expected")),
        }
    }

    /// A routine: its frame holds the parameters, the local variables and
    /// the result; the body runs between prologue and epilogue.
    fn enter_scope(
        &mut self,
        scope_name: &'a str,
        params: &Vec<Param>,
        block: StmtRef,
        return_type: Option<TypeSymbolRef>,
        tree: &Tree<'a>,
        md: &'a SemanticMetadata,
    ) -> (r: Result<(), Error>)
        requires
            old(self).wf(),
            tree.wf(),
            md.wf(),
            block.index_of() < tree.stmt_pool.nodes().len(),
            forall|k: int| 0 <= k < params@.len() ==> param_ok(#[trigger] params@[k], tree.expr_pool.nodes().len() as int, tree.type_pool.nodes().len() as int),
            return_type matches Some(t) ==> t.index_of() < md.types.nodes().len(),
        ensures
            r is Ok ==> final(self).ends_block(),
            r is Ok ==> final(self).keeps(old(self)),
            r matches Err(e) ==> e is CompileError,
        decreases block.index_of(), 0nat,
    {
        let ghost b = block.index_of();
        let ghost elen = tree.expr_pool.nodes().len() as int;
        let ghost tlen = tree.type_pool.nodes().len() as int;
        let ghost src_len = tree.source_code@.len() as int;
        proof {
            assert(stmt_node_ok(tree.stmt_pool.nodes()[b as int], b as int, elen, tlen, src_len));
        }
        let (declarations, statements) = match tree.stmt_pool.get(block) {
            Stmt::Block { declarations, statements } => (declarations, *statements),
            _ => return Err(codegen_error("a block is expected")),
        };
        if self.call_stack.len() >= usize::MAX - 1 {
            return Err(codegen_error("scopes nest too deep"));
        }
        let ghost frames0 = self.call_stack.frames();
        self.call_stack.push_ar(scope_name);
        proof {
            assert(vars_bytes(self.call_stack.top().vars()) == 0);
            lemma_frames_fit_push(frames0, self.call_stack.frames());
            reveal_strlit(" function entry point");
        }
        let mut entry = String::from_str(scope_name);
        entry.append(" function entry point");
        self.assembler.comment(entry.as_str());
        self.assembler.label(scope_name);
        self.assembler.comment("block");
        let mut defaults: Vec<(&'a str, Size, ExprRef)> = Vec::new();
        let mut k: usize = 0;
        while k < declarations.len()
            invariant
                self.wf(),
                lines_extend(self.assembler.written(), old(self).assembler.written()),
                self.call_stack.depth() == frames0.len() + 1,
                self.call_stack.frames().drop_last() == frames0,
                frames0 == old(self).call_stack.frames(),
                self.loop_exit_labels@ == old(self).loop_exit_labels@,
                self.loop_start_labels@ == old(self).loop_start_labels@,
                self.assembler.spec_peephole() == old(self).assembler.spec_peephole(),
                old(self).current_l_num <= self.current_l_num,
                tree.wf(),
                md.wf(),
                k <= declarations@.len(),
                forall|j: int| 0 <= j < declarations@.len() ==> decl_ok(#[trigger] declarations@[j], b as int, elen, tlen, src_len),
                elen == tree.expr_pool.nodes().len(),
                forall|j: int| 0 <= j < defaults@.len() ==> (#[trigger] defaults@[j]).2.index_of() < elen,
            decreases declarations@.len() - k,
        {
            match &declarations[k] {
                Decl::VarDecl { default_value, var, .. } => {
                    match self.visit_var_decl_local(*default_value, *var, tree, md)? {
                        Some(d) => defaults.push(d),
                        None => {},
                    }
                },
                _ => {},
            }
            k = k + 1;
        }
        let mut param_names: Vec<(&'a str, Size, VarPassMode)> = Vec::new();
        let mut k: usize = 0;
        while k < params.len()
            invariant
                tree.wf(),
                md.wf(),
                k <= params@.len(),
                forall|j: int| 0 <= j < params@.len() ==> param_ok(#[trigger] params@[j], tree.expr_pool.nodes().len() as int, tree.type_pool.nodes().len() as int),
                param_names@.len() == k,
            decreases params@.len() - k,
        {
            let var = params[k].var;
            let name = var_name(tree, var)?;
            let size = expr_size(md, var)?;
            let mode = match md.get_var_pass_mode(&var) {
                Some(m) => *m,
                None => return Err(codegen_error("a parameter is expected")),
            };
            param_names.push((name, size, mode));
            k = k + 1;
        }
        let mut k: usize = 0;
        while k < param_names.len()
            invariant
                self.wf(),
                lines_extend(self.assembler.written(), old(self).assembler.written()),
                self.call_stack.depth() == frames0.len() + 1,
                self.call_stack.frames().drop_last() == frames0,
                frames0 == old(self).call_stack.frames(),
                self.loop_exit_labels@ == old(self).loop_exit_labels@,
                self.loop_start_labels@ == old(self).loop_start_labels@,
                self.assembler.spec_peephole() == old(self).assembler.spec_peephole(),
                old(self).current_l_num <= self.current_l_num,
                k <= param_names@.len(),
            decreases param_names@.len() - k,
        {
            let (param_name, size, pass_mode) = &param_names[k];
            if *pass_mode == VarPassMode::Ref {
                self.push_ptr_checked(param_name)?;
            } else {
                self.push_local_checked(param_name, size.clone())?;
            }
            k = k + 1;
        }
        match return_type {
            Some(t) => {
                let return_size = type_ref_size(md, t)?;
                self.push_local_checked("result", return_size)?;
            },
            None => {},
        }
        proof {
            assert(self.call_stack.frames()[self.call_stack.depth() - 1] == self.call_stack.top());
        }
        let local_size = match self.call_stack.aligned_size() {
            Some(z) => z,
            None => return Err(codegen_error("no frame")),
        };
        if local_size > usize::MAX - 32 {
            return Err(codegen_error("the frame is too large"));
        }
        self.enter_func(32 + local_size);
        let mut k: usize = 0;
        while k < param_names.len()
            invariant
                self.wf(),
                lines_extend(self.assembler.written(), old(self).assembler.written()),
                self.call_stack.depth() == frames0.len() + 1,
                self.call_stack.frames().drop_last() == frames0,
                frames0 == old(self).call_stack.frames(),
                self.loop_exit_labels@ == old(self).loop_exit_labels@,
                self.loop_start_labels@ == old(self).loop_start_labels@,
                self.assembler.spec_peephole() == old(self).assembler.spec_peephole(),
                old(self).current_l_num <= self.current_l_num,
                k <= param_names@.len(),
            decreases param_names@.len() - k,
        {
            let (param_name, size, pass_mode) = &param_names[k];
            let reg = if k < 4 {
                Register::from_param_index64(k)
            } else {
                return Err(codegen_error("more input variables are not implemented yet"));
            };
            match pass_mode {
                VarPassMode::Val => {
                    let mem = self.lookup_local(param_name)?;
                    let src = sized(reg, size)?;
                    self.assembler.push_cmd(Command::Mov {
                        dst: Operand::Memory(Memory::StackMemory(mem)),
                        src: Operand::Register(src),
                    });
                },
                VarPassMode::Ref => {
                    let mem = self.lookup_addr(param_name)?;
                    self.assembler.push_cmd(Command::Mov {
                        dst: Operand::Memory(Memory::StackMemory(mem)),
                        src: Operand::Register(reg),
                    });
                },
            }
            k = k + 1;
        }
        let mut k: usize = 0;
        while k < defaults.len()
            invariant
                self.wf(),
                lines_extend(self.assembler.written(), old(self).assembler.written()),
                self.call_stack.depth() == frames0.len() + 1,
                self.call_stack.frames().drop_last() == frames0,
                frames0 == old(self).call_stack.frames(),
                self.loop_exit_labels@ == old(self).loop_exit_labels@,
                self.loop_start_labels@ == old(self).loop_start_labels@,
                self.assembler.spec_peephole() == old(self).assembler.spec_peephole(),
                old(self).current_l_num <= self.current_l_num,
                tree.wf(),
                md.wf(),
                k <= defaults@.len(),
                elen == tree.expr_pool.nodes().len(),
                forall|j: int| 0 <= j < defaults@.len() ==> (#[trigger] defaults@[j]).2.index_of() < elen,
            decreases defaults@.len() - k,
        {
            let (var_name, size, v) = &defaults[k];
            self.visit_expr(*v, tree, md)?;
            self.assembler.push_cmd(Command::Pop(Operand::Register(Register::Rax)));
            let mem = self.lookup_local(var_name)?;
            let src = sized(Register::Rax, size)?;
            self.assembler.push_cmd(Command::Mov { dst: Operand::Memory(Memory::StackMemory(mem)), src: Operand::Register(src) });
            k = k + 1;
        }
        self.visit_stmt(statements, tree, md)?;
        match return_type {
            Some(t) => {
                let return_size = type_ref_size(md, t)?;
                let dst = sized(Register::Rax, &return_size)?;
                let mem = self.lookup_local("result")?;
                self.assembler.push_cmd(Command::Mov {
                    dst: Operand::Register(dst),
                    src: Operand::Memory(Memory::StackMemory(mem)),
                });
            },
            None => {
                self.assembler.push_cmd(Command::Xor { dst: Register::Eax, src: Register::Eax });
            },
        }
        self.assembler.push_cmd(Command::Leave);
        self.assembler.push_cmd(Command::Ret);
        self.assembler.comment("end block");
        let ghost frames1 = self.call_stack.frames();
        self.call_stack.pop_ar();
        proof {
            lemma_frames_fit_pop(frames1);
        }
        Ok(())
    }

    /// Generates the assembly of a program the semantic analysis has
    /// accepted, as lines in order.
    pub fn compile(self, tree: &Tree<'a>, semantic_metadata: &'a SemanticMetadata) -> (r: Result<Vec<AsmLine<'a>>, Error>)
        requires
            self.wf(),
            tree.wf(),
            semantic_metadata.wf(),
        ensures
            r matches Err(e) ==> e is CompileError,
            r matches Ok(lines) ==> (tree.stmt_pool.nodes()[tree.program.index_of() as int] matches Stmt::Program { block, .. }
                && tree.stmt_pool.nodes()[block.index_of() as int] is Block ==> lines@.len() > 0 && (lines@.last() matches AsmLine::Comment(
                c,
            ) && c@ == "end block"@)),
            self.at_start() && int_fragment_program(tree, semantic_metadata) && self.label_count() + labels_needed(
                tree,
                tree.program.index_of() as int,
            ) <= u64::MAX ==> r is Ok,
    {
        let mut c = self;
        c.visit_stmt(tree.program, tree, semantic_metadata)?;
        proof {
            assert(peephole(Seq::<Command<'a>>::empty()) =~= Seq::<Command<'a>>::empty());
            assert(command_lines(Seq::<Command<'a>>::empty()) =~= Seq::<AsmLine<'a>>::empty());
        }
        Ok(c.assembler.output())
    }
}

} // verus!
