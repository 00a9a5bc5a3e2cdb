use vstd::prelude::*;
use crate::error::{Error, ErrorCode};
use crate::lexer::{law_end_marker_repeats, law_lparen_token_is_a_paren, law_next_moves_forward, spec_next, LexStep, Lexer};
use crate::messages::{expected_id_message, expected_token_message, expected_token_text, unexpected_factor_message, unknown_literal_message};
use crate::refs::{ExprRef, StmtRef, TypeRef};
use crate::tokens::{Token, TokenType};
use crate::utils::{chars_after_last_newline, count_newlines, fits_u32, NodePoolWithSpan, PoolRef, Pos, Span};

verus! {

/// An expression node. A real literal keeps its token: its digits are the
/// token's lexeme.
#[derive(Debug, Clone)]
pub enum Expr {
    Index { other_indicies: Vec<ExprRef>, base: ExprRef, index_value: ExprRef },
    BinOp { op: TokenType, left: ExprRef, right: ExprRef },
    UnaryOp { op: TokenType, expr: ExprRef },
    Call { name: Token, args: Vec<ExprRef> },
    Var { name: Token },
    LiteralInteger(i32),
    LiteralReal(Token),
    LiteralBool(bool),
    LiteralChar(char),
    LiteralString(Token),
}

/// A statement node.
#[derive(Debug, Clone)]
pub enum Stmt {
    For { var: Token, init: ExprRef, end: ExprRef, body: StmtRef },
    If { elifs: Vec<Condition>, cond: Condition, else_statement: Option<StmtRef> },
    Program { name: Token, block: StmtRef },
    Block { declarations: Vec<Decl>, statements: StmtRef },
    Assign { left: ExprRef, right: ExprRef },
    While { cond: ExprRef, body: StmtRef },
    Exit(Option<ExprRef>),
    Compound(Vec<StmtRef>),
    Call { call: ExprRef },
    Break,
    Continue,
    NoOp,
}

/// A condition and the statement it guards.
#[derive(Debug, Clone)]
pub struct Condition {
    pub cond: ExprRef,
    pub expr: StmtRef,
}

/// A declaration of a block.
#[derive(Debug, Clone)]
pub enum Decl {
    VarDecl { default_value: Option<ExprRef>, var: ExprRef, type_node: TypeRef },
    TypeDecl { var: TypeRef, type_node: TypeRef },
    ConstDecl { var: ExprRef, literal: ExprRef },
    Callable { params: Vec<Param>, name: Token, return_type: Option<TypeRef>, block: StmtRef },
}

/// A formal parameter.
#[derive(Debug, Clone)]
pub struct Param {
    pub var: ExprRef,
    pub type_node: TypeRef,
    pub out: bool,
}

/// A type expression node.
#[derive(Debug, Clone)]
pub enum Type {
    Integer,
    Boolean,
    String,
    Char,
    Real,
    Alias(Token),
    Array { index_type: TypeRef, element_type: TypeRef },
    DynamicArray { element_type: TypeRef },
    Range { start_val: ExprRef, end_val: ExprRef },
    Enum { items: Vec<Token> },
}

// ---------------------------------------------------------------------------
// Well-formed trees: every reference a node holds points to a node allocated
// before it (for references into the node's own pool) or to an existing node
// (for the other pools), and every token lies inside the source.
// ---------------------------------------------------------------------------

/// Longest source the parser takes: the node pools stay indexable by `u32`.
fn push_all(v: &mut Vec<Decl>, more: Vec<Decl>)
    ensures
        final(v)@ == old(v)@ + more@,
{
    let mut more = more;
    v.append(&mut more);
}

fn push_all_params(v: &mut Vec<Param>, more: Vec<Param>)
    ensures
        final(v)@ == old(v)@ + more@,
{
    let mut more = more;
    v.append(&mut more);
}

pub open spec fn source_fits(n: int) -> bool {
    0 <= n <= 0x7fff_fff0
}

pub open spec fn token_in(t: Token, n: int) -> bool {
    t.spec_span().spec_end() <= n
}

pub open spec fn expr_node_ok(e: Expr, own: int, n: int) -> bool {
    match e {
        Expr::Index { other_indicies, base, index_value } => {
            &&& base.index_of() < own
            &&& index_value.index_of() < own
            &&& forall|k: int| 0 <= k < other_indicies@.len() ==> (#[trigger] other_indicies@[k]).index_of() < own
        },
        Expr::BinOp { left, right, .. } => left.index_of() < own && right.index_of() < own,
        Expr::UnaryOp { expr, .. } => expr.index_of() < own,
        Expr::Call { name, args } => {
            &&& token_in(name, n)
            &&& forall|k: int| 0 <= k < args@.len() ==> (#[trigger] args@[k]).index_of() < own
        },
        Expr::Var { name } => token_in(name, n),
        Expr::LiteralReal(t) => token_in(t, n),
        Expr::LiteralString(t) => token_in(t, n),
        _ => true,
    }
}

pub open spec fn param_ok(p: Param, elen: int, tlen: int) -> bool {
    p.var.index_of() < elen && p.type_node.index_of() < tlen
}

pub open spec fn decl_ok(d: Decl, slen: int, elen: int, tlen: int, n: int) -> bool {
    match d {
        Decl::VarDecl { default_value, var, type_node } => {
            &&& (default_value matches Some(v) ==> v.index_of() < elen)
            &&& var.index_of() < elen
            &&& type_node.index_of() < tlen
        },
        Decl::TypeDecl { var, type_node } => var.index_of() < tlen && type_node.index_of() < tlen,
        Decl::ConstDecl { var, literal } => var.index_of() < elen && literal.index_of() < elen,
        Decl::Callable { params, name, return_type, block } => {
            &&& forall|k: int| 0 <= k < params@.len() ==> param_ok(#[trigger] params@[k], elen, tlen)
            &&& token_in(name, n)
            &&& (return_type matches Some(t) ==> t.index_of() < tlen)
            &&& block.index_of() < slen
        },
    }
}

pub open spec fn cond_ok(c: Condition, own: int, elen: int) -> bool {
    c.cond.index_of() < elen && c.expr.index_of() < own
}

pub open spec fn stmt_node_ok(s: Stmt, own: int, elen: int, tlen: int, n: int) -> bool {
    match s {
        Stmt::For { var, init, end, body } => {
            &&& token_in(var, n)
            &&& init.index_of() < elen
            &&& end.index_of() < elen
            &&& body.index_of() < own
        },
        Stmt::If { elifs, cond, else_statement } => {
            &&& cond_ok(cond, own, elen)
            &&& forall|k: int| 0 <= k < elifs@.len() ==> cond_ok(#[trigger] elifs@[k], own, elen)
            &&& (else_statement matches Some(e) ==> e.index_of() < own)
        },
        Stmt::Program { name, block } => token_in(name, n) && block.index_of() < own,
        Stmt::Block { declarations, statements } => {
            &&& forall|k: int| 0 <= k < declarations@.len() ==> decl_ok(#[trigger] declarations@[k], own, elen, tlen, n)
            &&& statements.index_of() < own
        },
        Stmt::Assign { left, right } => left.index_of() < elen && right.index_of() < elen,
        Stmt::While { cond, body } => cond.index_of() < elen && body.index_of() < own,
        Stmt::Exit(e) => e matches Some(v) ==> v.index_of() < elen,
        Stmt::Compound(v) => forall|k: int| 0 <= k < v@.len() ==> (#[trigger] v@[k]).index_of() < own,
        Stmt::Call { call } => call.index_of() < elen,
        _ => true,
    }
}

pub open spec fn type_node_ok(t: Type, own: int, elen: int, n: int) -> bool {
    match t {
        Type::Alias(tok) => token_in(tok, n),
        Type::Array { index_type, element_type } => index_type.index_of() < own && element_type.index_of() < own,
        Type::DynamicArray { element_type } => element_type.index_of() < own,
        Type::Range { start_val, end_val } => start_val.index_of() < elen && end_val.index_of() < elen,
        Type::Enum { items } => forall|k: int| 0 <= k < items@.len() ==> token_in(#[trigger] items@[k], n),
        _ => true,
    }
}

proof fn lemma_decl_ok_grows(d: Decl, s1: int, e1: int, t1: int, s2: int, e2: int, t2: int, n: int)
    requires
        decl_ok(d, s1, e1, t1, n),
        s1 <= s2,
        e1 <= e2,
        t1 <= t2,
    ensures
        decl_ok(d, s2, e2, t2, n),
{
    if let Decl::Callable { params, .. } = d {
        assert forall|k: int| 0 <= k < params@.len() implies param_ok(#[trigger] params@[k], e2, t2) by {
            assert(param_ok(params@[k], e1, t1));
        }
    }
}

proof fn lemma_stmt_ok_grows(s: Stmt, own: int, e1: int, t1: int, e2: int, t2: int, n: int)
    requires
        stmt_node_ok(s, own, e1, t1, n),
        e1 <= e2,
        t1 <= t2,
    ensures
        stmt_node_ok(s, own, e2, t2, n),
{
    match s {
        Stmt::If { elifs, cond, else_statement } => {
            assert forall|k: int| 0 <= k < elifs@.len() implies cond_ok(#[trigger] elifs@[k], own, e2) by {
                assert(cond_ok(elifs@[k], own, e1));
            }
        },
        Stmt::Block { declarations, statements } => {
            assert forall|k: int| 0 <= k < declarations@.len() implies decl_ok(
                #[trigger] declarations@[k],
                own,
                e2,
                t2,
                n,
            ) by {
                lemma_decl_ok_grows(declarations@[k], own, e1, t1, own, e2, t2, n);
            }
        },
        _ => {},
    }
}

/// The expression adds or subtracts.
pub open spec fn is_sum(e: Expr) -> bool {
    match e {
        Expr::BinOp { op, .. } => op is Plus || op is Minus,
        _ => false,
    }
}

/// A `(` stands in `text` at a position from `from` up to before `to`.
pub open spec fn paren_between(text: Seq<char>, from: int, to: int) -> bool {
    exists|p: int| from <= p < to && 0 <= p < text.len() && #[trigger] text[p] == '('
}

/// A sum or difference whose right operand is itself a sum or difference
/// has that operand in parentheses: a `(` stands between the start of its
/// left operand and the start of its right one. Sums and differences group
/// to the left: `a - b - c` is `(a - b) - c`.
pub open spec fn sum_groups_left(e: Expr, exprs: Seq<Expr>, spans: Seq<Span>, text: Seq<char>) -> bool {
    match e {
        Expr::BinOp { op, left, right } => (op is Plus || op is Minus) && is_sum(exprs[right.index_of() as int])
            ==> paren_between(
            text,
            spans[left.index_of() as int].spec_start() as int,
            spans[right.index_of() as int].spec_start() as int,
        ),
        _ => true,
    }
}

/// The left operand of a binary operation starts before its right one: the
/// operands are kept in the order they are written.
pub open spec fn operands_in_order(e: Expr, spans: Seq<Span>) -> bool {
    match e {
        Expr::BinOp { left, right, .. } => spans[left.index_of() as int].spec_start() < spans[right.index_of() as int].spec_start(),
        _ => true,
    }
}

/// Every binary operation of the pool keeps its operands in written order.
pub open spec fn binops_in_order(exprs: Seq<Expr>, spans: Seq<Span>) -> bool {
    forall|i: int| 0 <= i < exprs.len() ==> operands_in_order(#[trigger] exprs[i], spans)
}

/// Every sum and difference of the pool groups to the left.
pub open spec fn sums_group_left(exprs: Seq<Expr>, spans: Seq<Span>, text: Seq<char>) -> bool {
    forall|i: int| 0 <= i < exprs.len() ==> sum_groups_left(#[trigger] exprs[i], exprs, spans, text)
}

/// Every node of the pools refers only to nodes allocated before it in its
/// own pool and to existing nodes of the other pools, and spans and tokens
/// lie in a source of length `n`.
pub open spec fn pools_ok(
    exprs: Seq<Expr>,
    expr_spans: Seq<Span>,
    stmts: Seq<Stmt>,
    stmt_spans: Seq<Span>,
    types: Seq<Type>,
    type_spans: Seq<Span>,
    n: int,
) -> bool {
    &&& exprs.len() == expr_spans.len()
    &&& stmts.len() == stmt_spans.len()
    &&& types.len() == type_spans.len()
    &&& forall|i: int| 0 <= i < exprs.len() ==> expr_node_ok(#[trigger] exprs[i], i, n)
    &&& forall|i: int| 0 <= i < stmts.len() ==> stmt_node_ok(#[trigger] stmts[i], i, exprs.len() as int, types.len() as int, n)
    &&& forall|i: int| 0 <= i < types.len() ==> type_node_ok(#[trigger] types[i], i, exprs.len() as int, n)
    &&& forall|i: int| 0 <= i < expr_spans.len() ==> (#[trigger] expr_spans[i]).spec_end() <= n
    &&& forall|i: int| 0 <= i < stmt_spans.len() ==> (#[trigger] stmt_spans[i]).spec_end() <= n
    &&& forall|i: int| 0 <= i < type_spans.len() ==> (#[trigger] type_spans[i]).spec_end() <= n
}

/// The reading of the source never panics from index `i` on, up to the end
/// marker or an unknown character.
pub open spec fn no_panic_from(s: Seq<char>, i: int) -> bool
    decreases s.len() + 2 - i,
{
    if i < 0 || i > s.len() + 1 {
        false
    } else {
        match spec_next(s, i) {
            LexStep::Panic => false,
            LexStep::Fail { .. } => true,
            LexStep::Emit { token_type, next, .. } => {
                if token_type is EOF {
                    true
                } else if i < next <= s.len() + 1 {
                    no_panic_from(s, next)
                } else {
                    true
                }
            },
        }
    }
}

/// Whether the lexer can read the whole of `source` without a fault: up to
/// the end marker or a character no token starts with.
pub fn lexes_without_fault(source: &str) -> (r: bool)
    requires
        fits_u32(source@.len() + 4int),
    ensures
        r == no_panic_from(source@, 0),
{
    let mut lexer = Lexer::new(source);
    let ghost s = source@;
    loop
        invariant
            lexer.wf(),
            lexer.text() == s,
            s == source@,
            0 <= lexer.spec_index() <= s.len() + 1,
            no_panic_from(s, 0) == no_panic_from(s, lexer.spec_index()),
        decreases s.len() + 2 - lexer.spec_index(),
    {
        let ghost i = lexer.spec_index();
        proof {
            law_next_moves_forward(s, i);
        }
        match lexer.next_step() {
            None => {
                return false;
            },
            Some(Err(_)) => {
                return true;
            },
            Some(Ok(t)) => {
                if matches!(t.token_type(), TokenType::EOF) {
                    return true;
                }
            },
        }
    }
}

/// An error of the lexer or the parser.
pub open spec fn syntax_error(e: Error) -> bool {
    e is LexerError || e is ParserError
}

/// A parser error about the token `t`.
pub open spec fn unexpected_at(e: Error, t: Token, code: ErrorCode) -> bool {
    e matches Error::ParserError { pos, error_code, .. } && pos == t.spec_pos() && error_code == code
}

/// The parser error for the token `t` where a token of the kind of
/// `expected` was expected.
pub open spec fn expected_token_error(e: Error, expected: TokenType, t: Token) -> bool {
    &&& unexpected_at(e, t, ErrorCode::UnexpectedToken)
    &&& e matches Error::ParserError { msg, .. } && msg@ == expected_token_text(expected, t)
}

/// A token kind that a binary operation node may hold.
pub open spec fn is_bin_op(op: TokenType) -> bool {
    op is Minus || op is RealDiv || op is Mul || op is IntegerDiv || op is Plus || op is GreaterThen
        || op is GreaterEqual || op is LessEqual || op is LessThen || op is Equal || op is NotEqual || op is And
        || op is Or
}

/// A literal node.
pub open spec fn is_literal(e: Expr) -> bool {
    e is LiteralInteger || e is LiteralReal || e is LiteralBool || e is LiteralChar || e is LiteralString
}

/// The left side of every assignment is a name or an indexed name.
pub open spec fn assign_shapes_ok(exprs: Seq<Expr>, stmts: Seq<Stmt>) -> bool {
    forall|i: int|
        0 <= i < stmts.len() ==> (#[trigger] stmts[i] matches Stmt::Assign { left, .. } ==> (exprs[left.index_of() as int] is Var
            || exprs[left.index_of() as int] is Index))
}

/// A declared name is a name node, and a constant is declared with a literal.
pub open spec fn decl_shape_ok(exprs: Seq<Expr>, d: Decl) -> bool {
    match d {
        Decl::ConstDecl { var, literal } => exprs[var.index_of() as int] is Var && is_literal(exprs[literal.index_of() as int]),
        Decl::VarDecl { var, .. } => exprs[var.index_of() as int] is Var,
        Decl::Callable { params, .. } => forall|k: int| 0 <= k < params@.len() ==> exprs[(#[trigger] params@[k]).var.index_of() as int] is Var,
        _ => true,
    }
}

/// A call statement holds a call, and the declarations of a block have their
/// shapes.
pub open spec fn stmt_shape_ok(exprs: Seq<Expr>, s: Stmt) -> bool {
    match s {
        Stmt::Call { call } => exprs[call.index_of() as int] is Call,
        Stmt::Block { declarations, .. } => forall|k: int| 0 <= k < declarations@.len() ==> decl_shape_ok(exprs, #[trigger] declarations@[k]),
        _ => true,
    }
}

/// The shapes of the nodes of the pools `exprs` and `stmts`: an assignment
/// assigns to a name or an indexed name, a call statement holds a call, a
/// declared or parameter name is a name, a constant is declared with a
/// literal, and a binary operation has a binary operator.
pub open spec fn built_shapes(exprs: Seq<Expr>, stmts: Seq<Stmt>) -> bool {
    &&& assign_shapes_ok(exprs, stmts)
    &&& forall|i: int| 0 <= i < stmts.len() ==> stmt_shape_ok(exprs, #[trigger] stmts[i])
    &&& forall|i: int| 0 <= i < exprs.len() ==> (#[trigger] exprs[i] matches Expr::BinOp { op, .. } ==> is_bin_op(op))
}

/// The shapes the analysis relies on, which the parser gives every tree it
/// builds.
pub open spec fn shapes_ok(tree: &Tree) -> bool {
    built_shapes(tree.expr_pool.nodes(), tree.stmt_pool.nodes())
}

/// The index of the name node a variable or constant declaration declares.
pub open spec fn decl_var_index(d: Decl) -> int {
    match d {
        Decl::VarDecl { var, .. } => var.index_of() as int,
        Decl::ConstDecl { var, .. } => var.index_of() as int,
        Decl::TypeDecl { var, .. } => var.index_of() as int,
        Decl::Callable { .. } => -1,
    }
}

/// `ds` declares variables, one for each of the name nodes it names, in the
/// order they were built (all of them at index `from` or later), of one type
/// node and with one default value.
pub open spec fn var_decls_built(from: int, exprs: Seq<Expr>, ds: Seq<Decl>) -> bool {
    &&& ds.len() >= 1
    &&& ds[0] matches Decl::VarDecl { type_node: t0, default_value: d0, .. }
    &&& forall|k: int|
        0 <= k < ds.len() ==> (#[trigger] ds[k] matches Decl::VarDecl { var, type_node, default_value } && type_node == t0
            && default_value == d0 && from <= var.index_of() && exprs[var.index_of() as int] is Var)
    &&& forall|i: int, j: int| 0 <= i < j < ds.len() ==> decl_var_index(#[trigger] ds[i]) < decl_var_index(#[trigger] ds[j])
}

/// `ds` declares constants, one for each of the name nodes it names, in the
/// order they were built (all of them at index `from` or later), with one
/// literal node built after them.
pub open spec fn const_decls_built(from: int, exprs: Seq<Expr>, ds: Seq<Decl>) -> bool {
    &&& ds.len() >= 1
    &&& ds[0] matches Decl::ConstDecl { literal: l0, .. }
    &&& is_literal(exprs[l0.index_of() as int])
    &&& forall|k: int|
        0 <= k < ds.len() ==> (#[trigger] ds[k] matches Decl::ConstDecl { var, literal } && literal == l0 && from
            <= var.index_of() < l0.index_of() && exprs[var.index_of() as int] is Var)
    &&& forall|i: int, j: int| 0 <= i < j < ds.len() ==> decl_var_index(#[trigger] ds[i]) < decl_var_index(#[trigger] ds[j])
}

/// `ds` declares types, in order, each under a name node of its own built
/// at index `from` or later, all for one type node built before them.
pub open spec fn type_decls_built(from: int, types: Seq<Type>, ds: Seq<Decl>) -> bool {
    &&& ds.len() >= 1
    &&& ds[0] matches Decl::TypeDecl { type_node: t0, .. }
    &&& forall|k: int|
        0 <= k < ds.len() ==> (#[trigger] ds[k] matches Decl::TypeDecl { var, type_node } && type_node == t0 && from
            <= var.index_of() && t0.index_of() < var.index_of() && types[var.index_of() as int] is Alias)
    &&& forall|i: int, j: int| 0 <= i < j < ds.len() ==> decl_var_index(#[trigger] ds[i]) < decl_var_index(#[trigger] ds[j])
}

/// `ps` holds parameters, one for each of the name nodes it names, in the
/// order they were built, all of them at index `from` or later.
pub open spec fn params_built(from: int, exprs: Seq<Expr>, ps: Seq<Param>) -> bool {
    &&& ps.len() >= 1
    &&& forall|k: int| 0 <= k < ps.len() ==> from <= (#[trigger] ps[k]).var.index_of() && exprs[ps[k].var.index_of() as int] is Var
    &&& forall|i: int, j: int| 0 <= i < j < ps.len() ==> (#[trigger] ps[i]).var.index_of() < (#[trigger] ps[j]).var.index_of()
}

/// Recursive-descent parser: reads the tokens of a lexer and builds the tree
/// of a program in three node pools.
pub struct Parser<'a> {
    lexer: Lexer<'a>,
    current_token: Token,
    expr_pool: NodePoolWithSpan<ExprRef, Expr>,
    stmt_pool: NodePoolWithSpan<StmtRef, Stmt>,
    type_pool: NodePoolWithSpan<TypeRef, Type>,
    consumed: Ghost<int>,
}

impl<'a> Parser<'a> {
    pub closed spec fn text(&self) -> Seq<char> {
        self.lexer.text()
    }

    pub closed spec fn spec_source(&self) -> &'a str {
        self.lexer.spec_source()
    }

    pub closed spec fn cur(&self) -> Token {
        self.current_token
    }

    /// Where the current token starts.
    pub open spec fn at(&self) -> int {
        self.cur().spec_span().spec_start() as int
    }

    pub closed spec fn exprs(&self) -> Seq<Expr> {
        self.expr_pool.nodes()
    }

    pub closed spec fn expr_spans(&self) -> Seq<Span> {
        self.expr_pool.spans()
    }

    pub closed spec fn stmts(&self) -> Seq<Stmt> {
        self.stmt_pool.nodes()
    }

    pub closed spec fn stmt_spans(&self) -> Seq<Span> {
        self.stmt_pool.spans()
    }

    pub closed spec fn types(&self) -> Seq<Type> {
        self.type_pool.nodes()
    }

    pub closed spec fn type_spans(&self) -> Seq<Span> {
        self.type_pool.spans()
    }

    closed spec fn spec_consumed(&self) -> int {
        self.consumed@
    }

    /// Nodes that may still be allocated before more tokens are read.
    closed spec fn budget(&self) -> int {
        2 * self.consumed@ + 1 - (self.exprs().len() + self.stmts().len() + self.types().len())
    }

    pub closed spec fn wf(&self) -> bool {
        let s = self.lexer.text();
        let n = s.len() as int;
        let t = self.current_token;
        let st = t.spec_span().spec_start() as int;
        let ln = t.spec_span().spec_len() as int;
        &&& self.lexer.wf()
        &&& self.lexer.spec_index() <= n + 1
        &&& no_panic_from(s, self.lexer.spec_index())
        &&& source_fits(n)
        &&& st + ln <= self.lexer.spec_index()
        &&& st + ln <= n
        &&& (t.spec_token_type() is EOF ==> ln == 0 && self.lexer.spec_index() == st + 1 && self.lexer.spec_index() >= n)
        &&& (!(t.spec_token_type() is EOF) ==> ln >= 1)
        &&& 0 <= self.consumed@
        &&& self.consumed@ <= st + (if t.spec_token_type() is EOF { 1int } else { 0int })
        &&& self.budget() >= 0
        &&& self.expr_pool.wf()
        &&& self.stmt_pool.wf()
        &&& self.type_pool.wf()
        &&& pools_ok(
            self.exprs(),
            self.expr_spans(),
            self.stmts(),
            self.stmt_spans(),
            self.types(),
            self.type_spans(),
            n,
        )
        &&& built_shapes(self.exprs(), self.stmts())
        &&& (t.spec_token_type() is LParen ==> 0 <= st < n && s[st] == '(')
        &&& sums_group_left(self.exprs(), self.expr_spans(), s)
        &&& binops_in_order(self.exprs(), self.expr_spans())
    }

    /// `self` continues `old`: same source, pools grown at the end only, and
    /// the current token not before the old one.
    pub closed spec fn continues(&self, old: &Parser<'a>) -> bool {
        &&& self.wf()
        &&& self.text() == old.text()
        &&& self.spec_source() == old.spec_source()
        &&& old.exprs().len() <= self.exprs().len()
        &&& old.stmts().len() <= self.stmts().len()
        &&& old.types().len() <= self.types().len()
        &&& forall|i: int| 0 <= i < old.exprs().len() ==> self.exprs()[i] == old.exprs()[i] && self.expr_spans()[i] == old.expr_spans()[i]
        &&& forall|i: int| 0 <= i < old.stmts().len() ==> self.stmts()[i] == old.stmts()[i] && self.stmt_spans()[i] == old.stmt_spans()[i]
        &&& forall|i: int| 0 <= i < old.types().len() ==> self.types()[i] == old.types()[i] && self.type_spans()[i] == old.type_spans()[i]
        &&& old.at() <= self.at()
        &&& old.spec_consumed() <= self.spec_consumed()
    }

    /// Tokens that may still be consumed.
    closed spec fn remaining(&self) -> nat {
        (self.text().len() + 2 - self.consumed@) as nat
    }

    closed spec fn expr_result(&self, old: &Parser<'a>, r: Result<ExprRef, Error>, gain: int) -> bool {
        match r {
            Ok(x) => self.continues(old) && self.new_expr(old, x) && self.budget() >= old.budget() + gain,
            Err(e) => syntax_error(e),
        }
    }

    closed spec fn stmt_result(&self, old: &Parser<'a>, r: Result<StmtRef, Error>, gain: int) -> bool {
        match r {
            Ok(x) => self.continues(old) && self.new_stmt(old, x) && self.budget() >= old.budget() + gain,
            Err(e) => syntax_error(e),
        }
    }

    closed spec fn type_result(&self, old: &Parser<'a>, r: Result<TypeRef, Error>, gain: int) -> bool {
        match r {
            Ok(x) => self.continues(old) && self.new_type(old, x) && self.budget() >= old.budget() + gain,
            Err(e) => syntax_error(e),
        }
    }

    closed spec fn token_result(&self, old: &Parser<'a>, r: Result<Token, Error>) -> bool {
        match r {
            Ok(t) => {
                &&& t == old.cur()
                &&& t.spec_token_type() is Id
                &&& self.continues(old)
                &&& self.exprs() == old.exprs()
                &&& self.stmts() == old.stmts()
                &&& self.types() == old.types()
                &&& self.budget() == old.budget() + 2
                &&& self.spec_consumed() == old.spec_consumed() + 1
                &&& self.new_token(old, t)
            },
            Err(e) => syntax_error(e) && (!(old.cur().spec_token_type() is Id) ==> unexpected_at(e, old.cur(), ErrorCode::UnexpectedToken)),
        }
    }

    /// The references in `decls` point to existing nodes.
    closed spec fn decls_ok(&self, decls: Seq<Decl>) -> bool {
        forall|k: int| 0 <= k < decls.len() ==> decl_ok(
            #[trigger] decls[k],
            self.stmts().len() as int,
            self.exprs().len() as int,
            self.types().len() as int,
            self.text().len() as int,
        ) && decl_shape_ok(self.exprs(), decls[k])
    }

    proof fn lemma_decls_ok_grow(&self, old: &Parser<'a>, decls: Seq<Decl>)
        requires
            old.decls_ok(decls),
            self.continues(old),
        ensures
            self.decls_ok(decls),
    {
        assert forall|k: int| 0 <= k < decls.len() implies decl_ok(
            #[trigger] decls[k],
            self.stmts().len() as int,
            self.exprs().len() as int,
            self.types().len() as int,
            self.text().len() as int,
        ) by {
            lemma_decl_ok_grows(
                decls[k],
                old.stmts().len() as int,
                old.exprs().len() as int,
                old.types().len() as int,
                self.stmts().len() as int,
                self.exprs().len() as int,
                self.types().len() as int,
                self.text().len() as int,
            );
        }
    }

    proof fn lemma_decls_ok_concat(&self, a: Seq<Decl>, b: Seq<Decl>)
        requires
            self.decls_ok(a),
            self.decls_ok(b),
        ensures
            self.decls_ok(a + b),
    {
        assert forall|k: int| 0 <= k < (a + b).len() implies decl_ok(
            #[trigger] (a + b)[k],
            self.stmts().len() as int,
            self.exprs().len() as int,
            self.types().len() as int,
            self.text().len() as int,
        ) by {
            if k < a.len() {
                assert((a + b)[k] == a[k]);
            } else {
                assert((a + b)[k] == b[k - a.len()]);
            }
        }
    }

    /// `r` is an expression node built since `old`, from tokens read since then.
    pub closed spec fn new_expr(&self, old: &Parser<'a>, r: ExprRef) -> bool {
        &&& old.exprs().len() <= r.index_of() < self.exprs().len()
        &&& old.at() <= self.expr_spans()[r.index_of() as int].spec_start() <= self.at()
    }

    pub closed spec fn new_stmt(&self, old: &Parser<'a>, r: StmtRef) -> bool {
        &&& old.stmts().len() <= r.index_of() < self.stmts().len()
        &&& old.at() <= self.stmt_spans()[r.index_of() as int].spec_start() <= self.at()
    }

    pub closed spec fn new_type(&self, old: &Parser<'a>, r: TypeRef) -> bool {
        &&& r.index_of() < self.types().len()
        &&& old.at() <= self.type_spans()[r.index_of() as int].spec_start() <= self.at()
    }

    /// A token read since `old`.
    pub closed spec fn new_token(&self, old: &Parser<'a>, t: Token) -> bool {
        &&& token_in(t, self.text().len() as int)
        &&& old.at() <= t.spec_span().spec_start() <= self.at()
        &&& !(t.spec_token_type() is EOF)
    }

    /// Takes the first token of `lexer`.
    pub fn new(mut lexer: Lexer<'a>) -> (r: Result<Self, Error>)
        requires
            lexer.wf(),
            lexer.spec_index() == 0,
            source_fits(lexer.text().len() as int),
            no_panic_from(lexer.text(), 0),
        ensures
            r matches Ok(p) ==> p.wf() && p.text() == lexer.text() && p.spec_source() == lexer.spec_source(),
            r matches Err(e) ==> e is LexerError,
            r is Err <==> spec_next(lexer.text(), 0) is Fail,
    {
        proof {
            law_next_moves_forward(lexer.text(), 0);
            law_lparen_token_is_a_paren(lexer.text(), 0);
        }
        let token = lexer.next()?;
        let ghost s = lexer.text();
        proof {
            if token.spec_token_type() is EOF {
                law_end_marker_repeats(s, 0);
            }
        }
        let p = Parser {
            lexer,
            current_token: token,
            expr_pool: NodePoolWithSpan::new(),
            stmt_pool: NodePoolWithSpan::new(),
            type_pool: NodePoolWithSpan::new(),
            consumed: Ghost(0int),
        };
        Ok(p)
    }

    /// Moves to the next token and returns the one it was on.
    fn advance(&mut self) -> (r: Result<Token, Error>)
        requires
            old(self).wf(),
        ensures
            r matches Ok(t) ==> {
                &&& t == old(self).cur()
                &&& final(self).continues(old(self))
                &&& final(self).exprs() == old(self).exprs()
                &&& final(self).stmts() == old(self).stmts()
                &&& final(self).types() == old(self).types()
                &&& final(self).budget() == old(self).budget() + if t.spec_token_type() is EOF { 0int } else { 2int }
                &&& final(self).spec_consumed() == old(self).spec_consumed() + if t.spec_token_type() is EOF { 0int } else { 1int }
                &&& token_in(t, old(self).text().len() as int)
                &&& (!(t.spec_token_type() is EOF) ==> final(self).new_token(old(self), t))
                &&& (!(t.spec_token_type() is EOF) && !(final(self).cur().spec_token_type() is EOF) ==> final(self).at()
                    > old(self).at())
            },
            r matches Err(e) ==> e is LexerError,
    {
        let token = self.current_token;
        let ghost s = self.lexer.text();
        let ghost i = self.lexer.spec_index();
        proof {
            law_next_moves_forward(s, i);
            law_lparen_token_is_a_paren(s, i);
            match spec_next(s, i) {
                LexStep::Emit { token_type, .. } => {
                    if token_type is EOF {
                        law_end_marker_repeats(s, i);
                    }
                },
                _ => {},
            }
        }
        let next = self.lexer.next();
        match next {
            Ok(t) => {
                self.current_token = t;
                proof {
                    if !(token.spec_token_type() is EOF) {
                        self.consumed = Ghost(self.consumed@ + 1);
                    }
                    law_next_moves_forward(s, self.lexer.spec_index());
                }
                Ok(token)
            },
            Err(e) => Err(e),
        }
    }

    /// Takes the current token if it is of the `expected` kind.
    fn eat(&mut self, expected: TokenType) -> (r: Result<Token, Error>)
        requires
            old(self).wf(),
            !(expected is EOF),
        ensures
            r matches Ok(t) ==> {
                &&& t == old(self).cur()
                &&& t.spec_token_type().kind() == expected.kind()
                &&& final(self).continues(old(self))
                &&& final(self).exprs() == old(self).exprs()
                &&& final(self).stmts() == old(self).stmts()
                &&& final(self).types() == old(self).types()
                &&& final(self).budget() == old(self).budget() + 2
                &&& final(self).spec_consumed() == old(self).spec_consumed() + 1
                &&& final(self).new_token(old(self), t)
                &&& (!(final(self).cur().spec_token_type() is EOF) ==> final(self).at() > old(self).at())
            },
            r matches Err(e) ==> e is LexerError || (old(self).cur().spec_token_type().kind()
                != expected.kind() && unexpected_at(e, old(self).cur(), ErrorCode::UnexpectedToken)),
            old(self).cur().spec_token_type().kind() != expected.kind() ==> (r matches Err(e) && expected_token_error(
                e,
                expected,
                old(self).cur(),
            )),
    {
        let token = self.current_token;
        if token.token_type() != &expected {
            return Err(
                Error::ParserError {
                    msg: expected_token_message(expected, self.current_token),
                    pos: token.pos(),
                    error_code: ErrorCode::UnexpectedToken,
                },
            );
        }
        self.advance()
    }

    fn alloc_expr(&mut self, e: Expr, span: Span) -> (r: ExprRef)
        requires
            old(self).wf(),
            old(self).budget() >= 1,
            expr_node_ok(e, old(self).exprs().len() as int, old(self).text().len() as int),
            e matches Expr::BinOp { op, .. } ==> is_bin_op(op),
            span.spec_end() <= old(self).text().len(),
            sum_groups_left(e, old(self).exprs(), old(self).expr_spans(), old(self).text()),
            operands_in_order(e, old(self).expr_spans()),
        ensures
            final(self).continues(old(self)),
            final(self).exprs() == old(self).exprs().push(e),
            final(self).expr_spans() == old(self).expr_spans().push(span),
            final(self).stmts() == old(self).stmts(),
            final(self).types() == old(self).types(),
            final(self).budget() == old(self).budget() - 1,
            final(self).at() == old(self).at(),
            final(self).spec_consumed() == old(self).spec_consumed(),
            r.index_of() == old(self).exprs().len(),
    {
        let ghost old_p = *self;
        let ghost n = self.text().len() as int;
        let r = self.expr_pool.alloc_node(e, span);
        proof {
            let ne = self.exprs().len() as int;
            let nt = self.types().len() as int;
            assert forall|i: int| 0 <= i < self.stmts().len() implies stmt_node_ok(
                #[trigger] self.stmts()[i],
                i,
                ne,
                nt,
                n,
            ) by {
                lemma_stmt_ok_grows(self.stmts()[i], i, ne - 1, nt, ne, nt, n);
            }
            assert forall|i: int| 0 <= i < self.exprs().len() implies expr_node_ok(
                #[trigger] self.exprs()[i],
                i,
                n,
            ) by {
                if i < ne - 1 {
                    assert(self.exprs()[i] == old_p.exprs()[i]);
                }
            }
            assert forall|i: int| 0 <= i < self.expr_spans().len() implies (
            #[trigger] self.expr_spans()[i]).spec_end() <= n by {
                if i < ne - 1 {
                    assert(self.expr_spans()[i] == old_p.expr_spans()[i]);
                }
            }
        }
        r
    }

    fn alloc_stmt(&mut self, st: Stmt, span: Span) -> (r: StmtRef)
        requires
            old(self).wf(),
            old(self).budget() >= 1,
            stmt_node_ok(
                st,
                old(self).stmts().len() as int,
                old(self).exprs().len() as int,
                old(self).types().len() as int,
                old(self).text().len() as int,
            ),
            stmt_shape_ok(old(self).exprs(), st),
            st matches Stmt::Assign { left, .. } ==> (old(self).exprs()[left.index_of() as int] is Var
                || old(self).exprs()[left.index_of() as int] is Index),
            span.spec_end() <= old(self).text().len(),
        ensures
            final(self).continues(old(self)),
            final(self).stmts() == old(self).stmts().push(st),
            final(self).stmt_spans() == old(self).stmt_spans().push(span),
            final(self).exprs() == old(self).exprs(),
            final(self).types() == old(self).types(),
            final(self).budget() == old(self).budget() - 1,
            final(self).at() == old(self).at(),
            final(self).spec_consumed() == old(self).spec_consumed(),
            r.index_of() == old(self).stmts().len(),
    {
        let ghost old_p = *self;
        let ghost n = self.text().len() as int;
        let r = self.stmt_pool.alloc_node(st, span);
        proof {
            let ns = self.stmts().len() as int;
            assert forall|i: int| 0 <= i < self.stmts().len() implies stmt_node_ok(
                #[trigger] self.stmts()[i],
                i,
                self.exprs().len() as int,
                self.types().len() as int,
                n,
            ) by {
                if i < ns - 1 {
                    assert(self.stmts()[i] == old_p.stmts()[i]);
                }
            }
            assert forall|i: int| 0 <= i < self.stmt_spans().len() implies (
            #[trigger] self.stmt_spans()[i]).spec_end() <= n by {
                if i < ns - 1 {
                    assert(self.stmt_spans()[i] == old_p.stmt_spans()[i]);
                }
            }
        }
        r
    }

    fn alloc_type(&mut self, t: Type, span: Span) -> (r: TypeRef)
        requires
            old(self).wf(),
            old(self).budget() >= 1,
            type_node_ok(t, old(self).types().len() as int, old(self).exprs().len() as int, old(self).text().len() as int),
            span.spec_end() <= old(self).text().len(),
        ensures
            final(self).continues(old(self)),
            final(self).types() == old(self).types().push(t),
            final(self).type_spans() == old(self).type_spans().push(span),
            final(self).exprs() == old(self).exprs(),
            final(self).stmts() == old(self).stmts(),
            final(self).budget() == old(self).budget() - 1,
            final(self).at() == old(self).at(),
            final(self).spec_consumed() == old(self).spec_consumed(),
            r.index_of() == old(self).types().len(),
    {
        let ghost old_p = *self;
        let ghost n = self.text().len() as int;
        let r = self.type_pool.alloc_node(t, span);
        proof {
            let ne = self.exprs().len() as int;
            let nt = self.types().len() as int;
            assert forall|i: int| 0 <= i < self.stmts().len() implies stmt_node_ok(
                #[trigger] self.stmts()[i],
                i,
                ne,
                nt,
                n,
            ) by {
                lemma_stmt_ok_grows(self.stmts()[i], i, ne, nt - 1, ne, nt, n);
            }
            assert forall|i: int| 0 <= i < self.types().len() implies type_node_ok(
                #[trigger] self.types()[i],
                i,
                ne,
                n,
            ) by {
                if i < nt - 1 {
                    assert(self.types()[i] == old_p.types()[i]);
                }
            }
            assert forall|i: int| 0 <= i < self.type_spans().len() implies (
            #[trigger] self.type_spans()[i]).spec_end() <= n by {
                if i < nt - 1 {
                    assert(self.type_spans()[i] == old_p.type_spans()[i]);
                }
            }
        }
        r
    }
}


impl<'a> Parser<'a> {
    /// program:
    /// Program Id Semi block Dot
    fn program(&mut self) -> (r: Result<StmtRef, Error>)
        requires
            old(self).wf(),
        ensures
            final(self).stmt_result(old(self), r, 0),
            r matches Ok(x) ==> final(self).stmts()[x.index_of() as int] is Program,
            r matches Ok(x) ==> final(self).stmt_spans()[x.index_of() as int].spec_start() == old(self).at(),
            !(old(self).cur().spec_token_type() is Program) ==> (r matches Err(e) && expected_token_error(
                e,
                TokenType::Program,
                old(self).cur(),
            )),
    {
        let start_token = self.eat(TokenType::Program)?;
        let var = self.id_str()?;
        self.eat(TokenType::Semi)?;
        let block = self.block()?;
        let end_token = self.eat(TokenType::Dot)?;
        let span = start_token.span().total(&end_token.span());
        Ok(self.alloc_stmt(Stmt::Program { name: var, block: block }, span))
    }

    /// id:
    /// ID
    fn id(&mut self) -> (r: Result<ExprRef, Error>)
        requires
            old(self).wf(),
        ensures
            final(self).expr_result(old(self), r, 1),
            r matches Ok(x) ==> final(self).exprs()[x.index_of() as int] == (Expr::Var { name: old(self).cur() }),
            r matches Ok(x) ==> final(self).expr_spans()[x.index_of() as int] == old(self).cur().spec_span(),
            r matches Err(e) ==> (!(old(self).cur().spec_token_type() is Id) ==> unexpected_at(e, old(self).cur(), ErrorCode::UnexpectedToken)),
            !(old(self).cur().spec_token_type() is Id) ==> r is Err,
    {
        match self.current_token.token_type() {
            TokenType::Id => {
                let id = self.current_token;
                self.eat(TokenType::Id)?;
                Ok(self.alloc_expr(Expr::Var { name: id }, id.span()))
            },
            _ => Err(
                Error::ParserError {
                    msg: expected_id_message(self.current_token),
                    pos: self.current_token.pos(),
                    error_code: ErrorCode::UnexpectedToken,
                },
            ),
        }
    }

    fn id_str(&mut self) -> (r: Result<Token, Error>)
        requires
            old(self).wf(),
        ensures
            final(self).token_result(old(self), r),
            !(old(self).cur().spec_token_type() is Id) ==> r is Err,
    {
        match self.current_token.token_type() {
            TokenType::Id => self.eat(TokenType::Id),
            _ => Err(
                Error::ParserError {
                    msg: expected_id_message(self.current_token),
                    pos: self.current_token.pos(),
                    error_code: ErrorCode::UnexpectedToken,
                },
            ),
        }
    }

    /// block:
    /// declarations compound_statement
    fn block(&mut self) -> (r: Result<StmtRef, Error>)
        requires
            old(self).wf(),
        ensures
            final(self).stmt_result(old(self), r, 1),
            r matches Ok(x) ==> final(self).stmts()[x.index_of() as int] is Block,
        decreases old(self).remaining(), 3nat,
    {
        let (decls, span) = self.declarations()?;
        let ghost mid = *self;
        let compound = self.compound_statement()?;
        proof {
            self.lemma_decls_ok_grow(&mid, decls@);
        }
        let comp_span = self.stmt_pool.span(compound);
        let total = span.total(&comp_span);
        Ok(self.alloc_stmt(Stmt::Block { declarations: decls, statements: compound }, total))
    }

    /// declarations:
    /// (
    /// Const (const_declaration Semi)+ |
    /// Type (type_declaration Semi)+ |
    /// Var (var_declataion Semi)+ |
    /// procedure_declaration |
    /// function_declaration
    /// )*
    fn declarations(&mut self) -> (r: Result<(Vec<Decl>, Span), Error>)
        requires
            old(self).wf(),
        ensures
            r matches Ok((decls, span)) ==> {
                &&& final(self).continues(old(self))
                &&& final(self).budget() >= old(self).budget()
                &&& final(self).decls_ok(decls@)
                &&& span == old(self).cur().spec_span()
                &&& span.spec_end() <= old(self).text().len()
            },
            r matches Err(e) ==> syntax_error(e),
        decreases old(self).remaining(), 2nat,
    {
        let start_span = self.current_token.span();
        let mut decls: Vec<Decl> = Vec::new();
        let ghost start = *self;
        loop
            invariant
                self.continues(&start),
                start == *old(self),
                self.budget() >= start.budget(),
                self.decls_ok(decls@),
            decreases self.remaining(),
        {
            let kind = *self.current_token.token_type();
            let ghost before = *self;
            match kind {
                TokenType::Const => {
                    self.eat(TokenType::Const)?;
                    let more = self.const_declaration()?;
                    proof { self.lemma_decls_ok_grow(&before, decls@); }
                    let ghost (dv, mv) = (decls@, more@);
                        push_all(&mut decls, more);
                        proof { self.lemma_decls_ok_concat(dv, mv); }
                    let ghost mid = *self;
                    self.eat(TokenType::Semi)?;
                    proof { self.lemma_decls_ok_grow(&mid, decls@); }
                    loop
                        invariant
                            self.continues(&start),
                            self.budget() >= start.budget(),
                            self.decls_ok(decls@),
                            self.spec_consumed() > before.spec_consumed(),
                        decreases self.remaining(),
                    {
                        if !matches!(self.current_token.token_type(), TokenType::Id) {
                            break;
                        }
                        let ghost b2 = *self;
                        let more = self.const_declaration()?;
                        proof { self.lemma_decls_ok_grow(&b2, decls@); }
                        let ghost (dv, mv) = (decls@, more@);
                        push_all(&mut decls, more);
                        proof { self.lemma_decls_ok_concat(dv, mv); }
                        let ghost mid = *self;
                        self.eat(TokenType::Semi)?;
                        proof { self.lemma_decls_ok_grow(&mid, decls@); }
                    }
                },
                TokenType::Type => {
                    self.eat(TokenType::Type)?;
                    let more = self.type_declaration()?;
                    proof { self.lemma_decls_ok_grow(&before, decls@); }
                    let ghost (dv, mv) = (decls@, more@);
                        push_all(&mut decls, more);
                        proof { self.lemma_decls_ok_concat(dv, mv); }
                    let ghost mid = *self;
                    self.eat(TokenType::Semi)?;
                    proof { self.lemma_decls_ok_grow(&mid, decls@); }
                    loop
                        invariant
                            self.continues(&start),
                            self.budget() >= start.budget(),
                            self.decls_ok(decls@),
                            self.spec_consumed() > before.spec_consumed(),
                        decreases self.remaining(),
                    {
                        if !matches!(self.current_token.token_type(), TokenType::Id) {
                            break;
                        }
                        let ghost b2 = *self;
                        let more = self.type_declaration()?;
                        proof { self.lemma_decls_ok_grow(&b2, decls@); }
                        let ghost (dv, mv) = (decls@, more@);
                        push_all(&mut decls, more);
                        proof { self.lemma_decls_ok_concat(dv, mv); }
                        let ghost mid = *self;
                        self.eat(TokenType::Semi)?;
                        proof { self.lemma_decls_ok_grow(&mid, decls@); }
                    }
                },
                TokenType::Var => {
                    self.eat(TokenType::Var)?;
                    let more = self.var_declaration()?;
                    proof { self.lemma_decls_ok_grow(&before, decls@); }
                    let ghost (dv, mv) = (decls@, more@);
                        push_all(&mut decls, more);
                        proof { self.lemma_decls_ok_concat(dv, mv); }
                    let ghost mid = *self;
                    self.eat(TokenType::Semi)?;
                    proof { self.lemma_decls_ok_grow(&mid, decls@); }
                    loop
                        invariant
                            self.continues(&start),
                            self.budget() >= start.budget(),
                            self.decls_ok(decls@),
                            self.spec_consumed() > before.spec_consumed(),
                        decreases self.remaining(),
                    {
                        if !matches!(self.current_token.token_type(), TokenType::Id) {
                            break;
                        }
                        let ghost b2 = *self;
                        let more = self.var_declaration()?;
                        proof { self.lemma_decls_ok_grow(&b2, decls@); }
                        let ghost (dv, mv) = (decls@, more@);
                        push_all(&mut decls, more);
                        proof { self.lemma_decls_ok_concat(dv, mv); }
                        let ghost mid = *self;
                        self.eat(TokenType::Semi)?;
                        proof { self.lemma_decls_ok_grow(&mid, decls@); }
                    }
                },
                TokenType::Procedure => {
                    let d = self.procedure_declaration()?;
                    proof { self.lemma_decls_ok_grow(&before, decls@); }
                    let ghost dv = decls@;
                    proof { self.lemma_decls_ok_concat(dv, seq![d]); }
                    decls.push(d);
                    assert(decls@ == dv + seq![d]);
                },
                TokenType::Function => {
                    let d = self.function_declaration()?;
                    proof { self.lemma_decls_ok_grow(&before, decls@); }
                    let ghost dv = decls@;
                    proof { self.lemma_decls_ok_concat(dv, seq![d]); }
                    decls.push(d);
                    assert(decls@ == dv + seq![d]);
                },
                _ => {
                    break;
                },
            }
        }
        Ok((decls, start_span))
    }

    /// function_declaration:
    /// Function id (LParen formal_parameter_list RParen)?
    /// Colon type_spec Semi block Semi
    fn function_declaration(&mut self) -> (r: Result<Decl, Error>)
        requires
            old(self).wf(),
        ensures
            r matches Ok(d) ==> final(self).continues(old(self)) && final(self).budget() >= old(self).budget() && final(self).decls_ok(seq![d]) && d is Callable && final(self).spec_consumed() > old(self).spec_consumed(),
            r matches Err(e) ==> syntax_error(e),
        decreases old(self).remaining(), 1nat,
    {
        self.eat(TokenType::Function)?;
        let func_name = self.id_str()?;
        let params = match self.current_token.token_type() {
            TokenType::LParen => {
                self.eat(TokenType::LParen)?;
                let params = self.formal_parameter_list()?;
                self.eat(TokenType::RParen)?;
                params
            },
            _ => Vec::new(),
        };
        let ghost p1 = *self;
        self.eat(TokenType::Colon)?;
        let return_type = self.type_spec()?;
        self.eat(TokenType::Semi)?;
        let block = self.block()?;
        self.eat(TokenType::Semi)?;
        proof {
            assert forall|k: int| 0 <= k < params@.len() implies param_ok(#[trigger] params@[k], self.exprs().len() as int, self.types().len() as int)
                && self.exprs()[params@[k].var.index_of() as int] is Var by {
                assert(param_ok(params@[k], p1.exprs().len() as int, p1.types().len() as int));
                assert(self.exprs()[params@[k].var.index_of() as int] == p1.exprs()[params@[k].var.index_of() as int]);
            }
        }
        let d = Decl::Callable { name: func_name, block, params, return_type: Some(return_type) };
        proof {
            assert(decl_ok(d, self.stmts().len() as int, self.exprs().len() as int, self.types().len() as int, self.text().len() as int));
        }
        Ok(d)
    }

    /// var_declaration:
    /// Var id (Comma id)* Colon type_spec (Equal literal)?
    fn var_declaration(&mut self) -> (r: Result<Vec<Decl>, Error>)
        requires
            old(self).wf(),
        ensures
            r matches Ok(ds) ==> final(self).continues(old(self)) && final(self).budget() >= old(self).budget() && final(self).decls_ok(ds@),
            r matches Ok(ds) ==> var_decls_built(old(self).exprs().len() as int, final(self).exprs(), ds@),
            r matches Err(e) ==> syntax_error(e),
    {
        let first = self.id()?;
        let mut vars: Vec<ExprRef> = Vec::new();
        vars.push(first);
        let ghost start = *old(self);
        loop
            invariant
                self.continues(&start),
                self.budget() >= start.budget(),
                forall|k: int| 0 <= k < vars@.len() ==> (#[trigger] vars@[k]).index_of() < self.exprs().len(),
                forall|k: int| 0 <= k < vars@.len() ==> self.exprs()[(#[trigger] vars@[k]).index_of() as int] is Var,
                vars@.len() >= 1,
                forall|k: int| 0 <= k < vars@.len() ==> start.exprs().len() <= (#[trigger] vars@[k]).index_of(),
                forall|i: int, j: int| 0 <= i < j < vars@.len() ==> (#[trigger] vars@[i]).index_of() < (#[trigger] vars@[j]).index_of(),
            decreases self.remaining(),
        {
            if !matches!(self.current_token.token_type(), TokenType::Comma) {
                break;
            }
            self.eat(TokenType::Comma)?;
            let v = self.id()?;
            vars.push(v);
        }
        self.eat(TokenType::Colon)?;
        let type_spec = self.type_spec()?;
        let default_value = match self.current_token.token_type() {
            TokenType::Equal => {
                self.eat(TokenType::Equal)?;
                Some(self.literal()?)
            },
            _ => None,
        };
        let mut out: Vec<Decl> = Vec::new();
        let mut i: usize = 0;
        while i < vars.len()
            invariant
                self.wf(),
                i <= vars@.len(),
                forall|k: int| 0 <= k < vars@.len() ==> (#[trigger] vars@[k]).index_of() < self.exprs().len(),
                forall|k: int| 0 <= k < vars@.len() ==> self.exprs()[(#[trigger] vars@[k]).index_of() as int] is Var,
                type_spec.index_of() < self.types().len(),
                default_value matches Some(v) ==> v.index_of() < self.exprs().len(),
                self.decls_ok(out@),
                vars@.len() >= 1,
                forall|k: int| 0 <= k < vars@.len() ==> start.exprs().len() <= (#[trigger] vars@[k]).index_of(),
                forall|i: int, j: int| 0 <= i < j < vars@.len() ==> (#[trigger] vars@[i]).index_of() < (#[trigger] vars@[j]).index_of(),
                out@.len() == i,
                forall|k: int| 0 <= k < i ==> (#[trigger] out@[k]) == (Decl::VarDecl { var: vars@[k], type_node: type_spec, default_value }),
                start.exprs().len() == old(self).exprs().len(),
            decreases vars@.len() - i,
        {
            let d = Decl::VarDecl { var: vars[i], type_node: type_spec, default_value };
            proof {
                assert(decl_ok(d, self.stmts().len() as int, self.exprs().len() as int, self.types().len() as int, self.text().len() as int));
            }
            out.push(d);
            i = i + 1;
        }
        proof {
            assert forall|i: int, j: int| 0 <= i < j < out@.len() implies decl_var_index(#[trigger] out@[i]) < decl_var_index(
                #[trigger] out@[j],
            ) by {
                assert(vars@[i].index_of() < vars@[j].index_of());
            }
        }
        Ok(out)
    }

    /// procedure_declaration:
    /// Procedure id (LParen formal_parameter_list RParen)? Semi block Semi
    fn procedure_declaration(&mut self) -> (r: Result<Decl, Error>)
        requires
            old(self).wf(),
        ensures
            r matches Ok(d) ==> final(self).continues(old(self)) && final(self).budget() >= old(self).budget() && final(self).decls_ok(seq![d]) && d is Callable && final(self).spec_consumed() > old(self).spec_consumed(),
            r matches Err(e) ==> syntax_error(e),
        decreases old(self).remaining(), 1nat,
    {
        self.eat(TokenType::Procedure)?;
        let proc_name = self.id_str()?;
        let params = match self.current_token.token_type() {
            TokenType::LParen => {
                self.eat(TokenType::LParen)?;
                let params = self.formal_parameter_list()?;
                self.eat(TokenType::RParen)?;
                params
            },
            _ => Vec::new(),
        };
        let ghost p1 = *self;
        self.eat(TokenType::Semi)?;
        let block = self.block()?;
        self.eat(TokenType::Semi)?;
        proof {
            assert forall|k: int| 0 <= k < params@.len() implies param_ok(#[trigger] params@[k], self.exprs().len() as int, self.types().len() as int)
                && self.exprs()[params@[k].var.index_of() as int] is Var by {
                assert(param_ok(params@[k], p1.exprs().len() as int, p1.types().len() as int));
                assert(self.exprs()[params@[k].var.index_of() as int] == p1.exprs()[params@[k].var.index_of() as int]);
            }
        }
        let d = Decl::Callable { name: proc_name, block, params, return_type: None };
        proof {
            assert(decl_ok(d, self.stmts().len() as int, self.exprs().len() as int, self.types().len() as int, self.text().len() as int));
        }
        Ok(d)
    }

    /// formal_parameter_list:
    /// formal_parameters (Semi formal_parameter_list)?
    fn formal_parameter_list(&mut self) -> (r: Result<Vec<Param>, Error>)
        requires
            old(self).wf(),
        ensures
            r matches Ok(ps) ==> final(self).continues(old(self)) && final(self).budget() >= old(self).budget() && forall|k: int| 0 <= k < ps@.len() ==> param_ok(#[trigger] ps@[k], final(self).exprs().len() as int, final(self).types().len() as int),
            r matches Ok(ps) ==> forall|k: int| 0 <= k < ps@.len() ==> final(self).exprs()[(#[trigger] ps@[k]).var.index_of() as int] is Var,
            r matches Ok(ps) ==> params_built(old(self).exprs().len() as int, final(self).exprs(), ps@),
            r matches Err(e) ==> syntax_error(e),
        decreases old(self).remaining(),
    {
        let mut params = self.formal_parameters()?;
        if let TokenType::Semi = self.current_token.token_type() {
            self.eat(TokenType::Semi)?;
            let ghost p1 = *self;
            let more = self.formal_parameter_list()?;
            proof {
                assert forall|k: int| 0 <= k < params@.len() implies param_ok(#[trigger] params@[k], self.exprs().len() as int, self.types().len() as int)
                    && self.exprs()[params@[k].var.index_of() as int] is Var by {
                    assert(param_ok(params@[k], p1.exprs().len() as int, p1.types().len() as int));
                    assert(self.exprs()[params@[k].var.index_of() as int] == p1.exprs()[params@[k].var.index_of() as int]);
                }
            }
            let ghost pv = params@;
            push_all_params(&mut params, more);
            proof {
                assert forall|i: int, j: int| 0 <= i < j < params@.len() implies (#[trigger] params@[i]).var.index_of()
                    < (#[trigger] params@[j]).var.index_of() by {
                    if j >= pv.len() && i < pv.len() {
                        assert(param_ok(pv[i], p1.exprs().len() as int, p1.types().len() as int));
                    }
                }
            }
        }
        Ok(params)
    }

    /// formal_parameters:
    /// Out? id (Comma Out? id)* Colon type_spec
    fn formal_parameters(&mut self) -> (r: Result<Vec<Param>, Error>)
        requires
            old(self).wf(),
        ensures
            r matches Ok(ps) ==> final(self).continues(old(self)) && final(self).budget() >= old(self).budget() && forall|k: int| 0 <= k < ps@.len() ==> param_ok(#[trigger] ps@[k], final(self).exprs().len() as int, final(self).types().len() as int),
            r matches Ok(ps) ==> forall|k: int| 0 <= k < ps@.len() ==> final(self).exprs()[(#[trigger] ps@[k]).var.index_of() as int] is Var,
            r matches Ok(ps) ==> params_built(old(self).exprs().len() as int, final(self).exprs(), ps@),
            r matches Ok(ps) ==> forall|k: int| 0 <= k < ps@.len() ==> (#[trigger] ps@[k]).type_node == ps@[0].type_node,
            r matches Err(e) ==> syntax_error(e),
    {
        let out = match self.current_token.token_type() {
            TokenType::Out => {
                self.eat(TokenType::Out)?;
                true
            },
            _ => false,
        };
        let first = self.id()?;
        let mut names: Vec<(bool, ExprRef)> = Vec::new();
        names.push((out, first));
        let ghost start = *old(self);
        loop
            invariant
                self.continues(&start),
                self.budget() >= start.budget(),
                forall|k: int| 0 <= k < names@.len() ==> (#[trigger] names@[k]).1.index_of() < self.exprs().len(),
                forall|k: int| 0 <= k < names@.len() ==> self.exprs()[(#[trigger] names@[k]).1.index_of() as int] is Var,
                names@.len() >= 1,
                forall|k: int| 0 <= k < names@.len() ==> start.exprs().len() <= (#[trigger] names@[k]).1.index_of(),
                forall|i: int, j: int| 0 <= i < j < names@.len() ==> (#[trigger] names@[i]).1.index_of() < (#[trigger] names@[j]).1.index_of(),
            decreases self.remaining(),
        {
            if !matches!(self.current_token.token_type(), TokenType::Comma) {
                break;
            }
            self.eat(TokenType::Comma)?;
            let out = match self.current_token.token_type() {
                TokenType::Out => {
                    self.eat(TokenType::Out)?;
                    true
                },
                _ => false,
            };
            let v = self.id()?;
            names.push((out, v));
        }
        self.eat(TokenType::Colon)?;
        let param_type = self.type_spec()?;
        let mut params: Vec<Param> = Vec::new();
        let mut i: usize = 0;
        while i < names.len()
            invariant
                self.wf(),
                i <= names@.len(),
                forall|k: int| 0 <= k < names@.len() ==> (#[trigger] names@[k]).1.index_of() < self.exprs().len(),
                forall|k: int| 0 <= k < names@.len() ==> self.exprs()[(#[trigger] names@[k]).1.index_of() as int] is Var,
                param_type.index_of() < self.types().len(),
                forall|k: int| 0 <= k < params@.len() ==> param_ok(#[trigger] params@[k], self.exprs().len() as int, self.types().len() as int),
                forall|k: int| 0 <= k < params@.len() ==> self.exprs()[(#[trigger] params@[k]).var.index_of() as int] is Var,
                params@.len() == i,
                forall|k: int| 0 <= k < i ==> (#[trigger] params@[k]).var == names@[k].1,
                forall|k: int| 0 <= k < i ==> (#[trigger] params@[k]).type_node == param_type,
                names@.len() >= 1,
                forall|k: int| 0 <= k < names@.len() ==> start.exprs().len() <= (#[trigger] names@[k]).1.index_of(),
                forall|i: int, j: int| 0 <= i < j < names@.len() ==> (#[trigger] names@[i]).1.index_of() < (#[trigger] names@[j]).1.index_of(),
                start.exprs().len() == old(self).exprs().len(),
            decreases names@.len() - i,
        {
            let (o, n) = names[i];
            params.push(Param { var: n, out: o, type_node: param_type });
            i = i + 1;
        }
        proof {
            assert forall|i: int, j: int| 0 <= i < j < params@.len() implies (#[trigger] params@[i]).var.index_of()
                < (#[trigger] params@[j]).var.index_of() by {
                assert(names@[i].1.index_of() < names@[j].1.index_of());
            }
        }
        Ok(params)
    }

    /// const_declaration:
    /// Const id (Comma id)* Eq literal
    fn const_declaration(&mut self) -> (r: Result<Vec<Decl>, Error>)
        requires
            old(self).wf(),
        ensures
            r matches Ok(ds) ==> final(self).continues(old(self)) && final(self).budget() >= old(self).budget() && final(self).decls_ok(ds@),
            r matches Ok(ds) ==> const_decls_built(old(self).exprs().len() as int, final(self).exprs(), ds@),
            r matches Err(e) ==> syntax_error(e),
    {
        let first = self.id()?;
        let mut names: Vec<ExprRef> = Vec::new();
        names.push(first);
        let ghost start = *old(self);
        loop
            invariant
                self.continues(&start),
                self.budget() >= start.budget(),
                forall|k: int| 0 <= k < names@.len() ==> (#[trigger] names@[k]).index_of() < self.exprs().len(),
                forall|k: int| 0 <= k < names@.len() ==> self.exprs()[(#[trigger] names@[k]).index_of() as int] is Var,
                names@.len() >= 1,
                forall|k: int| 0 <= k < names@.len() ==> start.exprs().len() <= (#[trigger] names@[k]).index_of(),
                forall|i: int, j: int| 0 <= i < j < names@.len() ==> (#[trigger] names@[i]).index_of() < (#[trigger] names@[j]).index_of(),
            decreases self.remaining(),
        {
            if !matches!(self.current_token.token_type(), TokenType::Comma) {
                break;
            }
            self.eat(TokenType::Comma)?;
            let v = self.id()?;
            names.push(v);
        }
        self.eat(TokenType::Equal)?;
        let literal = self.literal()?;
        let mut out: Vec<Decl> = Vec::new();
        let mut i: usize = 0;
        while i < names.len()
            invariant
                self.wf(),
                i <= names@.len(),
                forall|k: int| 0 <= k < names@.len() ==> (#[trigger] names@[k]).index_of() < self.exprs().len(),
                forall|k: int| 0 <= k < names@.len() ==> self.exprs()[(#[trigger] names@[k]).index_of() as int] is Var,
                literal.index_of() < self.exprs().len(),
                is_literal(self.exprs()[literal.index_of() as int]),
                self.decls_ok(out@),
                names@.len() >= 1,
                forall|k: int| 0 <= k < names@.len() ==> start.exprs().len() <= (#[trigger] names@[k]).index_of(),
                forall|k: int| 0 <= k < names@.len() ==> (#[trigger] names@[k]).index_of() < literal.index_of(),
                forall|i: int, j: int| 0 <= i < j < names@.len() ==> (#[trigger] names@[i]).index_of() < (#[trigger] names@[j]).index_of(),
                out@.len() == i,
                forall|k: int| 0 <= k < i ==> (#[trigger] out@[k]) == (Decl::ConstDecl { var: names@[k], literal }),
                start.exprs().len() == old(self).exprs().len(),
            decreases names@.len() - i,
        {
            let d = Decl::ConstDecl { var: names[i], literal };
            proof {
                assert(decl_ok(d, self.stmts().len() as int, self.exprs().len() as int, self.types().len() as int, self.text().len() as int));
            }
            out.push(d);
            i = i + 1;
        }
        proof {
            assert forall|i: int, j: int| 0 <= i < j < out@.len() implies decl_var_index(#[trigger] out@[i]) < decl_var_index(
                #[trigger] out@[j],
            ) by {
                assert(names@[i].index_of() < names@[j].index_of());
            }
        }
        Ok(out)
    }

    /// type_declaration:
    /// Type id (Comma id)* Equal type_spec
    fn type_declaration(&mut self) -> (r: Result<Vec<Decl>, Error>)
        requires
            old(self).wf(),
        ensures
            r matches Ok(ds) ==> final(self).continues(old(self)) && final(self).budget() >= old(self).budget() && final(self).decls_ok(ds@),
            r matches Ok(ds) ==> type_decls_built(old(self).types().len() as int, final(self).types(), ds@),
            r matches Err(e) ==> syntax_error(e),
    {
        let first = self.id_str()?;
        let mut names: Vec<Token> = Vec::new();
        names.push(first);
        let ghost start = *old(self);
        loop
            invariant
                self.continues(&start),
                self.budget() >= start.budget() + 2 * names@.len(),
                forall|k: int| 0 <= k < names@.len() ==> token_in(#[trigger] names@[k], self.text().len() as int),
                names@.len() >= 1,
            decreases self.remaining(),
        {
            if !matches!(self.current_token.token_type(), TokenType::Comma) {
                break;
            }
            self.eat(TokenType::Comma)?;
            let t = self.id_str()?;
            names.push(t);
        }
        self.eat(TokenType::Equal)?;
        let type_decl = self.type_spec()?;
        let mut out: Vec<Decl> = Vec::new();
        let mut i: usize = 0;
        let ghost mid = *self;
        while i < names.len()
            invariant
                self.continues(&start),
                start.budget() >= 0,
                i <= names@.len(),
                self.budget() >= start.budget() + 2 * names@.len() - i,
                forall|k: int| 0 <= k < names@.len() ==> token_in(#[trigger] names@[k], self.text().len() as int),
                type_decl.index_of() < self.types().len(),
                self.decls_ok(out@),
                out@.len() == i,
                names@.len() >= 1,
                mid.types().len() <= self.types().len(),
                forall|k: int| 0 <= k < i ==> ((#[trigger] out@[k]) matches Decl::TypeDecl { var, type_node } && type_node
                    == type_decl && mid.types().len() <= var.index_of() < self.types().len() && self.types()[var.index_of() as int] is Alias),
                forall|a: int, b: int| 0 <= a < b < i ==> decl_var_index(#[trigger] out@[a]) < decl_var_index(#[trigger] out@[b]),
                forall|k: int| 0 <= k < i ==> decl_var_index(#[trigger] out@[k]) < self.types().len(),
                start.types().len() <= mid.types().len(),
                type_decl.index_of() < mid.types().len(),
                start.types().len() == old(self).types().len(),
            decreases names@.len() - i,
        {
            let t = names[i];
            let ghost before = *self;
            let alias = self.alloc_type(Type::Alias(t), t.span());
            proof {
                self.lemma_decls_ok_grow(&before, out@);
            }
            let d = Decl::TypeDecl { var: alias, type_node: type_decl };
            out.push(d);
            i = i + 1;
        }
        Ok(out)
    }

    /// type_spec:
    /// Integer | Real | Boolean | String | Char |
    /// enum_spec |
    /// array_spec |
    /// range_spec
    fn type_spec(&mut self) -> (r: Result<TypeRef, Error>)
        requires
            old(self).wf(),
        ensures
            final(self).type_result(old(self), r, 1),
        decreases old(self).remaining(), 2nat,
    {
        let kind = *self.current_token.token_type();
        match kind {
            TokenType::Integer => {
                let token = self.advance()?;
                Ok(self.alloc_type(Type::Integer, token.span()))
            },
            TokenType::Real => {
                let token = self.advance()?;
                Ok(self.alloc_type(Type::Real, token.span()))
            },
            TokenType::Boolean => {
                let token = self.advance()?;
                Ok(self.alloc_type(Type::Boolean, token.span()))
            },
            TokenType::String => {
                let token = self.advance()?;
                Ok(self.alloc_type(Type::String, token.span()))
            },
            TokenType::Char => {
                let token = self.advance()?;
                Ok(self.alloc_type(Type::Char, token.span()))
            },
            TokenType::LParen => self.enum_spec(),
            TokenType::Array => self.array_spec(),
            _ => match self.lexer.peek() {
                Some('.') => self.range_spec(),
                _ => {
                    let token = self.eat(TokenType::Id)?;
                    Ok(self.alloc_type(Type::Alias(token), token.span()))
                },
            },
        }
    }

    /// enum_spec:
    /// LParan id (Comma id)* RParan
    fn enum_spec(&mut self) -> (r: Result<TypeRef, Error>)
        requires
            old(self).wf(),
        ensures
            final(self).type_result(old(self), r, 1),
    {
        let start_span = self.eat(TokenType::LParen)?.span();
        let first = self.id_str()?;
        let mut items: Vec<Token> = Vec::new();
        items.push(first);
        let ghost start = *old(self);
        loop
            invariant
                self.continues(&start),
                self.budget() >= start.budget() + 4,
                start_span.spec_start() == start.at(),
                forall|k: int| 0 <= k < items@.len() ==> token_in(#[trigger] items@[k], self.text().len() as int),
            decreases self.remaining(),
        {
            if !matches!(self.current_token.token_type(), TokenType::Comma) {
                break;
            }
            self.eat(TokenType::Comma)?;
            let t = self.id_str()?;
            items.push(t);
        }
        let right_span = self.eat(TokenType::RParen)?.span();
        let span = start_span.total(&right_span);
        Ok(self.alloc_type(Type::Enum { items }, span))
    }

    /// array_spec:
    /// Array (LBrack (id|range_spec) RBrack)? Of type_spec
    fn array_spec(&mut self) -> (r: Result<TypeRef, Error>)
        requires
            old(self).wf(),
        ensures
            final(self).type_result(old(self), r, 1),
        decreases old(self).remaining(), 1nat,
    {
        let start_span = self.eat(TokenType::Array)?.span();
        if let TokenType::LBracket = self.current_token.token_type() {
            self.eat(TokenType::LBracket)?;
            let index_type = match self.lexer.peek() {
                Some('.') => self.range_spec()?,
                _ => {
                    let token = self.advance()?;
                    self.alloc_type(Type::Alias(token), token.span())
                },
            };
            self.eat(TokenType::RBracket)?;
            self.eat(TokenType::Of)?;
            let element_type = self.type_spec()?;
            let element_span = self.type_pool.span(element_type);
            let span = start_span.total(&element_span);
            return Ok(self.alloc_type(Type::Array { index_type, element_type }, span));
        }
        self.eat(TokenType::Of)?;
        let element_type = self.type_spec()?;
        let element_span = self.type_pool.span(element_type);
        let span = start_span.total(&element_span);
        Ok(self.alloc_type(Type::DynamicArray { element_type }, span))
    }

    /// range_spec:
    /// (id | literal) Dot Dot (id | literal)
    fn range_spec(&mut self) -> (r: Result<TypeRef, Error>)
        requires
            old(self).wf(),
        ensures
            final(self).type_result(old(self), r, 1),
    {
        let start = match self.current_token.token_type() {
            TokenType::Id => self.id()?,
            _ => self.literal()?,
        };
        let start_span = self.expr_pool.span(start);
        self.eat(TokenType::Dot)?;
        self.eat(TokenType::Dot)?;
        let end = match self.current_token.token_type() {
            TokenType::Id => self.id()?,
            _ => self.literal()?,
        };
        let end_span = self.expr_pool.span(end);
        let span = start_span.total(&end_span);
        Ok(self.alloc_type(Type::Range { start_val: start, end_val: end }, span))
    }
}

impl<'a> Parser<'a> {
    /// compound_statement:
    /// Begin statement_list End
    fn compound_statement(&mut self) -> (r: Result<StmtRef, Error>)
        requires
            old(self).wf(),
        ensures
            final(self).stmt_result(old(self), r, 2),
        decreases old(self).remaining(), 3nat,
    {
        let start_span = self.eat(TokenType::Begin)?.span();
        let ghost mid = *self;
        let statement_list = self.statement_list()?;
        let end_span = self.eat(TokenType::End)?.span();
        let span = start_span.total(&end_span);
        Ok(self.alloc_stmt(Stmt::Compound(statement_list), span))
    }

    /// statement_list:
    /// statement (Semi statement)*
    fn statement_list(&mut self) -> (r: Result<Vec<StmtRef>, Error>)
        requires
            old(self).wf(),
            old(self).budget() >= 1,
        ensures
            r matches Ok(v) ==> {
                &&& final(self).continues(old(self))
                &&& final(self).budget() >= old(self).budget() - 1
                &&& forall|k: int| 0 <= k < v@.len() ==> (#[trigger] v@[k]).index_of() < final(self).stmts().len()
                &&& v@.len() >= 1
                &&& forall|k: int| 0 <= k < v@.len() ==> old(self).stmts().len() <= (#[trigger] v@[k]).index_of()
                &&& forall|i: int, j: int| 0 <= i < j < v@.len() ==> (#[trigger] v@[i]).index_of() < (#[trigger] v@[j]).index_of()
            },
            r matches Err(e) ==> syntax_error(e),
        decreases old(self).remaining(), 5nat,
    {
        let first = self.statement()?;
        let mut statements: Vec<StmtRef> = Vec::new();
        statements.push(first);
        let ghost start = *old(self);
        loop
            invariant
                self.continues(&start),
                self.budget() >= start.budget() - 1,
                start.remaining() == old(self).remaining(),
                forall|k: int| 0 <= k < statements@.len() ==> (#[trigger] statements@[k]).index_of() < self.stmts().len(),
                statements@.len() >= 1,
                forall|k: int| 0 <= k < statements@.len() ==> start.stmts().len() <= (#[trigger] statements@[k]).index_of(),
                forall|i: int, j: int| 0 <= i < j < statements@.len() ==> (#[trigger] statements@[i]).index_of() < (#[trigger] statements@[j]).index_of(),
            decreases self.remaining(),
        {
            if !matches!(self.current_token.token_type(), TokenType::Semi) {
                break;
            }
            self.eat(TokenType::Semi)?;
            let st = self.statement()?;
            statements.push(st);
        }
        Ok(statements)
    }

    /// statement:
    /// Continue |
    /// Break |
    /// compound_statement |
    /// call_statement |
    /// assignment_statement |
    /// if_statement |
    /// while_statement |
    /// for_statement |
    /// exit_statement |
    /// NoOp
    fn statement(&mut self) -> (r: Result<StmtRef, Error>)
        requires
            old(self).wf(),
            old(self).budget() >= 1,
        ensures
            final(self).stmt_result(old(self), r, -1),
        decreases old(self).remaining(), 4nat,
    {
        let kind = *self.current_token.token_type();
        match kind {
            TokenType::Continue => {
                let span = self.eat(TokenType::Continue)?.span();
                Ok(self.alloc_stmt(Stmt::Continue, span))
            },
            TokenType::Break => {
                let span = self.eat(TokenType::Break)?.span();
                Ok(self.alloc_stmt(Stmt::Break, span))
            },
            TokenType::Begin => self.compound_statement(),
            TokenType::Id => match self.lexer.current_char() {
                Some('(') => self.call_statement(),
                _ => self.assignment_statement(),
            },
            TokenType::If => self.if_statement(),
            TokenType::While => self.while_statement(),
            TokenType::For => self.for_statement(),
            TokenType::Exit => self.exit_statement(),
            _ => {
                let span = Span::zero(self.current_token.span().start());
                Ok(self.alloc_stmt(Stmt::NoOp, span))
            },
        }
    }

    /// exit_statement:
    /// Exit (LParan exprt RParan)?
    fn exit_statement(&mut self) -> (r: Result<StmtRef, Error>)
        requires
            old(self).wf(),
        ensures
            final(self).stmt_result(old(self), r, 1),
    {
        let mut span = self.eat(TokenType::Exit)?.span();
        let mut expr = None;
        if let TokenType::LParen = self.current_token.token_type() {
            self.eat(TokenType::LParen)?;
            expr = Some(self.expr()?);
            let close = self.eat(TokenType::RParen)?.span();
            span = span.total(&close);
        }
        Ok(self.alloc_stmt(Stmt::Exit(expr), span))
    }

    /// for_statement:
    /// For id Assign expr To expr Do statement
    fn for_statement(&mut self) -> (r: Result<StmtRef, Error>)
        requires
            old(self).wf(),
        ensures
            final(self).stmt_result(old(self), r, 1),
        decreases old(self).remaining(), 3nat,
    {
        let start_span = self.eat(TokenType::For)?.span();
        let var = self.id_str()?;
        self.eat(TokenType::Assign)?;
        let init_state = self.expr()?;
        self.eat(TokenType::To)?;
        let end_state = self.expr()?;
        self.eat(TokenType::Do)?;
        let expr = self.statement()?;
        let end_span = self.stmt_pool.span(expr);
        let span = start_span.total(&end_span);
        Ok(self.alloc_stmt(Stmt::For { var, init: init_state, end: end_state, body: expr }, span))
    }

    /// while_statement:
    /// While expr Do statement
    fn while_statement(&mut self) -> (r: Result<StmtRef, Error>)
        requires
            old(self).wf(),
        ensures
            final(self).stmt_result(old(self), r, 1),
        decreases old(self).remaining(), 3nat,
    {
        let span = self.eat(TokenType::While)?.span();
        let cond = self.expr()?;
        self.eat(TokenType::Do)?;
        let body = self.statement()?;
        let body_span = self.stmt_pool.span(body);
        let span = span.total(&body_span);
        Ok(self.alloc_stmt(Stmt::While { cond, body }, span))
    }

    /// if_statement:
    /// If condition
    /// (Else If condition)*
    /// (Else statement)?
    fn if_statement(&mut self) -> (r: Result<StmtRef, Error>)
        requires
            old(self).wf(),
        ensures
            final(self).stmt_result(old(self), r, 1),
        decreases old(self).remaining(), 3nat,
    {
        let mut span = self.eat(TokenType::If)?.span();
        let (main_cond, main_span) = self.condition()?;
        span = span.total(&main_span);
        let mut other_conditions: Vec<Condition> = Vec::new();
        let mut last_conditition: Option<StmtRef> = None;
        let ghost start = *old(self);
        loop
            invariant
                self.continues(&start),
                self.budget() >= start.budget() + 3,
                start.remaining() == old(self).remaining(),
                self.spec_consumed() > start.spec_consumed(),
                span.spec_start() == start.at(),
                span.spec_end() <= self.text().len(),
                cond_ok(main_cond, self.stmts().len() as int, self.exprs().len() as int),
                forall|k: int| 0 <= k < other_conditions@.len() ==> cond_ok(#[trigger] other_conditions@[k], self.stmts().len() as int, self.exprs().len() as int),
                last_conditition matches Some(e) ==> e.index_of() < self.stmts().len(),
            decreases self.remaining(),
        {
            if !matches!(self.current_token.token_type(), TokenType::Else) {
                break;
            }
            self.eat(TokenType::Else)?;
            match self.current_token.token_type() {
                TokenType::If => {
                    self.eat(TokenType::If)?;
                    let (cond, new_span) = self.condition()?;
                    span = span.total(&new_span);
                    other_conditions.push(cond);
                },
                _ => {
                    let stmt = self.statement()?;
                    let stmt_span = self.stmt_pool.span(stmt);
                    span = span.total(&stmt_span);
                    last_conditition = Some(stmt);
                    break;
                },
            }
        }
        Ok(self.alloc_stmt(Stmt::If { cond: main_cond, elifs: other_conditions, else_statement: last_conditition }, span))
    }

    /// condition:
    /// expr Then statement
    fn condition(&mut self) -> (r: Result<(Condition, Span), Error>)
        requires
            old(self).wf(),
        ensures
            r matches Ok((c, sp)) ==> {
                &&& final(self).continues(old(self))
                &&& final(self).budget() >= old(self).budget() + 2
                &&& final(self).spec_consumed() > old(self).spec_consumed()
                &&& cond_ok(c, final(self).stmts().len() as int, final(self).exprs().len() as int)
                &&& old(self).at() <= sp.spec_start() <= final(self).at()
                &&& sp.spec_end() <= final(self).text().len()
            },
            r matches Err(e) ==> syntax_error(e),
        decreases old(self).remaining(), 2nat,
    {
        let cond = self.expr()?;
        let span = self.expr_pool.span(cond);
        self.eat(TokenType::Then)?;
        let expr = self.statement()?;
        let expr_span = self.stmt_pool.span(expr);
        let span = span.total(&expr_span);
        Ok((Condition { cond, expr }, span))
    }

    /// assignment_statement:
    /// id (LBracket expr RBracket)? Assign expr
    fn assignment_statement(&mut self) -> (r: Result<StmtRef, Error>)
        requires
            old(self).wf(),
        ensures
            final(self).stmt_result(old(self), r, 1),
    {
        let var = match self.lexer.current_char() {
            Some('[') => self.index_of_statement()?,
            _ => self.id()?,
        };
        let ghost mid = *self;
        let span = self.expr_pool.span(var);
        self.eat(TokenType::Assign)?;
        let expr = self.expr()?;
        let expr_span = self.expr_pool.span(expr);
        let span = span.total(&expr_span);
        proof {
            assert(self.exprs()[var.index_of() as int] == mid.exprs()[var.index_of() as int]);
        }
        Ok(self.alloc_stmt(Stmt::Assign { left: var, right: expr }, span))
    }

    /// call_statement:
    /// Id LParan expr (Comma expr)* RParan
    fn call_statement(&mut self) -> (r: Result<StmtRef, Error>)
        requires
            old(self).wf(),
        ensures
            final(self).stmt_result(old(self), r, 1),
    {
        let call = self.call_expr()?;
        let span = self.expr_pool.span(call);
        Ok(self.alloc_stmt(Stmt::Call { call }, span))
    }

    /// expr:
    /// bool_expr (OR bool_expr)*
    fn expr(&mut self) -> (r: Result<ExprRef, Error>)
        requires
            old(self).wf(),
        ensures
            final(self).expr_result(old(self), r, 1),
            r is Ok ==> !(old(self).cur().spec_token_type() is EOF),
        decreases old(self).remaining(), 7nat,
    {
        let mut node = self.bool_expr()?;
        let ghost start = *old(self);
        loop
            invariant
                self.continues(&start),
                self.new_expr(&start, node),
                self.budget() >= start.budget() + 1,
                start.remaining() == old(self).remaining(),
            decreases self.remaining(),
        {
            if !matches!(self.current_token.token_type(), TokenType::Or) {
                break;
            }
            self.eat(TokenType::Or)?;
            let right = self.bool_expr()?;
            let span = self.expr_pool.span(node).total(&self.expr_pool.span(right));
            node = self.alloc_expr(Expr::BinOp { op: TokenType::Or, left: node, right }, span);
        }
        Ok(node)
    }

    /// bool_expr:
    /// compare_expr (AND compare_expr)*
    fn bool_expr(&mut self) -> (r: Result<ExprRef, Error>)
        requires
            old(self).wf(),
        ensures
            final(self).expr_result(old(self), r, 1),
            r is Ok ==> !(old(self).cur().spec_token_type() is EOF),
        decreases old(self).remaining(), 6nat,
    {
        let mut node = self.compare_expr()?;
        let ghost start = *old(self);
        loop
            invariant
                self.continues(&start),
                self.new_expr(&start, node),
                self.budget() >= start.budget() + 1,
                start.remaining() == old(self).remaining(),
            decreases self.remaining(),
        {
            if !matches!(self.current_token.token_type(), TokenType::And) {
                break;
            }
            self.eat(TokenType::And)?;
            let right = self.compare_expr()?;
            let span = self.expr_pool.span(node).total(&self.expr_pool.span(right));
            node = self.alloc_expr(Expr::BinOp { op: TokenType::And, left: node, right }, span);
        }
        Ok(node)
    }

    /// compare_expr:
    /// add_expr (compare_token add_expr)*
    fn compare_expr(&mut self) -> (r: Result<ExprRef, Error>)
        requires
            old(self).wf(),
        ensures
            final(self).expr_result(old(self), r, 1),
            r is Ok ==> !(old(self).cur().spec_token_type() is EOF),
        decreases old(self).remaining(), 5nat,
    {
        let mut node = self.add_expr()?;
        let ghost start = *old(self);
        loop
            invariant
                self.continues(&start),
                self.new_expr(&start, node),
                self.budget() >= start.budget() + 1,
                start.remaining() == old(self).remaining(),
            decreases self.remaining(),
        {
            if !self.current_token.token_type().is_compare_operator() {
                break;
            }
            let token = *self.advance()?.token_type();
            let right = self.add_expr()?;
            let span = self.expr_pool.span(node).total(&self.expr_pool.span(right));
            node = self.alloc_expr(Expr::BinOp { op: token, left: node, right }, span);
        }
        Ok(node)
    }

    /// add_expr
    /// mult_expr ((Minus | Plus) mult_expr)*
    fn add_expr(&mut self) -> (r: Result<ExprRef, Error>)
        requires
            old(self).wf(),
        ensures
            final(self).expr_result(old(self), r, 1),
            r is Ok ==> !(old(self).cur().spec_token_type() is EOF),
        decreases old(self).remaining(), 4nat,
    {
        let mut node = self.mult_expr()?;
        let ghost start = *old(self);
        loop
            invariant
                self.continues(&start),
                self.new_expr(&start, node),
                self.budget() >= start.budget() + 1,
                start.remaining() == old(self).remaining(),
            decreases self.remaining(),
        {
            if !matches!(self.current_token.token_type(), TokenType::Plus | TokenType::Minus) {
                break;
            }
            let token = *self.advance()?.token_type();
            let right = self.mult_expr()?;
            let span = self.expr_pool.span(node).total(&self.expr_pool.span(right));
            node = self.alloc_expr(Expr::BinOp { op: token, left: node, right }, span);
        }
        Ok(node)
    }

    /// mult_expr:
    /// factor ((Mult | Div | RealDiv) factor)*
    fn mult_expr(&mut self) -> (r: Result<ExprRef, Error>)
        requires
            old(self).wf(),
        ensures
            final(self).expr_result(old(self), r, 1),
            r is Ok ==> !(old(self).cur().spec_token_type() is EOF),
            r matches Ok(x) ==> (is_sum(final(self).exprs()[x.index_of() as int]) ==> paren_between(
                final(self).text(),
                old(self).at(),
                final(self).expr_spans()[x.index_of() as int].spec_start() as int,
            )),
        decreases old(self).remaining(), 3nat,
    {
        let mut node = self.factor()?;
        let ghost start = *old(self);
        loop
            invariant
                self.continues(&start),
                self.new_expr(&start, node),
                self.budget() >= start.budget() + 1,
                !(start.cur().spec_token_type() is EOF),
                is_sum(self.exprs()[node.index_of() as int]) ==> paren_between(
                    self.text(),
                    start.at(),
                    self.expr_spans()[node.index_of() as int].spec_start() as int,
                ),
                start.remaining() == old(self).remaining(),
            decreases self.remaining(),
        {
            if !matches!(self.current_token.token_type(), TokenType::Mul | TokenType::RealDiv | TokenType::IntegerDiv) {
                break;
            }
            let token = *self.advance()?.token_type();
            let right = self.factor()?;
            let span = self.expr_pool.span(node).total(&self.expr_pool.span(right));
            node = self.alloc_expr(Expr::BinOp { op: token, left: node, right }, span);
        }
        Ok(node)
    }

    /// factor:
    /// (Plus | Minus) factor |
    /// Not compare_statement |
    /// literal |
    /// OpenParan expr CloseParan |
    /// call_expr |
    /// index_of_statement |
    /// variable
    fn factor(&mut self) -> (r: Result<ExprRef, Error>)
        requires
            old(self).wf(),
        ensures
            final(self).expr_result(old(self), r, 1),
            r is Ok ==> !(old(self).cur().spec_token_type() is EOF),
            r matches Ok(x) ==> (is_sum(final(self).exprs()[x.index_of() as int]) ==> paren_between(
                final(self).text(),
                old(self).at(),
                final(self).expr_spans()[x.index_of() as int].spec_start() as int,
            )),
        decreases old(self).remaining(), 2nat,
    {
        let kind = *self.current_token.token_type();
        match kind {
            TokenType::Plus | TokenType::Minus => {
                let token = self.advance()?;
                let factor = self.factor()?;
                let span = token.span().total(&self.expr_pool.span(factor));
                Ok(self.alloc_expr(Expr::UnaryOp { op: *token.token_type(), expr: factor }, span))
            },
            TokenType::Not => {
                let span = self.eat(TokenType::Not)?.span();
                let expr = self.compare_expr()?;
                let span = span.total(&self.expr_pool.span(expr));
                Ok(self.alloc_expr(Expr::UnaryOp { op: TokenType::Not, expr }, span))
            },
            TokenType::IntegerConst(_)
            | TokenType::RealConst
            | TokenType::BooleanConst(_)
            | TokenType::StringConst
            | TokenType::CharConst(_) => self.literal(),
            TokenType::LParen => {
                let ghost before = *self;
                self.eat(TokenType::LParen)?;
                let ghost mid = *self;
                let expr = self.expr()?;
                proof {
                    assert(before.text()[before.at()] == '(');
                    assert(mid.at() > before.at());
                    assert(paren_between(self.text(), before.at(), self.expr_spans()[expr.index_of() as int].spec_start() as int));
                }
                self.eat(TokenType::RParen)?;
                Ok(expr)
            },
            TokenType::Id => match self.lexer.current_char() {
                Some('(') => self.call_expr(),
                Some('[') => self.index_of_statement(),
                _ => self.id(),
            },
            _ => Err(
                Error::ParserError {
                    msg: unexpected_factor_message(self.current_token),
                    pos: self.current_token.pos(),
                    error_code: ErrorCode::UnexpectedToken,
                },
            ),
        }
    }

    /// call_expr:
    /// Id LParan expr (Comma expr)* RParan
    fn call_expr(&mut self) -> (r: Result<ExprRef, Error>)
        requires
            old(self).wf(),
        ensures
            final(self).expr_result(old(self), r, 3),
            r matches Ok(x) ==> final(self).exprs()[x.index_of() as int] is Call,
        decreases old(self).remaining(), 1nat,
    {
        let proc_name = self.id_str()?;
        self.eat(TokenType::LParen)?;
        let mut params: Vec<ExprRef> = Vec::new();
        if self.current_token.token_type() != &TokenType::RParen {
            let e = self.expr()?;
            params.push(e);
        }
        let ghost start = *old(self);
        loop
            invariant
                self.continues(&start),
                self.budget() >= start.budget() + 4,
                self.spec_consumed() > start.spec_consumed(),
                start.remaining() == old(self).remaining(),
                token_in(proc_name, self.text().len() as int),
                proc_name.spec_span().spec_start() == start.at(),
                forall|k: int| 0 <= k < params@.len() ==> (#[trigger] params@[k]).index_of() < self.exprs().len(),
            decreases self.remaining(),
        {
            if !matches!(self.current_token.token_type(), TokenType::Comma) {
                break;
            }
            self.eat(TokenType::Comma)?;
            let e = self.expr()?;
            params.push(e);
        }
        let close = self.eat(TokenType::RParen)?.span();
        let span = proc_name.span().total(&close);
        Ok(self.alloc_expr(Expr::Call { name: proc_name, args: params }, span))
    }

    /// index_of_statement:
    /// id LBracket expr (Comma expr)* RBracket
    fn index_of_statement(&mut self) -> (r: Result<ExprRef, Error>)
        requires
            old(self).wf(),
        ensures
            final(self).expr_result(old(self), r, 1),
            r matches Ok(x) ==> final(self).exprs()[x.index_of() as int] is Index,
        decreases old(self).remaining(), 1nat,
    {
        let var_node = self.id()?;
        let span = self.expr_pool.span(var_node);
        self.eat(TokenType::LBracket)?;
        let expr = self.expr()?;
        let mut other_indicies: Vec<ExprRef> = Vec::new();
        let ghost start = *old(self);
        loop
            invariant
                self.continues(&start),
                self.budget() >= start.budget() + 4,
                self.spec_consumed() > start.spec_consumed(),
                start.remaining() == old(self).remaining(),
                var_node.index_of() < self.exprs().len(),
                expr.index_of() < self.exprs().len(),
                span.spec_start() == start.at(),
                span.spec_end() <= self.text().len(),
                forall|k: int| 0 <= k < other_indicies@.len() ==> (#[trigger] other_indicies@[k]).index_of() < self.exprs().len(),
            decreases self.remaining(),
        {
            if !matches!(self.current_token.token_type(), TokenType::Comma) {
                break;
            }
            self.eat(TokenType::Comma)?;
            let e = self.expr()?;
            other_indicies.push(e);
        }
        let close = self.eat(TokenType::RBracket)?.span();
        let span = span.total(&close);
        Ok(self.alloc_expr(Expr::Index { base: var_node, index_value: expr, other_indicies }, span))
    }

    fn literal(&mut self) -> (r: Result<ExprRef, Error>)
        requires
            old(self).wf(),
        ensures
            final(self).expr_result(old(self), r, 1),
            r matches Ok(x) ==> match old(self).cur().spec_token_type() {
                TokenType::IntegerConst(v) => final(self).exprs()[x.index_of() as int] == Expr::LiteralInteger(v),
                TokenType::RealConst => final(self).exprs()[x.index_of() as int] == Expr::LiteralReal(old(self).cur()),
                TokenType::StringConst => final(self).exprs()[x.index_of() as int] == Expr::LiteralString(old(self).cur()),
                TokenType::CharConst(c) => final(self).exprs()[x.index_of() as int] == Expr::LiteralChar(c),
                TokenType::BooleanConst(b) => final(self).exprs()[x.index_of() as int] == Expr::LiteralBool(b),
                _ => false,
            },
            r matches Err(e) ==> match old(self).cur().spec_token_type() {
                TokenType::IntegerConst(_) | TokenType::RealConst | TokenType::StringConst
                | TokenType::CharConst(_) | TokenType::BooleanConst(_) => e is LexerError,
                _ => e is LexerError || unexpected_at(e, old(self).cur(), ErrorCode::UnkownLiteral),
            },
    {
        let token = self.advance()?;
        match *token.token_type() {
            TokenType::IntegerConst(v) => Ok(self.alloc_expr(Expr::LiteralInteger(v), token.span())),
            TokenType::RealConst => Ok(self.alloc_expr(Expr::LiteralReal(token), token.span())),
            TokenType::StringConst => Ok(self.alloc_expr(Expr::LiteralString(token), token.span())),
            TokenType::CharConst(v) => Ok(self.alloc_expr(Expr::LiteralChar(v), token.span())),
            TokenType::BooleanConst(v) => Ok(self.alloc_expr(Expr::LiteralBool(v), token.span())),
            _ => Err(
                Error::ParserError {
                    msg: unknown_literal_message(token),
                    pos: token.pos(),
                    error_code: ErrorCode::UnkownLiteral,
                },
            ),
        }
    }
}

impl<'a> Parser<'a> {
    /// Parses a whole program: the tree holds the source and the node pools,
    /// and `program` is the root.
    pub fn parse(self) -> (r: Result<Tree<'a>, Error>)
        requires
            self.wf(),
        ensures
            r matches Ok(t) ==> {
                &&& t.wf()
                &&& t.source_code == self.spec_source()
                &&& t.stmt_pool.spans()[t.program.index_of() as int].spec_start() == self.at()
                &&& t.stmt_pool.nodes()[t.program.index_of() as int] is Program
                &&& shapes_ok(&t)
                &&& sums_group_left(t.expr_pool.nodes(), t.expr_pool.spans(), t.source_code@)
                &&& binops_in_order(t.expr_pool.nodes(), t.expr_pool.spans())
            },
            r matches Err(e) ==> syntax_error(e),
            !(self.cur().spec_token_type() is Program) ==> (r matches Err(e) && expected_token_error(
                e,
                TokenType::Program,
                self.cur(),
            )),
    {
        let mut p = self;
        let program = p.program()?;
        proof {
            p.lexer.lemma_wf_text();
        }
        Ok(
            Tree {
                source_code: p.lexer.source_code(),
                program,
                expr_pool: p.expr_pool,
                stmt_pool: p.stmt_pool,
                type_pool: p.type_pool,
            },
        )
    }
}

/// A reference to a node of any of the three pools.
#[derive(Debug, Clone, Copy)]
pub enum NodeRef {
    ExprRef(ExprRef),
    StmtRef(StmtRef),
    TypeRef(TypeRef),
}

/// The syntax tree of a program: its source, its root and the node pools.
#[derive(Debug)]
pub struct Tree<'a> {
    pub source_code: &'a str,
    pub program: StmtRef,
    pub expr_pool: NodePoolWithSpan<ExprRef, Expr>,
    pub stmt_pool: NodePoolWithSpan<StmtRef, Stmt>,
    pub type_pool: NodePoolWithSpan<TypeRef, Type>,
}

impl<'a> Tree<'a> {
    /// The pools are consistent, every reference points to an existing node,
    /// every span lies in the source, and the root is a program node.
    pub open spec fn wf(&self) -> bool {
        &&& source_fits(self.source_code@.len() as int)
        &&& self.expr_pool.wf()
        &&& self.stmt_pool.wf()
        &&& self.type_pool.wf()
        &&& pools_ok(
            self.expr_pool.nodes(),
            self.expr_pool.spans(),
            self.stmt_pool.nodes(),
            self.stmt_pool.spans(),
            self.type_pool.nodes(),
            self.type_pool.spans(),
            self.source_code@.len() as int,
        )
        &&& self.expr_pool.nodes().len() + self.stmt_pool.nodes().len() + self.type_pool.nodes().len() <= 0xffff_ffe4
        &&& self.program.index_of() < self.stmt_pool.nodes().len()
        &&& self.stmt_pool.nodes()[self.program.index_of() as int] is Program
    }

    /// `node` names a node of the tree.
    pub open spec fn has_node(&self, node: NodeRef) -> bool {
        match node {
            NodeRef::ExprRef(r) => r.index_of() < self.expr_pool.nodes().len(),
            NodeRef::StmtRef(r) => r.index_of() < self.stmt_pool.nodes().len(),
            NodeRef::TypeRef(r) => r.index_of() < self.type_pool.nodes().len(),
        }
    }

    /// The span of source that `node` was built from.
    pub open spec fn node_span(&self, node: NodeRef) -> Span {
        match node {
            NodeRef::ExprRef(r) => self.expr_pool.spans()[r.index_of() as int],
            NodeRef::StmtRef(r) => self.stmt_pool.spans()[r.index_of() as int],
            NodeRef::TypeRef(r) => self.type_pool.spans()[r.index_of() as int],
        }
    }

    /// Row and column where `node_ref` starts in the source.
    pub fn node_pos(&self, node_ref: NodeRef) -> (r: Pos)
        requires
            self.wf(),
            self.has_node(node_ref),
        ensures
            r.row == count_newlines(self.source_code@.take(self.node_span(node_ref).spec_start() as int)) + 1,
            r.col == chars_after_last_newline(self.source_code@.take(self.node_span(node_ref).spec_start() as int))
                + 1,
    {
        let span = match node_ref {
            NodeRef::ExprRef(r) => self.expr_pool.span(r),
            NodeRef::StmtRef(r) => self.stmt_pool.span(r),
            NodeRef::TypeRef(r) => self.type_pool.span(r),
        };
        span.pos(self.source_code)
    }
}

} // verus!
