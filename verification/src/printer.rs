use vstd::prelude::*;
use crate::error::decimal;
use crate::messages::{token_type_debug, token_type_debug_text};
use crate::parser::{cond_ok, decl_ok, expr_node_ok, param_ok, stmt_node_ok, type_node_ok, Condition, Decl, Expr, Param, Stmt, Tree, Type};
use crate::refs::{ExprRef, StmtRef, TypeRef};
use crate::tokens::Token;
use crate::utils::PoolRef;
use crate::codegen::push_int;

verus! {

// ---------------------------------------------------------------------------
// The text of a syntax tree: one node per line, children indented two
// spaces per level.
// ---------------------------------------------------------------------------

/// `level + d`, staying at the largest level once there.
pub open spec fn deeper(level: u64, d: u64) -> u64 {
    if level <= u64::MAX - d {
        (level + d) as u64
    } else {
        u64::MAX
    }
}

/// Two spaces per level.
pub open spec fn indent_width(level: u64) -> nat {
    if level <= u64::MAX / 2 {
        (2 * level) as nat
    } else {
        u64::MAX as nat
    }
}

pub open spec fn indent_text(level: u64) -> Seq<char> {
    Seq::new(indent_width(level), |i: int| ' ')
}

pub open spec fn nl() -> Seq<char> {
    "\n"@
}

/// The source text of a token.
pub open spec fn lex(tree: &Tree, t: Token) -> Seq<char> {
    tree.source_code@.subrange(t.spec_span().spec_start() as int, t.spec_span().spec_end())
}

/// An integer as `Display` writes it.
pub open spec fn int_text(i: i32) -> Seq<char> {
    if i < 0 {
        seq!['-'] + decimal((-i) as nat)
    } else {
        decimal(i as nat)
    }
}

/// A boolean as `Display` writes it.
pub open spec fn bool_text(b: bool) -> Seq<char> {
    if b {
        "true"@
    } else {
        "false"@
    }
}

/// `a`, followed by a line break and `b` where `b` is not empty.
pub open spec fn then_line(a: Seq<char>, b: Seq<char>) -> Seq<char> {
    if b.len() > 0 {
        a + nl() + b
    } else {
        a
    }
}

/// The text of expression `id` at `level`.
pub open spec fn expr_text(tree: &Tree, id: int, level: u64) -> Seq<char>
    decreases id, 1nat, 0nat,
{
    let ind = indent_text(level);
    let l1 = deeper(level, 1);
    if 0 <= id < tree.expr_pool.nodes().len() {
        match tree.expr_pool.nodes()[id] {
            Expr::BinOp { op, left, right } => if left.index_of() < id && right.index_of() < id {
                ind + "BinOp\n"@ + expr_text(tree, left.index_of() as int, l1) + nl() + ind + "  "@
                    + token_type_debug_text(op) + nl() + expr_text(tree, right.index_of() as int, l1)
            } else {
                Seq::empty()
            },
            Expr::LiteralInteger(v) => ind + "LitInt("@ + int_text(v) + ")"@,
            Expr::LiteralBool(v) => ind + "LitBool("@ + bool_text(v) + ")"@,
            Expr::LiteralChar(v) => ind + "LitChar('"@ + seq![v] + "')"@,
            Expr::LiteralReal(v) => ind + "LitReal("@ + lex(tree, v) + ")"@,
            Expr::LiteralString(v) => ind + "LitString(\""@ + lex(tree, v) + "\")"@,
            Expr::Var { name } => ind + "Var("@ + lex(tree, name) + ")"@,
            Expr::Call { name, args } => then_line(
                ind + "Call("@ + lex(tree, name) + ")"@,
                exprs_text(tree, args@, l1, id),
            ),
            Expr::Index { base, index_value, other_indicies } => if base.index_of() < id {
                ind + "Index("@ + expr_text(tree, base.index_of() as int, 0) + ")\n"@ + exprs_text(
                    tree,
                    seq![index_value] + other_indicies@,
                    l1,
                    id,
                )
            } else {
                Seq::empty()
            },
            Expr::UnaryOp { op, expr } => if expr.index_of() < id {
                ind + "UnaryOp\n"@ + ind + "  "@ + token_type_debug_text(op) + nl() + expr_text(
                    tree,
                    expr.index_of() as int,
                    l1,
                )
            } else {
                Seq::empty()
            },
        }
    } else {
        Seq::empty()
    }
}

/// The texts of the expressions `list`, one per line.
pub open spec fn exprs_text(tree: &Tree, list: Seq<ExprRef>, level: u64, parent: int) -> Seq<char>
    decreases parent, 0nat, list.len(),
{
    if list.len() == 0 {
        Seq::empty()
    } else if list.last().index_of() < parent {
        let last = expr_text(tree, list.last().index_of() as int, level);
        if list.len() == 1 {
            last
        } else {
            exprs_text(tree, list.drop_last(), level, parent) + nl() + last
        }
    } else {
        Seq::empty()
    }
}

/// The names of an enumeration, one per line below `ind`.
pub open spec fn items_text(tree: &Tree, items: Seq<Token>, ind: Seq<char>) -> Seq<char>
    decreases items.len(),
{
    if items.len() == 0 {
        Seq::empty()
    } else {
        let last = ind + "  "@ + lex(tree, items.last());
        if items.len() == 1 {
            last
        } else {
            items_text(tree, items.drop_last(), ind) + nl() + last
        }
    }
}

/// The text of type node `id` at `level`.
pub open spec fn type_text(tree: &Tree, id: int, level: u64) -> Seq<char>
    decreases id,
{
    let ind = indent_text(level);
    let l1 = deeper(level, 1);
    if 0 <= id < tree.type_pool.nodes().len() {
        match tree.type_pool.nodes()[id] {
            Type::Integer => ind + "Type(Integer)"@,
            Type::Real => ind + "Type(Real)"@,
            Type::Boolean => ind + "Type(Boolean)"@,
            Type::Char => ind + "Type(Char)"@,
            Type::String => ind + "Type(String)"@,
            Type::Range { start_val, end_val } => ind + "Type(Range)\n"@ + expr_text(
                tree,
                start_val.index_of() as int,
                l1,
            ) + nl() + expr_text(tree, end_val.index_of() as int, l1),
            Type::Alias(v) => ind + "TypeAlias("@ + lex(tree, v) + ")"@,
            Type::Enum { items } => ind + "Type(Enum)\n"@ + items_text(tree, items@, ind),
            Type::Array { index_type, element_type } => if index_type.index_of() < id && element_type.index_of()
                < id {
                ind + "Type(Array)\n"@ + type_text(tree, index_type.index_of() as int, l1) + nl() + type_text(
                    tree,
                    element_type.index_of() as int,
                    l1,
                )
            } else {
                Seq::empty()
            },
            Type::DynamicArray { element_type } => if element_type.index_of() < id {
                ind + "Type(DynamicArray)\n"@ + type_text(tree, element_type.index_of() as int, l1)
            } else {
                Seq::empty()
            },
        }
    } else {
        Seq::empty()
    }
}

/// The text of a formal parameter at `level`.
pub open spec fn param_text(tree: &Tree, p: Param, level: u64) -> Seq<char> {
    expr_text(tree, p.var.index_of() as int, deeper(level, 1)) + (if p.out {
        " Out"@
    } else {
        Seq::empty()
    }) + nl() + type_text(tree, p.type_node.index_of() as int, deeper(level, 2))
}

/// The texts of formal parameters, one after another on their own lines.
pub open spec fn params_text(tree: &Tree, params: Seq<Param>, level: u64) -> Seq<char>
    decreases params.len(),
{
    if params.len() == 0 {
        Seq::empty()
    } else {
        let last = param_text(tree, params.last(), level);
        if params.len() == 1 {
            last
        } else {
            params_text(tree, params.drop_last(), level) + nl() + last
        }
    }
}

/// The text of a declaration of the block `parent` at `level`.
pub open spec fn decl_text(tree: &Tree, d: Decl, level: u64, parent: int) -> Seq<char>
    decreases parent, 0nat, 0nat,
{
    let ind = indent_text(level);
    let l1 = deeper(level, 1);
    let l2 = deeper(level, 2);
    match d {
        Decl::ConstDecl { var, literal } => ind + "Const\n"@ + expr_text(tree, var.index_of() as int, l1) + nl()
            + expr_text(tree, literal.index_of() as int, l2),
        Decl::TypeDecl { var, type_node } => ind + "Type\n"@ + type_text(tree, var.index_of() as int, l1) + nl()
            + type_text(tree, type_node.index_of() as int, l2),
        Decl::VarDecl { var, type_node, default_value } => {
            let base = ind + "Var\n"@ + expr_text(tree, var.index_of() as int, l1) + nl() + type_text(
                tree,
                type_node.index_of() as int,
                l2,
            );
            match default_value {
                Some(v) => base + nl() + ind + "  Default\n"@ + expr_text(tree, v.index_of() as int, l2),
                None => base,
            }
        },
        Decl::Callable { name, block, params, return_type } => {
            let head = ind + "Callable("@ + lex(tree, name) + ")"@;
            let with_type = match return_type {
                Some(r) => head + nl() + type_text(tree, r.index_of() as int, l1),
                None => head,
            };
            if 0 <= block.index_of() < parent {
                then_line(with_type, params_text(tree, params@, level)) + stmt_text(
                    tree,
                    block.index_of() as int,
                    level,
                )
            } else {
                Seq::empty()
            }
        },
    }
}

/// The texts of the declarations of the block `parent`, one per line.
pub open spec fn decls_text(tree: &Tree, list: Seq<Decl>, level: u64, parent: int) -> Seq<char>
    decreases parent, 1nat, list.len(),
{
    if list.len() == 0 {
        Seq::empty()
    } else {
        let last = decl_text(tree, list.last(), level, parent);
        if list.len() == 1 {
            last
        } else {
            decls_text(tree, list.drop_last(), level, parent) + nl() + last
        }
    }
}

/// The texts of the statements `list` of statement `parent`, one per line.
pub open spec fn stmts_text(tree: &Tree, list: Seq<StmtRef>, level: u64, parent: int) -> Seq<char>
    decreases parent, 1nat, list.len(),
{
    if list.len() == 0 {
        Seq::empty()
    } else if list.last().index_of() < parent {
        let last = stmt_text(tree, list.last().index_of() as int, level);
        if list.len() == 1 {
            last
        } else {
            stmts_text(tree, list.drop_last(), level, parent) + nl() + last
        }
    } else {
        Seq::empty()
    }
}

/// The text of one `else if` branch.
pub open spec fn elif_text(tree: &Tree, c: Condition, level: u64, parent: int) -> Seq<char>
    decreases parent, 0nat, 0nat,
{
    let ind = indent_text(level);
    let l1 = deeper(level, 1);
    if c.expr.index_of() < parent {
        ind + "ElseIf\n"@ + expr_text(tree, c.cond.index_of() as int, l1) + nl() + ind + "Then\n"@ + stmt_text(
            tree,
            c.expr.index_of() as int,
            l1,
        )
    } else {
        Seq::empty()
    }
}

/// The texts of the `else if` branches of statement `parent`, one per line.
pub open spec fn elifs_text(tree: &Tree, list: Seq<Condition>, level: u64, parent: int) -> Seq<char>
    decreases parent, 1nat, list.len(),
{
    if list.len() == 0 {
        Seq::empty()
    } else {
        let last = elif_text(tree, list.last(), level, parent);
        if list.len() == 1 {
            last
        } else {
            elifs_text(tree, list.drop_last(), level, parent) + nl() + last
        }
    }
}

/// The text of statement `id` at `level`.
pub open spec fn stmt_text(tree: &Tree, id: int, level: u64) -> Seq<char>
    decreases id, 2nat, 0nat,
{
    let ind = indent_text(level);
    let l1 = deeper(level, 1);
    if 0 <= id < tree.stmt_pool.nodes().len() {
        match tree.stmt_pool.nodes()[id] {
            Stmt::Program { name, block } => if block.index_of() < id {
                "Program "@ + lex(tree, name) + nl() + stmt_text(tree, block.index_of() as int, 0)
            } else {
                Seq::empty()
            },
            Stmt::Block { declarations, statements } => if statements.index_of() < id {
                then_line(
                    decls_text(tree, declarations@, level, id),
                    stmt_text(tree, statements.index_of() as int, level),
                )
            } else {
                Seq::empty()
            },
            Stmt::Assign { left, right } => ind + "Assign\n"@ + expr_text(tree, left.index_of() as int, l1) + nl()
                + expr_text(tree, right.index_of() as int, l1),
            Stmt::Compound(stmts) => ind + "Begin\n"@ + stmts_text(tree, stmts@, l1, id),
            Stmt::Break => ind + "Break"@,
            Stmt::Continue => ind + "Continue"@,
            Stmt::Exit(v) => match v {
                Some(e) => ind + "Exit\n"@ + expr_text(tree, e.index_of() as int, l1),
                None => ind + "Exit"@,
            },
            Stmt::For { var, init, end, body } => if body.index_of() < id {
                ind + "For("@ + lex(tree, var) + ")\n"@ + expr_text(tree, init.index_of() as int, l1) + nl() + ind
                    + "  To\n"@ + expr_text(tree, end.index_of() as int, l1) + nl() + ind + "Do\n"@ + stmt_text(
                    tree,
                    body.index_of() as int,
                    l1,
                )
            } else {
                Seq::empty()
            },
            Stmt::If { cond, elifs, else_statement } => if cond.expr.index_of() < id && (match else_statement {
                Some(e) => e.index_of() < id,
                None => true,
            }) {
                let head = ind + "If\n"@ + expr_text(tree, cond.cond.index_of() as int, l1) + nl() + ind + "Then\n"@
                    + stmt_text(tree, cond.expr.index_of() as int, l1);
                let with_elifs = then_line(head, elifs_text(tree, elifs@, level, id));
                match else_statement {
                    Some(e) => with_elifs + nl() + ind + "Else\n"@ + stmt_text(tree, e.index_of() as int, l1),
                    None => with_elifs,
                }
            } else {
                Seq::empty()
            },
            Stmt::While { cond, body } => if body.index_of() < id {
                ind + "While\n"@ + expr_text(tree, cond.index_of() as int, l1) + nl() + ind + "Do\n"@ + stmt_text(
                    tree,
                    body.index_of() as int,
                    l1,
                )
            } else {
                Seq::empty()
            },
            Stmt::NoOp => ind + "NoOp"@,
            Stmt::Call { call } => expr_text(tree, call.index_of() as int, level),
        }
    } else {
        Seq::empty()
    }
}

/// The text of the whole tree.
pub open spec fn tree_text(tree: &Tree) -> Seq<char> {
    stmt_text(tree, tree.program.index_of() as int, 0)
}

fn deeper_level(level: u64, d: u64) -> (r: u64)
    ensures
        r == deeper(level, d),
{
    if level <= u64::MAX - d {
        level + d
    } else {
        u64::MAX
    }
}

fn push_indent(s: &mut String, level: u64)
    ensures
        final(s)@ == old(s)@ + indent_text(level),
{
    let n: u64 = if level <= u64::MAX / 2 {
        2 * level
    } else {
        u64::MAX
    };
    let ghost s0 = s@;
    let mut i: u64 = 0;
    while i < n
        invariant
            i <= n,
            n == indent_width(level),
            s@ == s0 + Seq::new(i as nat, |k: int| ' '),
        decreases n - i,
    {
        proof {
            reveal_strlit(" ");
        }
        s.append(" ");
        proof {
            assert(Seq::new((i + 1) as nat, |k: int| ' ') =~= Seq::new(i as nat, |k: int| ' ') + " "@);
        }
        i = i + 1;
    }
    proof {
        assert(Seq::new(n as nat, |k: int| ' ') =~= indent_text(level));
    }
}

/// Appends `b` on a line of its own, where it is not empty.
fn push_line_if_any(s: &mut String, b: &String)
    ensures
        final(s)@ == then_line(old(s)@, b@),
{
    if b.as_str().unicode_len() > 0 {
        s.append("\n");
        s.append(b.as_str());
    }
}

impl<'a> Tree<'a> {
    /// The tree as text: one node per line, children indented below their
    /// parent.
    pub fn to_string(&self) -> (r: String)
        requires
            self.wf(),
        ensures
            r@ == tree_text(self),
    {
        self.visit_stmt(self.program, 0)
    }

    fn token_str(&self, t: &Token) -> (r: &'a str)
        requires
            self.wf(),
            t.spec_span().spec_end() <= self.source_code@.len(),
        ensures
            r@ == lex(self, *t),
    {
        t.lexem(self.source_code)
    }

    fn visit_exprs(&self, list: &Vec<ExprRef>, level: u64, Ghost(parent): Ghost<int>) -> (r: String)
        requires
            self.wf(),
            0 <= parent < self.expr_pool.nodes().len(),
            forall|k: int| 0 <= k < list@.len() ==> (#[trigger] list@[k]).index_of() < parent,
        ensures
            r@ == exprs_text(self, list@, level, parent),
        decreases parent, 0nat, list@.len(),
    {
        let mut s = String::new();
        let mut k: usize = 0;
        while k < list.len()
            invariant
                self.wf(),
                0 <= parent < self.expr_pool.nodes().len(),
                forall|j: int| 0 <= j < list@.len() ==> (#[trigger] list@[j]).index_of() < parent,
                k <= list@.len(),
                s@ == exprs_text(self, list@.take(k as int), level, parent),
            decreases list@.len() - k,
        {
            let t = self.visit_expr(list[k], level);
            proof {
                let next = list@.take(k + 1);
                assert(next.drop_last() =~= list@.take(k as int));
                assert(next.last() == list@[k as int]);
            }
            if k > 0 {
                s.append("\n");
            }
            s.append(t.as_str());
            k = k + 1;
        }
        proof {
            assert(list@.take(list@.len() as int) =~= list@);
        }
        s
    }

    fn visit_expr(&self, id: ExprRef, level: u64) -> (r: String)
        requires
            self.wf(),
            id.index_of() < self.expr_pool.nodes().len(),
        ensures
            r@ == expr_text(self, id.index_of() as int, level),
        decreases id.index_of(), 1nat, 0nat,
    {
        let ghost n = id.index_of() as int;
        proof {
            assert(expr_node_ok(self.expr_pool.nodes()[n], n, self.source_code@.len() as int));
        }
        let l1 = deeper_level(level, 1);
        let mut s = String::new();
        push_indent(&mut s, level);
        match self.expr_pool.get(id) {
            Expr::BinOp { op, left, right } => {
                let ls = self.visit_expr(*left, l1);
                let rs = self.visit_expr(*right, l1);
                let ops = token_type_debug(op);
                s.append("BinOp\n");
                s.append(ls.as_str());
                s.append("\n");
                push_indent(&mut s, level);
                s.append("  ");
                s.append(ops.as_str());
                s.append("\n");
                s.append(rs.as_str());
            },
            Expr::LiteralInteger(v) => {
                s.append("LitInt(");
                push_int(&mut s, *v as i64);
                s.append(")");
            },
            Expr::LiteralBool(v) => {
                s.append("LitBool(");
                if *v {
                    s.append("true");
                } else {
                    s.append("false");
                }
                s.append(")");
            },
            Expr::LiteralChar(v) => {
                s.append("LitChar('");
                let mut c = String::new();
                c.push(*v);
                s.append(c.as_str());
                s.append("')");
            },
            Expr::LiteralReal(v) => {
                s.append("LitReal(");
                s.append(self.token_str(v));
                s.append(")");
            },
            Expr::LiteralString(v) => {
                s.append("LitString(\"");
                s.append(self.token_str(v));
                s.append("\")");
            },
            Expr::Var { name } => {
                s.append("Var(");
                s.append(self.token_str(name));
                s.append(")");
            },
            Expr::Call { name, args } => {
                s.append("Call(");
                s.append(self.token_str(name));
                s.append(")");
                let ps = self.visit_exprs(args, l1, Ghost(n));
                push_line_if_any(&mut s, &ps);
            },
            Expr::Index { base, index_value, other_indicies } => {
                let bs = self.visit_expr(*base, 0);
                let mut all: Vec<ExprRef> = Vec::new();
                all.push(*index_value);
                let mut k: usize = 0;
                while k < other_indicies.len()
                    invariant
                        k <= other_indicies@.len(),
                        all@ == seq![*index_value] + other_indicies@.take(k as int),
                    decreases other_indicies@.len() - k,
                {
                    all.push(other_indicies[k]);
                    proof {
                        assert(seq![*index_value] + other_indicies@.take(k + 1) =~= (seq![*index_value]
                            + other_indicies@.take(k as int)).push(other_indicies@[k as int]));
                    }
                    k = k + 1;
                }
                proof {
                    assert(other_indicies@.take(other_indicies@.len() as int) =~= other_indicies@);
                    assert forall|j: int| 0 <= j < all@.len() implies (#[trigger] all@[j]).index_of() < n by {
                        if j > 0 {
                            assert(all@[j] == other_indicies@[j - 1]);
                        }
                    }
                }
                let is = self.visit_exprs(&all, l1, Ghost(n));
                s.append("Index(");
                s.append(bs.as_str());
                s.append(")\n");
                s.append(is.as_str());
            },
            Expr::UnaryOp { op, expr } => {
                let es = self.visit_expr(*expr, l1);
                let ops = token_type_debug(op);
                s.append("UnaryOp\n");
                push_indent(&mut s, level);
                s.append("  ");
                s.append(ops.as_str());
                s.append("\n");
                s.append(es.as_str());
            },
        }
        s
    }
}

impl<'a> Tree<'a> {
    fn visit_type(&self, id: TypeRef, level: u64) -> (r: String)
        requires
            self.wf(),
            id.index_of() < self.type_pool.nodes().len(),
        ensures
            r@ == type_text(self, id.index_of() as int, level),
        decreases id.index_of(),
    {
        let ghost n = id.index_of() as int;
        proof {
            assert(type_node_ok(
                self.type_pool.nodes()[n],
                n,
                self.expr_pool.nodes().len() as int,
                self.source_code@.len() as int,
            ));
        }
        let l1 = deeper_level(level, 1);
        let mut s = String::new();
        push_indent(&mut s, level);
        let ghost ind = s@;
        match self.type_pool.get(id) {
            Type::Integer => s.append("Type(Integer)"),
            Type::Real => s.append("Type(Real)"),
            Type::Boolean => s.append("Type(Boolean)"),
            Type::Char => s.append("Type(Char)"),
            Type::String => s.append("Type(String)"),
            Type::Range { start_val, end_val } => {
                let a = self.visit_expr(*start_val, l1);
                let b = self.visit_expr(*end_val, l1);
                s.append("Type(Range)\n");
                s.append(a.as_str());
                s.append("\n");
                s.append(b.as_str());
            },
            Type::Alias(v) => {
                s.append("TypeAlias(");
                s.append(self.token_str(v));
                s.append(")");
            },
            Type::Enum { items } => {
                s.append("Type(Enum)\n");
                let mut k: usize = 0;
                let ghost head = s@;
                while k < items.len()
                    invariant
                        self.wf(),
                        k <= items@.len(),
                        forall|j: int| 0 <= j < items@.len() ==> (#[trigger] items@[j]).spec_span().spec_end() <= self.source_code@.len(),
                        ind == indent_text(level),
                        s@ == head + items_text(self, items@.take(k as int), ind),
                    decreases items@.len() - k,
                {
                    proof {
                        let next = items@.take(k + 1);
                        assert(next.drop_last() =~= items@.take(k as int));
                        assert(next.last() == items@[k as int]);
                    }
                    if k > 0 {
                        s.append("\n");
                    }
                    push_indent(&mut s, level);
                    s.append("  ");
                    s.append(self.token_str(&items[k]));
                    k = k + 1;
                }
                proof {
                    assert(items@.take(items@.len() as int) =~= items@);
                }
            },
            Type::Array { index_type, element_type } => {
                let a = self.visit_type(*index_type, l1);
                let b = self.visit_type(*element_type, l1);
                s.append("Type(Array)\n");
                s.append(a.as_str());
                s.append("\n");
                s.append(b.as_str());
            },
            Type::DynamicArray { element_type } => {
                let a = self.visit_type(*element_type, l1);
                s.append("Type(DynamicArray)\n");
                s.append(a.as_str());
            },
        }
        s
    }

    fn visit_param(&self, p: &Param, level: u64) -> (r: String)
        requires
            self.wf(),
            param_ok(*p, self.expr_pool.nodes().len() as int, self.type_pool.nodes().len() as int),
        ensures
            r@ == param_text(self, *p, level),
    {
        let mut s = self.visit_expr(p.var, deeper_level(level, 1));
        if p.out {
            s.append(" Out");
        }
        s.append("\n");
        let t = self.visit_type(p.type_node, deeper_level(level, 2));
        s.append(t.as_str());
        s
    }

    fn visit_params(&self, params: &Vec<Param>, level: u64) -> (r: String)
        requires
            self.wf(),
            forall|k: int| 0 <= k < params@.len() ==> param_ok(#[trigger] params@[k], self.expr_pool.nodes().len() as int, self.type_pool.nodes().len() as int),
        ensures
            r@ == params_text(self, params@, level),
    {
        let mut s = String::new();
        let mut k: usize = 0;
        while k < params.len()
            invariant
                self.wf(),
                forall|j: int| 0 <= j < params@.len() ==> param_ok(#[trigger] params@[j], self.expr_pool.nodes().len() as int, self.type_pool.nodes().len() as int),
                k <= params@.len(),
                s@ == params_text(self, params@.take(k as int), level),
            decreases params@.len() - k,
        {
            let t = self.visit_param(&params[k], level);
            proof {
                let next = params@.take(k + 1);
                assert(next.drop_last() =~= params@.take(k as int));
                assert(next.last() == params@[k as int]);
            }
            if k > 0 {
                s.append("\n");
            }
            s.append(t.as_str());
            k = k + 1;
        }
        proof {
            assert(params@.take(params@.len() as int) =~= params@);
        }
        s
    }

    fn visit_declaraction(&self, decl: &Decl, level: u64, Ghost(parent): Ghost<int>) -> (r: String)
        requires
            self.wf(),
            0 <= parent < self.stmt_pool.nodes().len(),
            decl_ok(
                *decl,
                parent,
                self.expr_pool.nodes().len() as int,
                self.type_pool.nodes().len() as int,
                self.source_code@.len() as int,
            ),
        ensures
            r@ == decl_text(self, *decl, level, parent),
        decreases parent, 0nat, 0nat,
    {
        let l1 = deeper_level(level, 1);
        let l2 = deeper_level(level, 2);
        let mut s = String::new();
        push_indent(&mut s, level);
        match decl {
            Decl::ConstDecl { var, literal } => {
                let a = self.visit_expr(*var, l1);
                let b = self.visit_expr(*literal, l2);
                s.append("Const\n");
                s.append(a.as_str());
                s.append("\n");
                s.append(b.as_str());
            },
            Decl::TypeDecl { var, type_node } => {
                let a = self.visit_type(*var, l1);
                let b = self.visit_type(*type_node, l2);
                s.append("Type\n");
                s.append(a.as_str());
                s.append("\n");
                s.append(b.as_str());
            },
            Decl::VarDecl { var, type_node, default_value } => {
                let a = self.visit_expr(*var, l1);
                let b = self.visit_type(*type_node, l2);
                s.append("Var\n");
                s.append(a.as_str());
                s.append("\n");
                s.append(b.as_str());
                match default_value {
                    Some(v) => {
                        let c = self.visit_expr(*v, l2);
                        s.append("\n");
                        push_indent(&mut s, level);
                        s.append("  Default\n");
                        s.append(c.as_str());
                    },
                    None => {},
                }
            },
            Decl::Callable { name, block, params, return_type } => {
                s.append("Callable(");
                s.append(self.token_str(name));
                s.append(")");
                match return_type {
                    Some(r) => {
                        let t = self.visit_type(*r, l1);
                        s.append("\n");
                        s.append(t.as_str());
                    },
                    None => {},
                }
                let ps = self.visit_params(params, level);
                push_line_if_any(&mut s, &ps);
                let b = self.visit_stmt(*block, level);
                s.append(b.as_str());
            },
        }
        s
    }

    fn visit_stmt(&self, id: StmtRef, level: u64) -> (r: String)
        requires
            self.wf(),
            id.index_of() < self.stmt_pool.nodes().len(),
        ensures
            r@ == stmt_text(self, id.index_of() as int, level),
        decreases id.index_of(), 2nat, 0nat,
    {
        let ghost n = id.index_of() as int;
        let ghost elen = self.expr_pool.nodes().len() as int;
        let ghost tlen = self.type_pool.nodes().len() as int;
        let ghost src_len = self.source_code@.len() as int;
        proof {
            assert(stmt_node_ok(self.stmt_pool.nodes()[n], n, elen, tlen, src_len));
        }
        let l1 = deeper_level(level, 1);
        let mut s = String::new();
        match self.stmt_pool.get(id) {
            Stmt::Program { name, block } => {
                let b = self.visit_stmt(*block, 0);
                s.append("Program ");
                s.append(self.token_str(name));
                s.append("\n");
                s.append(b.as_str());
            },
            Stmt::Block { declarations, statements } => {
                let mut k: usize = 0;
                while k < declarations.len()
                    invariant
                        self.wf(),
                        0 <= n < self.stmt_pool.nodes().len(),
                        n == id.index_of(),
                        elen == self.expr_pool.nodes().len(),
                        tlen == self.type_pool.nodes().len(),
                        src_len == self.source_code@.len(),
                        forall|j: int| 0 <= j < declarations@.len() ==> decl_ok(#[trigger] declarations@[j], n, elen, tlen, src_len),
                        k <= declarations@.len(),
                        s@ == decls_text(self, declarations@.take(k as int), level, n),
                    decreases declarations@.len() - k,
                {
                    let t = self.visit_declaraction(&declarations[k], level, Ghost(n));
                    proof {
                        let next = declarations@.take(k + 1);
                        assert(next.drop_last() =~= declarations@.take(k as int));
                        assert(next.last() == declarations@[k as int]);
                    }
                    if k > 0 {
                        s.append("\n");
                    }
                    s.append(t.as_str());
                    k = k + 1;
                }
                proof {
                    assert(declarations@.take(declarations@.len() as int) =~= declarations@);
                }
                let c = self.visit_stmt(*statements, level);
                push_line_if_any(&mut s, &c);
            },
            Stmt::Assign { left, right } => {
                let a = self.visit_expr(*left, l1);
                let b = self.visit_expr(*right, l1);
                push_indent(&mut s, level);
                s.append("Assign\n");
                s.append(a.as_str());
                s.append("\n");
                s.append(b.as_str());
            },
            Stmt::Compound(stmts) => {
                push_indent(&mut s, level);
                s.append("Begin\n");
                let ghost head = s@;
                let mut k: usize = 0;
                while k < stmts.len()
                    invariant
                        self.wf(),
                        0 <= n < self.stmt_pool.nodes().len(),
                        n == id.index_of(),
                        forall|j: int| 0 <= j < stmts@.len() ==> (#[trigger] stmts@[j]).index_of() < n,
                        k <= stmts@.len(),
                        s@ == head + stmts_text(self, stmts@.take(k as int), l1, n),
                    decreases stmts@.len() - k,
                {
                    let t = self.visit_stmt(stmts[k], l1);
                    proof {
                        let next = stmts@.take(k + 1);
                        assert(next.drop_last() =~= stmts@.take(k as int));
                        assert(next.last() == stmts@[k as int]);
                    }
                    if k > 0 {
                        s.append("\n");
                    }
                    s.append(t.as_str());
                    k = k + 1;
                }
                proof {
                    assert(stmts@.take(stmts@.len() as int) =~= stmts@);
                }
            },
            Stmt::Break => {
                push_indent(&mut s, level);
                s.append("Break");
            },
            Stmt::Continue => {
                push_indent(&mut s, level);
                s.append("Continue");
            },
            Stmt::Exit(v) => {
                push_indent(&mut s, level);
                match v {
                    Some(e) => {
                        let a = self.visit_expr(*e, l1);
                        s.append("Exit\n");
                        s.append(a.as_str());
                    },
                    None => s.append("Exit"),
                }
            },
            Stmt::For { var, init, end, body } => {
                let a = self.visit_expr(*init, l1);
                let b = self.visit_expr(*end, l1);
                let c = self.visit_stmt(*body, l1);
                push_indent(&mut s, level);
                s.append("For(");
                s.append(self.token_str(var));
                s.append(")\n");
                s.append(a.as_str());
                s.append("\n");
                push_indent(&mut s, level);
                s.append("  To\n");
                s.append(b.as_str());
                s.append("\n");
                push_indent(&mut s, level);
                s.append("Do\n");
                s.append(c.as_str());
            },
            Stmt::If { cond, elifs, else_statement } => {
                let a = self.visit_expr(cond.cond, l1);
                let b = self.visit_stmt(cond.expr, l1);
                push_indent(&mut s, level);
                s.append("If\n");
                s.append(a.as_str());
                s.append("\n");
                push_indent(&mut s, level);
                s.append("Then\n");
                s.append(b.as_str());
                let mut e = String::new();
                let mut k: usize = 0;
                while k < elifs.len()
                    invariant
                        self.wf(),
                        0 <= n < self.stmt_pool.nodes().len(),
                        n == id.index_of(),
                        elen == self.expr_pool.nodes().len(),
                        forall|j: int| 0 <= j < elifs@.len() ==> cond_ok(#[trigger] elifs@[j], n, elen),
                        l1 == deeper(level, 1),
                        k <= elifs@.len(),
                        e@ == elifs_text(self, elifs@.take(k as int), level, n),
                    decreases elifs@.len() - k,
                {
                    let c = &elifs[k];
                    proof {
                        assert(cond_ok(elifs@[k as int], n, elen));
                    }
                    let x = self.visit_expr(c.cond, l1);
                    let y = self.visit_stmt(c.expr, l1);
                    proof {
                        let next = elifs@.take(k + 1);
                        assert(next.drop_last() =~= elifs@.take(k as int));
                        assert(next.last() == elifs@[k as int]);
                        assert(elif_text(self, *c, level, n) == indent_text(level) + "ElseIf\n"@ + x@ + nl()
                            + indent_text(level) + "Then\n"@ + y@);
                    }
                    if k > 0 {
                        e.append("\n");
                    }
                    push_indent(&mut e, level);
                    e.append("ElseIf\n");
                    e.append(x.as_str());
                    e.append("\n");
                    push_indent(&mut e, level);
                    e.append("Then\n");
                    e.append(y.as_str());
                    k = k + 1;
                }
                proof {
                    assert(elifs@.take(elifs@.len() as int) =~= elifs@);
                }
                push_line_if_any(&mut s, &e);
                match else_statement {
                    Some(v) => {
                        let c = self.visit_stmt(*v, l1);
                        s.append("\n");
                        push_indent(&mut s, level);
                        s.append("Else\n");
                        s.append(c.as_str());
                    },
                    None => {},
                }
            },
            Stmt::While { cond, body } => {
                let a = self.visit_expr(*cond, l1);
                let b = self.visit_stmt(*body, l1);
                push_indent(&mut s, level);
                s.append("While\n");
                s.append(a.as_str());
                s.append("\n");
                push_indent(&mut s, level);
                s.append("Do\n");
                s.append(b.as_str());
            },
            Stmt::NoOp => {
                push_indent(&mut s, level);
                s.append("NoOp");
            },
            Stmt::Call { call } => {
                s = self.visit_expr(*call, level);
            },
        }
        s
    }
}

} // verus!
