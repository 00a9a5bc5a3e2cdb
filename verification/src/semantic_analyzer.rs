use vstd::prelude::*;
use vstd::hash_map::HashMapWithView;
use crate::error::{combined, decimal, flatten, push_decimal, Error, ErrorCode, Errors};
use crate::refs::{CallableSymbolRef, ExprRef, StmtRef, TypeRef, TypeSymbolRef, VarSymbolRef};
use crate::symbols::{
    lemma_scope_within, CallableType,
    lemma_define_within, lemma_enclosing_within, names_view, ConstValue,
    ParamInputMode,
    lemma_lookups_within, lemma_refs_within_grow, SymbolTable,
    resolve, type_eq, type_refs_below, types_ranked, CallableSymbol, TypeSymbol, VarLocality, VarPassMode, VarSymbol,
};
use crate::messages::{debug_text, token_type_debug, token_type_debug_text, type_symbol_debug, type_symbol_debug_text};
use crate::parser::{assign_shapes_ok, decl_shape_ok, is_bin_op, is_literal, shapes_ok, stmt_shape_ok, param_ok, Param, token_in, cond_ok, decl_ok, expr_node_ok, stmt_node_ok, type_node_ok, Condition, Decl, Expr, NodeRef, Stmt, Tree, Type};
use crate::chars::str_to_lowercase;
use crate::codegen::{
    expr_is_integer, global_int_var, int_fragment_block, int_fragment_cond, int_fragment_expr, int_fragment_program,
    int_fragment_stmt, is_comparison,
};
use crate::tokens::{Token, TokenType};
use crate::utils::{str_equal, NodePool, PoolRef, Pos, Size};

verus! {

broadcast use vstd::std_specs::hash::group_hash_axioms;

/// Number of elements of an array indexed from `start` to `end`, computed as
/// the code generator's machine arithmetic does.
pub open spec fn array_length(start: i32, end: i32) -> usize {
    1usize.wrapping_add(end.wrapping_sub(start) as usize)
}

/// Storage size of the type symbol at `i` of the pool, where it has one.
pub open spec fn size_at(types: Seq<TypeSymbol>, i: int) -> Option<Size>
    decreases i,
{
    if 0 <= i < types.len() {
        match types[i] {
            TypeSymbol::Range { range_type, .. } => if range_type.index_of() < i {
                size_at(types, range_type.index_of() as int)
            } else {
                None
            },
            TypeSymbol::Array { start_ord_index, end_ord_index, value_type, .. } => if value_type.index_of()
                < i {
                match size_at(types, value_type.index_of() as int) {
                    Some(e) => Some(
                        Size::SArray {
                            element_size: Box::new(e),
                            length: array_length(start_ord_index, end_ord_index),
                        },
                    ),
                    None => None,
                }
            } else {
                None
            },
            _ => plain_size(types[i]),
        }
    } else {
        None
    }
}

/// Size of a type symbol that refers to no other.
pub open spec fn plain_size(t: TypeSymbol) -> Option<Size> {
    match t {
        TypeSymbol::Integer => Some(Size::S32bit),
        TypeSymbol::Int64 => Some(Size::S64bit),
        TypeSymbol::Real => Some(Size::S64bit),
        TypeSymbol::Boolean => Some(Size::S8bit),
        TypeSymbol::Char => Some(Size::S8bit),
        TypeSymbol::Enum(elements) => Some(
            Size::SArray { element_size: Box::new(Size::S8bit), length: elements@.len() as usize },
        ),
        TypeSymbol::Any => Some(Size::S64bit),
        _ => None,
    }
}

/// Storage size of `t`: integers take 4 bytes, 64-bit integers, reals and
/// untyped values 8, booleans and characters 1, a range what its base type
/// takes, an array its length times its elements, an enumeration a byte per
/// name; strings, dynamic arrays and the empty type have none.
pub open spec fn size_of(types: Seq<TypeSymbol>, t: TypeSymbol) -> Option<Size> {
    match t {
        TypeSymbol::Range { range_type, .. } => size_at(types, range_type.index_of() as int),
        TypeSymbol::Array { start_ord_index, end_ord_index, value_type, .. } => match size_at(
            types,
            value_type.index_of() as int,
        ) {
            Some(e) => Some(
                Size::SArray { element_size: Box::new(e), length: array_length(start_ord_index, end_ord_index) },
            ),
            None => None,
        },
        _ => plain_size(t),
    }
}

/// The references a callable holds point into the pools.
pub open spec fn callable_ok(c: CallableSymbol, vars: Seq<VarSymbol>, nt: int) -> bool {
    &&& forall|k: int|
        0 <= k < c.params@.len() ==> (#[trigger] c.params@[k]).index_of() < vars.len() && vars[c.params@[k].index_of() as int] is Var
    &&& (c.return_type matches Some(t) ==> t.index_of() < nt)
}

/// What the semantic analysis learns of a program: the type of each
/// expression and type node, the symbol each name and call stands for, and
/// the pools of type, variable and callable symbols. Expressions, type nodes
/// and type symbols are keyed by their index.
pub struct SemanticMetadata {
    pub expr_type_map: HashMapWithView<usize, TypeSymbolRef>,
    pub type_type_map: HashMapWithView<usize, TypeSymbolRef>,
    pub callable_symbols: HashMapWithView<usize, CallableSymbolRef>,
    pub var_symbols: HashMapWithView<usize, VarSymbolRef>,
    pub var_types: HashMapWithView<usize, VarLocality>,
    pub type_sizes: HashMapWithView<usize, Size>,
    pub loop_var_symbols: HashMapWithView<usize, VarSymbolRef>,
    pub loop_var_types: HashMapWithView<usize, VarLocality>,
    pub types: NodePool<TypeSymbolRef, TypeSymbol>,
    pub vars: NodePool<VarSymbolRef, VarSymbol>,
    pub callables: NodePool<CallableSymbolRef, CallableSymbol>,
}

impl SemanticMetadata {
    /// Every reference points into its pool, a type symbol refers only to
    /// earlier ones, and a recorded size is the size of its type symbol.
    pub open spec fn wf(&self) -> bool {
        let types = self.types.nodes();
        let nt = types.len() as int;
        let nv = self.vars.nodes().len() as int;
        let nc = self.callables.nodes().len() as int;
        &&& types_ranked(types)
        &&& forall|i: int| 0 <= i < nv ==> (#[trigger] self.vars.nodes()[i]).spec_type_symbol().index_of() < nt
        &&& forall|i: int| 0 <= i < nc ==> callable_ok(#[trigger] self.callables.nodes()[i], self.vars.nodes(), nt)
        &&& forall|k: usize| #[trigger] self.expr_type_map@.contains_key(k) ==> self.expr_type_map@[k].index_of() < nt
        &&& forall|k: usize| #[trigger] self.type_type_map@.contains_key(k) ==> self.type_type_map@[k].index_of() < nt
        &&& forall|k: usize| #[trigger] self.callable_symbols@.contains_key(k) ==> self.callable_symbols@[k].index_of()
            < nc
        &&& forall|k: usize| #[trigger] self.var_symbols@.contains_key(k) ==> self.var_symbols@[k].index_of() < nv
        &&& forall|k: usize| #[trigger] self.loop_var_symbols@.contains_key(k) ==> self.loop_var_symbols@[k].index_of() < nv
        &&& forall|k: usize| #[trigger]
            self.type_sizes@.contains_key(k) ==> k < nt && size_at(types, k as int) == Some(self.type_sizes@[k])
    }

    /// The pools of `self` extend those of `old`, and what was recorded stays.
    pub open spec fn grows_from(&self, old: &SemanticMetadata) -> bool {
        &&& old.types.nodes().len() <= self.types.nodes().len()
        &&& old.vars.nodes().len() <= self.vars.nodes().len()
        &&& old.callables.nodes().len() <= self.callables.nodes().len()
        &&& self.types.nodes().take(old.types.nodes().len() as int) == old.types.nodes()
        &&& self.vars.nodes().take(old.vars.nodes().len() as int) == old.vars.nodes()
        &&& self.callables.nodes().take(old.callables.nodes().len() as int) == old.callables.nodes()
        &&& forall|k: usize| old.expr_type_map@.contains_key(k) ==> #[trigger] self.expr_type_map@.contains_key(k)
        &&& forall|k: usize| old.var_symbols@.contains_key(k) ==> #[trigger] self.var_symbols@.contains_key(k)
        &&& forall|k: usize| old.var_types@.contains_key(k) ==> #[trigger] self.var_types@.contains_key(k)
    }

    pub fn new() -> (r: Self)
        ensures
            r.wf(),
            r.types.nodes().len() == 0,
            r.vars.nodes().len() == 0,
            r.callables.nodes().len() == 0,
            r.expr_type_map@ == Map::<usize, TypeSymbolRef>::empty(),
    {
        SemanticMetadata {
            expr_type_map: HashMapWithView::new(),
            type_type_map: HashMapWithView::new(),
            callable_symbols: HashMapWithView::new(),
            var_symbols: HashMapWithView::new(),
            var_types: HashMapWithView::new(),
            type_sizes: HashMapWithView::new(),
            loop_var_symbols: HashMapWithView::new(),
            loop_var_types: HashMapWithView::new(),
            types: NodePool::new(),
            vars: NodePool::new(),
            callables: NodePool::new(),
        }
    }

    /// The type symbol of an expression, if it has one.
    pub fn get_expr_type(&self, expr_ref: &ExprRef) -> (r: Option<&TypeSymbol>)
        requires
            self.wf(),
        ensures
            r matches Some(t) ==> self.expr_type_map@.contains_key(expr_ref.index_of() as usize) && *t
                == self.types.nodes()[self.expr_type_map@[expr_ref.index_of() as usize].index_of() as int],
            r is None ==> !self.expr_type_map@.contains_key(expr_ref.index_of() as usize),
    {
        match self.expr_type_map.get(&expr_ref.to_index()) {
            Some(r) => Some(self.types.get(*r)),
            None => None,
        }
    }

    /// The storage size of an expression's type, if known.
    pub fn get_expr_size(&self, expr_ref: &ExprRef) -> (r: Option<&Size>)
        requires
            self.wf(),
        ensures
            r matches Some(z) ==> {
                let t = self.expr_type_map@[expr_ref.index_of() as usize];
                &&& self.expr_type_map@.contains_key(expr_ref.index_of() as usize)
                &&& self.type_sizes@.contains_key(t.index_of() as usize)
                &&& *z == self.type_sizes@[t.index_of() as usize]
            },
            r is None ==> !self.expr_type_map@.contains_key(expr_ref.index_of() as usize)
                || !self.type_sizes@.contains_key(
                self.expr_type_map@[expr_ref.index_of() as usize].index_of() as usize,
            ),
    {
        match self.expr_type_map.get(&expr_ref.to_index()) {
            Some(t) => self.type_sizes.get(&t.to_index()),
            None => None,
        }
    }

    /// The callable a call expression stands for.
    pub fn get_callable_symbol(&self, expr_ref: &ExprRef) -> (r: Option<&CallableSymbol>)
        requires
            self.wf(),
        ensures
            r matches Some(c) ==> self.callable_symbols@.contains_key(expr_ref.index_of() as usize) && *c
                == self.callables.nodes()[self.callable_symbols@[expr_ref.index_of() as usize].index_of() as int],
            r is None ==> !self.callable_symbols@.contains_key(expr_ref.index_of() as usize),
    {
        match self.callable_symbols.get(&expr_ref.to_index()) {
            Some(s) => Some(self.callables.get(*s)),
            None => None,
        }
    }

    /// The variable or constant a name expression stands for.
    pub fn get_var_symbol(&self, expr_ref: &ExprRef) -> (r: Option<&VarSymbol>)
        requires
            self.wf(),
        ensures
            r matches Some(v) ==> self.var_symbols@.contains_key(expr_ref.index_of() as usize) && *v
                == self.vars.nodes()[self.var_symbols@[expr_ref.index_of() as usize].index_of() as int],
            r is None ==> !self.var_symbols@.contains_key(expr_ref.index_of() as usize),
    {
        match self.var_symbols.get(&expr_ref.to_index()) {
            Some(s) => Some(self.vars.get(*s)),
            None => None,
        }
    }

    /// How the variable a name expression stands for is passed; none for a
    /// constant or an unknown name.
    pub fn get_var_pass_mode(&self, expr_ref: &ExprRef) -> (r: Option<&VarPassMode>)
        requires
            self.wf(),
        ensures
            r == (if self.var_symbols@.contains_key(expr_ref.index_of() as usize) {
                match self.vars.nodes()[self.var_symbols@[expr_ref.index_of() as usize].index_of() as int] {
                    VarSymbol::Var { pass_mode, .. } => Some(&pass_mode),
                    _ => None,
                }
            } else {
                None
            }),
    {
        match self.get_var_symbol(expr_ref) {
            Some(VarSymbol::Var { pass_mode, .. }) => Some(pass_mode),
            _ => None,
        }
    }
}

impl TypeSymbol {
    fn size_at_index(semantic_metadata: &SemanticMetadata, i: TypeSymbolRef) -> (r: Option<Size>)
        requires
            types_ranked(semantic_metadata.types.nodes()),
            i.index_of() < semantic_metadata.types.nodes().len(),
        ensures
            r == size_at(semantic_metadata.types.nodes(), i.index_of() as int),
        decreases i.index_of(),
    {
        let ghost types = semantic_metadata.types.nodes();
        let t = semantic_metadata.types.get(i);
        proof {
            assert(type_refs_below(types[i.index_of() as int], i.index_of() as int));
        }
        match t {
            TypeSymbol::Range { range_type, .. } => TypeSymbol::size_at_index(semantic_metadata, *range_type),
            TypeSymbol::Array { start_ord_index, end_ord_index, value_type, .. } => {
                match TypeSymbol::size_at_index(semantic_metadata, *value_type) {
                    Some(e) => Some(
                        Size::SArray {
                            element_size: Box::new(e),
                            length: 1usize.wrapping_add(end_ord_index.wrapping_sub(*start_ord_index) as usize),
                        },
                    ),
                    None => None,
                }
            },
            _ => t.plain_size(),
        }
    }

    fn plain_size(&self) -> (r: Option<Size>)
        ensures
            !(self is Range) && !(self is Array) ==> r == plain_size(*self),
    {
        match self {
            Self::Integer => Some(Size::S32bit),
            Self::Int64 => Some(Size::S64bit),
            Self::Real => Some(Size::S64bit),
            Self::Boolean => Some(Size::S8bit),
            Self::Char => Some(Size::S8bit),
            Self::Enum(elements) => Some(Size::SArray { element_size: Box::new(Size::S8bit), length: elements.len() }),
            Self::Any => Some(Size::S64bit),
            _ => None,
        }
    }

    /// Storage size of a value of this type, where it has one.
    pub fn get_size(&self, semantic_metadata: &SemanticMetadata) -> (r: Option<Size>)
        requires
            types_ranked(semantic_metadata.types.nodes()),
            type_refs_below(*self, semantic_metadata.types.nodes().len() as int),
        ensures
            r == size_of(semantic_metadata.types.nodes(), *self),
    {
        match self {
            Self::Range { range_type, .. } => TypeSymbol::size_at_index(semantic_metadata, *range_type),
            Self::Array { start_ord_index, end_ord_index, value_type, .. } => {
                match TypeSymbol::size_at_index(semantic_metadata, *value_type) {
                    Some(e) => Some(
                        Size::SArray {
                            element_size: Box::new(e),
                            length: 1usize.wrapping_add(end_ord_index.wrapping_sub(*start_ord_index) as usize),
                        },
                    ),
                    None => None,
                }
            },
            _ => self.plain_size(),
        }
    }
}

/// The type of `left op right`, or none where the operator does not apply to
/// the operand types.
pub open spec fn bin_op_type(op: TokenType, left: TypeSymbol, right: TypeSymbol) -> Option<TypeSymbol> {
    let numeric_l = left is Integer || left is Int64 || left is Real;
    let numeric_r = right is Integer || right is Int64 || right is Real;
    let integral_l = left is Integer || left is Int64;
    let integral_r = right is Integer || right is Int64;
    match op {
        TokenType::Minus | TokenType::RealDiv | TokenType::Mul => if left is Integer && right is Integer {
            Some(TypeSymbol::Integer)
        } else if integral_l && integral_r {
            Some(TypeSymbol::Int64)
        } else if numeric_l && numeric_r {
            Some(TypeSymbol::Real)
        } else {
            None
        },
        TokenType::IntegerDiv => if (left is Integer || left is Real) && right is Integer {
            Some(TypeSymbol::Integer)
        } else if numeric_l && right is Int64 {
            Some(TypeSymbol::Int64)
        } else if left is Int64 && right is Integer {
            Some(TypeSymbol::Int64)
        } else {
            None
        },
        TokenType::Plus => if left is String && (right is String || right is Char) {
            Some(TypeSymbol::String)
        } else if left is Integer && right is Integer {
            Some(TypeSymbol::Integer)
        } else if integral_l && integral_r {
            Some(TypeSymbol::Int64)
        } else if numeric_l && numeric_r {
            Some(TypeSymbol::Real)
        } else {
            None
        },
        TokenType::GreaterThen | TokenType::GreaterEqual | TokenType::LessEqual | TokenType::LessThen => if numeric_l
            && numeric_r {
            Some(TypeSymbol::Boolean)
        } else {
            None
        },
        TokenType::Equal | TokenType::NotEqual => Some(TypeSymbol::Boolean),
        TokenType::And | TokenType::Or => if left is Boolean && right is Boolean {
            Some(TypeSymbol::Boolean)
        } else {
            None
        },
        _ => None,
    }
}

/// A number type: `integer`, `int64` or `real`.
pub open spec fn is_number_type(t: TypeSymbol) -> bool {
    t is Integer || t is Int64 || t is Real
}

/// Ordering comparisons apply to any two numbers, of the same type or not,
/// and give a boolean; they apply to nothing else.
pub proof fn law_ordering_compares_numbers(op: TokenType, left: TypeSymbol, right: TypeSymbol)
    requires
        op is LessThen || op is LessEqual || op is GreaterThen || op is GreaterEqual,
    ensures
        is_number_type(left) && is_number_type(right) ==> bin_op_type(op, left, right) == Some(TypeSymbol::Boolean),
        !(is_number_type(left) && is_number_type(right)) ==> bin_op_type(op, left, right) is None,
{
}

/// Equality and inequality apply to any two operands and give a boolean.
pub proof fn law_equality_is_boolean(op: TokenType, left: TypeSymbol, right: TypeSymbol)
    requires
        op is Equal || op is NotEqual,
    ensures
        bin_op_type(op, left, right) == Some(TypeSymbol::Boolean),
{
}

/// `and` and `or` apply exactly to two booleans and give a boolean.
pub proof fn law_logic_on_booleans(op: TokenType, left: TypeSymbol, right: TypeSymbol)
    requires
        op is And || op is Or,
    ensures
        bin_op_type(op, left, right) is Some <==> (left is Boolean && right is Boolean),
        bin_op_type(op, left, right) is Some ==> bin_op_type(op, left, right) == Some(TypeSymbol::Boolean),
{
}

/// `+`, `-` and `*` of two numbers give the wider of their types: `integer`
/// for two integers, `real` when either is real, `int64` otherwise.
pub proof fn law_arithmetic_widens(op: TokenType, left: TypeSymbol, right: TypeSymbol)
    requires
        op is Plus || op is Minus || op is Mul,
        is_number_type(left),
        is_number_type(right),
    ensures
        bin_op_type(op, left, right) == Some(
            if left is Real || right is Real {
                TypeSymbol::Real
            } else if left is Int64 || right is Int64 {
                TypeSymbol::Int64
            } else {
                TypeSymbol::Integer
            },
        ),
{
}

/// Negation and unary plus keep the type of a number; `not` keeps a
/// boolean; nothing else applies.
pub proof fn law_unary_keeps_type(op: TokenType, t: TypeSymbol)
    ensures
        (op is Minus || op is Plus) && is_number_type(t) ==> unary_op_type(op, t) == Some(t),
        op is Not && t is Boolean ==> unary_op_type(op, t) == Some(TypeSymbol::Boolean),
        unary_op_type(op, t) is Some ==> ((op is Minus || op is Plus) && is_number_type(t)) || (op is Not && t is Boolean),
{
}

/// `/` of two integers is an integer, of two integral numbers an `int64`.
pub proof fn law_integer_division(left: TypeSymbol, right: TypeSymbol)
    ensures
        left is Integer && right is Integer ==> bin_op_type(TokenType::IntegerDiv, left, right) == Some(TypeSymbol::Integer),
        (left is Int64 || right is Int64) && (left is Integer || left is Int64) && (right is Integer || right is Int64)
            ==> bin_op_type(TokenType::IntegerDiv, left, right) == Some(TypeSymbol::Int64),
{
}

/// Whether a comparison applies, and its type, do not depend on the order of
/// the operands.
pub proof fn law_comparison_symmetric(op: TokenType, left: TypeSymbol, right: TypeSymbol)
    requires
        op is LessThen || op is LessEqual || op is GreaterThen || op is GreaterEqual || op is Equal || op is NotEqual,
    ensures
        bin_op_type(op, left, right) == bin_op_type(op, right, left),
{
}

/// The binary operators of expressions.
/// The type `t` given to an expression like `e`: a literal has its own
/// type, an operator application a type the operator gives for some operand
/// types.
pub open spec fn typing_rule(e: Expr, t: TypeSymbol) -> bool {
    match e {
        Expr::LiteralBool(_) => t is Boolean,
        Expr::LiteralChar(_) => t is Char,
        Expr::LiteralInteger(_) => t is Integer,
        Expr::LiteralReal(_) => t is Real,
        Expr::LiteralString(_) => t is String,
        Expr::BinOp { op, .. } => exists|a: TypeSymbol, b: TypeSymbol| #[trigger] bin_op_type(op, a, b) == Some(t),
        Expr::UnaryOp { op, .. } => exists|a: TypeSymbol| #[trigger] unary_op_type(op, a) == Some(t),
        _ => true,
    }
}

/// Every expression of `tree` that has a type has one its kind allows.
pub open spec fn types_follow_rules(tree: &Tree, md: &SemanticMetadata) -> bool {
    forall|k: usize|
        #[trigger] md.expr_type_map@.contains_key(k) && (k as int) < tree.expr_pool.nodes().len() ==> typing_rule(
            tree.expr_pool.nodes()[k as int],
            md.types.nodes()[md.expr_type_map@[k].index_of() as int],
        )
}


/// The type of `op e` for an operand of type `t`, or none.
pub open spec fn unary_op_type(op: TokenType, t: TypeSymbol) -> Option<TypeSymbol> {
    if op is Not && t is Boolean {
        Some(TypeSymbol::Boolean)
    } else if (op is Minus || op is Plus) && t is Integer {
        Some(TypeSymbol::Integer)
    } else if (op is Minus || op is Plus) && t is Int64 {
        Some(TypeSymbol::Int64)
    } else if (op is Minus || op is Plus) && t is Real {
        Some(TypeSymbol::Real)
    } else {
        None
    }
}

fn is_numeric(t: &TypeSymbol) -> (r: bool)
    ensures
        r == (*t is Integer || *t is Int64 || *t is Real),
{
    matches!(t, TypeSymbol::Integer | TypeSymbol::Int64 | TypeSymbol::Real)
}

fn is_integral(t: &TypeSymbol) -> (r: bool)
    ensures
        r == (*t is Integer || *t is Int64),
{
    matches!(t, TypeSymbol::Integer | TypeSymbol::Int64)
}

/// The type of a binary operation on operands of the given types.
pub fn bin_op_result(op: &TokenType, left: &TypeSymbol, right: &TypeSymbol) -> (r: Option<TypeSymbol>)
    requires
        is_bin_op(*op),
    ensures
        r == bin_op_type(*op, *left, *right),
{
    match op {
        TokenType::Minus | TokenType::RealDiv | TokenType::Mul => {
            if matches!(left, TypeSymbol::Integer) && matches!(right, TypeSymbol::Integer) {
                Some(TypeSymbol::Integer)
            } else if is_integral(left) && is_integral(right) {
                Some(TypeSymbol::Int64)
            } else if is_numeric(left) && is_numeric(right) {
                Some(TypeSymbol::Real)
            } else {
                None
            }
        },
        TokenType::IntegerDiv => {
            if matches!(left, TypeSymbol::Integer | TypeSymbol::Real) && matches!(right, TypeSymbol::Integer) {
                Some(TypeSymbol::Integer)
            } else if is_numeric(left) && matches!(right, TypeSymbol::Int64) {
                Some(TypeSymbol::Int64)
            } else if matches!(left, TypeSymbol::Int64) && matches!(right, TypeSymbol::Integer) {
                Some(TypeSymbol::Int64)
            } else {
                None
            }
        },
        TokenType::Plus => {
            if matches!(left, TypeSymbol::String) && matches!(right, TypeSymbol::String | TypeSymbol::Char) {
                Some(TypeSymbol::String)
            } else if matches!(left, TypeSymbol::Integer) && matches!(right, TypeSymbol::Integer) {
                Some(TypeSymbol::Integer)
            } else if is_integral(left) && is_integral(right) {
                Some(TypeSymbol::Int64)
            } else if is_numeric(left) && is_numeric(right) {
                Some(TypeSymbol::Real)
            } else {
                None
            }
        },
        TokenType::GreaterThen | TokenType::GreaterEqual | TokenType::LessEqual | TokenType::LessThen => {
            if is_numeric(left) && is_numeric(right) {
                Some(TypeSymbol::Boolean)
            } else {
                None
            }
        },
        TokenType::Equal | TokenType::NotEqual => Some(TypeSymbol::Boolean),
        _ => {
            if matches!(left, TypeSymbol::Boolean) && matches!(right, TypeSymbol::Boolean) {
                Some(TypeSymbol::Boolean)
            } else {
                None
            }
        },
    }
}

/// The type of a unary operation on an operand of type `t`.
pub fn unary_op_result(op: &TokenType, t: &TypeSymbol) -> (r: Option<TypeSymbol>)
    ensures
        r == unary_op_type(*op, *t),
{
    match (op, t) {
        (TokenType::Not, TypeSymbol::Boolean) => Some(TypeSymbol::Boolean),
        (TokenType::Minus | TokenType::Plus, TypeSymbol::Integer) => Some(TypeSymbol::Integer),
        (TokenType::Minus | TokenType::Plus, TypeSymbol::Int64) => Some(TypeSymbol::Int64),
        (TokenType::Minus | TokenType::Plus, TypeSymbol::Real) => Some(TypeSymbol::Real),
        _ => None,
    }
}

/// A value of type `right` may be stored where `left` is expected: anything
/// into `Any`, equal types, an integer into a real or a 64-bit integer and
/// back, a character into a string.
pub open spec fn spec_assinable(types: Seq<TypeSymbol>, left: TypeSymbol, right: TypeSymbol) -> bool {
    ||| left is Any
    ||| type_eq(types, left, right)
    ||| (left is Real && right is Integer)
    ||| (left is String && right is Char)
    ||| (left is Int64 && right is Integer)
    ||| (left is Integer && right is Int64)
}

pub fn assinable(types: &NodePool<TypeSymbolRef, TypeSymbol>, left: &TypeSymbol, right: &TypeSymbol) -> (r: bool)
    requires
        types_ranked(types.nodes()),
        type_refs_below(*left, types.nodes().len() as int),
        type_refs_below(*right, types.nodes().len() as int),
    ensures
        r == spec_assinable(types.nodes(), *left, *right),
{
    if let TypeSymbol::Any = left {
        return true;
    }
    if TypeSymbol::eq(types, left, right) {
        return true;
    }
    matches!(
        (left, right),
        (TypeSymbol::Real, TypeSymbol::Integer) | (TypeSymbol::String, TypeSymbol::Char) | (
            TypeSymbol::Int64,
            TypeSymbol::Integer,
        ) | (TypeSymbol::Integer, TypeSymbol::Int64)
    )
}

/// Every type may hold a value of its own type.
pub proof fn law_assinable_reflexive(types: Seq<TypeSymbol>, t: TypeSymbol)
    ensures
        spec_assinable(types, t, t),
{
    let r = resolve(types, t);
    assert(r.same(&r));
}

/// `e` is a semantic error with the code `code`.
pub open spec fn semantic_error_with(e: Error, code: ErrorCode) -> bool {
    e matches Error::SemanticError { error_code, .. } && error_code == code
}

/// The text of `t` in `src`.
/// `r` is a semantic error with `code`.
pub open spec fn fails_with<T>(r: Result<T, Error>, code: ErrorCode) -> bool {
    r matches Err(e) && semantic_error_with(e, code)
}

pub open spec fn lexeme_of(t: Token, src: Seq<char>) -> Seq<char> {
    src.subrange(t.spec_span().spec_start() as int, t.spec_span().spec_end())
}

/// The statements an `if` may run: its `then` branches in order, then its
/// `else` branch if it has one.
pub open spec fn if_branches(cond: Condition, elifs: Seq<Condition>, else_statement: Option<StmtRef>) -> Seq<
    StmtRef,
> {
    seq![cond.expr] + elifs.map_values(|c: Condition| c.expr) + match else_statement {
        Some(e) => seq![e],
        None => Seq::empty(),
    }
}

/// Whether a function called `name` has its result assigned after running
/// statement `s`, and whether control can go on past it: `None` when an
/// `exit` without a value can be reached before the result is assigned.
/// An assignment to `result` or to the function's name assigns the result;
/// `exit` with a value assigns it and does not fall through; a loop body is
/// checked but not counted; an `if` assigns where every branch that falls
/// through assigns, and falls through where any branch does.
pub open spec fn returns_in(exprs: Seq<Expr>, stmts: Seq<Stmt>, src: Seq<char>, name: Seq<char>, s: int, assigned: bool) -> Option<
    (bool, bool),
>
    decreases s, 2int, 0int,
{
    if 0 <= s < stmts.len() {
        match stmts[s] {
            Stmt::Block { statements, .. } => if statements.index_of() < s {
                returns_in(exprs, stmts, src, name, statements.index_of() as int, assigned)
            } else {
                Some((assigned, true))
            },
            Stmt::Exit(e) => if e is Some {
                Some((true, false))
            } else if !assigned {
                None
            } else {
                Some((assigned, true))
            },
            Stmt::Assign { left, .. } => match exprs[left.index_of() as int] {
                Expr::Var { name: t } => Some(
                    (lexeme_of(t, src) == "result"@ || lexeme_of(t, src) == name || assigned, true),
                ),
                _ => Some((assigned, true)),
            },
            Stmt::If { cond, elifs, else_statement } => {
                match returns_in_branches(
                    exprs,
                    stmts,
                    src,
                    name,
                    if_branches(cond, elifs@, else_statement),
                    0,
                    s,
                    assigned,
                    true,
                    false,
                ) {
                    Some((out, fall)) => if else_statement is Some {
                        Some((out, fall))
                    } else {
                        Some((out && assigned, true))
                    },
                    None => None,
                }
            },
            Stmt::While { body, .. } => if body.index_of() < s {
                match returns_in(exprs, stmts, src, name, body.index_of() as int, assigned) {
                    Some(_) => Some((assigned, true)),
                    None => None,
                }
            } else {
                Some((assigned, true))
            },
            Stmt::For { body, .. } => if body.index_of() < s {
                match returns_in(exprs, stmts, src, name, body.index_of() as int, assigned) {
                    Some(_) => Some((assigned, true)),
                    None => None,
                }
            } else {
                Some((assigned, true))
            },
            Stmt::Compound(v) => returns_in_seq(exprs, stmts, src, name, v@, 0, s, assigned, true),
            _ => Some((assigned, true)),
        }
    } else {
        Some((assigned, true))
    }
}

/// `returns_in` over the statements `list[i..]` run in order, stopping after
/// one that does not fall through.
pub open spec fn returns_in_seq(
    exprs: Seq<Expr>,
    stmts: Seq<Stmt>,
    src: Seq<char>,
    name: Seq<char>,
    list: Seq<StmtRef>,
    i: int,
    owner: int,
    assigned: bool,
    fall: bool,
) -> Option<(bool, bool)>
    decreases owner, 1int, list.len() - i,
{
    if i < 0 || i >= list.len() || !fall || list[i].index_of() >= owner {
        Some((assigned, fall))
    } else {
        match returns_in(exprs, stmts, src, name, list[i].index_of() as int, assigned) {
            Some((a, f)) => returns_in_seq(exprs, stmts, src, name, list, i + 1, owner, a, f),
            None => None,
        }
    }
}

/// `returns_in` of each of the alternative statements `list[i..]`, each run
/// with the same `assigned`, folded into `out` (every branch that falls
/// through assigns) and `fall` (some branch falls through).
pub open spec fn returns_in_branches(
    exprs: Seq<Expr>,
    stmts: Seq<Stmt>,
    src: Seq<char>,
    name: Seq<char>,
    list: Seq<StmtRef>,
    i: int,
    owner: int,
    assigned: bool,
    out: bool,
    fall: bool,
) -> Option<(bool, bool)>
    decreases owner, 1int, list.len() - i,
{
    if i < 0 || i >= list.len() || list[i].index_of() >= owner {
        Some((out, fall))
    } else {
        match returns_in(exprs, stmts, src, name, list[i].index_of() as int, assigned) {
            Some((o, f)) => returns_in_branches(
                exprs,
                stmts,
                src,
                name,
                list,
                i + 1,
                owner,
                assigned,
                out && (!f || o),
                fall || f,
            ),
            None => None,
        }
    }
}


fn function_may_not_return(tree: &Tree, stmt_node: StmtRef) -> (e: Error)
    requires
        tree.wf(),
        stmt_node.index_of() < tree.stmt_pool.nodes().len(),
    ensures
        semantic_error_with(e, ErrorCode::FunctionMayNotReturn),
{
    Error::SemanticError {
        msg: String::from_str("function exited without returning anything"),
        pos: tree.node_pos(NodeRef::StmtRef(stmt_node)),
        error_code: ErrorCode::FunctionMayNotReturn,
    }
}

/// Whether the function called `function_name`, from statement `stmt_node`
/// on, assigns its result and whether control can fall through; an error
/// where an `exit` without a value comes before the result is assigned.
pub fn analyze_function(tree: &Tree, function_name: &str, stmt_node: StmtRef, in_assigned: bool) -> (r: Result<
    (bool, bool),
    Error,
>)
    requires
        tree.wf(),
        assign_shapes_ok(tree.expr_pool.nodes(), tree.stmt_pool.nodes()),
        stmt_node.index_of() < tree.stmt_pool.nodes().len(),
    ensures
        match r {
            Ok(x) => returns_in(
                tree.expr_pool.nodes(),
                tree.stmt_pool.nodes(),
                tree.source_code@,
                function_name@,
                stmt_node.index_of() as int,
                in_assigned,
            ) == Some(x),
            Err(e) => returns_in(
                tree.expr_pool.nodes(),
                tree.stmt_pool.nodes(),
                tree.source_code@,
                function_name@,
                stmt_node.index_of() as int,
                in_assigned,
            ) is None && semantic_error_with(e, ErrorCode::FunctionMayNotReturn),
        },
    decreases stmt_node.index_of(), 2int, 0int,
{
    let ghost exprs = tree.expr_pool.nodes();
    let ghost stmts = tree.stmt_pool.nodes();
    let ghost src = tree.source_code@;
    let ghost name = function_name@;
    let ghost s = stmt_node.index_of() as int;
    proof {
        assert(stmt_node_ok(stmts[s], s, exprs.len() as int, tree.type_pool.nodes().len() as int, src.len() as int));
    }
    match tree.stmt_pool.get(stmt_node) {
        Stmt::Block { statements, .. } => analyze_function(tree, function_name, *statements, in_assigned),
        Stmt::Exit(e) => {
            if e.is_some() {
                return Ok((true, false));
            }
            if !in_assigned {
                return Err(function_may_not_return(tree, stmt_node));
            }
            Ok((in_assigned, true))
        },
        Stmt::Assign { left, .. } => {
            proof {
                assert(exprs[left.index_of() as int] is Var || exprs[left.index_of() as int] is Index);
            }
            match tree.expr_pool.get(*left) {
                Expr::Var { name: t } => {
                    proof {
                        assert(expr_node_ok(exprs[left.index_of() as int], left.index_of() as int, src.len() as int));
                    }
                    let lexeme = t.lexem(tree.source_code);
                    let is_result = str_equal(lexeme, "result");
                    proof {
                        reveal_strlit("result");
                    }
                    Ok((is_result || str_equal(lexeme, function_name) || in_assigned, true))
                },
                _ => Ok((in_assigned, true)),
            }
        },
        Stmt::If { cond, elifs, else_statement } => {
            let ghost list = if_branches(*cond, elifs@, *else_statement);
            proof {
                assert(list[0] == cond.expr);
            }
            let (o0, f0) = analyze_function(tree, function_name, cond.expr, in_assigned)?;
            let mut out = !f0 || o0;
            let mut fall = f0;
            let mut k: usize = 0;
            while k < elifs.len()
                invariant
                    tree.wf(),
                    assign_shapes_ok(exprs, stmts),
                    exprs == tree.expr_pool.nodes(),
                    stmts == tree.stmt_pool.nodes(),
                    src == tree.source_code@,
                    name == function_name@,
                    0 <= s < stmts.len(),
                    stmts[s] == (Stmt::If { cond: *cond, elifs: *elifs, else_statement: *else_statement }),
                    list == if_branches(*cond, elifs@, *else_statement),
                    stmt_node_ok(stmts[s], s, exprs.len() as int, tree.type_pool.nodes().len() as int, src.len() as int),
                    s == stmt_node.index_of(),
                    k <= elifs@.len(),
                    returns_in_branches(exprs, stmts, src, name, list, 0, s, in_assigned, true, false)
                        == returns_in_branches(exprs, stmts, src, name, list, k + 1, s, in_assigned, out, fall),
                decreases elifs@.len() - k,
            {
                let c = &elifs[k];
                proof {
                    assert(list[k + 1] == c.expr);
                    assert(cond_ok(elifs@[k as int], s, exprs.len() as int));
                }
                let (o, f) = match analyze_function(tree, function_name, c.expr, in_assigned) {
                    Ok(x) => x,
                    Err(e) => {
                        proof {
                            lemma_branches_fail(exprs, stmts, src, name, list, k + 1, s, in_assigned, out, fall);
                        }
                        return Err(e);
                    },
                };
                out = out && (!f || o);
                fall = fall || f;
                k = k + 1;
            }
            match else_statement {
                Some(st) => {
                    proof {
                        assert(list[elifs@.len() as int + 1] == *st);
                        assert(list.len() == elifs@.len() + 2);
                    }
                    let (o, f) = match analyze_function(tree, function_name, *st, in_assigned) {
                        Ok(x) => x,
                        Err(e) => {
                            proof {
                                lemma_branches_fail(exprs, stmts, src, name, list, elifs@.len() as int + 1, s, in_assigned, out, fall);
                            }
                            return Err(e);
                        },
                    };
                    proof {
                        assert(returns_in_branches(exprs, stmts, src, name, list, list.len() as int, s, in_assigned, out && (!f || o), fall || f) == Some((out && (!f || o), fall || f)));
                    }
                    Ok((out && (!f || o), fall || f))
                },
                None => {
                    proof {
                        assert(list.len() == elifs@.len() + 1);
                        assert(returns_in_branches(exprs, stmts, src, name, list, list.len() as int, s, in_assigned, out, fall) == Some((out, fall)));
                    }
                    Ok((out && in_assigned, true))
                },
            }
        },
        Stmt::While { body, .. } => {
            analyze_function(tree, function_name, *body, in_assigned)?;
            Ok((in_assigned, true))
        },
        Stmt::For { body, .. } => {
            analyze_function(tree, function_name, *body, in_assigned)?;
            Ok((in_assigned, true))
        },
        Stmt::Compound(v) => {
            let mut assign = in_assigned;
            let mut fall = true;
            let mut k: usize = 0;
            while k < v.len() && fall
                invariant
                    tree.wf(),
                    assign_shapes_ok(exprs, stmts),
                    exprs == tree.expr_pool.nodes(),
                    stmts == tree.stmt_pool.nodes(),
                    src == tree.source_code@,
                    name == function_name@,
                    0 <= s < stmts.len(),
                    s == stmt_node.index_of(),
                    stmts[s] == Stmt::Compound(*v),
                    stmt_node_ok(stmts[s], s, exprs.len() as int, tree.type_pool.nodes().len() as int, src.len() as int),
                    k <= v@.len(),
                    returns_in_seq(exprs, stmts, src, name, v@, 0, s, in_assigned, true) == returns_in_seq(
                        exprs,
                        stmts,
                        src,
                        name,
                        v@,
                        k as int,
                        s,
                        assign,
                        fall,
                    ),
                decreases v@.len() - k,
            {
                let (a, f) = analyze_function(tree, function_name, v[k], assign)?;
                assign = a;
                fall = f;
                k = k + 1;
            }
            proof {
                assert(returns_in_seq(exprs, stmts, src, name, v@, k as int, s, assign, fall) == Some((assign, fall)));
            }
            Ok((assign, fall))
        },
        _ => Ok((in_assigned, true)),
    }
}

proof fn lemma_branches_fail(
    exprs: Seq<Expr>,
    stmts: Seq<Stmt>,
    src: Seq<char>,
    name: Seq<char>,
    list: Seq<StmtRef>,
    i: int,
    owner: int,
    assigned: bool,
    out: bool,
    fall: bool,
)
    requires
        0 <= i < list.len(),
        list[i].index_of() < owner,
        returns_in(exprs, stmts, src, name, list[i].index_of() as int, assigned) is None,
    ensures
        returns_in_branches(exprs, stmts, src, name, list, i, owner, assigned, out, fall) is None,
{
}

/// `e` comes from the semantic analysis: a semantic error, or a group of
/// such errors.
pub open spec fn semantic_failure(e: Error) -> bool
    decreases e,
{
    match e {
        Error::SemanticError { .. } => true,
        Error::Errors(v) => forall|i: int|
            0 <= i < v@.len() ==> if decreases_to!(e => v@[i]) {
                semantic_failure(*#[trigger] v@[i])
            } else {
                false
            },
        _ => false,
    }
}

proof fn lemma_flatten_semantic(e: Error)
    requires
        semantic_failure(e),
    ensures
        forall|i: int| 0 <= i < flatten(e).len() ==> semantic_failure(#[trigger] flatten(e)[i]),
{
    match e {
        Error::Errors(v) => {
            assert forall|i: int| 0 <= i < flatten(e).len() implies semantic_failure(#[trigger] flatten(e)[i]) by {
                assert(decreases_to!(e => v@[i]));
                assert(flatten(e)[i] == *v@[i]);
            }
        },
        _ => {},
    }
}

proof fn lemma_combined_semantic(errs: Seq<Error>, r: Result<(), Error>)
    requires
        combined(errs, r),
        forall|i: int| 0 <= i < errs.len() ==> semantic_failure(#[trigger] errs[i]),
    ensures
        r matches Err(e) ==> semantic_failure(e),
{
    if errs.len() >= 2 {
        if let Err(e) = r {
            if let Error::Errors(v) = e {
                assert forall|i: int| 0 <= i < v@.len() implies (if decreases_to!(e => v@[i]) {
                    semantic_failure(*#[trigger] v@[i])
                } else {
                    false
                }) by {
                    assert(decreases_to!(e => v@[i]));
                    assert(*v@[i] == errs[i]);
                }
            }
        }
    }
}


impl SemanticMetadata {
    /// Stores a type symbol, with its size when it has one.
    pub fn alloc_type(&mut self, type_symbol: TypeSymbol) -> (r: TypeSymbolRef)
        requires
            old(self).wf(),
            type_refs_below(type_symbol, old(self).types.nodes().len() as int),
        ensures
            final(self).wf(),
            final(self).types.nodes() == old(self).types.nodes().push(type_symbol),
            final(self).vars == old(self).vars,
            final(self).callables == old(self).callables,
            final(self).expr_type_map == old(self).expr_type_map,
            final(self).type_type_map == old(self).type_type_map,
            final(self).var_symbols == old(self).var_symbols,
            final(self).callable_symbols == old(self).callable_symbols,
            final(self).var_types == old(self).var_types,
            final(self).loop_var_symbols == old(self).loop_var_symbols,
            r.index_of() == old(self).types.nodes().len(),
            forall|t: Tree| types_follow_rules(&t, &*old(self)) ==> #[trigger] types_follow_rules(&t, &*final(self)),
    {
        let ghost old_types = self.types.nodes();
        let size = type_symbol.get_size(self);
        let type_ref = self.types.alloc_node(type_symbol);
        let ghost types = self.types.nodes();
        proof {
            assert forall|i: int| 0 <= i < types.len() implies type_refs_below(#[trigger] types[i], i) by {
                if i < old_types.len() {
                    assert(types[i] == old_types[i]);
                }
            }
            lemma_size_at_prefix(types, old_types.len() as int);
            assert(size_at(types, old_types.len() as int) == size_of(old_types, type_symbol)) by {
                lemma_size_of_extends(old_types, type_symbol);
            }
        }
        if let Some(size) = size {
            self.type_sizes.insert(type_ref.to_index(), size);
        }
        proof {
            assert forall|k: usize| #[trigger] self.type_sizes@.contains_key(k) implies k < types.len() && size_at(
                types,
                k as int,
            ) == Some(self.type_sizes@[k]) by {
                if k != old_types.len() {
                    assert(types.take(old_types.len() as int) =~= old_types);
                    lemma_size_at_stable(old_types, types, k as int);
                }
            }
        }
        type_ref
    }

    pub fn alloc_var(&mut self, v: VarSymbol) -> (r: VarSymbolRef)
        requires
            old(self).wf(),
            v.spec_type_symbol().index_of() < old(self).types.nodes().len(),
        ensures
            final(self).wf(),
            final(self).vars.nodes() == old(self).vars.nodes().push(v),
            final(self).types == old(self).types,
            final(self).callables == old(self).callables,
            final(self).expr_type_map == old(self).expr_type_map,
            final(self).type_type_map == old(self).type_type_map,
            final(self).var_symbols == old(self).var_symbols,
            final(self).callable_symbols == old(self).callable_symbols,
            final(self).var_types == old(self).var_types,
            final(self).type_sizes == old(self).type_sizes,
            final(self).loop_var_symbols == old(self).loop_var_symbols,
            r.index_of() == old(self).vars.nodes().len(),
    {
        let ghost old_vars = self.vars.nodes();
        let r = self.vars.alloc_node(v);
        proof {
            let vars = self.vars.nodes();
            assert forall|i: int| 0 <= i < vars.len() implies (#[trigger] vars[i]).spec_type_symbol().index_of()
                < self.types.nodes().len() by {
                if i < old_vars.len() {
                    assert(vars[i] == old_vars[i]);
                }
            }
            assert forall|i: int| 0 <= i < self.callables.nodes().len() implies callable_ok(
                #[trigger] self.callables.nodes()[i],
                vars,
                self.types.nodes().len() as int,
            ) by {
                let c = self.callables.nodes()[i];
                assert(callable_ok(c, old_vars, self.types.nodes().len() as int));
                assert forall|k: int| 0 <= k < c.params@.len() implies (#[trigger] c.params@[k]).index_of()
                    < vars.len() && vars[c.params@[k].index_of() as int] is Var by {
                    assert(vars[c.params@[k].index_of() as int] == old_vars[c.params@[k].index_of() as int]);
                }
            }
        }
        r
    }

    pub fn alloc_callable(&mut self, c: CallableSymbol) -> (r: CallableSymbolRef)
        requires
            old(self).wf(),
            callable_ok(c, old(self).vars.nodes(), old(self).types.nodes().len() as int),
        ensures
            final(self).wf(),
            final(self).callables.nodes() == old(self).callables.nodes().push(c),
            final(self).types == old(self).types,
            final(self).vars == old(self).vars,
            final(self).expr_type_map == old(self).expr_type_map,
            final(self).type_type_map == old(self).type_type_map,
            final(self).var_symbols == old(self).var_symbols,
            final(self).callable_symbols == old(self).callable_symbols,
            final(self).var_types == old(self).var_types,
            final(self).type_sizes == old(self).type_sizes,
            final(self).loop_var_symbols == old(self).loop_var_symbols,
            r.index_of() == old(self).callables.nodes().len(),
    {
        let ghost old_c = self.callables.nodes();
        let r = self.callables.alloc_node(c);
        proof {
            let cs = self.callables.nodes();
            assert forall|i: int| 0 <= i < cs.len() implies callable_ok(
                #[trigger] cs[i],
                self.vars.nodes(),
                self.types.nodes().len() as int,
            ) by {
                if i < old_c.len() {
                    assert(cs[i] == old_c[i]);
                }
            }
        }
        r
    }

    fn set_expr_type(&mut self, e: ExprRef, t: TypeSymbolRef)
        requires
            old(self).wf(),
            t.index_of() < old(self).types.nodes().len(),
        ensures
            final(self).wf(),
            final(self).expr_type_map@ == old(self).expr_type_map@.insert(e.index_of() as usize, t),
            final(self).types == old(self).types,
            final(self).vars == old(self).vars,
            final(self).callables == old(self).callables,
            final(self).var_symbols == old(self).var_symbols,
            final(self).var_types == old(self).var_types,
            forall|tr: Tree|
                types_follow_rules(&tr, &*old(self)) && ((e.index_of() as int) < tr.expr_pool.nodes().len() ==> typing_rule(
                    tr.expr_pool.nodes()[e.index_of() as int],
                    old(self).types.nodes()[t.index_of() as int],
                )) ==> #[trigger] types_follow_rules(&tr, &*final(self)),
    {
        self.expr_type_map.insert(e.to_index(), t);
    }

    fn set_type_type(&mut self, n: TypeRef, t: TypeSymbolRef)
        requires
            old(self).wf(),
            t.index_of() < old(self).types.nodes().len(),
        ensures
            final(self).wf(),
            final(self).types == old(self).types,
            final(self).vars == old(self).vars,
            final(self).callables == old(self).callables,
            final(self).expr_type_map == old(self).expr_type_map,
            final(self).var_symbols == old(self).var_symbols,
            final(self).var_types == old(self).var_types,
            final(self).type_type_map@ == old(self).type_type_map@.insert(n.index_of() as usize, t),
    {
        self.type_type_map.insert(n.to_index(), t);
    }

    fn set_var_symbol(&mut self, e: ExprRef, v: VarSymbolRef)
        requires
            old(self).wf(),
            v.index_of() < old(self).vars.nodes().len(),
        ensures
            final(self).wf(),
            final(self).var_symbols@ == old(self).var_symbols@.insert(e.index_of() as usize, v),
            final(self).expr_type_map == old(self).expr_type_map,
            final(self).var_types == old(self).var_types,
            final(self).types == old(self).types,
            final(self).vars == old(self).vars,
            final(self).callables == old(self).callables,
    {
        self.var_symbols.insert(e.to_index(), v);
    }

    fn set_var_type(&mut self, e: ExprRef, loc: VarLocality)
        requires
            old(self).wf(),
        ensures
            final(self).wf(),
            final(self).var_symbols == old(self).var_symbols,
            final(self).expr_type_map == old(self).expr_type_map,
            final(self).var_types@ == old(self).var_types@.insert(e.index_of() as usize, loc),
            final(self).types == old(self).types,
            final(self).vars == old(self).vars,
            final(self).callables == old(self).callables,
    {
        self.var_types.insert(e.to_index(), loc);
    }

    fn set_loop_var(&mut self, s: StmtRef, v: VarSymbolRef, loc: VarLocality)
        requires
            old(self).wf(),
            v.index_of() < old(self).vars.nodes().len(),
        ensures
            final(self).wf(),
            final(self).types == old(self).types,
            final(self).vars == old(self).vars,
            final(self).callables == old(self).callables,
            final(self).expr_type_map == old(self).expr_type_map,
            final(self).var_symbols == old(self).var_symbols,
            final(self).var_types == old(self).var_types,
            final(self).loop_var_symbols@ == old(self).loop_var_symbols@.insert(s.index_of() as usize, v),
            final(self).loop_var_types@ == old(self).loop_var_types@.insert(s.index_of() as usize, loc),
    {
        self.loop_var_symbols.insert(s.to_index(), v);
        self.loop_var_types.insert(s.to_index(), loc);
    }

    fn set_callable_symbol(&mut self, e: ExprRef, c: CallableSymbolRef)
        requires
            old(self).wf(),
            c.index_of() < old(self).callables.nodes().len(),
        ensures
            final(self).wf(),
            final(self).types == old(self).types,
            final(self).vars == old(self).vars,
            final(self).callables == old(self).callables,
            final(self).expr_type_map == old(self).expr_type_map,
            final(self).var_symbols == old(self).var_symbols,
            final(self).var_types == old(self).var_types,
            final(self).callable_symbols@ == old(self).callable_symbols@.insert(e.index_of() as usize, c),
    {
        self.callable_symbols.insert(e.to_index(), c);
    }
}

proof fn lemma_size_at_stable(a: Seq<TypeSymbol>, b: Seq<TypeSymbol>, i: int)
    requires
        a.len() <= b.len(),
        b.take(a.len() as int) == a,
        0 <= i < a.len(),
    ensures
        size_at(b, i) == size_at(a, i),
    decreases i,
{
    assert(b[i] == a[i]) by {
        assert(b.take(a.len() as int)[i] == b[i]);
    }
    match a[i] {
        TypeSymbol::Range { range_type, .. } => {
            if range_type.index_of() < i {
                lemma_size_at_stable(a, b, range_type.index_of() as int);
            }
        },
        TypeSymbol::Array { value_type, .. } => {
            if value_type.index_of() < i {
                lemma_size_at_stable(a, b, value_type.index_of() as int);
            }
        },
        _ => {},
    }
}

proof fn lemma_size_at_prefix(b: Seq<TypeSymbol>, n: int)
    requires
        0 <= n <= b.len(),
    ensures
        forall|i: int| 0 <= i < n ==> size_at(b.take(n), i) == #[trigger] size_at(b, i),
{
    assert forall|i: int| 0 <= i < n implies size_at(b.take(n), i) == #[trigger] size_at(b, i) by {
        assert(b.take(n).len() == n);
        lemma_size_at_stable(b.take(n), b, i);
    }
}

proof fn lemma_size_of_extends(a: Seq<TypeSymbol>, t: TypeSymbol)
    requires
        type_refs_below(t, a.len() as int),
    ensures
        size_at(a.push(t), a.len() as int) == size_of(a, t),
{
    let b = a.push(t);
    assert(b.take(a.len() as int) =~= a);
    match t {
        TypeSymbol::Range { range_type, .. } => {
            lemma_size_at_stable(a, b, range_type.index_of() as int);
        },
        TypeSymbol::Array { value_type, .. } => {
            lemma_size_at_stable(a, b, value_type.index_of() as int);
        },
        _ => {},
    }
}

fn semantic_error(msg: String, pos: Pos, code: ErrorCode) -> (e: Error)
    ensures
        semantic_error_with(e, code),
        semantic_failure(e),
{
    Error::SemanticError { msg, pos, error_code: code }
}

/// Checks a program's tree: names are resolved in nested scopes, expressions
/// and type expressions get type symbols, and the rules of the language are
/// enforced; errors found in the declarations and statements of a block are
/// collected.
pub struct SemanticAnalyzer {
    semantic_metadata: SemanticMetadata,
    current_scope: Box<SymbolTable>,
    loop_depth: usize,
    /// A loop body failed: the analysis went on as if still inside that loop,
    /// so `break` and `continue` are no longer reported.
    unfinished_loop: bool,
}

proof fn lemma_grows_trans(c: &SemanticMetadata, b: &SemanticMetadata, a: &SemanticMetadata)
    requires
        b.grows_from(a),
        c.grows_from(b),
    ensures
        c.grows_from(a),
{
    assert(c.types.nodes().take(a.types.nodes().len() as int) =~= c.types.nodes().take(
        b.types.nodes().len() as int,
    ).take(a.types.nodes().len() as int));
    assert(c.vars.nodes().take(a.vars.nodes().len() as int) =~= c.vars.nodes().take(
        b.vars.nodes().len() as int,
    ).take(a.vars.nodes().len() as int));
    assert(c.callables.nodes().take(a.callables.nodes().len() as int) =~= c.callables.nodes().take(
        b.callables.nodes().len() as int,
    ).take(a.callables.nodes().len() as int));
}

proof fn lemma_grows_refl(a: &SemanticMetadata)
    ensures
        a.grows_from(a),
{
    assert(a.types.nodes().take(a.types.nodes().len() as int) =~= a.types.nodes());
    assert(a.vars.nodes().take(a.vars.nodes().len() as int) =~= a.vars.nodes());
    assert(a.callables.nodes().take(a.callables.nodes().len() as int) =~= a.callables.nodes());
}

impl SemanticAnalyzer {
    pub closed spec fn metadata(&self) -> SemanticMetadata {
        self.semantic_metadata
    }

    pub closed spec fn scope(&self) -> SymbolTable {
        *self.current_scope
    }

    pub closed spec fn spec_loop_depth(&self) -> usize {
        self.loop_depth
    }

    /// `break` and `continue` are reported here: no loop is entered, and no
    /// loop body failed before.
    pub closed spec fn outside_loops(&self) -> bool {
        self.loop_depth == 0 && !self.unfinished_loop
    }

    /// The metadata is well formed and the scopes refer into its pools.
    pub closed spec fn wf(&self) -> bool {
        let md = self.semantic_metadata;
        &&& md.wf()
        &&& self.current_scope.refs_within(
            md.types.nodes().len() as int,
            md.vars.nodes().len() as int,
            md.callables.nodes().len() as int,
        )
    }

    /// `self` went on from `old`: the pools grew, and the analysis is back in
    /// the same scope at the same loop depth.
    pub closed spec fn progress(&self, old: &SemanticAnalyzer) -> bool {
        &&& self.wf()
        &&& self.semantic_metadata.grows_from(&old.semantic_metadata)
        &&& self.loop_depth == old.loop_depth
        &&& (old.unfinished_loop ==> self.unfinished_loop)
        &&& self.current_scope.enclosing() == old.current_scope.enclosing()
        &&& self.current_scope.spec_scope_level() == old.current_scope.spec_scope_level()
    }

    /// Room to nest `s` more loops and scopes.
    pub closed spec fn room(&self, s: int) -> bool {
        &&& self.loop_depth + s + 2 <= usize::MAX
        &&& self.current_scope.spec_scope_level() + s + 2 <= usize::MAX
    }

    proof fn lemma_progress_trans(&self, mid: &SemanticAnalyzer, old: &SemanticAnalyzer)
        requires
            mid.progress(old),
            self.progress(mid),
        ensures
            self.progress(old),
    {
        lemma_grows_trans(&self.semantic_metadata, &mid.semantic_metadata, &old.semantic_metadata);
    }

    proof fn lemma_progress_refl(&self)
        requires
            self.wf(),
        ensures
            self.progress(self),
    {
        lemma_grows_refl(&self.semantic_metadata);
    }

    /// After the metadata grew in place, the scopes still refer into it.
    proof fn lemma_scope_still_within(&self, old: &SemanticAnalyzer)
        requires
            old.wf(),
            self.semantic_metadata.wf(),
            self.semantic_metadata.grows_from(&old.semantic_metadata),
            self.current_scope == old.current_scope,
        ensures
            self.wf(),
    {
        let o = old.semantic_metadata;
        let n = self.semantic_metadata;
        lemma_refs_within_grow(
            *self.current_scope,
            o.types.nodes().len() as int,
            o.vars.nodes().len() as int,
            o.callables.nodes().len() as int,
            n.types.nodes().len() as int,
            n.vars.nodes().len() as int,
            n.callables.nodes().len() as int,
        );
    }
}

/// The decimal digits of a count, as messages show it.
fn count_text(n: usize) -> (r: String)
    ensures
        r@ == decimal(n as nat),
{
    let mut s = String::new();
    push_decimal(&mut s, n as u64);
    proof {
        assert(s@ =~= decimal(n as nat));
    }
    s
}

/// The pieces `parts` one after the other.
pub open spec fn joined(parts: Seq<&str>) -> Seq<char>
    decreases parts.len(),
{
    if parts.len() == 0 {
        Seq::empty()
    } else {
        joined(parts.drop_last()) + parts.last()@
    }
}

/// Joins the pieces of a message.
fn text(parts: Vec<&str>) -> (r: String)
    ensures
        r@ == joined(parts@),
{
    let mut s = String::new();
    let mut i: usize = 0;
    proof {
        assert(parts@.take(0).len() == 0);
    }
    while i < parts.len()
        invariant
            i <= parts@.len(),
            s@ == joined(parts@.take(i as int)),
        decreases parts@.len() - i,
    {
        proof {
            assert(parts@.take(i as int + 1).drop_last() =~= parts@.take(i as int));
        }
        s.append(parts[i]);
        i = i + 1;
    }
    proof {
        assert(parts@.take(parts@.len() as int) =~= parts@);
    }
    s
}

/// The text of the message for the binary operator `op` applied to operands
/// of the types `l` and `r`.
pub open spec fn bin_op_text(op: TokenType, l: TypeSymbol, r: TypeSymbol) -> Seq<char> {
    let lt = type_symbol_debug_text(l);
    let rt = type_symbol_debug_text(r);
    match op {
        TokenType::IntegerDiv => "integer division is not supported for "@ + lt + " and "@ + rt,
        TokenType::Plus => "+ is not supported for "@ + lt + " and "@ + rt,
        TokenType::GreaterThen | TokenType::GreaterEqual | TokenType::LessEqual | TokenType::LessThen =>
            "compare operator is not supported for "@ + lt + " and "@ + rt,
        TokenType::And | TokenType::Or => "operator AND/OR is not supported for "@ + lt + " and "@ + rt,
        _ => "operator "@ + token_type_debug_text(op) + " is not supported for "@ + lt + " and "@ + rt,
    }
}

/// The message for a binary operator that does not apply to its operands.
fn bin_op_message(op: &TokenType, left: &TypeSymbol, right: &TypeSymbol) -> (m: String)
    ensures
        m@ == bin_op_text(*op, *left, *right),
{
    let l = type_symbol_debug(left);
    let r = type_symbol_debug(right);
    proof {
        reveal_with_fuel(joined, 7);
    }
    match op {
        TokenType::IntegerDiv => {
            let v = vec!["integer division is not supported for ", l.as_str(), " and ", r.as_str()];
            proof {
                assert(v@.drop_last().drop_last().drop_last().drop_last() =~= Seq::<&str>::empty());
            }
            text(v)
        },
        TokenType::Plus => {
            let v = vec!["+ is not supported for ", l.as_str(), " and ", r.as_str()];
            proof {
                assert(v@.drop_last().drop_last().drop_last().drop_last() =~= Seq::<&str>::empty());
            }
            text(v)
        },
        TokenType::GreaterThen | TokenType::GreaterEqual | TokenType::LessEqual | TokenType::LessThen => {
            let v = vec!["compare operator is not supported for ", l.as_str(), " and ", r.as_str()];
            proof {
                assert(v@.drop_last().drop_last().drop_last().drop_last() =~= Seq::<&str>::empty());
            }
            text(v)
        },
        TokenType::And | TokenType::Or => {
            let v = vec!["operator AND/OR is not supported for ", l.as_str(), " and ", r.as_str()];
            proof {
                assert(v@.drop_last().drop_last().drop_last().drop_last() =~= Seq::<&str>::empty());
            }
            text(v)
        },
        _ => {
            let o = token_type_debug(op);
            let v = vec!["operator ", o.as_str(), " is not supported for ", l.as_str(), " and ", r.as_str()];
            proof {
                assert(v@.drop_last().drop_last().drop_last().drop_last().drop_last().drop_last() =~= Seq::<&str>::empty());
            }
            text(v)
        },
    }
}

impl SemanticAnalyzer {
    /// Gives the expression `node` its type symbol.
    fn visit_expr(&mut self, node: ExprRef, tree: &Tree) -> (r: Result<TypeSymbolRef, Error>)
        requires
            types_follow_rules(tree, &old(self).semantic_metadata),
            old(self).wf(),
            tree.wf(),
            shapes_ok(tree),
            node.index_of() < tree.expr_pool.nodes().len(),
        ensures
            types_follow_rules(tree, &final(self).semantic_metadata),
            final(self).progress(old(self)),
            final(self).current_scope == old(self).current_scope,
            r matches Ok(t) ==> {
                &&& t.index_of() < final(self).semantic_metadata.types.nodes().len()
                &&& final(self).semantic_metadata.expr_type_map@.contains_key(node.index_of() as usize)
                &&& final(self).semantic_metadata.expr_type_map@[node.index_of() as usize] == t
                &&& (tree.expr_pool.nodes()[node.index_of() as int] is Var
                    ==> final(self).semantic_metadata.var_symbols@.contains_key(node.index_of() as usize))
                &&& typing_rule(
                    tree.expr_pool.nodes()[node.index_of() as int],
                    final(self).semantic_metadata.types.nodes()[t.index_of() as int],
                )
            },
            is_literal(tree.expr_pool.nodes()[node.index_of() as int]) ==> r is Ok,
            int_expr_in(tree, old(self).scope(), &old(self).semantic_metadata, node.index_of() as int) ==> (r matches Ok(
                t,
            ) && final(self).semantic_metadata.types.nodes()[t.index_of() as int] is Integer),
            int_cond_in(tree, old(self).scope(), &old(self).semantic_metadata, node.index_of() as int) ==> (r matches Ok(
                t,
            ) && final(self).semantic_metadata.types.nodes()[t.index_of() as int] is Boolean),
            int_expr_in(tree, old(self).scope(), &old(self).semantic_metadata, node.index_of() as int) && int_typed(
                tree,
                &old(self).semantic_metadata,
            ) ==> int_typed(tree, &final(self).semantic_metadata) && int_fragment_expr(
                tree,
                &final(self).semantic_metadata,
                node.index_of() as int,
            ),
            int_cond_in(tree, old(self).scope(), &old(self).semantic_metadata, node.index_of() as int) && int_typed(
                tree,
                &old(self).semantic_metadata,
            ) ==> int_typed(tree, &final(self).semantic_metadata) && int_fragment_cond(
                tree,
                &final(self).semantic_metadata,
                node.index_of() as int,
            ),
            tree.expr_pool.nodes()[node.index_of() as int] matches Expr::Var { name } ==> match old(
                self,
            ).scope().spec_lookup_var(lexeme_of(name, tree.source_code@), false) {
                Some((v, _)) => r == Ok::<TypeSymbolRef, Error>(
                    old(self).semantic_metadata.vars.nodes()[v.index_of() as int].spec_type_symbol(),
                ) && final(self).semantic_metadata.var_symbols@[node.index_of() as usize] == v,
                None => r matches Err(e) && semantic_error_with(e, ErrorCode::UnkownVariable),
            },
            typed(tree, old(self).scope(), &old(self).semantic_metadata, node.index_of() as int) matches Some(ty) ==> (
            r matches Ok(t) && final(self).semantic_metadata.types.nodes()[t.index_of() as int] == ty),
            call_free(tree, node.index_of() as int) && r is Ok ==> typed(
                tree,
                old(self).scope(),
                &old(self).semantic_metadata,
                node.index_of() as int,
            ) is Some,
            tree.expr_pool.nodes()[node.index_of() as int] matches Expr::BinOp { op, left, right } ==> ((typed(
                tree,
                old(self).scope(),
                &old(self).semantic_metadata,
                left.index_of() as int,
            ) matches Some(a) && typed(tree, old(self).scope(), &old(self).semantic_metadata, right.index_of() as int)
                matches Some(b) && bin_op_type(op, a, b) is None) ==> fails_with(r, ErrorCode::UnsupportedBinaryOperation)),
            tree.expr_pool.nodes()[node.index_of() as int] matches Expr::UnaryOp { op, expr } ==> ((typed(
                tree,
                old(self).scope(),
                &old(self).semantic_metadata,
                expr.index_of() as int,
            ) matches Some(a) && unary_op_type(op, a) is None) ==> fails_with(r, ErrorCode::UnsupportedUnaryOperator)),
            call_arg_types(tree, node.index_of() as int, old(self).scope(), &old(self).semantic_metadata) matches Some(
                (c, ats),
            ) ==> {
                let cs = old(self).semantic_metadata.callables.nodes()[c.index_of() as int];
                (arg_count_fits(cs, ats.len() as int) && args_fit(
                    final(self).semantic_metadata.types.nodes(),
                    final(self).semantic_metadata.vars.nodes(),
                    cs,
                    ats,
                )) ==> (if cs.return_type is None {
                    fails_with(r, ErrorCode::IncorrectUseOfProcedure)
                } else {
                    r == Ok::<TypeSymbolRef, Error>(cs.return_type->0)
                })
            },
            tree.expr_pool.nodes()[node.index_of() as int] matches Expr::Index { base, index_value, .. } ==> ((typed(
                tree,
                old(self).scope(),
                &old(self).semantic_metadata,
                base.index_of() as int,
            ) matches Some(bt) && typed(tree, old(self).scope(), &old(self).semantic_metadata, index_value.index_of() as int)
                is Some && !(bt is Array || bt is DynamicArray)) ==> fails_with(r, ErrorCode::IncorrectBaseType)),
            tree.expr_pool.nodes()[node.index_of() as int] matches Expr::Index { base, index_value, .. } ==> ((typed(
                tree,
                old(self).scope(),
                &old(self).semantic_metadata,
                index_value.index_of() as int,
            ) matches Some(it) && typed(tree, old(self).scope(), &old(self).semantic_metadata, base.index_of() as int)
                matches Some(TypeSymbol::Array { index_type, .. }) && !type_eq(
                final(self).semantic_metadata.types.nodes(),
                final(self).semantic_metadata.types.nodes()[index_type.index_of() as int],
                it,
            )) ==> fails_with(r, ErrorCode::IncorrectIndexType)),
            r matches Err(e) ==> semantic_failure(e),
        decreases 0int, 0int, node.index_of(), 1int,
    {
        let ghost start = *self;
        let ghost exprs = tree.expr_pool.nodes();
        let ghost n = node.index_of() as int;
        let ghost src_len = tree.source_code@.len() as int;
        proof {
            assert(expr_node_ok(exprs[n], n, src_len));
            self.lemma_progress_refl();
        }
        let pos = tree.node_pos(NodeRef::ExprRef(node));
        let type_symbol = match tree.expr_pool.get(node) {
            Expr::LiteralBool(_) => TypeSymbol::Boolean,
            Expr::LiteralChar(_) => TypeSymbol::Char,
            Expr::LiteralInteger(_) => TypeSymbol::Integer,
            Expr::LiteralReal(_) => TypeSymbol::Real,
            Expr::LiteralString(_) => TypeSymbol::String,
            Expr::Var { name } => {
                let lexeme = name.lexem(tree.source_code);
                let found = self.current_scope.lookup_var(lexeme, false);
                proof {
                    let md = self.semantic_metadata;
                    lemma_lookups_within(
                        *self.current_scope,
                        lexeme@,
                        false,
                        self.current_scope.own_locality(),
                        md.types.nodes().len() as int,
                        md.vars.nodes().len() as int,
                        md.callables.nodes().len() as int,
                    );
                }
                match found {
                    None => {
                        return Err(semantic_error(text(vec!["var ", lexeme, " is unkown"]), pos, ErrorCode::UnkownVariable));
                    },
                    Some((vref, kind)) => {
                        self.semantic_metadata.set_var_type(node, kind);
                        self.semantic_metadata.set_var_symbol(node, vref);
                        let t = self.semantic_metadata.vars.get(vref).type_symbol();
                        self.semantic_metadata.set_expr_type(node, t);
                        proof {
                            lemma_grows_refl(&self.semantic_metadata);
                        }
                        return Ok(t);
                    },
                }
            },
            Expr::BinOp { op, left, right } => {
                let lt = self.visit_expr(*left, tree)?;
                proof {
                    lemma_typed_grows(
                        tree,
                        start.scope(),
                        &start.semantic_metadata,
                        &self.semantic_metadata,
                        right.index_of() as int,
                    );
                    if int_expr_in(tree, start.scope(), &start.semantic_metadata, n) || int_cond_in(
                        tree,
                        start.scope(),
                        &start.semantic_metadata,
                        n,
                    ) {
                        lemma_int_expr_grows(
                            tree,
                            start.scope(),
                            &start.semantic_metadata,
                            &self.semantic_metadata,
                            right.index_of() as int,
                        );
                    }
                }
                let ghost mid = *self;
                let rt = match self.visit_expr(*right, tree) {
                    Ok(t) => t,
                    Err(e) => {
                        proof {
                            self.lemma_progress_trans(&mid, &start);
                        }
                        return Err(e);
                    },
                };
                proof {
                    self.lemma_progress_trans(&mid, &start);
                    lemma_type_pool_stable(&mid.semantic_metadata, &self.semantic_metadata, lt.index_of() as int);
                    if (int_expr_in(tree, start.scope(), &start.semantic_metadata, n) || int_cond_in(
                        tree,
                        start.scope(),
                        &start.semantic_metadata,
                        n,
                    )) && int_typed(tree, &start.semantic_metadata) {
                        lemma_fragment_expr_stays(tree, &mid.semantic_metadata, &self.semantic_metadata, left.index_of() as int);
                    }
                }
                let left_type = self.semantic_metadata.types.get(lt);
                let right_type = self.semantic_metadata.types.get(rt);
                proof {
                    assert(is_bin_op(*op));
                }
                match bin_op_result(op, left_type, right_type) {
                    Some(t) => {
                        proof {
                            assert(bin_op_type(*op, *left_type, *right_type) == Some(t));
                        }
                        t
                    },
                    None => {
                        return Err(
                            semantic_error(
                                bin_op_message(op, left_type, right_type),
                                pos,
                                ErrorCode::UnsupportedBinaryOperation,
                            ),
                        );
                    },
                }
            },
            Expr::UnaryOp { op, expr } => {
                let et = self.visit_expr(*expr, tree)?;
                let expr_type = self.semantic_metadata.types.get(et);
                match unary_op_result(op, expr_type) {
                    Some(t) => {
                        proof {
                            assert(unary_op_type(*op, *expr_type) == Some(t));
                        }
                        t
                    },
                    None => {
                        let o = debug_text(op);
                        let t = debug_text(expr_type);
                        return Err(
                            semantic_error(
                                text(vec!["unary operator ", o.as_str(), " is not applicable for ", t.as_str()]),
                                pos,
                                ErrorCode::UnsupportedUnaryOperator,
                            ),
                        );
                    },
                }
            },
            Expr::Call { .. } => {
                let found = self.visit_callable(node, tree)?;
                match found {
                    None => {
                        return Err(
                            semantic_error(
                                String::from_str("procedure cannot be used in an expression"),
                                pos,
                                ErrorCode::IncorrectUseOfProcedure,
                            ),
                        );
                    },
                    Some(t) => {
                        let ghost mid = *self;
                        self.semantic_metadata.set_expr_type(node, t);
                        proof {
                            lemma_grows_refl(&mid.semantic_metadata);
                            lemma_grows_trans(&self.semantic_metadata, &mid.semantic_metadata, &start.semantic_metadata);
                        }
                        return Ok(t);
                    },
                }
            },
            Expr::Index { base, index_value, .. } => {
                let it = self.visit_expr(*index_value, tree)?;
                let ghost mid = *self;
                proof {
                    lemma_typed_grows(tree, start.scope(), &start.semantic_metadata, &self.semantic_metadata, base.index_of() as int);
                }
                let vt = match self.visit_expr(*base, tree) {
                    Ok(t) => t,
                    Err(e) => {
                        proof {
                            self.lemma_progress_trans(&mid, &start);
                        }
                        return Err(e);
                    },
                };
                proof {
                    self.lemma_progress_trans(&mid, &start);
                    lemma_type_pool_stable(&mid.semantic_metadata, &self.semantic_metadata, it.index_of() as int);
                }
                let types = &self.semantic_metadata.types;
                let actual = types.get(it);
                let var_type = types.get(vt);
                proof {
                    assert(type_refs_below(types.nodes()[vt.index_of() as int], vt.index_of() as int));
                    assert(type_refs_below(types.nodes()[it.index_of() as int], it.index_of() as int));
                }
                let base_type_ref = match var_type {
                    TypeSymbol::Array { index_type, value_type, .. } => {
                        let index_ty = types.get(*index_type);
                        proof {
                            assert(type_refs_below(types.nodes()[index_type.index_of() as int], index_type.index_of() as int));
                        }
                        if !TypeSymbol::eq(types, index_ty, actual) {
                            let a = debug_text(index_ty);
                            let b = debug_text(actual);
                            return Err(
                                semantic_error(
                                    text(vec!["expected ", a.as_str(), " as index, got ", b.as_str()]),
                                    pos,
                                    ErrorCode::IncorrectIndexType,
                                ),
                            );
                        }
                        *value_type
                    },
                    TypeSymbol::DynamicArray(v) => {
                        let a = match actual {
                            TypeSymbol::Range { range_type, .. } => types.get(*range_type),
                            _ => actual,
                        };
                        if !matches!(a, TypeSymbol::Integer) {
                            let b = debug_text(a);
                            return Err(
                                semantic_error(
                                    text(vec!["dynamic array index should be integer, got ", b.as_str()]),
                                    pos,
                                    ErrorCode::IncorrectIndexType,
                                ),
                            );
                        }
                        *v
                    },
                    _ => {
                        let b = debug_text(var_type);
                        return Err(
                            semantic_error(
                                text(vec!["base of indexable should be array, got ", b.as_str()]),
                                pos,
                                ErrorCode::IncorrectBaseType,
                            ),
                        );
                    },
                };
                let ghost mid2 = *self;
                self.semantic_metadata.set_expr_type(node, base_type_ref);
                proof {
                    lemma_grows_refl(&mid2.semantic_metadata);
                    lemma_grows_trans(&self.semantic_metadata, &mid2.semantic_metadata, &start.semantic_metadata);
                }
                return Ok(base_type_ref);
            },
        };
        let ghost mid = *self;
        let ghost sym = type_symbol;
        let t = self.semantic_metadata.alloc_type(type_symbol);
        self.semantic_metadata.set_expr_type(node, t);
        proof {
            assert(self.semantic_metadata.types.nodes().take(mid.semantic_metadata.types.nodes().len() as int)
                =~= mid.semantic_metadata.types.nodes());
            lemma_grows_refl(&mid.semantic_metadata);
            lemma_grows_trans(&self.semantic_metadata, &mid.semantic_metadata, &start.semantic_metadata);
            self.lemma_scope_still_within(&start);
            if (int_expr_in(tree, start.scope(), &start.semantic_metadata, n) || int_cond_in(
                tree,
                start.scope(),
                &start.semantic_metadata,
                n,
            )) && int_typed(tree, &start.semantic_metadata) {
                lemma_int_typed_set(tree, &mid.semantic_metadata, &self.semantic_metadata, n, t, sym);
                if let Expr::BinOp { left, right, .. } = exprs[n] {
                    lemma_fragment_expr_stays(tree, &mid.semantic_metadata, &self.semantic_metadata, left.index_of() as int);
                    lemma_fragment_expr_stays(tree, &mid.semantic_metadata, &self.semantic_metadata, right.index_of() as int);
                }
            }
        }
        Ok(t)
    }

    /// Resolves the callable of the call expression `node` and checks its
    /// arguments; the callable's return type, none for a procedure.
    fn visit_callable(&mut self, node: ExprRef, tree: &Tree) -> (r: Result<Option<TypeSymbolRef>, Error>)
        requires
            types_follow_rules(tree, &old(self).semantic_metadata),
            old(self).wf(),
            tree.wf(),
            shapes_ok(tree),
            node.index_of() < tree.expr_pool.nodes().len(),
            tree.expr_pool.nodes()[node.index_of() as int] is Call,
        ensures
            types_follow_rules(tree, &final(self).semantic_metadata),
            final(self).progress(old(self)),
            final(self).current_scope == old(self).current_scope,
            r matches Ok(Some(t)) ==> t.index_of() < final(self).semantic_metadata.types.nodes().len(),
            r matches Err(e) ==> semantic_failure(e),
            (tree.expr_pool.nodes()[node.index_of() as int] matches Expr::Call { name, .. } && old(
                self,
            ).scope().spec_lookup_callable(lexeme_of(name, tree.source_code@), false) is None) ==> (r matches Err(e)
                && semantic_error_with(e, ErrorCode::UnkownCallable)),
            call_arg_types(tree, node.index_of() as int, old(self).scope(), &old(self).semantic_metadata) matches Some(
                (c, ats),
            ) ==> {
                let cs = old(self).semantic_metadata.callables.nodes()[c.index_of() as int];
                &&& !arg_count_fits(cs, ats.len() as int) ==> fails_with(r, ErrorCode::IncorrectNumberOfArguments)
                &&& arg_count_fits(cs, ats.len() as int) ==> (r is Ok <==> args_fit(
                    final(self).semantic_metadata.types.nodes(),
                    final(self).semantic_metadata.vars.nodes(),
                    cs,
                    ats,
                ))
                &&& r is Ok ==> r == Ok::<Option<TypeSymbolRef>, Error>(cs.return_type)
                    && final(self).semantic_metadata.callable_symbols@[node.index_of() as usize] == c
            },
        decreases 0int, 0int, node.index_of(), 0int,
    {
        let ghost start = *self;
        let ghost exprs = tree.expr_pool.nodes();
        let ghost n = node.index_of() as int;
        let ghost src_len = tree.source_code@.len() as int;
        proof {
            assert(expr_node_ok(exprs[n], n, src_len));
            self.lemma_progress_refl();
        }
        let pos = tree.node_pos(NodeRef::ExprRef(node));
        let (name, args) = match tree.expr_pool.get(node) {
            Expr::Call { name, args } => (name, args),
            _ => {
                return Ok(None);
            },
        };
        proof {
            assert(exprs[n] == (Expr::Call { name: *name, args: *args }));
            assert(forall|j: int| 0 <= j < args@.len() ==> (#[trigger] args@[j]).index_of() < n);
        }
        let lexeme = name.lexem(tree.source_code);
        let found = self.current_scope.lookup_callable(lexeme, false);
        proof {
            let md = self.semantic_metadata;
            lemma_lookups_within(
                *self.current_scope,
                lexeme@,
                false,
                VarLocality::Global,
                md.types.nodes().len() as int,
                md.vars.nodes().len() as int,
                md.callables.nodes().len() as int,
            );
        }
        let callable_ref = match found {
            Some(c) => c,
            None => {
                return Err(
                    semantic_error(text(vec!["could not find callable ", lexeme]), pos, ErrorCode::UnkownCallable),
                );
            },
        };
        let mut arg_types: Vec<TypeSymbolRef> = Vec::new();
        let mut k: usize = 0;
        while k < args.len()
            invariant
                old(self).scope().spec_lookup_callable(lexeme_of(*name, tree.source_code@), false) is Some,
                tree.expr_pool.nodes()[node.index_of() as int] == (Expr::Call { name: *name, args: *args }),
                types_follow_rules(tree, &self.semantic_metadata),
                tree.wf(),
                shapes_ok(tree),
                exprs == tree.expr_pool.nodes(),
                0 <= n < exprs.len(),
                forall|j: int| 0 <= j < args@.len() ==> (#[trigger] args@[j]).index_of() < n,
                n == node.index_of(),
                start == *old(self),
                k <= args@.len(),
                arg_types@.len() == k,
                self.progress(&start),
                self.current_scope == start.current_scope,
                callable_ref.index_of() < start.semantic_metadata.callables.nodes().len(),
                start.scope().spec_lookup_callable(lexeme_of(*name, tree.source_code@), false) == Some(callable_ref),
                start.wf(),
                forall|j: int| 0 <= j < k ==> (#[trigger] arg_types@[j]).index_of() < self.semantic_metadata.types.nodes().len(),
                forall|j: int|
                    0 <= j < k ==> (typed(tree, start.scope(), &start.semantic_metadata, args@[j].index_of() as int) matches Some(
                        t,
                    ) ==> self.semantic_metadata.types.nodes()[(#[trigger] arg_types@[j]).index_of() as int] == t),
            decreases args@.len() - k,
        {
            let ghost before = *self;
            proof {
                lemma_typed_grows(tree, start.scope(), &start.semantic_metadata, &self.semantic_metadata, args@[k as int].index_of() as int);
            }
            let t = match self.visit_expr(args[k], tree) {
                Ok(t) => t,
                Err(e) => {
                    proof {
                        self.lemma_progress_trans(&before, &start);
                    }
                    return Err(e);
                },
            };
            proof {
                self.lemma_progress_trans(&before, &start);
                assert forall|j: int| 0 <= j < k implies before.semantic_metadata.types.nodes()[(#[trigger] arg_types@[j]).index_of() as int]
                    == self.semantic_metadata.types.nodes()[arg_types@[j].index_of() as int] by {
                    lemma_type_pool_stable(&before.semantic_metadata, &self.semantic_metadata, arg_types@[j].index_of() as int);
                }
            }
            arg_types.push(t);
            k = k + 1;
        }
        let ghost md = self.semantic_metadata;
        proof {
            assert(md.callables.nodes().take(start.semantic_metadata.callables.nodes().len() as int)[callable_ref.index_of() as int]
                == md.callables.nodes()[callable_ref.index_of() as int]);
            assert(callable_ok(md.callables.nodes()[callable_ref.index_of() as int], md.vars.nodes(), md.types.nodes().len() as int));
        }
        let callable = self.semantic_metadata.callables.get(callable_ref);
        proof {
            assert(start.semantic_metadata.callables.nodes()[callable_ref.index_of() as int] == *callable);
            if let Some((c, ats)) = call_arg_types(tree, n, start.scope(), &start.semantic_metadata) {
                assert(c == callable_ref);
                assert(ats.len() == arg_types@.len());
                assert forall|j: int| 0 <= j < ats.len() implies #[trigger] ats[j] == md.types.nodes()[arg_types@[j].index_of() as int] by {
                    assert(typed(tree, start.scope(), &start.semantic_metadata, args@[j].index_of() as int) is Some);
                }
            }
        }
        let return_type = callable.return_type;
        let arg_count = arg_types.len();
        let param_count = callable.params.len();
        match callable.param_input_mode {
            ParamInputMode::Sequence => {
                if param_count != args.len() {
                    let a = count_text(param_count);
                    let b = count_text(arg_count);
                    return Err(
                        semantic_error(
                            text(vec!["function ", lexeme, " expected ", a.as_str(), " arguments, but got ", b.as_str()]),
                            pos,
                            ErrorCode::IncorrectNumberOfArguments,
                        ),
                    );
                }
            },
            ParamInputMode::Repeat => {
                if param_count > 0 && arg_count % param_count != 0 {
                    let a = count_text(param_count);
                    return Err(
                        semantic_error(
                            text(
                                vec![
                                    "function ",
                                    lexeme,
                                    " accepts ",
                                    a.as_str(),
                                    " arguements any amount of times, but number of provided arguments does not fit",
                                ],
                            ),
                            pos,
                            ErrorCode::IncorrectNumberOfArguments,
                        ),
                    );
                }
            },
        }
        let mut errs: Vec<Error> = Vec::new();
        if param_count > 0 {
            let mut i: usize = 0;
            while i < arg_count
                invariant
                    old(self).scope().spec_lookup_callable(lexeme_of(*name, tree.source_code@), false) is Some,
                    tree.expr_pool.nodes()[node.index_of() as int] == (Expr::Call { name: *name, args: *args }),
                    types_follow_rules(tree, &md),
                    md == self.semantic_metadata,
                    md.wf(),
                    *callable == md.callables.nodes()[callable_ref.index_of() as int],
                    callable_ok(*callable, md.vars.nodes(), md.types.nodes().len() as int),
                    param_count == callable.params@.len(),
                    param_count > 0,
                    arg_count == arg_types@.len(),
                    i <= arg_count,
                    forall|j: int| 0 <= j < arg_count ==> (#[trigger] arg_types@[j]).index_of() < md.types.nodes().len(),
                    forall|j: int| 0 <= j < errs@.len() ==> semantic_failure(#[trigger] errs@[j]),
                    errs@.len() == 0 <==> forall|j: int|
                        0 <= j < i ==> #[trigger] arg_fits(
                            md.types.nodes(),
                            md.vars.nodes(),
                            *callable,
                            j,
                            md.types.nodes()[arg_types@[j].index_of() as int],
                        ),
                decreases arg_count - i,
            {
                let ghost e0 = errs@.len();
                let p = callable.params[i % param_count];
                let types = &self.semantic_metadata.types;
                let expr_type = types.get(arg_types[i]);
                let var_symbol = self.semantic_metadata.vars.get(p);
                proof {
                    assert(md.vars.nodes()[p.index_of() as int].spec_type_symbol().index_of() < md.types.nodes().len());
                    assert(type_refs_below(md.types.nodes()[arg_types@[i as int].index_of() as int], arg_types@[i as int].index_of() as int));
                }
                match var_symbol {
                    VarSymbol::Var { type_symbol, pass_mode, .. } => {
                        let param_type = types.get(*type_symbol);
                        proof {
                            assert(type_refs_below(md.types.nodes()[type_symbol.index_of() as int], type_symbol.index_of() as int));
                        }
                        let by_ref = matches!(pass_mode, VarPassMode::Ref);
                        if by_ref && !TypeSymbol::eq(types, param_type, expr_type) || !assinable(types, param_type, expr_type) {
                            let a = debug_text(param_type);
                            let b = debug_text(expr_type);
                            errs.push(
                                semantic_error(
                                    text(vec!["parameter should be of type ", a.as_str(), ", got ", b.as_str()]),
                                    pos,
                                    ErrorCode::IncorrectType,
                                ),
                            );
                        }
                    },
                    VarSymbol::Const { .. } => {},
                }
                proof {
                    let fi = arg_fits(
                        md.types.nodes(),
                        md.vars.nodes(),
                        *callable,
                        i as int,
                        md.types.nodes()[arg_types@[i as int].index_of() as int],
                    );
                    assert(fi <==> errs@.len() == e0);
                    if errs@.len() == 0 {
                        assert forall|j: int| 0 <= j < i + 1 implies #[trigger] arg_fits(
                            md.types.nodes(),
                            md.vars.nodes(),
                            *callable,
                            j,
                            md.types.nodes()[arg_types@[j].index_of() as int],
                        ) by {}
                    }
                }
                i = i + 1;
            }
        }
        proof {
            if let Some((c, ats)) = call_arg_types(tree, n, start.scope(), &start.semantic_metadata) {
                if param_count > 0 {
                    assert(args_fit(md.types.nodes(), md.vars.nodes(), *callable, ats) <==> errs@.len() == 0) by {
                        if errs@.len() == 0 {
                            assert forall|j: int| 0 <= j < ats.len() implies #[trigger] arg_fits(
                                md.types.nodes(),
                                md.vars.nodes(),
                                *callable,
                                j,
                                ats[j],
                            ) by {
                                assert(ats[j] == md.types.nodes()[arg_types@[j].index_of() as int]);
                            }
                        } else {
                            assert(!(forall|j: int| 0 <= j < arg_count ==> #[trigger] arg_fits(
                                md.types.nodes(),
                                md.vars.nodes(),
                                *callable,
                                j,
                                md.types.nodes()[arg_types@[j].index_of() as int],
                            )));
                            let j = choose|j: int| 0 <= j < arg_count && !arg_fits(
                                md.types.nodes(),
                                md.vars.nodes(),
                                *callable,
                                j,
                                md.types.nodes()[arg_types@[j].index_of() as int],
                            );
                            assert(ats[j] == md.types.nodes()[arg_types@[j].index_of() as int]);
                            assert(!arg_fits(md.types.nodes(), md.vars.nodes(), *callable, j, ats[j]));
                        }
                    }
                }
            }
        }
        let ghost ev = errs@;
        let res = Errors::new(errs).into_result();
        proof {
            lemma_combined_semantic(ev, res);
        }
        if let Err(e) = res {
            return Err(e);
        }
        let ghost mid = *self;
        self.semantic_metadata.set_callable_symbol(node, callable_ref);
        proof {
            lemma_grows_refl(&mid.semantic_metadata);
            lemma_grows_trans(&self.semantic_metadata, &mid.semantic_metadata, &start.semantic_metadata);
            self.lemma_scope_still_within(&start);
        }
        Ok(return_type)
    }
}

/// A type symbol already in the pool stays the same as the pool grows.
proof fn lemma_type_pool_stable(a: &SemanticMetadata, b: &SemanticMetadata, i: int)
    requires
        b.grows_from(a),
        0 <= i < a.types.nodes().len(),
    ensures
        b.types.nodes()[i] == a.types.nodes()[i],
{
    assert(b.types.nodes().take(a.types.nodes().len() as int)[i] == b.types.nodes()[i]);
}

/// The first position of `x` in `names[i..]`.
pub open spec fn position_of(names: Seq<Seq<char>>, x: Seq<char>, i: int) -> Option<int>
    decreases names.len() - i,
{
    if i < 0 || i >= names.len() {
        None
    } else if names[i] == x {
        Some(i)
    } else {
        position_of(names, x, i + 1)
    }
}

/// The ordinal rank of a range bound written as `e`, for a bound of type
/// `t`: an integer literal is its value, a character literal its code, a
/// boolean literal 0 or 1, and the name of an enumeration's value its
/// position among the enumeration's names. Nothing else has a rank.
pub open spec fn ordinal_rank_of(t: TypeSymbol, e: Expr, src: Seq<char>) -> Option<i32> {
    match (t, e) {
        (TypeSymbol::Enum(vals), Expr::Var { name }) => match position_of(names_view(vals@), lexeme_of(name, src), 0) {
            Some(k) => Some(k as i32),
            None => None,
        },
        (TypeSymbol::Integer, Expr::LiteralInteger(i)) => Some(i),
        (TypeSymbol::Char, Expr::LiteralChar(c)) => Some(c as i32),
        (TypeSymbol::Boolean, Expr::LiteralBool(b)) => Some(if b { 1i32 } else { 0i32 }),
        _ => None,
    }
}

/// The type symbol `sym` a type expression like `ty` of `tree` stands for,
/// with `types` the type symbols: a base type its own symbol, an enumeration
/// the names of its items, an array the limits of its index range, a range
/// the ranks of its limits in the type of its start.
pub open spec fn type_rule(tree: &Tree, ty: Type, sym: TypeSymbol, types: Seq<TypeSymbol>) -> bool {
    match ty {
        Type::Integer => sym is Integer,
        Type::Real => sym is Real,
        Type::Boolean => sym is Boolean,
        Type::Char => sym is Char,
        Type::String => sym is String,
        Type::Enum { items } => sym matches TypeSymbol::Enum(names) && names@.len() == items@.len() && forall|j: int|
            0 <= j < items@.len() ==> (#[trigger] names@[j])@ == lexeme_of(items@[j], tree.source_code@),
        Type::Array { .. } => sym matches TypeSymbol::Array { start_ord_index, end_ord_index, index_type, .. }
            && types[index_type.index_of() as int] matches TypeSymbol::Range { start_ord_index: s, end_ord_index: e, .. }
            && s == start_ord_index && e == end_ord_index,
        Type::DynamicArray { .. } => sym is DynamicArray,
        Type::Range { start_val, end_val } => sym matches TypeSymbol::Range { start_ord_index, end_ord_index, range_type }
            && ordinal_rank_of(types[range_type.index_of() as int], tree.expr_pool.nodes()[start_val.index_of() as int], tree.source_code@)
            == Some(start_ord_index) && ordinal_rank_of(
            types[range_type.index_of() as int],
            tree.expr_pool.nodes()[end_val.index_of() as int],
            tree.source_code@,
        ) == Some(end_ord_index),
        Type::Alias(_) => true,
    }
}

fn ordinal_rank(t: &TypeSymbol, e: &Expr, src: &str) -> (r: Option<i32>)
    requires
        e matches Expr::Var { name } ==> name.spec_span().spec_end() <= src@.len(),
        src@.len() <= usize::MAX,
    ensures
        r == ordinal_rank_of(*t, *e, src@),
{
    match (t, e) {
        (TypeSymbol::Enum(vals), Expr::Var { name }) => {
            let x = name.lexem(src);
            let ghost names = names_view(vals@);
            let mut k: usize = 0;
            while k < vals.len()
                invariant
                    names == names_view(vals@),
                    *t == TypeSymbol::Enum(*vals),
                    *e == (Expr::Var { name: *name }),
                    x@ == lexeme_of(*name, src@),
                    k <= vals@.len(),
                    position_of(names, x@, 0) == position_of(names, x@, k as int),
                decreases vals@.len() - k,
            {
                proof {
                    assert(names[k as int] == vals@[k as int]@);
                }
                if str_equal(vals[k].as_str(), x) {
                    proof {
                        assert(position_of(names, x@, k as int) == Some(k as int));
                    }
                    return Some(#[verifier::truncate] (k as i32));
                }
                k = k + 1;
            }
            None
        },
        (TypeSymbol::Integer, Expr::LiteralInteger(i)) => Some(*i),
        (TypeSymbol::Char, Expr::LiteralChar(c)) => Some((*c as u32) as i32),
        (TypeSymbol::Boolean, Expr::LiteralBool(b)) => Some(if *b { 1i32 } else { 0i32 }),
        _ => None,
    }
}

impl SemanticAnalyzer {
    /// Gives the type expression `node` its type symbol; the names of an
    /// enumeration become constants of the current scope.
    fn visit_type(&mut self, node: TypeRef, tree: &Tree) -> (r: Result<TypeSymbolRef, Error>)
        requires
            types_follow_rules(tree, &old(self).semantic_metadata),
            old(self).wf(),
            tree.wf(),
            shapes_ok(tree),
            node.index_of() < tree.type_pool.nodes().len(),
        ensures
            types_follow_rules(tree, &final(self).semantic_metadata),
            final(self).progress(old(self)),
            r matches Ok(t) ==> t.index_of() < final(self).semantic_metadata.types.nodes().len(),
            r matches Ok(t) ==> type_rule(
                tree,
                tree.type_pool.nodes()[node.index_of() as int],
                final(self).semantic_metadata.types.nodes()[t.index_of() as int],
                final(self).semantic_metadata.types.nodes(),
            ),
            r matches Ok(t) ==> (tree.type_pool.nodes()[node.index_of() as int] matches Type::Alias(v) ==> Some(t)
                == old(self).scope().spec_lookup_type(lexeme_of(v, tree.source_code@), false)),
            builtin_type_symbol(tree.type_pool.nodes()[node.index_of() as int]) is Some ==> r is Ok
                && final(self).current_scope == old(self).current_scope,
            tree.type_pool.nodes()[node.index_of() as int] is Integer && int_typed(tree, &old(self).semantic_metadata)
                ==> int_typed(tree, &final(self).semantic_metadata),
            (tree.type_pool.nodes()[node.index_of() as int] matches Type::Alias(v) && old(self).scope().spec_lookup_type(
                lexeme_of(v, tree.source_code@),
                false,
            ) is None) ==> (r matches Err(e) && semantic_error_with(e, ErrorCode::UnkownType)),
            (tree.type_pool.nodes()[node.index_of() as int] is Integer || tree.type_pool.nodes()[node.index_of() as int] is Real
                || tree.type_pool.nodes()[node.index_of() as int] is Boolean || tree.type_pool.nodes()[node.index_of() as int] is Char
                || tree.type_pool.nodes()[node.index_of() as int] is String) ==> r is Ok,
            !(tree.type_pool.nodes()[node.index_of() as int] is Enum) ==> (r matches Ok(t) ==> {
                let m = final(self).semantic_metadata.type_type_map@;
                m.contains_key(node.index_of() as usize) && m[node.index_of() as usize] == t
            }),
            range_limit_types(tree, node.index_of() as int, old(self).scope(), &old(self).semantic_metadata) matches Some(
                (a, b),
            ) ==> match range_outcome(
                tree,
                tree.type_pool.nodes()[node.index_of() as int],
                old(self).semantic_metadata.types.nodes(),
                a,
                b,
            ) {
                Some(code) => fails_with(r, code),
                None => r is Ok,
            },
            r matches Err(e) ==> semantic_failure(e),
        decreases 0int, 1int, node.index_of(), 0int,
    {
        let ghost start = *self;
        let ghost ts = tree.type_pool.nodes();
        let ghost n = node.index_of() as int;
        let ghost src_len = tree.source_code@.len() as int;
        proof {
            assert(type_node_ok(ts[n], n, tree.expr_pool.nodes().len() as int, src_len));
            self.lemma_progress_refl();
        }
        let pos = tree.node_pos(NodeRef::TypeRef(node));
        let type_symbol = match tree.type_pool.get(node) {
            Type::Integer => TypeSymbol::Integer,
            Type::Real => TypeSymbol::Real,
            Type::Boolean => TypeSymbol::Boolean,
            Type::Char => TypeSymbol::Char,
            Type::String => TypeSymbol::String,
            Type::Enum { items } => {
                let mut names: Vec<String> = Vec::new();
                let mut k: usize = 0;
                while k < items.len()
                    invariant
                        types_follow_rules(tree, &self.semantic_metadata),
                        k <= items@.len(),
                        forall|j: int| 0 <= j < items@.len() ==> token_in(#[trigger] items@[j], src_len),
                        src_len == tree.source_code@.len(),
                        src_len <= 0x7fff_fff0,
                        names@.len() == k,
                        forall|j: int| 0 <= j < k ==> (#[trigger] names@[j])@ == lexeme_of(items@[j], tree.source_code@),
                    decreases items@.len() - k,
                {
                    names.push(String::from_str(items[k].lexem(tree.source_code)));
                    k = k + 1;
                }
                let ghost enum_symbol = TypeSymbol::Enum(names);
                let type_symbol_ref = self.semantic_metadata.alloc_type(TypeSymbol::Enum(names));
                let ghost types_now = self.semantic_metadata.types.nodes();
                proof {
                    assert(self.semantic_metadata.types.nodes().take(start.semantic_metadata.types.nodes().len() as int)
                        =~= start.semantic_metadata.types.nodes());
                    lemma_grows_refl(&start.semantic_metadata);
                    self.lemma_scope_still_within(&start);
                }
                let mut errs: Vec<Error> = Vec::new();
                let mut i: usize = 0;
                while i < items.len()
                    invariant
                        types_follow_rules(tree, &self.semantic_metadata),
                        i <= items@.len(),
                        forall|j: int| 0 <= j < items@.len() ==> token_in(#[trigger] items@[j], src_len),
                        src_len == tree.source_code@.len(),
                        src_len <= 0x7fff_fff0,
                        self.progress(&start),
                        start == *old(self),
                        type_symbol_ref.index_of() < self.semantic_metadata.types.nodes().len(),
                        self.semantic_metadata.types.nodes() == types_now,
                        types_now[type_symbol_ref.index_of() as int] == enum_symbol,
                        forall|j: int| 0 <= j < errs@.len() ==> semantic_failure(#[trigger] errs@[j]),
                    decreases items@.len() - i,
                {
                    let item = items[i].lexem(tree.source_code);
                    if self.current_scope.lookup_var(item, false).is_some() {
                        errs.push(
                            semantic_error(
                                text(vec!["enum value share the same name with a const value ", item]),
                                pos,
                                ErrorCode::DuplicateVarDefinition,
                            ),
                        );
                    } else {
                        let ghost before = *self;
                        let c = self.semantic_metadata.alloc_var(
                            VarSymbol::Const { value: ConstValue::Integer(i as i32), type_symbol: type_symbol_ref },
                        );
                        proof {
                            assert(self.semantic_metadata.vars.nodes().take(before.semantic_metadata.vars.nodes().len() as int)
                                =~= before.semantic_metadata.vars.nodes());
                            lemma_grows_refl(&before.semantic_metadata);
                            self.lemma_scope_still_within(&before);
                        }
                        let ghost scope_before = *self.current_scope;
                        self.current_scope.define_var(item, c);
                        proof {
                            let md = self.semantic_metadata;
                            lemma_define_within(
                                scope_before,
                                *self.current_scope,
                                md.types.nodes().len() as int,
                                md.vars.nodes().len() as int,
                                md.callables.nodes().len() as int,
                            );
                            lemma_grows_trans(&self.semantic_metadata, &before.semantic_metadata, &start.semantic_metadata);
                        }
                    }
                    i = i + 1;
                }
                let ghost ev = errs@;
                let res = Errors::new(errs).result(type_symbol_ref);
                proof {
                    if ev.len() > 0 {
                        let e = choose|e: Error| res == Err::<TypeSymbolRef, Error>(e) && combined(ev, Err(e));
                        lemma_combined_semantic(ev, Err(e));
                    }
                }
                return res;
            },
            Type::Alias(v) => {
                let lexeme = v.lexem(tree.source_code);
                let found = self.current_scope.lookup_type(lexeme, false);
                proof {
                    let md = self.semantic_metadata;
                    lemma_lookups_within(
                        *self.current_scope,
                        lexeme@,
                        false,
                        VarLocality::Global,
                        md.types.nodes().len() as int,
                        md.vars.nodes().len() as int,
                        md.callables.nodes().len() as int,
                    );
                }
                match found {
                    Some(alias) => {
                        self.semantic_metadata.set_type_type(node, alias);
                        proof {
                            lemma_grows_refl(&start.semantic_metadata);
                        }
                        return Ok(alias);
                    },
                    None => {
                        let d = debug_text(v);
                        return Err(semantic_error(text(vec!["type ", d.as_str(), " is unknown"]), pos, ErrorCode::UnkownType));
                    },
                }
            },
            Type::Array { index_type, element_type } => {
                let it = self.visit_type(*index_type, tree)?;
                let (start_ord_index, end_ord_index) = match self.semantic_metadata.types.get(it) {
                    TypeSymbol::Range { start_ord_index, end_ord_index, .. } => (*start_ord_index, *end_ord_index),
                    other => {
                        let d = debug_text(other);
                        return Err(
                            semantic_error(
                                text(vec!["array index type should be range, got ", d.as_str()]),
                                pos,
                                ErrorCode::IncorrectIndexType,
                            ),
                        );
                    },
                };
                let ghost mid = *self;
                let et = match self.visit_type(*element_type, tree) {
                    Ok(t) => t,
                    Err(e) => {
                        proof {
                            self.lemma_progress_trans(&mid, &start);
                        }
                        return Err(e);
                    },
                };
                proof {
                    self.lemma_progress_trans(&mid, &start);
                }
                TypeSymbol::Array { start_ord_index, end_ord_index, index_type: it, value_type: et }
            },
            Type::DynamicArray { element_type } => {
                let et = self.visit_type(*element_type, tree)?;
                TypeSymbol::DynamicArray(et)
            },
            Type::Range { start_val, end_val } => {
                let st = self.visit_expr(*start_val, tree)?;
                let ghost mid = *self;
                proof {
                    lemma_typed_grows(tree, start.scope(), &start.semantic_metadata, &self.semantic_metadata, end_val.index_of() as int);
                }
                let en = match self.visit_expr(*end_val, tree) {
                    Ok(t) => t,
                    Err(e) => {
                        proof {
                            self.lemma_progress_trans(&mid, &start);
                        }
                        return Err(e);
                    },
                };
                proof {
                    self.lemma_progress_trans(&mid, &start);
                    lemma_type_pool_stable(&mid.semantic_metadata, &self.semantic_metadata, st.index_of() as int);
                }
                let types = &self.semantic_metadata.types;
                let start_type = types.get(st);
                let end_type = types.get(en);
                proof {
                    assert(type_refs_below(types.nodes()[st.index_of() as int], st.index_of() as int));
                    assert(type_refs_below(types.nodes()[en.index_of() as int], en.index_of() as int));
                    lemma_typed_refs_below(tree, start.scope(), &start.semantic_metadata, start_val.index_of() as int);
                    lemma_typed_refs_below(tree, start.scope(), &start.semantic_metadata, end_val.index_of() as int);
                    if let (Some(a), Some(b)) = (
                        typed(tree, start.scope(), &start.semantic_metadata, start_val.index_of() as int),
                        typed(tree, start.scope(), &start.semantic_metadata, end_val.index_of() as int),
                    ) {
                        lemma_type_eq_grows(start.semantic_metadata.types.nodes(), types.nodes(), a, b);
                    }
                }
                if !TypeSymbol::eq(types, start_type, end_type) {
                    let a = debug_text(start_type);
                    let b = debug_text(end_type);
                    return Err(
                        semantic_error(
                            text(vec!["range limits should be of the same type, got ", a.as_str(), " and ", b.as_str()]),
                            pos,
                            ErrorCode::IncompatibleTypes,
                        ),
                    );
                }
                if !start_type.is_ordinal() {
                    let a = debug_text(start_type);
                    return Err(
                        semantic_error(
                            text(vec!["range limits should be ordinal, got ", a.as_str()]),
                            pos,
                            ErrorCode::RangeLimitsNotOrdinal,
                        ),
                    );
                }
                proof {
                    let ex = tree.expr_pool.nodes();
                    assert(expr_node_ok(ex[start_val.index_of() as int], start_val.index_of() as int, src_len));
                    assert(expr_node_ok(ex[end_val.index_of() as int], end_val.index_of() as int, src_len));
                }
                let start_rank = ordinal_rank(start_type, tree.expr_pool.get(*start_val), tree.source_code);
                let end_rank = ordinal_rank(start_type, tree.expr_pool.get(*end_val), tree.source_code);
                match (start_rank, end_rank) {
                    (Some(start_ord_index), Some(end_ord_index)) => TypeSymbol::Range {
                        start_ord_index,
                        end_ord_index,
                        range_type: st,
                    },
                    _ => {
                        return Err(
                            semantic_error(
                                String::from_str("range limits should be literals of their type"),
                                pos,
                                ErrorCode::ExpectedLiteral,
                            ),
                        );
                    },
                }
            },
        };
        let ghost mid = *self;
        let t = self.semantic_metadata.alloc_type(type_symbol);
        self.semantic_metadata.set_type_type(node, t);
        proof {
            assert(self.semantic_metadata.types.nodes().take(mid.semantic_metadata.types.nodes().len() as int)
                =~= mid.semantic_metadata.types.nodes());
            lemma_grows_refl(&mid.semantic_metadata);
            lemma_grows_trans(&self.semantic_metadata, &mid.semantic_metadata, &start.semantic_metadata);
            self.lemma_scope_still_within(&mid);
        }
        Ok(t)
    }
}

/// For a `for` statement whose limits have types, the error its checks
/// report, `types` being the type pool they compare in: an unknown loop
/// variable, a loop variable that is a constant, limits of two types, or a
/// loop variable of another type than the limits.
pub open spec fn for_error(tree: &Tree, s: int, scope: SymbolTable, md: &SemanticMetadata, types: Seq<TypeSymbol>) -> Option<
    ErrorCode,
> {
    match tree.stmt_pool.nodes()[s] {
        Stmt::For { var, init, end, .. } => match (
            typed(tree, scope, md, init.index_of() as int),
            typed(tree, scope, md, end.index_of() as int),
        ) {
            (Some(a), Some(b)) => match scope.spec_lookup_var(lexeme_of(var, tree.source_code@), false) {
                None => Some(ErrorCode::UnkownVariable),
                Some((v, _)) => match md.vars.nodes()[v.index_of() as int] {
                    VarSymbol::Var { type_symbol, .. } => if !type_eq(types, a, b) {
                        Some(ErrorCode::IncompatibleTypes)
                    } else if !type_eq(types, types[type_symbol.index_of() as int], a) {
                        Some(ErrorCode::IncompatibleTypes)
                    } else {
                        None
                    },
                    _ => Some(ErrorCode::ExpectedVar),
                },
            },
            _ => None,
        },
        _ => None,
    }
}

/// For a call whose callable is found and whose arguments all have types,
/// the callable and the types of the arguments in order.
pub open spec fn call_arg_types(tree: &Tree, e: int, scope: SymbolTable, md: &SemanticMetadata) -> Option<
    (CallableSymbolRef, Seq<TypeSymbol>),
> {
    match tree.expr_pool.nodes()[e] {
        Expr::Call { name, args } => match scope.spec_lookup_callable(lexeme_of(name, tree.source_code@), false) {
            Some(c) => if forall|j: int| 0 <= j < args@.len() ==> #[trigger] typed(tree, scope, md, args@[j].index_of() as int) is Some {
                Some((c, Seq::new(args@.len(), |j: int| typed(tree, scope, md, args@[j].index_of() as int)->0)))
            } else {
                None
            },
            None => None,
        },
        _ => None,
    }
}

/// A callable takes `n` arguments: as many as it has parameters, or, for one
/// that repeats its parameter list, a multiple of their number (any number
/// where it has none).
pub open spec fn arg_count_fits(c: CallableSymbol, n: int) -> bool {
    match c.param_input_mode {
        ParamInputMode::Sequence => c.params@.len() == n,
        ParamInputMode::Repeat => c.params@.len() == 0 || n % (c.params@.len() as int) == 0,
    }
}

/// The argument `j` of type `at` fits its parameter (the parameter list taken
/// as often as needed): its type can be assigned to the parameter's, and is
/// the same type for a parameter passed by reference.
pub open spec fn arg_fits(types: Seq<TypeSymbol>, vars: Seq<VarSymbol>, c: CallableSymbol, j: int, at: TypeSymbol) -> bool {
    match vars[c.params@[j % (c.params@.len() as int)].index_of() as int] {
        VarSymbol::Var { type_symbol, pass_mode, .. } => {
            let pt = types[type_symbol.index_of() as int];
            &&& !(pass_mode is Ref && !type_eq(types, pt, at))
            &&& spec_assinable(types, pt, at)
        },
        _ => true,
    }
}

/// Every argument fits its parameter.
pub open spec fn args_fit(types: Seq<TypeSymbol>, vars: Seq<VarSymbol>, c: CallableSymbol, ats: Seq<TypeSymbol>) -> bool {
    c.params@.len() == 0 || forall|j: int| 0 <= j < ats.len() ==> #[trigger] arg_fits(types, vars, c, j, ats[j])
}

/// For a range type node whose limits have types, the types of its two
/// limits.
pub open spec fn range_limit_types(tree: &Tree, n: int, scope: SymbolTable, md: &SemanticMetadata) -> Option<
    (TypeSymbol, TypeSymbol),
> {
    match tree.type_pool.nodes()[n] {
        Type::Range { start_val, end_val } => match (
            typed(tree, scope, md, start_val.index_of() as int),
            typed(tree, scope, md, end_val.index_of() as int),
        ) {
            (Some(a), Some(b)) => Some((a, b)),
            _ => None,
        },
        _ => None,
    }
}

/// What the checks of a range type whose limits have the types `a` and `b`
/// give: limits of two types, limits of a type that is not ordinal, limits
/// that are not literals of their type, or success.
pub open spec fn range_outcome(tree: &Tree, ty: Type, types: Seq<TypeSymbol>, a: TypeSymbol, b: TypeSymbol) -> Option<ErrorCode> {
    match ty {
        Type::Range { start_val, end_val } => if !type_eq(types, a, b) {
            Some(ErrorCode::IncompatibleTypes)
        } else if !a.spec_is_ordinal() {
            Some(ErrorCode::RangeLimitsNotOrdinal)
        } else if ordinal_rank_of(a, tree.expr_pool.nodes()[start_val.index_of() as int], tree.source_code@) is Some
            && ordinal_rank_of(a, tree.expr_pool.nodes()[end_val.index_of() as int], tree.source_code@) is Some {
            None
        } else {
            Some(ErrorCode::ExpectedLiteral)
        },
        _ => None,
    }
}

/// The type symbol a built-in type node stands for.
pub open spec fn builtin_type_symbol(ty: Type) -> Option<TypeSymbol> {
    match ty {
        Type::Integer => Some(TypeSymbol::Integer),
        Type::Real => Some(TypeSymbol::Real),
        Type::Boolean => Some(TypeSymbol::Boolean),
        Type::Char => Some(TypeSymbol::Char),
        Type::String => Some(TypeSymbol::String),
        _ => None,
    }
}

/// For a declaration of a variable that the current scope does not define
/// yet, of a built-in type and with a default value that has a type: the
/// declared type and the type of the default value.
pub open spec fn default_value_types(tree: &Tree, d: Decl, scope: SymbolTable, md: &SemanticMetadata) -> Option<
    (TypeSymbol, TypeSymbol),
> {
    match d {
        Decl::VarDecl { var, type_node, default_value: Some(v) } => match tree.expr_pool.nodes()[var.index_of() as int] {
            Expr::Var { name } => if scope.spec_lookup_var(lexeme_of(name, tree.source_code@), true) is Some {
                None
            } else {
                match (builtin_type_symbol(tree.type_pool.nodes()[type_node.index_of() as int]), typed(tree, scope, md, v.index_of() as int)) {
                    (Some(a), Some(b)) => Some((a, b)),
                    _ => None,
                }
            },
            _ => None,
        },
        _ => None,
    }
}

/// What checking a statement that uses no names gives, `outside` telling
/// whether `break` and `continue` are reported: an empty statement passes;
/// `break` and `continue` pass inside a loop and report their error outside
/// one. `None` for other statements.
pub open spec fn plain_stmt_outcome(st: Stmt, outside: bool) -> Option<Option<ErrorCode>> {
    match st {
        Stmt::NoOp => Some(None),
        Stmt::Break => Some(if outside { Some(ErrorCode::BreakOutsideLoop) } else { None }),
        Stmt::Continue => Some(if outside { Some(ErrorCode::ContinueOutsideLoop) } else { None }),
        _ => None,
    }
}

/// For a block without declarations whose statements form a compound
/// statement, that statement's list.
pub open spec fn block_statement_list(stmts: Seq<Stmt>, s: int) -> Option<Seq<StmtRef>> {
    match stmts[s] {
        Stmt::Block { declarations, statements } => if declarations@.len() == 0 {
            match stmts[statements.index_of() as int] {
                Stmt::Compound(list) => Some(list@),
                _ => None,
            }
        } else {
            None
        },
        _ => None,
    }
}

/// For a program whose block has no declarations and whose statements form
/// a compound statement, that statement's list.
pub open spec fn program_statement_list(stmts: Seq<Stmt>, s: int) -> Option<Seq<StmtRef>> {
    match stmts[s] {
        Stmt::Program { block, .. } => block_statement_list(stmts, block.index_of() as int),
        _ => None,
    }
}

/// The result of an analysis with its value dropped.
pub open spec fn outcome<T>(r: Result<T, Error>) -> Result<(), Error> {
    match r {
        Ok(_) => Ok(()),
        Err(e) => Err(e),
    }
}

/// Every statement of `list` uses no names.
pub open spec fn all_plain(stmts: Seq<Stmt>, list: Seq<StmtRef>, outside: bool) -> bool {
    forall|j: int| 0 <= j < list.len() ==> #[trigger] plain_stmt_outcome(stmts[list[j].index_of() as int], outside) is Some
}

/// The codes of the errors the statements `list[..k]` report, in order.
pub open spec fn plain_codes(stmts: Seq<Stmt>, list: Seq<StmtRef>, outside: bool, k: int) -> Seq<ErrorCode>
    decreases k,
{
    if k <= 0 {
        Seq::empty()
    } else {
        let prev = plain_codes(stmts, list, outside, k - 1);
        match plain_stmt_outcome(stmts[list[k - 1].index_of() as int], outside) {
            Some(Some(c)) => prev.push(c),
            _ => prev,
        }
    }
}

/// `r` reports errors with the codes `codes` in order: success for none,
/// the one error, or a group of them.
pub open spec fn reports_codes(r: Result<(), Error>, codes: Seq<ErrorCode>) -> bool {
    if codes.len() == 0 {
        r is Ok
    } else if codes.len() == 1 {
        fails_with(r, codes[0])
    } else {
        r matches Err(Error::Errors(v)) && v@.len() == codes.len() && forall|i: int|
            0 <= i < codes.len() ==> semantic_error_with(*#[trigger] v@[i], codes[i])
    }
}

/// The errors `errs` have the codes `codes`, in order.
pub open spec fn errors_have_codes(errs: Seq<Error>, codes: Seq<ErrorCode>) -> bool {
    errs.len() == codes.len() && forall|i: int| 0 <= i < errs.len() ==> semantic_error_with(#[trigger] errs[i], codes[i])
}

/// Collecting the errors a result reports, flattened, and combining them
/// again reports the same codes.
proof fn lemma_flatten_codes(sr: Result<(), Error>, av: Seq<Error>, codes: Seq<ErrorCode>, r: Result<(), Error>)
    requires
        reports_codes(sr, codes),
        av == (match sr {
            Ok(()) => Seq::<Error>::empty(),
            Err(e) => flatten(e),
        }),
        combined(av, r),
    ensures
        reports_codes(r, codes),
{
    if codes.len() >= 2 {
        if let Err(Error::Errors(v)) = sr {
            assert(av.len() == codes.len());
            if let Err(Error::Errors(w)) = r {
                assert forall|i: int| 0 <= i < codes.len() implies semantic_error_with(*#[trigger] w@[i], codes[i]) by {
                    assert(w@[i] == Box::new(av[i]));
                    assert(av[i] == *v@[i]);
                }
            }
        }
    }
}

/// A list of errors with the given codes comes to a result that reports them.
proof fn lemma_combined_codes(errs: Seq<Error>, codes: Seq<ErrorCode>, r: Result<(), Error>)
    requires
        combined(errs, r),
        errors_have_codes(errs, codes),
    ensures
        reports_codes(r, codes),
{
    if errs.len() >= 2 {
        if let Err(Error::Errors(v)) = r {
            assert forall|i: int| 0 <= i < codes.len() implies semantic_error_with(*#[trigger] v@[i], codes[i]) by {
                assert(v@[i] == Box::new(errs[i]));
            }
        }
    }
}

/// The variable symbol `v` is one the parameter `p` declares: a variable
/// passed by reference when `p` is an `out` parameter, by value otherwise.
pub open spec fn param_symbol_fits(vars: Seq<VarSymbol>, v: VarSymbolRef, p: Param) -> bool {
    &&& v.index_of() < vars.len()
    &&& vars[v.index_of() as int] matches VarSymbol::Var { pass_mode, .. }
    &&& (pass_mode is Ref <==> p.out)
}

/// The callable `c` is the one a declaration with `params` and `return_type`
/// declares: its parameters are those the declaration lists, in order, and
/// it returns a value when the declaration gives a return type.
pub open spec fn declared_callable(c: CallableSymbol, vars: Seq<VarSymbol>, params: Seq<Param>, return_type: Option<TypeRef>) -> bool {
    &&& c.param_input_mode == ParamInputMode::Sequence
    &&& c.params@.len() == params.len()
    &&& forall|j: int| 0 <= j < params.len() ==> param_symbol_fits(vars, #[trigger] c.params@[j], params[j])
    &&& (c.return_type is Some <==> return_type is Some)
}

/// `scope` itself defines the callable `name` as the one a declaration with
/// `params` and `return_type` declares.
pub open spec fn defines_declared_callable(
    tree: &Tree,
    scope: SymbolTable,
    md: &SemanticMetadata,
    name: Token,
    params: Seq<Param>,
    return_type: Option<TypeRef>,
) -> bool {
    &&& scope.spec_lookup_callable(lexeme_of(name, tree.source_code@), true) matches Some(c)
    &&& c.index_of() < md.callables.nodes().len()
    &&& declared_callable(md.callables.nodes()[c.index_of() as int], md.vars.nodes(), params, return_type)
}

/// For an assignment `left := right` to a name that is not a constant, the
/// types of its two sides, where both have one.
pub open spec fn assign_types(tree: &Tree, s: int, scope: SymbolTable, md: &SemanticMetadata) -> Option<
    (TypeSymbol, TypeSymbol),
> {
    match tree.stmt_pool.nodes()[s] {
        Stmt::Assign { left, right } => if assigns_to_const(tree, s, scope, md.vars.nodes()) {
            None
        } else {
            match (typed(tree, scope, md, left.index_of() as int), typed(tree, scope, md, right.index_of() as int)) {
                (Some(a), Some(b)) => Some((a, b)),
                _ => None,
            }
        },
        _ => None,
    }
}

/// Statement `s` of `tree` assigns to a name that `scope` knows as a
/// constant.
pub open spec fn assigns_to_const(tree: &Tree, s: int, scope: SymbolTable, vars: Seq<VarSymbol>) -> bool {
    &&& tree.stmt_pool.nodes()[s] matches Stmt::Assign { left, .. }
    &&& tree.expr_pool.nodes()[left.index_of() as int] matches Expr::Var { name }
    &&& scope.spec_lookup_var(lexeme_of(name, tree.source_code@), false) matches Some((v, _))
    &&& vars[v.index_of() as int] is Const
}

/// `d` declares a variable of type `integer`, without a default value, under
/// a name the scope `scope` does not have yet.
pub open spec fn fresh_int_var_decl(tree: &Tree, d: Decl, scope: SymbolTable) -> bool {
    &&& d matches Decl::VarDecl { var, type_node, default_value: None }
    &&& tree.expr_pool.nodes()[var.index_of() as int] matches Expr::Var { name }
    &&& tree.type_pool.nodes()[type_node.index_of() as int] is Integer
    &&& !scope.vars().contains_key(str_to_lowercase(lexeme_of(name, tree.source_code@)))
}

/// The name `x` of scope `after` stands for a variable of type `integer`,
/// passed by value, in the pools of `md`.
pub open spec fn int_var_entry(after: SymbolTable, md: &SemanticMetadata, x: Seq<char>) -> bool {
    &&& after.vars().contains_key(x)
    &&& after.vars()[x].index_of() < md.vars.nodes().len()
    &&& md.vars.nodes()[after.vars()[x].index_of() as int] matches VarSymbol::Var {
        pass_mode: VarPassMode::Val,
        type_symbol,
        ..
    }
    &&& md.types.nodes()[type_symbol.index_of() as int] is Integer
}

/// Scope `after` is scope `before` with the name of the variable declared by
/// `d` added, standing for a variable of type `integer` in the pools of `md`.
pub open spec fn adds_int_var(tree: &Tree, d: Decl, before: SymbolTable, after: SymbolTable, md: &SemanticMetadata) -> bool {
    &&& d matches Decl::VarDecl { var, .. }
    &&& tree.expr_pool.nodes()[var.index_of() as int] matches Expr::Var { name }
    &&& after.vars() == before.vars().insert(
        str_to_lowercase(lexeme_of(name, tree.source_code@)),
        after.vars()[str_to_lowercase(lexeme_of(name, tree.source_code@))],
    )
    &&& int_var_entry(after, md, str_to_lowercase(lexeme_of(name, tree.source_code@)))
    &&& after.types() == before.types()
    &&& after.callables() == before.callables()
    &&& after.enclosing() == before.enclosing()
    &&& after.spec_scope_level() == before.spec_scope_level()
}

/// What checking the declaration `d` does with its name, from scope
/// `before` to scope `after` with outcome `r`: a variable or a type whose
/// name the scope already has is refused, a type declared by something other
/// than a name is refused, and a declared constant, variable, type or
/// callable is found in the scope afterwards.
pub open spec fn declares_name(tree: &Tree, d: Decl, before: SymbolTable, after: SymbolTable, r: Result<(), Error>) -> bool {
    let src = tree.source_code@;
    match d {
        Decl::VarDecl { var, .. } => tree.expr_pool.nodes()[var.index_of() as int] matches Expr::Var { name } ==> {
            &&& (before.spec_lookup_var(lexeme_of(name, src), true) is Some ==> (r matches Err(e) && semantic_error_with(
                e,
                ErrorCode::DuplicateVarDefinition,
            )))
            &&& (r is Ok ==> after.spec_lookup_var(lexeme_of(name, src), true) is Some)
        },
        Decl::ConstDecl { var, .. } => tree.expr_pool.nodes()[var.index_of() as int] matches Expr::Var { name } ==> (r is Ok
            ==> after.spec_lookup_var(lexeme_of(name, src), true) is Some),
        Decl::TypeDecl { var, .. } => match tree.type_pool.nodes()[var.index_of() as int] {
            Type::Alias(name) => {
                &&& (before.spec_lookup_type(lexeme_of(name, src), true) is Some ==> (r matches Err(e)
                    && semantic_error_with(e, ErrorCode::DuplicateTypeDefinition)))
                &&& (r is Ok ==> after.spec_lookup_type(lexeme_of(name, src), true) is Some)
            },
            _ => r matches Err(e) && semantic_error_with(e, ErrorCode::ExpectedVar),
        },
        Decl::Callable { name, .. } => r is Ok ==> after.spec_lookup_callable(lexeme_of(name, src), true) is Some,
    }
}

/// `scope` resolves `name` to a global variable of type `integer`, passed by
/// value, in the pools of `md`.
pub open spec fn int_name_in(tree: &Tree, scope: SymbolTable, md: &SemanticMetadata, name: Token) -> bool {
    &&& scope.spec_lookup_var(lexeme_of(name, tree.source_code@), false) matches Some((v, loc))
    &&& loc == VarLocality::Global
    &&& v.index_of() < md.vars.nodes().len()
    &&& md.vars.nodes()[v.index_of() as int] matches VarSymbol::Var { pass_mode: VarPassMode::Val, type_symbol, .. }
    &&& md.types.nodes()[type_symbol.index_of() as int] is Integer
}

/// An integer expression over the names of `scope`: integer literals, names
/// of integer variables and constants, and `+ - * div` of such.
pub open spec fn int_expr_in(tree: &Tree, scope: SymbolTable, md: &SemanticMetadata, e: int) -> bool
    decreases e,
{
    &&& 0 <= e < tree.expr_pool.nodes().len()
    &&& match tree.expr_pool.nodes()[e] {
        Expr::LiteralInteger(_) => true,
        Expr::Var { name } => int_name_in(tree, scope, md, name),
        Expr::BinOp { op, left, right } => {
            &&& (op is Plus || op is Minus || op is Mul || op is IntegerDiv)
            &&& left.index_of() < e
            &&& right.index_of() < e
            &&& int_expr_in(tree, scope, md, left.index_of() as int)
            &&& int_expr_in(tree, scope, md, right.index_of() as int)
        },
        _ => false,
    }
}

/// A comparison of two integer expressions over the names of `scope`.
pub open spec fn int_cond_in(tree: &Tree, scope: SymbolTable, md: &SemanticMetadata, e: int) -> bool {
    &&& 0 <= e < tree.expr_pool.nodes().len()
    &&& match tree.expr_pool.nodes()[e] {
        Expr::BinOp { op, left, right } => {
            &&& (op is Equal || op is NotEqual || op is GreaterThen || op is GreaterEqual || op is LessThen
                || op is LessEqual)
            &&& left.index_of() < e
            &&& right.index_of() < e
            &&& int_expr_in(tree, scope, md, left.index_of() as int)
            &&& int_expr_in(tree, scope, md, right.index_of() as int)
        },
        _ => false,
    }
}

/// A statement over the names of `scope` made of assignments of integer
/// expressions to integer variables, `while` loops and `if` statements
/// (without `else if`) on comparisons of integer expressions, compound
/// statements and empty ones.
pub open spec fn int_stmt_in(tree: &Tree, scope: SymbolTable, md: &SemanticMetadata, s: int) -> bool
    decreases s,
{
    &&& 0 <= s < tree.stmt_pool.nodes().len()
    &&& match tree.stmt_pool.nodes()[s] {
        Stmt::NoOp => true,
        Stmt::Compound(v) => forall|k: int|
            0 <= k < v@.len() ==> (#[trigger] v@[k]).index_of() < s && int_stmt_in(tree, scope, md, v@[k].index_of() as int),
        Stmt::Assign { left, right } => {
            &&& tree.expr_pool.nodes()[left.index_of() as int] matches Expr::Var { name }
            &&& int_name_in(tree, scope, md, name)
            &&& scope.spec_lookup_var(lexeme_of(name, tree.source_code@), false) matches Some((v, _))
            &&& md.vars.nodes()[v.index_of() as int] is Var
            &&& int_expr_in(tree, scope, md, right.index_of() as int)
        },
        Stmt::While { cond, body } => {
            &&& int_cond_in(tree, scope, md, cond.index_of() as int)
            &&& body.index_of() < s
            &&& int_stmt_in(tree, scope, md, body.index_of() as int)
        },
        Stmt::If { cond, elifs, else_statement } => {
            &&& elifs@.len() == 0
            &&& int_cond_in(tree, scope, md, cond.cond.index_of() as int)
            &&& cond.expr.index_of() < s
            &&& int_stmt_in(tree, scope, md, cond.expr.index_of() as int)
            &&& match else_statement {
                Some(e) => e.index_of() < s && int_stmt_in(tree, scope, md, e.index_of() as int),
                None => true,
            }
        },
        _ => false,
    }
}

/// The name a variable declaration declares, lower-cased as the analysis
/// compares names.
pub open spec fn decl_key(tree: &Tree, d: Decl) -> Option<Seq<char>> {
    match d {
        Decl::VarDecl { var, .. } => match tree.expr_pool.nodes()[var.index_of() as int] {
            Expr::Var { name } => Some(str_to_lowercase(lexeme_of(name, tree.source_code@))),
            _ => None,
        },
        _ => None,
    }
}

/// `name` is one of the names the declarations `decls` declare.
pub open spec fn declared_among(tree: &Tree, decls: Seq<Decl>, name: Token) -> bool {
    exists|j: int|
        0 <= j < decls.len() && #[trigger] decl_key(tree, decls[j]) == Some(
            str_to_lowercase(lexeme_of(name, tree.source_code@)),
        )
}

/// An integer expression over the variables `decls` declares: integer
/// literals, their names, and `+ - * div` of such.
pub open spec fn int_expr_over(tree: &Tree, decls: Seq<Decl>, e: int) -> bool
    decreases e,
{
    &&& 0 <= e < tree.expr_pool.nodes().len()
    &&& match tree.expr_pool.nodes()[e] {
        Expr::LiteralInteger(_) => true,
        Expr::Var { name } => declared_among(tree, decls, name),
        Expr::BinOp { op, left, right } => {
            &&& (op is Plus || op is Minus || op is Mul || op is IntegerDiv)
            &&& left.index_of() < e
            &&& right.index_of() < e
            &&& int_expr_over(tree, decls, left.index_of() as int)
            &&& int_expr_over(tree, decls, right.index_of() as int)
        },
        _ => false,
    }
}

/// A comparison of two integer expressions over the variables `decls`
/// declares.
pub open spec fn int_cond_over(tree: &Tree, decls: Seq<Decl>, e: int) -> bool {
    &&& 0 <= e < tree.expr_pool.nodes().len()
    &&& match tree.expr_pool.nodes()[e] {
        Expr::BinOp { op, left, right } => {
            &&& (op is Equal || op is NotEqual || op is GreaterThen || op is GreaterEqual || op is LessThen
                || op is LessEqual)
            &&& left.index_of() < e
            &&& right.index_of() < e
            &&& int_expr_over(tree, decls, left.index_of() as int)
            &&& int_expr_over(tree, decls, right.index_of() as int)
        },
        _ => false,
    }
}

/// A statement over the variables `decls` declares, of the shape
/// `int_stmt_in` describes.
pub open spec fn int_stmt_over(tree: &Tree, decls: Seq<Decl>, s: int) -> bool
    decreases s,
{
    &&& 0 <= s < tree.stmt_pool.nodes().len()
    &&& match tree.stmt_pool.nodes()[s] {
        Stmt::NoOp => true,
        Stmt::Compound(v) => forall|k: int|
            0 <= k < v@.len() ==> (#[trigger] v@[k]).index_of() < s && int_stmt_over(tree, decls, v@[k].index_of() as int),
        Stmt::Assign { left, right } => {
            &&& tree.expr_pool.nodes()[left.index_of() as int] matches Expr::Var { name }
            &&& declared_among(tree, decls, name)
            &&& int_expr_over(tree, decls, right.index_of() as int)
        },
        Stmt::While { cond, body } => {
            &&& int_cond_over(tree, decls, cond.index_of() as int)
            &&& body.index_of() < s
            &&& int_stmt_over(tree, decls, body.index_of() as int)
        },
        Stmt::If { cond, elifs, else_statement } => {
            &&& elifs@.len() == 0
            &&& int_cond_over(tree, decls, cond.cond.index_of() as int)
            &&& cond.expr.index_of() < s
            &&& int_stmt_over(tree, decls, cond.expr.index_of() as int)
            &&& match else_statement {
                Some(e) => e.index_of() < s && int_stmt_over(tree, decls, e.index_of() as int),
                None => true,
            }
        },
        _ => false,
    }
}

/// Every name `decls` declares stands in `scope` for a variable of type
/// `integer` in the pools of `md`.
pub open spec fn decls_in_scope(tree: &Tree, decls: Seq<Decl>, scope: SymbolTable, md: &SemanticMetadata) -> bool {
    &&& scope.spec_scope_level() == 1
    &&& forall|j: int| 0 <= j < decls.len() ==> (#[trigger] decl_key(tree, decls[j]) matches Some(x) ==> int_var_entry(scope, md, x))
}

proof fn lemma_declared_name_in(tree: &Tree, decls: Seq<Decl>, scope: SymbolTable, md: &SemanticMetadata, name: Token)
    requires
        decls_in_scope(tree, decls, scope, md),
        declared_among(tree, decls, name),
    ensures
        int_name_in(tree, scope, md, name),
        scope.spec_lookup_var(lexeme_of(name, tree.source_code@), false) matches Some((v, _)) && md.vars.nodes()[v.index_of() as int] is Var,
{
    let j = choose|j: int|
        0 <= j < decls.len() && #[trigger] decl_key(tree, decls[j]) == Some(
            str_to_lowercase(lexeme_of(name, tree.source_code@)),
        );
    assert(int_var_entry(scope, md, str_to_lowercase(lexeme_of(name, tree.source_code@))));
}

proof fn lemma_int_expr_over_in(tree: &Tree, decls: Seq<Decl>, scope: SymbolTable, md: &SemanticMetadata, e: int)
    requires
        decls_in_scope(tree, decls, scope, md),
        int_expr_over(tree, decls, e),
    ensures
        int_expr_in(tree, scope, md, e),
    decreases e,
{
    match tree.expr_pool.nodes()[e] {
        Expr::Var { name } => {
            lemma_declared_name_in(tree, decls, scope, md, name);
        },
        Expr::BinOp { left, right, .. } => {
            lemma_int_expr_over_in(tree, decls, scope, md, left.index_of() as int);
            lemma_int_expr_over_in(tree, decls, scope, md, right.index_of() as int);
        },
        _ => {},
    }
}

proof fn lemma_int_stmt_over_in(tree: &Tree, decls: Seq<Decl>, scope: SymbolTable, md: &SemanticMetadata, s: int)
    requires
        decls_in_scope(tree, decls, scope, md),
        int_stmt_over(tree, decls, s),
    ensures
        int_stmt_in(tree, scope, md, s),
    decreases s,
{
    match tree.stmt_pool.nodes()[s] {
        Stmt::Compound(v) => {
            assert forall|k: int| 0 <= k < v@.len() implies (#[trigger] v@[k]).index_of() < s && int_stmt_in(
                tree,
                scope,
                md,
                v@[k].index_of() as int,
            ) by {
                lemma_int_stmt_over_in(tree, decls, scope, md, v@[k].index_of() as int);
            }
        },
        Stmt::Assign { left, right } => {
            if let Expr::Var { name } = tree.expr_pool.nodes()[left.index_of() as int] {
                lemma_declared_name_in(tree, decls, scope, md, name);
            }
            lemma_int_expr_over_in(tree, decls, scope, md, right.index_of() as int);
        },
        Stmt::While { cond, body } => {
            if let Expr::BinOp { left, right, .. } = tree.expr_pool.nodes()[cond.index_of() as int] {
                lemma_int_expr_over_in(tree, decls, scope, md, left.index_of() as int);
                lemma_int_expr_over_in(tree, decls, scope, md, right.index_of() as int);
            }
            lemma_int_stmt_over_in(tree, decls, scope, md, body.index_of() as int);
        },
        Stmt::If { cond, else_statement, .. } => {
            if let Expr::BinOp { left, right, .. } = tree.expr_pool.nodes()[cond.cond.index_of() as int] {
                lemma_int_expr_over_in(tree, decls, scope, md, left.index_of() as int);
                lemma_int_expr_over_in(tree, decls, scope, md, right.index_of() as int);
            }
            lemma_int_stmt_over_in(tree, decls, scope, md, cond.expr.index_of() as int);
            if let Some(e) = else_statement {
                lemma_int_stmt_over_in(tree, decls, scope, md, e.index_of() as int);
            }
        },
        _ => {},
    }
}

/// A block that declares variables of type `integer` under distinct names,
/// without default values, and runs a statement over them of the shape
/// `int_stmt_in` describes.
pub open spec fn int_block(tree: &Tree, b: int) -> bool {
    &&& 0 <= b < tree.stmt_pool.nodes().len()
    &&& tree.stmt_pool.nodes()[b] matches Stmt::Block { declarations, statements }
    &&& forall|j: int| 0 <= j < declarations@.len() ==> (#[trigger] declarations@[j] matches Decl::VarDecl {
        var,
        type_node,
        default_value: None,
    } && tree.expr_pool.nodes()[var.index_of() as int] is Var && tree.type_pool.nodes()[type_node.index_of() as int] is Integer)
    &&& forall|i: int, j: int|
        0 <= i < j < declarations@.len() ==> decl_key(tree, #[trigger] declarations@[i]) != decl_key(
            tree,
            #[trigger] declarations@[j],
        )
    &&& statements.index_of() < b
    &&& int_stmt_over(tree, declarations@, statements.index_of() as int)
}

/// No name the block `b` declares is a variable of scope `scope` yet.
pub open spec fn block_names_fresh(tree: &Tree, b: int, scope: SymbolTable) -> bool {
    tree.stmt_pool.nodes()[b] matches Stmt::Block { declarations, .. } && forall|j: int|
        0 <= j < declarations@.len() ==> (#[trigger] decl_key(tree, declarations@[j]) matches Some(x)
            ==> !scope.vars().contains_key(x))
}

proof fn lemma_int_var_entry_keeps(
    a: SymbolTable,
    b: SymbolTable,
    a_md: &SemanticMetadata,
    b_md: &SemanticMetadata,
    x: Seq<char>,
)
    requires
        a_md.wf(),
        b_md.grows_from(a_md),
        int_var_entry(a, a_md, x),
        b.vars().contains_key(x),
        b.vars()[x] == a.vars()[x],
    ensures
        int_var_entry(b, b_md, x),
{
    let v = a.vars()[x];
    lemma_var_pool_stable(a_md, b_md, v.index_of() as int);
    let t = a_md.vars.nodes()[v.index_of() as int].spec_type_symbol();
    lemma_type_pool_stable(a_md, b_md, t.index_of() as int);
}

/// A program whose block is of the shape `int_block` describes.
pub open spec fn int_program(tree: &Tree) -> bool {
    tree.stmt_pool.nodes()[tree.program.index_of() as int] matches Stmt::Program { block, .. } && int_block(
        tree,
        block.index_of() as int,
    )
}

/// Every expression `md` has a type for is of type `integer`, but a
/// comparison, which is of type `boolean`; every name `md` resolves stands
/// for a global variable of type `integer` passed by value.
pub open spec fn int_typed(tree: &Tree, md: &SemanticMetadata) -> bool {
    &&& forall|k: usize| #[trigger]
        md.expr_type_map@.contains_key(k) ==> ((k as int) < tree.expr_pool.nodes().len() ==> if tree.expr_pool.nodes()[k as int] matches Expr::BinOp {
            op,
            ..
        } && is_comparison(op) {
            md.types.nodes()[md.expr_type_map@[k].index_of() as int] is Boolean
        } else {
            md.types.nodes()[md.expr_type_map@[k].index_of() as int] is Integer
        })
    &&& forall|k: usize| #[trigger] md.var_symbols@.contains_key(k) ==> global_int_var(md, k as int)
}

proof fn lemma_int_typed_set(
    tree: &Tree,
    a: &SemanticMetadata,
    b: &SemanticMetadata,
    n: int,
    t: TypeSymbolRef,
    sym: TypeSymbol,
)
    requires
        tree.wf(),
        a.wf(),
        int_typed(tree, a),
        0 <= n < tree.expr_pool.nodes().len(),
        b.types.nodes() == a.types.nodes().push(sym),
        b.vars == a.vars,
        b.var_symbols == a.var_symbols,
        b.var_types == a.var_types,
        b.expr_type_map@ == a.expr_type_map@.insert(n as usize, t),
        t.index_of() == a.types.nodes().len(),
        if tree.expr_pool.nodes()[n] matches Expr::BinOp { op, .. } && is_comparison(op) {
            sym is Boolean
        } else {
            sym is Integer
        },
    ensures
        int_typed(tree, b),
{
    assert forall|k: usize| #[trigger] b.expr_type_map@.contains_key(k) implies ((k as int)
        < tree.expr_pool.nodes().len() ==> if tree.expr_pool.nodes()[k as int] matches Expr::BinOp { op, .. }
        && is_comparison(op) {
        b.types.nodes()[b.expr_type_map@[k].index_of() as int] is Boolean
    } else {
        b.types.nodes()[b.expr_type_map@[k].index_of() as int] is Integer
    }) by {
        if k != n as usize {
            assert(a.expr_type_map@.contains_key(k));
            assert(b.types.nodes()[a.expr_type_map@[k].index_of() as int] == a.types.nodes()[a.expr_type_map@[k].index_of() as int]);
        } else {
            assert(k as int == n);
        }
    }
    assert forall|k: usize| #[trigger] b.var_symbols@.contains_key(k) implies global_int_var(b, k as int) by {
        assert(global_int_var(a, k as int));
        let v = a.var_symbols@[k];
        let ty = a.vars.nodes()[v.index_of() as int].spec_type_symbol();
        assert(b.types.nodes()[ty.index_of() as int] == a.types.nodes()[ty.index_of() as int]);
    }
}

proof fn lemma_expr_integer_stays(tree: &Tree, a: &SemanticMetadata, b: &SemanticMetadata, e: int)
    requires
        tree.wf(),
        b.grows_from(a),
        int_typed(tree, b),
        expr_is_integer(a, e),
        0 <= e < tree.expr_pool.nodes().len(),
        tree.expr_pool.nodes()[e] is Var,
    ensures
        expr_is_integer(b, e),
{
    let k = e as usize;
    assert(a.expr_type_map@.contains_key(k));
    assert(b.expr_type_map@.contains_key(k));
    assert(k as int == e);
}

proof fn lemma_fragment_expr_stays(tree: &Tree, a: &SemanticMetadata, b: &SemanticMetadata, e: int)
    requires
        tree.wf(),
        a.wf(),
        b.grows_from(a),
        int_typed(tree, b),
        int_fragment_expr(tree, a, e),
    ensures
        int_fragment_expr(tree, b, e),
    decreases e,
{
    let k = e as usize;
    assert(a.expr_type_map@.contains_key(k));
    assert(b.expr_type_map@.contains_key(k));
    assert(k as int == e);
    if let Expr::BinOp { left, right, .. } = tree.expr_pool.nodes()[e] {
        lemma_fragment_expr_stays(tree, a, b, left.index_of() as int);
        lemma_fragment_expr_stays(tree, a, b, right.index_of() as int);
    }
    if tree.expr_pool.nodes()[e] is Var {
        assert(a.var_symbols@.contains_key(k));
        assert(b.var_symbols@.contains_key(k));
    }
}

proof fn lemma_fragment_cond_stays(tree: &Tree, a: &SemanticMetadata, b: &SemanticMetadata, e: int)
    requires
        tree.wf(),
        a.wf(),
        b.grows_from(a),
        int_typed(tree, b),
        int_fragment_cond(tree, a, e),
    ensures
        int_fragment_cond(tree, b, e),
{
    if let Expr::BinOp { left, right, .. } = tree.expr_pool.nodes()[e] {
        lemma_fragment_expr_stays(tree, a, b, left.index_of() as int);
        lemma_fragment_expr_stays(tree, a, b, right.index_of() as int);
    }
}

proof fn lemma_fragment_stmt_stays(tree: &Tree, a: &SemanticMetadata, b: &SemanticMetadata, s: int)
    requires
        tree.wf(),
        a.wf(),
        b.grows_from(a),
        int_typed(tree, b),
        int_fragment_stmt(tree, a, s),
    ensures
        int_fragment_stmt(tree, b, s),
    decreases s,
{
    match tree.stmt_pool.nodes()[s] {
        Stmt::Compound(v) => {
            assert forall|k: int| 0 <= k < v@.len() implies (#[trigger] v@[k]).index_of() < s && int_fragment_stmt(
                tree,
                b,
                v@[k].index_of() as int,
            ) by {
                lemma_fragment_stmt_stays(tree, a, b, v@[k].index_of() as int);
            }
        },
        Stmt::Assign { left, right } => {
            lemma_fragment_expr_stays(tree, a, b, left.index_of() as int);
            lemma_fragment_expr_stays(tree, a, b, right.index_of() as int);
        },
        Stmt::While { cond, body } => {
            lemma_fragment_cond_stays(tree, a, b, cond.index_of() as int);
            lemma_fragment_stmt_stays(tree, a, b, body.index_of() as int);
        },
        Stmt::If { cond, else_statement, .. } => {
            lemma_fragment_cond_stays(tree, a, b, cond.cond.index_of() as int);
            lemma_fragment_stmt_stays(tree, a, b, cond.expr.index_of() as int);
            if let Some(e) = else_statement {
                lemma_fragment_stmt_stays(tree, a, b, e.index_of() as int);
            }
        },
        _ => {},
    }
}

proof fn lemma_int_cond_grows(tree: &Tree, scope: SymbolTable, a: &SemanticMetadata, b: &SemanticMetadata, e: int)
    requires
        a.wf(),
        b.grows_from(a),
        int_cond_in(tree, scope, a, e),
    ensures
        int_cond_in(tree, scope, b, e),
{
    if let Expr::BinOp { left, right, .. } = tree.expr_pool.nodes()[e] {
        lemma_int_expr_grows(tree, scope, a, b, left.index_of() as int);
        lemma_int_expr_grows(tree, scope, a, b, right.index_of() as int);
    }
}

proof fn lemma_int_stmt_grows(tree: &Tree, scope: SymbolTable, a: &SemanticMetadata, b: &SemanticMetadata, s: int)
    requires
        a.wf(),
        b.grows_from(a),
        int_stmt_in(tree, scope, a, s),
    ensures
        int_stmt_in(tree, scope, b, s),
    decreases s,
{
    match tree.stmt_pool.nodes()[s] {
        Stmt::Compound(v) => {
            assert forall|k: int| 0 <= k < v@.len() implies (#[trigger] v@[k]).index_of() < s && int_stmt_in(
                tree,
                scope,
                b,
                v@[k].index_of() as int,
            ) by {
                lemma_int_stmt_grows(tree, scope, a, b, v@[k].index_of() as int);
            }
        },
        Stmt::Assign { left, right } => {
            if let Expr::Var { name } = tree.expr_pool.nodes()[left.index_of() as int] {
                if let Some((v, _)) = scope.spec_lookup_var(lexeme_of(name, tree.source_code@), false) {
                    lemma_var_pool_stable(a, b, v.index_of() as int);
                    let t = a.vars.nodes()[v.index_of() as int].spec_type_symbol();
                    lemma_type_pool_stable(a, b, t.index_of() as int);
                }
            }
            lemma_int_expr_grows(tree, scope, a, b, right.index_of() as int);
        },
        Stmt::While { cond, body } => {
            lemma_int_cond_grows(tree, scope, a, b, cond.index_of() as int);
            lemma_int_stmt_grows(tree, scope, a, b, body.index_of() as int);
        },
        Stmt::If { cond, else_statement, .. } => {
            lemma_int_cond_grows(tree, scope, a, b, cond.cond.index_of() as int);
            lemma_int_stmt_grows(tree, scope, a, b, cond.expr.index_of() as int);
            if let Some(e) = else_statement {
                lemma_int_stmt_grows(tree, scope, a, b, e.index_of() as int);
            }
        },
        _ => {},
    }
}

proof fn lemma_int_expr_grows(tree: &Tree, scope: SymbolTable, a: &SemanticMetadata, b: &SemanticMetadata, e: int)
    requires
        a.wf(),
        b.grows_from(a),
        int_expr_in(tree, scope, a, e),
    ensures
        int_expr_in(tree, scope, b, e),
    decreases e,
{
    match tree.expr_pool.nodes()[e] {
        Expr::Var { name } => {
            if let Some((v, _)) = scope.spec_lookup_var(lexeme_of(name, tree.source_code@), false) {
                lemma_var_pool_stable(a, b, v.index_of() as int);
                let t = a.vars.nodes()[v.index_of() as int].spec_type_symbol();
                lemma_type_pool_stable(a, b, t.index_of() as int);
            }
        },
        Expr::BinOp { left, right, .. } => {
            lemma_int_expr_grows(tree, scope, a, b, left.index_of() as int);
            lemma_int_expr_grows(tree, scope, a, b, right.index_of() as int);
        },
        _ => {},
    }
}

/// The type of the expression `e` of `tree` when its names are looked up in
/// `scope`, for an expression without calls and indexing: a literal has its
/// own type, a name the type of the variable or constant it finds, an
/// operator application the type the operator gives its operands' types.
/// `None` where a name is not found or an operator does not apply.
pub open spec fn typed(tree: &Tree, scope: SymbolTable, md: &SemanticMetadata, e: int) -> Option<TypeSymbol>
    decreases e,
{
    if !(0 <= e < tree.expr_pool.nodes().len()) {
        None
    } else {
        match tree.expr_pool.nodes()[e] {
            Expr::LiteralBool(_) => Some(TypeSymbol::Boolean),
            Expr::LiteralChar(_) => Some(TypeSymbol::Char),
            Expr::LiteralInteger(_) => Some(TypeSymbol::Integer),
            Expr::LiteralReal(_) => Some(TypeSymbol::Real),
            Expr::LiteralString(_) => Some(TypeSymbol::String),
            Expr::Var { name } => match scope.spec_lookup_var(lexeme_of(name, tree.source_code@), false) {
                Some((v, _)) => if v.index_of() < md.vars.nodes().len() {
                    Some(md.types.nodes()[md.vars.nodes()[v.index_of() as int].spec_type_symbol().index_of() as int])
                } else {
                    None
                },
                None => None,
            },
            Expr::BinOp { op, left, right } => if left.index_of() < e && right.index_of() < e {
                match (typed(tree, scope, md, left.index_of() as int), typed(tree, scope, md, right.index_of() as int)) {
                    (Some(a), Some(b)) => bin_op_type(op, a, b),
                    _ => None,
                }
            } else {
                None
            },
            Expr::UnaryOp { op, expr } => if expr.index_of() < e {
                match typed(tree, scope, md, expr.index_of() as int) {
                    Some(a) => unary_op_type(op, a),
                    None => None,
                }
            } else {
                None
            },
            _ => None,
        }
    }
}

/// The expression `e` of `tree` holds no call and no indexing.
pub open spec fn call_free(tree: &Tree, e: int) -> bool
    decreases e,
{
    &&& 0 <= e < tree.expr_pool.nodes().len()
    &&& match tree.expr_pool.nodes()[e] {
        Expr::BinOp { left, right, .. } => {
            &&& left.index_of() < e
            &&& right.index_of() < e
            &&& call_free(tree, left.index_of() as int)
            &&& call_free(tree, right.index_of() as int)
        },
        Expr::UnaryOp { expr, .. } => expr.index_of() < e && call_free(tree, expr.index_of() as int),
        Expr::Call { .. } => false,
        Expr::Index { .. } => false,
        _ => true,
    }
}

/// Resolving a type symbol of a pool gives the same in a pool that extends it.
proof fn lemma_resolve_at_grows(a: Seq<TypeSymbol>, b: Seq<TypeSymbol>, i: int)
    requires
        a.len() <= b.len(),
        b.take(a.len() as int) == a,
        0 <= i < a.len(),
    ensures
        crate::symbols::resolve_at(b, i) == crate::symbols::resolve_at(a, i),
    decreases i,
{
    assert(b[i] == b.take(a.len() as int)[i]);
    if let TypeSymbol::Range { range_type, .. } = a[i] {
        if range_type.index_of() < i {
            lemma_resolve_at_grows(a, b, range_type.index_of() as int);
        }
    }
}

/// Type equality of symbols that refer into a pool is the same in a pool
/// that extends it.
proof fn lemma_type_eq_grows(a: Seq<TypeSymbol>, b: Seq<TypeSymbol>, x: TypeSymbol, y: TypeSymbol)
    requires
        a.len() <= b.len(),
        b.take(a.len() as int) == a,
        type_refs_below(x, a.len() as int),
        type_refs_below(y, a.len() as int),
    ensures
        type_eq(b, x, y) == type_eq(a, x, y),
{
    if let TypeSymbol::Range { range_type, .. } = x {
        lemma_resolve_at_grows(a, b, range_type.index_of() as int);
    }
    if let TypeSymbol::Range { range_type, .. } = y {
        lemma_resolve_at_grows(a, b, range_type.index_of() as int);
    }
}

/// The type of an expression refers into the type pool.
proof fn lemma_typed_refs_below(tree: &Tree, scope: SymbolTable, md: &SemanticMetadata, e: int)
    requires
        md.wf(),
        scope.refs_within(md.types.nodes().len() as int, md.vars.nodes().len() as int, md.callables.nodes().len() as int),
    ensures
        typed(tree, scope, md, e) matches Some(t) ==> type_refs_below(t, md.types.nodes().len() as int),
    decreases e,
{
    if 0 <= e < tree.expr_pool.nodes().len() {
        if let Expr::Var { name } = tree.expr_pool.nodes()[e] {
            let lx = lexeme_of(name, tree.source_code@);
            if let Some((v, _)) = scope.spec_lookup_var(lx, false) {
                if v.index_of() < md.vars.nodes().len() {
                    let k = md.vars.nodes()[v.index_of() as int].spec_type_symbol().index_of() as int;
                    assert(type_refs_below(md.types.nodes()[k], k));
                }
            }
        }
    }
}

/// The type of an expression does not change as the pools grow.
proof fn lemma_typed_grows(tree: &Tree, scope: SymbolTable, a: &SemanticMetadata, b: &SemanticMetadata, e: int)
    requires
        a.wf(),
        b.grows_from(a),
        scope.refs_within(a.types.nodes().len() as int, a.vars.nodes().len() as int, a.callables.nodes().len() as int),
    ensures
        typed(tree, scope, b, e) == typed(tree, scope, a, e),
    decreases e,
{
    if 0 <= e < tree.expr_pool.nodes().len() {
        match tree.expr_pool.nodes()[e] {
            Expr::Var { name } => {
                let lx = lexeme_of(name, tree.source_code@);
                lemma_lookups_within(
                    scope,
                    lx,
                    false,
                    scope.own_locality(),
                    a.types.nodes().len() as int,
                    a.vars.nodes().len() as int,
                    a.callables.nodes().len() as int,
                );
                if let Some((v, _)) = scope.spec_lookup_var(lx, false) {
                    lemma_var_pool_stable(a, b, v.index_of() as int);
                    let t = a.vars.nodes()[v.index_of() as int].spec_type_symbol();
                    lemma_type_pool_stable(a, b, t.index_of() as int);
                }
            },
            Expr::BinOp { left, right, .. } => {
                if left.index_of() < e && right.index_of() < e {
                    lemma_typed_grows(tree, scope, a, b, left.index_of() as int);
                    lemma_typed_grows(tree, scope, a, b, right.index_of() as int);
                }
            },
            Expr::UnaryOp { expr, .. } => {
                if expr.index_of() < e {
                    lemma_typed_grows(tree, scope, a, b, expr.index_of() as int);
                }
            },
            _ => {},
        }
    }
}

/// A variable symbol already in the pool stays the same as the pool grows.
proof fn lemma_var_pool_stable(a: &SemanticMetadata, b: &SemanticMetadata, i: int)
    requires
        b.grows_from(a),
        0 <= i < a.vars.nodes().len(),
    ensures
        b.vars.nodes()[i] == a.vars.nodes()[i],
{
    assert(b.vars.nodes().take(a.vars.nodes().len() as int)[i] == b.vars.nodes()[i]);
}

impl SemanticAnalyzer {
    /// Checks the statement `node`; errors in the declarations and
    /// statements of a block or a compound statement are collected.
    #[verifier::rlimit(80)]
    fn visit_stmt(&mut self, node: StmtRef, tree: &Tree) -> (r: Result<(), Error>)
        requires
            types_follow_rules(tree, &old(self).semantic_metadata),
            old(self).wf(),
            old(self).room(node.index_of() as int),
            tree.wf(),
            shapes_ok(tree),
            node.index_of() < tree.stmt_pool.nodes().len(),
        ensures
            types_follow_rules(tree, &final(self).semantic_metadata),
            final(self).progress(old(self)),
            r matches Err(e) ==> semantic_failure(e),
            tree.stmt_pool.nodes()[node.index_of() as int] is Break ==> if old(self).outside_loops() {
                r matches Err(e) && semantic_error_with(e, ErrorCode::BreakOutsideLoop)
            } else {
                r is Ok
            },
            tree.stmt_pool.nodes()[node.index_of() as int] is Continue ==> if old(self).outside_loops() {
                r matches Err(e) && semantic_error_with(e, ErrorCode::ContinueOutsideLoop)
            } else {
                r is Ok
            },
            tree.stmt_pool.nodes()[node.index_of() as int] is NoOp ==> r is Ok,
            plain_stmt_outcome(tree.stmt_pool.nodes()[node.index_of() as int], old(self).outside_loops()) is Some
                ==> final(self).outside_loops() == old(self).outside_loops(),
            tree.stmt_pool.nodes()[node.index_of() as int] matches Stmt::Compound(list) ==> (all_plain(
                tree.stmt_pool.nodes(),
                list@,
                old(self).outside_loops(),
            ) ==> reports_codes(
                r,
                plain_codes(tree.stmt_pool.nodes(), list@, old(self).outside_loops(), list@.len() as int),
            )),
            program_statement_list(tree.stmt_pool.nodes(), node.index_of() as int) matches Some(list) ==> (all_plain(
                tree.stmt_pool.nodes(),
                list,
                old(self).outside_loops(),
            ) ==> reports_codes(
                r,
                plain_codes(tree.stmt_pool.nodes(), list, old(self).outside_loops(), list.len() as int),
            )),
            block_statement_list(tree.stmt_pool.nodes(), node.index_of() as int) matches Some(list) ==> (all_plain(
                tree.stmt_pool.nodes(),
                list,
                old(self).outside_loops(),
            ) ==> reports_codes(
                r,
                plain_codes(tree.stmt_pool.nodes(), list, old(self).outside_loops(), list.len() as int),
            )),
            tree.stmt_pool.nodes()[node.index_of() as int] matches Stmt::While { cond, .. } ==> (typed(
                tree,
                old(self).scope(),
                &old(self).semantic_metadata,
                cond.index_of() as int,
            ) matches Some(t) && !(t is Boolean) ==> fails_with(r, ErrorCode::ConditionNotBoolean)),
            tree.stmt_pool.nodes()[node.index_of() as int] matches Stmt::If { cond, .. } ==> (typed(
                tree,
                old(self).scope(),
                &old(self).semantic_metadata,
                cond.cond.index_of() as int,
            ) matches Some(t) && !(t is Boolean) ==> fails_with(r, ErrorCode::ConditionNotBoolean)),
            for_error(
                tree,
                node.index_of() as int,
                old(self).scope(),
                &old(self).semantic_metadata,
                old(self).semantic_metadata.types.nodes(),
            ) matches Some(code) ==> fails_with(r, code),
            assign_types(tree, node.index_of() as int, old(self).scope(), &old(self).semantic_metadata) matches Some(
                (a, b),
            ) ==> ((r is Ok <==> spec_assinable(final(self).semantic_metadata.types.nodes(), a, b)) && (r is Err
                ==> fails_with(r, ErrorCode::AssignmentError))),
            assigns_to_const(tree, node.index_of() as int, old(self).scope(), old(self).semantic_metadata.vars.nodes())
                ==> (r matches Err(e) && semantic_error_with(e, ErrorCode::AssignmentError)),
            int_stmt_in(tree, old(self).scope(), &old(self).semantic_metadata, node.index_of() as int) ==> r is Ok
                && final(self).current_scope == old(self).current_scope,
            int_stmt_in(tree, old(self).scope(), &old(self).semantic_metadata, node.index_of() as int) && int_typed(
                tree,
                &old(self).semantic_metadata,
            ) ==> int_typed(tree, &final(self).semantic_metadata) && int_fragment_stmt(
                tree,
                &final(self).semantic_metadata,
                node.index_of() as int,
            ),
            int_block(tree, node.index_of() as int) && block_names_fresh(tree, node.index_of() as int, old(self).scope())
                && old(self).scope().spec_scope_level() == 1 ==> r is Ok,
            int_block(tree, node.index_of() as int) && block_names_fresh(tree, node.index_of() as int, old(self).scope())
                && old(self).scope().spec_scope_level() == 1 && int_typed(tree, &old(self).semantic_metadata) ==> int_typed(
                tree,
                &final(self).semantic_metadata,
            ) && int_fragment_block(tree, &final(self).semantic_metadata, node.index_of() as int),
            (tree.stmt_pool.nodes()[node.index_of() as int] matches Stmt::Program { block, .. } && int_block(
                tree,
                block.index_of() as int,
            ) && block_names_fresh(tree, block.index_of() as int, old(self).scope())) && old(self).scope().spec_scope_level()
                == 1 ==> r is Ok,
            (tree.stmt_pool.nodes()[node.index_of() as int] matches Stmt::Program { block, .. } && int_block(
                tree,
                block.index_of() as int,
            ) && block_names_fresh(tree, block.index_of() as int, old(self).scope())) && old(self).scope().spec_scope_level()
                == 1 && int_typed(tree, &old(self).semantic_metadata) ==> int_typed(tree, &final(self).semantic_metadata)
                && (tree.stmt_pool.nodes()[node.index_of() as int] matches Stmt::Program { block, .. } && int_fragment_block(
                tree,
                &final(self).semantic_metadata,
                block.index_of() as int,
            )),
        decreases node.index_of() + 1, 3int, 0int, 0int,
    {
        let ghost start = *self;
        let ghost stmts = tree.stmt_pool.nodes();
        let ghost exprs = tree.expr_pool.nodes();
        let ghost s = node.index_of() as int;
        let ghost ne = exprs.len() as int;
        let ghost nt = tree.type_pool.nodes().len() as int;
        let ghost src_len = tree.source_code@.len() as int;
        proof {
            assert(stmt_node_ok(stmts[s], s, ne, nt, src_len));
            assert(stmt_shape_ok(exprs, stmts[s]));
            self.lemma_progress_refl();
        }
        let pos = tree.node_pos(NodeRef::StmtRef(node));
        match tree.stmt_pool.get(node) {
            Stmt::Program { block, .. } => self.visit_stmt(*block, tree),
            Stmt::Block { declarations, statements } => {
                let mut errs: Vec<Error> = Vec::new();
                let mut k: usize = 0;
                while k < declarations.len()
                    invariant
                        types_follow_rules(tree, &self.semantic_metadata),
                        tree.wf(),
                        shapes_ok(tree),
                        stmts == tree.stmt_pool.nodes(),
                        exprs == tree.expr_pool.nodes(),
                        ne == exprs.len(),
                        nt == tree.type_pool.nodes().len(),
                        src_len == tree.source_code@.len(),
                        0 <= s < stmts.len(),
                        s == node.index_of(),
                        forall|j: int| 0 <= j < declarations@.len() ==> decl_ok(#[trigger] declarations@[j], s, ne, nt, src_len),
                        forall|j: int| 0 <= j < declarations@.len() ==> decl_shape_ok(exprs, #[trigger] declarations@[j]),
                        k <= declarations@.len(),
                        errs@.len() <= k,
                        k == 0 ==> *self == start,
                        self.progress(&start),
                        start == *old(self),
                        self.room(s),
                        forall|j: int| 0 <= j < errs@.len() ==> semantic_failure(#[trigger] errs@[j]),
                        stmts[s] == (Stmt::Block { declarations: *declarations, statements: *statements }),
                        int_block(tree, s) && block_names_fresh(tree, s, start.scope()) && start.scope().spec_scope_level()
                            == 1 ==> {
                            &&& errs@.len() == 0
                            &&& forall|j: int|
                                0 <= j < k ==> (#[trigger] decl_key(tree, declarations@[j]) matches Some(x) ==> int_var_entry(
                                    self.scope(),
                                    &self.semantic_metadata,
                                    x,
                                ))
                            &&& forall|j: int|
                                k <= j < declarations@.len() ==> (#[trigger] decl_key(tree, declarations@[j]) matches Some(x)
                                    ==> !self.scope().vars().contains_key(x))
                        },
                        int_block(tree, s) && block_names_fresh(tree, s, start.scope()) && start.scope().spec_scope_level() == 1 && int_typed(tree, &start.semantic_metadata) ==> int_typed(tree, &self.semantic_metadata) && forall|j: int|
                            0 <= j < k ==> (#[trigger] declarations@[j] matches Decl::VarDecl { var, .. } && expr_is_integer(
                                &self.semantic_metadata,
                                var.index_of() as int,
                            )),
                    decreases declarations@.len() - k,
                {
                    let ghost before = *self;
                    proof {
                        if int_block(tree, s) && block_names_fresh(tree, s, start.scope()) && start.scope().spec_scope_level()
                            == 1 {
                            assert(decl_key(tree, declarations@[k as int]) is Some);
                            assert(fresh_int_var_decl(tree, declarations@[k as int], self.scope()));
                        }
                    }
                    let r = self.visit_declaration(&declarations[k], Ghost(s), tree);
                    proof {
                        self.lemma_progress_trans(&before, &start);
                        if int_block(tree, s) && block_names_fresh(tree, s, start.scope()) && start.scope().spec_scope_level() == 1 && int_typed(tree, &start.semantic_metadata) {
                            assert forall|j: int| 0 <= j < k + 1 implies (#[trigger] declarations@[j] matches Decl::VarDecl {
                                var,
                                ..
                            } && expr_is_integer(&self.semantic_metadata, var.index_of() as int)) by {
                                if j < k {
                                    if let Decl::VarDecl { var, .. } = declarations@[j] {
                                        assert(decl_ok(declarations@[j], s, ne, nt, src_len));
                                        lemma_expr_integer_stays(
                                            tree,
                                            &before.semantic_metadata,
                                            &self.semantic_metadata,
                                            var.index_of() as int,
                                        );
                                    }
                                }
                            }
                        }
                        if int_block(tree, s) && block_names_fresh(tree, s, start.scope()) && start.scope().spec_scope_level()
                            == 1 {
                            let xk = decl_key(tree, declarations@[k as int])->0;
                            assert forall|j: int| 0 <= j < k + 1 implies (#[trigger] decl_key(tree, declarations@[j]) matches Some(
                                x,
                            ) ==> int_var_entry(self.scope(), &self.semantic_metadata, x)) by {
                                if j < k {
                                    if let Some(x) = decl_key(tree, declarations@[j]) {
                                        assert(decl_key(tree, declarations@[j]) != decl_key(tree, declarations@[k as int]));
                                        assert(x != xk);
                                        lemma_int_var_entry_keeps(
                                            before.scope(),
                                            self.scope(),
                                            &before.semantic_metadata,
                                            &self.semantic_metadata,
                                            x,
                                        );
                                    }
                                }
                            }
                            assert forall|j: int| k + 1 <= j < declarations@.len() implies (#[trigger] decl_key(
                                tree,
                                declarations@[j],
                            ) matches Some(x) ==> !self.scope().vars().contains_key(x)) by {
                                if let Some(x) = decl_key(tree, declarations@[j]) {
                                    assert(decl_key(tree, declarations@[k as int]) != decl_key(tree, declarations@[j]));
                                    assert(x != xk);
                                }
                            }
                        }
                    }
                    if let Err(e) = r {
                        errs.push(e);
                    }
                    k = k + 1;
                }
                let ghost before = *self;
                proof {
                    if int_block(tree, s) && block_names_fresh(tree, s, start.scope()) && start.scope().spec_scope_level()
                        == 1 {
                        assert(decls_in_scope(tree, declarations@, self.scope(), &self.semantic_metadata));
                        lemma_int_stmt_over_in(
                            tree,
                            declarations@,
                            self.scope(),
                            &self.semantic_metadata,
                            statements.index_of() as int,
                        );
                    }
                }
                let stmt_result = self.visit_stmt(*statements, tree);
                let ghost sr = stmt_result;
                proof {
                    self.lemma_progress_trans(&before, &start);
                    if int_block(tree, s) && block_names_fresh(tree, s, start.scope()) && start.scope().spec_scope_level() == 1 && int_typed(tree, &start.semantic_metadata) {
                        assert forall|j: int| 0 <= j < declarations@.len() implies (#[trigger] declarations@[j] matches Decl::VarDecl {
                            var,
                            default_value: None,
                            ..
                        } && tree.expr_pool.nodes()[var.index_of() as int] is Var && expr_is_integer(
                            &self.semantic_metadata,
                            var.index_of() as int,
                        )) by {
                            if let Decl::VarDecl { var, .. } = declarations@[j] {
                                assert(decl_ok(declarations@[j], s, ne, nt, src_len));
                                lemma_expr_integer_stays(
                                    tree,
                                    &before.semantic_metadata,
                                    &self.semantic_metadata,
                                    var.index_of() as int,
                                );
                            }
                        }
                    }
                    if let Err(e) = sr {
                        lemma_flatten_semantic(e);
                    }
                }
                let ghost ev = errs@;
                let all = Errors::new(errs).add(stmt_result);
                let ghost av = all@;
                let res = all.into_result();
                proof {
                    if let Some(list) = block_statement_list(stmts, s) {
                        if all_plain(stmts, list, start.outside_loops()) {
                            assert(ev.len() == 0);
                            assert(av =~= match sr {
                                Ok(()) => Seq::<Error>::empty(),
                                Err(e) => flatten(e),
                            });
                            lemma_flatten_codes(sr, av, plain_codes(stmts, list, start.outside_loops(), list.len() as int), res);
                        }
                    }
                    assert forall|j: int| 0 <= j < av.len() implies semantic_failure(#[trigger] av[j]) by {
                        if j >= ev.len() {
                            if let Err(e) = sr {
                                assert(av[j] == flatten(e)[j - ev.len()]);
                            }
                        }
                    }
                    lemma_combined_semantic(av, res);
                }
                res
            },
            Stmt::Assign { left, right } => {
                proof {
                    let md = start.semantic_metadata;
                    if let Expr::Var { name } = exprs[left.index_of() as int] {
                        lemma_lookups_within(
                            *start.current_scope,
                            lexeme_of(name, tree.source_code@),
                            false,
                            start.current_scope.own_locality(),
                            md.types.nodes().len() as int,
                            md.vars.nodes().len() as int,
                            md.callables.nodes().len() as int,
                        );
                    }
                }
                let left_type_ref = self.visit_expr(*left, tree)?;
                proof {
                    assert(exprs[left.index_of() as int] is Var || exprs[left.index_of() as int] is Index);
                    if let Expr::Var { name } = exprs[left.index_of() as int] {
                        if let Some((v, _)) = start.scope().spec_lookup_var(lexeme_of(name, tree.source_code@), false) {
                            lemma_var_pool_stable(&start.semantic_metadata, &self.semantic_metadata, v.index_of() as int);
                        }
                    }
                }
                if let Expr::Var { .. } = tree.expr_pool.get(*left) {
                    match self.semantic_metadata.var_symbols.get(&left.to_index()) {
                        Some(var_symbol) => {
                            if let VarSymbol::Const { .. } = self.semantic_metadata.vars.get(*var_symbol) {
                                let d = debug_text(var_symbol);
                                return Err(
                                    semantic_error(text(vec!["cannot assign to const ", d.as_str()]), pos, ErrorCode::AssignmentError),
                                );
                            }
                        },
                        None => {},
                    }
                }
                let ghost mid = *self;
                proof {
                    lemma_typed_grows(
                        tree,
                        start.scope(),
                        &start.semantic_metadata,
                        &self.semantic_metadata,
                        right.index_of() as int,
                    );
                    if int_stmt_in(tree, start.scope(), &start.semantic_metadata, s) {
                        lemma_int_expr_grows(
                            tree,
                            start.scope(),
                            &start.semantic_metadata,
                            &self.semantic_metadata,
                            right.index_of() as int,
                        );
                    }
                }
                let right_type_ref = match self.visit_expr(*right, tree) {
                    Ok(t) => t,
                    Err(e) => {
                        proof {
                            self.lemma_progress_trans(&mid, &start);
                        }
                        return Err(e);
                    },
                };
                proof {
                    self.lemma_progress_trans(&mid, &start);
                    lemma_type_pool_stable(&mid.semantic_metadata, &self.semantic_metadata, left_type_ref.index_of() as int);
                    if int_stmt_in(tree, start.scope(), &start.semantic_metadata, s) && int_typed(tree, &start.semantic_metadata) {
                        lemma_fragment_expr_stays(tree, &mid.semantic_metadata, &self.semantic_metadata, left.index_of() as int);
                    }
                }
                let types = &self.semantic_metadata.types;
                let left_type = types.get(left_type_ref);
                let right_type = types.get(right_type_ref);
                proof {
                    assert(type_refs_below(types.nodes()[left_type_ref.index_of() as int], left_type_ref.index_of() as int));
                    assert(type_refs_below(types.nodes()[right_type_ref.index_of() as int], right_type_ref.index_of() as int));
                }
                if !assinable(types, left_type, right_type) {
                    let a = debug_text(right_type);
                    let b = debug_text(left_type);
                    return Err(
                        semantic_error(
                            text(vec!["value of type ", a.as_str(), " is not assignable to ", b.as_str()]),
                            pos,
                            ErrorCode::AssignmentError,
                        ),
                    );
                }
                Ok(())
            },
            Stmt::Break => {
                if self.loop_depth == 0 && !self.unfinished_loop {
                    return Err(
                        semantic_error(String::from_str("break should be within loop"), pos, ErrorCode::BreakOutsideLoop),
                    );
                }
                Ok(())
            },
            Stmt::Continue => {
                if self.loop_depth == 0 && !self.unfinished_loop {
                    return Err(
                        semantic_error(
                            String::from_str("continue should be within loop"),
                            pos,
                            ErrorCode::ContinueOutsideLoop,
                        ),
                    );
                }
                Ok(())
            },
            Stmt::Call { call } => {
                self.visit_callable(*call, tree)?;
                let ghost mid = *self;
                let none_ref = self.semantic_metadata.alloc_type(TypeSymbol::Empty);
                self.semantic_metadata.set_expr_type(*call, none_ref);
                proof {
                    assert(self.semantic_metadata.types.nodes().take(mid.semantic_metadata.types.nodes().len() as int)
                        =~= mid.semantic_metadata.types.nodes());
                    lemma_grows_refl(&mid.semantic_metadata);
                    lemma_grows_trans(&self.semantic_metadata, &mid.semantic_metadata, &start.semantic_metadata);
                    self.lemma_scope_still_within(&mid);
                }
                Ok(())
            },
            Stmt::Compound(stmts_list) => {
                let mut errs: Vec<Error> = Vec::new();
                let mut k: usize = 0;
                while k < stmts_list.len()
                    invariant
                        types_follow_rules(tree, &self.semantic_metadata),
                        tree.wf(),
                        shapes_ok(tree),
                        stmts == tree.stmt_pool.nodes(),
                        0 <= s < stmts.len(),
                        s == node.index_of(),
                        forall|j: int| 0 <= j < stmts_list@.len() ==> (#[trigger] stmts_list@[j]).index_of() < s,
                        k <= stmts_list@.len(),
                        self.progress(&start),
                        start == *old(self),
                        self.room(s),
                        forall|j: int| 0 <= j < errs@.len() ==> semantic_failure(#[trigger] errs@[j]),
                        stmts[s] == Stmt::Compound(*stmts_list),
                        all_plain(stmts, stmts_list@, start.outside_loops()) ==> self.outside_loops() == start.outside_loops(),
                        all_plain(stmts, stmts_list@, start.outside_loops()) ==> errors_have_codes(
                            errs@,
                            plain_codes(stmts, stmts_list@, start.outside_loops(), k as int),
                        ),
                        start.semantic_metadata.wf(),
                        int_stmt_in(tree, start.scope(), &start.semantic_metadata, s) ==> errs@.len() == 0
                            && self.current_scope == start.current_scope,
                        int_stmt_in(tree, start.scope(), &start.semantic_metadata, s) && int_typed(tree, &start.semantic_metadata) ==> int_typed(tree, &self.semantic_metadata) && forall|j: int|
                            0 <= j < k ==> int_fragment_stmt(tree, &self.semantic_metadata, (#[trigger] stmts_list@[j]).index_of() as int),
                    decreases stmts_list@.len() - k,
                {
                    let ghost before = *self;
                    proof {
                        if int_stmt_in(tree, start.scope(), &start.semantic_metadata, s) {
                            assert(int_stmt_in(tree, start.scope(), &start.semantic_metadata, stmts_list@[k as int].index_of() as int));
                            lemma_int_stmt_grows(
                                tree,
                                start.scope(),
                                &start.semantic_metadata,
                                &self.semantic_metadata,
                                stmts_list@[k as int].index_of() as int,
                            );
                        }
                    }
                    let r = self.visit_stmt(stmts_list[k], tree);
                    proof {
                        self.lemma_progress_trans(&before, &start);
                        if int_stmt_in(tree, start.scope(), &start.semantic_metadata, s) && int_typed(tree, &start.semantic_metadata) {
                            assert forall|j: int| 0 <= j < k + 1 implies int_fragment_stmt(
                                tree,
                                &self.semantic_metadata,
                                (#[trigger] stmts_list@[j]).index_of() as int,
                            ) by {
                                if j < k {
                                    lemma_fragment_stmt_stays(
                                        tree,
                                        &before.semantic_metadata,
                                        &self.semantic_metadata,
                                        stmts_list@[j].index_of() as int,
                                    );
                                }
                            }
                        }
                    }
                    let ghost e_before = errs@;
                    if let Err(e) = r {
                        errs.push(e);
                    }
                    proof {
                        let d = start.outside_loops();
                        if all_plain(stmts, stmts_list@, d) {
                            assert(plain_stmt_outcome(stmts[stmts_list@[k as int].index_of() as int], d) is Some);
                            let codes = plain_codes(stmts, stmts_list@, d, k as int + 1);
                            assert(errors_have_codes(errs@, codes)) by {
                                assert forall|i: int| 0 <= i < errs@.len() implies semantic_error_with(
                                    #[trigger] errs@[i],
                                    codes[i],
                                ) by {
                                    if i < e_before.len() {
                                        assert(errs@[i] == e_before[i]);
                                    }
                                }
                            }
                        }
                    }
                    k = k + 1;
                }
                let ghost ev = errs@;
                let res = Errors::new(errs).into_result();
                proof {
                    lemma_combined_semantic(ev, res);
                    if all_plain(stmts, stmts_list@, start.outside_loops()) {
                        lemma_combined_codes(
                            ev,
                            plain_codes(stmts, stmts_list@, start.outside_loops(), stmts_list@.len() as int),
                            res,
                        );
                    }
                    if int_stmt_in(tree, start.scope(), &start.semantic_metadata, s) && int_typed(tree, &start.semantic_metadata) {
                        assert forall|j: int| 0 <= j < stmts_list@.len() implies (#[trigger] stmts_list@[j]).index_of() < s
                            && int_fragment_stmt(tree, &self.semantic_metadata, stmts_list@[j].index_of() as int) by {}
                    }
                }
                res
            },
            Stmt::Exit(v) => {
                if let Some(expr_ref) = v {
                    self.visit_expr(*expr_ref, tree)?;
                }
                Ok(())
            },
            Stmt::NoOp => Ok(()),
            Stmt::If { cond, elifs, else_statement } => {
                self.visit_condition(cond, Ghost(s), tree)?;
                let mut k: usize = 0;
                while k < elifs.len()
                    invariant
                        types_follow_rules(tree, &self.semantic_metadata),
                        tree.wf(),
                        shapes_ok(tree),
                        stmts == tree.stmt_pool.nodes(),
                        exprs == tree.expr_pool.nodes(),
                        ne == exprs.len(),
                        0 <= s < stmts.len(),
                        s == node.index_of(),
                        forall|j: int| 0 <= j < elifs@.len() ==> cond_ok(#[trigger] elifs@[j], s, ne),
                        stmts[s] == (Stmt::If { cond: *cond, elifs: *elifs, else_statement: *else_statement }),
                        start.semantic_metadata.wf(),
                        int_stmt_in(tree, start.scope(), &start.semantic_metadata, s) ==> elifs@.len() == 0
                            && self.current_scope == start.current_scope,
                        int_stmt_in(tree, start.scope(), &start.semantic_metadata, s) && int_typed(tree, &start.semantic_metadata) ==> int_typed(tree, &self.semantic_metadata) && int_fragment_cond(
                            tree,
                            &self.semantic_metadata,
                            cond.cond.index_of() as int,
                        ) && int_fragment_stmt(tree, &self.semantic_metadata, cond.expr.index_of() as int),
                        k <= elifs@.len(),
                        self.progress(&start),
                        start == *old(self),
                        self.room(s),
                        !(typed(tree, start.scope(), &start.semantic_metadata, cond.cond.index_of() as int) matches Some(t)
                            && !(t is Boolean)),
                    decreases elifs@.len() - k,
                {
                    let ghost before = *self;
                    let r = self.visit_condition(&elifs[k], Ghost(s), tree);
                    proof {
                        self.lemma_progress_trans(&before, &start);
                    }
                    r?;
                    k = k + 1;
                }
                if let Some(stmt) = else_statement {
                    let ghost before = *self;
                    proof {
                        if int_stmt_in(tree, start.scope(), &start.semantic_metadata, s) {
                            lemma_int_stmt_grows(
                                tree,
                                start.scope(),
                                &start.semantic_metadata,
                                &self.semantic_metadata,
                                stmt.index_of() as int,
                            );
                        }
                    }
                    let r = self.visit_stmt(*stmt, tree);
                    proof {
                        self.lemma_progress_trans(&before, &start);
                        if int_stmt_in(tree, start.scope(), &start.semantic_metadata, s) && int_typed(tree, &start.semantic_metadata) {
                            lemma_fragment_cond_stays(
                                tree,
                                &before.semantic_metadata,
                                &self.semantic_metadata,
                                cond.cond.index_of() as int,
                            );
                            lemma_fragment_stmt_stays(
                                tree,
                                &before.semantic_metadata,
                                &self.semantic_metadata,
                                cond.expr.index_of() as int,
                            );
                        }
                    }
                    r?;
                }
                Ok(())
            },
            Stmt::While { cond, body } => {
                let type_ref = self.visit_expr(*cond, tree)?;
                let type_symbol = self.semantic_metadata.types.get(type_ref);
                if !matches!(type_symbol, TypeSymbol::Boolean) {
                    let d = debug_text(type_symbol);
                    return Err(
                        semantic_error(
                            text(vec!["condition should be a boolean, got ", d.as_str()]),
                            pos,
                            ErrorCode::ConditionNotBoolean,
                        ),
                    );
                }
                let ghost mid = *self;
                proof {
                    if int_stmt_in(tree, start.scope(), &start.semantic_metadata, s) {
                        lemma_int_stmt_grows(
                            tree,
                            start.scope(),
                            &start.semantic_metadata,
                            &self.semantic_metadata,
                            body.index_of() as int,
                        );
                    }
                }
                let r = self.visit_loop_body(*body, tree);
                proof {
                    self.lemma_progress_trans(&mid, &start);
                    if int_stmt_in(tree, start.scope(), &start.semantic_metadata, s) && int_typed(tree, &start.semantic_metadata) {
                        lemma_fragment_cond_stays(tree, &mid.semantic_metadata, &self.semantic_metadata, cond.index_of() as int);
                    }
                }
                r
            },
            Stmt::For { var, init, end, body } => {
                let init_ref = self.visit_expr(*init, tree)?;
                let ghost mid = *self;
                proof {
                    lemma_typed_grows(tree, start.scope(), &start.semantic_metadata, &self.semantic_metadata, end.index_of() as int);
                }
                let end_ref = match self.visit_expr(*end, tree) {
                    Ok(t) => t,
                    Err(e) => {
                        proof {
                            self.lemma_progress_trans(&mid, &start);
                        }
                        return Err(e);
                    },
                };
                proof {
                    self.lemma_progress_trans(&mid, &start);
                    lemma_type_pool_stable(&mid.semantic_metadata, &self.semantic_metadata, init_ref.index_of() as int);
                }
                let lexeme = var.lexem(tree.source_code);
                let found = self.current_scope.lookup_var(lexeme, false);
                proof {
                    let md = self.semantic_metadata;
                    lemma_lookups_within(
                        *self.current_scope,
                        lexeme@,
                        false,
                        self.current_scope.own_locality(),
                        md.types.nodes().len() as int,
                        md.vars.nodes().len() as int,
                        md.callables.nodes().len() as int,
                    );
                }
                proof {
                    let md0 = start.semantic_metadata;
                    assert(lexeme@ == lexeme_of(*var, tree.source_code@));
                    lemma_lookups_within(
                        *start.current_scope,
                        lexeme@,
                        false,
                        start.current_scope.own_locality(),
                        md0.types.nodes().len() as int,
                        md0.vars.nodes().len() as int,
                        md0.callables.nodes().len() as int,
                    );
                    if let Some((v, _)) = start.scope().spec_lookup_var(lexeme@, false) {
                        lemma_var_pool_stable(&start.semantic_metadata, &self.semantic_metadata, v.index_of() as int);
                    }
                }
                let var_type_ref = match found {
                    None => {
                        return Err(semantic_error(text(vec!["unkown variable ", lexeme]), pos, ErrorCode::UnkownVariable));
                    },
                    Some((vref, kind)) => match self.semantic_metadata.vars.get(vref) {
                        VarSymbol::Var { type_symbol, .. } => {
                            let t = *type_symbol;
                            let ghost m0 = *self;
                            self.semantic_metadata.set_loop_var(node, vref, kind);
                            proof {
                                lemma_grows_refl(&m0.semantic_metadata);
                                lemma_grows_trans(&self.semantic_metadata, &m0.semantic_metadata, &start.semantic_metadata);
                                self.lemma_scope_still_within(&m0);
                            }
                            t
                        },
                        other => {
                            let d = debug_text(other);
                            return Err(semantic_error(text(vec!["expected var, got ", d.as_str()]), pos, ErrorCode::ExpectedVar));
                        },
                    },
                };
                let types = &self.semantic_metadata.types;
                let init_type = types.get(init_ref);
                let end_type = types.get(end_ref);
                let var_type = types.get(var_type_ref);
                proof {
                    let tn = types.nodes();
                    let t0 = start.semantic_metadata.types.nodes();
                    lemma_typed_refs_below(tree, start.scope(), &start.semantic_metadata, init.index_of() as int);
                    lemma_typed_refs_below(tree, start.scope(), &start.semantic_metadata, end.index_of() as int);
                    if let (Some(a), Some(b)) = (
                        typed(tree, start.scope(), &start.semantic_metadata, init.index_of() as int),
                        typed(tree, start.scope(), &start.semantic_metadata, end.index_of() as int),
                    ) {
                        lemma_type_eq_grows(t0, tn, a, b);
                        if let Some((v, _)) = start.scope().spec_lookup_var(lexeme@, false) {
                            let k = start.semantic_metadata.vars.nodes()[v.index_of() as int].spec_type_symbol().index_of() as int;
                            assert(type_refs_below(t0[k], k));
                            lemma_type_pool_stable(&start.semantic_metadata, &self.semantic_metadata, k);
                            lemma_type_eq_grows(t0, tn, t0[k], a);
                        }
                    }
                    assert(type_refs_below(tn[init_ref.index_of() as int], init_ref.index_of() as int));
                    assert(type_refs_below(tn[end_ref.index_of() as int], end_ref.index_of() as int));
                    assert(type_refs_below(tn[var_type_ref.index_of() as int], var_type_ref.index_of() as int));
                }
                if !TypeSymbol::eq(types, init_type, end_type) {
                    let a = debug_text(init_type);
                    let b = debug_text(end_type);
                    return Err(
                        semantic_error(
                            text(vec!["initial and end of for loop should have the same type, got ", a.as_str(), " and ", b.as_str()]),
                            pos,
                            ErrorCode::IncompatibleTypes,
                        ),
                    );
                }
                if !TypeSymbol::eq(types, var_type, init_type) {
                    let a = debug_text(init_type);
                    let b = debug_text(var_type);
                    return Err(
                        semantic_error(
                            text(
                                vec![
                                    "variable type of for loop should be the same as limit types, limit is ",
                                    a.as_str(),
                                    ", but variable is ",
                                    b.as_str(),
                                ],
                            ),
                            pos,
                            ErrorCode::IncompatibleTypes,
                        ),
                    );
                }
                let ghost mid2 = *self;
                let r = self.visit_loop_body(*body, tree);
                proof {
                    self.lemma_progress_trans(&mid2, &start);
                }
                r
            },
        }
    }

    /// Checks the body of a loop one loop level deeper.
    fn visit_loop_body(&mut self, body: StmtRef, tree: &Tree) -> (r: Result<(), Error>)
        requires
            types_follow_rules(tree, &old(self).semantic_metadata),
            old(self).wf(),
            old(self).room(body.index_of() as int + 1),
            tree.wf(),
            shapes_ok(tree),
            body.index_of() < tree.stmt_pool.nodes().len(),
        ensures
            types_follow_rules(tree, &final(self).semantic_metadata),
            final(self).progress(old(self)),
            r matches Err(e) ==> semantic_failure(e),
            int_stmt_in(tree, old(self).scope(), &old(self).semantic_metadata, body.index_of() as int) ==> r is Ok
                && final(self).current_scope == old(self).current_scope,
            int_stmt_in(tree, old(self).scope(), &old(self).semantic_metadata, body.index_of() as int) && int_typed(
                tree,
                &old(self).semantic_metadata,
            ) ==> int_typed(tree, &final(self).semantic_metadata) && int_fragment_stmt(
                tree,
                &final(self).semantic_metadata,
                body.index_of() as int,
            ),
        decreases body.index_of() + 1, 4int, 0int, 0int,
    {
        self.loop_depth = self.loop_depth + 1;
        let r = self.visit_stmt(body, tree);
        self.loop_depth = self.loop_depth - 1;
        if r.is_err() {
            self.unfinished_loop = true;
        }
        r
    }

    /// Checks that the condition is a boolean, then the statement it guards.
    fn visit_condition(&mut self, cond: &Condition, owner: Ghost<int>, tree: &Tree) -> (r: Result<(), Error>)
        requires
            types_follow_rules(tree, &old(self).semantic_metadata),
            old(self).wf(),
            old(self).room(owner@),
            tree.wf(),
            shapes_ok(tree),
            0 <= owner@ < tree.stmt_pool.nodes().len(),
            cond_ok(*cond, owner@, tree.expr_pool.nodes().len() as int),
        ensures
            types_follow_rules(tree, &final(self).semantic_metadata),
            final(self).progress(old(self)),
            r matches Err(e) ==> semantic_failure(e),
            int_cond_in(tree, old(self).scope(), &old(self).semantic_metadata, cond.cond.index_of() as int) && int_stmt_in(
                tree,
                old(self).scope(),
                &old(self).semantic_metadata,
                cond.expr.index_of() as int,
            ) ==> r is Ok && final(self).current_scope == old(self).current_scope,
            int_cond_in(tree, old(self).scope(), &old(self).semantic_metadata, cond.cond.index_of() as int) && int_stmt_in(
                tree,
                old(self).scope(),
                &old(self).semantic_metadata,
                cond.expr.index_of() as int,
            ) && int_typed(tree, &old(self).semantic_metadata) ==> int_typed(tree, &final(self).semantic_metadata)
                && int_fragment_cond(tree, &final(self).semantic_metadata, cond.cond.index_of() as int) && int_fragment_stmt(
                tree,
                &final(self).semantic_metadata,
                cond.expr.index_of() as int,
            ),
            typed(tree, old(self).scope(), &old(self).semantic_metadata, cond.cond.index_of() as int) matches Some(t)
                && !(t is Boolean) ==> fails_with(r, ErrorCode::ConditionNotBoolean),
        decreases owner@ + 1, 2int, 0int, 0int,
    {
        let ghost start = *self;
        let type_ref = self.visit_expr(cond.cond, tree)?;
        proof {
            if int_stmt_in(tree, start.scope(), &start.semantic_metadata, cond.expr.index_of() as int) {
                lemma_int_stmt_grows(
                    tree,
                    start.scope(),
                    &start.semantic_metadata,
                    &self.semantic_metadata,
                    cond.expr.index_of() as int,
                );
            }
        }
        let type_symbol = self.semantic_metadata.types.get(type_ref);
        if !matches!(type_symbol, TypeSymbol::Boolean) {
            let d = debug_text(type_symbol);
            return Err(
                semantic_error(
                    text(vec!["condition should be boolean, got ", d.as_str()]),
                    tree.node_pos(NodeRef::ExprRef(cond.cond)),
                    ErrorCode::ConditionNotBoolean,
                ),
            );
        }
        let ghost mid = *self;
        let r = self.visit_stmt(cond.expr, tree);
        proof {
            self.lemma_progress_trans(&mid, &start);
            if int_cond_in(tree, start.scope(), &start.semantic_metadata, cond.cond.index_of() as int) && int_stmt_in(
                tree,
                start.scope(),
                &start.semantic_metadata,
                cond.expr.index_of() as int,
            ) && int_typed(tree, &start.semantic_metadata) {
                lemma_fragment_cond_stays(tree, &mid.semantic_metadata, &self.semantic_metadata, cond.cond.index_of() as int);
            }
        }
        r
    }
}

impl SemanticAnalyzer {
    /// Checks a declaration of the block `owner` and defines its names in the
    /// current scope; a callable is analysed in a scope of its own.
    fn visit_declaration(&mut self, decl: &Decl, owner: Ghost<int>, tree: &Tree) -> (r: Result<(), Error>)
        requires
            types_follow_rules(tree, &old(self).semantic_metadata),
            old(self).wf(),
            old(self).room(owner@),
            tree.wf(),
            shapes_ok(tree),
            0 <= owner@ < tree.stmt_pool.nodes().len(),
            decl_ok(
                *decl,
                owner@,
                tree.expr_pool.nodes().len() as int,
                tree.type_pool.nodes().len() as int,
                tree.source_code@.len() as int,
            ),
            decl_shape_ok(tree.expr_pool.nodes(), *decl),
        ensures
            types_follow_rules(tree, &final(self).semantic_metadata),
            final(self).progress(old(self)),
            r matches Err(e) ==> semantic_failure(e),
            declares_name(tree, *decl, old(self).scope(), final(self).scope(), r),
            fresh_int_var_decl(tree, *decl, old(self).scope()) ==> r is Ok && adds_int_var(
                tree,
                *decl,
                old(self).scope(),
                final(self).scope(),
                &final(self).semantic_metadata,
            ),
            fresh_int_var_decl(tree, *decl, old(self).scope()) && int_typed(tree, &old(self).semantic_metadata) ==> int_typed(
                tree,
                &final(self).semantic_metadata,
            ) && (decl matches Decl::VarDecl { var, .. } && expr_is_integer(&final(self).semantic_metadata, var.index_of() as int)),
            *decl matches Decl::Callable { name, params, return_type, .. } ==> (r is Ok ==> defines_declared_callable(
                tree,
                final(self).scope(),
                &final(self).semantic_metadata,
                name,
                params@,
                return_type,
            )),
            default_value_types(tree, *decl, old(self).scope(), &old(self).semantic_metadata) matches Some((a, b)) ==> ((r is Ok
                <==> spec_assinable(final(self).semantic_metadata.types.nodes(), a, b)) && (r is Err ==> fails_with(
                r,
                ErrorCode::IncorrectType,
            ))),
        decreases owner@ + 1, 2int, 0int, 0int,
    {
        let ghost start = *self;
        let ghost exprs = tree.expr_pool.nodes();
        let ghost src_len = tree.source_code@.len() as int;
        proof {
            self.lemma_progress_refl();
        }
        match decl {
            Decl::ConstDecl { var, literal } => {
                proof {
                    assert(expr_node_ok(exprs[var.index_of() as int], var.index_of() as int, src_len));
                    assert(expr_node_ok(exprs[literal.index_of() as int], literal.index_of() as int, src_len));
                }
                let var_name = match tree.expr_pool.get(*var) {
                    Expr::Var { name } => name,
                    _ => {
                        return Ok(());
                    },
                };
                let value = match tree.expr_pool.get(*literal) {
                    Expr::LiteralInteger(v) => ConstValue::Integer(*v),
                    Expr::LiteralBool(v) => ConstValue::Boolean(*v),
                    Expr::LiteralReal(v) => ConstValue::Real(*v),
                    Expr::LiteralString(v) => ConstValue::String(String::from_str(v.lexem(tree.source_code))),
                    Expr::LiteralChar(c) => ConstValue::Char(*c),
                    _ => {
                        return Ok(());
                    },
                };
                let type_symbol = self.visit_expr(*literal, tree)?;
                let ghost mid = *self;
                let const_symbol = self.semantic_metadata.alloc_var(VarSymbol::Const { value, type_symbol });
                proof {
                    assert(self.semantic_metadata.vars.nodes().take(mid.semantic_metadata.vars.nodes().len() as int)
                        =~= mid.semantic_metadata.vars.nodes());
                    lemma_grows_refl(&mid.semantic_metadata);
                    self.lemma_scope_still_within(&mid);
                }
                let ghost scope_before = *self.current_scope;
                self.current_scope.define_var(var_name.lexem(tree.source_code), const_symbol);
                proof {
                    let md = self.semantic_metadata;
                    lemma_define_within(
                        scope_before,
                        *self.current_scope,
                        md.types.nodes().len() as int,
                        md.vars.nodes().len() as int,
                        md.callables.nodes().len() as int,
                    );
                    lemma_grows_trans(&self.semantic_metadata, &mid.semantic_metadata, &start.semantic_metadata);
                }
                Ok(())
            },
            Decl::Callable { name, block, params, return_type } => {
                proof {
                    assert(token_in(*name, src_len));
                }
                let lexeme = name.lexem(tree.source_code);
                let level = self.current_scope.get_scope_level() + 1;
                let mut outer = Box::new(SymbolTable::new(0, "", None));
                std::mem::swap(&mut outer, &mut self.current_scope);
                let ghost outer_scope = *outer;
                self.current_scope = Box::new(SymbolTable::new(level, lexeme, Some(outer)));
                proof {
                    let md = self.semantic_metadata;
                    lemma_scope_within(
                        *self.current_scope,
                        md.types.nodes().len() as int,
                        md.vars.nodes().len() as int,
                        md.callables.nodes().len() as int,
                    );
                }
                let ghost inner_start = *self;
                let r = self.visit_callable_decl(name, *block, params, *return_type, owner, tree);
                proof {
                    let md = self.semantic_metadata;
                    lemma_enclosing_within(
                        *self.current_scope,
                        md.types.nodes().len() as int,
                        md.vars.nodes().len() as int,
                        md.callables.nodes().len() as int,
                    );
                }
                let taken = self.current_scope.take_enclosing_scope();
                match taken {
                    Some(e) => {
                        self.current_scope = e;
                    },
                    None => {},
                }
                r
            },
            Decl::TypeDecl { var, type_node } => {
                let ghost ts = tree.type_pool.nodes();
                proof {
                    assert(type_node_ok(ts[var.index_of() as int], var.index_of() as int, exprs.len() as int, src_len));
                }
                let var_name = match tree.type_pool.get(*var) {
                    Type::Alias(name) => name,
                    other => {
                        let d = debug_text(other);
                        return Err(
                            semantic_error(
                                text(vec!["expected var, got ", d.as_str()]),
                                tree.node_pos(NodeRef::TypeRef(*var)),
                                ErrorCode::ExpectedVar,
                            ),
                        );
                    },
                };
                let lexeme = var_name.lexem(tree.source_code);
                if self.current_scope.lookup_type(lexeme, true).is_some() {
                    let d = debug_text(var_name);
                    return Err(
                        semantic_error(
                            text(vec!["type ", d.as_str(), " is already defined"]),
                            tree.node_pos(NodeRef::TypeRef(*var)),
                            ErrorCode::DuplicateTypeDefinition,
                        ),
                    );
                }
                let type_symbol_ref = self.visit_type(*type_node, tree)?;
                let ghost scope_before = *self.current_scope;
                self.current_scope.define_type(lexeme, type_symbol_ref);
                proof {
                    let md = self.semantic_metadata;
                    lemma_define_within(
                        scope_before,
                        *self.current_scope,
                        md.types.nodes().len() as int,
                        md.vars.nodes().len() as int,
                        md.callables.nodes().len() as int,
                    );
                }
                Ok(())
            },
            Decl::VarDecl { var, type_node, default_value } => {
                proof {
                    assert(expr_node_ok(exprs[var.index_of() as int], var.index_of() as int, src_len));
                }
                let var_name = match tree.expr_pool.get(*var) {
                    Expr::Var { name } => name,
                    _ => {
                        return Ok(());
                    },
                };
                let lexeme = var_name.lexem(tree.source_code);
                if self.current_scope.lookup_var(lexeme, true).is_some() {
                    let d = debug_text(var_name);
                    return Err(
                        semantic_error(
                            text(vec!["var ", d.as_str(), " is already defined"]),
                            tree.node_pos(NodeRef::ExprRef(*var)),
                            ErrorCode::DuplicateVarDefinition,
                        ),
                    );
                }
                let type_symbol_ref = self.visit_type(*type_node, tree)?;
                if let Some(expr) = default_value {
                    let ghost mid = *self;
                    proof {
                        lemma_typed_grows(tree, start.scope(), &start.semantic_metadata, &self.semantic_metadata, expr.index_of() as int);
                    }
                    let default_type_ref = match self.visit_expr(*expr, tree) {
                        Ok(t) => t,
                        Err(e) => {
                            proof {
                                self.lemma_progress_trans(&mid, &start);
                            }
                            return Err(e);
                        },
                    };
                    proof {
                        self.lemma_progress_trans(&mid, &start);
                        lemma_type_pool_stable(&mid.semantic_metadata, &self.semantic_metadata, type_symbol_ref.index_of() as int);
                    }
                    let types = &self.semantic_metadata.types;
                    let default_type = types.get(default_type_ref);
                    let type_symbol = types.get(type_symbol_ref);
                    proof {
                        let tn = types.nodes();
                        assert(type_refs_below(tn[default_type_ref.index_of() as int], default_type_ref.index_of() as int));
                        assert(type_refs_below(tn[type_symbol_ref.index_of() as int], type_symbol_ref.index_of() as int));
                    }
                    if !assinable(types, type_symbol, default_type) {
                        let a = debug_text(default_type);
                        let b = debug_text(type_symbol);
                        return Err(
                            semantic_error(
                                text(vec!["default value have the type ", a.as_str(), " and is not assinable to ", b.as_str()]),
                                tree.node_pos(NodeRef::ExprRef(*expr)),
                                ErrorCode::IncorrectType,
                            ),
                        );
                    }
                }
                let ghost mid = *self;
                let var_symbol = self.semantic_metadata.alloc_var(
                    VarSymbol::Var {
                        name: String::from_str(lexeme),
                        pass_mode: VarPassMode::Val,
                        type_symbol: type_symbol_ref,
                    },
                );
                proof {
                    assert(self.semantic_metadata.vars.nodes().take(mid.semantic_metadata.vars.nodes().len() as int)
                        =~= mid.semantic_metadata.vars.nodes());
                    lemma_grows_refl(&mid.semantic_metadata);
                    self.lemma_scope_still_within(&mid);
                }
                let ghost scope_before = *self.current_scope;
                self.current_scope.define_var(lexeme, var_symbol);
                self.semantic_metadata.set_expr_type(*var, type_symbol_ref);
                proof {
                    let md = self.semantic_metadata;
                    lemma_define_within(
                        scope_before,
                        *self.current_scope,
                        md.types.nodes().len() as int,
                        md.vars.nodes().len() as int,
                        md.callables.nodes().len() as int,
                    );
                    lemma_grows_trans(&self.semantic_metadata, &mid.semantic_metadata, &start.semantic_metadata);
                }
                Ok(())
            },
        }
    }

    /// Defines the parameters of a callable in its new scope, the callable
    /// in the scope around, and for a function its result; then checks its
    /// body.
    fn visit_callable_decl(
        &mut self,
        name: &Token,
        block: StmtRef,
        params: &Vec<Param>,
        return_type: Option<TypeRef>,
        owner: Ghost<int>,
        tree: &Tree,
    ) -> (r: Result<(), Error>)
        requires
            types_follow_rules(tree, &old(self).semantic_metadata),
            old(self).wf(),
            old(self).current_scope.enclosing() is Some,
            old(self).room(block.index_of() as int),
            tree.wf(),
            shapes_ok(tree),
            0 <= owner@ < tree.stmt_pool.nodes().len(),
            block.index_of() < owner@,
            token_in(*name, tree.source_code@.len() as int),
            forall|k: int|
                0 <= k < params@.len() ==> param_ok(
                    #[trigger] params@[k],
                    tree.expr_pool.nodes().len() as int,
                    tree.type_pool.nodes().len() as int,
                ),
            forall|k: int| 0 <= k < params@.len() ==> tree.expr_pool.nodes()[(#[trigger] params@[k]).var.index_of() as int] is Var,
            return_type matches Some(t) ==> t.index_of() < tree.type_pool.nodes().len(),
        ensures
            types_follow_rules(tree, &final(self).semantic_metadata),
            final(self).wf(),
            final(self).semantic_metadata.grows_from(&old(self).semantic_metadata),
            final(self).loop_depth == old(self).loop_depth,
            old(self).unfinished_loop ==> final(self).unfinished_loop,
            final(self).current_scope.enclosing() matches Some(e) && e.enclosing()
                == old(self).current_scope.enclosing()->0.enclosing() && e.spec_scope_level()
                == old(self).current_scope.enclosing()->0.spec_scope_level(),
            r is Ok ==> final(self).current_scope.enclosing()->0.spec_lookup_callable(
                lexeme_of(*name, tree.source_code@),
                true,
            ) is Some,
            r is Ok ==> (final(self).current_scope.enclosing()->0.spec_lookup_callable(
                lexeme_of(*name, tree.source_code@),
                true,
            ) matches Some(c) && c.index_of() < final(self).semantic_metadata.callables.nodes().len() && declared_callable(
                final(self).semantic_metadata.callables.nodes()[c.index_of() as int],
                final(self).semantic_metadata.vars.nodes(),
                params@,
                return_type,
            )),
            r matches Err(e) ==> semantic_failure(e),
        decreases owner@ + 1, 1int, 0int, 0int,
    {
        let ghost return_type_param = return_type;
        let ghost start = *self;
        let ghost exprs = tree.expr_pool.nodes();
        let ghost src_len = tree.source_code@.len() as int;
        proof {
            self.lemma_progress_refl();
        }
        let lexeme = name.lexem(tree.source_code);
        let mut params_vec: Vec<VarSymbolRef> = Vec::new();
        let mut k: usize = 0;
        while k < params.len()
            invariant
                types_follow_rules(tree, &self.semantic_metadata),
                tree.wf(),
                shapes_ok(tree),
                exprs == tree.expr_pool.nodes(),
                src_len == tree.source_code@.len(),
                src_len <= 0x7fff_fff0,
                forall|j: int|
                    0 <= j < params@.len() ==> param_ok(#[trigger] params@[j], exprs.len() as int, tree.type_pool.nodes().len() as int),
                forall|j: int| 0 <= j < params@.len() ==> exprs[(#[trigger] params@[j]).var.index_of() as int] is Var,
                k <= params@.len(),
                self.progress(&start),
                start == *old(self),
                start.current_scope.enclosing() is Some,
                forall|j: int| 0 <= j < params_vec@.len() ==> (#[trigger] params_vec@[j]).index_of()
                    < self.semantic_metadata.vars.nodes().len() && self.semantic_metadata.vars.nodes()[params_vec@[j].index_of() as int] is Var,
                params_vec@.len() == k,
                forall|j: int| 0 <= j < k ==> param_symbol_fits(self.semantic_metadata.vars.nodes(), #[trigger] params_vec@[j], params@[j]),
            decreases params@.len() - k,
        {
            let param = &params[k];
            proof {
                assert(param_ok(params@[k as int], exprs.len() as int, tree.type_pool.nodes().len() as int));
                assert(exprs[param.var.index_of() as int] is Var);
                assert(expr_node_ok(exprs[param.var.index_of() as int], param.var.index_of() as int, src_len));
            }
            let var_name = match tree.expr_pool.get(param.var) {
                Expr::Var { name } => name,
                _ => {
                    return Ok(());
                },
            };
            let ghost before = *self;
            let type_symbol_ref = match self.visit_type(param.type_node, tree) {
                Ok(t) => t,
                Err(e) => {
                    proof {
                        self.lemma_progress_trans(&before, &start);
                    }
                    return Err(e);
                },
            };
            proof {
                self.lemma_progress_trans(&before, &start);
                assert forall|j: int| 0 <= j < params_vec@.len() implies (#[trigger] params_vec@[j]).index_of()
                    < self.semantic_metadata.vars.nodes().len() && self.semantic_metadata.vars.nodes()[params_vec@[j].index_of() as int] is Var
                    && param_symbol_fits(self.semantic_metadata.vars.nodes(), params_vec@[j], params@[j]) by {
                    lemma_var_pool_stable(&before.semantic_metadata, &self.semantic_metadata, params_vec@[j].index_of() as int);
                }
            }
            let ghost mid = *self;
            self.semantic_metadata.set_expr_type(param.var, type_symbol_ref);
            let pass_mode = if param.out {
                VarPassMode::Ref
            } else {
                VarPassMode::Val
            };
            let lex = var_name.lexem(tree.source_code);
            let var_symbol_ref = self.semantic_metadata.alloc_var(
                VarSymbol::Var { name: String::from_str(lex), pass_mode, type_symbol: type_symbol_ref },
            );
            self.semantic_metadata.set_var_symbol(param.var, var_symbol_ref);
            proof {
                assert(self.semantic_metadata.vars.nodes().take(mid.semantic_metadata.vars.nodes().len() as int)
                    =~= mid.semantic_metadata.vars.nodes());
                lemma_grows_refl(&mid.semantic_metadata);
                self.lemma_scope_still_within(&mid);
            }
            let ghost scope_before = *self.current_scope;
            self.current_scope.define_var(lex, var_symbol_ref);
            proof {
                let md = self.semantic_metadata;
                lemma_define_within(
                    scope_before,
                    *self.current_scope,
                    md.types.nodes().len() as int,
                    md.vars.nodes().len() as int,
                    md.callables.nodes().len() as int,
                );
                lemma_grows_trans(&self.semantic_metadata, &mid.semantic_metadata, &start.semantic_metadata);
                assert forall|j: int| 0 <= j < params_vec@.len() implies (#[trigger] params_vec@[j]).index_of()
                    < self.semantic_metadata.vars.nodes().len() && self.semantic_metadata.vars.nodes()[params_vec@[j].index_of() as int] is Var
                    && param_symbol_fits(self.semantic_metadata.vars.nodes(), params_vec@[j], params@[j]) by {
                    lemma_var_pool_stable(&mid.semantic_metadata, &self.semantic_metadata, params_vec@[j].index_of() as int);
                }
                assert(param_symbol_fits(self.semantic_metadata.vars.nodes(), var_symbol_ref, params@[k as int]));
            }
            params_vec.push(var_symbol_ref);
            k = k + 1;
        }
        let ghost before_rt = *self;
        let return_type = match return_type {
            Some(return_type_ref) => {
                let t = match self.visit_type(return_type_ref, tree) {
                    Ok(t) => t,
                    Err(e) => {
                        proof {
                            self.lemma_progress_trans(&before_rt, &start);
                        }
                        return Err(e);
                    },
                };
                Some(t)
            },
            None => None,
        };
        proof {
            if return_type.is_some() {
                self.lemma_progress_trans(&before_rt, &start);
                assert forall|j: int| 0 <= j < params_vec@.len() implies (#[trigger] params_vec@[j]).index_of()
                    < self.semantic_metadata.vars.nodes().len() && self.semantic_metadata.vars.nodes()[params_vec@[j].index_of() as int] is Var
                    && param_symbol_fits(self.semantic_metadata.vars.nodes(), params_vec@[j], params@[j]) by {
                    lemma_var_pool_stable(&before_rt.semantic_metadata, &self.semantic_metadata, params_vec@[j].index_of() as int);
                }
            }
        }
        let ghost mid = *self;
        let callable_symbol_ref = self.semantic_metadata.alloc_callable(
            CallableSymbol {
                name: String::from_str(lexeme),
                params: params_vec,
                param_input_mode: ParamInputMode::Sequence,
                return_type,
                body: CallableType::Custom { statement: block },
            },
        );
        proof {
            assert(self.semantic_metadata.callables.nodes().take(mid.semantic_metadata.callables.nodes().len() as int)
                =~= mid.semantic_metadata.callables.nodes());
            lemma_grows_refl(&mid.semantic_metadata);
            self.lemma_scope_still_within(&mid);
            lemma_grows_trans(&self.semantic_metadata, &mid.semantic_metadata, &start.semantic_metadata);
            let md = self.semantic_metadata;
            lemma_enclosing_within(
                *self.current_scope,
                md.types.nodes().len() as int,
                md.vars.nodes().len() as int,
                md.callables.nodes().len() as int,
            );
        }
        let ghost callable_md = self.semantic_metadata;
        let ghost pv = params_vec@;
        proof {
            lemma_grows_refl(&callable_md);
            assert(declared_callable(
                callable_md.callables.nodes()[callable_symbol_ref.index_of() as int],
                callable_md.vars.nodes(),
                params@,
                return_type_param,
            ));
        }
        let ghost scope_mid = *self.current_scope;
        match self.current_scope.get_mut_enclosing_scope() {
            Some(enclosing) => {
                let ghost enc_before = **enclosing;
                enclosing.define_callable(lexeme, callable_symbol_ref);
                proof {
                    let md = self.semantic_metadata;
                    lemma_define_within(
                        enc_before,
                        **enclosing,
                        md.types.nodes().len() as int,
                        md.vars.nodes().len() as int,
                        md.callables.nodes().len() as int,
                    );
                }
            },
            None => {},
        }
        proof {
            let md = self.semantic_metadata;
            lemma_scope_within(
                *self.current_scope,
                md.types.nodes().len() as int,
                md.vars.nodes().len() as int,
                md.callables.nodes().len() as int,
            );
        }
        if let Some(return_type_ref) = return_type {
            proof {
                assert(shapes_ok(tree));
            }
            let (return_assigned, can_fallthrough) = analyze_function(tree, lexeme, block, false)?;
            if can_fallthrough && !return_assigned {
                return Err(
                    semantic_error(
                        text(vec!["function ", lexeme, " may not return a result"]),
                        name.pos(),
                        ErrorCode::FunctionMayNotReturn,
                    ),
                );
            }
            let ghost m1 = *self;
            let result_var = self.semantic_metadata.alloc_var(
                VarSymbol::Var { name: String::from_str("result"), pass_mode: VarPassMode::Val, type_symbol: return_type_ref },
            );
            proof {
                assert(self.semantic_metadata.vars.nodes().take(m1.semantic_metadata.vars.nodes().len() as int)
                    =~= m1.semantic_metadata.vars.nodes());
                lemma_grows_refl(&m1.semantic_metadata);
                self.lemma_scope_still_within(&m1);
                lemma_grows_trans(&self.semantic_metadata, &m1.semantic_metadata, &start.semantic_metadata);
                lemma_grows_trans(&self.semantic_metadata, &m1.semantic_metadata, &callable_md);
            }
            let ghost s1 = *self.current_scope;
            self.current_scope.define_var("result", result_var);
            proof {
                let md = self.semantic_metadata;
                lemma_define_within(
                    s1,
                    *self.current_scope,
                    md.types.nodes().len() as int,
                    md.vars.nodes().len() as int,
                    md.callables.nodes().len() as int,
                );
            }
            let ghost m2 = *self;
            let name_var = self.semantic_metadata.alloc_var(
                VarSymbol::Var { name: String::from_str(lexeme), pass_mode: VarPassMode::Val, type_symbol: return_type_ref },
            );
            proof {
                assert(self.semantic_metadata.vars.nodes().take(m2.semantic_metadata.vars.nodes().len() as int)
                    =~= m2.semantic_metadata.vars.nodes());
                lemma_grows_refl(&m2.semantic_metadata);
                self.lemma_scope_still_within(&m2);
                lemma_grows_trans(&self.semantic_metadata, &m2.semantic_metadata, &start.semantic_metadata);
                lemma_grows_trans(&self.semantic_metadata, &m2.semantic_metadata, &callable_md);
            }
            let ghost s2 = *self.current_scope;
            self.current_scope.define_var(lexeme, name_var);
            proof {
                let md = self.semantic_metadata;
                lemma_define_within(
                    s2,
                    *self.current_scope,
                    md.types.nodes().len() as int,
                    md.vars.nodes().len() as int,
                    md.callables.nodes().len() as int,
                );
            }
        }
        let ghost before_body = *self;
        proof {
            assert(self.semantic_metadata.grows_from(&callable_md));
        }
        let r = self.visit_stmt(block, tree);
        proof {
            lemma_grows_trans(&self.semantic_metadata, &before_body.semantic_metadata, &start.semantic_metadata);
            lemma_grows_trans(&self.semantic_metadata, &before_body.semantic_metadata, &callable_md);
            let c = callable_symbol_ref.index_of() as int;
            assert(self.semantic_metadata.callables.nodes().take(callable_md.callables.nodes().len() as int)[c]
                == self.semantic_metadata.callables.nodes()[c]);
            assert forall|j: int| 0 <= j < pv.len() implies param_symbol_fits(
                self.semantic_metadata.vars.nodes(),
                #[trigger] pv[j],
                params@[j],
            ) by {
                lemma_var_pool_stable(&callable_md, &self.semantic_metadata, pv[j].index_of() as int);
            }
        }
        r
    }
}

impl SemanticAnalyzer {
    /// An analyser in the global scope, at level 1, around the scope of the
    /// built-in callables.
    pub fn new() -> (r: Self)
        ensures
            r.wf(),
            r.outside_loops(),
            r.scope().spec_scope_level() == 1,
            r.scope().spec_scope_name() == "global"@,
            r.scope().enclosing() matches Some(b) && b.spec_scope_level() == 0,
            r.metadata().expr_type_map@ == Map::<usize, TypeSymbolRef>::empty(),
            r.scope().vars() == Map::<Seq<char>, VarSymbolRef>::empty(),
            r.metadata().var_symbols@ == Map::<usize, VarSymbolRef>::empty(),
    {
        let mut callables: NodePool<CallableSymbolRef, CallableSymbol> = NodePool::new();
        let mut vars: NodePool<VarSymbolRef, VarSymbol> = NodePool::new();
        let mut types: NodePool<TypeSymbolRef, TypeSymbol> = NodePool::new();
        let builtin_scope = SymbolTable::with_builtins(&mut types, &mut vars, &mut callables);
        let semantic_metadata = SemanticMetadata {
            types,
            vars,
            callables,
            type_type_map: HashMapWithView::new(),
            expr_type_map: HashMapWithView::new(),
            callable_symbols: HashMapWithView::new(),
            var_symbols: HashMapWithView::new(),
            var_types: HashMapWithView::new(),
            type_sizes: HashMapWithView::new(),
            loop_var_symbols: HashMapWithView::new(),
            loop_var_types: HashMapWithView::new(),
        };
        let current_scope = SymbolTable::new(1, "global", Some(Box::new(builtin_scope)));
        proof {
            let md = semantic_metadata;
            let ts = md.types.nodes();
            assert(ts =~= seq![TypeSymbol::Any, TypeSymbol::String]);
            assert(types_ranked(ts));
            assert(md.vars.nodes().len() == 2);
            assert(md.callables.nodes().len() == 3);
            assert forall|i: int| 0 <= i < 3 implies callable_ok(
                #[trigger] md.callables.nodes()[i],
                md.vars.nodes(),
                2,
            ) by {}
            lemma_scope_within(builtin_scope, 2, 2, 3);
            lemma_scope_within(current_scope, 2, 2, 3);
            reveal_strlit("global");
        }
        Self { semantic_metadata, current_scope: Box::new(current_scope), loop_depth: 0, unfinished_loop: false }
    }

    /// Analyses a program: the metadata of its tree, or the errors found.
    pub fn analyze(self, tree: &Tree) -> (r: Result<SemanticMetadata, Error>)
        requires
            self.wf(),
            self.outside_loops(),
            self.scope().spec_scope_level() <= 1,
            tree.wf(),
            shapes_ok(tree),
            types_follow_rules(tree, &self.metadata()),
        ensures
            r matches Ok(md) ==> md.wf() && md.grows_from(&self.metadata()) && types_follow_rules(tree, &md),
            r matches Err(e) ==> semantic_failure(e),
            program_statement_list(tree.stmt_pool.nodes(), tree.program.index_of() as int) matches Some(list) ==> (all_plain(
                tree.stmt_pool.nodes(),
                list,
                true,
            ) ==> reports_codes(outcome(r), plain_codes(tree.stmt_pool.nodes(), list, true, list.len() as int))),
            self.scope().vars() == Map::<Seq<char>, VarSymbolRef>::empty() && self.scope().spec_scope_level() == 1
                && int_program(tree) ==> r is Ok,
            self.scope().vars() == Map::<Seq<char>, VarSymbolRef>::empty() && self.scope().spec_scope_level() == 1
                && int_typed(tree, &self.metadata()) && int_program(tree) ==> (r matches Ok(md) && int_fragment_program(
                tree,
                &md,
            )),
    {
        let mut analyzer = self;
        analyzer.visit_stmt(tree.program, tree)?;
        Ok(analyzer.semantic_metadata)
    }
}

fn is_var_expr(tree: &Tree, e: ExprRef) -> (r: bool)
    requires
        e.index_of() < tree.expr_pool.nodes().len(),
    ensures
        r == (tree.expr_pool.nodes()[e.index_of() as int] is Var),
{
    matches!(tree.expr_pool.get(e), Expr::Var { .. })
}

fn decl_shape_check(tree: &Tree, d: &Decl, owner: Ghost<int>) -> (r: bool)
    requires
        tree.wf(),
        0 <= owner@ < tree.stmt_pool.nodes().len(),
        decl_ok(
            *d,
            owner@,
            tree.expr_pool.nodes().len() as int,
            tree.type_pool.nodes().len() as int,
            tree.source_code@.len() as int,
        ),
    ensures
        r == decl_shape_ok(tree.expr_pool.nodes(), *d),
{
    match d {
        Decl::ConstDecl { var, literal } => is_var_expr(tree, *var) && matches!(
            tree.expr_pool.get(*literal),
            Expr::LiteralInteger(_) | Expr::LiteralReal(_) | Expr::LiteralBool(_) | Expr::LiteralChar(_)
                | Expr::LiteralString(_)
        ),
        Decl::VarDecl { var, .. } => is_var_expr(tree, *var),
        Decl::Callable { params, name, return_type, block } => {
            let mut k: usize = 0;
            while k < params.len()
                invariant
                    *d == (Decl::Callable { params: *params, name: *name, return_type: *return_type, block: *block }),
                    k <= params@.len(),
                    forall|j: int| 0 <= j < params@.len() ==> param_ok(#[trigger] params@[j], tree.expr_pool.nodes().len() as int, tree.type_pool.nodes().len() as int),
                    forall|j: int| 0 <= j < k ==> tree.expr_pool.nodes()[(#[trigger] params@[j]).var.index_of() as int] is Var,
                decreases params@.len() - k,
            {
                if !is_var_expr(tree, params[k].var) {
                    return false;
                }
                k = k + 1;
            }
            true
        },
        _ => true,
    }
}

/// Whether the tree has the shapes the analysis relies on; `Parser::parse`
/// gives them to every tree it builds.
pub fn check_shapes(tree: &Tree) -> (r: bool)
    requires
        tree.wf(),
    ensures
        r == shapes_ok(tree),
{
    let ghost exprs = tree.expr_pool.nodes();
    let ghost stmts = tree.stmt_pool.nodes();
    let ghost ne = exprs.len() as int;
    let ghost nt = tree.type_pool.nodes().len() as int;
    let ghost src_len = tree.source_code@.len() as int;
    let stmt_ids = tree.stmt_pool.ids();
    let mut i: usize = 0;
    while i < stmt_ids.len()
        invariant
            tree.wf(),
            exprs == tree.expr_pool.nodes(),
            stmts == tree.stmt_pool.nodes(),
            ne == exprs.len(),
            nt == tree.type_pool.nodes().len(),
            src_len == tree.source_code@.len(),
            stmt_ids@.len() == stmts.len(),
            forall|j: int| 0 <= j < stmt_ids@.len() ==> (#[trigger] stmt_ids@[j]).index_of() == j,
            i <= stmts.len(),
            forall|j: int| 0 <= j < i ==> stmt_shape_ok(exprs, #[trigger] stmts[j]),
            forall|j: int|
                0 <= j < i ==> (#[trigger] stmts[j] matches Stmt::Assign { left, .. } ==> (exprs[left.index_of() as int] is Var
                    || exprs[left.index_of() as int] is Index)),
        decreases stmts.len() - i,
    {
        let id = stmt_ids[i];
        proof {
            assert(id.index_of() == i);
            assert(stmt_node_ok(stmts[i as int], i as int, ne, nt, src_len));
        }
        match tree.stmt_pool.get(id) {
            Stmt::Call { call } => {
                if !matches!(tree.expr_pool.get(*call), Expr::Call { .. }) {
                    return false;
                }
            },
            Stmt::Assign { left, .. } => {
                if !matches!(tree.expr_pool.get(*left), Expr::Var { .. } | Expr::Index { .. }) {
                    proof {
                        assert(!assign_shapes_ok(exprs, stmts)) by {
                            assert(stmts[i as int] matches Stmt::Assign { .. });
                        }
                    }
                    return false;
                }
            },
            Stmt::Block { declarations, statements } => {
                let mut k: usize = 0;
                while k < declarations.len()
                    invariant
                        tree.wf(),
                        exprs == tree.expr_pool.nodes(),
                        0 <= i < stmts.len(),
                        stmts[i as int] == (Stmt::Block { declarations: *declarations, statements: *statements }),
                        forall|j: int| 0 <= j < declarations@.len() ==> decl_ok(#[trigger] declarations@[j], i as int, ne, nt, src_len),
                        ne == exprs.len(),
                        nt == tree.type_pool.nodes().len(),
                        src_len == tree.source_code@.len(),
                        stmts == tree.stmt_pool.nodes(),
                        k <= declarations@.len(),
                        forall|j: int| 0 <= j < k ==> decl_shape_ok(exprs, #[trigger] declarations@[j]),
                    decreases declarations@.len() - k,
                {
                    if !decl_shape_check(tree, &declarations[k], Ghost(i as int)) {
                        proof {
                            assert(!decl_shape_ok(exprs, declarations@[k as int]));
                            let st = stmts[i as int];
                            assert(st is Block);
                            assert(st->Block_declarations@[k as int] == declarations@[k as int]);
                            assert(!stmt_shape_ok(exprs, stmts[i as int]));
                        }
                        return false;
                    }
                    k = k + 1;
                }
            },
            _ => {},
        }
        i = i + 1;
    }
    let expr_ids = tree.expr_pool.ids();
    let mut i: usize = 0;
    while i < expr_ids.len()
        invariant
            exprs == tree.expr_pool.nodes(),
            expr_ids@.len() == exprs.len(),
            forall|j: int| 0 <= j < expr_ids@.len() ==> (#[trigger] expr_ids@[j]).index_of() == j,
            i <= exprs.len(),
            forall|j: int| 0 <= j < i ==> (#[trigger] exprs[j] matches Expr::BinOp { op, .. } ==> is_bin_op(op)),
        decreases exprs.len() - i,
    {
        if let Expr::BinOp { op, .. } = tree.expr_pool.get(expr_ids[i]) {
            if !matches!(
                op,
                TokenType::Minus | TokenType::RealDiv | TokenType::Mul | TokenType::IntegerDiv | TokenType::Plus
                    | TokenType::GreaterThen | TokenType::GreaterEqual | TokenType::LessEqual | TokenType::LessThen
                    | TokenType::Equal | TokenType::NotEqual | TokenType::And | TokenType::Or
            ) {
                return false;
            }
        }
        i = i + 1;
    }
    true
}

} // verus!
