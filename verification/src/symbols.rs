use vstd::prelude::*;
use vstd::hash_map::StringHashMap;
use crate::chars::{str_to_lowercase, to_lowercase};
use crate::refs::{CallableSymbolRef, StmtRef, TypeSymbolRef, VarSymbolRef};
use crate::tokens::Token;
use crate::utils::{NodePool, PoolRef};

verus! {

/// A type known to the semantic analysis.
#[derive(Debug, Clone)]
pub enum TypeSymbol {
    Integer,
    Int64,
    Real,
    Boolean,
    String,
    Char,
    Range { start_ord_index: i32, end_ord_index: i32, range_type: TypeSymbolRef },
    Array {
        start_ord_index: i32,
        end_ord_index: i32,
        index_type: TypeSymbolRef,
        value_type: TypeSymbolRef,
    },
    DynamicArray(TypeSymbolRef),
    Enum(Vec<String>),
    Any,
    Empty,
}

/// The names of an enumeration, as character sequences.
pub open spec fn names_view(names: Seq<String>) -> Seq<Seq<char>> {
    names.map_values(|n: String| n@)
}

impl TypeSymbol {
    /// Equality of type symbols: the same variant with the same fields, the
    /// names of enumerations compared by their text.
    pub open spec fn same(&self, other: &TypeSymbol) -> bool {
        match (self, other) {
            (TypeSymbol::Enum(a), TypeSymbol::Enum(b)) => names_view(a@) == names_view(b@),
            (TypeSymbol::Enum(_), _) => false,
            (_, TypeSymbol::Enum(_)) => false,
            _ => *self == *other,
        }
    }

    /// Ordinal bounds of an array or a range.
    pub open spec fn spec_limits(&self) -> Option<(i32, i32)> {
        match self {
            TypeSymbol::Array { start_ord_index, end_ord_index, .. } => Some(
                (*start_ord_index, *end_ord_index),
            ),
            TypeSymbol::Range { start_ord_index, end_ord_index, .. } => Some(
                (*start_ord_index, *end_ord_index),
            ),
            _ => None,
        }
    }

    pub fn get_limits(&self) -> (r: Option<(i32, i32)>)
        ensures
            r == self.spec_limits(),
    {
        match self {
            Self::Array { start_ord_index, end_ord_index, .. } => Some(
                (*start_ord_index, *end_ord_index),
            ),
            Self::Range { start_ord_index, end_ord_index, .. } => Some(
                (*start_ord_index, *end_ord_index),
            ),
            _ => None,
        }
    }

    /// The types whose values are counted in steps: integers, characters,
    /// booleans and enumerations.
    pub open spec fn spec_is_ordinal(&self) -> bool {
        match self {
            TypeSymbol::Integer | TypeSymbol::Int64 | TypeSymbol::Char | TypeSymbol::Boolean
            | TypeSymbol::Enum(_) => true,
            _ => false,
        }
    }

    pub fn is_ordinal(&self) -> (r: bool)
        ensures
            r == self.spec_is_ordinal(),
    {
        match self {
            Self::Integer | Self::Int64 | Self::Char | Self::Boolean | Self::Enum(_) => true,
            _ => false,
        }
    }

    /// Compares two type symbols field by field.
    pub fn same_as(&self, other: &TypeSymbol) -> (r: bool)
        ensures
            r == self.same(other),
    {
        if let TypeSymbol::Enum(a) = self {
            if let TypeSymbol::Enum(b) = other {
                if a.len() != b.len() {
                    assert(names_view(a@).len() != names_view(b@).len());
                    return false;
                }
                let mut i: usize = 0;
                while i < a.len()
                    invariant
                        *self == TypeSymbol::Enum(*a),
                        *other == TypeSymbol::Enum(*b),
                        a@.len() == b@.len(),
                        i <= a@.len(),
                        forall|j: int| 0 <= j < i ==> a@[j]@ == b@[j]@,
                    decreases a@.len() - i,
                {
                    if !(a[i] == b[i]) {
                        assert(names_view(a@)[i as int] != names_view(b@)[i as int]);
                        return false;
                    }
                    i = i + 1;
                }
                assert(names_view(a@) =~= names_view(b@));
                return true;
            }
        }
        match (self, other) {
            (TypeSymbol::Enum(_), _) => false,
            (_, TypeSymbol::Enum(_)) => false,
            (TypeSymbol::Integer, TypeSymbol::Integer) => true,
            (TypeSymbol::Int64, TypeSymbol::Int64) => true,
            (TypeSymbol::Real, TypeSymbol::Real) => true,
            (TypeSymbol::Boolean, TypeSymbol::Boolean) => true,
            (TypeSymbol::String, TypeSymbol::String) => true,
            (TypeSymbol::Char, TypeSymbol::Char) => true,
            (TypeSymbol::Any, TypeSymbol::Any) => true,
            (TypeSymbol::Empty, TypeSymbol::Empty) => true,
            (
                TypeSymbol::Range { start_ord_index: s1, end_ord_index: e1, range_type: t1 },
                TypeSymbol::Range { start_ord_index: s2, end_ord_index: e2, range_type: t2 },
            ) => *s1 == *s2 && *e1 == *e2 && *t1 == *t2,
            (
                TypeSymbol::Array {
                    start_ord_index: s1,
                    end_ord_index: e1,
                    index_type: i1,
                    value_type: v1,
                },
                TypeSymbol::Array {
                    start_ord_index: s2,
                    end_ord_index: e2,
                    index_type: i2,
                    value_type: v2,
                },
            ) => *s1 == *s2 && *e1 == *e2 && *i1 == *i2 && *v1 == *v2,
            (TypeSymbol::DynamicArray(t1), TypeSymbol::DynamicArray(t2)) => *t1 == *t2,
            _ => false,
        }
    }
}

/// Every reference a type symbol of the pool holds points to a type symbol
/// allocated before it.
pub open spec fn type_refs_below(t: TypeSymbol, bound: int) -> bool {
    match t {
        TypeSymbol::Range { range_type, .. } => range_type.index_of() < bound,
        TypeSymbol::Array { index_type, value_type, .. } => index_type.index_of() < bound
            && value_type.index_of() < bound,
        TypeSymbol::DynamicArray(v) => v.index_of() < bound,
        _ => true,
    }
}

pub open spec fn types_ranked(types: Seq<TypeSymbol>) -> bool {
    forall|i: int| 0 <= i < types.len() ==> type_refs_below(#[trigger] types[i], i)
}

/// The type symbol at `i`, with ranges replaced by the type they range over.
pub open spec fn resolve_at(types: Seq<TypeSymbol>, i: int) -> TypeSymbol
    decreases i,
{
    if 0 <= i < types.len() {
        match types[i] {
            TypeSymbol::Range { range_type, .. } => if range_type.index_of() < i {
                resolve_at(types, range_type.index_of() as int)
            } else {
                types[i]
            },
            _ => types[i],
        }
    } else {
        TypeSymbol::Empty
    }
}

/// `t` with ranges replaced by the type they range over.
pub open spec fn resolve(types: Seq<TypeSymbol>, t: TypeSymbol) -> TypeSymbol {
    match t {
        TypeSymbol::Range { range_type, .. } => resolve_at(types, range_type.index_of() as int),
        _ => t,
    }
}

/// Type equality: a range is equal to what its base type is equal to.
pub open spec fn type_eq(types: Seq<TypeSymbol>, left: TypeSymbol, right: TypeSymbol) -> bool {
    resolve(types, left).same(&resolve(types, right))
}

proof fn lemma_resolve_not_range(types: Seq<TypeSymbol>, i: int)
    requires
        types_ranked(types),
        0 <= i < types.len(),
    ensures
        !(resolve_at(types, i) is Range),
    decreases i,
{
    match types[i] {
        TypeSymbol::Range { range_type, .. } => {
            assert(type_refs_below(types[i], i));
            lemma_resolve_not_range(types, range_type.index_of() as int);
        },
        _ => {},
    }
}

impl TypeSymbol {
    /// Resolves ranges to the type they range over.
    fn resolved<'p>(node_pool: &'p NodePool<TypeSymbolRef, TypeSymbol>, t: &'p TypeSymbol) -> (r: &'p TypeSymbol)
        requires
            types_ranked(node_pool.nodes()),
            type_refs_below(*t, node_pool.nodes().len() as int),
        ensures
            *r == resolve(node_pool.nodes(), *t),
    {
        let ghost types = node_pool.nodes();
        let mut cur = t;
        let ghost mut bound: int = types.len() as int;
        loop
            invariant
                types == node_pool.nodes(),
                types_ranked(types),
                0 <= bound <= types.len(),
                type_refs_below(*cur, bound),
                resolve(types, *t) == resolve(types, *cur),
            decreases bound,
        {
            match cur {
                TypeSymbol::Range { range_type, .. } => {
                    let ghost j = range_type.index_of() as int;
                    proof {
                        assert(type_refs_below(types[j], j));
                    }
                    cur = node_pool.get(*range_type);
                    proof {
                        bound = j;
                    }
                },
                _ => {
                    return cur;
                },
            }
        }
    }

    /// Type equality through ranges: a range stands for the type it ranges
    /// over.
    pub fn eq(node_pool: &NodePool<TypeSymbolRef, TypeSymbol>, left: &TypeSymbol, right: &TypeSymbol) -> (r: bool)
        requires
            types_ranked(node_pool.nodes()),
            type_refs_below(*left, node_pool.nodes().len() as int),
            type_refs_below(*right, node_pool.nodes().len() as int),
        ensures
            r == type_eq(node_pool.nodes(), *left, *right),
    {
        let l = TypeSymbol::resolved(node_pool, left);
        let r = TypeSymbol::resolved(node_pool, right);
        l.same_as(r)
    }
}

/// A constant's value. A real constant keeps its token: its digits are the
/// token's lexeme.
#[derive(Debug, Clone)]
pub enum ConstValue {
    Integer(i32),
    Int64(i64),
    Real(Token),
    String(String),
    Char(char),
    Boolean(bool),
}

/// A variable or a constant.
#[derive(Debug, Clone)]
pub enum VarSymbol {
    Var { name: String, pass_mode: VarPassMode, type_symbol: TypeSymbolRef },
    Const { value: ConstValue, type_symbol: TypeSymbolRef },
}

impl VarSymbol {
    /// The type of the variable or constant.
    pub open spec fn spec_type_symbol(&self) -> TypeSymbolRef {
        match self {
            VarSymbol::Var { type_symbol, .. } => *type_symbol,
            VarSymbol::Const { type_symbol, .. } => *type_symbol,
        }
    }

    pub fn type_symbol(&self) -> (r: TypeSymbolRef)
        ensures
            r == self.spec_type_symbol(),
    {
        match self {
            VarSymbol::Var { type_symbol, .. } => *type_symbol,
            VarSymbol::Const { type_symbol, .. } => *type_symbol,
        }
    }

    pub fn pass_mode(&self) -> (r: Option<&VarPassMode>)
        ensures
            r == (match self {
                VarSymbol::Var { pass_mode, .. } => Some(pass_mode),
                _ => None,
            }),
    {
        match self {
            Self::Var { pass_mode, .. } => Some(pass_mode),
            _ => None,
        }
    }
}

/// The functions built into the language.
#[derive(Debug, Clone, Copy, PartialEq, Eq, Structural)]
pub enum BuiltinFunc {
    Write,
    Writeln,
    Readln,
}

/// What runs when a callable is called.
#[derive(Debug, Clone)]
pub enum CallableType {
    Custom { statement: StmtRef },
    Builtin { func: BuiltinFunc },
}

/// A procedure or a function.
#[derive(Debug, Clone)]
pub struct CallableSymbol {
    pub name: String,
    pub params: Vec<VarSymbolRef>,
    pub param_input_mode: ParamInputMode,
    pub body: CallableType,
    pub return_type: Option<TypeSymbolRef>,
}

/// Whether a variable is local to the scope that reads it or belongs to an
/// enclosing one.
#[derive(Debug, Clone, PartialEq, Eq, Structural, Copy)]
pub enum VarLocality {
    Local,
    Global,
}

/// How a parameter is passed.
#[derive(Debug, Clone, PartialEq, Eq, Structural, Copy)]
pub enum VarPassMode {
    Val,
    Ref,
}

/// How the arguments of a call are matched with the parameters: one for one,
/// or the parameter list repeated.
#[derive(Debug, Clone, PartialEq, Eq, Structural, Copy)]
pub enum ParamInputMode {
    Sequence,
    Repeat,
}

/// A range of ordinal indices, lower and upper bound included.
#[derive(Debug, Clone)]
pub struct RangeSymbol {
    lower_index: i32,
    higher_index: i32,
    type_symbol: TypeSymbol,
}

impl RangeSymbol {
    pub closed spec fn spec_lower(&self) -> i32 {
        self.lower_index
    }

    pub closed spec fn spec_higher(&self) -> i32 {
        self.higher_index
    }

    pub closed spec fn spec_type(&self) -> TypeSymbol {
        self.type_symbol
    }

    pub fn from_indices(lower_index: i32, higher_index: i32, type_symbol: TypeSymbol) -> (r: Self)
        ensures
            r.spec_lower() == lower_index,
            r.spec_higher() == higher_index,
            r.spec_type() == type_symbol,
    {
        RangeSymbol { lower_index, higher_index, type_symbol }
    }

    /// Whether the ordinal rank `rank` lies between the bounds, both
    /// included.
    pub fn within_bounds(&self, rank: i32) -> (r: bool)
        ensures
            r == (self.spec_lower() <= rank && rank <= self.spec_higher()),
    {
        rank >= self.lower_index && rank <= self.higher_index
    }

    /// Position of the ordinal rank `rank` counted from the lower bound, as
    /// an index.
    pub fn get_index(&self, rank: i32) -> (r: usize)
        requires
            i32::MIN <= rank - self.spec_lower() <= i32::MAX,
        ensures
            r == ((rank - self.spec_lower()) as i32) as usize,
    {
        (rank - self.lower_index) as usize
    }

    /// Distance from the lower to the upper bound.
    pub fn len(&self) -> (r: usize)
        requires
            self.spec_lower() <= self.spec_higher(),
            self.spec_higher() - self.spec_lower() <= i32::MAX,
        ensures
            r == self.spec_higher() - self.spec_lower(),
    {
        (self.higher_index - self.lower_index) as usize
    }
}

/// A scope: the types, variables and callables declared in it, and the scope
/// around it. Names are kept in lower case.
pub struct SymbolTable {
    type_symbols: StringHashMap<TypeSymbolRef>,
    var_symbols: StringHashMap<VarSymbolRef>,
    callable_symbols: StringHashMap<CallableSymbolRef>,
    scope_name: String,
    scope_level: usize,
    enclosing_scope: Option<Box<SymbolTable>>,
}

impl SymbolTable {
    pub closed spec fn types(&self) -> Map<Seq<char>, TypeSymbolRef> {
        self.type_symbols@
    }

    pub closed spec fn vars(&self) -> Map<Seq<char>, VarSymbolRef> {
        self.var_symbols@
    }

    pub closed spec fn callables(&self) -> Map<Seq<char>, CallableSymbolRef> {
        self.callable_symbols@
    }

    pub closed spec fn spec_scope_name(&self) -> Seq<char> {
        self.scope_name@
    }

    pub closed spec fn spec_scope_level(&self) -> usize {
        self.scope_level
    }

    pub closed spec fn enclosing(&self) -> Option<Box<SymbolTable>> {
        self.enclosing_scope
    }

    /// The type a name stands for, looked up in this scope and then, unless
    /// `current_scope_only`, in the enclosing ones; each scope looks up the
    /// lower-case form of the name it is given.
    pub open spec fn spec_lookup_type(&self, name: Seq<char>, current_scope_only: bool) -> Option<
        TypeSymbolRef,
    >
        decreases self,
    {
        let n = str_to_lowercase(name);
        if self.types().contains_key(n) {
            Some(self.types()[n])
        } else if current_scope_only {
            None
        } else {
            match self.enclosing() {
                Some(t) => if decreases_to!(self => t) { t.spec_lookup_type(n, current_scope_only) } else { None },
                None => None,
            }
        }
    }

    /// As `spec_lookup_type`, for callables.
    pub open spec fn spec_lookup_callable(&self, name: Seq<char>, current_scope_only: bool) -> Option<
        CallableSymbolRef,
    >
        decreases self,
    {
        let n = str_to_lowercase(name);
        if self.callables().contains_key(n) {
            Some(self.callables()[n])
        } else if current_scope_only {
            None
        } else {
            match self.enclosing() {
                Some(t) => if decreases_to!(self => t) { t.spec_lookup_callable(n, current_scope_only) } else { None },
                None => None,
            }
        }
    }

    /// As `spec_lookup_type`, for variables, with the locality reported: the
    /// given one when the variable is found in this scope, `Global` when it
    /// is found in an enclosing one.
    pub open spec fn spec_lookup_var_in(
        &self,
        name: Seq<char>,
        current_scope_only: bool,
        var_type: VarLocality,
    ) -> Option<(VarSymbolRef, VarLocality)>
        decreases self,
    {
        let n = str_to_lowercase(name);
        if self.vars().contains_key(n) {
            Some((self.vars()[n], var_type))
        } else if current_scope_only {
            None
        } else {
            match self.enclosing() {
                Some(t) => if decreases_to!(self => t) {
                    t.spec_lookup_var_in(n, current_scope_only, VarLocality::Global)
                } else {
                    None
                },
                None => None,
            }
        }
    }

    /// Locality of the variables of this scope: global in the scope at level 1.
    pub open spec fn own_locality(&self) -> VarLocality {
        if self.spec_scope_level() == 1 {
            VarLocality::Global
        } else {
            VarLocality::Local
        }
    }

    pub open spec fn spec_lookup_var(&self, name: Seq<char>, current_scope_only: bool) -> Option<
        (VarSymbolRef, VarLocality),
    > {
        self.spec_lookup_var_in(name, current_scope_only, self.own_locality())
    }

    pub fn new(scope_level: usize, scope_name: &str, enclosing_scope: Option<Box<SymbolTable>>) -> (r: Self)
        ensures
            r.types() == Map::<Seq<char>, TypeSymbolRef>::empty(),
            r.vars() == Map::<Seq<char>, VarSymbolRef>::empty(),
            r.callables() == Map::<Seq<char>, CallableSymbolRef>::empty(),
            r.spec_scope_level() == scope_level,
            r.spec_scope_name() == scope_name@,
            r.enclosing() == enclosing_scope,
    {
        Self {
            type_symbols: StringHashMap::new(),
            var_symbols: StringHashMap::new(),
            callable_symbols: StringHashMap::new(),
            scope_level,
            scope_name: scope_name.to_string(),
            enclosing_scope,
        }
    }

    pub fn get_scope_level(&self) -> (r: usize)
        ensures
            r == self.spec_scope_level(),
    {
        self.scope_level
    }

    /// The enclosing scope, to be changed in place.
    pub fn get_mut_enclosing_scope(&mut self) -> (r: Option<&mut Box<SymbolTable>>)
        ensures
            r is Some <==> old(self).enclosing() is Some,
            r matches Some(b) ==> {
                &&& *b == old(self).enclosing()->0
                &&& final(self).enclosing() == Some(*final(b))
            },
            r is None ==> final(self).enclosing() == old(self).enclosing(),
            final(self).types() == old(self).types(),
            final(self).vars() == old(self).vars(),
            final(self).callables() == old(self).callables(),
            final(self).spec_scope_level() == old(self).spec_scope_level(),
            final(self).spec_scope_name() == old(self).spec_scope_name(),
    {
        match &mut self.enclosing_scope {
            Some(b) => Some(b),
            None => None,
        }
    }

    pub fn take_enclosing_scope(&mut self) -> (r: Option<Box<SymbolTable>>)
        ensures
            r == old(self).enclosing(),
            final(self).enclosing() == None::<Box<SymbolTable>>,
            final(self).types() == old(self).types(),
            final(self).vars() == old(self).vars(),
            final(self).callables() == old(self).callables(),
            final(self).spec_scope_level() == old(self).spec_scope_level(),
            final(self).spec_scope_name() == old(self).spec_scope_name(),
    {
        self.enclosing_scope.take()
    }

    pub fn define_type(&mut self, name: &str, symbol: TypeSymbolRef)
        ensures
            final(self).types() == old(self).types().insert(str_to_lowercase(name@), symbol),
            final(self).vars() == old(self).vars(),
            final(self).callables() == old(self).callables(),
            final(self).enclosing() == old(self).enclosing(),
            final(self).spec_scope_level() == old(self).spec_scope_level(),
            final(self).spec_scope_name() == old(self).spec_scope_name(),
    {
        self.type_symbols.insert(to_lowercase(name), symbol);
    }

    pub fn define_var(&mut self, name: &str, symbol: VarSymbolRef)
        ensures
            final(self).vars() == old(self).vars().insert(str_to_lowercase(name@), symbol),
            final(self).types() == old(self).types(),
            final(self).callables() == old(self).callables(),
            final(self).enclosing() == old(self).enclosing(),
            final(self).spec_scope_level() == old(self).spec_scope_level(),
            final(self).spec_scope_name() == old(self).spec_scope_name(),
    {
        self.var_symbols.insert(to_lowercase(name), symbol);
    }

    pub fn define_callable(&mut self, name: &str, symbol: CallableSymbolRef)
        ensures
            final(self).callables() == old(self).callables().insert(str_to_lowercase(name@), symbol),
            final(self).types() == old(self).types(),
            final(self).vars() == old(self).vars(),
            final(self).enclosing() == old(self).enclosing(),
            final(self).spec_scope_level() == old(self).spec_scope_level(),
            final(self).spec_scope_name() == old(self).spec_scope_name(),
    {
        self.callable_symbols.insert(to_lowercase(name), symbol);
    }

    pub fn lookup_type(&self, name: &str, current_scope_only: bool) -> (r: Option<TypeSymbolRef>)
        ensures
            r == self.spec_lookup_type(name@, current_scope_only),
        decreases self,
    {
        let name = to_lowercase(name);
        if let Some(r) = self.type_symbols.get(name.as_str()) {
            return Some(*r);
        }
        if current_scope_only {
            return None;
        }
        if let Some(table) = &self.enclosing_scope {
            assert(decreases_to!(self => **table));
            return table.lookup_type(name.as_str(), current_scope_only);
        }
        None
    }

    pub fn lookup_callable(&self, name: &str, current_scope_only: bool) -> (r: Option<CallableSymbolRef>)
        ensures
            r == self.spec_lookup_callable(name@, current_scope_only),
        decreases self,
    {
        let name = to_lowercase(name);
        if let Some(r) = self.callable_symbols.get(name.as_str()) {
            return Some(*r);
        }
        if current_scope_only {
            return None;
        }
        if let Some(table) = &self.enclosing_scope {
            assert(decreases_to!(self => **table));
            return table.lookup_callable(name.as_str(), current_scope_only);
        }
        None
    }

    pub fn lookup_var(&self, name: &str, current_scope_only: bool) -> (r: Option<(VarSymbolRef, VarLocality)>)
        ensures
            r == self.spec_lookup_var(name@, current_scope_only),
    {
        let var_type = if self.scope_level == 1 {
            VarLocality::Global
        } else {
            VarLocality::Local
        };
        self.lookup_var_internal(name, current_scope_only, var_type)
    }

    fn lookup_var_internal(&self, name: &str, current_scope_only: bool, var_type: VarLocality) -> (r:
        Option<(VarSymbolRef, VarLocality)>)
        ensures
            r == self.spec_lookup_var_in(name@, current_scope_only, var_type),
        decreases self,
    {
        let name = to_lowercase(name);
        if let Some(r) = self.var_symbols.get(name.as_str()) {
            return Some((*r, var_type));
        }
        if current_scope_only {
            return None;
        }
        if let Some(table) = &self.enclosing_scope {
            assert(decreases_to!(self => **table));
            return table.lookup_var_internal(name.as_str(), current_scope_only, VarLocality::Global);
        }
        None
    }

    pub fn scope_name(&self) -> (r: &str)
        ensures
            r@ == self.spec_scope_name(),
    {
        self.scope_name.as_str()
    }
}

impl SymbolTable {
    /// Every symbol this scope and the scopes around it hold points into
    /// pools of `nt` types, `nv` variables and `nc` callables.
    pub open spec fn refs_within(&self, nt: int, nv: int, nc: int) -> bool
        decreases self,
    {
        &&& forall|k: Seq<char>| #[trigger] self.types().contains_key(k) ==> self.types()[k].index_of() < nt
        &&& forall|k: Seq<char>| #[trigger] self.vars().contains_key(k) ==> self.vars()[k].index_of() < nv
        &&& forall|k: Seq<char>| #[trigger] self.callables().contains_key(k) ==> self.callables()[k].index_of()
            < nc
        &&& match self.enclosing() {
            Some(t) => if decreases_to!(self => t) {
                t.refs_within(nt, nv, nc)
            } else {
                false
            },
            None => true,
        }
    }
}

/// Growing the pools keeps the symbols of a scope chain inside them.
pub proof fn lemma_refs_within_grow(t: SymbolTable, nt: int, nv: int, nc: int, nt2: int, nv2: int, nc2: int)
    requires
        t.refs_within(nt, nv, nc),
        nt <= nt2,
        nv <= nv2,
        nc <= nc2,
    ensures
        t.refs_within(nt2, nv2, nc2),
    decreases t,
{
    match t.enclosing() {
        Some(e) => {
            assert(decreases_to!(t => e));
            lemma_refs_within_grow(*e, nt, nv, nc, nt2, nv2, nc2);
        },
        None => {},
    }
}

/// What a lookup finds in a scope chain lies inside the pools.
pub proof fn lemma_lookups_within(t: SymbolTable, name: Seq<char>, only: bool, loc: VarLocality, nt: int, nv: int, nc: int)
    requires
        t.refs_within(nt, nv, nc),
    ensures
        t.spec_lookup_type(name, only) matches Some(r) ==> r.index_of() < nt,
        t.spec_lookup_callable(name, only) matches Some(r) ==> r.index_of() < nc,
        t.spec_lookup_var_in(name, only, loc) matches Some((r, _)) ==> r.index_of() < nv,
    decreases t,
{
    let n = str_to_lowercase(name);
    match t.enclosing() {
        Some(e) => {
            assert(decreases_to!(t => e));
            lemma_lookups_within(*e, n, only, VarLocality::Global, nt, nv, nc);
        },
        None => {},
    }
}

/// Defining a symbol inside the pools keeps a scope chain inside them.
pub proof fn lemma_define_within(before: SymbolTable, after: SymbolTable, nt: int, nv: int, nc: int)
    requires
        before.refs_within(nt, nv, nc),
        after.enclosing() == before.enclosing(),
        forall|k: Seq<char>| #[trigger] after.types().contains_key(k) ==> after.types()[k].index_of() < nt,
        forall|k: Seq<char>| #[trigger] after.vars().contains_key(k) ==> after.vars()[k].index_of() < nv,
        forall|k: Seq<char>| #[trigger] after.callables().contains_key(k) ==> after.callables()[k].index_of() < nc,
    ensures
        after.refs_within(nt, nv, nc),
{
    match after.enclosing() {
        Some(e) => {
            assert(decreases_to!(before => e));
            assert(decreases_to!(after => e));
        },
        None => {},
    }
}

/// A scope whose own symbols lie inside the pools, around a chain inside
/// them, is inside them.
pub proof fn lemma_scope_within(t: SymbolTable, nt: int, nv: int, nc: int)
    requires
        forall|k: Seq<char>| #[trigger] t.types().contains_key(k) ==> t.types()[k].index_of() < nt,
        forall|k: Seq<char>| #[trigger] t.vars().contains_key(k) ==> t.vars()[k].index_of() < nv,
        forall|k: Seq<char>| #[trigger] t.callables().contains_key(k) ==> t.callables()[k].index_of() < nc,
        t.enclosing() matches Some(e) ==> e.refs_within(nt, nv, nc),
    ensures
        t.refs_within(nt, nv, nc),
{
    match t.enclosing() {
        Some(e) => {
            assert(decreases_to!(t => e));
        },
        None => {},
    }
}

/// The scope around a scope chain inside the pools is inside them too.
pub proof fn lemma_enclosing_within(t: SymbolTable, nt: int, nv: int, nc: int)
    requires
        t.refs_within(nt, nv, nc),
        t.enclosing() is Some,
    ensures
        t.enclosing()->0.refs_within(nt, nv, nc),
{
    assert(decreases_to!(t => t.enclosing()->0));
}

/// A scope is larger than the scope that encloses it, so a definition may
/// recurse from a scope to its enclosing one.
pub proof fn lemma_enclosing_smaller(t: SymbolTable)
    ensures
        t.enclosing() matches Some(e) ==> decreases_to!(t => *e),
{
    if let Some(e) = t.enclosing() {
        assert(decreases_to!(t => t.enclosing()->0));
    }
}

/// A lookup that does not find a name in a scope, and may go on, gives what
/// the same lookup of the lower-case name gives in the enclosing scope: for
/// types, callables and variables (the last found there as global).
pub proof fn law_lookup_falls_through(t: SymbolTable, name: Seq<char>, loc: VarLocality)
    requires
        t.enclosing() is Some,
    ensures
        !t.types().contains_key(str_to_lowercase(name)) ==> t.spec_lookup_type(name, false)
            == t.enclosing()->0.spec_lookup_type(str_to_lowercase(name), false),
        !t.callables().contains_key(str_to_lowercase(name)) ==> t.spec_lookup_callable(name, false)
            == t.enclosing()->0.spec_lookup_callable(str_to_lowercase(name), false),
        !t.vars().contains_key(str_to_lowercase(name)) ==> t.spec_lookup_var_in(name, false, loc)
            == t.enclosing()->0.spec_lookup_var_in(str_to_lowercase(name), false, VarLocality::Global),
{
    lemma_enclosing_smaller(t);
}

/// A name defined in a scope is found there under the symbol it was defined
/// with, whether or not the lookup stops at that scope.
pub proof fn law_define_then_lookup_type(
    before: SymbolTable,
    after: SymbolTable,
    name: Seq<char>,
    symbol: TypeSymbolRef,
    current_scope_only: bool,
)
    requires
        after.types() == before.types().insert(str_to_lowercase(name), symbol),
    ensures
        after.spec_lookup_type(name, current_scope_only) == Some(symbol),
{
}

/// A variable defined in a scope is found there under the symbol it was
/// defined with, with the locality of that scope.
pub proof fn law_define_then_lookup_var(
    before: SymbolTable,
    after: SymbolTable,
    name: Seq<char>,
    symbol: VarSymbolRef,
    current_scope_only: bool,
)
    requires
        after.vars() == before.vars().insert(str_to_lowercase(name), symbol),
    ensures
        after.spec_lookup_var(name, current_scope_only) == Some((symbol, after.own_locality())),
{
}

/// A callable defined in a scope is found there under the symbol it was
/// defined with.
pub proof fn law_define_then_lookup_callable(
    before: SymbolTable,
    after: SymbolTable,
    name: Seq<char>,
    symbol: CallableSymbolRef,
    current_scope_only: bool,
)
    requires
        after.callables() == before.callables().insert(str_to_lowercase(name), symbol),
    ensures
        after.spec_lookup_callable(name, current_scope_only) == Some(symbol),
{
}

/// A lookup restricted to the current scope finds only what that scope
/// defines.
pub proof fn law_current_scope_only(table: SymbolTable, name: Seq<char>)
    ensures
        table.spec_lookup_type(name, true) is Some <==> table.types().contains_key(
            str_to_lowercase(name),
        ),
        table.spec_lookup_var(name, true) is Some <==> table.vars().contains_key(
            str_to_lowercase(name),
        ),
        table.spec_lookup_callable(name, true) is Some <==> table.callables().contains_key(
            str_to_lowercase(name),
        ),
{
}

/// A variable found outside the scope that looks it up is global.
pub proof fn law_enclosing_vars_are_global(table: SymbolTable, name: Seq<char>)
    requires
        !table.vars().contains_key(str_to_lowercase(name)),
    ensures
        table.spec_lookup_var(name, false) matches Some((_, loc)) ==> loc == VarLocality::Global,
{
    match table.enclosing() {
        Some(t) => {
            lemma_found_in_enclosing_is_global(*t, str_to_lowercase(name));
        },
        None => {},
    }
}

proof fn lemma_found_in_enclosing_is_global(t: SymbolTable, name: Seq<char>)
    ensures
        t.spec_lookup_var_in(name, false, VarLocality::Global) matches Some((_, loc)) ==> loc
            == VarLocality::Global,
    decreases t,
{
    let n = str_to_lowercase(name);
    if !t.vars().contains_key(n) {
        match t.enclosing() {
            Some(e) => {
                lemma_found_in_enclosing_is_global(*e, n);
            },
            None => {},
        }
    }
}

} // verus!
