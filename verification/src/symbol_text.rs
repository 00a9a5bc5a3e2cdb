use vstd::prelude::*;
use crate::refs::{TypeSymbolRef, VarSymbolRef};
use crate::semantic_analyzer::{callable_ok, SemanticMetadata};
use crate::symbols::{type_refs_below, types_ranked, CallableSymbol, CallableType, TypeSymbol, VarPassMode, VarSymbol};
use crate::utils::PoolRef;

verus! {

// ---------------------------------------------------------------------------
// Debug texts of symbols.
// ---------------------------------------------------------------------------

/// The kind part of the text of `t`, whose references lie below `bound`.
pub open spec fn type_kind_text(types: Seq<TypeSymbol>, t: TypeSymbol, bound: int) -> Seq<char>
    decreases bound, 0nat,
{
    match t {
        TypeSymbol::Boolean => "Boolean"@,
        TypeSymbol::Any => "Any"@,
        TypeSymbol::Char => "Char"@,
        TypeSymbol::Empty => "Empty"@,
        TypeSymbol::Enum(_) => "Enum"@,
        TypeSymbol::Integer => "Integer"@,
        TypeSymbol::Int64 => "Int64"@,
        TypeSymbol::Real => "Real"@,
        TypeSymbol::String => "String"@,
        TypeSymbol::Array { index_type, value_type, .. } => if index_type.index_of() < bound
            && value_type.index_of() < bound {
            "Array["@ + type_symbol_text(types, index_type.index_of() as int) + "] of "@ + type_symbol_text(
                types,
                value_type.index_of() as int,
            )
        } else {
            Seq::empty()
        },
        TypeSymbol::DynamicArray(v) => if v.index_of() < bound {
            "Array of "@ + type_symbol_text(types, v.index_of() as int)
        } else {
            Seq::empty()
        },
        TypeSymbol::Range { range_type, .. } => if range_type.index_of() < bound {
            "Range of "@ + type_symbol_text(types, range_type.index_of() as int)
        } else {
            Seq::empty()
        },
    }
}

/// The text of the type symbol at `i` of the pool: `<Type Symbol:kind>`.
pub open spec fn type_symbol_text(types: Seq<TypeSymbol>, i: int) -> Seq<char>
    decreases i, 1nat,
{
    if 0 <= i < types.len() {
        "<Type Symbol:"@ + type_kind_text(types, types[i], i) + ">"@
    } else {
        Seq::empty()
    }
}

/// The text of a variable symbol: `<Var[ ref]:name>:type`.
pub open spec fn var_text(types: Seq<TypeSymbol>, v: VarSymbol) -> Seq<char> {
    match v {
        VarSymbol::Var { name, pass_mode, type_symbol } => "<Var"@ + (if pass_mode == VarPassMode::Ref {
            " ref"@
        } else {
            Seq::empty()
        }) + ":"@ + name@ + ">:"@ + type_symbol_text(types, type_symbol.index_of() as int),
        _ => Seq::empty(),
    }
}

/// The text of a parameter: its variable text, then `OUT` for one passed by
/// reference.
pub open spec fn param_symbol_text(types: Seq<TypeSymbol>, v: VarSymbol) -> Seq<char> {
    var_text(types, v) + match v {
        VarSymbol::Var { pass_mode: VarPassMode::Ref, .. } => "OUT"@,
        _ => Seq::empty(),
    }
}

/// The texts of the parameters `params`, separated by `, `.
pub open spec fn params_symbol_text(md: SemanticMetadata, params: Seq<VarSymbolRef>) -> Seq<char>
    decreases params.len(),
{
    if params.len() == 0 {
        Seq::empty()
    } else {
        let last = param_symbol_text(md.types.nodes(), md.vars.nodes()[params.last().index_of() as int]);
        if params.len() == 1 {
            last
        } else {
            params_symbol_text(md, params.drop_last()) + ", "@ + last
        }
    }
}

/// The text of a callable: `<Callable:name>(params)`, `<BuilinCallable:..>`
/// for a built-in one, and ` -> type` where it returns a value.
pub open spec fn callable_text(md: SemanticMetadata, c: CallableSymbol) -> Seq<char> {
    let head = match c.body {
        CallableType::Builtin { .. } => "<BuilinCallable:"@,
        CallableType::Custom { .. } => "<Callable:"@,
    };
    head + c.name@ + ">"@ + "("@ + params_symbol_text(md, c.params@) + ")"@ + match c.return_type {
        Some(r) => " -> "@ + type_symbol_text(md.types.nodes(), r.index_of() as int),
        None => Seq::empty(),
    }
}

fn type_at_string(md: &SemanticMetadata, i: TypeSymbolRef) -> (r: String)
    requires
        types_ranked(md.types.nodes()),
        i.index_of() < md.types.nodes().len(),
    ensures
        r@ == type_symbol_text(md.types.nodes(), i.index_of() as int),
    decreases i.index_of(), 1nat,
{
    let t = md.types.get(i);
    proof {
        assert(type_refs_below(md.types.nodes()[i.index_of() as int], i.index_of() as int));
    }
    let k = kind_string(md, t, Ghost(i.index_of() as int));
    let mut s = String::from_str("<Type Symbol:");
    s.append(k.as_str());
    s.append(">");
    s
}

fn kind_string(md: &SemanticMetadata, t: &TypeSymbol, Ghost(bound): Ghost<int>) -> (r: String)
    requires
        types_ranked(md.types.nodes()),
        0 <= bound <= md.types.nodes().len(),
        type_refs_below(*t, bound),
    ensures
        r@ == type_kind_text(md.types.nodes(), *t, bound),
    decreases bound, 0nat,
{
    match t {
        TypeSymbol::Boolean => String::from_str("Boolean"),
        TypeSymbol::Any => String::from_str("Any"),
        TypeSymbol::Char => String::from_str("Char"),
        TypeSymbol::Empty => String::from_str("Empty"),
        TypeSymbol::Enum(_) => String::from_str("Enum"),
        TypeSymbol::Integer => String::from_str("Integer"),
        TypeSymbol::Int64 => String::from_str("Int64"),
        TypeSymbol::Real => String::from_str("Real"),
        TypeSymbol::String => String::from_str("String"),
        TypeSymbol::Array { index_type, value_type, .. } => {
            let a = type_at_string(md, *index_type);
            let b = type_at_string(md, *value_type);
            let mut s = String::from_str("Array[");
            s.append(a.as_str());
            s.append("] of ");
            s.append(b.as_str());
            s
        },
        TypeSymbol::DynamicArray(v) => {
            let a = type_at_string(md, *v);
            let mut s = String::from_str("Array of ");
            s.append(a.as_str());
            s
        },
        TypeSymbol::Range { range_type, .. } => {
            let a = type_at_string(md, *range_type);
            let mut s = String::from_str("Range of ");
            s.append(a.as_str());
            s
        },
    }
}

impl TypeSymbol {
    /// The debug text of the type: `<Type Symbol:kind>`, with the types it
    /// refers to spelled out.
    pub fn to_string(&self, semantic_metadata: &SemanticMetadata) -> (r: String)
        requires
            types_ranked(semantic_metadata.types.nodes()),
            type_refs_below(*self, semantic_metadata.types.nodes().len() as int),
        ensures
            r@ == "<Type Symbol:"@ + type_kind_text(
                semantic_metadata.types.nodes(),
                *self,
                semantic_metadata.types.nodes().len() as int,
            ) + ">"@,
    {
        let k = kind_string(semantic_metadata, self, Ghost(semantic_metadata.types.nodes().len() as int));
        let mut s = String::from_str("<Type Symbol:");
        s.append(k.as_str());
        s.append(">");
        s
    }
}

fn param_string(md: &SemanticMetadata, v: VarSymbolRef) -> (r: String)
    requires
        md.wf(),
        v.index_of() < md.vars.nodes().len(),
        md.vars.nodes()[v.index_of() as int] is Var,
    ensures
        r@ == param_symbol_text(md.types.nodes(), md.vars.nodes()[v.index_of() as int]),
{
    match md.vars.get(v) {
        VarSymbol::Var { name, pass_mode, type_symbol } => {
            proof {
                assert(md.vars.nodes()[v.index_of() as int].spec_type_symbol().index_of() < md.types.nodes().len());
            }
            let t = type_at_string(md, *type_symbol);
            let mut s = String::from_str("<Var");
            if *pass_mode == VarPassMode::Ref {
                s.append(" ref");
            }
            s.append(":");
            s.append(name.as_str());
            s.append(">:");
            s.append(t.as_str());
            if *pass_mode == VarPassMode::Ref {
                s.append("OUT");
            }
            s
        },
        VarSymbol::Const { .. } => String::new(),
    }
}

impl CallableSymbol {
    /// The debug text of the callable: its kind and name, its parameters
    /// and the type it returns.
    pub fn to_string(&self, semantic_metadata: &SemanticMetadata) -> (r: String)
        requires
            semantic_metadata.wf(),
            callable_ok(
                *self,
                semantic_metadata.vars.nodes(),
                semantic_metadata.types.nodes().len() as int,
            ),
        ensures
            r@ == callable_text(*semantic_metadata, *self),
    {
        let mut s = match self.body {
            CallableType::Builtin { .. } => String::from_str("<BuilinCallable:"),
            CallableType::Custom { .. } => String::from_str("<Callable:"),
        };
        s.append(self.name.as_str());
        s.append(">");
        s.append("(");
        let ghost head = s@;
        let mut ps = String::new();
        let mut k: usize = 0;
        while k < self.params.len()
            invariant
                semantic_metadata.wf(),
                callable_ok(
                    *self,
                    semantic_metadata.vars.nodes(),
                    semantic_metadata.types.nodes().len() as int,
                ),
                k <= self.params@.len(),
                ps@ == params_symbol_text(*semantic_metadata, self.params@.take(k as int)),
            decreases self.params@.len() - k,
        {
            let t = param_string(semantic_metadata, self.params[k]);
            proof {
                let next = self.params@.take(k + 1);
                assert(next.drop_last() =~= self.params@.take(k as int));
                assert(next.last() == self.params@[k as int]);
            }
            if k > 0 {
                ps.append(", ");
            }
            ps.append(t.as_str());
            k = k + 1;
        }
        proof {
            assert(self.params@.take(self.params@.len() as int) =~= self.params@);
        }
        s.append(ps.as_str());
        s.append(")");
        match self.return_type {
            Some(r) => {
                let t = type_at_string(semantic_metadata, r);
                s.append(" -> ");
                s.append(t.as_str());
            },
            None => {},
        }
        s
    }
}

} // verus!
