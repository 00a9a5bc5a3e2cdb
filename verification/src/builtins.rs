use vstd::prelude::*;
use crate::chars::str_to_lowercase;
use crate::refs::{CallableSymbolRef, TypeSymbolRef, VarSymbolRef};
use crate::symbols::{BuiltinFunc, CallableSymbol, CallableType, ParamInputMode, SymbolTable, TypeSymbol, VarPassMode, VarSymbol};
use crate::utils::{NodePool, PoolRef};

verus! {

impl SymbolTable {
    /// The scope of the built-in callables, at level 0 and with no scope
    /// around it: `write` and `writeln` take any number of values, `readln`
    /// reads a line into the string variable it is given.
    pub fn with_builtins(
        types: &mut NodePool<TypeSymbolRef, TypeSymbol>,
        vars: &mut NodePool<VarSymbolRef, VarSymbol>,
        callables: &mut NodePool<CallableSymbolRef, CallableSymbol>,
    ) -> (r: Self)
        ensures
            r.spec_scope_level() == 0,
            r.spec_scope_name() == "builtin"@,
            r.enclosing() is None,
            r.types() == Map::<Seq<char>, TypeSymbolRef>::empty(),
            r.vars() == Map::<Seq<char>, VarSymbolRef>::empty(),
            final(types).nodes() == old(types).nodes() + seq![TypeSymbol::Any, TypeSymbol::String],
            final(vars).nodes().len() == old(vars).nodes().len() + 2,
            final(vars).nodes().take(old(vars).nodes().len() as int) == old(vars).nodes(),
            final(callables).nodes().len() == old(callables).nodes().len() + 3,
            final(callables).nodes().take(old(callables).nodes().len() as int) == old(callables).nodes(),
            ({
                let nt = old(types).nodes().len() as int;
                let nv = old(vars).nodes().len() as int;
                let nc = old(callables).nodes().len() as int;
                let v = final(vars).nodes();
                let c = final(callables).nodes();
                &&& v[nv] matches VarSymbol::Var { name, pass_mode, type_symbol }
                    && name@ == "val"@ && pass_mode == VarPassMode::Val && type_symbol.index_of() == nt
                &&& v[nv + 1] matches VarSymbol::Var { name, pass_mode, type_symbol }
                    && name@ == "val"@ && pass_mode == VarPassMode::Ref && type_symbol.index_of() == nt + 1
                &&& c[nc].name@ == "write"@ && c[nc].params@.len() == 0
                    && c[nc].param_input_mode == ParamInputMode::Repeat
                    && c[nc].body == (CallableType::Builtin { func: BuiltinFunc::Write })
                    && c[nc].return_type is None
                &&& c[nc + 1].name@ == "writeln"@ && c[nc + 1].params@.len() == 1
                    && c[nc + 1].params@[0].index_of() == nv
                    && c[nc + 1].param_input_mode == ParamInputMode::Repeat
                    && c[nc + 1].body == (CallableType::Builtin { func: BuiltinFunc::Writeln })
                    && c[nc + 1].return_type is None
                &&& c[nc + 2].name@ == "readln"@ && c[nc + 2].params@.len() == 1
                    && c[nc + 2].params@[0].index_of() == nv + 1
                    && c[nc + 2].param_input_mode == ParamInputMode::Sequence
                    && c[nc + 2].body == (CallableType::Builtin { func: BuiltinFunc::Readln })
                    && c[nc + 2].return_type is None
                &&& exists|w: CallableSymbolRef, wl: CallableSymbolRef, rl: CallableSymbolRef| {
                    &&& w.index_of() == nc
                    &&& wl.index_of() == nc + 1
                    &&& rl.index_of() == nc + 2
                    &&& r.callables() == Map::<Seq<char>, CallableSymbolRef>::empty().insert(
                        str_to_lowercase("write"@),
                        w,
                    ).insert(str_to_lowercase("writeln"@), wl).insert(str_to_lowercase("readln"@), rl)
                }
            }),
    {
        let mut st = Self::new(0, "builtin", None);
        let write = callables.alloc_node(
            CallableSymbol {
                name: String::from_str("write"),
                params: Vec::new(),
                param_input_mode: ParamInputMode::Repeat,
                body: CallableType::Builtin { func: BuiltinFunc::Write },
                return_type: None,
            },
        );
        st.define_callable("write", write);
        let any_type = types.alloc_node(TypeSymbol::Any);
        let val = vars.alloc_node(
            VarSymbol::Var { name: String::from_str("val"), pass_mode: VarPassMode::Val, type_symbol: any_type },
        );
        let writeln = callables.alloc_node(
            CallableSymbol {
                name: String::from_str("writeln"),
                params: vec![val],
                param_input_mode: ParamInputMode::Repeat,
                body: CallableType::Builtin { func: BuiltinFunc::Writeln },
                return_type: None,
            },
        );
        st.define_callable("writeln", writeln);
        let string_type = types.alloc_node(TypeSymbol::String);
        let line = vars.alloc_node(
            VarSymbol::Var { name: String::from_str("val"), pass_mode: VarPassMode::Ref, type_symbol: string_type },
        );
        let readln = callables.alloc_node(
            CallableSymbol {
                name: String::from_str("readln"),
                params: vec![line],
                param_input_mode: ParamInputMode::Sequence,
                body: CallableType::Builtin { func: BuiltinFunc::Readln },
                return_type: None,
            },
        );
        st.define_callable("readln", readln);
        proof {
            reveal_strlit("write");
            reveal_strlit("writeln");
            reveal_strlit("readln");
            reveal_strlit("val");
            reveal_strlit("builtin");
        }
        st
    }
}

} // verus!
