use vstd::prelude::*;
use crate::utils::PoolRef;

verus! {

/// Reference to a expression in its pool.
#[derive(Copy, Clone, Debug, PartialEq, Eq, Hash, Structural)]
pub struct ExprRef(u32);

impl PoolRef for ExprRef {
    open spec fn max_index() -> nat {
        u32::MAX as nat
    }

    closed spec fn index_of(&self) -> nat {
        self.0 as nat
    }

    fn from_index(i: usize) -> (r: Self) {
        ExprRef(i as u32)
    }

    fn to_index(&self) -> (r: usize) {
        self.0 as usize
    }
}

impl From<usize> for ExprRef {
    fn from(value: usize) -> (r: Self) {
        Self(value as u32)
    }
}

impl vstd::std_specs::convert::FromSpecImpl<usize> for ExprRef {
    open spec fn obeys_from_spec() -> bool {
        true
    }

    closed spec fn from_spec(v: usize) -> Self {
        ExprRef(v as u32)
    }
}

impl From<ExprRef> for usize {
    fn from(value: ExprRef) -> (r: usize) {
        value.0 as usize
    }
}

impl vstd::std_specs::convert::FromSpecImpl<ExprRef> for usize {
    open spec fn obeys_from_spec() -> bool {
        true
    }

    closed spec fn from_spec(v: ExprRef) -> usize {
        v.0 as usize
    }
}

/// Reference to a statement in its pool.
#[derive(Copy, Clone, Debug, PartialEq, Eq, Hash, Structural)]
pub struct StmtRef(u32);

impl PoolRef for StmtRef {
    open spec fn max_index() -> nat {
        u32::MAX as nat
    }

    closed spec fn index_of(&self) -> nat {
        self.0 as nat
    }

    fn from_index(i: usize) -> (r: Self) {
        StmtRef(i as u32)
    }

    fn to_index(&self) -> (r: usize) {
        self.0 as usize
    }
}

impl From<usize> for StmtRef {
    fn from(value: usize) -> (r: Self) {
        Self(value as u32)
    }
}

impl vstd::std_specs::convert::FromSpecImpl<usize> for StmtRef {
    open spec fn obeys_from_spec() -> bool {
        true
    }

    closed spec fn from_spec(v: usize) -> Self {
        StmtRef(v as u32)
    }
}

impl From<StmtRef> for usize {
    fn from(value: StmtRef) -> (r: usize) {
        value.0 as usize
    }
}

impl vstd::std_specs::convert::FromSpecImpl<StmtRef> for usize {
    open spec fn obeys_from_spec() -> bool {
        true
    }

    closed spec fn from_spec(v: StmtRef) -> usize {
        v.0 as usize
    }
}

/// Reference to a type expression in its pool.
#[derive(Copy, Clone, Debug, PartialEq, Eq, Hash, Structural)]
pub struct TypeRef(u32);

impl PoolRef for TypeRef {
    open spec fn max_index() -> nat {
        u32::MAX as nat
    }

    closed spec fn index_of(&self) -> nat {
        self.0 as nat
    }

    fn from_index(i: usize) -> (r: Self) {
        TypeRef(i as u32)
    }

    fn to_index(&self) -> (r: usize) {
        self.0 as usize
    }
}

impl From<usize> for TypeRef {
    fn from(value: usize) -> (r: Self) {
        Self(value as u32)
    }
}

impl vstd::std_specs::convert::FromSpecImpl<usize> for TypeRef {
    open spec fn obeys_from_spec() -> bool {
        true
    }

    closed spec fn from_spec(v: usize) -> Self {
        TypeRef(v as u32)
    }
}

impl From<TypeRef> for usize {
    fn from(value: TypeRef) -> (r: usize) {
        value.0 as usize
    }
}

impl vstd::std_specs::convert::FromSpecImpl<TypeRef> for usize {
    open spec fn obeys_from_spec() -> bool {
        true
    }

    closed spec fn from_spec(v: TypeRef) -> usize {
        v.0 as usize
    }
}

/// Reference to a type symbol in its pool.
#[derive(Copy, Clone, Debug, PartialEq, Eq, Hash, Structural)]
pub struct TypeSymbolRef(usize);

impl PoolRef for TypeSymbolRef {
    open spec fn max_index() -> nat {
        usize::MAX as nat
    }

    closed spec fn index_of(&self) -> nat {
        self.0 as nat
    }

    fn from_index(i: usize) -> (r: Self) {
        TypeSymbolRef(i)
    }

    fn to_index(&self) -> (r: usize) {
        self.0
    }
}

impl From<usize> for TypeSymbolRef {
    fn from(value: usize) -> (r: Self) {
        Self(value)
    }
}

impl vstd::std_specs::convert::FromSpecImpl<usize> for TypeSymbolRef {
    open spec fn obeys_from_spec() -> bool {
        true
    }

    closed spec fn from_spec(v: usize) -> Self {
        TypeSymbolRef(v)
    }
}

impl From<TypeSymbolRef> for usize {
    fn from(value: TypeSymbolRef) -> (r: usize) {
        value.0
    }
}

impl vstd::std_specs::convert::FromSpecImpl<TypeSymbolRef> for usize {
    open spec fn obeys_from_spec() -> bool {
        true
    }

    closed spec fn from_spec(v: TypeSymbolRef) -> usize {
        v.0
    }
}

/// Reference to a variable symbol in its pool.
#[derive(Copy, Clone, Debug, PartialEq, Eq, Hash, Structural)]
pub struct VarSymbolRef(usize);

impl PoolRef for VarSymbolRef {
    open spec fn max_index() -> nat {
        usize::MAX as nat
    }

    closed spec fn index_of(&self) -> nat {
        self.0 as nat
    }

    fn from_index(i: usize) -> (r: Self) {
        VarSymbolRef(i)
    }

    fn to_index(&self) -> (r: usize) {
        self.0
    }
}

impl From<usize> for VarSymbolRef {
    fn from(value: usize) -> (r: Self) {
        Self(value)
    }
}

impl vstd::std_specs::convert::FromSpecImpl<usize> for VarSymbolRef {
    open spec fn obeys_from_spec() -> bool {
        true
    }

    closed spec fn from_spec(v: usize) -> Self {
        VarSymbolRef(v)
    }
}

impl From<VarSymbolRef> for usize {
    fn from(value: VarSymbolRef) -> (r: usize) {
        value.0
    }
}

impl vstd::std_specs::convert::FromSpecImpl<VarSymbolRef> for usize {
    open spec fn obeys_from_spec() -> bool {
        true
    }

    closed spec fn from_spec(v: VarSymbolRef) -> usize {
        v.0
    }
}

/// Reference to a callable symbol in its pool.
#[derive(Copy, Clone, Debug, PartialEq, Eq, Hash, Structural)]
pub struct CallableSymbolRef(usize);

impl PoolRef for CallableSymbolRef {
    open spec fn max_index() -> nat {
        usize::MAX as nat
    }

    closed spec fn index_of(&self) -> nat {
        self.0 as nat
    }

    fn from_index(i: usize) -> (r: Self) {
        CallableSymbolRef(i)
    }

    fn to_index(&self) -> (r: usize) {
        self.0
    }
}

impl From<usize> for CallableSymbolRef {
    fn from(value: usize) -> (r: Self) {
        Self(value)
    }
}

impl vstd::std_specs::convert::FromSpecImpl<usize> for CallableSymbolRef {
    open spec fn obeys_from_spec() -> bool {
        true
    }

    closed spec fn from_spec(v: usize) -> Self {
        CallableSymbolRef(v)
    }
}

impl From<CallableSymbolRef> for usize {
    fn from(value: CallableSymbolRef) -> (r: usize) {
        value.0
    }
}

impl vstd::std_specs::convert::FromSpecImpl<CallableSymbolRef> for usize {
    open spec fn obeys_from_spec() -> bool {
        true
    }

    closed spec fn from_spec(v: CallableSymbolRef) -> usize {
        v.0
    }
}

} // verus!
