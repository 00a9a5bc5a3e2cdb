use vstd::prelude::*;
use crate::utils::{str_equal, Size};
pub use crate::codegen::Compiler;

verus! {

/// A machine register, an immediate integer or a named global.
///
/// - 64 bits: Rax, Rbx, Rcx, Rdx, R8, R9, Rbp, Rsp
/// - 32 bits: Eax, Ebx, Edx, Ecx, R8d, R9d
/// - 8 bits: Al, Bl, Dl, Cl
/// - 128 bits: Xmm0, Xmm1, Xmm2
#[derive(Debug, Clone, Copy)]
pub enum Register<'a> {
    Integer(i32),
    Variable(&'a str),
    Rax,
    Rbx,
    Rcx,
    Rdx,
    R8,
    R9,
    Rbp,
    Rsp,
    Eax,
    Ebx,
    Edx,
    Ecx,
    R8d,
    R9d,
    Al,
    Bl,
    Dl,
    Cl,
    Xmm0,
    Xmm1,
    Xmm2,
}

/// Which variant a register is.
pub open spec fn register_tag(r: Register) -> int {
    match r {
        Register::Integer(_) => 0,
        Register::Variable(_) => 1,
        Register::Rax => 2,
        Register::Rbx => 3,
        Register::Rcx => 4,
        Register::Rdx => 5,
        Register::R8 => 6,
        Register::R9 => 7,
        Register::Rbp => 8,
        Register::Rsp => 9,
        Register::Eax => 10,
        Register::Ebx => 11,
        Register::Edx => 12,
        Register::Ecx => 13,
        Register::R8d => 14,
        Register::R9d => 15,
        Register::Al => 16,
        Register::Bl => 17,
        Register::Dl => 18,
        Register::Cl => 19,
        Register::Xmm0 => 20,
        Register::Xmm1 => 21,
        Register::Xmm2 => 22,
    }
}

/// Two registers are the same when they are the same variant, immediates
/// have the same value and globals the same name.
pub open spec fn register_eq(a: Register, b: Register) -> bool {
    match (a, b) {
        (Register::Integer(x), Register::Integer(y)) => x == y,
        (Register::Variable(x), Register::Variable(y)) => x@ == y@,
        _ => register_tag(a) == register_tag(b),
    }
}

impl<'a> Register<'a> {
    fn tag(&self) -> (r: u8)
        ensures
            r == register_tag(*self),
    {
        match self {
            Register::Integer(_) => 0,
            Register::Variable(_) => 1,
            Register::Rax => 2,
            Register::Rbx => 3,
            Register::Rcx => 4,
            Register::Rdx => 5,
            Register::R8 => 6,
            Register::R9 => 7,
            Register::Rbp => 8,
            Register::Rsp => 9,
            Register::Eax => 10,
            Register::Ebx => 11,
            Register::Edx => 12,
            Register::Ecx => 13,
            Register::R8d => 14,
            Register::R9d => 15,
            Register::Al => 16,
            Register::Bl => 17,
            Register::Dl => 18,
            Register::Cl => 19,
            Register::Xmm0 => 20,
            Register::Xmm1 => 21,
            Register::Xmm2 => 22,
        }
    }

    pub fn same(&self, other: &Register<'a>) -> (r: bool)
        ensures
            r == register_eq(*self, *other),
    {
        match (self, other) {
            (Register::Integer(x), Register::Integer(y)) => *x == *y,
            (Register::Variable(x), Register::Variable(y)) => str_equal(x, y),
            _ => self.tag() == other.tag(),
        }
    }
}

impl<'a> PartialEq for Register<'a> {
    fn eq(&self, other: &Self) -> (r: bool) {
        self.same(other)
    }
}

impl<'a> vstd::std_specs::cmp::PartialEqSpecImpl for Register<'a> {
    open spec fn obeys_eq_spec() -> bool {
        true
    }

    open spec fn eq_spec(&self, other: &Register<'a>) -> bool {
        register_eq(*self, *other)
    }
}

/// The register that carries the `i`-th argument of a call (Windows x64
/// convention): the first four only.
pub open spec fn param_register<'a>(i: int) -> Register<'a> {
    if i == 0 {
        Register::Rcx
    } else if i == 1 {
        Register::Rdx
    } else if i == 2 {
        Register::R8
    } else {
        Register::R9
    }
}

/// The part of `r` that holds a value of `size`, where the code generator
/// knows one.
pub open spec fn spec_to_size<'a>(r: Register<'a>, size: Size) -> Option<Register<'a>> {
    match (r, size) {
        (Register::Integer(i), _) => Some(Register::Integer(i)),
        (Register::Variable(v), _) => Some(Register::Variable(v)),
        (Register::Rax, Size::S64bit) => Some(Register::Rax),
        (Register::Rax, Size::S8bit) => Some(Register::Al),
        (Register::Rax, Size::S32bit) => Some(Register::Eax),
        (Register::Rbx, Size::S64bit) => Some(Register::Rbx),
        (Register::Rbx, Size::S8bit) => Some(Register::Bl),
        (Register::Rbx, Size::S32bit) => Some(Register::Ebx),
        (Register::Rcx, Size::S32bit) => Some(Register::Ecx),
        (Register::Rdx, Size::S32bit) => Some(Register::Edx),
        (Register::Rcx, Size::S64bit) => Some(Register::Rcx),
        (Register::Rdx, Size::S64bit) => Some(Register::Rdx),
        (Register::Rdx, Size::S8bit) => Some(Register::Dl),
        (Register::R8, Size::S32bit) => Some(Register::R8d),
        (Register::Rcx, Size::S8bit) => Some(Register::Cl),
        (Register::R9, Size::S32bit) => Some(Register::R9d),
        _ => None,
    }
}

impl<'a> Register<'a> {
    pub fn from_param_index64(i: usize) -> (r: Self)
        requires
            i < 4,
        ensures
            r == param_register::<'a>(i as int),
    {
        match i {
            0 => Register::Rcx,
            1 => Register::Rdx,
            2 => Register::R8,
            _ => Register::R9,
        }
    }

    pub fn to_size(&self, size: &Size) -> (r: Self)
        requires
            spec_to_size(*self, *size) is Some,
        ensures
            spec_to_size(*self, *size) == Some(r),
    {
        match (self, size) {
            (Self::Integer(i), _) => Self::Integer(*i),
            (Self::Variable(v), _) => Self::Variable(*v),
            (Register::Rax, Size::S64bit) => Self::Rax,
            (Register::Rax, Size::S8bit) => Self::Al,
            (Register::Rax, Size::S32bit) => Self::Eax,
            (Register::Rbx, Size::S64bit) => Self::Rbx,
            (Register::Rbx, Size::S8bit) => Self::Bl,
            (Register::Rbx, Size::S32bit) => Self::Ebx,
            (Register::Rcx, Size::S32bit) => Self::Ecx,
            (Register::Rdx, Size::S32bit) => Self::Edx,
            (Register::Rcx, Size::S64bit) => Self::Rcx,
            (Register::Rdx, Size::S64bit) => Self::Rdx,
            (Register::Rdx, Size::S8bit) => Self::Dl,
            (Register::R8, Size::S32bit) => Self::R8d,
            (Register::Rcx, Size::S8bit) => Self::Cl,
            _ => Self::R9d,
        }
    }

    /// The memory at the address held in `self`.
    pub fn as_addr(self, size: Size) -> (r: StackMemory<'a>)
        ensures
            r == (StackMemory { base: self, offset: 0, size }),
    {
        StackMemory { base: self, offset: 0, size: size }
    }

    /// The memory `offset` bytes below the address held in `self`.
    pub fn with_offset(self, size: Size, offset: usize) -> (r: StackMemory<'a>)
        ensures
            r == (StackMemory { base: self, offset, size }),
    {
        StackMemory::new(self, size).with_offset(offset)
    }
}

/// The assembler's word for an operand of `s`.
pub open spec fn spec_word(s: Size) -> Option<&'static str> {
    match s {
        Size::S8bit => Some("byte"),
        Size::S64bit => Some("qword"),
        Size::S32bit => Some("dword"),
        Size::S128bit => Some("oword"),
        Size::S16bit => Some("word"),
        _ => None,
    }
}

/// The data directive that defines a value of `s`.
pub open spec fn spec_d(s: Size) -> Option<&'static str> {
    match s {
        Size::S8bit => Some("db"),
        Size::S64bit => Some("dq"),
        Size::S32bit => Some("dd"),
        Size::S128bit => Some("do"),
        Size::S16bit => Some("dw"),
        _ => None,
    }
}

/// The directive that reserves space for a value of `s`, with its count: an
/// array reserves `length` elements of its element's directive.
pub open spec fn spec_res(s: Size) -> (&'static str, usize)
    decreases s,
{
    match s {
        Size::S8bit => ("resb", 1),
        Size::S16bit => ("resw", 1),
        Size::S32bit => ("resd", 1),
        Size::S64bit => ("resq", 1),
        Size::S128bit => ("reso", 1),
        Size::SArray { element_size, length } => (spec_res(*element_size).0, length),
    }
}

/// The command that sign-extends the accumulator into the data register
/// before a signed division of `s`.
pub open spec fn spec_sign_extention<'a>(s: Size) -> Option<Command<'a>> {
    match s {
        Size::S16bit => Some(Command::Cwd),
        Size::S32bit => Some(Command::Cdq),
        Size::S64bit => Some(Command::Cqo),
        _ => None,
    }
}

impl Size {
    pub fn word(&self) -> (r: Option<&'static str>)
        ensures
            r == spec_word(*self),
    {
        match self {
            Self::S8bit => Some("byte"),
            Self::S64bit => Some("qword"),
            Self::S32bit => Some("dword"),
            Self::S128bit => Some("oword"),
            Self::S16bit => Some("word"),
            _ => None,
        }
    }

    pub fn d(&self) -> (r: Option<&'static str>)
        ensures
            r == spec_d(*self),
    {
        match self {
            Self::S8bit => Some("db"),
            Self::S64bit => Some("dq"),
            Self::S32bit => Some("dd"),
            Self::S128bit => Some("do"),
            Self::S16bit => Some("dw"),
            _ => None,
        }
    }

    pub fn res(&self) -> (r: (&'static str, usize))
        ensures
            r == spec_res(*self),
        decreases self,
    {
        match self {
            Self::S8bit => ("resb", 1),
            Self::S16bit => ("resw", 1),
            Self::S32bit => ("resd", 1),
            Self::S64bit => ("resq", 1),
            Self::S128bit => ("reso", 1),
            Self::SArray { element_size, length } => (element_size.res().0, *length),
        }
    }

    pub fn sign_extention<'a>(&self) -> (r: Option<Command<'a>>)
        ensures
            r == spec_sign_extention::<'a>(*self),
    {
        match self {
            Self::S16bit => Some(Command::Cwd),
            Self::S32bit => Some(Command::Cdq),
            Self::S64bit => Some(Command::Cqo),
            _ => None,
        }
    }
}

/// A global variable of the data section, addressed relative to the
/// instruction pointer.
#[derive(Debug)]
pub struct GlobalMemory<'a> {
    pub name: &'a str,
    pub size: Size,
}

impl<'a> GlobalMemory<'a> {
    pub fn new(name: &'a str, size: Size) -> (r: Self)
        ensures
            r == (GlobalMemory { name, size }),
    {
        Self { name, size }
    }
}

/// An element of an array: `register + index * size`.
#[derive(Debug)]
pub struct IndexMemory<'a> {
    pub register: Register<'a>,
    pub index: Register<'a>,
    pub size: Size,
}

/// Memory `offset` bytes below the address in `base`.
#[derive(Debug)]
pub struct StackMemory<'a> {
    pub base: Register<'a>,
    pub offset: usize,
    pub size: Size,
}

impl<'a> StackMemory<'a> {
    pub fn new(base: Register<'a>, size: Size) -> (r: Self)
        ensures
            r == (StackMemory { base, offset: 0, size }),
    {
        Self { base, offset: 0, size: size }
    }

    pub fn with_offset(self, offset: usize) -> (r: Self)
        ensures
            r == (StackMemory { offset, ..self }),
    {
        let mut s = self;
        s.offset = offset;
        s
    }
}

/// A memory operand.
#[derive(Debug)]
pub enum Memory<'a> {
    StackMemory(StackMemory<'a>),
    GlobalMemory(GlobalMemory<'a>),
    IndexMemory(IndexMemory<'a>),
}

/// An operand of a command: a register or memory.
#[derive(Debug)]
pub enum Operand<'a> {
    Register(Register<'a>),
    Memory(Memory<'a>),
}

/// Two memory operands are the same when their variants and fields are,
/// registers compared as registers.
pub open spec fn memory_eq(a: Memory, b: Memory) -> bool {
    match (a, b) {
        (Memory::StackMemory(x), Memory::StackMemory(y)) => {
            register_eq(x.base, y.base) && x.offset == y.offset && x.size == y.size
        },
        (Memory::GlobalMemory(x), Memory::GlobalMemory(y)) => x.name@ == y.name@ && x.size == y.size,
        (Memory::IndexMemory(x), Memory::IndexMemory(y)) => {
            register_eq(x.register, y.register) && register_eq(x.index, y.index) && x.size == y.size
        },
        _ => false,
    }
}

pub open spec fn operand_eq(a: Operand, b: Operand) -> bool {
    match (a, b) {
        (Operand::Register(x), Operand::Register(y)) => register_eq(x, y),
        (Operand::Memory(x), Operand::Memory(y)) => memory_eq(x, y),
        _ => false,
    }
}

impl<'a> Memory<'a> {
    pub fn same(&self, other: &Memory<'a>) -> (r: bool)
        ensures
            r == memory_eq(*self, *other),
    {
        match (self, other) {
            (Memory::StackMemory(x), Memory::StackMemory(y)) => {
                x.base.same(&y.base) && x.offset == y.offset && x.size.same(&y.size)
            },
            (Memory::GlobalMemory(x), Memory::GlobalMemory(y)) => str_equal(x.name, y.name) && x.size.same(
                &y.size,
            ),
            (Memory::IndexMemory(x), Memory::IndexMemory(y)) => {
                x.register.same(&y.register) && x.index.same(&y.index) && x.size.same(&y.size)
            },
            _ => false,
        }
    }
}

impl<'a> Operand<'a> {
    pub fn same(&self, other: &Operand<'a>) -> (r: bool)
        ensures
            r == operand_eq(*self, *other),
    {
        match (self, other) {
            (Operand::Register(x), Operand::Register(y)) => x.same(y),
            (Operand::Memory(x), Operand::Memory(y)) => x.same(y),
            _ => false,
        }
    }
}

impl<'a> Clone for Memory<'a> {
    fn clone(&self) -> (r: Self)
        ensures
            r == *self,
    {
        match self {
            Memory::StackMemory(m) => Memory::StackMemory(
                StackMemory { base: m.base, offset: m.offset, size: m.size.clone() },
            ),
            Memory::GlobalMemory(m) => Memory::GlobalMemory(GlobalMemory { name: m.name, size: m.size.clone() }),
            Memory::IndexMemory(m) => Memory::IndexMemory(
                IndexMemory { register: m.register, index: m.index, size: m.size.clone() },
            ),
        }
    }
}

impl<'a> Clone for Operand<'a> {
    fn clone(&self) -> (r: Self)
        ensures
            r == *self,
    {
        match self {
            Operand::Register(x) => Operand::Register(*x),
            Operand::Memory(m) => Operand::Memory(m.clone()),
        }
    }
}

/// An instruction of the generated assembly.
///
/// - Push(op) -> push op to the stack
/// - Pop(op) -> pop value from the stack into op
/// - Mov { dst, src } -> move value from src into dst
/// - Add { dst, src } -> add dst and src values and save result in dst
/// - Sub { dst, src } -> subtract src from dst and save result in dst
/// - Imul { dst, src } -> multiply src and dst values and save result in dst
/// - Div(reg) -> divide value in RAX by reg value
/// - Neg(reg) -> make value in reg negative
/// - Xor { dst, src } -> XOR operation on dst and src values and save result in dst
/// - Lea { dst, src } -> save address of src to dst
/// - Call { name } -> call a function by the name
/// - Ret -> return (exit)
/// - Cmp { op1, op2 } -> compare op1 and op2 values
/// - Je(l) -> jump to l if previous cmp returns equals
/// - Jne(l) -> jump to l if previous cmp returns not equals
#[derive(Debug)]
pub enum Command<'a> {
    Push(Operand<'a>),
    Pop(Operand<'a>),
    Mov { dst: Operand<'a>, src: Operand<'a> },
    Movzx { dst: Register<'a>, src: Operand<'a> },
    Movsx { dst: Register<'a>, src: Operand<'a> },
    Add { dst: Register<'a>, src: Register<'a> },
    Sub { dst: Register<'a>, src: Register<'a> },
    Imul { dst: Register<'a>, src: Register<'a> },
    Div(Register<'a>),
    IDiv(Register<'a>),
    Neg(Register<'a>),
    Xor { dst: Register<'a>, src: Register<'a> },
    And { dst: Register<'a>, src: Register<'a> },
    Or { dst: Register<'a>, src: Register<'a> },
    Not(Register<'a>),
    Lea { dst: Register<'a>, src: Memory<'a> },
    Inc(Register<'a>),
    Dec(Register<'a>),
    Call { name: &'a str },
    Ret,
    Leave,
    Cmp { op1: Operand<'a>, op2: Operand<'a> },
    Test { op1: Operand<'a>, op2: Operand<'a> },
    Je(String),
    Jne(String),
    Jg(String),
    Jge(String),
    Jl(String),
    Jz(String),
    Jle(String),
    Jmp(String),
    Sete(Register<'a>),
    Setne(Register<'a>),
    Setg(Register<'a>),
    Setge(Register<'a>),
    Setl(Register<'a>),
    Setle(Register<'a>),
    Cwd,
    Cdq,
    Cqo,
}

impl<'a> Clone for Command<'a> {
    fn clone(&self) -> (r: Self)
        ensures
            r == *self,
    {
        match self {
            Command::Push(o) => Command::Push(o.clone()),
            Command::Pop(o) => Command::Pop(o.clone()),
            Command::Mov { dst, src } => Command::Mov { dst: dst.clone(), src: src.clone() },
            Command::Movzx { dst, src } => Command::Movzx { dst: *dst, src: src.clone() },
            Command::Movsx { dst, src } => Command::Movsx { dst: *dst, src: src.clone() },
            Command::Add { dst, src } => Command::Add { dst: *dst, src: *src },
            Command::Sub { dst, src } => Command::Sub { dst: *dst, src: *src },
            Command::Imul { dst, src } => Command::Imul { dst: *dst, src: *src },
            Command::Div(r) => Command::Div(*r),
            Command::IDiv(r) => Command::IDiv(*r),
            Command::Neg(r) => Command::Neg(*r),
            Command::Xor { dst, src } => Command::Xor { dst: *dst, src: *src },
            Command::And { dst, src } => Command::And { dst: *dst, src: *src },
            Command::Or { dst, src } => Command::Or { dst: *dst, src: *src },
            Command::Not(r) => Command::Not(*r),
            Command::Lea { dst, src } => Command::Lea { dst: *dst, src: src.clone() },
            Command::Inc(r) => Command::Inc(*r),
            Command::Dec(r) => Command::Dec(*r),
            Command::Call { name } => Command::Call { name: *name },
            Command::Ret => Command::Ret,
            Command::Leave => Command::Leave,
            Command::Cmp { op1, op2 } => Command::Cmp { op1: op1.clone(), op2: op2.clone() },
            Command::Test { op1, op2 } => Command::Test { op1: op1.clone(), op2: op2.clone() },
            Command::Je(l) => Command::Je(l.clone()),
            Command::Jne(l) => Command::Jne(l.clone()),
            Command::Jg(l) => Command::Jg(l.clone()),
            Command::Jge(l) => Command::Jge(l.clone()),
            Command::Jl(l) => Command::Jl(l.clone()),
            Command::Jz(l) => Command::Jz(l.clone()),
            Command::Jle(l) => Command::Jle(l.clone()),
            Command::Jmp(l) => Command::Jmp(l.clone()),
            Command::Sete(r) => Command::Sete(*r),
            Command::Setne(r) => Command::Setne(*r),
            Command::Setg(r) => Command::Setg(*r),
            Command::Setge(r) => Command::Setge(*r),
            Command::Setl(r) => Command::Setl(*r),
            Command::Setle(r) => Command::Setle(*r),
            Command::Cwd => Command::Cwd,
            Command::Cdq => Command::Cdq,
            Command::Cqo => Command::Cqo,
        }
    }
}

/// `mov dst, src`, or nothing when the two operands are the same.
pub open spec fn mov_unless_same<'a>(dst: Operand<'a>, src: Operand<'a>) -> Seq<Command<'a>> {
    if operand_eq(dst, src) {
        Seq::empty()
    } else {
        seq![Command::Mov { dst, src }]
    }
}

pub open spec fn pushed<'a>(c: Command<'a>) -> Option<Operand<'a>> {
    match c {
        Command::Push(o) => Some(o),
        _ => None,
    }
}

pub open spec fn popped<'a>(c: Command<'a>) -> Option<Operand<'a>> {
    match c {
        Command::Pop(o) => Some(o),
        _ => None,
    }
}

/// The peephole rewriting of a command sequence, scanned from the front:
/// - `push X; push Y; pop A; pop B` becomes `mov A, Y; mov B, X`,
/// - `push X; pop Y` becomes `mov Y, X`,
/// where a `mov` between equal operands is left out, and every other command
/// is kept.
pub open spec fn peephole<'a>(s: Seq<Command<'a>>) -> Seq<Command<'a>>
    decreases s.len(),
{
    if s.len() >= 4 && pushed(s[0]) is Some && pushed(s[1]) is Some && popped(s[2]) is Some && popped(
        s[3],
    ) is Some {
        mov_unless_same(popped(s[2])->0, pushed(s[1])->0) + mov_unless_same(
            popped(s[3])->0,
            pushed(s[0])->0,
        ) + peephole(s.skip(4))
    } else if s.len() >= 2 && pushed(s[0]) is Some && popped(s[1]) is Some {
        mov_unless_same(popped(s[1])->0, pushed(s[0])->0) + peephole(s.skip(2))
    } else if s.len() >= 1 {
        seq![s[0]] + peephole(s.skip(1))
    } else {
        Seq::empty()
    }
}

/// The rewriting never makes a sequence longer.
pub proof fn law_peephole_never_grows<'a>(s: Seq<Command<'a>>)
    ensures
        peephole(s).len() <= s.len(),
    decreases s.len(),
{
    if s.len() >= 4 && pushed(s[0]) is Some && pushed(s[1]) is Some && popped(s[2]) is Some && popped(
        s[3],
    ) is Some {
        law_peephole_never_grows(s.skip(4));
    } else if s.len() >= 2 && pushed(s[0]) is Some && popped(s[1]) is Some {
        law_peephole_never_grows(s.skip(2));
    } else if s.len() >= 1 {
        law_peephole_never_grows(s.skip(1));
    }
}

/// A sequence without any `push` is left as it is.
pub proof fn law_peephole_keeps_code_without_push<'a>(s: Seq<Command<'a>>)
    requires
        forall|i: int| 0 <= i < s.len() ==> !(#[trigger] s[i] is Push),
    ensures
        peephole(s) == s,
    decreases s.len(),
{
    if s.len() >= 1 {
        assert forall|i: int| 0 <= i < s.skip(1).len() implies !(#[trigger] s.skip(1)[i] is Push) by {
            assert(s.skip(1)[i] == s[i + 1]);
        }
        law_peephole_keeps_code_without_push(s.skip(1));
        assert(seq![s[0]] + s.skip(1) =~= s);
    }
}

/// A pushed value popped straight back into the same place leaves no code.
pub proof fn law_peephole_drops_push_pop_of_same<'a>(x: Operand<'a>, y: Operand<'a>, rest: Seq<Command<'a>>)
    requires
        operand_eq(y, x),
        !(rest.len() >= 2 && pushed(rest[0]) is Some && popped(rest[1]) is Some),
        !(rest.len() >= 1 && popped(rest[0]) is Some),
    ensures
        peephole(seq![Command::Push(x), Command::Pop(y)] + rest) == peephole(rest),
{
    let s = seq![Command::Push(x), Command::Pop(y)] + rest;
    assert(s[0] == Command::Push(x));
    assert(s[1] == Command::Pop(y));
    if s.len() >= 4 {
        assert(s[2] == rest[0]);
        assert(s[3] == rest[1]);
    }
    assert(s.skip(2) =~= rest);
}

/// The effect of a run is the effect of its parts.
pub proof fn lemma_stack_effect_concat<'a>(a: Seq<Command<'a>>, b: Seq<Command<'a>>)
    ensures
        stack_effect(a + b) == stack_effect(a) + stack_effect(b),
    decreases b.len(),
{
    if b.len() == 0 {
        assert(a + b =~= a);
    } else {
        lemma_stack_effect_concat(a, b.drop_last());
        assert((a + b).drop_last() =~= a + b.drop_last());
    }
}

proof fn lemma_stack_effect_single<'a>(c: Command<'a>)
    ensures
        stack_effect(seq![c]) == cmd_stack_effect(c),
{
    assert(seq![c].drop_last() =~= Seq::<Command<'a>>::empty());
    assert(stack_effect(Seq::<Command<'a>>::empty()) == 0);
    assert(seq![c].last() == c);
}

proof fn lemma_stack_effect_front<'a>(s: Seq<Command<'a>>)
    requires
        s.len() > 0,
    ensures
        stack_effect(s) == cmd_stack_effect(s[0]) + stack_effect(s.skip(1)),
{
    lemma_stack_effect_concat(seq![s[0]], s.skip(1));
    assert(seq![s[0]] + s.skip(1) =~= s);
    lemma_stack_effect_single(s[0]);
}

proof fn lemma_mov_unless_same_effect<'a>(dst: Operand<'a>, src: Operand<'a>)
    ensures
        stack_effect(mov_unless_same(dst, src)) == 0,
{
    if !operand_eq(dst, src) {
        lemma_stack_effect_single(Command::Mov { dst, src });
    } else {
        assert(stack_effect(Seq::<Command<'a>>::empty()) == 0);
    }
}

/// The rewriting keeps how many values the code leaves on the machine
/// stack.
pub proof fn law_peephole_keeps_stack_effect<'a>(s: Seq<Command<'a>>)
    ensures
        stack_effect(peephole(s)) == stack_effect(s),
    decreases s.len(),
{
    if s.len() >= 4 && pushed(s[0]) is Some && pushed(s[1]) is Some && popped(s[2]) is Some && popped(
        s[3],
    ) is Some {
        let m1 = mov_unless_same(popped(s[2])->0, pushed(s[1])->0);
        let m2 = mov_unless_same(popped(s[3])->0, pushed(s[0])->0);
        law_peephole_keeps_stack_effect(s.skip(4));
        lemma_mov_unless_same_effect(popped(s[2])->0, pushed(s[1])->0);
        lemma_mov_unless_same_effect(popped(s[3])->0, pushed(s[0])->0);
        lemma_stack_effect_concat(m1, m2);
        lemma_stack_effect_concat(m1 + m2, peephole(s.skip(4)));
        lemma_stack_effect_front(s);
        lemma_stack_effect_front(s.skip(1));
        lemma_stack_effect_front(s.skip(2));
        lemma_stack_effect_front(s.skip(3));
        assert(s.skip(1).skip(1) =~= s.skip(2));
        assert(s.skip(2).skip(1) =~= s.skip(3));
        assert(s.skip(3).skip(1) =~= s.skip(4));
        assert(s.skip(1)[0] == s[1]);
        assert(s.skip(2)[0] == s[2]);
        assert(s.skip(3)[0] == s[3]);
    } else if s.len() >= 2 && pushed(s[0]) is Some && popped(s[1]) is Some {
        let m = mov_unless_same(popped(s[1])->0, pushed(s[0])->0);
        law_peephole_keeps_stack_effect(s.skip(2));
        lemma_mov_unless_same_effect(popped(s[1])->0, pushed(s[0])->0);
        lemma_stack_effect_concat(m, peephole(s.skip(2)));
        lemma_stack_effect_front(s);
        lemma_stack_effect_front(s.skip(1));
        assert(s.skip(1).skip(1) =~= s.skip(2));
        assert(s.skip(1)[0] == s[1]);
    } else if s.len() >= 1 {
        law_peephole_keeps_stack_effect(s.skip(1));
        lemma_stack_effect_concat(seq![s[0]], peephole(s.skip(1)));
        lemma_stack_effect_front(s);
        lemma_stack_effect_single(s[0]);
    } else {
        assert(stack_effect(peephole(s)) == 0);
    }
}

/// A 64-bit general register whose value the data-flow model tracks on its own.
pub open spec fn general_register(r: Register) -> bool {
    r is Rax || r is Rbx || r is Rcx || r is Rdx || r is R8 || r is R9 || r is Rbp
}

/// A command the data-flow model covers: pushing a general register or a
/// constant, popping into a general register, and moving a general register
/// or a constant into a general register.
pub open spec fn data_flow_command(c: Command) -> bool {
    match c {
        Command::Push(Operand::Register(r)) => general_register(r) || r is Integer,
        Command::Pop(Operand::Register(r)) => general_register(r),
        Command::Mov { dst: Operand::Register(d), src: Operand::Register(r) } => general_register(d) && (
        general_register(r) || r is Integer),
        _ => false,
    }
}

/// The register of a register operand.
pub open spec fn operand_register<'a>(o: Operand<'a>) -> Register<'a> {
    match o {
        Operand::Register(r) => r,
        _ => Register::Rax,
    }
}

/// The value of an operand: a constant, or what the register holds.
pub open spec fn operand_value(regs: spec_fn(int) -> int, o: Operand) -> int {
    match o {
        Operand::Register(Register::Integer(i)) => i as int,
        Operand::Register(r) => regs(register_tag(r)),
        _ => 0,
    }
}

/// The registers with the register tagged `t` set to `v`.
pub open spec fn set_register(regs: spec_fn(int) -> int, t: int, v: int) -> spec_fn(int) -> int {
    |k: int| if k == t { v } else { regs(k) }
}

/// One command of the data-flow model run on registers and a stack: `None`
/// when it pops an empty stack or is outside the model.
pub open spec fn step_command(c: Command, st: (spec_fn(int) -> int, Seq<int>)) -> Option<(spec_fn(int) -> int, Seq<int>)> {
    match c {
        Command::Push(o) => Some((st.0, st.1.push(operand_value(st.0, o)))),
        Command::Pop(Operand::Register(r)) => if st.1.len() == 0 {
            None
        } else {
            Some((set_register(st.0, register_tag(r), st.1.last()), st.1.drop_last()))
        },
        Command::Mov { dst: Operand::Register(r), src } => Some((set_register(st.0, register_tag(r), operand_value(st.0, src)), st.1)),
        _ => None,
    }
}

/// Runs commands from the state `st`: the registers and the stack at the end.
pub open spec fn run_commands(s: Seq<Command>, st: (spec_fn(int) -> int, Seq<int>)) -> Option<(spec_fn(int) -> int, Seq<int>)>
    decreases s.len(),
{
    if s.len() == 0 {
        Some(st)
    } else {
        match step_command(s[0], st) {
            Some(next) => run_commands(s.skip(1), next),
            None => None,
        }
    }
}

/// At `k`, `s` holds `push X; push Y; pop A; pop B` whose first pop goes
/// into the register `X`, pushed with another value than `Y`.
pub open spec fn pop_over_pushed_at(s: Seq<Command>, k: int) -> bool {
    &&& 0 <= k
    &&& k + 3 < s.len()
    &&& match (s[k], s[k + 1], s[k + 2], s[k + 3]) {
        (
            Command::Push(Operand::Register(x)),
            Command::Push(Operand::Register(y)),
            Command::Pop(Operand::Register(a)),
            Command::Pop(_),
        ) => register_eq(a, x) && !register_eq(x, y),
        _ => false,
    }
}

/// No `push X; push Y; pop A; pop B` in `s` pops into `A` the register `X`
/// unless `X` and `Y` are the same: there the rewriting would read `X` after
/// overwriting it.
pub open spec fn no_pop_over_pushed(s: Seq<Command>) -> bool {
    forall|k: int| !#[trigger] pop_over_pushed_at(s, k)
}

/// Dropping the first `n` commands keeps `s` free of such windows.
proof fn lemma_no_pop_over_pushed_skip<'a>(s: Seq<Command<'a>>, n: int)
    requires
        no_pop_over_pushed(s),
        0 <= n <= s.len(),
    ensures
        no_pop_over_pushed(s.skip(n)),
{
    let rest = s.skip(n);
    assert forall|k: int| !#[trigger] pop_over_pushed_at(rest, k) by {
        if 0 <= k && k + 3 < rest.len() {
            assert(rest[k] == s[k + n]);
            assert(rest[k + 1] == s[k + n + 1]);
            assert(rest[k + 2] == s[k + n + 2]);
            assert(rest[k + 3] == s[k + n + 3]);
            assert(!pop_over_pushed_at(s, k + n));
        }
    }
}

proof fn lemma_run_concat<'a>(a: Seq<Command<'a>>, b: Seq<Command<'a>>, st: (spec_fn(int) -> int, Seq<int>))
    ensures
        run_commands(a + b, st) == match run_commands(a, st) {
            Some(m) => run_commands(b, m),
            None => None,
        },
    decreases a.len(),
{
    if a.len() == 0 {
        assert(a + b =~= b);
    } else {
        assert((a + b).skip(1) =~= a.skip(1) + b);
        assert((a + b)[0] == a[0]);
        if let Some(next) = step_command(a[0], st) {
            lemma_run_concat(a.skip(1), b, next);
        }
    }
}

proof fn lemma_run_single<'a>(c: Command<'a>, st: (spec_fn(int) -> int, Seq<int>))
    ensures
        run_commands(seq![c], st) == step_command(c, st),
{
    assert(seq![c].skip(1) =~= Seq::<Command<'a>>::empty());
    reveal_with_fuel(run_commands, 2);
}

/// Leaving out a move of a register to itself changes nothing.
proof fn lemma_mov_unless_same_runs<'a>(dst: Operand<'a>, src: Operand<'a>, st: (spec_fn(int) -> int, Seq<int>))
    requires
        data_flow_command(Command::Mov { dst, src }),
    ensures
        run_commands(mov_unless_same(dst, src), st) == step_command(Command::Mov { dst, src }, st),
{
    if operand_eq(dst, src) {
        let (regs, stack) = st;
        if let (Operand::Register(d), Operand::Register(r)) = (dst, src) {
            assert(register_tag(d) == register_tag(r));
            assert(set_register(regs, register_tag(d), operand_value(regs, src)) =~= regs);
        }
    } else {
        lemma_run_single(Command::Mov { dst, src }, st);
    }
}

/// The peephole rewriting keeps the data flow of the code: run on any
/// registers and stack, the rewritten code leaves every register and the
/// stack as the original code does, wherever the original runs without
/// popping an empty stack. For `push X; push Y; pop A; pop B` that means `A`
/// gets the value of `Y` and `B` that of `X`.
pub proof fn law_peephole_keeps_data_flow<'a>(s: Seq<Command<'a>>, st: (spec_fn(int) -> int, Seq<int>))
    requires
        forall|i: int| 0 <= i < s.len() ==> data_flow_command(#[trigger] s[i]),
        no_pop_over_pushed(s),
        run_commands(s, st) is Some,
    ensures
        run_commands(peephole(s), st) == run_commands(s, st),
    decreases s.len(),
{
    let (regs, stack) = st;
    if s.len() >= 4 && pushed(s[0]) is Some && pushed(s[1]) is Some && popped(s[2]) is Some && popped(s[3]) is Some {
        let x = pushed(s[0])->0;
        let y = pushed(s[1])->0;
        let a = popped(s[2])->0;
        let b = popped(s[3])->0;
        let rest = s.skip(4);
        lemma_no_pop_over_pushed_skip(s, 4);
        assert(data_flow_command(s[0]) && data_flow_command(s[1]) && data_flow_command(s[2]) && data_flow_command(s[3]));
        assert(s =~= seq![s[0], s[1], s[2], s[3]] + rest);
        let vx = operand_value(regs, x);
        let vy = operand_value(regs, y);
        let st1 = (set_register(set_register(regs, register_tag(operand_register(a)), vy), register_tag(operand_register(b)), vx), stack);
        lemma_run_concat(seq![s[0], s[1], s[2], s[3]], rest, st);
        let w = seq![s[0], s[1], s[2], s[3]];
        assert(w.skip(1) =~= seq![s[1], s[2], s[3]]);
        assert(w.skip(1).skip(1) =~= seq![s[2], s[3]]);
        assert(w.skip(1).skip(1).skip(1) =~= seq![s[3]]);
        assert(w.skip(1).skip(1).skip(1).skip(1) =~= Seq::<Command<'a>>::empty());
        assert(stack.push(vx).push(vy).drop_last() =~= stack.push(vx));
        assert(stack.push(vx).drop_last() =~= stack);
        assert(run_commands(w, st) == Some(st1)) by {
            reveal_with_fuel(run_commands, 5);
        }
        assert(!pop_over_pushed_at(s, 0));
        let m1 = mov_unless_same(a, y);
        let m2 = mov_unless_same(b, x);
        lemma_run_concat(m1 + m2, peephole(rest), st);
        lemma_run_concat(m1, m2, st);
        lemma_mov_unless_same_runs(a, y, st);
        let st_a = (set_register(regs, register_tag(operand_register(a)), vy), stack);
        lemma_mov_unless_same_runs(b, x, st_a);
        assert(operand_value(st_a.0, x) == vx);
        assert forall|i: int| 0 <= i < rest.len() implies data_flow_command(#[trigger] rest[i]) by {
            assert(rest[i] == s[i + 4]);
        }
        law_peephole_keeps_data_flow(rest, st1);
    } else if s.len() >= 2 && pushed(s[0]) is Some && popped(s[1]) is Some {
        let x = pushed(s[0])->0;
        let a = popped(s[1])->0;
        let rest = s.skip(2);
        lemma_no_pop_over_pushed_skip(s, 2);
        assert(data_flow_command(s[0]) && data_flow_command(s[1]));
        let w = seq![s[0], s[1]];
        assert(s =~= w + rest);
        lemma_run_concat(w, rest, st);
        assert(w.skip(1) =~= seq![s[1]]);
        assert(w.skip(1).skip(1) =~= Seq::<Command<'a>>::empty());
        assert(stack.push(operand_value(regs, x)).drop_last() =~= stack);
        let st1 = (set_register(regs, register_tag(operand_register(a)), operand_value(regs, x)), stack);
        assert(run_commands(w, st) == Some(st1)) by {
            reveal_with_fuel(run_commands, 5);
        }
        let m = mov_unless_same(a, x);
        lemma_run_concat(m, peephole(rest), st);
        lemma_mov_unless_same_runs(a, x, st);
        assert forall|i: int| 0 <= i < rest.len() implies data_flow_command(#[trigger] rest[i]) by {
            assert(rest[i] == s[i + 2]);
        }
        law_peephole_keeps_data_flow(rest, st1);
    } else if s.len() >= 1 {
        let rest = s.skip(1);
        lemma_no_pop_over_pushed_skip(s, 1);
        let next = step_command(s[0], st)->0;
        lemma_run_concat(seq![s[0]], peephole(rest), st);
        lemma_run_single(s[0], st);
        assert forall|i: int| 0 <= i < rest.len() implies data_flow_command(#[trigger] rest[i]) by {
            assert(rest[i] == s[i + 1]);
        }
        law_peephole_keeps_data_flow(rest, next);
    }
}

fn pushed_operand<'a, 'b>(c: &'b Command<'a>) -> (r: Option<&'b Operand<'a>>)
    ensures
        r matches Some(o) ==> pushed(*c) == Some(*o),
        r is None ==> pushed(*c) is None,
{
    match c {
        Command::Push(o) => Some(o),
        _ => None,
    }
}

fn popped_operand<'a, 'b>(c: &'b Command<'a>) -> (r: Option<&'b Operand<'a>>)
    ensures
        r matches Some(o) ==> popped(*c) == Some(*o),
        r is None ==> popped(*c) is None,
{
    match c {
        Command::Pop(o) => Some(o),
        _ => None,
    }
}

fn push_mov_unless_same<'a>(out: &mut Vec<Command<'a>>, dst: &Operand<'a>, src: &Operand<'a>)
    ensures
        final(out)@ == old(out)@ + mov_unless_same(*dst, *src),
{
    if !dst.same(src) {
        out.push(Command::Mov { dst: dst.clone(), src: src.clone() });
    }
}

/// Rewrites `commands` by the peephole rules.
pub fn optimize_commands<'a>(commands: &Vec<Command<'a>>) -> (r: Vec<Command<'a>>)
    ensures
        r@ == peephole(commands@),
{
    let n = commands.len();
    let mut optimized: Vec<Command<'a>> = Vec::new();
    let mut i: usize = 0;
    proof {
        assert(commands@.skip(0) =~= commands@);
        assert(optimized@ + peephole(commands@) =~= peephole(commands@));
    }
    while i < n
        invariant
            n == commands@.len(),
            i <= n,
            optimized@ + peephole(commands@.skip(i as int)) == peephole(commands@),
        decreases n - i,
    {
        let ghost s = commands@.skip(i as int);
        proof {
            assert(s[0] == commands@[i as int]);
            if n - i > 1 {
                assert(s[1] == commands@[i + 1]);
            }
            if n - i > 3 {
                assert(s[2] == commands@[i + 2]);
                assert(s[3] == commands@[i + 3]);
            }
        }
        let p0 = pushed_operand(&commands[i]);
        let p1 = if n - i > 1 { pushed_operand(&commands[i + 1]) } else { None };
        let q1 = if n - i > 1 { popped_operand(&commands[i + 1]) } else { None };
        let q2 = if n - i > 3 { popped_operand(&commands[i + 2]) } else { None };
        let q3 = if n - i > 3 { popped_operand(&commands[i + 3]) } else { None };
        match (p0, p1, q2, q3) {
            (Some(o1), Some(o2), Some(o3), Some(o4)) => {
                let ghost before = optimized@;
                push_mov_unless_same(&mut optimized, o3, o2);
                push_mov_unless_same(&mut optimized, o4, o1);
                proof {
                    assert(s.skip(4) =~= commands@.skip(i + 4));
                    assert(optimized@ + peephole(commands@.skip(i + 4)) =~= before + peephole(s));
                }
                i = i + 4;
            },
            _ => match (p0, q1) {
                (Some(o1), Some(o2)) => {
                    let ghost before = optimized@;
                    push_mov_unless_same(&mut optimized, o2, o1);
                    proof {
                        assert(s.skip(2) =~= commands@.skip(i + 2));
                        assert(optimized@ + peephole(commands@.skip(i + 2)) =~= before + peephole(s));
                    }
                    i = i + 2;
                },
                _ => {
                    let ghost before = optimized@;
                    optimized.push(commands[i].clone());
                    proof {
                        assert(s.skip(1) =~= commands@.skip(i + 1));
                        assert(optimized@ + peephole(commands@.skip(i + 1)) =~= before + peephole(s));
                    }
                    i = i + 1;
                },
            },
        }
    }
    proof {
        assert(commands@.skip(n as int) =~= Seq::<Command<'a>>::empty());
        assert(optimized@ + Seq::<Command<'a>>::empty() =~= optimized@);
    }
    optimized
}

// ---------------------------------------------------------------------------
// Stack discipline of the generated code
// ---------------------------------------------------------------------------

/// Values a command leaves on the machine stack: one for a push, minus one
/// for a pop.
pub open spec fn cmd_stack_effect<'a>(c: Command<'a>) -> int {
    match c {
        Command::Push(_) => 1,
        Command::Pop(_) => -1,
        _ => 0,
    }
}

/// Values a run of commands leaves on the machine stack.
pub open spec fn stack_effect<'a>(s: Seq<Command<'a>>) -> int
    decreases s.len(),
{
    if s.len() == 0 {
        0
    } else {
        stack_effect(s.drop_last()) + cmd_stack_effect(s.last())
    }
}

/// Appending a command adds its effect to that of any tail of the run.
pub broadcast proof fn lemma_stack_effect_push<'a>(s: Seq<Command<'a>>, c: Command<'a>, k: int)
    requires
        0 <= k <= s.len(),
    ensures
        #[trigger] stack_effect(s.push(c).skip(k)) == stack_effect(s.skip(k)) + cmd_stack_effect(c),
{
    assert(s.push(c).skip(k).drop_last() =~= s.skip(k));
}

/// A line of the assembly output.
#[derive(Debug)]
pub enum AsmLine<'a> {
    Command(Command<'a>),
    Directive(String),
    External(String),
    Label(String),
    Comment(String),
    Newline,
}

pub open spec fn command_lines<'a>(s: Seq<Command<'a>>) -> Seq<AsmLine<'a>> {
    s.map_values(|c: Command<'a>| AsmLine::Command(c))
}

/// Values a line leaves on the machine stack: those of its command, if it
/// is one.
pub open spec fn line_stack_effect<'a>(l: AsmLine<'a>) -> int {
    match l {
        AsmLine::Command(c) => cmd_stack_effect(c),
        _ => 0,
    }
}

/// Values the lines `s` leave on the machine stack.
pub open spec fn lines_stack_effect<'a>(s: Seq<AsmLine<'a>>) -> int
    decreases s.len(),
{
    if s.len() == 0 {
        0
    } else {
        lines_stack_effect(s.drop_last()) + line_stack_effect(s.last())
    }
}

proof fn lemma_lines_stack_effect_concat<'a>(a: Seq<AsmLine<'a>>, b: Seq<AsmLine<'a>>)
    ensures
        lines_stack_effect(a + b) == lines_stack_effect(a) + lines_stack_effect(b),
    decreases b.len(),
{
    if b.len() == 0 {
        assert(a + b =~= a);
    } else {
        lemma_lines_stack_effect_concat(a, b.drop_last());
        assert((a + b).drop_last() =~= a + b.drop_last());
    }
}

proof fn lemma_command_lines_effect<'a>(s: Seq<Command<'a>>)
    ensures
        lines_stack_effect(command_lines(s)) == stack_effect(s),
    decreases s.len(),
{
    if s.len() > 0 {
        lemma_command_lines_effect(s.drop_last());
        assert(command_lines(s).drop_last() =~= command_lines(s.drop_last()));
    } else {
        assert(command_lines(s) =~= Seq::<AsmLine<'a>>::empty());
    }
}

proof fn lemma_single_line_effect<'a>(l: AsmLine<'a>)
    ensures
        lines_stack_effect(seq![l]) == line_stack_effect(l),
{
    assert(seq![l].drop_last() =~= Seq::<AsmLine<'a>>::empty());
    assert(lines_stack_effect(Seq::<AsmLine<'a>>::empty()) == 0);
}

/// `new` begins with the lines of `old`.
pub open spec fn lines_extend<'a>(new: Seq<AsmLine<'a>>, old: Seq<AsmLine<'a>>) -> bool {
    &&& old.len() <= new.len()
    &&& forall|i: int| 0 <= i < old.len() ==> #[trigger] new[i] == old[i]
}

/// Collects commands and writes them out, peephole-optimised when asked,
/// before any other line.
pub struct Assambler<'a> {
    peephole: bool,
    commands: Vec<Command<'a>>,
    lines: Vec<AsmLine<'a>>,
}

impl<'a> Assambler<'a> {
    pub closed spec fn spec_peephole(&self) -> bool {
        self.peephole
    }

    /// Commands not yet written out.
    pub closed spec fn pending(&self) -> Seq<Command<'a>> {
        self.commands@
    }

    /// Lines written out so far.
    pub closed spec fn written(&self) -> Seq<AsmLine<'a>> {
        self.lines@
    }

    /// Values all the code so far leaves on the machine stack, written out
    /// or pending.
    pub open spec fn effect(&self) -> int {
        lines_stack_effect(self.written()) + stack_effect(self.pending())
    }

    proof fn lemma_flushed_effect(&self)
        ensures
            lines_stack_effect(self.flushed()) == stack_effect(self.pending()),
    {
        law_peephole_keeps_stack_effect(self.pending());
        lemma_command_lines_effect(self.pending());
        lemma_command_lines_effect(peephole(self.pending()));
    }

    /// What the pending commands are written out as.
    pub open spec fn flushed(&self) -> Seq<AsmLine<'a>> {
        if self.spec_peephole() {
            command_lines(peephole(self.pending()))
        } else {
            command_lines(self.pending())
        }
    }

    pub fn new(peephole: bool) -> (r: Self)
        ensures
            r.spec_peephole() == peephole,
            r.pending() == Seq::<Command<'a>>::empty(),
            r.written() == Seq::<AsmLine<'a>>::empty(),
    {
        Self { peephole, commands: Vec::new(), lines: Vec::new() }
    }

    pub fn push_cmd(&mut self, cmd: Command<'a>)
        ensures
            final(self).spec_peephole() == old(self).spec_peephole(),
            final(self).pending() == old(self).pending().push(cmd),
            final(self).written() == old(self).written(),
            final(self).effect() == old(self).effect() + cmd_stack_effect(cmd),
    {
        self.commands.push(cmd);
        proof {
            assert(self.pending().drop_last() =~= old(self).pending());
        }
    }

    /// Writes out the pending commands.
    pub fn flush(&mut self)
        ensures
            lines_extend(final(self).written(), old(self).written()),
            final(self).spec_peephole() == old(self).spec_peephole(),
            final(self).pending() == Seq::<Command<'a>>::empty(),
            final(self).written() == old(self).written() + old(self).flushed(),
            final(self).effect() == old(self).effect(),
    {
        proof {
            old(self).lemma_flushed_effect();
            lemma_lines_stack_effect_concat(old(self).written(), old(self).flushed());
            assert(stack_effect(Seq::<Command<'a>>::empty()) == 0);
        }
        let mut commands: Vec<Command<'a>> = Vec::new();
        std::mem::swap(&mut commands, &mut self.commands);
        let cmds = if self.peephole {
            optimize_commands(&commands)
        } else {
            commands
        };
        let ghost before = self.lines@;
        let mut i: usize = 0;
        while i < cmds.len()
            invariant
                self.peephole == old(self).peephole,
                self.commands@ == Seq::<Command<'a>>::empty(),
                i <= cmds@.len(),
                self.lines@ == before + command_lines(cmds@.take(i as int)),
            decreases cmds@.len() - i,
        {
            self.lines.push(AsmLine::Command(cmds[i].clone()));
            proof {
                assert(command_lines(cmds@.take(i + 1)) =~= command_lines(cmds@.take(i as int)).push(
                    AsmLine::Command(cmds@[i as int]),
                ));
            }
            i = i + 1;
        }
        proof {
            assert(cmds@.take(cmds@.len() as int) =~= cmds@);
        }
    }

    fn write_line(&mut self, line: AsmLine<'a>)
        ensures
            lines_extend(final(self).written(), old(self).written()),
            final(self).spec_peephole() == old(self).spec_peephole(),
            final(self).pending() == Seq::<Command<'a>>::empty(),
            final(self).written() == old(self).written() + old(self).flushed() + seq![line],
            final(self).effect() == old(self).effect() + line_stack_effect(line),
    {
        self.flush();
        let ghost before = self.written();
        self.lines.push(line);
        proof {
            lemma_lines_stack_effect_concat(before, seq![line]);
            lemma_single_line_effect(line);
            assert(self.written() =~= before + seq![line]);
        }
    }

    pub fn directive(&mut self, directive: &str)
        ensures
            lines_extend(final(self).written(), old(self).written()),
            final(self).spec_peephole() == old(self).spec_peephole(),
            final(self).pending() == Seq::<Command<'a>>::empty(),
            final(self).effect() == old(self).effect(),
            final(self).written().len() == old(self).written().len() + old(self).flushed().len() + 1,
            final(self).written().take(final(self).written().len() - 1) == old(self).written() + old(
                self,
            ).flushed(),
            final(self).written().last() matches AsmLine::Directive(d) && d@ == directive@,
    {
        self.write_line(AsmLine::Directive(String::from_str(directive)));
    }

    pub fn external(&mut self, external_function_name: &str)
        ensures
            lines_extend(final(self).written(), old(self).written()),
            final(self).spec_peephole() == old(self).spec_peephole(),
            final(self).pending() == Seq::<Command<'a>>::empty(),
            final(self).effect() == old(self).effect(),
            final(self).written().len() == old(self).written().len() + old(self).flushed().len() + 1,
            final(self).written().take(final(self).written().len() - 1) == old(self).written() + old(
                self,
            ).flushed(),
            final(self).written().last() matches AsmLine::External(d) && d@ == external_function_name@,
    {
        self.write_line(AsmLine::External(String::from_str(external_function_name)));
    }

    pub fn label(&mut self, label: &str)
        ensures
            lines_extend(final(self).written(), old(self).written()),
            final(self).spec_peephole() == old(self).spec_peephole(),
            final(self).pending() == Seq::<Command<'a>>::empty(),
            final(self).effect() == old(self).effect(),
            final(self).written().len() == old(self).written().len() + old(self).flushed().len() + 1,
            final(self).written().take(final(self).written().len() - 1) == old(self).written() + old(
                self,
            ).flushed(),
            final(self).written().last() matches AsmLine::Label(d) && d@ == label@,
    {
        self.write_line(AsmLine::Label(String::from_str(label)));
    }

    pub fn comment(&mut self, comment: &str)
        ensures
            lines_extend(final(self).written(), old(self).written()),
            final(self).spec_peephole() == old(self).spec_peephole(),
            final(self).pending() == Seq::<Command<'a>>::empty(),
            final(self).effect() == old(self).effect(),
            final(self).written().len() == old(self).written().len() + old(self).flushed().len() + 1,
            final(self).written().take(final(self).written().len() - 1) == old(self).written() + old(
                self,
            ).flushed(),
            final(self).written().last() matches AsmLine::Comment(d) && d@ == comment@,
    {
        self.write_line(AsmLine::Comment(String::from_str(comment)));
    }

    pub fn newline(&mut self)
        ensures
            lines_extend(final(self).written(), old(self).written()),
            final(self).spec_peephole() == old(self).spec_peephole(),
            final(self).pending() == Seq::<Command<'a>>::empty(),
            final(self).effect() == old(self).effect(),
            final(self).written() == old(self).written() + old(self).flushed() + seq![AsmLine::Newline],
    {
        self.write_line(AsmLine::Newline);
    }

    /// Writes out what is pending and hands over all lines.
    pub fn output(self) -> (r: Vec<AsmLine<'a>>)
        ensures
            r@ == self.written() + self.flushed(),
    {
        let mut a = self;
        a.flush();
        a.lines
    }
}

/// Names and sizes of the variables of a frame, in the order they were pushed.
pub open spec fn vars_view(v: Seq<(String, Size)>) -> Seq<(Seq<char>, Size)> {
    v.map_values(|p: (String, Size)| (p.0@, p.1))
}

/// Bytes taken by the variables `v`.
pub open spec fn vars_bytes(v: Seq<(Seq<char>, Size)>) -> nat
    decreases v.len(),
{
    if v.len() == 0 {
        0
    } else {
        vars_bytes(v.drop_last()) + v.last().1.spec_bytes()
    }
}

/// Every size fits in a `usize`, and the whole frame rounded up to 16 does.
pub open spec fn vars_fit(v: Seq<(Seq<char>, Size)>) -> bool {
    &&& forall|i: int| 0 <= i < v.len() ==> (#[trigger] v[i]).1.bytes_fit()
    &&& vars_bytes(v) + 15 <= usize::MAX
}

/// The latest variable called `name` in `v`: the bytes of the variables
/// pushed after it, and its size.
pub open spec fn offset_of(v: Seq<(Seq<char>, Size)>, name: Seq<char>) -> Option<(nat, Size)>
    decreases v.len(),
{
    if v.len() == 0 {
        None
    } else if v.last().0 == name {
        Some((0nat, v.last().1))
    } else {
        match offset_of(v.drop_last(), name) {
            Some((o, z)) => Some(((o + v.last().1.spec_bytes()) as nat, z)),
            None => None,
        }
    }
}

/// A frame's total rounded up to a multiple of 16.
pub open spec fn align16(n: nat) -> nat {
    (((n + 15) / 16) * 16) as nat
}

proof fn lemma_vars_bytes_prefix(v: Seq<(Seq<char>, Size)>, k: int)
    requires
        0 <= k <= v.len(),
    ensures
        vars_bytes(v.take(k)) <= vars_bytes(v),
    decreases v.len() - k,
{
    if k < v.len() {
        lemma_vars_bytes_prefix(v, k + 1);
        assert(v.take(k + 1).drop_last() =~= v.take(k));
    } else {
        assert(v.take(k) =~= v);
    }
}

proof fn lemma_offset_within(v: Seq<(Seq<char>, Size)>, name: Seq<char>)
    requires
        offset_of(v, name) is Some,
    ensures
        ({
            let (o, z) = offset_of(v, name)->0;
            o + z.spec_bytes() <= vars_bytes(v)
        }),
    decreases v.len(),
{
    if v.last().0 != name {
        lemma_offset_within(v.drop_last(), name);
    }
}

proof fn lemma_vars_fit_prefix(v: Seq<(Seq<char>, Size)>)
    requires
        v.len() > 0,
        vars_fit(v),
    ensures
        vars_fit(v.drop_last()),
{
    assert forall|i: int| 0 <= i < v.drop_last().len() implies (#[trigger] v.drop_last()[i]).1.bytes_fit() by {
        assert(v.drop_last()[i] == v[i]);
    }
}

/// The variables of one scope of the generated code, laid out below the
/// frame's base pointer.
#[derive(Debug)]
pub struct ActivationRecord<'a> {
    scope_name: &'a str,
    scope_level: usize,
    local_variables: Vec<(String, Size)>,
}

impl<'a> ActivationRecord<'a> {
    pub closed spec fn name(&self) -> &'a str {
        self.scope_name
    }

    pub closed spec fn level(&self) -> nat {
        self.scope_level as nat
    }

    pub closed spec fn vars(&self) -> Seq<(Seq<char>, Size)> {
        vars_view(self.local_variables@)
    }

    /// Bytes taken by the frame's variables.
    pub fn size(&self) -> (r: usize)
        requires
            vars_fit(self.vars()),
        ensures
            r == vars_bytes(self.vars()),
    {
        let mut total: usize = 0;
        let mut i: usize = 0;
        while i < self.local_variables.len()
            invariant
                i <= self.vars().len(),
                vars_fit(self.vars()),
                total == vars_bytes(self.vars().take(i as int)),
            decreases self.vars().len() - i,
        {
            proof {
                assert(self.vars().take(i + 1).drop_last() =~= self.vars().take(i as int));
                lemma_vars_bytes_prefix(self.vars(), i + 1);
                assert(self.vars()[i as int].1 == self.local_variables@[i as int].1);
                assert(self.vars()[i as int].1.bytes_fit());
            }
            total = total + self.local_variables[i].1.to_bytes();
            i = i + 1;
        }
        proof {
            assert(self.vars().take(self.vars().len() as int) =~= self.vars());
        }
        total
    }

    /// The frame's size rounded up to a multiple of 16.
    pub fn aligned_size(&self) -> (r: usize)
        requires
            vars_fit(self.vars()),
        ensures
            r == align16(vars_bytes(self.vars())),
    {
        let s = self.size();
        let q = (s + 15) / 16;
        proof {
            assert(q * 16 <= s + 15) by (nonlinear_arith)
                requires
                    q == (s + 15) / 16,
            ;
        }
        q * 16
    }

    /// Where the latest variable called `var_name` lies: the bytes of the
    /// variables pushed after it, and its size.
    pub fn get_variable_offset(&self, var_name: &str) -> (r: Option<(usize, &Size)>)
        requires
            vars_fit(self.vars()),
        ensures
            r matches Some((o, z)) ==> offset_of(self.vars(), var_name@) == Some((o as nat, *z)),
            r is None ==> offset_of(self.vars(), var_name@) is None,
    {
        let mut sum: usize = 0;
        let mut i: usize = self.local_variables.len();
        let ghost v = self.vars();
        proof {
            assert(v.take(v.len() as int) =~= v);
        }
        while i > 0
            invariant
                v == self.vars(),
                i <= v.len(),
                vars_fit(v),
                offset_of(v, var_name@) == match offset_of(v.take(i as int), var_name@) {
                    Some((o, z)) => Some(((o + sum) as nat, z)),
                    None => None,
                },
                sum + vars_bytes(v.take(i as int)) == vars_bytes(v),
            decreases i,
        {
            let ghost w = v.take(i as int);
            proof {
                assert(w.drop_last() =~= v.take(i - 1));
                assert(w.last() == v[i - 1]);
                assert(v[i - 1].0 == self.local_variables@[i - 1].0@);
                assert(v[i - 1].1 == self.local_variables@[i - 1].1);
                assert(v[i - 1].1.bytes_fit());
            }
            let (n, size) = &self.local_variables[i - 1];
            if str_equal(n.as_str(), var_name) {
                return Some((sum, size));
            }
            sum = sum + size.to_bytes();
            i = i - 1;
        }
        proof {
            assert(v.take(0) =~= Seq::<(Seq<char>, Size)>::empty());
        }
        None
    }
}

/// The frames of the scopes the code generator is in, innermost last; a
/// frame's level is its depth.
#[derive(Debug)]
pub struct CallStack<'a> {
    stack: Vec<ActivationRecord<'a>>,
}

impl<'a> CallStack<'a> {
    pub closed spec fn frames(&self) -> Seq<ActivationRecord<'a>> {
        self.stack@
    }

    pub open spec fn depth(&self) -> nat {
        self.frames().len()
    }

    pub open spec fn top(&self) -> ActivationRecord<'a> {
        self.frames().last()
    }

    /// Each frame's level is its position in the stack.
    pub open spec fn wf(&self) -> bool {
        forall|i: int| 0 <= i < self.frames().len() ==> (#[trigger] self.frames()[i]).level() == i
    }

    /// A stack with the global frame only.
    pub fn new() -> (r: Self)
        ensures
            r.wf(),
            r.depth() == 1,
            r.top().name()@ == "global"@,
            r.top().vars() == Seq::<(Seq<char>, Size)>::empty(),
    {
        let r = Self {
            stack: vec![ActivationRecord { scope_name: "global", scope_level: 0, local_variables: Vec::new() }],
        };
        proof {
            assert(vars_view(Seq::<(String, Size)>::empty()) =~= Seq::<(Seq<char>, Size)>::empty());
            assert(r.stack@[0].local_variables@ =~= Seq::<(String, Size)>::empty());
        }
        r
    }

    /// Enters a scope: an empty frame one level below the innermost.
    pub fn push_ar(&mut self, scope_name: &'a str)
        requires
            old(self).wf(),
            old(self).depth() < usize::MAX,
        ensures
            final(self).wf(),
            final(self).depth() == old(self).depth() + 1,
            final(self).frames().drop_last() == old(self).frames(),
            final(self).top().name() == scope_name,
            final(self).top().vars() == Seq::<(Seq<char>, Size)>::empty(),
    {
        let level = match self.stack.last() {
            Some(ar) => ar.scope_level + 1,
            None => 0,
        };
        let ar = ActivationRecord { scope_name, scope_level: level, local_variables: Vec::new() };
        proof {
            assert(ar.vars() =~= Seq::<(Seq<char>, Size)>::empty());
        }
        self.stack.push(ar);
        proof {
            assert(self.frames().drop_last() =~= old(self).frames());
        }
    }

    /// Leaves the innermost scope.
    pub fn pop_ar(&mut self)
        requires
            old(self).wf(),
            old(self).depth() > 0,
        ensures
            final(self).wf(),
            final(self).frames() == old(self).frames().drop_last(),
    {
        self.stack.pop();
    }

    fn push_local(&mut self, name: &str, size: Size)
        requires
            old(self).wf(),
            old(self).depth() > 0,
        ensures
            final(self).wf(),
            final(self).depth() == old(self).depth(),
            final(self).frames().drop_last() == old(self).frames().drop_last(),
            final(self).top().name() == old(self).top().name(),
            final(self).top().vars() == old(self).top().vars().push((name@, size)),
    {
        let mut ar = self.stack.pop().unwrap();
        let ghost old_vars = ar.vars();
        ar.local_variables.push((String::from_str(name), size));
        proof {
            assert(ar.vars() =~= old_vars.push((name@, size)));
        }
        self.stack.push(ar);
        proof {
            assert(self.frames().drop_last() =~= old(self).frames().drop_last());
        }
    }

    /// Adds a variable of `size` to the innermost frame.
    pub fn push_var(&mut self, name: &str, size: Size)
        requires
            old(self).wf(),
            old(self).depth() > 0,
        ensures
            final(self).wf(),
            final(self).depth() == old(self).depth(),
            final(self).frames().drop_last() == old(self).frames().drop_last(),
            final(self).top().name() == old(self).top().name(),
            final(self).top().vars() == old(self).top().vars().push((name@, size)),
    {
        self.push_local(name, size);
    }

    /// Adds a pointer-sized variable to the innermost frame.
    pub fn push_ptr(&mut self, name: &str)
        requires
            old(self).wf(),
            old(self).depth() > 0,
        ensures
            final(self).wf(),
            final(self).depth() == old(self).depth(),
            final(self).frames().drop_last() == old(self).frames().drop_last(),
            final(self).top().name() == old(self).top().name(),
            final(self).top().vars() == old(self).top().vars().push((name@, Size::S64bit)),
    {
        self.push_local(name, Size::S64bit);
    }

    /// The memory of the innermost frame's variable `name`: below the base
    /// pointer by its offset plus its own size.
    pub fn lookup_var_mem<'s>(&self, name: &'s str) -> (r: StackMemory<'s>)
        requires
            self.depth() > 0,
            vars_fit(self.top().vars()),
            offset_of(self.top().vars(), name@) is Some,
        ensures
            ({
                let (o, z) = offset_of(self.top().vars(), name@)->0;
                r == StackMemory::<'s> { base: Register::Rbp, offset: (o + z.spec_bytes()) as usize, size: z }
            }),
    {
        let ar = self.stack.last().unwrap();
        proof {
            lemma_offset_within(ar.vars(), name@);
            lemma_offset_size_fits(ar.vars(), name@);
        }
        let (offset, size) = ar.get_variable_offset(name).unwrap();
        Register::Rbp.with_offset(size.clone(), offset + size.to_bytes())
    }

    /// The memory that holds the address of the innermost frame's variable
    /// `name`, passed by reference: 8 bytes below its offset.
    pub fn lookup_var_addr<'s>(&self, name: &'s str) -> (r: StackMemory<'s>)
        requires
            self.depth() > 0,
            vars_fit(self.top().vars()),
            offset_of(self.top().vars(), name@) is Some,
        ensures
            ({
                let (o, z) = offset_of(self.top().vars(), name@)->0;
                r == StackMemory::<'s> { base: Register::Rbp, offset: (o + 8) as usize, size: z }
            }),
    {
        let ar = self.stack.last().unwrap();
        proof {
            lemma_offset_within(ar.vars(), name@);
        }
        let (offset, size) = ar.get_variable_offset(name).unwrap();
        Register::Rbp.with_offset(size.clone(), offset + 8)
    }

    /// The innermost frame's aligned size, if there is a frame.
    pub fn aligned_size(&self) -> (r: Option<usize>)
        requires
            self.depth() > 0 ==> vars_fit(self.top().vars()),
        ensures
            self.depth() == 0 ==> r is None,
            self.depth() > 0 ==> r == Some(align16(vars_bytes(self.top().vars())) as usize),
    {
        match self.stack.last() {
            Some(ar) => Some(ar.aligned_size()),
            None => None,
        }
    }
}

proof fn lemma_offset_size_fits(v: Seq<(Seq<char>, Size)>, name: Seq<char>)
    requires
        offset_of(v, name) is Some,
        vars_fit(v),
    ensures
        ({
            let (o, z) = offset_of(v, name)->0;
            z.bytes_fit()
        }),
    decreases v.len(),
{
    assert(v[v.len() - 1] == v.last());
    if v.last().0 != name {
        lemma_vars_fit_prefix(v);
        lemma_vars_bytes_prefix(v, v.len() - 1);
        assert(v.take(v.len() - 1) =~= v.drop_last());
        lemma_offset_size_fits(v.drop_last(), name);
    }
}

impl<'a> CallStack<'a> {
    /// Number of frames.
    pub fn len(&self) -> (r: usize)
        ensures
            r == self.depth(),
    {
        self.stack.len()
    }

    /// Whether the innermost frame can take one more variable of `bytes`
    /// bytes and still be addressed.
    pub fn has_room(&self, bytes: usize) -> (r: bool)
        requires
            self.depth() > 0,
            vars_fit(self.top().vars()),
        ensures
            r == (vars_bytes(self.top().vars()) + bytes + 15 <= usize::MAX),
    {
        let ar = self.stack.last().unwrap();
        let s = ar.size();
        bytes <= usize::MAX - 15 && s <= usize::MAX - 15 - bytes
    }

    /// Whether the innermost frame has a variable called `name`.
    pub fn has_var(&self, name: &str) -> (r: bool)
        requires
            self.depth() > 0,
            vars_fit(self.top().vars()),
        ensures
            r == offset_of(self.top().vars(), name@) is Some,
    {
        let ar = self.stack.last().unwrap();
        ar.get_variable_offset(name).is_some()
    }
}

/// Adding a variable whose bytes fit keeps a frame addressable.
pub proof fn lemma_vars_fit_push(v: Seq<(Seq<char>, Size)>, name: Seq<char>, size: Size)
    requires
        vars_fit(v),
        size.bytes_fit(),
        vars_bytes(v) + size.spec_bytes() + 15 <= usize::MAX,
    ensures
        vars_fit(v.push((name, size))),
        vars_bytes(v.push((name, size))) == vars_bytes(v) + size.spec_bytes(),
{
    let w = v.push((name, size));
    assert(w.drop_last() =~= v);
    assert forall|i: int| 0 <= i < w.len() implies (#[trigger] w[i]).1.bytes_fit() by {
        if i < v.len() {
            assert(w[i] == v[i]);
        }
    }
}

} // verus!
