use vstd::prelude::*;
use crate::codegen::push_int;
use crate::compiler::{spec_word, AsmLine, Command, GlobalMemory, IndexMemory, Memory, Operand, Register, StackMemory};
use crate::error::{decimal, push_decimal};
use crate::printer::int_text;
use crate::utils::Size;

verus! {

// ---------------------------------------------------------------------------
// The text of the generated assembly (NASM syntax), one line per line.
// ---------------------------------------------------------------------------

/// The assembler's name for a register, or the text of an immediate.
pub open spec fn register_text(r: Register) -> Seq<char> {
    match r {
        Register::Integer(i) => int_text(i),
        Register::Variable(v) => v@,
        Register::Rax => "rax"@,
        Register::Rbx => "rbx"@,
        Register::Rcx => "rcx"@,
        Register::Rdx => "rdx"@,
        Register::R8 => "r8"@,
        Register::R9 => "r9"@,
        Register::Rbp => "rbp"@,
        Register::Rsp => "rsp"@,
        Register::Eax => "eax"@,
        Register::Ebx => "ebx"@,
        Register::Edx => "edx"@,
        Register::Ecx => "ecx"@,
        Register::R8d => "r8d"@,
        Register::R9d => "r9d"@,
        Register::Al => "al"@,
        Register::Bl => "bl"@,
        Register::Dl => "dl"@,
        Register::Cl => "cl"@,
        Register::Xmm0 => "xmm0"@,
        Register::Xmm1 => "xmm1"@,
        Register::Xmm2 => "xmm2"@,
    }
}

/// `word [base]`, or `word [base - offset]`; none where the size has no
/// operand word.
pub open spec fn stack_memory_text(m: StackMemory) -> Option<Seq<char>> {
    match spec_word(m.size) {
        Some(w) => Some(
            if m.offset == 0 {
                w@ + " ["@ + register_text(m.base) + "]"@
            } else {
                w@ + " ["@ + register_text(m.base) + " - "@ + decimal(m.offset as nat) + "]"@
            },
        ),
        None => None,
    }
}

/// `word [rel name]`; none where the size has no operand word.
pub open spec fn global_memory_text(m: GlobalMemory) -> Option<Seq<char>> {
    match spec_word(m.size) {
        Some(w) => Some(w@ + " [rel "@ + m.name@ + "]"@),
        None => None,
    }
}

/// `word [register + index*bytes]`; none where the size has no operand word.
pub open spec fn index_memory_text(m: IndexMemory) -> Option<Seq<char>> {
    match spec_word(m.size) {
        Some(w) => Some(
            w@ + " ["@ + register_text(m.register) + " + "@ + register_text(m.index) + "*"@ + decimal(
                m.size.spec_bytes(),
            ) + "]"@,
        ),
        None => None,
    }
}

pub open spec fn memory_text(m: Memory) -> Option<Seq<char>> {
    match m {
        Memory::StackMemory(x) => stack_memory_text(x),
        Memory::GlobalMemory(x) => global_memory_text(x),
        Memory::IndexMemory(x) => index_memory_text(x),
    }
}

pub open spec fn operand_text(o: Operand) -> Option<Seq<char>> {
    match o {
        Operand::Register(r) => Some(register_text(r)),
        Operand::Memory(m) => memory_text(m),
    }
}

/// `name a`, where `a` has a text.
pub open spec fn unary_text(name: Seq<char>, a: Option<Seq<char>>) -> Option<Seq<char>> {
    match a {
        Some(x) => Some(name + " "@ + x),
        None => None,
    }
}

/// `name a, b`, where both have a text.
pub open spec fn binary_text(name: Seq<char>, a: Option<Seq<char>>, b: Option<Seq<char>>) -> Option<Seq<char>> {
    match (a, b) {
        (Some(x), Some(y)) => Some(name + " "@ + x + ", "@ + y),
        _ => None,
    }
}

/// The text of a command; none where an operand is memory of a size with
/// no operand word.
pub open spec fn command_text(c: Command) -> Option<Seq<char>> {
    match c {
        Command::Cdq => Some("cdq"@),
        Command::Cqo => Some("cqo"@),
        Command::Cwd => Some("cwd"@),
        Command::Push(v) => unary_text("push"@, operand_text(v)),
        Command::Pop(v) => unary_text("pop"@, operand_text(v)),
        Command::Mov { dst, src } => binary_text("mov"@, operand_text(dst), operand_text(src)),
        Command::Movzx { dst, src } => binary_text("movzx"@, Some(register_text(dst)), operand_text(src)),
        Command::Movsx { dst, src } => binary_text("movsx"@, Some(register_text(dst)), operand_text(src)),
        Command::Add { dst, src } => binary_text("add"@, Some(register_text(dst)), Some(register_text(src))),
        Command::Sub { dst, src } => binary_text("sub"@, Some(register_text(dst)), Some(register_text(src))),
        Command::Imul { dst, src } => binary_text("imul"@, Some(register_text(dst)), Some(register_text(src))),
        Command::Div(v) => unary_text("div"@, Some(register_text(v))),
        Command::IDiv(v) => unary_text("idiv"@, Some(register_text(v))),
        Command::Neg(v) => unary_text("neg"@, Some(register_text(v))),
        Command::Ret => Some("ret"@),
        Command::Leave => Some("leave"@),
        Command::Jz(l) => unary_text("jz"@, Some(l@)),
        Command::Call { name } => unary_text("call"@, Some(name@)),
        Command::Xor { dst, src } => binary_text("xor"@, Some(register_text(dst)), Some(register_text(src))),
        Command::Not(v) => unary_text("not"@, Some(register_text(v))),
        Command::Test { op1, op2 } => binary_text("test"@, operand_text(op1), operand_text(op2)),
        Command::And { dst, src } => binary_text("and"@, Some(register_text(dst)), Some(register_text(src))),
        Command::Or { dst, src } => binary_text("or"@, Some(register_text(dst)), Some(register_text(src))),
        Command::Inc(v) => unary_text("inc"@, Some(register_text(v))),
        Command::Dec(v) => unary_text("dec"@, Some(register_text(v))),
        Command::Lea { dst, src } => binary_text("lea"@, Some(register_text(dst)), memory_text(src)),
        Command::Cmp { op1, op2 } => binary_text("cmp"@, operand_text(op1), operand_text(op2)),
        Command::Je(l) => unary_text("je"@, Some(l@)),
        Command::Jg(l) => unary_text("jg"@, Some(l@)),
        Command::Jge(l) => unary_text("jge"@, Some(l@)),
        Command::Jl(l) => unary_text("jl"@, Some(l@)),
        Command::Jle(l) => unary_text("jle"@, Some(l@)),
        Command::Jne(l) => unary_text("jne"@, Some(l@)),
        Command::Jmp(l) => unary_text("jmp"@, Some(l@)),
        Command::Sete(r) => unary_text("sete"@, Some(register_text(r))),
        Command::Setne(r) => unary_text("setne"@, Some(register_text(r))),
        Command::Setg(r) => unary_text("setg"@, Some(register_text(r))),
        Command::Setge(r) => unary_text("setge"@, Some(register_text(r))),
        Command::Setl(r) => unary_text("setl"@, Some(register_text(r))),
        Command::Setle(r) => unary_text("setle"@, Some(register_text(r))),
    }
}

/// The text of a line of output, without its line break.
#[verifier::opaque]
pub open spec fn line_text(l: AsmLine) -> Option<Seq<char>> {
    match l {
        AsmLine::Command(c) => command_text(c),
        AsmLine::Directive(d) => Some(d@),
        AsmLine::External(n) => Some("extern "@ + n@),
        AsmLine::Label(n) => Some(n@ + ":"@),
        AsmLine::Comment(c) => Some("; "@ + c@),
        AsmLine::Newline => Some(Seq::empty()),
    }
}

/// The whole output: each line followed by a line break; none where a line
/// has no text.
pub open spec fn lines_text(lines: Seq<AsmLine>) -> Option<Seq<char>>
    decreases lines.len(),
{
    if lines.len() == 0 {
        Some(Seq::empty())
    } else {
        match (lines_text(lines.drop_last()), line_text(lines.last())) {
            (Some(a), Some(b)) => Some(a + b + "\n"@),
            _ => None,
        }
    }
}

pub open spec fn opt_view(a: Option<String>) -> Option<Seq<char>> {
    match a {
        Some(v) => Some(v@),
        None => None,
    }
}

proof fn lemma_lines_text_none(lines: Seq<AsmLine>, j: int)
    requires
        0 <= j <= lines.len(),
        lines_text(lines.take(j)) is None,
    ensures
        lines_text(lines) is None,
    decreases lines.len() - j,
{
    if j == lines.len() {
        assert(lines.take(j) =~= lines);
    } else {
        assert(lines.take(j + 1).drop_last() =~= lines.take(j));
        lemma_lines_text_none(lines, j + 1);
    }
}

fn word_of(size: &Size) -> (r: Option<&'static str>)
    ensures
        r == spec_word(*size),
{
    size.word()
}

fn push_register(s: &mut String, r: &Register)
    ensures
        final(s)@ == old(s)@ + register_text(*r),
{
    match r {
        Register::Integer(i) => push_int(s, *i as i64),
        Register::Variable(v) => s.append(v),
        Register::Rax => s.append("rax"),
        Register::Rbx => s.append("rbx"),
        Register::Rcx => s.append("rcx"),
        Register::Rdx => s.append("rdx"),
        Register::R8 => s.append("r8"),
        Register::R9 => s.append("r9"),
        Register::Rbp => s.append("rbp"),
        Register::Rsp => s.append("rsp"),
        Register::Eax => s.append("eax"),
        Register::Ebx => s.append("ebx"),
        Register::Edx => s.append("edx"),
        Register::Ecx => s.append("ecx"),
        Register::R8d => s.append("r8d"),
        Register::R9d => s.append("r9d"),
        Register::Al => s.append("al"),
        Register::Bl => s.append("bl"),
        Register::Dl => s.append("dl"),
        Register::Cl => s.append("cl"),
        Register::Xmm0 => s.append("xmm0"),
        Register::Xmm1 => s.append("xmm1"),
        Register::Xmm2 => s.append("xmm2"),
    }
}

fn memory_string(m: &Memory) -> (r: Option<String>)
    ensures
        r matches Some(x) ==> memory_text(*m) == Some(x@),
        r is None ==> memory_text(*m) is None,
{
    match m {
        Memory::StackMemory(x) => {
            let w = word_of(&x.size)?;
            let mut s = String::from_str(w);
            s.append(" [");
            push_register(&mut s, &x.base);
            if x.offset != 0 {
                s.append(" - ");
                push_decimal(&mut s, x.offset as u64);
            }
            s.append("]");
            Some(s)
        },
        Memory::GlobalMemory(x) => {
            let w = word_of(&x.size)?;
            let mut s = String::from_str(w);
            s.append(" [rel ");
            s.append(x.name);
            s.append("]");
            Some(s)
        },
        Memory::IndexMemory(x) => {
            let w = word_of(&x.size)?;
            let b: usize = match &x.size {
                Size::S8bit => 1,
                Size::S16bit => 2,
                Size::S32bit => 4,
                Size::S64bit => 8,
                _ => 16,
            };
            let mut s = String::from_str(w);
            s.append(" [");
            push_register(&mut s, &x.register);
            s.append(" + ");
            push_register(&mut s, &x.index);
            s.append("*");
            push_decimal(&mut s, b as u64);
            s.append("]");
            Some(s)
        },
    }
}

fn operand_string(o: &Operand) -> (r: Option<String>)
    ensures
        r matches Some(x) ==> operand_text(*o) == Some(x@),
        r is None ==> operand_text(*o) is None,
{
    match o {
        Operand::Register(r) => {
            let mut s = String::new();
            push_register(&mut s, r);
            Some(s)
        },
        Operand::Memory(m) => memory_string(m),
    }
}

fn register_string(r: &Register) -> (res: String)
    ensures
        res@ == register_text(*r),
{
    let mut s = String::new();
    push_register(&mut s, r);
    s
}

fn unary_string(name: &str, a: Option<String>) -> (r: Option<String>)
    ensures
        r matches Some(x) ==> unary_text(name@, opt_view(a)) == Some(x@),
        r is None ==> unary_text(name@, opt_view(a)) is None,
{
    let x = a?;
    let mut s = String::from_str(name);
    s.append(" ");
    s.append(x.as_str());
    Some(s)
}

fn binary_string(name: &str, a: Option<String>, b: Option<String>) -> (r: Option<String>)
    ensures
        r matches Some(x) ==> binary_text(name@, opt_view(a), opt_view(b)) == Some(x@),
        r is None ==> binary_text(name@, opt_view(a), opt_view(b)) is None,
{
    let x = a?;
    let y = b?;
    let mut s = String::from_str(name);
    s.append(" ");
    s.append(x.as_str());
    s.append(", ");
    s.append(y.as_str());
    Some(s)
}

impl<'a> Command<'a> {
    /// The text of the command; none where an operand is memory of a size
    /// with no operand word.
    pub fn to_text(&self) -> (r: Option<String>)
        ensures
            r matches Some(x) ==> command_text(*self) == Some(x@),
            r is None ==> command_text(*self) is None,
    {
        match self {
            Command::Cdq => Some(String::from_str("cdq")),
            Command::Cqo => Some(String::from_str("cqo")),
            Command::Cwd => Some(String::from_str("cwd")),
            Command::Push(v) => unary_string("push", operand_string(v)),
            Command::Pop(v) => unary_string("pop", operand_string(v)),
            Command::Mov { dst, src } => binary_string("mov", operand_string(dst), operand_string(src)),
            Command::Movzx { dst, src } => binary_string("movzx", Some(register_string(dst)), operand_string(src)),
            Command::Movsx { dst, src } => binary_string("movsx", Some(register_string(dst)), operand_string(src)),
            Command::Add { dst, src } => binary_string("add", Some(register_string(dst)), Some(register_string(src))),
            Command::Sub { dst, src } => binary_string("sub", Some(register_string(dst)), Some(register_string(src))),
            Command::Imul { dst, src } => binary_string("imul", Some(register_string(dst)), Some(register_string(src))),
            Command::Div(v) => unary_string("div", Some(register_string(v))),
            Command::IDiv(v) => unary_string("idiv", Some(register_string(v))),
            Command::Neg(v) => unary_string("neg", Some(register_string(v))),
            Command::Ret => Some(String::from_str("ret")),
            Command::Leave => Some(String::from_str("leave")),
            Command::Jz(l) => unary_string("jz", Some(l.clone())),
            Command::Call { name } => unary_string("call", Some(String::from_str(name))),
            Command::Xor { dst, src } => binary_string("xor", Some(register_string(dst)), Some(register_string(src))),
            Command::Not(v) => unary_string("not", Some(register_string(v))),
            Command::Test { op1, op2 } => binary_string("test", operand_string(op1), operand_string(op2)),
            Command::And { dst, src } => binary_string("and", Some(register_string(dst)), Some(register_string(src))),
            Command::Or { dst, src } => binary_string("or", Some(register_string(dst)), Some(register_string(src))),
            Command::Inc(v) => unary_string("inc", Some(register_string(v))),
            Command::Dec(v) => unary_string("dec", Some(register_string(v))),
            Command::Lea { dst, src } => binary_string("lea", Some(register_string(dst)), memory_string(src)),
            Command::Cmp { op1, op2 } => binary_string("cmp", operand_string(op1), operand_string(op2)),
            Command::Je(l) => unary_string("je", Some(l.clone())),
            Command::Jg(l) => unary_string("jg", Some(l.clone())),
            Command::Jge(l) => unary_string("jge", Some(l.clone())),
            Command::Jl(l) => unary_string("jl", Some(l.clone())),
            Command::Jle(l) => unary_string("jle", Some(l.clone())),
            Command::Jne(l) => unary_string("jne", Some(l.clone())),
            Command::Jmp(l) => unary_string("jmp", Some(l.clone())),
            Command::Sete(r) => unary_string("sete", Some(register_string(r))),
            Command::Setne(r) => unary_string("setne", Some(register_string(r))),
            Command::Setg(r) => unary_string("setg", Some(register_string(r))),
            Command::Setge(r) => unary_string("setge", Some(register_string(r))),
            Command::Setl(r) => unary_string("setl", Some(register_string(r))),
            Command::Setle(r) => unary_string("setle", Some(register_string(r))),
        }
    }
}

impl<'a> AsmLine<'a> {
    /// The text of the line, without its line break.
    pub fn to_text(&self) -> (r: Option<String>)
        ensures
            r matches Some(x) ==> line_text(*self) == Some(x@),
            r is None ==> line_text(*self) is None,
    {
        proof {
            reveal(line_text);
        }
        match self {
            AsmLine::Command(c) => c.to_text(),
            AsmLine::Directive(d) => Some(d.clone()),
            AsmLine::External(n) => {
                let mut s = String::from_str("extern ");
                s.append(n.as_str());
                Some(s)
            },
            AsmLine::Label(n) => {
                let mut s = n.clone();
                s.append(":");
                Some(s)
            },
            AsmLine::Comment(c) => {
                let mut s = String::from_str("; ");
                s.append(c.as_str());
                Some(s)
            },
            AsmLine::Newline => Some(String::new()),
        }
    }
}

/// The text of generated assembly: each line and a line break; none where
/// a line has no text.
pub fn asm_text(lines: &Vec<AsmLine>) -> (r: Option<String>)
    ensures
        r matches Some(x) ==> lines_text(lines@) == Some(x@),
        r is None ==> lines_text(lines@) is None,
{
    let mut s = String::new();
    let mut k: usize = 0;
    while k < lines.len()
        invariant
            k <= lines@.len(),
            lines_text(lines@.take(k as int)) == Some(s@),
        decreases lines@.len() - k,
    {
        proof {
            let next = lines@.take(k + 1);
            assert(next.drop_last() =~= lines@.take(k as int));
            assert(next.last() == lines@[k as int]);
        }
        let t = match lines[k].to_text() {
            Some(t) => t,
            None => {
                proof {
                    lemma_lines_text_none(lines@, k + 1);
                }
                return None;
            },
        };
        s.append(t.as_str());
        s.append("\n");
        k = k + 1;
    }
    proof {
        assert(lines@.take(lines@.len() as int) =~= lines@);
    }
    Some(s)
}

} // verus!
