use vstd::prelude::*;
use crate::utils::Pos;

verus! {

/// Classification of the errors the front end reports; each has a number.
#[derive(Debug, PartialEq, Eq, Structural, Clone, Copy)]
pub enum ErrorCode {
    UnknownCharacter,
    UnexpectedToken,
    UnkownLiteral,
    AssignmentError,
    BreakOutsideLoop,
    ContinueOutsideLoop,
    ConditionNotBoolean,
    UnkownVariable,
    ExpectedVar,
    IncompatibleTypes,
    UnsupportedBinaryOperation,
    UnsupportedUnaryOperator,
    IncorrectUseOfProcedure,
    IncorrectIndexType,
    IncorrectBaseType,
    UnkownType,
    RangeLimitsNotOrdinal,
    ExpectedLiteral,
    FunctionMayNotReturn,
    DuplicateTypeDefinition,
    DuplicateVarDefinition,
    IncorrectType,
    UnkownCallable,
    IncorrectNumberOfArguments,
}

impl ErrorCode {
    /// The number of the code: lexer codes are in the hundreds, parser codes
    /// in the two hundreds, semantic codes in the three hundreds.
    pub open spec fn spec_error_code(&self) -> u32 {
        match self {
            ErrorCode::UnknownCharacter => 100,
            ErrorCode::UnexpectedToken => 201,
            ErrorCode::UnkownLiteral => 202,
            ErrorCode::AssignmentError => 301,
            ErrorCode::BreakOutsideLoop => 302,
            ErrorCode::ContinueOutsideLoop => 303,
            ErrorCode::ConditionNotBoolean => 304,
            ErrorCode::UnkownVariable => 305,
            ErrorCode::ExpectedVar => 306,
            ErrorCode::IncompatibleTypes => 307,
            ErrorCode::UnsupportedBinaryOperation => 308,
            ErrorCode::UnsupportedUnaryOperator => 309,
            ErrorCode::IncorrectUseOfProcedure => 310,
            ErrorCode::IncorrectIndexType => 311,
            ErrorCode::IncorrectBaseType => 312,
            ErrorCode::UnkownType => 313,
            ErrorCode::RangeLimitsNotOrdinal => 314,
            ErrorCode::ExpectedLiteral => 315,
            ErrorCode::FunctionMayNotReturn => 316,
            ErrorCode::DuplicateTypeDefinition => 317,
            ErrorCode::DuplicateVarDefinition => 318,
            ErrorCode::IncorrectType => 319,
            ErrorCode::UnkownCallable => 320,
            ErrorCode::IncorrectNumberOfArguments => 321,
        }
    }

    pub fn error_code(&self) -> (r: u32)
        ensures
            r == self.spec_error_code(),
    {
        match self {
            ErrorCode::UnknownCharacter => 100,
            ErrorCode::UnexpectedToken => 201,
            ErrorCode::UnkownLiteral => 202,
            ErrorCode::AssignmentError => 301,
            ErrorCode::BreakOutsideLoop => 302,
            ErrorCode::ContinueOutsideLoop => 303,
            ErrorCode::ConditionNotBoolean => 304,
            ErrorCode::UnkownVariable => 305,
            ErrorCode::ExpectedVar => 306,
            ErrorCode::IncompatibleTypes => 307,
            ErrorCode::UnsupportedBinaryOperation => 308,
            ErrorCode::UnsupportedUnaryOperator => 309,
            ErrorCode::IncorrectUseOfProcedure => 310,
            ErrorCode::IncorrectIndexType => 311,
            ErrorCode::IncorrectBaseType => 312,
            ErrorCode::UnkownType => 313,
            ErrorCode::RangeLimitsNotOrdinal => 314,
            ErrorCode::ExpectedLiteral => 315,
            ErrorCode::FunctionMayNotReturn => 316,
            ErrorCode::DuplicateTypeDefinition => 317,
            ErrorCode::DuplicateVarDefinition => 318,
            ErrorCode::IncorrectType => 319,
            ErrorCode::UnkownCallable => 320,
            ErrorCode::IncorrectNumberOfArguments => 321,
        }
    }
}

/// Distinct codes have distinct numbers.
pub proof fn law_error_codes_distinct(a: ErrorCode, b: ErrorCode)
    ensures
        a.spec_error_code() == b.spec_error_code() ==> a == b,
{
}

#[verifier::external_type_specification]
#[verifier::external_body]
pub struct ExIoError(std::io::Error);

/// An error of some stage of the front end, or several of them at once.
#[derive(Debug)]
pub enum Error {
    LexerError { msg: String, pos: Pos, error_code: ErrorCode },
    ParserError { msg: String, pos: Pos, error_code: ErrorCode },
    SemanticError { msg: String, pos: Pos, error_code: ErrorCode },
    RuntimeError { msg: String, pos: Pos },
    IoError(std::io::Error),
    BuiltinFunctionError { function_name: &'static str, msg: String },
    Errors(Vec<Box<Error>>),
    CompileError { msg: String },
}

impl From<std::io::Error> for Error {
    fn from(value: std::io::Error) -> (r: Self) {
        Self::IoError(value)
    }
}

impl vstd::std_specs::convert::FromSpecImpl<std::io::Error> for Error {
    open spec fn obeys_from_spec() -> bool {
        true
    }

    open spec fn from_spec(v: std::io::Error) -> Self {
        Error::IoError(v)
    }
}

/// The errors a value of `Error` stands for: the ones it groups, or itself.
pub open spec fn flatten(e: Error) -> Seq<Error> {
    match e {
        Error::Errors(errs) => errs@.map_values(|b: Box<Error>| *b),
        _ => seq![e],
    }
}

/// `r` is what a list of errors comes to: no error, the only one, or a
/// group of all of them in order.
pub open spec fn combined(errs: Seq<Error>, r: Result<(), Error>) -> bool {
    if errs.len() == 0 {
        r == Ok::<(), Error>(())
    } else if errs.len() == 1 {
        r == Err::<(), Error>(errs[0])
    } else {
        r matches Err(Error::Errors(v)) && v@ == errs.map_values(|e: Error| Box::new(e))
    }
}

/// A list of errors collected while going on after the first.
pub struct Errors(Vec<Error>);

impl View for Errors {
    type V = Seq<Error>;

    closed spec fn view(&self) -> Seq<Error> {
        self.0@
    }
}

impl From<Vec<Error>> for Errors {
    fn from(value: Vec<Error>) -> (r: Self) {
        Errors(value)
    }
}

impl vstd::std_specs::convert::FromSpecImpl<Vec<Error>> for Errors {
    open spec fn obeys_from_spec() -> bool {
        true
    }

    closed spec fn from_spec(v: Vec<Error>) -> Self {
        Errors(v)
    }
}

impl Errors {
    pub fn new(value: Vec<Error>) -> (r: Self)
        ensures
            r@ == value@,
    {
        Errors(value)
    }

    /// Splits an error into the errors it stands for.
    pub fn from_error(value: Error) -> (r: Self)
        ensures
            r@ == flatten(value),
    {
        match value {
            Error::Errors(errs) => {
                let mut out: Vec<Error> = Vec::new();
                let ghost src = errs@;
                for b in it: errs
                    invariant
                        it.seq() == src,
                        out@ == src.take(it.index() as int).map_values(|b: Box<Error>| *b),
                {
                    out.push(*b);
                    assert(src.take(it.index() + 1).map_values(|b: Box<Error>| *b)
                        =~= src.take(it.index() as int).map_values(|b: Box<Error>| *b).push(*b));
                }
                assert(src.take(src.len() as int) =~= src);
                Errors(out)
            },
            other => {
                let mut out: Vec<Error> = Vec::new();
                out.push(other);
                assert(out@ =~= seq![other]);
                Errors(out)
            },
        }
    }

    pub fn len(&self) -> (r: usize)
        ensures
            r == self@.len(),
    {
        self.0.len()
    }

    pub fn get(&self, i: usize) -> (r: &Error)
        requires
            i < self@.len(),
        ensures
            *r == self@[i as int],
    {
        &self.0[i]
    }

    /// Appends the errors that `other` stands for, if it failed.
    pub fn add(self, other: Result<(), Error>) -> (r: Errors)
        ensures
            r@ == match other {
                Ok(()) => self@,
                Err(e) => self@ + flatten(e),
            },
    {
        match other {
            Ok(()) => self,
            Err(e) => {
                let Errors(mut v) = self;
                let Errors(mut more) = Errors::from_error(e);
                v.append(&mut more);
                Errors(v)
            },
        }
    }

    /// `Ok(res)` when there is no error, else the error the list comes to.
    pub fn result<R>(self, res: R) -> (r: Result<R, Error>)
        ensures
            self@.len() == 0 ==> r == Ok::<R, Error>(res),
            self@.len() > 0 ==> exists|e: Error| r == Err::<R, Error>(e) && combined(self@, Err(e)),
    {
        match self.into_result() {
            Ok(()) => Ok(res),
            Err(e) => Err(e),
        }
    }

    /// `Ok(())` when there is no error, else the error the list comes to.
    pub fn into_result(self) -> (r: Result<(), Error>)
        ensures
            combined(self@, r),
    {
        let Errors(mut v) = self;
        let n = v.len();
        if n == 0 {
            Ok(())
        } else if n == 1 {
            let e = v.pop().unwrap();
            Err(e)
        } else {
            let ghost src = v@;
            let mut boxed: Vec<Box<Error>> = Vec::new();
            for e in it: v
                invariant
                    it.seq() == src,
                    boxed@ == src.take(it.index() as int).map_values(|e: Error| Box::new(e)),
            {
                boxed.push(Box::new(e));
                assert(src.take(it.index() + 1).map_values(|e: Error| Box::new(e))
                    =~= src.take(it.index() as int).map_values(|e: Error| Box::new(e)).push(Box::new(e)));
            }
            assert(src.take(src.len() as int) =~= src);
            Err(Error::Errors(boxed))
        }
    }
}

impl ErrorCode {
    /// The name of the code, as it is written in the source.
    pub open spec fn spec_name(&self) -> Seq<char> {
        match self {
            ErrorCode::UnknownCharacter => "UnknownCharacter"@,
            ErrorCode::UnexpectedToken => "UnexpectedToken"@,
            ErrorCode::UnkownLiteral => "UnkownLiteral"@,
            ErrorCode::AssignmentError => "AssignmentError"@,
            ErrorCode::BreakOutsideLoop => "BreakOutsideLoop"@,
            ErrorCode::ContinueOutsideLoop => "ContinueOutsideLoop"@,
            ErrorCode::ConditionNotBoolean => "ConditionNotBoolean"@,
            ErrorCode::UnkownVariable => "UnkownVariable"@,
            ErrorCode::ExpectedVar => "ExpectedVar"@,
            ErrorCode::IncompatibleTypes => "IncompatibleTypes"@,
            ErrorCode::UnsupportedBinaryOperation => "UnsupportedBinaryOperation"@,
            ErrorCode::UnsupportedUnaryOperator => "UnsupportedUnaryOperator"@,
            ErrorCode::IncorrectUseOfProcedure => "IncorrectUseOfProcedure"@,
            ErrorCode::IncorrectIndexType => "IncorrectIndexType"@,
            ErrorCode::IncorrectBaseType => "IncorrectBaseType"@,
            ErrorCode::UnkownType => "UnkownType"@,
            ErrorCode::RangeLimitsNotOrdinal => "RangeLimitsNotOrdinal"@,
            ErrorCode::ExpectedLiteral => "ExpectedLiteral"@,
            ErrorCode::FunctionMayNotReturn => "FunctionMayNotReturn"@,
            ErrorCode::DuplicateTypeDefinition => "DuplicateTypeDefinition"@,
            ErrorCode::DuplicateVarDefinition => "DuplicateVarDefinition"@,
            ErrorCode::IncorrectType => "IncorrectType"@,
            ErrorCode::UnkownCallable => "UnkownCallable"@,
            ErrorCode::IncorrectNumberOfArguments => "IncorrectNumberOfArguments"@,
        }
    }

    pub fn name(&self) -> (r: &'static str)
        ensures
            r@ == self.spec_name(),
    {
        proof {
            reveal_strlit("UnknownCharacter");
            reveal_strlit("UnexpectedToken");
            reveal_strlit("UnkownLiteral");
            reveal_strlit("AssignmentError");
            reveal_strlit("BreakOutsideLoop");
            reveal_strlit("ContinueOutsideLoop");
            reveal_strlit("ConditionNotBoolean");
            reveal_strlit("UnkownVariable");
            reveal_strlit("ExpectedVar");
            reveal_strlit("IncompatibleTypes");
            reveal_strlit("UnsupportedBinaryOperation");
            reveal_strlit("UnsupportedUnaryOperator");
            reveal_strlit("IncorrectUseOfProcedure");
            reveal_strlit("IncorrectIndexType");
            reveal_strlit("IncorrectBaseType");
            reveal_strlit("UnkownType");
            reveal_strlit("RangeLimitsNotOrdinal");
            reveal_strlit("ExpectedLiteral");
            reveal_strlit("FunctionMayNotReturn");
            reveal_strlit("DuplicateTypeDefinition");
            reveal_strlit("DuplicateVarDefinition");
            reveal_strlit("IncorrectType");
            reveal_strlit("UnkownCallable");
            reveal_strlit("IncorrectNumberOfArguments");
        }
        match self {
            ErrorCode::UnknownCharacter => "UnknownCharacter",
            ErrorCode::UnexpectedToken => "UnexpectedToken",
            ErrorCode::UnkownLiteral => "UnkownLiteral",
            ErrorCode::AssignmentError => "AssignmentError",
            ErrorCode::BreakOutsideLoop => "BreakOutsideLoop",
            ErrorCode::ContinueOutsideLoop => "ContinueOutsideLoop",
            ErrorCode::ConditionNotBoolean => "ConditionNotBoolean",
            ErrorCode::UnkownVariable => "UnkownVariable",
            ErrorCode::ExpectedVar => "ExpectedVar",
            ErrorCode::IncompatibleTypes => "IncompatibleTypes",
            ErrorCode::UnsupportedBinaryOperation => "UnsupportedBinaryOperation",
            ErrorCode::UnsupportedUnaryOperator => "UnsupportedUnaryOperator",
            ErrorCode::IncorrectUseOfProcedure => "IncorrectUseOfProcedure",
            ErrorCode::IncorrectIndexType => "IncorrectIndexType",
            ErrorCode::IncorrectBaseType => "IncorrectBaseType",
            ErrorCode::UnkownType => "UnkownType",
            ErrorCode::RangeLimitsNotOrdinal => "RangeLimitsNotOrdinal",
            ErrorCode::ExpectedLiteral => "ExpectedLiteral",
            ErrorCode::FunctionMayNotReturn => "FunctionMayNotReturn",
            ErrorCode::DuplicateTypeDefinition => "DuplicateTypeDefinition",
            ErrorCode::DuplicateVarDefinition => "DuplicateVarDefinition",
            ErrorCode::IncorrectType => "IncorrectType",
            ErrorCode::UnkownCallable => "UnkownCallable",
            ErrorCode::IncorrectNumberOfArguments => "IncorrectNumberOfArguments",
        }
    }
}

/// The decimal digits of `n`.
pub open spec fn decimal(n: nat) -> Seq<char>
    decreases n,
{
    if n < 10 {
        seq![digit_char(n)]
    } else {
        decimal(n / 10).push(digit_char(n % 10))
    }
}

pub open spec fn digit_char(d: nat) -> char {
    if d == 0 { '0' } else if d == 1 { '1' } else if d == 2 { '2' } else if d == 3 { '3' } else if d == 4 {
        '4'
    } else if d == 5 { '5' } else if d == 6 { '6' } else if d == 7 { '7' } else if d == 8 { '8' } else { '9' }
}

fn digit_str(d: u64) -> (r: &'static str)
    requires
        d < 10,
    ensures
        r@ == seq![digit_char(d as nat)],
{
    proof {
        reveal_strlit("0");
        reveal_strlit("1");
        reveal_strlit("2");
        reveal_strlit("3");
        reveal_strlit("4");
        reveal_strlit("5");
        reveal_strlit("6");
        reveal_strlit("7");
        reveal_strlit("8");
        reveal_strlit("9");
    }
    if d == 0 { "0" } else if d == 1 { "1" } else if d == 2 { "2" } else if d == 3 { "3" } else if d == 4 {
        "4"
    } else if d == 5 { "5" } else if d == 6 { "6" } else if d == 7 { "7" } else if d == 8 { "8" } else { "9" }
}

/// Appends the decimal digits of `n`.
pub fn push_decimal(s: &mut String, n: u64)
    ensures
        final(s)@ == old(s)@ + decimal(n as nat),
    decreases n,
{
    if n >= 10 {
        push_decimal(s, n / 10);
    }
    s.append(digit_str(n % 10));
    proof {
        if n >= 10 {
            assert(decimal(n as nat) == decimal((n / 10) as nat).push(digit_char((n % 10) as nat)));
        }
    }
}

/// The text of a positioned error of `stage`.
pub open spec fn positioned_text(stage: Seq<char>, pos: Pos, code: ErrorCode, msg: Seq<char>) -> Seq<char> {
    stage + " Error at row "@ + decimal(pos.row as nat) + " col "@ + decimal(pos.col as nat) + " ("@ + decimal(
        code.spec_error_code() as nat,
    ) + ": "@ + code.spec_name() + "): "@ + msg
}

/// Formats an I/O error with its `Display`. That text comes from the
/// operating system (or from the error it wraps) and is not stated here.
#[verifier::external_body]
fn io_error_to_string(e: &std::io::Error) -> (r: String) {
    e.to_string()
}

/// The text an error is shown as: its stage, position, code and message; a
/// group lists its errors, separated by a comma and a line break. `None` where
/// the error holds an I/O error, whose text the operating system writes.
pub open spec fn error_text(e: Error) -> Option<Seq<char>>
    decreases e,
{
    match e {
        Error::LexerError { msg, pos, error_code } => Some(positioned_text("Lexer"@, pos, error_code, msg@)),
        Error::ParserError { msg, pos, error_code } => Some(positioned_text("Parser"@, pos, error_code, msg@)),
        Error::SemanticError { msg, pos, error_code } => Some(
            positioned_text("Semantic"@, pos, error_code, msg@),
        ),
        Error::RuntimeError { msg, pos } => Some(
            "Runtime Error at row "@ + decimal(pos.row as nat) + " col "@ + decimal(pos.col as nat) + ": "@ + msg@,
        ),
        Error::BuiltinFunctionError { function_name, msg } => Some(
            "Builtin function "@ + function_name@ + " error: "@ + msg@,
        ),
        Error::IoError(_) => None,
        Error::Errors(errs) => match group_text(e, errs@, 0) {
            Some(t) => Some("Errors:\n"@ + t),
            None => None,
        },
        Error::CompileError { msg } => Some("Compile Error: "@ + msg@),
    }
}

/// The texts of `errs[i..]`, separated by a comma and a line break; `None`
/// where one of them holds an I/O error.
pub open spec fn group_text(whole: Error, errs: Seq<Box<Error>>, i: int) -> Option<Seq<char>>
    decreases whole, errs.len() - i,
{
    if i < 0 || i >= errs.len() {
        Some(Seq::empty())
    } else if decreases_to!(whole => errs[i]) {
        match error_text(*errs[i]) {
            Some(head) => if i + 1 < errs.len() {
                match group_text(whole, errs, i + 1) {
                    Some(rest) => Some(head + ",\n"@ + rest),
                    None => None,
                }
            } else {
                Some(head)
            },
            None => None,
        }
    } else {
        None
    }
}

proof fn lemma_group_member_smaller(e: Error, errs: Vec<Box<Error>>, i: int)
    requires
        e == Error::Errors(errs),
        0 <= i < errs@.len(),
    ensures
        decreases_to!(e => errs@[i]),
{
    assert(decreases_to!(e => e->Errors_0));
    assert(decreases_to!(errs => errs@));
    assert(decreases_to!(errs@ => errs@[i]));
    assert(decreases_to!(e => errs@[i]));
}

fn append_positioned(s: &mut String, stage: &str, pos: Pos, code: ErrorCode, msg: &str)
    ensures
        final(s)@ == old(s)@ + positioned_text(stage@, pos, code, msg@),
{
    proof {
        reveal_strlit(" Error at row ");
        reveal_strlit(" col ");
        reveal_strlit(" (");
        reveal_strlit(": ");
        reveal_strlit("): ");
    }
    let ghost s0 = s@;
    s.append(stage);
    s.append(" Error at row ");
    push_decimal(s, pos.row as u64);
    s.append(" col ");
    push_decimal(s, pos.col as u64);
    s.append(" (");
    push_decimal(s, code.error_code() as u64);
    s.append(": ");
    s.append(code.name());
    s.append("): ");
    s.append(msg);
    assert(s@ =~= s0 + positioned_text(stage@, pos, code, msg@));
}

impl Error {
    /// The text the error is shown as.
    pub fn to_string(&self) -> (r: String)
        ensures
            error_text(*self) matches Some(t) ==> r@ == t,
        decreases self,
    {
        let mut s = String::new();
        match self {
            Error::LexerError { msg, pos, error_code } => append_positioned(&mut s, "Lexer", *pos, *error_code, msg.as_str()),
            Error::ParserError { msg, pos, error_code } => append_positioned(&mut s, "Parser", *pos, *error_code, msg.as_str()),
            Error::SemanticError { msg, pos, error_code } => append_positioned(
                &mut s,
                "Semantic",
                *pos,
                *error_code,
                msg.as_str(),
            ),
            Error::RuntimeError { msg, pos } => {
                proof {
                    reveal_strlit("Runtime Error at row ");
                    reveal_strlit(" col ");
                    reveal_strlit(": ");
                }
                s.append("Runtime Error at row ");
                push_decimal(&mut s, pos.row as u64);
                s.append(" col ");
                push_decimal(&mut s, pos.col as u64);
                s.append(": ");
                s.append(msg.as_str());
            },
            Error::BuiltinFunctionError { function_name, msg } => {
                proof {
                    reveal_strlit("Builtin function ");
                    reveal_strlit(" error: ");
                }
                s.append("Builtin function ");
                s.append(function_name);
                s.append(" error: ");
                s.append(msg.as_str());
            },
            Error::IoError(e) => {
                s = io_error_to_string(e);
            },
            Error::CompileError { msg } => {
                proof {
                    reveal_strlit("Compile Error: ");
                }
                s.append("Compile Error: ");
                s.append(msg.as_str());
            },
            Error::Errors(errs) => {
                proof {
                    reveal_strlit("Errors:\n");
                    reveal_strlit(",\n");
                }
                s.append("Errors:\n");
                let ghost head = s@;
                let mut i: usize = 0;
                while i < errs.len()
                    invariant
                        *self == Error::Errors(*errs),
                        i <= errs@.len(),
                        group_text(*self, errs@, 0) is Some ==> group_text(*self, errs@, i as int) is Some
                            && s@ + group_text(*self, errs@, i as int)->0 == head + group_text(*self, errs@, 0)->0,
                    decreases errs@.len() - i,
                {
                    proof {
                        lemma_group_member_smaller(*self, *errs, i as int);
                    }
                    let t = errs[i].to_string();
                    s.append(t.as_str());
                    if i + 1 < errs.len() {
                        s.append(",\n");
                    }
                    i = i + 1;
                }
            },
        }
        s
    }
}

} // verus!
