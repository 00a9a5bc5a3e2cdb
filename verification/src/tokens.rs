use vstd::prelude::*;
use crate::utils::{Pos, Span};

verus! {

broadcast use vstd::string::group_string_axioms;

/// Kind of a token. Tokens compare equal when they are of the same kind,
/// whatever value a literal carries. A real literal carries no value here:
/// its digits are the token's lexeme.
#[derive(Debug, Clone, Copy)]
pub enum TokenType {
    IntegerConst(i32),
    Int64Const(i64),
    RealConst,
    CharConst(char),
    BooleanConst(bool),
    Program,
    Integer,
    Int64,
    Real,
    Boolean,
    Char,
    String,
    IntegerDiv,
    RealDiv,
    Plus,
    Minus,
    Mul,
    And,
    Or,
    Not,
    Begin,
    End,
    Var,
    Procedure,
    Function,
    If,
    Then,
    Else,
    While,
    Do,
    For,
    To,
    Continue,
    Break,
    Exit,
    Type,
    Const,
    Array,
    Of,
    In,
    Out,
    Comma,
    Equal,
    NotEqual,
    LessThen,
    LessEqual,
    GreaterThen,
    GreaterEqual,
    Assign,
    Semi,
    Colon,
    Dot,
    LParen,
    RParen,
    LBracket,
    RBracket,
    Id,
    StringConst,
    EOF,
}

impl TokenType {
    /// Position of the kind in the list of kinds.
    pub open spec fn kind(&self) -> int {
        match self {
            TokenType::IntegerConst(_) => 0,
            TokenType::Int64Const(_) => 1,
            TokenType::RealConst => 2,
            TokenType::CharConst(_) => 3,
            TokenType::BooleanConst(_) => 4,
            TokenType::Program => 5,
            TokenType::Integer => 6,
            TokenType::Int64 => 7,
            TokenType::Real => 8,
            TokenType::Boolean => 9,
            TokenType::Char => 10,
            TokenType::String => 11,
            TokenType::IntegerDiv => 12,
            TokenType::RealDiv => 13,
            TokenType::Plus => 14,
            TokenType::Minus => 15,
            TokenType::Mul => 16,
            TokenType::And => 17,
            TokenType::Or => 18,
            TokenType::Not => 19,
            TokenType::Begin => 20,
            TokenType::End => 21,
            TokenType::Var => 22,
            TokenType::Procedure => 23,
            TokenType::Function => 24,
            TokenType::If => 25,
            TokenType::Then => 26,
            TokenType::Else => 27,
            TokenType::While => 28,
            TokenType::Do => 29,
            TokenType::For => 30,
            TokenType::To => 31,
            TokenType::Continue => 32,
            TokenType::Break => 33,
            TokenType::Exit => 34,
            TokenType::Type => 35,
            TokenType::Const => 36,
            TokenType::Array => 37,
            TokenType::Of => 38,
            TokenType::In => 39,
            TokenType::Out => 40,
            TokenType::Comma => 41,
            TokenType::Equal => 42,
            TokenType::NotEqual => 43,
            TokenType::LessThen => 44,
            TokenType::LessEqual => 45,
            TokenType::GreaterThen => 46,
            TokenType::GreaterEqual => 47,
            TokenType::Assign => 48,
            TokenType::Semi => 49,
            TokenType::Colon => 50,
            TokenType::Dot => 51,
            TokenType::LParen => 52,
            TokenType::RParen => 53,
            TokenType::LBracket => 54,
            TokenType::RBracket => 55,
            TokenType::Id => 56,
            TokenType::StringConst => 57,
            TokenType::EOF => 58,
        }
    }

    pub fn kind_index(&self) -> (r: u8)
        ensures
            r == self.kind(),
    {
        match self {
            TokenType::IntegerConst(_) => 0,
            TokenType::Int64Const(_) => 1,
            TokenType::RealConst => 2,
            TokenType::CharConst(_) => 3,
            TokenType::BooleanConst(_) => 4,
            TokenType::Program => 5,
            TokenType::Integer => 6,
            TokenType::Int64 => 7,
            TokenType::Real => 8,
            TokenType::Boolean => 9,
            TokenType::Char => 10,
            TokenType::String => 11,
            TokenType::IntegerDiv => 12,
            TokenType::RealDiv => 13,
            TokenType::Plus => 14,
            TokenType::Minus => 15,
            TokenType::Mul => 16,
            TokenType::And => 17,
            TokenType::Or => 18,
            TokenType::Not => 19,
            TokenType::Begin => 20,
            TokenType::End => 21,
            TokenType::Var => 22,
            TokenType::Procedure => 23,
            TokenType::Function => 24,
            TokenType::If => 25,
            TokenType::Then => 26,
            TokenType::Else => 27,
            TokenType::While => 28,
            TokenType::Do => 29,
            TokenType::For => 30,
            TokenType::To => 31,
            TokenType::Continue => 32,
            TokenType::Break => 33,
            TokenType::Exit => 34,
            TokenType::Type => 35,
            TokenType::Const => 36,
            TokenType::Array => 37,
            TokenType::Of => 38,
            TokenType::In => 39,
            TokenType::Out => 40,
            TokenType::Comma => 41,
            TokenType::Equal => 42,
            TokenType::NotEqual => 43,
            TokenType::LessThen => 44,
            TokenType::LessEqual => 45,
            TokenType::GreaterThen => 46,
            TokenType::GreaterEqual => 47,
            TokenType::Assign => 48,
            TokenType::Semi => 49,
            TokenType::Colon => 50,
            TokenType::Dot => 51,
            TokenType::LParen => 52,
            TokenType::RParen => 53,
            TokenType::LBracket => 54,
            TokenType::RBracket => 55,
            TokenType::Id => 56,
            TokenType::StringConst => 57,
            TokenType::EOF => 58,
        }
    }

    pub open spec fn spec_is_compare_operator(&self) -> bool {
        match self {
            TokenType::LessEqual | TokenType::LessThen | TokenType::Equal | TokenType::NotEqual
            | TokenType::GreaterEqual | TokenType::GreaterThen => true,
            _ => false,
        }
    }

    pub fn is_compare_operator(&self) -> (r: bool)
        ensures
            r == self.spec_is_compare_operator(),
    {
        match self {
            TokenType::LessEqual | TokenType::LessThen | TokenType::Equal | TokenType::NotEqual
            | TokenType::GreaterEqual | TokenType::GreaterThen => true,
            _ => false,
        }
    }

    /// The reserved words, upper case, with the kind each stands for.
    pub open spec fn keyword_table() -> Seq<(Seq<char>, TokenType)> {
        seq![
            ("PROGRAM"@, TokenType::Program),
            ("INTEGER"@, TokenType::Integer),
            ("INT64"@, TokenType::Int64),
            ("REAL"@, TokenType::Real),
            ("BOOLEAN"@, TokenType::Boolean),
            ("CHAR"@, TokenType::Char),
            ("STRING"@, TokenType::String),
            ("BEGIN"@, TokenType::Begin),
            ("END"@, TokenType::End),
            ("VAR"@, TokenType::Var),
            ("PROCEDURE"@, TokenType::Procedure),
            ("FUNCTION"@, TokenType::Function),
            ("IF"@, TokenType::If),
            ("THEN"@, TokenType::Then),
            ("ELSE"@, TokenType::Else),
            ("WHILE"@, TokenType::While),
            ("DO"@, TokenType::Do),
            ("FOR"@, TokenType::For),
            ("TO"@, TokenType::To),
            ("CONTINUE"@, TokenType::Continue),
            ("BREAK"@, TokenType::Break),
            ("EXIT"@, TokenType::Exit),
            ("TYPE"@, TokenType::Type),
            ("CONST"@, TokenType::Const),
            ("ARRAY"@, TokenType::Array),
            ("OF"@, TokenType::Of),
            ("IN"@, TokenType::In),
            ("OUT"@, TokenType::Out),
            ("DIV"@, TokenType::RealDiv),
            ("AND"@, TokenType::And),
            ("OR"@, TokenType::Or),
            ("NOT"@, TokenType::Not),
            ("TRUE"@, TokenType::BooleanConst(true)),
            ("FALSE"@, TokenType::BooleanConst(false)),
        ]
    }

    /// The single characters that are tokens by themselves.
    pub open spec fn char_token_table() -> Seq<(char, TokenType)> {
        seq![
            (',', TokenType::Comma),
            ('=', TokenType::Equal),
            (';', TokenType::Semi),
            ('.', TokenType::Dot),
            ('(', TokenType::LParen),
            (')', TokenType::RParen),
            ('[', TokenType::LBracket),
            (']', TokenType::RBracket),
            ('+', TokenType::Plus),
            ('/', TokenType::IntegerDiv),
            ('*', TokenType::Mul),
        ]
    }

    /// The reserved words with their kinds.
    pub fn get_keywords() -> (r: Vec<(String, TokenType)>)
        ensures
            keywords_view(r@) == Self::keyword_table(),
    {
        let mut r: Vec<(String, TokenType)> = Vec::new();
        r.push(("PROGRAM".to_string(), TokenType::Program));
        r.push(("INTEGER".to_string(), TokenType::Integer));
        r.push(("INT64".to_string(), TokenType::Int64));
        r.push(("REAL".to_string(), TokenType::Real));
        r.push(("BOOLEAN".to_string(), TokenType::Boolean));
        r.push(("CHAR".to_string(), TokenType::Char));
        r.push(("STRING".to_string(), TokenType::String));
        r.push(("BEGIN".to_string(), TokenType::Begin));
        r.push(("END".to_string(), TokenType::End));
        r.push(("VAR".to_string(), TokenType::Var));
        r.push(("PROCEDURE".to_string(), TokenType::Procedure));
        r.push(("FUNCTION".to_string(), TokenType::Function));
        r.push(("IF".to_string(), TokenType::If));
        r.push(("THEN".to_string(), TokenType::Then));
        r.push(("ELSE".to_string(), TokenType::Else));
        r.push(("WHILE".to_string(), TokenType::While));
        r.push(("DO".to_string(), TokenType::Do));
        r.push(("FOR".to_string(), TokenType::For));
        r.push(("TO".to_string(), TokenType::To));
        r.push(("CONTINUE".to_string(), TokenType::Continue));
        r.push(("BREAK".to_string(), TokenType::Break));
        r.push(("EXIT".to_string(), TokenType::Exit));
        r.push(("TYPE".to_string(), TokenType::Type));
        r.push(("CONST".to_string(), TokenType::Const));
        r.push(("ARRAY".to_string(), TokenType::Array));
        r.push(("OF".to_string(), TokenType::Of));
        r.push(("IN".to_string(), TokenType::In));
        r.push(("OUT".to_string(), TokenType::Out));
        r.push(("DIV".to_string(), TokenType::RealDiv));
        r.push(("AND".to_string(), TokenType::And));
        r.push(("OR".to_string(), TokenType::Or));
        r.push(("NOT".to_string(), TokenType::Not));
        r.push(("TRUE".to_string(), TokenType::BooleanConst(true)));
        r.push(("FALSE".to_string(), TokenType::BooleanConst(false)));
        assert(keywords_view(r@) =~= Self::keyword_table());
        r
    }

    /// The single-character tokens with their kinds.
    pub fn get_char_tokens() -> (r: Vec<(char, TokenType)>)
        ensures
            r@ == Self::char_token_table(),
    {
        let mut r: Vec<(char, TokenType)> = Vec::new();
        r.push((',', TokenType::Comma));
        r.push(('=', TokenType::Equal));
        r.push((';', TokenType::Semi));
        r.push(('.', TokenType::Dot));
        r.push(('(', TokenType::LParen));
        r.push((')', TokenType::RParen));
        r.push(('[', TokenType::LBracket));
        r.push((']', TokenType::RBracket));
        r.push(('+', TokenType::Plus));
        r.push(('/', TokenType::IntegerDiv));
        r.push(('*', TokenType::Mul));
        assert(r@ =~= Self::char_token_table());
        r
    }
}

/// The words of a keyword list as character sequences.
pub open spec fn keywords_view(v: Seq<(String, TokenType)>) -> Seq<(Seq<char>, TokenType)> {
    v.map_values(|p: (String, TokenType)| (p.0@, p.1))
}

/// The kind paired with the first occurrence of `key` in `table`.
pub open spec fn table_lookup<K>(table: Seq<(K, TokenType)>, key: K) -> Option<TokenType>
    decreases table.len(),
{
    if table.len() == 0 {
        None
    } else if table[0].0 == key {
        Some(table[0].1)
    } else {
        table_lookup(table.drop_first(), key)
    }
}

/// What a lookup finds is a kind of the table.
pub proof fn lemma_table_lookup_found<K>(table: Seq<(K, TokenType)>, key: K)
    ensures
        table_lookup(table, key) matches Some(t) ==> exists|i: int|
            0 <= i < table.len() && table[i].1 == t,
    decreases table.len(),
{
    if table.len() > 0 && table[0].0 != key {
        lemma_table_lookup_found(table.drop_first(), key);
        if let Some(t) = table_lookup(table.drop_first(), key) {
            let i = choose|i: int| 0 <= i < table.drop_first().len() && table.drop_first()[i].1 == t;
            assert(table[i + 1].1 == t);
        }
    }
}

/// The reserved word of a token kind, in upper case: the kind a word of the
/// source stands for when its upper-case form is this word.
pub open spec fn reserved_word(t: TokenType) -> Option<Seq<char>> {
    match t {
        TokenType::Program => Some("PROGRAM"@),
        TokenType::Integer => Some("INTEGER"@),
        TokenType::Int64 => Some("INT64"@),
        TokenType::Real => Some("REAL"@),
        TokenType::Boolean => Some("BOOLEAN"@),
        TokenType::Char => Some("CHAR"@),
        TokenType::String => Some("STRING"@),
        TokenType::Begin => Some("BEGIN"@),
        TokenType::End => Some("END"@),
        TokenType::Var => Some("VAR"@),
        TokenType::Procedure => Some("PROCEDURE"@),
        TokenType::Function => Some("FUNCTION"@),
        TokenType::If => Some("IF"@),
        TokenType::Then => Some("THEN"@),
        TokenType::Else => Some("ELSE"@),
        TokenType::While => Some("WHILE"@),
        TokenType::Do => Some("DO"@),
        TokenType::For => Some("FOR"@),
        TokenType::To => Some("TO"@),
        TokenType::Continue => Some("CONTINUE"@),
        TokenType::Break => Some("BREAK"@),
        TokenType::Exit => Some("EXIT"@),
        TokenType::Type => Some("TYPE"@),
        TokenType::Const => Some("CONST"@),
        TokenType::Array => Some("ARRAY"@),
        TokenType::Of => Some("OF"@),
        TokenType::In => Some("IN"@),
        TokenType::Out => Some("OUT"@),
        TokenType::RealDiv => Some("DIV"@),
        TokenType::And => Some("AND"@),
        TokenType::Or => Some("OR"@),
        TokenType::Not => Some("NOT"@),
        TokenType::BooleanConst(true) => Some("TRUE"@),
        TokenType::BooleanConst(false) => Some("FALSE"@),
        _ => None,
    }
}

/// What a lookup finds is paired with the key in the table.
pub proof fn lemma_table_lookup_entry<K>(table: Seq<(K, TokenType)>, key: K)
    ensures
        table_lookup(table, key) matches Some(t) ==> exists|i: int| 0 <= i < table.len() && #[trigger] table[i] == (key, t),
    decreases table.len(),
{
    if table.len() > 0 {
        if table[0].0 == key {
            assert(table[0] == (key, table[0].1));
        } else {
            lemma_table_lookup_entry(table.drop_first(), key);
            if let Some(t) = table_lookup(table.drop_first(), key) {
                let i = choose|i: int| 0 <= i < table.drop_first().len() && #[trigger] table.drop_first()[i] == (key, t);
                assert(table[i + 1] == (key, t));
            }
        }
    }
}

/// A word the lexer reads as a reserved word stands for the kind whose
/// reserved word it is: `OR` for `or`, `AND` for `and`, and so on.
pub proof fn law_keyword_is_its_kinds_word(word: Seq<char>)
    ensures
        table_lookup(TokenType::keyword_table(), word) matches Some(t) ==> reserved_word(t) == Some(word),
{
    let kt = TokenType::keyword_table();
    assert forall|i: int| 0 <= i < kt.len() implies reserved_word((#[trigger] kt[i]).1) == Some(kt[i].0) by {}
    lemma_table_lookup_entry(kt, word);
}

/// Every kind that has a reserved word is in the table of reserved words,
/// paired with that word.
pub proof fn law_every_reserved_word_is_listed(t: TokenType)
    ensures
        reserved_word(t) matches Some(w) ==> exists|i: int|
            0 <= i < TokenType::keyword_table().len() && #[trigger] TokenType::keyword_table()[i] == (w, t),
{
    let kt = TokenType::keyword_table();
    if let Some(w) = reserved_word(t) {
        let i: int = match t {
            TokenType::Program => 0,
            TokenType::Integer => 1,
            TokenType::Int64 => 2,
            TokenType::Real => 3,
            TokenType::Boolean => 4,
            TokenType::Char => 5,
            TokenType::String => 6,
            TokenType::Begin => 7,
            TokenType::End => 8,
            TokenType::Var => 9,
            TokenType::Procedure => 10,
            TokenType::Function => 11,
            TokenType::If => 12,
            TokenType::Then => 13,
            TokenType::Else => 14,
            TokenType::While => 15,
            TokenType::Do => 16,
            TokenType::For => 17,
            TokenType::To => 18,
            TokenType::Continue => 19,
            TokenType::Break => 20,
            TokenType::Exit => 21,
            TokenType::Type => 22,
            TokenType::Const => 23,
            TokenType::Array => 24,
            TokenType::Of => 25,
            TokenType::In => 26,
            TokenType::Out => 27,
            TokenType::RealDiv => 28,
            TokenType::And => 29,
            TokenType::Or => 30,
            TokenType::Not => 31,
            TokenType::BooleanConst(true) => 32,
            _ => 33,
        };
        assert(kt[i] == (w, t));
    }
}

/// Neither table holds the end marker.
pub proof fn lemma_tables_have_no_end_marker()
    ensures
        forall|i: int| 0 <= i < TokenType::keyword_table().len() ==> (
        #[trigger] TokenType::keyword_table()[i]).1.kind() != 58,
        forall|i: int| 0 <= i < TokenType::char_token_table().len() ==> (
        #[trigger] TokenType::char_token_table()[i]).1.kind() != 58,
{
    let kt = TokenType::keyword_table();
    let ct = TokenType::char_token_table();
    assert forall|i: int| 0 <= i < kt.len() implies (#[trigger] kt[i]).1.kind() != 58 by {
    }
    assert forall|i: int| 0 <= i < ct.len() implies (#[trigger] ct[i]).1.kind() != 58 by {
    }
}

proof fn lemma_table_lookup_step<K>(table: Seq<(K, TokenType)>, i: int, key: K)
    requires
        0 <= i <= table.len(),
        forall|j: int| 0 <= j < i ==> table[j].0 != key,
    ensures
        table_lookup(table, key) == table_lookup(table.subrange(i, table.len() as int), key),
    decreases i,
{
    if i == 0 {
        assert(table.subrange(0, table.len() as int) =~= table);
    } else {
        assert(table.drop_first().subrange(i - 1, table.drop_first().len() as int)
            =~= table.subrange(i, table.len() as int));
        lemma_table_lookup_step(table.drop_first(), i - 1, key);
    }
}

/// Looks `word` up among the reserved words.
pub fn lookup_keyword(keywords: &Vec<(String, TokenType)>, word: &String) -> (r: Option<TokenType>)
    ensures
        r == table_lookup(keywords_view(keywords@), word@),
{
    let n = keywords.len();
    let ghost t = keywords_view(keywords@);
    let mut i: usize = 0;
    while i < n
        invariant
            n == keywords@.len(),
            t == keywords_view(keywords@),
            i <= n,
            forall|j: int| 0 <= j < i ==> t[j].0 != word@,
        decreases n - i,
    {
        if keywords[i].0 == *word {
            proof {
                lemma_table_lookup_step(t, i as int, word@);
            }
            return Some(keywords[i].1);
        }
        i = i + 1;
    }
    proof {
        lemma_table_lookup_step(t, t.len() as int, word@);
    }
    None
}

/// Looks `c` up among the single-character tokens.
pub fn lookup_char_token(char_tokens: &Vec<(char, TokenType)>, c: char) -> (r: Option<TokenType>)
    ensures
        r == table_lookup(char_tokens@, c),
{
    let n = char_tokens.len();
    let mut i: usize = 0;
    while i < n
        invariant
            n == char_tokens@.len(),
            i <= n,
            forall|j: int| 0 <= j < i ==> char_tokens@[j].0 != c,
        decreases n - i,
    {
        if char_tokens[i].0 == c {
            proof {
                lemma_table_lookup_step(char_tokens@, i as int, c);
            }
            return Some(char_tokens[i].1);
        }
        i = i + 1;
    }
    proof {
        lemma_table_lookup_step(char_tokens@, char_tokens@.len() as int, c);
    }
    None
}

impl PartialEq for TokenType {
    fn eq(&self, other: &Self) -> (r: bool) {
        self.kind_index() == other.kind_index()
    }
}

impl vstd::std_specs::cmp::PartialEqSpecImpl for TokenType {
    open spec fn obeys_eq_spec() -> bool {
        true
    }

    open spec fn eq_spec(&self, other: &Self) -> bool {
        self.kind() == other.kind()
    }
}

/// A token: its kind, the source span it was read from and the position the
/// lexer reported for it.
#[derive(Debug, Clone, Copy)]
pub struct Token {
    token_type: TokenType,
    span: Span,
    pos: Pos,
}

impl Token {
    pub closed spec fn spec_token_type(&self) -> TokenType {
        self.token_type
    }

    pub closed spec fn spec_span(&self) -> Span {
        self.span
    }

    pub closed spec fn spec_pos(&self) -> Pos {
        self.pos
    }

    pub fn new(token_type: TokenType, start: u32, len: u32, pos: Pos) -> (r: Self)
        ensures
            r.spec_token_type() == token_type,
            r.spec_span().spec_start() == start,
            r.spec_span().spec_len() == len,
            r.spec_pos() == pos,
    {
        Self { token_type, span: Span::new(start, len), pos }
    }

    pub fn token_type(&self) -> (r: &TokenType)
        ensures
            *r == self.spec_token_type(),
    {
        &self.token_type
    }

    /// The text of the token in `src`.
    pub fn lexem<'a>(&self, src: &'a str) -> (r: &'a str)
        requires
            self.spec_span().spec_end() <= src@.len(),
            self.spec_span().spec_end() <= usize::MAX,
        ensures
            r@ == src@.subrange(
                self.spec_span().spec_start() as int,
                self.spec_span().spec_end(),
            ),
    {
        self.span.lexem(src)
    }

    pub fn pos(&self) -> (r: Pos)
        ensures
            r == self.spec_pos(),
    {
        self.pos
    }

    pub fn span(&self) -> (r: Span)
        ensures
            r == self.spec_span(),
    {
        self.span
    }
}

impl PartialEq for Token {
    fn eq(&self, other: &Self) -> (r: bool) {
        self.token_type == other.token_type
    }
}

impl vstd::std_specs::cmp::PartialEqSpecImpl for Token {
    open spec fn obeys_eq_spec() -> bool {
        true
    }

    open spec fn eq_spec(&self, other: &Self) -> bool {
        self.spec_token_type().kind() == other.spec_token_type().kind()
    }
}

impl Eq for Token {
}

} // verus!
