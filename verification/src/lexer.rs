use vstd::prelude::*;
use crate::chars::{is_alphanumeric, is_alphanumeric_char, is_ascii_digit, is_digit, is_numeric, is_numeric_char, is_whitespace, is_whitespace_char, str_to_uppercase, to_uppercase};
use crate::error::{Error, ErrorCode};
use crate::messages::{unexpected_character_message, unexpected_character_text};
use crate::tokens::{lemma_table_lookup_entry, lemma_table_lookup_found, lemma_tables_have_no_end_marker, lookup_char_token, lookup_keyword, keywords_view, table_lookup, Token, TokenType};
use crate::utils::{fits_u32, str_chars, Pos};

verus! {

// ---------------------------------------------------------------------------
// The lexical structure of the source, as a function of its characters.
// ---------------------------------------------------------------------------

/// The character at `i`, if `i` is inside `s`.
pub open spec fn char_at(s: Seq<char>, i: int) -> Option<char> {
    if 0 <= i < s.len() {
        Some(s[i])
    } else {
        None
    }
}

/// Row and column reached after stepping over the first `n` places of `s`
/// from row 1, column 1: a line feed starts the next row, anything else
/// (also a place past the end) moves one column right.
pub open spec fn pos_at(s: Seq<char>, n: nat) -> (int, int)
    decreases n,
{
    if n == 0 {
        (1, 1)
    } else {
        let p = pos_at(s, (n - 1) as nat);
        if n - 1 < s.len() && s[n - 1] == '\n' {
            (p.0 + 1, 1)
        } else {
            (p.0, p.1 + 1)
        }
    }
}

/// First index from `i` on that is not whitespace.
pub open spec fn ws_end(s: Seq<char>, i: int) -> int
    decreases s.len() - i,
{
    if 0 <= i < s.len() && is_whitespace_char(s[i]) {
        ws_end(s, i + 1)
    } else {
        i
    }
}

/// Index just past the first `}` from `i` on, or the end of `s`.
pub open spec fn comment_end(s: Seq<char>, i: int) -> int
    decreases s.len() - i,
{
    if 0 <= i < s.len() {
        if s[i] == '}' {
            i + 1
        } else {
            comment_end(s, i + 1)
        }
    } else {
        i
    }
}

/// Index of the first line feed from `i` on, or the end of `s`.
pub open spec fn line_stop(s: Seq<char>, i: int) -> int
    decreases s.len() - i,
{
    if 0 <= i < s.len() && s[i] != '\n' {
        line_stop(s, i + 1)
    } else {
        i
    }
}

pub proof fn lemma_ws_end(s: Seq<char>, i: int)
    ensures
        ws_end(s, i) >= i,
        i <= s.len() ==> ws_end(s, i) <= s.len(),
        i > s.len() ==> ws_end(s, i) == i,
    decreases s.len() - i,
{
    if 0 <= i < s.len() && is_whitespace_char(s[i]) {
        lemma_ws_end(s, i + 1);
    }
}

pub proof fn lemma_ws_end_idem(s: Seq<char>, i: int)
    ensures
        ws_end(s, ws_end(s, i)) == ws_end(s, i),
    decreases s.len() - i,
{
    if 0 <= i < s.len() && is_whitespace_char(s[i]) {
        lemma_ws_end_idem(s, i + 1);
    }
}

pub proof fn lemma_comment_end(s: Seq<char>, i: int)
    requires
        0 <= i,
    ensures
        i < s.len() ==> i < comment_end(s, i) <= s.len(),
        i >= s.len() ==> comment_end(s, i) == i,
    decreases s.len() - i,
{
    if 0 <= i < s.len() && s[i] != '}' {
        lemma_comment_end(s, i + 1);
    }
}

pub proof fn lemma_line_stop(s: Seq<char>, i: int)
    requires
        0 <= i,
    ensures
        i <= s.len() ==> i <= line_stop(s, i) <= s.len(),
        i > s.len() ==> line_stop(s, i) == i,
    decreases s.len() - i,
{
    if 0 <= i < s.len() && s[i] != '\n' {
        lemma_line_stop(s, i + 1);
    }
}

/// Index of the first token at or after `i`, where `i` is past any
/// whitespace: `{...}` comments (a `{` that is not the last character) and
/// `\\` line comments are skipped together with the whitespace after them.
pub open spec fn trivia_end(s: Seq<char>, i: int) -> int
    decreases s.len() + 2 - i,
{
    if i < 0 || i > s.len() + 1 {
        i
    } else if char_at(s, i) == Some('{') && i + 1 < s.len() {
        let k = ws_end(s, comment_end(s, i));
        proof {
            lemma_comment_end(s, i);
            lemma_ws_end(s, comment_end(s, i));
        }
        trivia_end(s, k)
    } else if char_at(s, i) == Some('\\') && char_at(s, i + 1) == Some('\\') {
        let k = ws_end(s, line_stop(s, i) + 1);
        proof {
            lemma_line_stop(s, i);
            lemma_ws_end(s, line_stop(s, i) + 1);
        }
        trivia_end(s, k)
    } else {
        i
    }
}

/// Index where the token after `i` starts.
pub open spec fn token_start(s: Seq<char>, i: int) -> int {
    trivia_end(s, ws_end(s, i))
}

/// First index from `i` on that is not an ASCII digit.
pub open spec fn digits_end(s: Seq<char>, i: int) -> int
    decreases s.len() - i,
{
    if 0 <= i < s.len() && is_digit(s[i]) {
        digits_end(s, i + 1)
    } else {
        i
    }
}

/// A character that may occur in a word: alphanumeric or `_`.
pub open spec fn is_word_char(c: char) -> bool {
    is_alphanumeric_char(c) || c == '_'
}

/// First index from `i` on that is not a word character.
pub open spec fn word_end(s: Seq<char>, i: int) -> int
    decreases s.len() - i,
{
    if 0 <= i < s.len() && is_word_char(s[i]) {
        word_end(s, i + 1)
    } else {
        i
    }
}

/// Scanning a quoted literal from `k`: the index `k` at which the next
/// character is a quote not preceded by a backslash, or the text runs out.
pub open spec fn string_stop(s: Seq<char>, k: int) -> int
    decreases s.len() - k,
{
    if 0 <= k && k + 1 < s.len() && !(s[k + 1] == '\'' && s[k] != '\\') {
        string_stop(s, k + 1)
    } else {
        k
    }
}

/// Value of a string of decimal digits.
pub open spec fn digits_value(d: Seq<char>) -> nat
    decreases d.len(),
{
    if d.len() == 0 {
        0
    } else {
        digits_value(d.drop_last()) * 10 + ((d.last() as int - '0' as int) as nat)
    }
}

/// A magnitude as the number reader keeps it: exact up to `2^63`, one more
/// than that beyond.
pub open spec fn clamp_magnitude(v: nat) -> nat {
    if v <= 0x8000_0000_0000_0000 {
        v
    } else {
        0x8000_0000_0000_0001
    }
}

/// The outcome of reading one token.
pub enum LexStep {
    /// A token with its span, its reported position, and where the lexer goes on.
    Emit { token_type: TokenType, start: int, len: int, row: int, col: int, next: int },
    /// A character no token starts with, at index `at`.
    Fail { row: int, col: int, at: int },
    /// The reading fails with a panic (an arithmetic or slicing fault).
    Panic,
}

/// A token reported at the position of `next` moved `len` columns left.
pub open spec fn emit_shifted(s: Seq<char>, tt: TokenType, start: int, len: int, next: int) -> LexStep {
    let p = pos_at(s, next as nat);
    if p.1 >= len {
        LexStep::Emit { token_type: tt, start, len, row: p.0, col: p.1 - len, next }
    } else {
        LexStep::Panic
    }
}

/// A token reported `back` columns left of the position of `next`.
pub open spec fn emit_back(s: Seq<char>, tt: TokenType, start: int, len: int, back: int, next: int) -> LexStep {
    let p = pos_at(s, next as nat);
    if p.1 >= back {
        LexStep::Emit { token_type: tt, start, len, row: p.0, col: p.1 - back, next }
    } else {
        LexStep::Panic
    }
}

/// A number literal starting at `j`: an optional `-`, digits, and for a real
/// a `.` and digits more. An integer literal is read as an `i64` and is an
/// integer constant when it fits in `i32`.
pub open spec fn number_step(s: Seq<char>, j: int) -> LexStep {
    let a = if char_at(s, j) == Some('-') { j + 1 } else { j };
    let d = digits_end(s, a);
    if char_at(s, d) == Some('.') && (match char_at(s, d + 1) {
        Some(x) => is_digit(x),
        None => false,
    }) {
        let e = digits_end(s, d + 1);
        emit_shifted(s, TokenType::RealConst, j, e - j, e)
    } else if d == a {
        LexStep::Panic
    } else {
        let mag = digits_value(s.subrange(a, d)) as int;
        let v = if a == j + 1 { -mag } else { mag };
        if v < i64::MIN || v > i64::MAX {
            LexStep::Panic
        } else if i32::MIN <= v && v <= i32::MAX {
            emit_shifted(s, TokenType::IntegerConst(v as i32), j, d - j, d)
        } else {
            emit_shifted(s, TokenType::Int64Const(v as i64), j, d - j, d)
        }
    }
}

/// A quoted literal whose opening quote is at `j`: one character between the
/// quotes makes a character constant, anything else a string constant whose
/// span is the text between the quotes. Either is reported at the position of
/// its first character inside the quotes.
pub open spec fn string_step(s: Seq<char>, j: int) -> LexStep {
    let k = string_stop(s, j + 1);
    if k == j + 1 {
        match char_at(s, j + 1) {
            Some(c) => emit_back(s, TokenType::CharConst(c), j + 1, 1, 2, k + 2),
            None => LexStep::Panic,
        }
    } else {
        emit_back(s, TokenType::StringConst, j + 1, k - j, k - j + 1, k + 2)
    }
}

/// A word starting at `j`: a reserved word when its upper-case form is one,
/// otherwise an identifier.
pub open spec fn word_step(s: Seq<char>, j: int) -> LexStep {
    let k = word_end(s, j);
    let up = str_to_uppercase(s.subrange(j, k));
    let tt = match table_lookup(TokenType::keyword_table(), up) {
        Some(t) => t,
        None => TokenType::Id,
    };
    emit_shifted(s, tt, j, k - j, k)
}

/// What reading the next token from index `i` of `s` gives.
pub open spec fn spec_next(s: Seq<char>, i: int) -> LexStep {
    let j = token_start(s, i);
    match char_at(s, j) {
        None => if j >= 1 {
            emit_shifted(s, TokenType::EOF, j - 1, 0, j)
        } else {
            LexStep::Panic
        },
        Some(c) => {
            let nxt = char_at(s, j + 1);
            if table_lookup(TokenType::char_token_table(), c) is Some {
                let p = pos_at(s, (j + 1) as nat);
                LexStep::Emit {
                    token_type: table_lookup(TokenType::char_token_table(), c)->0,
                    start: j,
                    len: 1,
                    row: p.0,
                    col: p.1,
                    next: j + 1,
                }
            } else if c == '>' {
                if nxt == Some('=') {
                    emit_shifted(s, TokenType::GreaterEqual, j, 2, j + 2)
                } else {
                    emit_shifted(s, TokenType::GreaterThen, j, 1, j + 1)
                }
            } else if c == '<' {
                if nxt == Some('=') {
                    emit_shifted(s, TokenType::LessEqual, j, 2, j + 2)
                } else if nxt == Some('>') {
                    emit_shifted(s, TokenType::NotEqual, j, 2, j + 2)
                } else {
                    emit_shifted(s, TokenType::LessThen, j, 1, j + 1)
                }
            } else if c == ':' {
                if nxt == Some('=') {
                    emit_shifted(s, TokenType::Assign, j, 2, j + 2)
                } else {
                    emit_shifted(s, TokenType::Colon, j, 1, j + 1)
                }
            } else if c == '-' {
                if nxt matches Some(x) && is_digit(x) {
                    number_step(s, j)
                } else {
                    emit_shifted(s, TokenType::Minus, j, 1, j + 1)
                }
            } else if is_numeric_char(c) {
                number_step(s, j)
            } else if c == '\'' {
                string_step(s, j)
            } else if is_word_char(c) {
                word_step(s, j)
            } else {
                let p = pos_at(s, j as nat);
                LexStep::Fail { row: p.0, col: p.1, at: j }
            }
        },
    }
}

proof fn lemma_pos_at_bounds(s: Seq<char>, n: nat)
    ensures
        1 <= pos_at(s, n).0 <= n + 1,
        1 <= pos_at(s, n).1 <= n + 1,
    decreases n,
{
    if n > 0 {
        lemma_pos_at_bounds(s, (n - 1) as nat);
    }
}

proof fn lemma_digits_end(s: Seq<char>, i: int)
    requires
        0 <= i,
    ensures
        i <= digits_end(s, i),
        i <= s.len() ==> digits_end(s, i) <= s.len(),
        i > s.len() ==> digits_end(s, i) == i,
        forall|m: int| i <= m < digits_end(s, i) ==> is_digit(#[trigger] s[m]),
    decreases s.len() - i,
{
    if 0 <= i < s.len() && is_digit(s[i]) {
        lemma_digits_end(s, i + 1);
    }
}

proof fn lemma_word_end(s: Seq<char>, i: int)
    requires
        0 <= i,
    ensures
        i <= word_end(s, i),
        i <= s.len() ==> word_end(s, i) <= s.len(),
        i > s.len() ==> word_end(s, i) == i,
    decreases s.len() - i,
{
    if 0 <= i < s.len() && is_word_char(s[i]) {
        lemma_word_end(s, i + 1);
    }
}

proof fn lemma_string_stop(s: Seq<char>, k: int)
    requires
        0 <= k,
    ensures
        k <= string_stop(s, k),
        k < s.len() ==> string_stop(s, k) < s.len(),
        k >= s.len() ==> string_stop(s, k) == k,
    decreases s.len() - k,
{
    if 0 <= k && k + 1 < s.len() && !(s[k + 1] == '\'' && s[k] != '\\') {
        lemma_string_stop(s, k + 1);
    }
}

proof fn lemma_trivia_end(s: Seq<char>, i: int)
    requires
        0 <= i <= s.len() + 1,
    ensures
        i <= trivia_end(s, i) <= s.len() + 1,
    decreases s.len() + 2 - i,
{
    if char_at(s, i) == Some('{') && i + 1 < s.len() {
        lemma_comment_end(s, i);
        lemma_ws_end(s, comment_end(s, i));
        lemma_trivia_end(s, ws_end(s, comment_end(s, i)));
    } else if char_at(s, i) == Some('\\') && char_at(s, i + 1) == Some('\\') {
        lemma_line_stop(s, i);
        lemma_ws_end(s, line_stop(s, i) + 1);
        lemma_trivia_end(s, ws_end(s, line_stop(s, i) + 1));
    }
}

proof fn lemma_digits_value_prefix(d: Seq<char>, k: int)
    requires
        0 <= k <= d.len(),
    ensures
        digits_value(d.take(k)) <= digits_value(d),
    decreases d.len(),
{
    if k < d.len() {
        assert(d.drop_last().take(k) =~= d.take(k));
        lemma_digits_value_prefix(d.drop_last(), k);
    } else {
        assert(d.take(k) =~= d);
    }
}

/// An opening parenthesis token stands on a `(` of the text.
pub proof fn law_lparen_token_is_a_paren(s: Seq<char>, i: int)
    ensures
        spec_next(s, i) matches LexStep::Emit { token_type: TokenType::LParen, start, .. } ==> 0 <= start < s.len()
            && s[start] == '(',
{
    let j = token_start(s, i);
    if let Some(c) = char_at(s, j) {
        let ct = TokenType::char_token_table();
        let kt = TokenType::keyword_table();
        lemma_table_lookup_entry(ct, c);
        if let Some(t) = table_lookup(ct, c) {
            if t is LParen {
                let e = choose|e: int| 0 <= e < ct.len() && #[trigger] ct[e] == (c, t);
                assert(ct[e] == (c, t));
            }
        } else if is_word_char(c) {
            let k = word_end(s, j);
            lemma_table_lookup_found(kt, str_to_uppercase(s.subrange(j, k)));
            assert forall|e: int| 0 <= e < kt.len() implies !((#[trigger] kt[e]).1 is LParen) by {}
        }
    }
}

/// Reading never goes back: a token starts where the lexer stands or after
/// it and takes at least one character, the end marker stands just before
/// the end of the text, and the lexer ends up past the token.
pub proof fn law_next_moves_forward(s: Seq<char>, i: int)
    requires
        0 <= i <= s.len() + 1,
    ensures
        spec_next(s, i) matches LexStep::Emit { token_type, start, len, next, .. } ==> {
            &&& i <= next <= s.len() + 1
            &&& start + len <= next
            &&& start + len <= s.len()
            &&& (token_type is EOF ==> start == next - 1 && len == 0 && next >= s.len())
            &&& (!(token_type is EOF) ==> i <= start && 1 <= len)
        },
        spec_next(s, i) matches LexStep::Fail { at, .. } ==> i <= at < s.len(),
{
    let j = token_start(s, i);
    lemma_ws_end(s, i);
    lemma_trivia_end(s, ws_end(s, i));
    lemma_tables_have_no_end_marker();
    if 0 <= j < s.len() {
        lemma_table_lookup_found(TokenType::char_token_table(), s[j]);
        lemma_table_lookup_found(TokenType::keyword_table(), str_to_uppercase(s.subrange(j, word_end(s, j))));
        lemma_digits_end(s, j);
        lemma_digits_end(s, j + 1);
        lemma_word_end(s, j);
        lemma_string_stop(s, j + 1);
        let a = if char_at(s, j) == Some('-') { j + 1 } else { j };
        lemma_digits_end(s, a);
        let d = digits_end(s, a);
        lemma_digits_end(s, d + 1);
        lemma_word_end(s, j + 1);
        lemma_string_stop(s, j + 2);
        lemma_digits_end(s, d);
        if is_word_char(s[j]) {
            assert(word_end(s, j) >= j + 1);
        }
        let c = s[j];
        if table_lookup(TokenType::char_token_table(), c) is Some {
        } else if c == '\'' {
            let k = string_stop(s, j + 1);
            assert(string_step(s, j) matches LexStep::Emit { start, len, next, .. } ==> start + len <= s.len() && start + len <= next && next <= s.len() + 1 && 1 <= len && i <= start);
        } else if c == '-' || is_numeric_char(c) {
            assert(number_step(s, j) matches LexStep::Emit { start, len, next, .. } ==> start + len <= s.len() && start + len <= next && next <= s.len() + 1 && 1 <= len && i <= start);
        } else if is_word_char(c) {
            assert(word_step(s, j) matches LexStep::Emit { start, len, next, .. } ==> start + len <= s.len() && start + len <= next && next <= s.len() + 1 && 1 <= len && i <= start);
        }
    }
}

/// At the end of the text the lexer keeps reporting the end marker, from
/// where it stands.
pub proof fn law_end_marker_repeats(s: Seq<char>, i: int)
    requires
        0 <= i <= s.len() + 1,
        spec_next(s, i) matches LexStep::Emit { token_type, .. } && token_type is EOF,
    ensures
        spec_next(s, i) matches LexStep::Emit { next, .. } && spec_next(s, next) == spec_next(s, i),
{
    law_next_moves_forward(s, i);
    let j = token_start(s, i);
    lemma_ws_end(s, i);
    lemma_trivia_end(s, ws_end(s, i));
    assert(ws_end(s, j) == j);
    assert(trivia_end(s, j) == j);
}

// ---------------------------------------------------------------------------
// The lexer.
// ---------------------------------------------------------------------------

/// Reads the tokens of a source text one at a time.
pub struct Lexer<'a> {
    char_tokens: Vec<(char, TokenType)>,
    keywords: Vec<(String, TokenType)>,
    source_code: &'a str,
    chars: Vec<char>,
    index: usize,
    pos: Pos,
    current_char: Option<char>,
}

impl<'a> Lexer<'a> {
    /// The characters of the source.
    pub closed spec fn text(&self) -> Seq<char> {
        self.chars@
    }

    /// How far the lexer has read.
    pub closed spec fn spec_index(&self) -> int {
        self.index as int
    }

    pub closed spec fn spec_source(&self) -> &'a str {
        self.source_code
    }

    /// The lexer's state agrees with its index in the source.
    pub closed spec fn wf(&self) -> bool {
        &&& self.chars@ == self.source_code@
        &&& fits_u32(self.chars@.len() + 4int)
        &&& self.index <= self.chars@.len() + 2
        &&& self.pos.row == pos_at(self.chars@, self.index as nat).0
        &&& self.pos.col == pos_at(self.chars@, self.index as nat).1
        &&& self.current_char == char_at(self.chars@, self.index as int)
        &&& keywords_view(self.keywords@) == TokenType::keyword_table()
        &&& self.char_tokens@ == TokenType::char_token_table()
    }

    /// What a well-formed lexer knows of its text.
    pub proof fn lemma_wf_text(&self)
        requires
            self.wf(),
        ensures
            self.text() == self.spec_source()@,
            fits_u32(self.text().len() + 4int),
            0 <= self.spec_index() <= self.text().len() + 2,
    {
    }

    pub fn new(source_code: &'a str) -> (r: Self)
        requires
            fits_u32(source_code@.len() + 4int),
        ensures
            r.wf(),
            r.text() == source_code@,
            r.spec_source() == source_code,
            r.spec_index() == 0,
    {
        let chars = str_chars(source_code);
        let first_char = if chars.len() > 0 {
            Some(chars[0])
        } else {
            None
        };
        Lexer {
            source_code,
            chars,
            index: 0,
            pos: Pos { row: 1, col: 1 },
            current_char: first_char,
            keywords: TokenType::get_keywords(),
            char_tokens: TokenType::get_char_tokens(),
        }
    }

    fn char_at_index(&self, i: usize) -> (r: Option<char>)
        ensures
            r == char_at(self.chars@, i as int),
    {
        if i < self.chars.len() {
            Some(self.chars[i])
        } else {
            None
        }
    }

    fn advance(&mut self)
        requires
            old(self).wf(),
            old(self).index <= old(self).chars@.len() + 1,
        ensures
            final(self).wf(),
            final(self).index == old(self).index + 1,
            final(self).chars@ == old(self).chars@,
            final(self).source_code == old(self).source_code,
    {
        proof {
            lemma_pos_at_bounds(self.chars@, self.index as nat);
        }
        if let Some('\n') = self.current_char {
            self.pos = Pos { row: self.pos.row + 1, col: 1 };
        } else {
            self.pos = Pos { col: self.pos.col + 1, row: self.pos.row };
        }
        self.index += 1;
        self.current_char = self.char_at_index(self.index);
    }

    fn trim_whitespace(&mut self)
        requires
            old(self).wf(),
            old(self).index <= old(self).chars@.len() + 1,
        ensures
            final(self).wf(),
            final(self).index == ws_end(old(self).chars@, old(self).index as int),
            final(self).chars@ == old(self).chars@,
            final(self).source_code == old(self).source_code,
    {
        let ghost s = self.chars@;
        let ghost goal = ws_end(s, self.index as int);
        loop
            invariant
                self.wf(),
                self.chars@ == s,
                self.source_code == old(self).source_code,
                self.index <= s.len() + 1,
                ws_end(s, self.index as int) == goal,
            ensures
                self.wf(),
                self.chars@ == s,
                self.source_code == old(self).source_code,
                self.index == goal,
            decreases s.len() + 2 - self.index,
        {
            let c = match self.current_char {
                Some(c) => c,
                None => {
                    break;
                },
            };
            if !is_whitespace(c) {
                break;
            }
            self.advance();
        }
    }

    fn comment(&mut self)
        requires
            old(self).wf(),
            old(self).index <= old(self).chars@.len() + 1,
        ensures
            final(self).wf(),
            final(self).index == comment_end(old(self).chars@, old(self).index as int),
            final(self).chars@ == old(self).chars@,
            final(self).source_code == old(self).source_code,
    {
        let ghost s = self.chars@;
        let ghost goal = comment_end(s, self.index as int);
        loop
            invariant_except_break
                comment_end(s, self.index as int) == goal,
            invariant
                self.wf(),
                self.chars@ == s,
                self.source_code == old(self).source_code,
                self.index <= s.len() + 1,
            ensures
                self.index == goal,
            decreases s.len() + 2 - self.index,
        {
            let c = match self.current_char {
                Some(c) => c,
                None => {
                    break;
                },
            };
            if c == '}' {
                self.advance();
                break;
            }
            self.advance();
        }
    }

    fn single_line_comment(&mut self)
        requires
            old(self).wf(),
            old(self).index <= old(self).chars@.len(),
        ensures
            final(self).wf(),
            final(self).index == line_stop(old(self).chars@, old(self).index as int) + 1,
            final(self).chars@ == old(self).chars@,
            final(self).source_code == old(self).source_code,
    {
        let ghost s = self.chars@;
        let ghost goal = line_stop(s, self.index as int);
        loop
            invariant
                self.wf(),
                self.chars@ == s,
                self.source_code == old(self).source_code,
                self.index <= s.len(),
                line_stop(s, self.index as int) == goal,
            ensures
                self.index == goal,
            decreases s.len() + 2 - self.index,
        {
            let c = match self.current_char {
                Some(c) => c,
                None => {
                    break;
                },
            };
            if c == '\n' {
                break;
            }
            self.advance();
        }
        self.advance();
    }

    /// The character after the current one.
    pub fn peek(&self) -> (r: Option<char>)
        requires
            self.wf(),
        ensures
            r == char_at(self.text(), self.spec_index() + 1),
    {
        self.char_at_index(self.index + 1)
    }

    fn previous_index(&self) -> (r: u32)
        requires
            self.wf(),
            self.index >= 1,
        ensures
            r == self.index - 1,
    {
        (self.index - 1) as u32
    }

    /// Moves past whitespace and comments to where the next token starts.
    fn skip_trivia(&mut self)
        requires
            old(self).wf(),
            old(self).index <= old(self).chars@.len() + 1,
        ensures
            final(self).wf(),
            final(self).index == token_start(old(self).chars@, old(self).index as int),
            final(self).chars@ == old(self).chars@,
            final(self).source_code == old(self).source_code,
    {
        let ghost s = self.chars@;
        let ghost goal = token_start(s, self.index as int);
        proof {
            lemma_ws_end(s, self.index as int);
            lemma_ws_end_idem(s, self.index as int);
        }
        self.trim_whitespace();
        loop
            invariant
                self.wf(),
                self.chars@ == s,
                self.source_code == old(self).source_code,
                self.index <= s.len() + 1,
                self.index == ws_end(s, self.index as int),
                trivia_end(s, self.index as int) == goal,
            ensures
                self.index == goal,
            decreases s.len() + 2 - self.index,
        {
            let cur = self.current_char;
            let nxt = self.peek();
            if cur == Some('{') && nxt.is_some() {
                proof {
                    lemma_comment_end(s, self.index as int);
                    lemma_ws_end(s, comment_end(s, self.index as int));
                    lemma_ws_end_idem(s, comment_end(s, self.index as int));
                }
                self.comment();
            } else if cur == Some('\\') && nxt == Some('\\') {
                proof {
                    lemma_line_stop(s, self.index as int);
                    lemma_ws_end(s, line_stop(s, self.index as int) + 1);
                    lemma_ws_end_idem(s, line_stop(s, self.index as int) + 1);
                }
                self.single_line_comment();
            } else {
                break;
            }
            self.trim_whitespace();
        }
    }

    /// A token reported at the current position moved `len` columns left.
    fn token_here(&self, token_type: TokenType, start: u32, len: u32) -> (r: Token)
        requires
            self.wf(),
            self.pos.col >= len,
        ensures
            r.spec_token_type() == token_type,
            r.spec_span().spec_start() == start,
            r.spec_span().spec_len() == len,
            r.spec_pos().row == self.pos.row,
            r.spec_pos().col == self.pos.col - len,
    {
        Token::new(token_type, start, len, self.pos.shift(len))
    }

    /// A token reported at the current position moved `len` columns left,
    /// where the current column is at least `len`.
    fn try_token_here(&self, token_type: TokenType, start: u32, len: u32) -> (r: Option<Token>)
        requires
            self.wf(),
        ensures
            r is Some <==> self.pos.col >= len,
            r matches Some(t) ==> {
                &&& t.spec_token_type() == token_type
                &&& t.spec_span().spec_start() == start
                &&& t.spec_span().spec_len() == len
                &&& t.spec_pos().row == self.pos.row
                &&& t.spec_pos().col == self.pos.col - len
            },
    {
        if self.pos.col >= len {
            Some(self.token_here(token_type, start, len))
        } else {
            None
        }
    }

    /// A token reported at the current position moved `back` columns left,
    /// where the current column is at least `back`.
    fn try_token_back(&self, token_type: TokenType, start: u32, len: u32, back: u32) -> (r: Option<Token>)
        requires
            self.wf(),
        ensures
            r is Some <==> self.pos.col >= back,
            r matches Some(t) ==> {
                &&& t.spec_token_type() == token_type
                &&& t.spec_span().spec_start() == start
                &&& t.spec_span().spec_len() == len
                &&& t.spec_pos().row == self.pos.row
                &&& t.spec_pos().col == self.pos.col - back
            },
    {
        if self.pos.col >= back {
            Some(Token::new(token_type, start, len, self.pos.shift(back)))
        } else {
            None
        }
    }

    /// Reads the next token.
    pub fn next(&mut self) -> (r: Result<Token, Error>)
        requires
            old(self).wf(),
            old(self).spec_index() <= old(self).text().len() + 1,
            !(spec_next(old(self).text(), old(self).spec_index()) is Panic),
        ensures
            final(self).wf(),
            final(self).text() == old(self).text(),
            final(self).spec_source() == old(self).spec_source(),
            lexed(
                old(self).text(),
                spec_next(old(self).text(), old(self).spec_index()),
                r,
                final(self).spec_index(),
            ),
    {
        match self.next_step() {
            Some(r) => r,
            None => Err(Error::LexerError {
                msg: String::new(),
                pos: self.pos,
                error_code: ErrorCode::UnknownCharacter,
            }),
        }
    }

    /// Reads the next token, or reports `None` where reading it faults (an
    /// arithmetic or slicing fault).
    pub fn next_step(&mut self) -> (r: Option<Result<Token, Error>>)
        requires
            old(self).wf(),
            old(self).spec_index() <= old(self).text().len() + 1,
        ensures
            final(self).wf(),
            final(self).text() == old(self).text(),
            final(self).spec_source() == old(self).spec_source(),
            r is None <==> spec_next(old(self).text(), old(self).spec_index()) is Panic,
            r matches Some(x) ==> lexed(
                old(self).text(),
                spec_next(old(self).text(), old(self).spec_index()),
                x,
                final(self).spec_index(),
            ),
    {
        let ghost s = self.chars@;
        let ghost i0 = self.index as int;
        proof {
            lemma_ws_end(s, i0);
            lemma_trivia_end(s, ws_end(s, i0));
        }
        self.skip_trivia();
        let ghost j = self.index as int;
        proof {
            lemma_pos_at_bounds(s, j as nat);
            lemma_pos_at_bounds(s, (j + 1) as nat);
            lemma_pos_at_bounds(s, (j + 2) as nat);
        }
        match self.current_char {
            None => {
                if self.index == 0 {
                    return None;
                }
                let start = self.previous_index();
                Some(Ok(self.token_here(TokenType::EOF, start, 0)))
            },
            Some(c) => {
                let ct = lookup_char_token(&self.char_tokens, c);
                if let Some(token) = ct {
                    self.advance();
                    let start = self.previous_index();
                    return Some(Ok(Token::new(token, start, 1, self.pos)));
                }
                if c == '>' {
                    self.advance();
                    if self.current_char == Some('=') {
                        self.advance();
                        let start = self.previous_index() - 1;
                        match self.try_token_here(TokenType::GreaterEqual, start, 2) {
                            Some(t) => Some(Ok(t)),
                            None => None,
                        }
                    } else {
                        let start = self.previous_index();
                        match self.try_token_here(TokenType::GreaterThen, start, 1) {
                            Some(t) => Some(Ok(t)),
                            None => None,
                        }
                    }
                } else if c == '<' {
                    self.advance();
                    if self.current_char == Some('=') {
                        self.advance();
                        let start = self.previous_index() - 1;
                        match self.try_token_here(TokenType::LessEqual, start, 2) {
                            Some(t) => Some(Ok(t)),
                            None => None,
                        }
                    } else if self.current_char == Some('>') {
                        self.advance();
                        let start = self.previous_index() - 1;
                        match self.try_token_here(TokenType::NotEqual, start, 2) {
                            Some(t) => Some(Ok(t)),
                            None => None,
                        }
                    } else {
                        let start = self.previous_index();
                        match self.try_token_here(TokenType::LessThen, start, 1) {
                            Some(t) => Some(Ok(t)),
                            None => None,
                        }
                    }
                } else if c == ':' {
                    self.advance();
                    if self.current_char == Some('=') {
                        self.advance();
                        let start = self.previous_index() - 1;
                        match self.try_token_here(TokenType::Assign, start, 2) {
                            Some(t) => Some(Ok(t)),
                            None => None,
                        }
                    } else {
                        let start = self.previous_index();
                        match self.try_token_here(TokenType::Colon, start, 1) {
                            Some(t) => Some(Ok(t)),
                            None => None,
                        }
                    }
                } else if c == '-' {
                    let nxt = self.peek();
                    let digit_follows = match nxt {
                        Some(x) => is_ascii_digit(x),
                        None => false,
                    };
                    if digit_follows {
                        match self.number() {
                            Some(t) => Some(Ok(t)),
                            None => None,
                        }
                    } else {
                        self.advance();
                        let start = self.previous_index();
                        match self.try_token_here(TokenType::Minus, start, 1) {
                            Some(t) => Some(Ok(t)),
                            None => None,
                        }
                    }
                } else if is_numeric(c) {
                    match self.number() {
                            Some(t) => Some(Ok(t)),
                            None => None,
                        }
                } else if c == '\'' {
                    match self.string() {
                        Some(t) => Some(Ok(t)),
                        None => None,
                    }
                } else if is_alphanumeric(c) || c == '_' {
                    match self.id() {
                        Some(t) => Some(Ok(t)),
                        None => None,
                    }
                } else {
                    let msg = unexpected_character_message(self.current_char);
                    Some(Err(Error::LexerError { msg, pos: self.pos, error_code: ErrorCode::UnknownCharacter }))
                }
            },
        }
    }

    fn id(&mut self) -> (r: Option<Token>)
        requires
            old(self).wf(),
            old(self).index < old(self).chars@.len(),
        ensures
            final(self).wf(),
            final(self).chars@ == old(self).chars@,
            final(self).source_code == old(self).source_code,
            r is None <==> word_step(old(self).chars@, old(self).index as int) is Panic,
            r matches Some(t) ==> emitted(word_step(old(self).chars@, old(self).index as int), t, final(self).index as int),
    {
        let ghost s = self.chars@;
        let current_index = self.index;
        let ghost k = word_end(s, current_index as int);
        proof {
            lemma_word_end(s, current_index as int);
        }
        loop
            invariant
                self.wf(),
                self.chars@ == s,
                self.source_code == old(self).source_code,
                current_index <= self.index <= k,
                k <= s.len(),
                word_end(s, self.index as int) == k,
            ensures
                self.index == k,
            decreases s.len() - self.index,
        {
            let c = match self.current_char {
                Some(c) => c,
                None => {
                    break;
                },
            };
            if !(is_alphanumeric(c) || c == '_') {
                break;
            }
            proof {
                lemma_word_end(s, self.index + 1);
            }
            self.advance();
        }
        let word = self.source_code.substring_char(current_index, self.index);
        let upper = to_uppercase(word);
        let token_type = match lookup_keyword(&self.keywords, &upper) {
            Some(t) => t,
            None => TokenType::Id,
        };
        let len = (self.index - current_index) as u32;
        self.try_token_here(token_type, current_index as u32, len)
    }

    fn number(&mut self) -> (r: Option<Token>)
        requires
            old(self).wf(),
            old(self).index < old(self).chars@.len(),
        ensures
            final(self).wf(),
            final(self).chars@ == old(self).chars@,
            final(self).source_code == old(self).source_code,
            r is None <==> number_step(old(self).chars@, old(self).index as int) is Panic,
            r matches Some(t) ==> emitted(number_step(old(self).chars@, old(self).index as int), t, final(self).index as int),
    {
        let ghost s = self.chars@;
        let current_index = self.index;
        let negative = self.current_char == Some('-');
        if negative {
            self.advance();
        }
        let digits_start = self.index;
        proof {
            lemma_digits_end(s, digits_start as int);
        }
        let mut magnitude: u64 = 0;
        let ghost d = digits_end(s, digits_start as int);
        let ghost sub = s.subrange(digits_start as int, d);
        let ghost mag_full = digits_value(sub);
        let ghost big = mag_full > 0x8000_0000_0000_0000;
        loop
            invariant
                self.wf(),
                self.chars@ == s,
                self.source_code == old(self).source_code,
                digits_start <= self.index <= d,
                d == digits_end(s, digits_start as int),
                d <= s.len(),
                digits_end(s, self.index as int) == d,
                sub == s.subrange(digits_start as int, d),
                mag_full == digits_value(sub),
                big == (mag_full > 0x8000_0000_0000_0000),
                magnitude == clamp_magnitude(digits_value(sub.take(self.index - digits_start))),
            ensures
                self.index == d,
                magnitude == clamp_magnitude(mag_full),
            decreases s.len() - self.index,
        {
            let c = match self.current_char {
                Some(c) => c,
                None => {
                    proof {
                        assert(sub.take(sub.len() as int) =~= sub);
                    }
                    break;
                },
            };
            if !is_ascii_digit(c) {
                proof {
                    assert(sub.take(sub.len() as int) =~= sub);
                }
                break;
            }
            proof {
                lemma_digits_end(s, self.index + 1);
                let k = self.index - digits_start;
                assert(sub.take(k + 1).drop_last() =~= sub.take(k));
                assert(sub[k] == c);
                lemma_digits_value_prefix(sub, k + 1);
            }
            if magnitude <= 0x0ccc_cccc_cccc_cccc {
                let digit = (c as u32 - '0' as u32) as u64;
                magnitude = magnitude * 10 + digit;
            } else {
                magnitude = 0x8000_0000_0000_0001;
            }
            self.advance();
        }
        let at_dot = self.current_char == Some('.');
        let nxt = self.peek();
        let digit_follows = match nxt {
            Some(x) => is_ascii_digit(x),
            None => false,
        };
        if !(at_dot && digit_follows) {
            if self.index == digits_start {
                return None;
            }
            if negative {
                if magnitude > 0x8000_0000_0000_0000 {
                    return None;
                }
            } else if magnitude > 0x7fff_ffff_ffff_ffff {
                return None;
            }
            let len = (self.index - current_index) as u32;
            let value: i64 = if negative {
                if magnitude == 0x8000_0000_0000_0000 {
                    i64::MIN
                } else {
                    -(magnitude as i64)
                }
            } else {
                magnitude as i64
            };
            let token_type = if value > i32::MAX as i64 || value < i32::MIN as i64 {
                TokenType::Int64Const(value)
            } else {
                TokenType::IntegerConst(value as i32)
            };
            return self.try_token_here(token_type, current_index as u32, len);
        }
        self.advance();
        let ghost e = digits_end(s, d + 1);
        proof {
            lemma_digits_end(s, d + 1);
        }
        loop
            invariant
                self.wf(),
                self.chars@ == s,
                self.source_code == old(self).source_code,
                d + 1 <= self.index <= e,
                e <= s.len(),
                digits_end(s, self.index as int) == e,
            ensures
                self.index == e,
            decreases s.len() - self.index,
        {
            let c = match self.current_char {
                Some(c) => c,
                None => {
                    break;
                },
            };
            if !is_ascii_digit(c) {
                break;
            }
            proof {
                lemma_digits_end(s, self.index + 1);
            }
            self.advance();
        }
        let len = (self.index - current_index) as u32;
        self.try_token_here(TokenType::RealConst, current_index as u32, len)
    }

    fn string(&mut self) -> (r: Option<Token>)
        requires
            old(self).wf(),
            old(self).index < old(self).chars@.len(),
        ensures
            final(self).wf(),
            final(self).chars@ == old(self).chars@,
            final(self).source_code == old(self).source_code,
            r is None <==> string_step(old(self).chars@, old(self).index as int) is Panic,
            r matches Some(t) ==> emitted(string_step(old(self).chars@, old(self).index as int), t, final(self).index as int),
    {
        let ghost s = self.chars@;
        self.advance();
        let current_index = self.index;
        let ghost k = string_stop(s, current_index as int);
        proof {
            lemma_string_stop(s, current_index as int);
        }
        loop
            invariant
                self.wf(),
                self.chars@ == s,
                self.source_code == old(self).source_code,
                current_index <= self.index <= k,
                k <= s.len(),
                string_stop(s, self.index as int) == k,
            ensures
                self.index == k,
            decreases s.len() - self.index,
        {
            let c = self.current_char;
            let nc = self.peek();
            match (c, nc) {
                (Some(c), Some(nc)) => {
                    if nc == '\'' && c != '\\' {
                        break;
                    }
                },
                _ => {
                    break;
                },
            }
            proof {
                lemma_string_stop(s, self.index + 1);
            }
            self.advance();
        }
        self.advance();
        let end_index = self.index;
        self.advance();
        if end_index - current_index == 1 {
            return match self.char_at_index(current_index) {
                Some(c) => self.try_token_back(TokenType::CharConst(c), current_index as u32, 1, 2),
                None => None,
            };
        }
        let len = (end_index - current_index) as u32;
        self.try_token_back(TokenType::StringConst, current_index as u32, len, len + 1)
    }

    /// The current character.
    pub fn current_char(&self) -> (r: Option<char>)
        requires
            self.wf(),
        ensures
            r == char_at(self.text(), self.spec_index()),
    {
        self.current_char
    }

    pub fn source_code(&self) -> (r: &'a str)
        ensures
            r == self.spec_source(),
    {
        self.source_code
    }
}

/// `t` is the token that `step` describes and `next` the index it goes on from.
pub open spec fn emitted(step: LexStep, t: Token, next: int) -> bool {
    match step {
        LexStep::Emit { token_type, start, len, row, col, next: n } => {
            &&& t.spec_token_type() == token_type
            &&& t.spec_span().spec_start() == start
            &&& t.spec_span().spec_len() == len
            &&& t.spec_pos().row == row
            &&& t.spec_pos().col == col
            &&& next == n
        },
        _ => false,
    }
}

/// `r` is what reading a token gives when the step is `step`, and `next` is
/// where the lexer stands after it.
pub open spec fn lexed(s: Seq<char>, step: LexStep, r: Result<Token, Error>, next: int) -> bool {
    match step {
        LexStep::Emit { .. } => r matches Ok(t) && emitted(step, t, next),
        LexStep::Fail { row, col, at } => {
            &&& r matches Err(Error::LexerError { msg, pos, error_code }) && {
                &&& pos.row == row
                &&& pos.col == col
                &&& error_code == ErrorCode::UnknownCharacter
                &&& msg@ == unexpected_character_text(char_at(s, at))
            }
            &&& next == at
        },
        LexStep::Panic => false,
    }
}

} // verus!
