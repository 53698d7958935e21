use vstd::prelude::*;
use crate::number::{Number, is_digit, digits_value, decimal_value};
use crate::value::{Value, Val, chars_of, string_of};

verus! {

/// The kinds of token.
#[allow(non_camel_case_types)]
#[derive(Clone, Copy, Debug, PartialEq, Eq, Structural)]
pub enum TokenType {
    // Single-character tokens.
    LEFT_PAREN,
    RIGHT_PAREN,
    LEFT_BRACE,
    RIGHT_BRACE,
    COMMA,
    DOT,
    MINUS,
    PLUS,
    SEMICOLON,
    SLASH,
    STAR,
    // One or two character tokens.
    BANG,
    BANG_EQUAL,
    EQUAL,
    EQUAL_EQUAL,
    GREATER,
    GREATER_EQUAL,
    LESS,
    LESS_EQUAL,
    // Literals.
    IDENTIFIER,
    STRING,
    NUMBER,
    // Keywords.
    AND,
    CLASS,
    ELSE,
    FALSE,
    FUN,
    FOR,
    IF,
    NIL,
    OR,
    PRINT,
    RETURN,
    SUPER,
    THIS,
    TRUE,
    VAR,
    WHILE,
    EOF,
}

/// A token: its kind, the source text it was read from, the value it carries
/// (numbers, strings, `true`, `false`, `nil`), and its line.
#[derive(Clone, Debug)]
pub struct Token {
    pub token_type: TokenType,
    pub lexeme: String,
    pub literal: Option<Value>,
    pub line: usize,
}

/// The mathematical model of a [`Token`].
pub struct TokenModel {
    pub token_type: TokenType,
    pub lexeme: Seq<char>,
    pub literal: Option<Val>,
    pub line: nat,
}

pub open spec fn opt_view(v: Option<Value>) -> Option<Val> {
    match v {
        Some(x) => Some(x@),
        None => None,
    }
}

impl View for Token {
    type V = TokenModel;

    open spec fn view(&self) -> TokenModel {
        TokenModel {
            token_type: self.token_type,
            lexeme: self.lexeme@,
            literal: opt_view(self.literal),
            line: self.line as nat,
        }
    }
}

impl Token {
    pub fn new(token_type: TokenType, lexeme: String, literal: Option<Value>, line: usize) -> (r: Token)
        ensures
            r == (Token { token_type, lexeme, literal, line }),
    {
        Token { token_type, lexeme, literal, line }
    }

    /// A copy of this token.
    pub fn duplicate(&self) -> (r: Token)
        ensures
            r == *self,
    {
        let literal = match &self.literal {
            Some(v) => Some(v.duplicate()),
            None => None,
        };
        Token {
            token_type: self.token_type,
            lexeme: self.lexeme.clone(),
            literal,
            line: self.line,
        }
    }

    /// A one-line description: kind, lexeme and the value carried, if any.
    pub fn describe(&self) -> (r: String)
        ensures
            r@ == token_description(self@),
    {
        let mut out = kind_name(self.token_type);
        out.push(' ');
        crate::value::push_str_chars(&self.lexeme, &mut out);
        if let Some(v) = &self.literal {
            out.push(' ');
            v.push_text(&mut out);
        }
        let r = string_of(&out, 0, out.len());
        assert(out@.subrange(0, out@.len() as int) =~= out@);
        r
    }
}

/// A lexical error: what went wrong.
#[derive(Clone, Copy, Debug, PartialEq, Eq, Structural)]
pub enum LexErrorKind {
    /// A character that starts no token.
    UnexpectedCharacter(char),
    /// A string literal that is still open at the end of the source.
    UnterminatedString,
    /// A number literal whose value the number model cannot hold: beyond
    /// the `i64` range, or reduced to a fraction whose parts do not fit in
    /// `i64`, or with 38 or more significant digits, or more than 38
    /// fraction digits (see `decimal_value`).
    NumberOutOfRange,
}

/// A lexical error and the line it was found on.
#[derive(Clone, Copy, Debug, PartialEq, Eq, Structural)]
pub struct LexError {
    pub kind: LexErrorKind,
    pub line: usize,
}

pub open spec fn is_alpha(c: char) -> bool {
    ('a' <= c <= 'z') || ('A' <= c <= 'Z') || c == '_'
}

pub open spec fn is_alnum(c: char) -> bool {
    is_alpha(c) || is_digit(c)
}

/// The end of the run of digits that starts at `i`.
pub open spec fn digits_end(src: Seq<char>, i: int) -> int
    decreases src.len() - i,
{
    if 0 <= i < src.len() && is_digit(src[i]) {
        digits_end(src, i + 1)
    } else {
        i
    }
}

/// The end of the run of identifier characters that starts at `i`.
pub open spec fn ident_end(src: Seq<char>, i: int) -> int
    decreases src.len() - i,
{
    if 0 <= i < src.len() && is_alnum(src[i]) {
        ident_end(src, i + 1)
    } else {
        i
    }
}

/// The first position at or after `i` that holds `c`, or the source's length.
pub open spec fn find_char(src: Seq<char>, i: int, c: char) -> int
    decreases src.len() - i,
{
    if 0 <= i < src.len() && src[i] != c {
        find_char(src, i + 1, c)
    } else if i < 0 {
        i
    } else if i > src.len() {
        src.len() as int
    } else {
        i
    }
}

/// The number of line breaks in `src[a..b]`.
pub open spec fn newlines(src: Seq<char>, a: int, b: int) -> nat
    decreases b - a,
{
    if b <= a {
        0
    } else {
        newlines(src, a, b - 1) + if src[b - 1] == '\n' { 1nat } else { 0nat }
    }
}

/// The token kind of a character that is a token on its own.
pub open spec fn single_kind(c: char) -> Option<TokenType> {
    if c == '(' {
        Some(TokenType::LEFT_PAREN)
    } else if c == ')' {
        Some(TokenType::RIGHT_PAREN)
    } else if c == '{' {
        Some(TokenType::LEFT_BRACE)
    } else if c == '}' {
        Some(TokenType::RIGHT_BRACE)
    } else if c == ',' {
        Some(TokenType::COMMA)
    } else if c == '.' {
        Some(TokenType::DOT)
    } else if c == '-' {
        Some(TokenType::MINUS)
    } else if c == '+' {
        Some(TokenType::PLUS)
    } else if c == ';' {
        Some(TokenType::SEMICOLON)
    } else if c == '*' {
        Some(TokenType::STAR)
    } else {
        None
    }
}

/// For `!`, `=`, `<` and `>`: the kind alone, and the kind when `=` follows.
pub open spec fn pair_kinds(c: char) -> Option<(TokenType, TokenType)> {
    if c == '!' {
        Some((TokenType::BANG, TokenType::BANG_EQUAL))
    } else if c == '=' {
        Some((TokenType::EQUAL, TokenType::EQUAL_EQUAL))
    } else if c == '<' {
        Some((TokenType::LESS, TokenType::LESS_EQUAL))
    } else if c == '>' {
        Some((TokenType::GREATER, TokenType::GREATER_EQUAL))
    } else {
        None
    }
}

pub open spec fn keyword(w: Seq<char>) -> Option<TokenType> {
    if w.len() == 3 && w[0] == 'a' && w[1] == 'n' && w[2] == 'd' {
        Some(TokenType::AND)
    } else if w.len() == 5 && w[0] == 'c' && w[1] == 'l' && w[2] == 'a' && w[3] == 's' && w[4] == 's' {
        Some(TokenType::CLASS)
    } else if w.len() == 4 && w[0] == 'e' && w[1] == 'l' && w[2] == 's' && w[3] == 'e' {
        Some(TokenType::ELSE)
    } else if w.len() == 5 && w[0] == 'f' && w[1] == 'a' && w[2] == 'l' && w[3] == 's' && w[4] == 'e' {
        Some(TokenType::FALSE)
    } else if w.len() == 3 && w[0] == 'f' && w[1] == 'u' && w[2] == 'n' {
        Some(TokenType::FUN)
    } else if w.len() == 3 && w[0] == 'f' && w[1] == 'o' && w[2] == 'r' {
        Some(TokenType::FOR)
    } else if w.len() == 2 && w[0] == 'i' && w[1] == 'f' {
        Some(TokenType::IF)
    } else if w.len() == 3 && w[0] == 'n' && w[1] == 'i' && w[2] == 'l' {
        Some(TokenType::NIL)
    } else if w.len() == 2 && w[0] == 'o' && w[1] == 'r' {
        Some(TokenType::OR)
    } else if w.len() == 5 && w[0] == 'p' && w[1] == 'r' && w[2] == 'i' && w[3] == 'n' && w[4] == 't' {
        Some(TokenType::PRINT)
    } else if w.len() == 6 && w[0] == 'r' && w[1] == 'e' && w[2] == 't' && w[3] == 'u' && w[4] == 'r' && w[5] == 'n' {
        Some(TokenType::RETURN)
    } else if w.len() == 5 && w[0] == 's' && w[1] == 'u' && w[2] == 'p' && w[3] == 'e' && w[4] == 'r' {
        Some(TokenType::SUPER)
    } else if w.len() == 4 && w[0] == 't' && w[1] == 'h' && w[2] == 'i' && w[3] == 's' {
        Some(TokenType::THIS)
    } else if w.len() == 4 && w[0] == 't' && w[1] == 'r' && w[2] == 'u' && w[3] == 'e' {
        Some(TokenType::TRUE)
    } else if w.len() == 3 && w[0] == 'v' && w[1] == 'a' && w[2] == 'r' {
        Some(TokenType::VAR)
    } else if w.len() == 5 && w[0] == 'w' && w[1] == 'h' && w[2] == 'i' && w[3] == 'l' && w[4] == 'e' {
        Some(TokenType::WHILE)
    } else {
        None
    }
}

fn keyword_of(cs: &Vec<char>, a: usize, b: usize) -> (r: Option<TokenType>)
    requires
        a <= b <= cs@.len(),
    ensures
        r == keyword(cs@.subrange(a as int, b as int)),
{
    let n: usize = b - a;
    if n == 3 && cs[a] == 'a' && cs[a + 1] == 'n' && cs[a + 2] == 'd' {
        Some(TokenType::AND)
    } else if n == 5 && cs[a] == 'c' && cs[a + 1] == 'l' && cs[a + 2] == 'a' && cs[a + 3] == 's' && cs[a + 4] == 's' {
        Some(TokenType::CLASS)
    } else if n == 4 && cs[a] == 'e' && cs[a + 1] == 'l' && cs[a + 2] == 's' && cs[a + 3] == 'e' {
        Some(TokenType::ELSE)
    } else if n == 5 && cs[a] == 'f' && cs[a + 1] == 'a' && cs[a + 2] == 'l' && cs[a + 3] == 's' && cs[a + 4] == 'e' {
        Some(TokenType::FALSE)
    } else if n == 3 && cs[a] == 'f' && cs[a + 1] == 'u' && cs[a + 2] == 'n' {
        Some(TokenType::FUN)
    } else if n == 3 && cs[a] == 'f' && cs[a + 1] == 'o' && cs[a + 2] == 'r' {
        Some(TokenType::FOR)
    } else if n == 2 && cs[a] == 'i' && cs[a + 1] == 'f' {
        Some(TokenType::IF)
    } else if n == 3 && cs[a] == 'n' && cs[a + 1] == 'i' && cs[a + 2] == 'l' {
        Some(TokenType::NIL)
    } else if n == 2 && cs[a] == 'o' && cs[a + 1] == 'r' {
        Some(TokenType::OR)
    } else if n == 5 && cs[a] == 'p' && cs[a + 1] == 'r' && cs[a + 2] == 'i' && cs[a + 3] == 'n' && cs[a + 4] == 't' {
        Some(TokenType::PRINT)
    } else if n == 6 && cs[a] == 'r' && cs[a + 1] == 'e' && cs[a + 2] == 't' && cs[a + 3] == 'u' && cs[a + 4] == 'r' && cs[a + 5] == 'n' {
        Some(TokenType::RETURN)
    } else if n == 5 && cs[a] == 's' && cs[a + 1] == 'u' && cs[a + 2] == 'p' && cs[a + 3] == 'e' && cs[a + 4] == 'r' {
        Some(TokenType::SUPER)
    } else if n == 4 && cs[a] == 't' && cs[a + 1] == 'h' && cs[a + 2] == 'i' && cs[a + 3] == 's' {
        Some(TokenType::THIS)
    } else if n == 4 && cs[a] == 't' && cs[a + 1] == 'r' && cs[a + 2] == 'u' && cs[a + 3] == 'e' {
        Some(TokenType::TRUE)
    } else if n == 3 && cs[a] == 'v' && cs[a + 1] == 'a' && cs[a + 2] == 'r' {
        Some(TokenType::VAR)
    } else if n == 5 && cs[a] == 'w' && cs[a + 1] == 'h' && cs[a + 2] == 'i' && cs[a + 3] == 'l' && cs[a + 4] == 'e' {
        Some(TokenType::WHILE)
    } else {
        None
    }
}

/// The name of a token kind.
pub open spec fn kind_text(k: TokenType) -> Seq<char> {
    match k {
        TokenType::LEFT_PAREN => seq!['L', 'E', 'F', 'T', '_', 'P', 'A', 'R', 'E', 'N'],
        TokenType::RIGHT_PAREN => seq!['R', 'I', 'G', 'H', 'T', '_', 'P', 'A', 'R', 'E', 'N'],
        TokenType::LEFT_BRACE => seq!['L', 'E', 'F', 'T', '_', 'B', 'R', 'A', 'C', 'E'],
        TokenType::RIGHT_BRACE => seq!['R', 'I', 'G', 'H', 'T', '_', 'B', 'R', 'A', 'C', 'E'],
        TokenType::COMMA => seq!['C', 'O', 'M', 'M', 'A'],
        TokenType::DOT => seq!['D', 'O', 'T'],
        TokenType::MINUS => seq!['M', 'I', 'N', 'U', 'S'],
        TokenType::PLUS => seq!['P', 'L', 'U', 'S'],
        TokenType::SEMICOLON => seq!['S', 'E', 'M', 'I', 'C', 'O', 'L', 'O', 'N'],
        TokenType::SLASH => seq!['S', 'L', 'A', 'S', 'H'],
        TokenType::STAR => seq!['S', 'T', 'A', 'R'],
        TokenType::BANG => seq!['B', 'A', 'N', 'G'],
        TokenType::BANG_EQUAL => seq!['B', 'A', 'N', 'G', '_', 'E', 'Q', 'U', 'A', 'L'],
        TokenType::EQUAL => seq!['E', 'Q', 'U', 'A', 'L'],
        TokenType::EQUAL_EQUAL => seq!['E', 'Q', 'U', 'A', 'L', '_', 'E', 'Q', 'U', 'A', 'L'],
        TokenType::GREATER => seq!['G', 'R', 'E', 'A', 'T', 'E', 'R'],
        TokenType::GREATER_EQUAL => seq!['G', 'R', 'E', 'A', 'T', 'E', 'R', '_', 'E', 'Q', 'U', 'A', 'L'],
        TokenType::LESS => seq!['L', 'E', 'S', 'S'],
        TokenType::LESS_EQUAL => seq!['L', 'E', 'S', 'S', '_', 'E', 'Q', 'U', 'A', 'L'],
        TokenType::IDENTIFIER => seq!['I', 'D', 'E', 'N', 'T', 'I', 'F', 'I', 'E', 'R'],
        TokenType::STRING => seq!['S', 'T', 'R', 'I', 'N', 'G'],
        TokenType::NUMBER => seq!['N', 'U', 'M', 'B', 'E', 'R'],
        TokenType::AND => seq!['A', 'N', 'D'],
        TokenType::CLASS => seq!['C', 'L', 'A', 'S', 'S'],
        TokenType::ELSE => seq!['E', 'L', 'S', 'E'],
        TokenType::FALSE => seq!['F', 'A', 'L', 'S', 'E'],
        TokenType::FUN => seq!['F', 'U', 'N'],
        TokenType::FOR => seq!['F', 'O', 'R'],
        TokenType::IF => seq!['I', 'F'],
        TokenType::NIL => seq!['N', 'I', 'L'],
        TokenType::OR => seq!['O', 'R'],
        TokenType::PRINT => seq!['P', 'R', 'I', 'N', 'T'],
        TokenType::RETURN => seq!['R', 'E', 'T', 'U', 'R', 'N'],
        TokenType::SUPER => seq!['S', 'U', 'P', 'E', 'R'],
        TokenType::THIS => seq!['T', 'H', 'I', 'S'],
        TokenType::TRUE => seq!['T', 'R', 'U', 'E'],
        TokenType::VAR => seq!['V', 'A', 'R'],
        TokenType::WHILE => seq!['W', 'H', 'I', 'L', 'E'],
        TokenType::EOF => seq!['E', 'O', 'F'],
    }
}

/// A one-line description of a token: kind, lexeme and the value carried, if any.
pub open spec fn token_description(t: TokenModel) -> Seq<char> {
    let head = kind_text(t.token_type) + seq![' '] + t.lexeme;
    match t.literal {
        Some(v) => head + seq![' '] + crate::value::value_text(v),
        None => head,
    }
}

fn kind_name(k: TokenType) -> (r: Vec<char>)
    ensures
        r@ == kind_text(k),
{
    let r = match k {
        TokenType::LEFT_PAREN => vec!['L', 'E', 'F', 'T', '_', 'P', 'A', 'R', 'E', 'N'],
        TokenType::RIGHT_PAREN => vec!['R', 'I', 'G', 'H', 'T', '_', 'P', 'A', 'R', 'E', 'N'],
        TokenType::LEFT_BRACE => vec!['L', 'E', 'F', 'T', '_', 'B', 'R', 'A', 'C', 'E'],
        TokenType::RIGHT_BRACE => vec!['R', 'I', 'G', 'H', 'T', '_', 'B', 'R', 'A', 'C', 'E'],
        TokenType::COMMA => vec!['C', 'O', 'M', 'M', 'A'],
        TokenType::DOT => vec!['D', 'O', 'T'],
        TokenType::MINUS => vec!['M', 'I', 'N', 'U', 'S'],
        TokenType::PLUS => vec!['P', 'L', 'U', 'S'],
        TokenType::SEMICOLON => vec!['S', 'E', 'M', 'I', 'C', 'O', 'L', 'O', 'N'],
        TokenType::SLASH => vec!['S', 'L', 'A', 'S', 'H'],
        TokenType::STAR => vec!['S', 'T', 'A', 'R'],
        TokenType::BANG => vec!['B', 'A', 'N', 'G'],
        TokenType::BANG_EQUAL => vec!['B', 'A', 'N', 'G', '_', 'E', 'Q', 'U', 'A', 'L'],
        TokenType::EQUAL => vec!['E', 'Q', 'U', 'A', 'L'],
        TokenType::EQUAL_EQUAL => vec!['E', 'Q', 'U', 'A', 'L', '_', 'E', 'Q', 'U', 'A', 'L'],
        TokenType::GREATER => vec!['G', 'R', 'E', 'A', 'T', 'E', 'R'],
        TokenType::GREATER_EQUAL => vec!['G', 'R', 'E', 'A', 'T', 'E', 'R', '_', 'E', 'Q', 'U', 'A', 'L'],
        TokenType::LESS => vec!['L', 'E', 'S', 'S'],
        TokenType::LESS_EQUAL => vec!['L', 'E', 'S', 'S', '_', 'E', 'Q', 'U', 'A', 'L'],
        TokenType::IDENTIFIER => vec!['I', 'D', 'E', 'N', 'T', 'I', 'F', 'I', 'E', 'R'],
        TokenType::STRING => vec!['S', 'T', 'R', 'I', 'N', 'G'],
        TokenType::NUMBER => vec!['N', 'U', 'M', 'B', 'E', 'R'],
        TokenType::AND => vec!['A', 'N', 'D'],
        TokenType::CLASS => vec!['C', 'L', 'A', 'S', 'S'],
        TokenType::ELSE => vec!['E', 'L', 'S', 'E'],
        TokenType::FALSE => vec!['F', 'A', 'L', 'S', 'E'],
        TokenType::FUN => vec!['F', 'U', 'N'],
        TokenType::FOR => vec!['F', 'O', 'R'],
        TokenType::IF => vec!['I', 'F'],
        TokenType::NIL => vec!['N', 'I', 'L'],
        TokenType::OR => vec!['O', 'R'],
        TokenType::PRINT => vec!['P', 'R', 'I', 'N', 'T'],
        TokenType::RETURN => vec!['R', 'E', 'T', 'U', 'R', 'N'],
        TokenType::SUPER => vec!['S', 'U', 'P', 'E', 'R'],
        TokenType::THIS => vec!['T', 'H', 'I', 'S'],
        TokenType::TRUE => vec!['T', 'R', 'U', 'E'],
        TokenType::VAR => vec!['V', 'A', 'R'],
        TokenType::WHILE => vec!['W', 'H', 'I', 'L', 'E'],
        TokenType::EOF => vec!['E', 'O', 'F'],
    };
    assert(r@ =~= kind_text(k));
    r
}

pub open spec fn tok(k: TokenType, lexeme: Seq<char>, literal: Option<Val>, line: nat) -> TokenModel {
    TokenModel { token_type: k, lexeme, literal, line }
}

/// The value that the keywords `true`, `false` and `nil` carry.
pub open spec fn keyword_literal(k: TokenType) -> Option<Val> {
    match k {
        TokenType::TRUE => Some(Val::Boolean(true)),
        TokenType::FALSE => Some(Val::Boolean(false)),
        TokenType::NIL => Some(Val::Nil),
        _ => None,
    }
}

/// A number literal at `i`: where it ends, its digits, and how many of them
/// follow the decimal point.
pub open spec fn number_at(src: Seq<char>, i: int) -> (int, Seq<char>, nat) {
    let j = digits_end(src, i);
    if j + 1 < src.len() && src[j] == '.' && is_digit(src[j + 1]) {
        let k = digits_end(src, j + 1);
        (k, src.subrange(i, j) + src.subrange(j + 1, k), (k - j - 1) as nat)
    } else {
        (j, src.subrange(i, j), 0)
    }
}


/// What the scanner does at one position: where it goes on, the line it is
/// then on, and the token or error it emits, if any.
pub struct Step {
    pub next: int,
    pub line: nat,
    pub token: Option<TokenModel>,
    pub error: Option<LexError>,
}

pub open spec fn emit(next: int, line: nat, t: TokenModel) -> Step {
    Step { next, line, token: Some(t), error: None }
}

pub open spec fn skip(next: int, line: nat) -> Step {
    Step { next, line, token: None, error: None }
}

pub open spec fn fail(next: int, line: nat, kind: LexErrorKind) -> Step {
    Step { next, line, token: None, error: Some(LexError { kind, line: line as usize }) }
}

/// One step of the scanner at position `i` of `src`, on line `line`.
pub open spec fn step(src: Seq<char>, i: int, line: nat) -> Step {
    let c = src[i];
    let n = src.len() as int;
    if c == ' ' || c == '\r' || c == '\t' {
        skip(i + 1, line)
    } else if c == '\n' {
        skip(i + 1, line + 1)
    } else if single_kind(c) is Some {
        emit(i + 1, line, tok(single_kind(c)->0, src.subrange(i, i + 1), None, line))
    } else if pair_kinds(c) is Some {
        let (k1, k2) = pair_kinds(c)->0;
        if i + 1 < n && src[i + 1] == '=' {
            emit(i + 2, line, tok(k2, src.subrange(i, i + 2), None, line))
        } else {
            emit(i + 1, line, tok(k1, src.subrange(i, i + 1), None, line))
        }
    } else if c == '/' {
        if i + 1 < n && src[i + 1] == '/' {
            skip(find_char(src, i + 2, '\n'), line)
        } else {
            emit(i + 1, line, tok(TokenType::SLASH, src.subrange(i, i + 1), None, line))
        }
    } else if c == '"' {
        let e = find_char(src, i + 1, '"');
        let l2 = line + newlines(src, i + 1, e);
        if e >= n {
            fail(n, l2, LexErrorKind::UnterminatedString)
        } else {
            emit(
                e + 1,
                l2,
                tok(TokenType::STRING, src.subrange(i, e + 1), Some(Val::Text(src.subrange(i + 1, e))), l2),
            )
        }
    } else if is_digit(c) {
        let (k, ds, f) = number_at(src, i);
        match decimal_value(false, digits_value(ds), -(f as int)) {
            Some(n) => emit(k, line, tok(TokenType::NUMBER, src.subrange(i, k), Some(Val::Number(n)), line)),
            None => fail(k, line, LexErrorKind::NumberOutOfRange),
        }
    } else if is_alpha(c) {
        let k = ident_end(src, i);
        let w = src.subrange(i, k);
        match keyword(w) {
            Some(kw) => emit(k, line, tok(kw, w, keyword_literal(kw), line)),
            None => emit(k, line, tok(TokenType::IDENTIFIER, w, None, line)),
        }
    } else {
        fail(i + 1, line, LexErrorKind::UnexpectedCharacter(c))
    }
}

pub open spec fn opt_seq<T>(o: Option<T>) -> Seq<T> {
    match o {
        Some(x) => seq![x],
        None => Seq::empty(),
    }
}

pub proof fn lemma_digits_end(src: Seq<char>, i: int)
    requires
        0 <= i <= src.len(),
    ensures
        i <= digits_end(src, i) <= src.len(),
        forall|j: int| i <= j < digits_end(src, i) ==> is_digit(#[trigger] src[j]),
    decreases src.len() - i,
{
    if i < src.len() && is_digit(src[i]) {
        lemma_digits_end(src, i + 1);
    }
}

pub proof fn lemma_ident_end(src: Seq<char>, i: int)
    requires
        0 <= i <= src.len(),
    ensures
        i <= ident_end(src, i) <= src.len(),
    decreases src.len() - i,
{
    if i < src.len() && is_alnum(src[i]) {
        lemma_ident_end(src, i + 1);
    }
}

pub proof fn lemma_find_char(src: Seq<char>, i: int, c: char)
    requires
        0 <= i,
    ensures
        i <= find_char(src, i, c) <= src.len() || (i > src.len() && find_char(src, i, c) == src.len()),
        find_char(src, i, c) <= src.len() || i > src.len(),
        find_char(src, i, c) >= i || i > src.len(),
    decreases src.len() - i,
{
    if 0 <= i < src.len() && src[i] != c {
        lemma_find_char(src, i + 1, c);
    }
}

pub proof fn lemma_newlines(src: Seq<char>, a: int, b: int)
    ensures
        newlines(src, a, b) <= if b > a { b - a } else { 0 },
    decreases b - a,
{
    if b > a {
        lemma_newlines(src, a, b - 1);
    }
}

/// Each step moves forward, stays within the source, and counts at most the
/// line breaks it passed.
pub proof fn lemma_step(src: Seq<char>, i: int, line: nat)
    requires
        0 <= i < src.len(),
    ensures
        i < step(src, i, line).next <= src.len(),
        step(src, i, line).line <= line + (step(src, i, line).next - i),
{
    let c = src[i];
    lemma_digits_end(src, i);
    lemma_ident_end(src, i);
    lemma_digits_end(src, i + 1);
    lemma_ident_end(src, i + 1);
    lemma_find_char(src, i + 1, '"');
    lemma_find_char(src, i + 2, '\n');
    lemma_newlines(src, i + 1, find_char(src, i + 1, '"'));
    if is_digit(c) {
        let j = digits_end(src, i);
        if j + 1 < src.len() {
            lemma_digits_end(src, j + 1);
        }
    }
}

/// The tokens and errors of scanning `src` from position `i` on line `line`;
/// the tokens end with the end-of-input token.
pub open spec fn scan_from(src: Seq<char>, i: int, line: nat) -> (Seq<TokenModel>, Seq<LexError>)
    decreases src.len() - i,
{
    if i < 0 || i >= src.len() {
        (seq![tok(TokenType::EOF, Seq::empty(), None, line)], Seq::empty())
    } else {
        let s = step(src, i, line);
        proof {
            lemma_step(src, i, line);
        }
        let (ts, es) = scan_from(src, s.next, s.line);
        (opt_seq(s.token) + ts, opt_seq(s.error) + es)
    }
}

/// Scanning always ends with the end-of-input token.
pub proof fn lemma_scan_ends_with_eof(src: Seq<char>, i: int, line: nat)
    ensures
        scan_from(src, i, line).0.len() >= 1,
        scan_from(src, i, line).0.last().token_type == TokenType::EOF,
    decreases src.len() - i,
{
    if 0 <= i < src.len() {
        let s = step(src, i, line);
        lemma_step(src, i, line);
        lemma_scan_ends_with_eof(src, s.next, s.line);
    }
}

/// The end-of-input token comes exactly once: last.
pub proof fn lemma_scan_single_eof(src: Seq<char>, i: int, line: nat)
    ensures
        forall|j: int|
            0 <= j < scan_from(src, i, line).0.len() - 1 ==> (#[trigger] scan_from(src, i, line).0[j]).token_type
                != TokenType::EOF,
        scan_from(src, i, line).0.last().token_type == TokenType::EOF,
    decreases src.len() - i,
{
    lemma_scan_ends_with_eof(src, i, line);
    if 0 <= i < src.len() {
        let s = step(src, i, line);
        lemma_step(src, i, line);
        lemma_scan_single_eof(src, s.next, s.line);
        let rest = scan_from(src, s.next, s.line).0;
        let all = scan_from(src, i, line).0;
        assert(all == opt_seq(s.token) + rest);
        if s.token is Some {
            assert(s.token->0.token_type != TokenType::EOF);
            assert forall|j: int| 0 <= j < all.len() - 1 implies (#[trigger] all[j]).token_type
                != TokenType::EOF by {
                if j > 0 {
                    assert(all[j] == rest[j - 1]);
                }
            }
        } else {
            assert(all =~= rest);
        }
    }
}

/// The tokens of a source text.
pub open spec fn scan_tokens(src: Seq<char>) -> Seq<TokenModel> {
    scan_from(src, 0, 1).0
}

/// The lexical errors of a source text, in order.
pub open spec fn scan_errors(src: Seq<char>) -> Seq<LexError> {
    scan_from(src, 0, 1).1
}

pub open spec fn views(ts: Seq<Token>) -> Seq<TokenModel> {
    ts.map_values(|t: Token| t@)
}

fn single_kind_of(c: char) -> (r: Option<TokenType>)
    ensures
        r == single_kind(c),
{
    if c == '(' {
        Some(TokenType::LEFT_PAREN)
    } else if c == ')' {
        Some(TokenType::RIGHT_PAREN)
    } else if c == '{' {
        Some(TokenType::LEFT_BRACE)
    } else if c == '}' {
        Some(TokenType::RIGHT_BRACE)
    } else if c == ',' {
        Some(TokenType::COMMA)
    } else if c == '.' {
        Some(TokenType::DOT)
    } else if c == '-' {
        Some(TokenType::MINUS)
    } else if c == '+' {
        Some(TokenType::PLUS)
    } else if c == ';' {
        Some(TokenType::SEMICOLON)
    } else if c == '*' {
        Some(TokenType::STAR)
    } else {
        None
    }
}

fn pair_kinds_of(c: char) -> (r: Option<(TokenType, TokenType)>)
    ensures
        r == pair_kinds(c),
{
    if c == '!' {
        Some((TokenType::BANG, TokenType::BANG_EQUAL))
    } else if c == '=' {
        Some((TokenType::EQUAL, TokenType::EQUAL_EQUAL))
    } else if c == '<' {
        Some((TokenType::LESS, TokenType::LESS_EQUAL))
    } else if c == '>' {
        Some((TokenType::GREATER, TokenType::GREATER_EQUAL))
    } else {
        None
    }
}

pub(crate) fn is_digit_char(c: char) -> (r: bool)
    ensures
        r == is_digit(c),
{
    '0' <= c && c <= '9'
}

fn is_alpha_char(c: char) -> (r: bool)
    ensures
        r == is_alpha(c),
{
    ('a' <= c && c <= 'z') || ('A' <= c && c <= 'Z') || c == '_'
}

pub(crate) fn digits_end_of(cs: &Vec<char>, i: usize) -> (r: usize)
    requires
        i <= cs@.len(),
    ensures
        r == digits_end(cs@, i as int),
{
    let mut j = i;
    while j < cs.len() && is_digit_char(cs[j])
        invariant
            i <= j <= cs@.len(),
            digits_end(cs@, j as int) == digits_end(cs@, i as int),
        decreases cs@.len() - j,
    {
        j = j + 1;
    }
    j
}

fn ident_end_of(cs: &Vec<char>, i: usize) -> (r: usize)
    requires
        i <= cs@.len(),
    ensures
        r == ident_end(cs@, i as int),
{
    let mut j = i;
    while j < cs.len() && (is_alpha_char(cs[j]) || is_digit_char(cs[j]))
        invariant
            i <= j <= cs@.len(),
            ident_end(cs@, j as int) == ident_end(cs@, i as int),
        decreases cs@.len() - j,
    {
        j = j + 1;
    }
    j
}

fn find_char_of(cs: &Vec<char>, i: usize, c: char) -> (r: usize)
    requires
        i <= cs@.len(),
    ensures
        r == find_char(cs@, i as int, c),
{
    let mut j = i;
    while j < cs.len() && cs[j] != c
        invariant
            i <= j <= cs@.len(),
            find_char(cs@, j as int, c) == find_char(cs@, i as int, c),
        decreases cs@.len() - j,
    {
        j = j + 1;
    }
    j
}

fn count_newlines(cs: &Vec<char>, a: usize, b: usize) -> (r: usize)
    requires
        a <= b <= cs@.len(),
    ensures
        r == newlines(cs@, a as int, b as int),
{
    let mut j = a;
    let mut count: usize = 0;
    while j < b
        invariant
            a <= j <= b <= cs@.len(),
            count == newlines(cs@, a as int, j as int),
        decreases b - j,
    {
        proof {
            lemma_newlines(cs@, a as int, j as int);
        }
        if cs[j] == '\n' {
            count = count + 1;
        }
        j = j + 1;
    }
    count
}

/// The scanner: turns source text into tokens.
pub struct Tokensizer {
    src: String,
    chars: Vec<char>,
    tokens: Vec<Token>,
    errors: Vec<LexError>,
    start: usize,
    current: usize,
    line: usize,
}

impl Tokensizer {
    pub closed spec fn source(&self) -> Seq<char> {
        self.src@
    }

    pub closed spec fn wf(&self) -> bool {
        &&& self.chars@ == self.src@
        &&& self.chars@.len() <= isize::MAX
    }

    pub fn new(src: String) -> (r: Tokensizer)
        ensures
            r.source() == src@,
            r.wf(),
    {
        let chars = chars_of(src.as_str());
        Tokensizer { src, chars, tokens: Vec::new(), errors: Vec::new(), start: 0, current: 0, line: 1 }
    }

    /// The lexical errors of the last call of `tokenize`, in order.
    pub fn errors(&self) -> (r: &Vec<LexError>)
        ensures
            r@ == self.lex_errors(),
    {
        &self.errors
    }

    pub closed spec fn lex_errors(&self) -> Seq<LexError> {
        self.errors@
    }

    fn add_token(&mut self, k: TokenType, literal: Option<Value>)
        requires
            old(self).start <= old(self).current <= old(self).chars@.len(),
        ensures
            final(self).tokens@ == old(self).tokens@.push(
                Token {
                    token_type: k,
                    lexeme: final(self).tokens@.last().lexeme,
                    literal,
                    line: old(self).line,
                },
            ),
            final(self).tokens@.last().lexeme@ == old(self).chars@.subrange(
                old(self).start as int,
                old(self).current as int,
            ),
            final(self).src == old(self).src,
            final(self).chars == old(self).chars,
            final(self).errors == old(self).errors,
            final(self).start == old(self).start,
            final(self).current == old(self).current,
            final(self).line == old(self).line,
    {
        let text = string_of(&self.chars, self.start, self.current);
        self.tokens.push(Token::new(k, text, literal, self.line));
    }

    /// `new` is `old` after one step of the scanner.
    pub closed spec fn stepped(old: &Tokensizer, new: &Tokensizer) -> bool {
        let s = step(old.chars@, old.current as int, old.line as nat);
        &&& new.current == s.next
        &&& new.line == s.line
        &&& views(new.tokens@) == views(old.tokens@) + opt_seq(s.token)
        &&& new.errors@ == old.errors@ + opt_seq(s.error)
        &&& new.src == old.src
        &&& new.chars == old.chars
    }

    pub closed spec fn ready(&self) -> bool {
        &&& self.start == self.current
        &&& self.current < self.chars@.len()
        &&& self.line <= self.current + 1
        &&& self.chars@.len() <= isize::MAX
    }

    proof fn finish_step(old: &Tokensizer, new: &Tokensizer)
        requires
            ({
                let s = step(old.chars@, old.current as int, old.line as nat);
                &&& new.current == s.next
                &&& new.line == s.line
                &&& new.src == old.src
                &&& new.chars == old.chars
                &&& (s.error matches Some(e) ==> new.errors@ == old.errors@.push(e))
                &&& (s.error is None ==> new.errors@ == old.errors@)
                &&& (s.token matches Some(t) ==> new.tokens@ == old.tokens@.push(new.tokens@.last())
                    && new.tokens@.last()@ == t)
                &&& (s.token is None ==> new.tokens@ == old.tokens@)
            }),
        ensures
            Tokensizer::stepped(old, new),
    {
        let s = step(old.chars@, old.current as int, old.line as nat);
        assert(views(new.tokens@) =~= views(old.tokens@) + opt_seq(s.token));
        assert(new.errors@ =~= old.errors@ + opt_seq(s.error));
    }

    fn scan_string(&mut self)
        requires
            old(self).ready(),
            old(self).chars@[old(self).current as int] == '"',
        ensures
            Tokensizer::stepped(old(self), final(self)),
    {
        let ghost src = self.chars@;
        let i = self.current;
        let n = self.chars.len();
        proof {
            lemma_find_char(src, i + 1, '"');
            lemma_newlines(src, i + 1, find_char(src, i + 1, '"'));
        }
        let e = find_char_of(&self.chars, i + 1, '"');
        let nl = count_newlines(&self.chars, i + 1, e);
        self.line = self.line + nl;
        if e >= n {
            self.current = n;
            self.errors.push(LexError { kind: LexErrorKind::UnterminatedString, line: self.line });
        } else {
            self.current = e + 1;
            let text = string_of(&self.chars, i + 1, e);
            self.add_token(TokenType::STRING, Some(Value::Text(text)));
        }
        proof {
            Tokensizer::finish_step(old(self), self);
        }
    }

    fn scan_number(&mut self)
        requires
            old(self).ready(),
            is_digit(old(self).chars@[old(self).current as int]),
        ensures
            Tokensizer::stepped(old(self), final(self)),
    {
        let ghost src = self.chars@;
        let i = self.current;
        let n = self.chars.len();
        proof {
            lemma_step(src, i as int, self.line as nat);
            lemma_digits_end(src, i as int);
        }
        let j = digits_end_of(&self.chars, i);
        let mut k = j;
        let mut ds: Vec<char> = Vec::new();
        let mut frac: usize = 0;
        if j + 1 < n && self.chars[j] == '.' && is_digit_char(self.chars[j + 1]) {
            proof {
                lemma_digits_end(src, j + 1);
            }
            k = digits_end_of(&self.chars, j + 1);
            frac = k - j - 1;
        }
        self.current = k;
        {
            copy_range(&self.chars, i, j, &mut ds);
            if frac > 0 {
                copy_range(&self.chars, j + 1, k, &mut ds);
            }
            let ghost (k2, ds2, f2) = number_at(src, i as int);
            assert(ds@ =~= ds2);
            proof {
                if frac > 0 {
                    lemma_digits_end(src, j + 1);
                }
                assert forall|x: int| 0 <= x < ds@.len() implies is_digit(#[trigger] ds@[x]) by {
                    if x >= j - i {
                        assert(ds@[x] == src[j + 1 + x - (j - i)]);
                    } else {
                        assert(ds@[x] == src[i + x]);
                    }
                }
            }
            match Number::from_decimal_text(false, &ds, -(frac as i128)) {
                Some(v) => self.add_token(TokenType::NUMBER, Some(Value::Number(v))),
                None => self.errors.push(LexError { kind: LexErrorKind::NumberOutOfRange, line: self.line }),
            }
        }
        proof {
            Tokensizer::finish_step(old(self), self);
        }
    }

    fn scan_word(&mut self)
        requires
            old(self).ready(),
            is_alpha(old(self).chars@[old(self).current as int]),
        ensures
            Tokensizer::stepped(old(self), final(self)),
    {
        let ghost src = self.chars@;
        let i = self.current;
        proof {
            lemma_ident_end(src, i as int);
        }
        let k = ident_end_of(&self.chars, i);
        self.current = k;
        match keyword_of(&self.chars, i, k) {
            Some(kw) => {
                let literal = if kw == TokenType::TRUE {
                    Some(Value::Boolean(true))
                } else if kw == TokenType::FALSE {
                    Some(Value::Boolean(false))
                } else if kw == TokenType::NIL {
                    Some(Value::Nil)
                } else {
                    None
                };
                self.add_token(kw, literal);
            },
            None => self.add_token(TokenType::IDENTIFIER, None),
        }
        proof {
            Tokensizer::finish_step(old(self), self);
        }
    }

    fn scan_token(&mut self)
        requires
            old(self).ready(),
        ensures
            Tokensizer::stepped(old(self), final(self)),
    {
        let ghost src = self.chars@;
        let i = self.current;
        let n = self.chars.len();
        proof {
            lemma_step(src, i as int, self.line as nat);
            lemma_find_char(src, i + 2, '\n');
        }
        let c = self.chars[i];
        if c == ' ' || c == '\r' || c == '\t' {
            self.current = i + 1;
        } else if c == '\n' {
            self.current = i + 1;
            self.line = self.line + 1;
        } else if let Some(k) = single_kind_of(c) {
            self.current = i + 1;
            self.add_token(k, None);
        } else if let Some((k1, k2)) = pair_kinds_of(c) {
            if i + 1 < n && self.chars[i + 1] == '=' {
                self.current = i + 2;
                self.add_token(k2, None);
            } else {
                self.current = i + 1;
                self.add_token(k1, None);
            }
        } else if c == '/' {
            if i + 1 < n && self.chars[i + 1] == '/' {
                self.current = find_char_of(&self.chars, i + 2, '\n');
            } else {
                self.current = i + 1;
                self.add_token(TokenType::SLASH, None);
            }
        } else if c == '"' {
            self.scan_string();
            return;
        } else if is_digit_char(c) {
            self.scan_number();
            return;
        } else if is_alpha_char(c) {
            self.scan_word();
            return;
        } else {
            self.current = i + 1;
            self.errors.push(LexError { kind: LexErrorKind::UnexpectedCharacter(c), line: self.line });
        }
        proof {
            Tokensizer::finish_step(old(self), self);
        }
    }

    /// Scans the whole source: the tokens in order, ending with the
    /// end-of-input token. The lexical errors met are kept for `errors`;
    /// scanning goes on after each of them.
    pub fn tokenize(&mut self) -> (r: Vec<Token>)
        requires
            old(self).wf(),
        ensures
            final(self).wf(),
            views(r@) == scan_tokens(old(self).source()),
            final(self).lex_errors() == scan_errors(old(self).source()),
            final(self).source() == old(self).source(),
    {
        self.tokens = Vec::new();
        self.errors = Vec::new();
        self.start = 0;
        self.current = 0;
        self.line = 1;
        let ghost src = self.chars@;
        while self.current < self.chars.len()
            invariant
                self.chars@ == src,
                src == self.src@,
                self.src == old(self).src,
                self.current <= src.len(),
                src.len() <= isize::MAX,
                self.line <= self.current + 1,
                views(self.tokens@) + scan_from(src, self.current as int, self.line as nat).0
                    == scan_from(src, 0, 1).0,
                self.errors@ + scan_from(src, self.current as int, self.line as nat).1
                    == scan_from(src, 0, 1).1,
            decreases src.len() - self.current,
        {
            proof {
                lemma_step(src, self.current as int, self.line as nat);
            }
            let ghost prev = *self;
            let ghost before_t = views(self.tokens@);
            let ghost before_e = self.errors@;
            let ghost s = step(src, self.current as int, self.line as nat);
            self.start = self.current;
            self.scan_token();
            assert(Tokensizer::stepped(&prev, self));
            proof {
                assert(before_t + (opt_seq(s.token) + scan_from(src, s.next, s.line).0)
                    == (before_t + opt_seq(s.token)) + scan_from(src, s.next, s.line).0);
                assert(before_e + (opt_seq(s.error) + scan_from(src, s.next, s.line).1)
                    == (before_e + opt_seq(s.error)) + scan_from(src, s.next, s.line).1);
            }
        }
        let eof = Token::new(TokenType::EOF, String::new(), None, self.line);
        self.tokens.push(eof);
        proof {
            assert(views(self.tokens@) =~= views(self.tokens@.drop_last()) + seq![eof@]);
        }
        copy_tokens(&self.tokens)
    }
}

fn copy_tokens(ts: &Vec<Token>) -> (r: Vec<Token>)
    ensures
        r@ == ts@,
{
    let mut r: Vec<Token> = Vec::new();
    let mut i: usize = 0;
    while i < ts.len()
        invariant
            i <= ts@.len(),
            r@ == ts@.subrange(0, i as int),
        decreases ts@.len() - i,
    {
        r.push(ts[i].duplicate());
        i = i + 1;
        assert(r@ =~= ts@.subrange(0, i as int));
    }
    assert(r@ =~= ts@);
    r
}

pub(crate) fn copy_range(cs: &Vec<char>, a: usize, b: usize, out: &mut Vec<char>)
    requires
        a <= b <= cs@.len(),
    ensures
        final(out)@ == old(out)@ + cs@.subrange(a as int, b as int),
{
    let mut j = a;
    while j < b
        invariant
            a <= j <= b <= cs@.len(),
            out@ == old(out)@ + cs@.subrange(a as int, j as int),
        decreases b - j,
    {
        out.push(cs[j]);
        j = j + 1;
        assert(out@ =~= old(out)@ + cs@.subrange(a as int, j as int));
    }
}

} // verus!
