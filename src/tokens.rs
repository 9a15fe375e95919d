//! Tokens, their kinds, and the table of reserved spellings.
use vstd::prelude::*;

verus! {

/// What a token is, with the value it carries where it carries one.
#[derive(Debug, Clone, PartialEq)]
pub enum TokenType {
    /// A real-number literal, kept as its decimal spelling (digits, a dot, digits).
    Real(String),
    UInt(usize),
    Identifier(String),
    /// The text between the quotes of a string literal.
    StringLiteral(String),
    /// The bytes after `//` up to the end of the line.
    Comment(Vec<u8>),
    // keywords
    Openqasm,
    Include,
    Qreg,
    Creg,
    Barrier,
    Gate,
    If,
    Measure,
    Opaque,
    Reset,
    // builtin constant
    Pi,
    // builtin gates
    U,
    CX,
    // builtin unary functions
    Sin,
    Cos,
    Tan,
    Exp,
    Ln,
    Sqrt,
    // punctuation
    Plus,
    Minus,
    Times,
    Devide,
    Power,
    Comma,
    Semicolon,
    DoubleEqual,
    Arrow,
    // brackets
    LParen,
    RParen,
    LBrace,
    RBrace,
    LSqBracket,
    RSqBracket,
}

/// The mathematical value of a token kind: payloads as sequences and numbers.
pub enum Kind {
    Real(Seq<char>),
    UInt(nat),
    Identifier(Seq<char>),
    StringLiteral(Seq<char>),
    Comment(Seq<u8>),
    /// A kind without payload, spelled by a reserved word or punctuation.
    Fixed(TokenType),
}

impl View for TokenType {
    type V = Kind;

    open spec fn view(&self) -> Kind {
        match self {
            TokenType::Real(s) => Kind::Real(s@),
            TokenType::UInt(n) => Kind::UInt(*n as nat),
            TokenType::Identifier(s) => Kind::Identifier(s@),
            TokenType::StringLiteral(s) => Kind::StringLiteral(s@),
            TokenType::Comment(b) => Kind::Comment(b@),
            _ => Kind::Fixed(*self),
        }
    }
}

/// The source spelling (ASCII bytes) of each kind without payload.
pub open spec fn spelling(k: TokenType) -> Seq<u8> {
    match k {
        TokenType::Openqasm => seq![0x4fu8, 0x50u8, 0x45u8, 0x4eu8, 0x51u8, 0x41u8, 0x53u8, 0x4du8],  // OPENQASM
        TokenType::Include => seq![0x69u8, 0x6eu8, 0x63u8, 0x6cu8, 0x75u8, 0x64u8, 0x65u8],  // include
        TokenType::Qreg => seq![0x71u8, 0x72u8, 0x65u8, 0x67u8],  // qreg
        TokenType::Creg => seq![0x63u8, 0x72u8, 0x65u8, 0x67u8],  // creg
        TokenType::Barrier => seq![0x62u8, 0x61u8, 0x72u8, 0x72u8, 0x69u8, 0x65u8, 0x72u8],  // barrier
        TokenType::Gate => seq![0x67u8, 0x61u8, 0x74u8, 0x65u8],  // gate
        TokenType::If => seq![0x69u8, 0x66u8],  // if
        TokenType::Measure => seq![0x6du8, 0x65u8, 0x61u8, 0x73u8, 0x75u8, 0x72u8, 0x65u8],  // measure
        TokenType::Opaque => seq![0x6fu8, 0x70u8, 0x61u8, 0x71u8, 0x75u8, 0x65u8],  // opaque
        TokenType::Reset => seq![0x72u8, 0x65u8, 0x73u8, 0x65u8, 0x74u8],  // reset
        TokenType::Pi => seq![0x70u8, 0x69u8],  // pi
        TokenType::U => seq![0x55u8],  // U
        TokenType::CX => seq![0x43u8, 0x58u8],  // CX
        TokenType::Sin => seq![0x73u8, 0x69u8, 0x6eu8],  // sin
        TokenType::Cos => seq![0x63u8, 0x6fu8, 0x73u8],  // cos
        TokenType::Tan => seq![0x74u8, 0x61u8, 0x6eu8],  // tan
        TokenType::Exp => seq![0x65u8, 0x78u8, 0x70u8],  // exp
        TokenType::Ln => seq![0x6cu8, 0x6eu8],  // ln
        TokenType::Sqrt => seq![0x73u8, 0x71u8, 0x72u8, 0x74u8],  // sqrt
        TokenType::Plus => seq![0x2bu8],  // +
        TokenType::Minus => seq![0x2du8],  // -
        TokenType::Times => seq![0x2au8],  // *
        TokenType::Devide => seq![0x2fu8],  // /
        TokenType::Power => seq![0x5eu8],  // ^
        TokenType::Comma => seq![0x2cu8],  // ,
        TokenType::Semicolon => seq![0x3bu8],  // ;
        TokenType::DoubleEqual => seq![0x3du8, 0x3du8],  // ==
        TokenType::Arrow => seq![0x2du8, 0x3eu8],  // ->
        TokenType::LParen => seq![0x28u8],  // (
        TokenType::RParen => seq![0x29u8],  // )
        TokenType::LBrace => seq![0x7bu8],  // {
        TokenType::RBrace => seq![0x7du8],  // }
        TokenType::LSqBracket => seq![0x5bu8],  // [
        TokenType::RSqBracket => seq![0x5du8],  // ]
        _ => seq![],
    }
}

/// The kind that a delimited run of bytes spells exactly, if it is reserved.
pub open spec fn keyword_kind(s: Seq<u8>) -> Option<TokenType> {
    if s =~= spelling(TokenType::Openqasm) {
        Some(TokenType::Openqasm)
    } else if s =~= spelling(TokenType::Include) {
        Some(TokenType::Include)
    } else if s =~= spelling(TokenType::Qreg) {
        Some(TokenType::Qreg)
    } else if s =~= spelling(TokenType::Creg) {
        Some(TokenType::Creg)
    } else if s =~= spelling(TokenType::Barrier) {
        Some(TokenType::Barrier)
    } else if s =~= spelling(TokenType::Gate) {
        Some(TokenType::Gate)
    } else if s =~= spelling(TokenType::If) {
        Some(TokenType::If)
    } else if s =~= spelling(TokenType::Measure) {
        Some(TokenType::Measure)
    } else if s =~= spelling(TokenType::Opaque) {
        Some(TokenType::Opaque)
    } else if s =~= spelling(TokenType::Reset) {
        Some(TokenType::Reset)
    } else if s =~= spelling(TokenType::Pi) {
        Some(TokenType::Pi)
    } else if s =~= spelling(TokenType::U) {
        Some(TokenType::U)
    } else if s =~= spelling(TokenType::CX) {
        Some(TokenType::CX)
    } else if s =~= spelling(TokenType::Sin) {
        Some(TokenType::Sin)
    } else if s =~= spelling(TokenType::Cos) {
        Some(TokenType::Cos)
    } else if s =~= spelling(TokenType::Tan) {
        Some(TokenType::Tan)
    } else if s =~= spelling(TokenType::Exp) {
        Some(TokenType::Exp)
    } else if s =~= spelling(TokenType::Ln) {
        Some(TokenType::Ln)
    } else if s =~= spelling(TokenType::Sqrt) {
        Some(TokenType::Sqrt)
    } else if s =~= spelling(TokenType::Plus) {
        Some(TokenType::Plus)
    } else if s =~= spelling(TokenType::Minus) {
        Some(TokenType::Minus)
    } else if s =~= spelling(TokenType::Times) {
        Some(TokenType::Times)
    } else if s =~= spelling(TokenType::Devide) {
        Some(TokenType::Devide)
    } else if s =~= spelling(TokenType::Power) {
        Some(TokenType::Power)
    } else if s =~= spelling(TokenType::Comma) {
        Some(TokenType::Comma)
    } else if s =~= spelling(TokenType::Semicolon) {
        Some(TokenType::Semicolon)
    } else if s =~= spelling(TokenType::DoubleEqual) {
        Some(TokenType::DoubleEqual)
    } else if s =~= spelling(TokenType::Arrow) {
        Some(TokenType::Arrow)
    } else if s =~= spelling(TokenType::LParen) {
        Some(TokenType::LParen)
    } else if s =~= spelling(TokenType::RParen) {
        Some(TokenType::RParen)
    } else if s =~= spelling(TokenType::LBrace) {
        Some(TokenType::LBrace)
    } else if s =~= spelling(TokenType::RBrace) {
        Some(TokenType::RBrace)
    } else if s =~= spelling(TokenType::LSqBracket) {
        Some(TokenType::LSqBracket)
    } else if s =~= spelling(TokenType::RSqBracket) {
        Some(TokenType::RSqBracket)
    } else {
        None
    }
}

/// A positioned token of one source file.
#[derive(Debug, Clone, PartialEq)]
pub struct Token {
    pub token: TokenType,
    pub filename: String,
    /// Byte offset of the token's text in the source.
    pub pos: usize,
    /// Length in bytes of the token's text.
    pub len: usize,
}

impl Token {
    pub fn is_comment(&self) -> (r: bool)
        ensures
            r == (self.token is Comment),
    {
        match self.token {
            TokenType::Comment(_) => true,
            _ => false,
        }
    }

    pub fn is_include(&self) -> (r: bool)
        ensures
            r == (self.token is Include),
    {
        match self.token {
            TokenType::Include => true,
            _ => false,
        }
    }
}

fn same_bytes(s: &[u8], t: &[u8]) -> (r: bool)
    ensures
        r == (s@ =~= t@),
{
    if s.len() != t.len() {
        return false;
    }
    let mut i: usize = 0;
    while i < s.len()
        invariant
            s@.len() == t@.len(),
            0 <= i <= s@.len(),
            forall|j: int| 0 <= j < i ==> s@[j] == t@[j],
        decreases s@.len() - i,
    {
        if s[i] != t[i] {
            return false;
        }
        i += 1;
    }
    assert(s@ =~= t@);
    true
}

/// Looks the whole of `s` up among the reserved spellings; no prefix matches.
pub fn match_keyword_exact(s: &[u8]) -> (r: Option<TokenType>)
    ensures
        r == keyword_kind(s@),
{
    if same_bytes(s, &[0x4fu8, 0x50u8, 0x45u8, 0x4eu8, 0x51u8, 0x41u8, 0x53u8, 0x4du8]) {
        return Some(TokenType::Openqasm);
    }
    if same_bytes(s, &[0x69u8, 0x6eu8, 0x63u8, 0x6cu8, 0x75u8, 0x64u8, 0x65u8]) {
        return Some(TokenType::Include);
    }
    if same_bytes(s, &[0x71u8, 0x72u8, 0x65u8, 0x67u8]) {
        return Some(TokenType::Qreg);
    }
    if same_bytes(s, &[0x63u8, 0x72u8, 0x65u8, 0x67u8]) {
        return Some(TokenType::Creg);
    }
    if same_bytes(s, &[0x62u8, 0x61u8, 0x72u8, 0x72u8, 0x69u8, 0x65u8, 0x72u8]) {
        return Some(TokenType::Barrier);
    }
    if same_bytes(s, &[0x67u8, 0x61u8, 0x74u8, 0x65u8]) {
        return Some(TokenType::Gate);
    }
    if same_bytes(s, &[0x69u8, 0x66u8]) {
        return Some(TokenType::If);
    }
    if same_bytes(s, &[0x6du8, 0x65u8, 0x61u8, 0x73u8, 0x75u8, 0x72u8, 0x65u8]) {
        return Some(TokenType::Measure);
    }
    if same_bytes(s, &[0x6fu8, 0x70u8, 0x61u8, 0x71u8, 0x75u8, 0x65u8]) {
        return Some(TokenType::Opaque);
    }
    if same_bytes(s, &[0x72u8, 0x65u8, 0x73u8, 0x65u8, 0x74u8]) {
        return Some(TokenType::Reset);
    }
    if same_bytes(s, &[0x70u8, 0x69u8]) {
        return Some(TokenType::Pi);
    }
    if same_bytes(s, &[0x55u8]) {
        return Some(TokenType::U);
    }
    if same_bytes(s, &[0x43u8, 0x58u8]) {
        return Some(TokenType::CX);
    }
    if same_bytes(s, &[0x73u8, 0x69u8, 0x6eu8]) {
        return Some(TokenType::Sin);
    }
    if same_bytes(s, &[0x63u8, 0x6fu8, 0x73u8]) {
        return Some(TokenType::Cos);
    }
    if same_bytes(s, &[0x74u8, 0x61u8, 0x6eu8]) {
        return Some(TokenType::Tan);
    }
    if same_bytes(s, &[0x65u8, 0x78u8, 0x70u8]) {
        return Some(TokenType::Exp);
    }
    if same_bytes(s, &[0x6cu8, 0x6eu8]) {
        return Some(TokenType::Ln);
    }
    if same_bytes(s, &[0x73u8, 0x71u8, 0x72u8, 0x74u8]) {
        return Some(TokenType::Sqrt);
    }
    if same_bytes(s, &[0x2bu8]) {
        return Some(TokenType::Plus);
    }
    if same_bytes(s, &[0x2du8]) {
        return Some(TokenType::Minus);
    }
    if same_bytes(s, &[0x2au8]) {
        return Some(TokenType::Times);
    }
    if same_bytes(s, &[0x2fu8]) {
        return Some(TokenType::Devide);
    }
    if same_bytes(s, &[0x5eu8]) {
        return Some(TokenType::Power);
    }
    if same_bytes(s, &[0x2cu8]) {
        return Some(TokenType::Comma);
    }
    if same_bytes(s, &[0x3bu8]) {
        return Some(TokenType::Semicolon);
    }
    if same_bytes(s, &[0x3du8, 0x3du8]) {
        return Some(TokenType::DoubleEqual);
    }
    if same_bytes(s, &[0x2du8, 0x3eu8]) {
        return Some(TokenType::Arrow);
    }
    if same_bytes(s, &[0x28u8]) {
        return Some(TokenType::LParen);
    }
    if same_bytes(s, &[0x29u8]) {
        return Some(TokenType::RParen);
    }
    if same_bytes(s, &[0x7bu8]) {
        return Some(TokenType::LBrace);
    }
    if same_bytes(s, &[0x7du8]) {
        return Some(TokenType::RBrace);
    }
    if same_bytes(s, &[0x5bu8]) {
        return Some(TokenType::LSqBracket);
    }
    if same_bytes(s, &[0x5du8]) {
        return Some(TokenType::RSqBracket);
    }
    None
}

} // verus!
