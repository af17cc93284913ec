//! Lexical tokens: the closed set of token kinds, the literal payloads that
//! number, string and identifier tokens carry, and the keyword table.

use vstd::prelude::*;
use vstd::string::StrSliceExecFns;

verus! {

/// The closed classification of a token.
#[derive(Clone, Copy, PartialEq, Eq, Structural, Debug)]
pub enum TokenType {
    LeftParen,
    RightParen,
    LeftBrace,
    RightBrace,
    Comma,
    Dot,
    Minus,
    Plus,
    Semicolon,
    Slash,
    Star,
    Bang,
    BangEqual,
    Equal,
    EqualEqual,
    Greater,
    GreaterEqual,
    Less,
    LessEqual,
    Identifier,
    Str,
    Number,
    And,
    Class,
    Else,
    False,
    Fun,
    For,
    If,
    Nil,
    Or,
    Print,
    Return,
    Super,
    This,
    True,
    Var,
    While,
    Eof,
}

/// The payload of a literal-bearing token: the canonical decimal text of a
/// number, or the text of a string or identifier.
#[derive(PartialEq, Debug)]
pub enum LiteralValue {
    Number(String),
    Text(String),
}

/// Mathematical model of a `LiteralValue`.
pub enum SpecLiteral {
    Number(Seq<char>),
    Text(Seq<char>),
}

impl View for LiteralValue {
    type V = SpecLiteral;

    open spec fn view(&self) -> SpecLiteral {
        match self {
            LiteralValue::Number(s) => SpecLiteral::Number(s@),
            LiteralValue::Text(s) => SpecLiteral::Text(s@),
        }
    }
}

/// An immutable lexical token: its kind, the exact source substring it was
/// scanned from, the 1-based line it starts on, and its literal payload.
#[derive(PartialEq, Debug)]
pub struct Token {
    pub token_type: TokenType,
    pub lexeme: String,
    pub line: usize,
    pub value: Option<LiteralValue>,
}

/// Mathematical model of a `Token`.
pub struct SpecToken {
    pub token_type: TokenType,
    pub lexeme: Seq<char>,
    pub line: nat,
    pub value: Option<SpecLiteral>,
}

impl View for Token {
    type V = SpecToken;

    open spec fn view(&self) -> SpecToken {
        SpecToken {
            token_type: self.token_type,
            lexeme: self.lexeme@,
            line: self.line as nat,
            value: match self.value {
                Option::None => Option::None,
                Option::Some(v) => Option::Some(v@),
            },
        }
    }
}

impl Clone for LiteralValue {
    fn clone(&self) -> (r: LiteralValue)
        ensures
            r == *self,
    {
        match self {
            LiteralValue::Number(s) => LiteralValue::Number(s.clone()),
            LiteralValue::Text(s) => LiteralValue::Text(s.clone()),
        }
    }
}

impl Clone for Token {
    fn clone(&self) -> (r: Token)
        ensures
            r == *self,
    {
        Token {
            token_type: self.token_type,
            lexeme: self.lexeme.clone(),
            line: self.line,
            value: match &self.value {
                Option::Some(v) => Option::Some(v.clone()),
                Option::None => Option::None,
            },
        }
    }
}

impl Token {
    pub fn new(token_type: TokenType, lexeme: String, line: usize, value: Option<LiteralValue>) -> (t: Token)
        ensures
            t.token_type == token_type,
            t.lexeme == lexeme,
            t.line == line,
            t.value == value,
    {
        Token { token_type, lexeme, line, value }
    }
}

/// The fixed keyword table: the kind an identifier-shaped word denotes, if it
/// is a reserved word.
pub open spec fn keyword_type(s: Seq<char>) -> Option<TokenType> {
    if s == "and"@ {
        Some(TokenType::And)
    } else if s == "class"@ {
        Some(TokenType::Class)
    } else if s == "else"@ {
        Some(TokenType::Else)
    } else if s == "false"@ {
        Some(TokenType::False)
    } else if s == "fun"@ {
        Some(TokenType::Fun)
    } else if s == "for"@ {
        Some(TokenType::For)
    } else if s == "if"@ {
        Some(TokenType::If)
    } else if s == "nil"@ {
        Some(TokenType::Nil)
    } else if s == "or"@ {
        Some(TokenType::Or)
    } else if s == "print"@ {
        Some(TokenType::Print)
    } else if s == "return"@ {
        Some(TokenType::Return)
    } else if s == "super"@ {
        Some(TokenType::Super)
    } else if s == "this"@ {
        Some(TokenType::This)
    } else if s == "true"@ {
        Some(TokenType::True)
    } else if s == "var"@ {
        Some(TokenType::Var)
    } else if s == "while"@ {
        Some(TokenType::While)
    } else {
        None
    }
}

/// Character-for-character equality of two string slices.
pub fn str_eq(a: &str, b: &str) -> (r: bool)
    ensures
        r == (a@ == b@),
{
    let an = a.unicode_len();
    let bn = b.unicode_len();
    if an != bn {
        return false;
    }
    let mut i: usize = 0;
    while i < an
        invariant
            an == a@.len(),
            an == b@.len(),
            i <= an,
            forall|j: int| 0 <= j < i ==> a@[j] == b@[j],
        decreases an - i,
    {
        if a.get_char(i) != b.get_char(i) {
            return false;
        }
        i += 1;
    }
    proof {
        assert(a@ =~= b@);
    }
    true
}

/// Looks an identifier-shaped word up in the keyword table.
pub fn keyword_type_of(s: &str) -> (r: Option<TokenType>)
    ensures
        r == keyword_type(s@),
{
    if str_eq(s, "and") {
        Some(TokenType::And)
    } else if str_eq(s, "class") {
        Some(TokenType::Class)
    } else if str_eq(s, "else") {
        Some(TokenType::Else)
    } else if str_eq(s, "false") {
        Some(TokenType::False)
    } else if str_eq(s, "fun") {
        Some(TokenType::Fun)
    } else if str_eq(s, "for") {
        Some(TokenType::For)
    } else if str_eq(s, "if") {
        Some(TokenType::If)
    } else if str_eq(s, "nil") {
        Some(TokenType::Nil)
    } else if str_eq(s, "or") {
        Some(TokenType::Or)
    } else if str_eq(s, "print") {
        Some(TokenType::Print)
    } else if str_eq(s, "return") {
        Some(TokenType::Return)
    } else if str_eq(s, "super") {
        Some(TokenType::Super)
    } else if str_eq(s, "this") {
        Some(TokenType::This)
    } else if str_eq(s, "true") {
        Some(TokenType::True)
    } else if str_eq(s, "var") {
        Some(TokenType::Var)
    } else if str_eq(s, "while") {
        Some(TokenType::While)
    } else {
        None
    }
}

} // verus!
